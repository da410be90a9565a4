use tracedecode::image::{get_instruction, Image, Section};
use tracedecode::reconstruct::reconstruct;
use tracedecode::trace_decoder::{
    Address, AddressBranchMap, NoAddressBranchMap, Packet, Reader, Support, Sync, parse,
};
use tracedecode::{parse_trace, Error};

// ---- helpers: a little LSB-first bit writer that frames trace packets ----

fn put_bits(bytes: &mut Vec<u8>, pos: &mut usize, value: u64, n: usize) {
    for k in 0..n {
        let bit = ((value >> k) & 1) as u8;
        let byte_i = (*pos + k) / 8;
        while bytes.len() <= byte_i {
            bytes.push(0);
        }
        bytes[byte_i] |= bit << ((*pos + k) % 8);
    }
    *pos += n;
}

fn emit_sync(bytes: &mut Vec<u8>, pos: &mut usize, index: u64, branch: bool, address: u32) {
    let start = *pos;
    put_bits(bytes, pos, 8, 5); // length: 8 bytes
    put_bits(bytes, pos, 0, 3);
    put_bits(bytes, pos, index, 16);
    put_bits(bytes, pos, 0b11, 2);
    put_bits(bytes, pos, 0, 2); // subformat: start
    put_bits(bytes, pos, if branch { 1 } else { 0 }, 1);
    put_bits(bytes, pos, 0, 1); // privilege
    put_bits(bytes, pos, (address >> 1) as u64, 31);
    put_bits(bytes, pos, 0, 3);
    assert_eq!(*pos, start + 64);
}

fn emit_address(bytes: &mut Vec<u8>, pos: &mut usize, index: u64, address: u32) {
    let start = *pos;
    put_bits(bytes, pos, 8, 5); // length: 8 bytes
    put_bits(bytes, pos, 0, 3);
    put_bits(bytes, pos, index, 16);
    put_bits(bytes, pos, 0b10, 2);
    put_bits(bytes, pos, (address >> 1) as u64, 31);
    put_bits(bytes, pos, 0, 1); // notify
    put_bits(bytes, pos, 0, 1); // updiscon
    put_bits(bytes, pos, 0, 5);
    assert_eq!(*pos, start + 64);
}

fn emit_support(bytes: &mut Vec<u8>, pos: &mut usize, index: u64) {
    let start = *pos;
    put_bits(bytes, pos, 4, 5); // length: 4 bytes
    put_bits(bytes, pos, 0, 3);
    put_bits(bytes, pos, index, 16);
    put_bits(bytes, pos, 0b11, 2);
    put_bits(bytes, pos, 3, 2); // subformat: support
    put_bits(bytes, pos, 1, 1); // enable
    put_bits(bytes, pos, 0, 2); // qual_status
    put_bits(bytes, pos, 0, 1);
    assert_eq!(*pos, start + 32);
}

fn emit_branch_map_32(bytes: &mut Vec<u8>, pos: &mut usize, index: u64) {
    // format one with a zero branches field: no map body, no address
    let start = *pos;
    put_bits(bytes, pos, 5, 5); // length: 5 bytes
    put_bits(bytes, pos, 0, 3);
    put_bits(bytes, pos, index, 16);
    put_bits(bytes, pos, 0b01, 2);
    put_bits(bytes, pos, 0, 5); // branches == 0
    put_bits(bytes, pos, 0, 2);
    put_bits(bytes, pos, 0, 7); // pad to the advertised length
    assert_eq!(*pos, start + 40);
}

fn nop_image(base: u32, len: usize) -> Image {
    // addi x0, x0, 0 repeated
    let mut data = Vec::new();
    for k in 0..len {
        data.push(if k % 4 == 0 { 0x13 } else { 0x00 });
    }
    Image { sections: vec![Section { address: base as u64, data }] }
}

// ---- the packet decoder on its own ----

#[test]
fn test_parse_three_packets_contiguous_indices() {
    let mut bytes = Vec::new();
    let mut pos = 0;
    emit_sync(&mut bytes, &mut pos, 7, false, 0x4200_0000);
    emit_address(&mut bytes, &mut pos, 8, 0x4200_0010);
    emit_support(&mut bytes, &mut pos, 9);
    let packets = parse(&bytes).unwrap();
    assert_eq!(packets.len(), 3);
    match packets[0] {
        Packet::Sync(i, s) => {
            assert_eq!(i, 7);
            assert_eq!(s.address, 0x4200_0000);
            assert!(!s.branch);
        }
        _ => panic!("expected a sync packet"),
    }
    match packets[1] {
        Packet::Address(i, a) => {
            assert_eq!(i, 8);
            assert_eq!(a.address, 0x4200_0010);
        }
        _ => panic!("expected an address packet"),
    }
    match packets[2] {
        Packet::Support(i, s) => {
            assert_eq!(i, 9);
            assert!(s.enable);
            assert_eq!(s.qual_status, 0);
        }
        _ => panic!("expected a support packet"),
    }
}

#[test]
fn test_parse_stops_on_index_gap() {
    let mut bytes = Vec::new();
    let mut pos = 0;
    emit_sync(&mut bytes, &mut pos, 0, false, 0x4200_0000);
    emit_address(&mut bytes, &mut pos, 1, 0x4200_0008);
    emit_address(&mut bytes, &mut pos, 5, 0x4300_0000); // gap: 1 -> 5
    emit_support(&mut bytes, &mut pos, 6);
    let packets = parse(&bytes).unwrap();
    assert_eq!(packets.len(), 2);
}

#[test]
fn test_parse_index_wraps_modulo_16_bits() {
    let mut bytes = Vec::new();
    let mut pos = 0;
    emit_sync(&mut bytes, &mut pos, 0xffff, false, 0x4200_0000);
    emit_address(&mut bytes, &mut pos, 0, 0x4200_0008);
    let packets = parse(&bytes).unwrap();
    assert_eq!(packets.len(), 2);
}

#[test]
fn test_parse_empty_stream() {
    let packets = parse(&[]).unwrap();
    assert_eq!(packets.len(), 0);
}

#[test]
fn test_parse_branch_map_with_address() {
    // format one, one branch: carries a map bit and an address
    let mut bytes = Vec::new();
    let mut pos = 0;
    let start = pos;
    put_bits(&mut bytes, &mut pos, 9, 5); // length: 9 bytes
    put_bits(&mut bytes, &mut pos, 0, 3);
    put_bits(&mut bytes, &mut pos, 3, 16);
    put_bits(&mut bytes, &mut pos, 0b01, 2);
    put_bits(&mut bytes, &mut pos, 1, 5); // branches == 1
    put_bits(&mut bytes, &mut pos, 1, 1); // map: branch not taken
    put_bits(&mut bytes, &mut pos, (0x4400_0000u32 >> 1) as u64, 31);
    put_bits(&mut bytes, &mut pos, 0, 1);
    put_bits(&mut bytes, &mut pos, 0, 1);
    put_bits(&mut bytes, &mut pos, 0, 7);
    assert_eq!(pos, start + 72);
    let packets = parse(&bytes).unwrap();
    assert_eq!(packets.len(), 1);
    match packets[0] {
        Packet::AddressBranchMap(i, m) => {
            assert_eq!(i, 3);
            assert_eq!(m.branches, 1);
            assert_eq!(m.branch_map, 1);
            assert_eq!(m.address, 0x4400_0000);
        }
        _ => panic!("expected an address branch map packet"),
    }
}

#[test]
fn test_parse_exception_packet() {
    let mut bytes = Vec::new();
    let mut pos = 0;
    let start = pos;
    put_bits(&mut bytes, &mut pos, 14, 5); // length: 14 bytes
    put_bits(&mut bytes, &mut pos, 0, 3);
    put_bits(&mut bytes, &mut pos, 11, 16);
    put_bits(&mut bytes, &mut pos, 0b11, 2);
    put_bits(&mut bytes, &mut pos, 1, 2); // subformat: exception
    put_bits(&mut bytes, &mut pos, 0, 1); // branch
    put_bits(&mut bytes, &mut pos, 1, 1); // privilege
    put_bits(&mut bytes, &mut pos, 5, 5); // ecause
    put_bits(&mut bytes, &mut pos, 1, 1); // interrupt
    put_bits(&mut bytes, &mut pos, (0x4200_0100u32 >> 1) as u64, 31);
    put_bits(&mut bytes, &mut pos, 0xdeadbeef, 32); // tvalepc
    put_bits(&mut bytes, &mut pos, 0, 6);
    put_bits(&mut bytes, &mut pos, 0, 7); // pad to the advertised length
    assert_eq!(pos, start + 112);
    let packets = parse(&bytes).unwrap();
    assert_eq!(packets.len(), 1);
    match packets[0] {
        Packet::Exception(i, e) => {
            assert_eq!(i, 11);
            assert!(!e.branch);
            assert!(e.privilege);
            assert_eq!(e.ecause, 5);
            assert!(e.interrupt);
            assert_eq!(e.address, 0x4200_0100);
            assert_eq!(e.tvalepc, 0xdeadbeef);
        }
        _ => panic!("expected an exception packet"),
    }
}

#[test]
fn test_parse_wide_branch_map() {
    // format one with sixteen branches: a 31-bit map and no trailing padding
    let mut bytes = Vec::new();
    let mut pos = 0;
    let start = pos;
    put_bits(&mut bytes, &mut pos, 12, 5); // length: 12 bytes
    put_bits(&mut bytes, &mut pos, 0, 3);
    put_bits(&mut bytes, &mut pos, 2, 16);
    put_bits(&mut bytes, &mut pos, 0b01, 2);
    put_bits(&mut bytes, &mut pos, 16, 5); // branches == 16
    put_bits(&mut bytes, &mut pos, 0x5555_5555 & 0x7fff_ffff, 31);
    put_bits(&mut bytes, &mut pos, (0x4600_0000u32 >> 1) as u64, 31);
    put_bits(&mut bytes, &mut pos, 1, 1); // notify
    put_bits(&mut bytes, &mut pos, 1, 1); // updiscon
    assert_eq!(pos, start + 95);
    put_bits(&mut bytes, &mut pos, 0, 1); // pad to the advertised length
    let packets = parse(&bytes).unwrap();
    assert_eq!(packets.len(), 1);
    match packets[0] {
        Packet::AddressBranchMap(i, m) => {
            assert_eq!(i, 2);
            assert_eq!(m.branches, 16);
            assert_eq!(m.branch_map, 0x5555_5555 & 0x7fff_ffff);
            assert_eq!(m.address, 0x4600_0000);
            assert!(m.notify);
            assert!(m.updiscon);
        }
        _ => panic!("expected an address branch map packet"),
    }
}

#[test]
fn test_parse_skips_alignment_bytes() {
    // a zero length field marks a padding byte between packets
    let mut bytes = Vec::new();
    let mut pos = 0;
    emit_sync(&mut bytes, &mut pos, 0, false, 0x4200_0000);
    put_bits(&mut bytes, &mut pos, 0, 8); // alignment byte
    put_bits(&mut bytes, &mut pos, 0, 8); // alignment byte
    emit_address(&mut bytes, &mut pos, 1, 0x4200_0010);
    let packets = parse(&bytes).unwrap();
    assert_eq!(packets.len(), 2);
    assert!(matches!(packets[1], Packet::Address(1, _)));
}

#[test]
fn test_reader_reads_bits_lsb_first() {
    let data = [0xb4u8, 0x01];
    let mut r = Reader::new(&data);
    assert_eq!(r.total_bit_count(), 16);
    assert!(r.has_data(16));
    assert_eq!(r.get_bits(4), 0x4);
    assert_eq!(r.get_bits(4), 0xb);
    assert_eq!(r.current_bit_count(), 8);
    assert_eq!(r.next_bit(), 1);
    r.skip_until(12);
    assert_eq!(r.current_bit_count(), 12);
    assert!(r.has_data(4));
    assert!(!r.has_data(5));
}

// ---- the image index on its own ----

#[test]
fn test_get_instruction_windows() {
    let img = Image {
        sections: vec![Section { address: 0x100, data: vec![1, 2, 3, 4, 5, 6] }],
    };
    let images = vec![img];
    // a full window
    assert_eq!(get_instruction(&images, 0x100), vec![1, 2, 3, 4]);
    // only two bytes left: the short window
    assert_eq!(get_instruction(&images, 0x104), vec![5, 6]);
    // not covered at all
    assert_eq!(get_instruction(&images, 0x200), Vec::<u8>::new());
    assert_eq!(get_instruction(&images, 0x105), Vec::<u8>::new());
}

#[test]
fn test_get_instruction_first_image_wins() {
    let a = Image {
        sections: vec![Section { address: 0x100, data: vec![9, 9, 9, 9] }],
    };
    let b = Image {
        sections: vec![Section { address: 0x100, data: vec![7, 7, 7, 7] }],
    };
    let images = vec![a, b];
    assert_eq!(get_instruction(&images, 0x100), vec![9, 9, 9, 9]);
}

// ---- end-to-end reconstruction ----

#[test]
fn test_straight_line_path() {
    let a: u32 = 0x4200_0000;
    let b: u32 = a + 16;
    let mut bytes = Vec::new();
    let mut pos = 0;
    emit_sync(&mut bytes, &mut pos, 0, false, a);
    emit_address(&mut bytes, &mut pos, 1, b);
    emit_support(&mut bytes, &mut pos, 2);
    let images = vec![nop_image(a, 16)];
    let path = parse_trace(bytes, &images).unwrap();
    assert_eq!(path, vec![a, a + 4, a + 8, a + 12, b]);
    for pc in path {
        assert_eq!(pc & 1, 0);
    }
}

#[test]
fn test_single_conditional_branch() {
    // the instruction at the sync address is a beq; the sync branch bit says
    // taken, so the path continues at the branched target
    let a: u32 = 0x4200_0000;
    let target: u32 = a + 10;
    let b: u32 = a + 18;
    let mut data = vec![0u8; 18];
    data[0] = 0x63; // beq with fall-through +4 and taken target +10
    data[1] = 0x05;
    data[2] = 0xb5;
    data[3] = 0x00;
    data[10] = 0x13; // nop
    data[14] = 0x13; // nop
    let images = vec![Image { sections: vec![Section { address: a as u64, data }] }];
    let packets = vec![
        Packet::Sync(0, Sync { branch: false, privilege: false, address: a }),
        Packet::NoAddressBranchMap(1, NoAddressBranchMap { branches: 1, branch_map: 0 }),
        Packet::Address(2, Address { address: b, notify: false, updiscon: false }),
        Packet::Support(3, Support { enable: true, qual_status: 0 }),
    ];
    let path = reconstruct(&packets, &images).unwrap();
    assert_eq!(path[0], a);
    assert_eq!(path[1], target);
    assert_eq!(path, vec![a, target, a + 14, b]);
}

#[test]
fn test_sync_branch_bit_not_taken() {
    // the sync branch bit set means the branch at the sync address was not
    // taken: the path follows the fall-through
    let a: u32 = 0x4200_0000;
    let b: u32 = a + 8;
    let mut data = vec![0u8; 8];
    data[0] = 0x63; // beq: fall-through +4, taken target +10
    data[1] = 0x05;
    data[2] = 0xb5;
    data[3] = 0x00;
    data[4] = 0x13; // nop
    let images = vec![Image { sections: vec![Section { address: a as u64, data }] }];
    let packets = vec![
        Packet::Sync(0, Sync { branch: true, privilege: false, address: a }),
        Packet::Address(1, Address { address: b, notify: false, updiscon: false }),
        Packet::Support(2, Support { enable: true, qual_status: 0 }),
    ];
    let path = reconstruct(&packets, &images).unwrap();
    assert_eq!(path, vec![a, a + 4, b]);
}

#[test]
fn test_map_bit_one_means_not_taken() {
    // a one bit in the wire branch map means the branch was not taken
    let a: u32 = 0x4200_0000;
    let b: u32 = a + 12;
    let mut data = vec![0u8; 12];
    data[0] = 0x13; // nop
    data[4] = 0x63; // beq at a + 4: fall-through +4, taken target +10
    data[5] = 0x05;
    data[6] = 0xb5;
    data[7] = 0x00;
    data[8] = 0x13; // nop
    let images = vec![Image { sections: vec![Section { address: a as u64, data }] }];
    let packets = vec![
        Packet::Sync(0, Sync { branch: false, privilege: false, address: a }),
        Packet::NoAddressBranchMap(1, NoAddressBranchMap { branches: 1, branch_map: 1 }),
        Packet::Address(2, Address { address: b, notify: false, updiscon: false }),
        Packet::Support(3, Support { enable: true, qual_status: 0 }),
    ];
    let path = reconstruct(&packets, &images).unwrap();
    assert_eq!(path, vec![a, a + 4, a + 8, b]);
}

#[test]
fn test_zero_branches_field_enqueues_32_bits() {
    // a chain of beq instructions every 10 bytes; one taken bit comes from
    // the sync packet, 32 more from the degenerate branch-map packet
    let a: u32 = 0x4200_0000;
    let b: u32 = 0x4300_0000;
    let mut data = vec![0u8; 334];
    for k in 0..34 {
        let off = 10 * k;
        data[off] = 0x63;
        data[off + 1] = 0x05;
        data[off + 2] = 0xb5;
        data[off + 3] = 0x00;
    }
    let images = vec![Image { sections: vec![Section { address: a as u64, data }] }];
    let mut bytes = Vec::new();
    let mut pos = 0;
    emit_sync(&mut bytes, &mut pos, 0, false, a);
    emit_branch_map_32(&mut bytes, &mut pos, 1);
    emit_address(&mut bytes, &mut pos, 2, b);
    emit_support(&mut bytes, &mut pos, 3);
    let path = parse_trace(bytes, &images).unwrap();
    // 1 + 32 taken branches, then the delivered end address
    assert_eq!(path.len(), 35);
    for k in 0..34 {
        assert_eq!(path[k], a + 10 * k as u32);
    }
    assert_eq!(path[34], b);
}

#[test]
fn test_uninferable_branch_waits_for_address() {
    let a: u32 = 0x4200_0000;
    let c: u32 = 0x4200_1000;
    let b: u32 = c + 8;
    let mut data = vec![0u8; 12];
    data[0] = 0x13; // nop
    data[4] = 0x13; // nop
    data[8] = 0x67; // jalr x0, 0(x1)
    data[9] = 0x80;
    let images = vec![
        Image { sections: vec![Section { address: a as u64, data }] },
        nop_image(c, 8),
    ];
    let mut bytes = Vec::new();
    let mut pos = 0;
    emit_sync(&mut bytes, &mut pos, 0, false, a);
    emit_address(&mut bytes, &mut pos, 1, c);
    emit_address(&mut bytes, &mut pos, 2, b);
    emit_support(&mut bytes, &mut pos, 3);
    let path = parse_trace(bytes, &images).unwrap();
    // the walk stops at the jalr and resumes at the delivered address
    assert_eq!(path, vec![a, a + 4, a + 8, c, c + 4, b]);
}

#[test]
fn test_straight_line_compressed() {
    // c.nop instructions advance the pc by two bytes
    let a: u32 = 0x4200_0000;
    let b: u32 = a + 8;
    let data = vec![0x01, 0x00, 0x01, 0x00, 0x01, 0x00, 0x01, 0x00];
    let images = vec![Image { sections: vec![Section { address: a as u64, data }] }];
    let mut bytes = Vec::new();
    let mut pos = 0;
    emit_sync(&mut bytes, &mut pos, 0, false, a);
    emit_address(&mut bytes, &mut pos, 1, b);
    emit_support(&mut bytes, &mut pos, 2);
    let path = parse_trace(bytes, &images).unwrap();
    assert_eq!(path, vec![a, a + 2, a + 4, a + 6, b]);
}

#[test]
fn test_compressed_jump_followed() {
    // a c.j at the sync address jumps backwards; the walk continues at the
    // jump target
    let a: u32 = 0x4200_2322;
    let t: u32 = 0x4200_22ba;
    let b: u32 = t + 8;
    let mut data = vec![0u8; 106];
    data[0] = 0x13; // nop at t
    data[4] = 0x13; // nop at t + 4
    data[104] = 0x61; // c.j at a, target t
    data[105] = 0xbf;
    let images = vec![Image { sections: vec![Section { address: t as u64, data }] }];
    let mut bytes = Vec::new();
    let mut pos = 0;
    emit_sync(&mut bytes, &mut pos, 0, false, a);
    emit_address(&mut bytes, &mut pos, 1, b);
    emit_support(&mut bytes, &mut pos, 2);
    let path = parse_trace(bytes, &images).unwrap();
    assert_eq!(path, vec![a, t, t + 4, b]);
}

#[test]
fn test_corrupted_trailing_support() {
    // a support packet with no address packet before it
    let a: u32 = 0x4200_0000;
    let mut bytes = Vec::new();
    let mut pos = 0;
    emit_sync(&mut bytes, &mut pos, 0, false, a);
    emit_support(&mut bytes, &mut pos, 1);
    let images = vec![nop_image(a, 16)];
    let r = parse_trace(bytes, &images);
    assert!(matches!(r, Err(Error::Corrupted)));
}

#[test]
fn test_no_sync_is_corrupted() {
    let mut bytes = Vec::new();
    let mut pos = 0;
    emit_address(&mut bytes, &mut pos, 0, 0x4200_0000);
    emit_support(&mut bytes, &mut pos, 1);
    let images = vec![nop_image(0x4200_0000, 16)];
    assert!(matches!(parse_trace(bytes, &images), Err(Error::Corrupted)));
    assert!(matches!(parse_trace(Vec::new(), &images), Err(Error::Corrupted)));
}

#[test]
fn test_branch_map_address_resynchronises_after_uninferable() {
    // after an uninferable branch, an address-bearing branch-map packet acts
    // as the resynchronisation point
    let a: u32 = 0x4200_0000;
    let c: u32 = 0x4200_1000;
    let b: u32 = c + 8;
    let mut data = vec![0u8; 4];
    data[0] = 0x67; // jalr x0, 0(x1)
    data[1] = 0x80;
    let images = vec![
        Image { sections: vec![Section { address: a as u64, data }] },
        nop_image(c, 8),
    ];
    let packets = vec![
        Packet::Sync(0, Sync { branch: false, privilege: false, address: a }),
        Packet::AddressBranchMap(
            1,
            AddressBranchMap {
                address: c,
                branches: 1,
                branch_map: 0,
                notify: false,
                updiscon: false,
            },
        ),
        Packet::Address(2, Address { address: b, notify: false, updiscon: false }),
        Packet::Support(3, Support { enable: true, qual_status: 0 }),
    ];
    let path = reconstruct(&packets, &images).unwrap();
    assert_eq!(path, vec![a, c, c + 4, b]);
}

#[test]
fn test_branch_map_packet_consumed_once() {
    // the map of an address branch-map packet feeds the queue once; on the
    // second visit the packet is only stepped over
    let a: u32 = 0x4200_0000;
    let b: u32 = 0x4300_0000;
    let mut data = vec![0u8; 24];
    for k in 0..3 {
        let off = 10 * k;
        data[off] = 0x63; // beq: fall-through +4, taken target +10
        data[off + 1] = 0x05;
        data[off + 2] = 0xb5;
        data[off + 3] = 0x00;
    }
    let images = vec![Image { sections: vec![Section { address: a as u64, data }] }];
    let packets = vec![
        Packet::Sync(0, Sync { branch: false, privilege: false, address: a }),
        Packet::AddressBranchMap(
            1,
            AddressBranchMap {
                address: 0x4400_0000,
                branches: 1,
                branch_map: 0, // one taken branch
                notify: false,
                updiscon: false,
            },
        ),
        Packet::Address(2, Address { address: b, notify: false, updiscon: false }),
        Packet::Support(3, Support { enable: true, qual_status: 0 }),
    ];
    let path = reconstruct(&packets, &images).unwrap();
    // one taken bit from the sync, one from the map, then the end address:
    // the map is not enqueued a second time
    assert_eq!(path, vec![a, a + 10, a + 20, b]);
}

#[test]
fn test_sequence_gap_gives_partial_path() {
    // the decoder stops at the index gap; the path ends at the last address
    // that still decoded, and the address after the gap is never visited
    let a: u32 = 0x4200_0000;
    let b: u32 = a + 8;
    let c: u32 = 0x4300_0000;
    let mut bytes = Vec::new();
    let mut pos = 0;
    emit_sync(&mut bytes, &mut pos, 0, false, a);
    emit_address(&mut bytes, &mut pos, 1, b);
    emit_address(&mut bytes, &mut pos, 5, c); // gap: 1 -> 5
    emit_support(&mut bytes, &mut pos, 6);
    let images = vec![nop_image(a, 8)];
    let path = parse_trace(bytes, &images).unwrap();
    assert_eq!(path, vec![a, a + 4, b]);
    assert!(!path.contains(&c));
}
