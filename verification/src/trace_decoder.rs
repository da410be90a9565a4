use vstd::prelude::*;
use vstd::arithmetic::div_mod::{
    lemma_fundamental_div_mod, lemma_fundamental_div_mod_converse, lemma_mod_bound,
};
use vstd::arithmetic::power2::{lemma2_to64, lemma_pow2_adds, pow2};
use vstd::bits::{lemma_u32_pow2_no_overflow, lemma_u32_shl_is_mul};

verus! {

/// A synchronisation packet: an absolute pc, the branch bit of the
/// instruction there, and the privilege level.
#[derive(Debug, Clone, Copy)]
pub struct Sync {
    pub branch: bool,
    pub privilege: bool,
    pub address: u32,
}

/// An exception report: as `Sync`, plus the cause and the trap value.
#[derive(Debug, Clone, Copy)]
pub struct Exception {
    pub branch: bool,
    pub privilege: bool,
    pub ecause: u8,
    pub interrupt: bool,
    pub address: u32,
    pub tvalepc: u32,
}

/// A trace-unit status packet; the last packet of a healthy stream.
#[derive(Debug, Clone, Copy)]
pub struct Support {
    pub enable: bool,
    pub qual_status: u8,
}

/// A plain address packet.
#[derive(Debug, Clone, Copy)]
pub struct Address {
    pub address: u32,
    pub notify: bool,
    pub updiscon: bool,
}

/// A branch map together with an address.
#[derive(Debug, Clone, Copy)]
pub struct AddressBranchMap {
    pub address: u32,
    pub branches: u8,
    pub branch_map: u32,
    pub notify: bool,
    pub updiscon: bool,
}

/// A branch map without an address; `branches == 0` stands for 32 entries.
#[derive(Debug, Clone, Copy)]
pub struct NoAddressBranchMap {
    pub branches: u8,
    pub branch_map: u32,
}

/// One decoded trace packet, tagged with its 16-bit sequence index.
#[derive(Debug, Clone, Copy)]
pub enum Packet {
    Sync(u32, Sync),
    Exception(u32, Exception),
    Support(u32, Support),
    Address(u32, Address),
    AddressBranchMap(u32, AddressBranchMap),
    NoAddressBranchMap(u32, NoAddressBranchMap),
}

/// The sequence index a packet carries.
pub open spec fn packet_index(p: Packet) -> u32 {
    match p {
        Packet::Sync(i, _) => i,
        Packet::Exception(i, _) => i,
        Packet::Support(i, _) => i,
        Packet::Address(i, _) => i,
        Packet::AddressBranchMap(i, _) => i,
        Packet::NoAddressBranchMap(i, _) => i,
    }
}

/// What the decoder guarantees of every packet it emits: a 16-bit index,
/// halfword-aligned addresses, and a branch count the wire can carry.
pub open spec fn packet_wf(p: Packet) -> bool {
    match p {
        Packet::Sync(i, s) => i < 0x10000 && s.address % 2 == 0,
        Packet::Exception(i, e) => i < 0x10000 && e.address % 2 == 0,
        Packet::Support(i, _) => i < 0x10000,
        Packet::Address(i, a) => i < 0x10000 && a.address % 2 == 0,
        Packet::AddressBranchMap(i, m) => i < 0x10000 && m.address % 2 == 0 && 1 <= m.branches
            <= 31,
        Packet::NoAddressBranchMap(i, m) => i < 0x10000 && m.branches == 0 && m.branch_map == 0,
    }
}

pub open spec fn packets_wf(s: Seq<Packet>) -> bool {
    forall|i: int| 0 <= i < s.len() ==> packet_wf(#[trigger] s[i])
}

/// Bit `i` of the stream: bits are numbered LSB-first inside each byte.
pub open spec fn stream_bit(data: Seq<u8>, i: int) -> u32
    recommends
        0 <= i < 8 * data.len(),
{
    ((data[i / 8] as u32) >> ((i % 8) as u32)) & 1
}

/// The value of `n` stream bits starting at bit `pos`, packed LSB-first: the
/// first bit read is bit 0 of the result.
pub open spec fn bits_val(data: Seq<u8>, pos: int, n: nat) -> u32
    recommends
        n <= 32,
        0 <= pos,
        pos + n <= 8 * data.len(),
    decreases n,
{
    if n == 0 {
        0
    } else {
        bits_val(data, pos, (n - 1) as nat) | (stream_bit(data, pos + n - 1) << ((n - 1) as u32))
    }
}

pub proof fn lemma_stream_bit_le_one(data: Seq<u8>, i: int)
    ensures
        stream_bit(data, i) <= 1,
{
    let y: u32 = data[i / 8] as u32;
    let c: u32 = (i % 8) as u32;
    assert((y >> c) & 1 <= 1) by (bit_vector);
}

/// A value read from `n` bits is below `pow2(n)`.
pub proof fn lemma_bits_val_bound(data: Seq<u8>, pos: int, n: nat)
    requires
        n <= 31,
    ensures
        bits_val(data, pos, n) < pow2(n),
    decreases n,
{
    lemma2_to64();
    if n == 0 {
    } else {
        let m: u32 = (n - 1) as u32;
        lemma_bits_val_bound(data, pos, (n - 1) as nat);
        lemma_stream_bit_le_one(data, pos + n - 1);
        let x = bits_val(data, pos, (n - 1) as nat);
        let b = stream_bit(data, pos + n - 1);
        lemma_u32_pow2_no_overflow(m as nat);
        lemma_u32_shl_is_mul(1u32, m);
        let p: u32 = 1u32 << m;
        assert((x | (b << m)) < 2 * p) by (bit_vector)
            requires
                x < p,
                b <= 1,
                p == 1u32 << m,
                m <= 30,
        ;
        lemma_pow2_adds((n - 1) as nat, 1);
    }
}

/// LSB-first bit cursor over a borrowed byte slice.
pub struct Reader<'a> {
    data: &'a [u8],
    index: usize,
    current_bit: u8,
    bit_count: usize,
}

impl<'a> Reader<'a> {
    /// The bytes the reader walks.
    pub closed spec fn view_data(self) -> Seq<u8> {
        self.data@
    }

    /// The cursor: how many bits were consumed so far.
    pub closed spec fn pos(self) -> nat {
        self.bit_count as nat
    }

    /// The cursor decomposes into a byte index and an intra-byte bit index,
    /// and never leaves the slice.
    pub closed spec fn wf(self) -> bool {
        &&& self.bit_count == 8 * self.index + self.current_bit
        &&& self.current_bit < 8
        &&& self.bit_count <= 8 * self.data@.len()
        &&& 8 * self.data@.len() <= usize::MAX
    }

    pub fn new(data: &'a [u8]) -> (r: Self)
        requires
            8 * data@.len() <= usize::MAX,
        ensures
            r.wf(),
            r.view_data() == data@,
            r.pos() == 0,
    {
        Self { data, index: 0, current_bit: 0, bit_count: 0 }
    }

    /// Consume one bit and return it.
    pub fn next_bit(&mut self) -> (b: u32)
        requires
            old(self).wf(),
            old(self).pos() + 1 <= 8 * old(self).view_data().len(),
        ensures
            final(self).wf(),
            final(self).view_data() == old(self).view_data(),
            final(self).pos() == old(self).pos() + 1,
            b == stream_bit(old(self).view_data(), old(self).pos() as int),
            b <= 1,
    {
        proof {
            lemma_fundamental_div_mod_converse(
                self.bit_count as int,
                8,
                self.index as int,
                self.current_bit as int,
            );
        }
        let byte: u32 = self.data[self.index] as u32;
        let shift: u32 = self.current_bit as u32;
        let out: u32 = (byte >> shift) & 1;
        proof {
            assert((byte >> shift) & 1 <= 1) by (bit_vector);
        }
        if self.current_bit < 7 {
            self.current_bit = self.current_bit + 1;
        } else {
            self.index = self.index + 1;
            self.current_bit = 0;
        }
        self.bit_count = self.bit_count + 1;
        out
    }

    /// Consume `bits` bits and pack them LSB-first.
    pub fn get_bits(&mut self, bits: usize) -> (r: u32)
        requires
            old(self).wf(),
            bits <= 32,
            old(self).pos() + bits <= 8 * old(self).view_data().len(),
        ensures
            final(self).wf(),
            final(self).view_data() == old(self).view_data(),
            final(self).pos() == old(self).pos() + bits,
            r == bits_val(old(self).view_data(), old(self).pos() as int, bits as nat),
    {
        let mut res: u32 = 0;
        let mut i: usize = 0;
        while i < bits
            invariant
                self.wf(),
                self.view_data() == old(self).view_data(),
                i <= bits,
                bits <= 32,
                self.pos() == old(self).pos() + i,
                old(self).pos() + bits <= 8 * old(self).view_data().len(),
                res == bits_val(old(self).view_data(), old(self).pos() as int, i as nat),
            decreases bits - i,
        {
            let b: u32 = self.next_bit();
            res = res | (b << (i as u32));
            i = i + 1;
            proof {
                assert(res == bits_val(old(self).view_data(), old(self).pos() as int, i as nat));
            }
        }
        res
    }

    /// How many bits were consumed so far.
    pub fn current_bit_count(&self) -> (r: usize)
        ensures
            r == self.pos(),
    {
        self.bit_count
    }

    /// Advance to the absolute bit offset `until`; a cursor already past it
    /// stays where it is.
    pub fn skip_until(&mut self, until: usize)
        requires
            old(self).wf(),
            until <= 8 * old(self).view_data().len(),
        ensures
            final(self).wf(),
            final(self).view_data() == old(self).view_data(),
            final(self).pos() == if until > old(self).pos() {
                until as nat
            } else {
                old(self).pos()
            },
    {
        if until > self.bit_count {
            proof {
                lemma_fundamental_div_mod(until as int, 8);
                lemma_mod_bound(until as int, 8);
            }
            self.index = until / 8;
            self.current_bit = (until % 8) as u8;
            self.bit_count = until;
        }
    }

    /// True when `count` more bits can be read.
    pub fn has_data(&self, count: usize) -> (r: bool)
        requires
            self.wf(),
        ensures
            r == (self.pos() + count <= 8 * self.view_data().len()),
    {
        let total: usize = self.data.len() * 8;
        count <= total - self.bit_count
    }

    /// The number of bits in the whole slice.
    pub fn total_bit_count(&self) -> (r: usize)
        requires
            self.wf(),
        ensures
            r == 8 * self.view_data().len(),
    {
        self.data.len() * 8
    }
}

/// Width in bits of the branch map of a format-one packet.
pub open spec fn fmt1_map_bits(branches: u32) -> nat
    recommends
        1 <= branches <= 31,
{
    if branches == 1 {
        1
    } else if branches <= 3 {
        3
    } else if branches <= 7 {
        7
    } else if branches <= 15 {
        15
    } else {
        31
    }
}

/// Width in bits of the trailing sign-extension field of a format-one packet
/// that carries an address.
pub open spec fn fmt1_sext_bits(branches: u32) -> nat
    recommends
        1 <= branches <= 31,
{
    if branches == 1 {
        7
    } else if branches <= 3 {
        5
    } else if branches <= 15 {
        1
    } else {
        0
    }
}

/// What decoding one packet body yields: whether decoding stops, the packet
/// emitted if any, and the bit offset just past the fields that were read.
pub ghost struct BodyOut {
    pub stop: bool,
    pub pkt: Option<Packet>,
    pub end: int,
}

/// The body of one packet, after the length, index and format fields. `q` is
/// the bit offset just past the two format bits.
pub open spec fn spec_body(data: Seq<u8>, q: int, format: u32, index: u32) -> BodyOut {
    let total = 8 * data.len();
    if format == 1 {
        if q + 5 > total {
            BodyOut { stop: true, pkt: None, end: q }
        } else {
            let branches = bits_val(data, q, 5);
            if branches == 0 {
                if q + 7 > total {
                    BodyOut { stop: true, pkt: None, end: q }
                } else {
                    BodyOut {
                        stop: false,
                        pkt: Some(
                            Packet::NoAddressBranchMap(
                                index,
                                NoAddressBranchMap { branches: 0, branch_map: 0 },
                            ),
                        ),
                        end: q + 7,
                    }
                }
            } else {
                let mb = fmt1_map_bits(branches) as int;
                let sb = fmt1_sext_bits(branches) as int;
                if q + 5 + mb + 33 + sb > total {
                    BodyOut { stop: true, pkt: None, end: q }
                } else {
                    let branch_map = bits_val(data, q + 5, fmt1_map_bits(branches));
                    let address = bits_val(data, q + 5 + mb, 31);
                    let notify = bits_val(data, q + 5 + mb + 31, 1);
                    let updiscon = bits_val(data, q + 5 + mb + 32, 1);
                    BodyOut {
                        stop: false,
                        pkt: Some(
                            Packet::AddressBranchMap(
                                index,
                                AddressBranchMap {
                                    address: address << 1u32,
                                    branches: branches as u8,
                                    branch_map,
                                    notify: notify != 0,
                                    updiscon: updiscon != 0,
                                },
                            ),
                        ),
                        end: q + 5 + mb + 33 + sb,
                    }
                }
            }
        }
    } else if format == 2 {
        if q + 38 > total {
            BodyOut { stop: true, pkt: None, end: q }
        } else {
            let address = bits_val(data, q, 31);
            let notify = bits_val(data, q + 31, 1);
            let updiscon = bits_val(data, q + 32, 1);
            BodyOut {
                stop: false,
                pkt: Some(
                    Packet::Address(
                        index,
                        Address { address: address << 1u32, notify: notify != 0, updiscon: updiscon != 0 },
                    ),
                ),
                end: q + 38,
            }
        }
    } else if format == 3 {
        if q + 2 > total {
            BodyOut { stop: true, pkt: None, end: q }
        } else {
            let sub = bits_val(data, q, 2);
            if sub == 0 {
                if q + 38 > total {
                    BodyOut { stop: true, pkt: None, end: q }
                } else {
                    let branch = bits_val(data, q + 2, 1);
                    let privilege = bits_val(data, q + 3, 1);
                    let address = bits_val(data, q + 4, 31);
                    BodyOut {
                        stop: false,
                        pkt: Some(
                            Packet::Sync(
                                index,
                                Sync {
                                    address: address << 1u32,
                                    branch: branch != 0,
                                    privilege: privilege != 0,
                                },
                            ),
                        ),
                        end: q + 38,
                    }
                }
            } else if sub == 1 {
                if q + 79 > total {
                    BodyOut { stop: true, pkt: None, end: q }
                } else {
                    let branch = bits_val(data, q + 2, 1);
                    let privilege = bits_val(data, q + 3, 1);
                    let ecause = bits_val(data, q + 4, 5);
                    let interrupt = bits_val(data, q + 9, 1);
                    let address = bits_val(data, q + 10, 31);
                    let tvalepc = bits_val(data, q + 41, 32);
                    BodyOut {
                        stop: false,
                        pkt: Some(
                            Packet::Exception(
                                index,
                                Exception {
                                    address: address << 1u32,
                                    branch: branch != 0,
                                    privilege: privilege != 0,
                                    ecause: ecause as u8,
                                    interrupt: interrupt != 0,
                                    tvalepc,
                                },
                            ),
                        ),
                        end: q + 79,
                    }
                }
            } else if sub == 2 {
                // reserved context subformat: skipped by the length field
                BodyOut { stop: false, pkt: None, end: q + 2 }
            } else {
                if q + 6 > total {
                    BodyOut { stop: true, pkt: None, end: q }
                } else {
                    let enable = bits_val(data, q + 2, 1);
                    let qual_status = bits_val(data, q + 3, 2);
                    BodyOut {
                        stop: false,
                        pkt: Some(
                            Packet::Support(
                                index,
                                Support { enable: enable != 0, qual_status: qual_status as u8 },
                            ),
                        ),
                        end: q + 6,
                    }
                }
            }
        }
    } else {
        // an unknown format code stops decoding at the packet boundary
        BodyOut { stop: true, pkt: None, end: q }
    }
}

/// The packets decoded from bit offset `pos` on, after a packet whose index
/// was `prev` (`None` before the first packet). Decoding stops cleanly when
/// fewer than eight bits remain, when the advertised length would extend past
/// the end of the stream, when a field would, when the sequence index is not
/// the successor of the previous one modulo `2^16`, and on an unknown format.
pub open spec fn spec_parse_at(data: Seq<u8>, pos: int, prev: Option<u32>) -> Seq<Packet>
    decreases 8 * data.len() - pos,
{
    let total = 8 * data.len();
    if pos < 0 || pos + 8 > total {
        seq![]
    } else {
        let len = bits_val(data, pos, 5);
        let until = pos + 8 * (len as int);
        if until > total {
            seq![]
        } else if len == 0 {
            spec_parse_at(data, pos + 8, prev)
        } else if pos + 26 > total {
            seq![]
        } else {
            let index = bits_val(data, pos + 8, 16);
            let gap = match prev {
                Some(p) => index != (p + 1) % 0x10000,
                None => false,
            };
            if gap {
                seq![]
            } else {
                let format = bits_val(data, pos + 24, 2);
                let b = spec_body(data, pos + 26, format, index);
                if b.stop {
                    seq![]
                } else {
                    let next0 = if until > b.end {
                        until
                    } else {
                        b.end
                    };
                    let next = if next0 > total {
                        total as int
                    } else {
                        next0
                    };
                    let rest = spec_parse_at(data, next, Some(index));
                    match b.pkt {
                        Some(p) => seq![p] + rest,
                        None => rest,
                    }
                }
            }
        }
    }
}

/// The packet sequence of a whole trace byte stream.
pub open spec fn spec_parse(data: Seq<u8>) -> Seq<Packet> {
    spec_parse_at(data, 0, None)
}

/// The decode from `pos` on meets no reserved context packet: every header it
/// accepts yields an emitted packet.
pub open spec fn spec_parse_ctx_free(data: Seq<u8>, pos: int, prev: Option<u32>) -> bool
    decreases 8 * data.len() - pos,
{
    let total = 8 * data.len();
    if pos < 0 || pos + 8 > total {
        true
    } else {
        let len = bits_val(data, pos, 5);
        let until = pos + 8 * (len as int);
        if until > total {
            true
        } else if len == 0 {
            spec_parse_ctx_free(data, pos + 8, prev)
        } else if pos + 26 > total {
            true
        } else {
            let index = bits_val(data, pos + 8, 16);
            let gap = match prev {
                Some(p) => index != (p + 1) % 0x10000,
                None => false,
            };
            if gap {
                true
            } else {
                let format = bits_val(data, pos + 24, 2);
                let b = spec_body(data, pos + 26, format, index);
                if b.stop {
                    true
                } else if b.pkt is None {
                    false
                } else {
                    let next0 = if until > b.end {
                        until
                    } else {
                        b.end
                    };
                    let next = if next0 > total {
                        total as int
                    } else {
                        next0
                    };
                    spec_parse_ctx_free(data, next, Some(index))
                }
            }
        }
    }
}

#[verifier::rlimit(100)]
#[verifier::spinoff_prover]
proof fn lemma_indices_contiguous_at(data: Seq<u8>, pos: int, prev: Option<u32>)
    requires
        spec_parse_ctx_free(data, pos, prev),
    ensures
        ({
            let s = spec_parse_at(data, pos, prev);
            &&& forall|i: int|
                0 <= i && i + 1 < s.len() ==> packet_index(#[trigger] s[i + 1]) == (packet_index(
                    s[i],
                ) + 1) % 0x10000
            &&& match prev {
                Some(p0) => s.len() > 0 ==> packet_index(s[0]) == (p0 + 1) % 0x10000,
                None => true,
            }
        }),
    decreases 8 * data.len() - pos,
{
    let total = 8 * data.len();
    if pos < 0 || pos + 8 > total {
    } else {
        let len = bits_val(data, pos, 5);
        let until = pos + 8 * (len as int);
        if until > total {
        } else if len == 0 {
            lemma_indices_contiguous_at(data, pos + 8, prev);
            let s0 = spec_parse_at(data, pos, prev);
            let s1 = spec_parse_at(data, pos + 8, prev);
            assert(s0 == s1);
            assert forall|i: int|
                0 <= i && i + 1 < s0.len() implies packet_index(#[trigger] s0[i + 1]) == (
            packet_index(s0[i]) + 1) % 0x10000 by {
                assert(packet_index(#[trigger] s1[i + 1]) == (packet_index(s1[i]) + 1) % 0x10000);
            }
        } else if pos + 26 > total {
        } else {
            let index = bits_val(data, pos + 8, 16);
            let gap = match prev {
                Some(p) => index != (p + 1) % 0x10000,
                None => false,
            };
            if gap {
            } else {
                let format = bits_val(data, pos + 24, 2);
                let b = spec_body(data, pos + 26, format, index);
                if b.stop {
                } else {
                    let next0 = if until > b.end {
                        until
                    } else {
                        b.end
                    };
                    let next = if next0 > total {
                        total as int
                    } else {
                        next0
                    };
                    match b.pkt {
                        Some(p) => {
                            lemma_indices_contiguous_at(data, next, Some(index));
                            let rest = spec_parse_at(data, next, Some(index));
                            let s = spec_parse_at(data, pos, prev);
                            assert(s == seq![p] + rest);
                            assert(packet_index(p) == index);
                            assert(s[0] == p);
                            match prev {
                                Some(p0) => {
                                    assert(index == (p0 + 1) % 0x10000);
                                },
                                None => {},
                            }
                            assert forall|i: int|
                                0 <= i && i + 1 < s.len() implies packet_index(
                                #[trigger] s[i + 1],
                            ) == (packet_index(s[i]) + 1) % 0x10000 by {
                                if i == 0 {
                                    assert(s[1] == rest[0]);
                                } else {
                                    assert(s[i] == rest[i - 1]);
                                    assert(s[i + 1] == rest[i]);
                                    assert(0 <= i - 1 && (i - 1) + 1 < rest.len());
                                    assert(packet_index(#[trigger] rest[(i - 1) + 1]) == (
                                    packet_index(rest[i - 1]) + 1) % 0x10000);
                                }
                            }
                        },
                        None => {
                            assert(false);
                        },
                    }
                }
            }
        }
    }
}

/// Law of the sequence indices: when the decode meets no reserved context
/// packet, the emitted packets carry contiguous indices modulo 2^16.
pub proof fn lemma_indices_contiguous(data: Seq<u8>)
    requires
        spec_parse_ctx_free(data, 0, None),
    ensures
        forall|i: int|
            0 <= i && i + 1 < spec_parse(data).len() ==> packet_index(
                #[trigger] spec_parse(data)[i + 1],
            ) == (packet_index(spec_parse(data)[i]) + 1) % 0x10000,
{
    lemma_indices_contiguous_at(data, 0, None);
}

proof fn lemma_shl1_even(a: u32)
    ensures
        (a << 1u32) % 2 == 0,
{
    assert((a << 1u32) % 2 == 0) by (bit_vector);
}

/// Decode a trace byte stream into its packets: exactly what `spec_parse`
/// lists, and every packet well formed. Anomalies stop the decode at a clean
/// packet boundary instead of failing, so the result is always `Ok`.
#[verifier::rlimit(100)]
pub fn parse(data: &[u8]) -> (r: Result<Vec<Packet>, crate::Error>)
    requires
        8 * data@.len() + 248 <= usize::MAX,
    ensures
        r is Ok,
        match r {
            Ok(v) => v@ == spec_parse(data@) && packets_wf(v@),
            Err(_) => false,
        },
{
    let mut res: Vec<Packet> = Vec::new();
    let mut reader = Reader::new(data);
    let mut previous: Option<u32> = None;
    proof {
        lemma2_to64();
    }
    loop
        invariant
            reader.wf(),
            reader.view_data() == data@,
            8 * data@.len() + 248 <= usize::MAX,
            match previous {
                Some(p) => p < 0x10000,
                None => true,
            },
            packets_wf(res@),
            spec_parse(data@) == res@ + spec_parse_at(data@, reader.pos() as int, previous),
        decreases 8 * data@.len() - reader.pos(),
    {
        let ghost pos0: int = reader.pos() as int;
        let ghost prev0: Option<u32> = previous;
        let ghost res0: Seq<Packet> = res@;
        proof {
            lemma2_to64();
        }
        if !reader.has_data(8) {
            assert(spec_parse_at(data@, pos0, prev0) =~= seq![]);
            return Ok(res);
        }
        let start: usize = reader.current_bit_count();
        let len: u32 = reader.get_bits(5);
        proof {
            lemma_bits_val_bound(data@, pos0, 5);
        }
        let until: usize = start + 8 * (len as usize);
        let total: usize = reader.total_bit_count();
        if until > total {
            assert(spec_parse_at(data@, pos0, prev0) =~= seq![]);
            return Ok(res);
        }
        let _reserved: u32 = reader.get_bits(3);
        if len == 0 {
            proof {
                assert(spec_parse_at(data@, pos0, prev0) == spec_parse_at(data@, pos0 + 8, prev0));
            }
            continue ;
        }
        if !reader.has_data(18) {
            assert(spec_parse_at(data@, pos0, prev0) =~= seq![]);
            return Ok(res);
        }
        let index: u32 = reader.get_bits(16);
        proof {
            lemma_bits_val_bound(data@, pos0 + 8, 16);
        }
        match previous {
            Some(p) => {
                if index != (p + 1) % 0x10000 {
                    assert(spec_parse_at(data@, pos0, prev0) =~= seq![]);
                    return Ok(res);
                }
            },
            None => {},
        }
        previous = Some(index);
        let format: u32 = reader.get_bits(2);
        let ghost q: int = pos0 + 26;
        let ghost b: BodyOut = spec_body(data@, q, format, index);
        if format == 0b01 {
            if !reader.has_data(5) {
                assert(spec_parse_at(data@, pos0, prev0) =~= seq![]);
                return Ok(res);
            }
            let branches: u32 = reader.get_bits(5);
            proof {
                lemma_bits_val_bound(data@, q, 5);
            }
            if branches == 0 {
                if !reader.has_data(2) {
                    assert(spec_parse_at(data@, pos0, prev0) =~= seq![]);
                    return Ok(res);
                }
                let _sign_extend: u32 = reader.get_bits(2);
                res.push(
                    Packet::NoAddressBranchMap(
                        index,
                        NoAddressBranchMap { branches: 0, branch_map: 0 },
                    ),
                );
            } else {
                let map_bits: usize = if branches == 1 {
                    1
                } else if branches <= 3 {
                    3
                } else if branches <= 7 {
                    7
                } else if branches <= 15 {
                    15
                } else {
                    31
                };
                let se_bits: usize = if branches == 1 {
                    7
                } else if branches <= 3 {
                    5
                } else if branches <= 15 {
                    1
                } else {
                    0
                };
                if !reader.has_data(map_bits + 33 + se_bits) {
                    assert(spec_parse_at(data@, pos0, prev0) =~= seq![]);
                    return Ok(res);
                }
                let branch_map: u32 = reader.get_bits(map_bits);
                let address: u32 = reader.get_bits(31);
                let notify: u32 = reader.get_bits(1);
                let updiscon: u32 = reader.get_bits(1);
                let _sign_extend: u32 = reader.get_bits(se_bits);
                proof {
                    lemma_shl1_even(address);
                }
                res.push(
                    Packet::AddressBranchMap(
                        index,
                        AddressBranchMap {
                            address: address << 1u32,
                            branches: branches as u8,
                            branch_map,
                            notify: notify != 0,
                            updiscon: updiscon != 0,
                        },
                    ),
                );
            }
        } else if format == 0b10 {
            if !reader.has_data(38) {
                assert(spec_parse_at(data@, pos0, prev0) =~= seq![]);
                return Ok(res);
            }
            let address: u32 = reader.get_bits(31);
            let notify: u32 = reader.get_bits(1);
            let updiscon: u32 = reader.get_bits(1);
            let _sign_extend: u32 = reader.get_bits(5);
            proof {
                lemma_shl1_even(address);
            }
            res.push(
                Packet::Address(
                    index,
                    Address { address: address << 1u32, notify: notify != 0, updiscon: updiscon != 0 },
                ),
            );
        } else if format == 0b11 {
            if !reader.has_data(2) {
                assert(spec_parse_at(data@, pos0, prev0) =~= seq![]);
                return Ok(res);
            }
            let subformat: u32 = reader.get_bits(2);
            if subformat == 0 {
                if !reader.has_data(36) {
                    assert(spec_parse_at(data@, pos0, prev0) =~= seq![]);
                    return Ok(res);
                }
                let branch: u32 = reader.get_bits(1);
                let privilege: u32 = reader.get_bits(1);
                let address: u32 = reader.get_bits(31);
                let _sign_extend: u32 = reader.get_bits(3);
                proof {
                    lemma_shl1_even(address);
                }
                res.push(
                    Packet::Sync(
                        index,
                        Sync { address: address << 1u32, branch: branch != 0, privilege: privilege != 0 },
                    ),
                );
            } else if subformat == 1 {
                if !reader.has_data(77) {
                    assert(spec_parse_at(data@, pos0, prev0) =~= seq![]);
                    return Ok(res);
                }
                let branch: u32 = reader.get_bits(1);
                let privilege: u32 = reader.get_bits(1);
                let ecause: u32 = reader.get_bits(5);
                let interrupt: u32 = reader.get_bits(1);
                let address: u32 = reader.get_bits(31);
                let tvalepc: u32 = reader.get_bits(32);
                let _sign_extend: u32 = reader.get_bits(6);
                proof {
                    lemma_bits_val_bound(data@, q + 4, 5);
                    lemma_shl1_even(address);
                }
                res.push(
                    Packet::Exception(
                        index,
                        Exception {
                            address: address << 1u32,
                            branch: branch != 0,
                            privilege: privilege != 0,
                            ecause: ecause as u8,
                            interrupt: interrupt != 0,
                            tvalepc,
                        },
                    ),
                );
            } else if subformat == 2 {
                // reserved context subformat: nothing is emitted, the length
                // field skips the body
            } else {
                if !reader.has_data(4) {
                    assert(spec_parse_at(data@, pos0, prev0) =~= seq![]);
                    return Ok(res);
                }
                let enable: u32 = reader.get_bits(1);
                let qual_status: u32 = reader.get_bits(2);
                let _sign_extend: u32 = reader.get_bits(1);
                proof {
                    lemma_bits_val_bound(data@, q + 3, 2);
                }
                res.push(
                    Packet::Support(
                        index,
                        Support { enable: enable != 0, qual_status: qual_status as u8 },
                    ),
                );
            }
        } else {
            // an unknown format code: stop at the last clean packet boundary
            assert(spec_parse_at(data@, pos0, prev0) =~= seq![]);
            return Ok(res);
        }
        let ghost body_end: int = reader.pos() as int;
        reader.skip_until(until);
        proof {
            assert(!b.stop);
            assert(body_end == b.end);
            let next0: int = if (until as int) > b.end {
                until as int
            } else {
                b.end
            };
            assert(reader.pos() as int == next0);
            let rest = spec_parse_at(data@, next0, Some(index));
            let stepped = spec_parse_at(data@, pos0, prev0);
            match b.pkt {
                Some(p) => {
                    assert(stepped =~= seq![p] + rest);
                    assert(res@ =~= res0 + seq![p]);
                    assert(res0 + stepped =~= res@ + rest);
                },
                None => {
                    assert(stepped =~= rest);
                    assert(res@ == res0);
                },
            }
            assert(spec_parse(data@) == res@ + spec_parse_at(
                data@,
                reader.pos() as int,
                previous,
            ));
        }
    }
}

} // verus!
