use vstd::prelude::*;
use vstd::arithmetic::div_mod::{
    lemma_fundamental_div_mod, lemma_mod_multiples_basic, lemma_mod_sub_multiples_vanish,
    lemma_small_mod,
};
use vstd::arithmetic::power2::{lemma2_to64, lemma_pow2_strictly_increases, pow2};
use vstd::bits::{lemma_u64_pow2_no_overflow, lemma_u64_shl_is_mul};

verus! {

/// A RISC-V machine register file: the program counter and the 32 integer
/// registers.
#[derive(Debug, Copy, Clone, PartialEq, Default)]
pub struct RiscvRegisters {
    pub pc: u32,
    pub registers: [u32; 32],
}

/// The successors of one instruction: the address executed when the
/// instruction does not branch (for direct jumps: the jump target), and the
/// taken target of a conditional branch, when there is one.
#[derive(Debug)]
pub struct NextAddress {
    pub next_instruction: Option<u32>,
    pub branched: Option<u32>,
}

/// An instruction window is large enough to decode: at least two bytes, and at
/// least four when the two low bits of the first byte mark a 4-byte opcode.
pub open spec fn window_ok(s: Seq<u8>) -> bool {
    &&& s.len() >= 2
    &&& (s[0] & 0b11 == 0b11 ==> s.len() >= 4)
}

/// Length in bytes of the instruction that starts a window.
pub open spec fn spec_insn_len(s: Seq<u8>) -> nat {
    if s[0] & 0b11 == 0b11 {
        4
    } else {
        2
    }
}

/// The 16-bit value of the two first bytes, little endian.
pub open spec fn le16(s: Seq<u8>) -> u16 {
    (s[0] as u16) | ((s[1] as u16) << 8)
}

/// The 32-bit value of the four first bytes, little endian.
pub open spec fn le32(s: Seq<u8>) -> u32 {
    (s[0] as u32) | ((s[1] as u32) << 8) | ((s[2] as u32) << 16) | ((s[3] as u32) << 24)
}

pub open spec fn spec_is_jal(inst: u32) -> bool {
    inst & 0b111_1111 == 0b110_1111
}

pub open spec fn spec_is_branch32(inst: u32) -> bool {
    inst & 0b111_1111 == 0b110_0011
}

pub open spec fn spec_is_cj(inst: u16) -> bool {
    inst & 0b111_00000000000_11 == 0b101_00000000000_01
}

pub open spec fn spec_is_cjal(inst: u16) -> bool {
    inst & 0b111_00000000000_11 == 0b001_00000000000_01
}

pub open spec fn spec_is_cbeqz(inst: u16) -> bool {
    inst & 0b111_00000000000_11 == 0b110_00000000000_01
}

pub open spec fn spec_is_cbnez(inst: u16) -> bool {
    inst & 0b111_00000000000_11 == 0b111_00000000000_01
}

/// Conditional branches whose target is encoded in the instruction:
/// BEQ/BNE/BLT/BGE/BLTU/BGEU, C.BEQZ, C.BNEZ.
pub open spec fn spec_is_inferable_branch(s: Seq<u8>) -> bool
    recommends
        window_ok(s),
{
    if s[0] & 0b11 == 0b11 {
        spec_is_branch32(le32(s))
    } else {
        spec_is_cbeqz(le16(s)) || spec_is_cbnez(le16(s))
    }
}

/// Unconditional direct jumps: JAL, C.J, C.JAL.
pub open spec fn spec_is_inferable_jump(s: Seq<u8>) -> bool
    recommends
        window_ok(s),
{
    if s[0] & 0b11 == 0b11 {
        spec_is_jal(le32(s))
    } else {
        spec_is_cj(le16(s)) || spec_is_cjal(le16(s))
    }
}

/// Control transfers whose target is not encoded in the instruction:
/// JALR, MRET, ECALL, EBREAK, C.JR (incl. C.RET), C.JALR, C.EBREAK.
pub open spec fn spec_is_uninferable_branch(s: Seq<u8>) -> bool
    recommends
        window_ok(s),
{
    if s[0] & 0b11 == 0b11 {
        let inst = le32(s);
        ||| inst & 0b111_00000_11111_11 == 0b000_00000_11001_11
        ||| inst == 0b00110000001000000000000001110011u32
        ||| inst == 0b00000000000000000000000001110011u32
        ||| inst == 0b00000000000100000000000001110011u32
    } else {
        let inst = le16(s);
        ||| inst & 0b111_1_00000_11111_11 == 0b100_00000000000_10
        ||| inst & 0b1111_0000_0111_1111 == 0b1001_0000_0000_0010
        ||| inst == 0b1001000000000010u16
    }
}

/// The scattered JAL immediate, reassembled but not yet sign extended.
pub open spec fn jal_raw(inst: u32) -> u32 {
    let offset_20: u32 = (inst & 0b100000000000_00000_000_00000_00000_00) >> 31;
    let offset_10_1: u32 = (inst & 0b011111111110_00000_000_00000_00000_00) >> 21;
    let offset_19_12: u32 = (inst & 0b000000000000_11111_111_00000_00000_00) >> 12;
    let offset_11: u32 = (inst & 0b000000000001_00000_000_00000_00000_00) >> 20;
    (offset_10_1 << 1) | (offset_11 << 11) | (offset_19_12 << 12) | (offset_20 << 20)
}

/// The scattered immediate of the 32-bit conditional branches.
pub open spec fn branch_raw(inst: u32) -> u32 {
    let offset_12: u32 = (inst & 0b100000000000_00000_000_00000_00000_00) >> 31;
    let offset_10_5: u32 = (inst & 0b011111100000_00000_000_00000_00000_00) >> 25;
    let offset_4_1: u32 = (inst & 0b1111_0_00000_00) >> 8;
    let offset_11: u32 = (inst & 0b1_00000_00) >> 7;
    (offset_12 << 12) | (offset_11 << 11) | (offset_10_5 << 5) | (offset_4_1 << 1)
}

/// The scattered immediate of C.J and C.JAL.
pub open spec fn cj_raw(inst: u16) -> u32 {
    let imm: u32 = ((inst & 0b000_11111111111_00) as u32) >> 2;
    let offset_5: u32 = imm & 0b1;
    let offset_3_1: u32 = (imm & 0b1110) >> 1;
    let offset_7: u32 = (imm & 0b10000) >> 4;
    let offset_6: u32 = (imm & 0b100000) >> 5;
    let offset_10: u32 = (imm & 0b1000000) >> 6;
    let offset_9_8: u32 = (imm & 0b110000000) >> 7;
    let offset_4: u32 = (imm & 0b1000000000) >> 9;
    let offset_11: u32 = (imm & 0b10000000000) >> 10;
    (offset_3_1 << 1) | (offset_4 << 4) | (offset_5 << 5) | (offset_6 << 6) | (offset_7 << 7) | (
    offset_9_8 << 8) | (offset_10 << 10) | (offset_11 << 11)
}

/// The scattered immediate of C.BEQZ and C.BNEZ.
pub open spec fn cb_raw(inst: u16) -> u32 {
    let imm6_2: u32 = ((inst & 0b11111_00) as u32) >> 2;
    let imm12_10: u32 = ((inst & 0b111_0000000000) as u32) >> 10;
    let offset_5: u32 = imm6_2 & 0b1;
    let offset_2_1: u32 = (imm6_2 & 0b110) >> 1;
    let offset_7_6: u32 = (imm6_2 & 0b11000) >> 3;
    let offset_4_3: u32 = imm12_10 & 0b11;
    let offset_8: u32 = (imm12_10 & 0b100) >> 2;
    (offset_2_1 << 1) | (offset_4_3 << 3) | (offset_5 << 5) | (offset_7_6 << 6) | (offset_8 << 8)
}

/// Sign extension of a value whose sign sits at bit `sign_bit`.
pub open spec fn sext32(v: u32, sign_bit: nat) -> int {
    if (v >> (sign_bit as u32)) & 1 == 1 {
        v - pow2((sign_bit + 1) as nat)
    } else {
        v as int
    }
}

/// Reduction of an unbounded address computation to the 32-bit address space.
pub open spec fn wrap32(x: int) -> int {
    x % 0x1_0000_0000
}

/// The fall-through successor: the next instruction in memory.
pub open spec fn spec_fall(pc: u32, step: nat) -> u32 {
    wrap32(pc + step) as u32
}

/// A branch or jump target: the offset is applied to the pc and the low bit of
/// the result is cleared, since instructions are halfword aligned.
pub open spec fn spec_target(pc: u32, off: int) -> u32 {
    let t = wrap32(pc + off);
    (t - t % 2) as u32
}

/// The successors of the instruction in the window `s` at address `pc`: one
/// entry for straight-line code and for direct jumps (the jump target), two
/// entries for conditional branches (fall-through first, taken target second).
pub open spec fn spec_candidates(s: Seq<u8>, pc: u32) -> Seq<u32>
    recommends
        window_ok(s),
{
    if s[0] & 0b11 == 0b11 {
        let inst = le32(s);
        if spec_is_jal(inst) {
            seq![spec_target(pc, sext32(jal_raw(inst), 20))]
        } else if spec_is_branch32(inst) {
            seq![spec_fall(pc, 4), spec_target(pc, sext32(branch_raw(inst), 12))]
        } else {
            seq![spec_fall(pc, 4)]
        }
    } else {
        let inst = le16(s);
        if spec_is_cj(inst) || spec_is_cjal(inst) {
            seq![spec_target(pc, sext32(cj_raw(inst), 11))]
        } else if spec_is_cbeqz(inst) || spec_is_cbnez(inst) {
            seq![spec_fall(pc, 2), spec_target(pc, sext32(cb_raw(inst), 8))]
        } else {
            seq![spec_fall(pc, 2)]
        }
    }
}

proof fn lemma_jal_raw_bound(inst: u32)
    ensures
        jal_raw(inst) < 0x200000,
        jal_raw(inst) % 2 == 0,
{
    let r = jal_raw(inst);
    assert(r < 0x200000 && r % 2 == 0) by (bit_vector)
        requires
            r == ((((inst & 0b011111111110_00000_000_00000_00000_00u32) >> 21) << 1) | (((inst
                & 0b000000000001_00000_000_00000_00000_00u32) >> 20) << 11) | (((inst
                & 0b000000000000_11111_111_00000_00000_00u32) >> 12) << 12) | (((inst
                & 0b100000000000_00000_000_00000_00000_00u32) >> 31) << 20)),
    ;
}

proof fn lemma_branch_raw_bound(inst: u32)
    ensures
        branch_raw(inst) < 0x2000,
        branch_raw(inst) % 2 == 0,
{
    let r = branch_raw(inst);
    assert(r < 0x2000 && r % 2 == 0) by (bit_vector)
        requires
            r == ((((inst & 0b100000000000_00000_000_00000_00000_00u32) >> 31) << 12) | (((inst
                & 0b1_00000_00u32) >> 7) << 11) | (((inst
                & 0b011111100000_00000_000_00000_00000_00u32) >> 25) << 5) | (((inst
                & 0b1111_0_00000_00u32) >> 8) << 1)),
    ;
}

proof fn lemma_cj_raw_bound(inst: u16)
    ensures
        cj_raw(inst) < 0x1000,
        cj_raw(inst) % 2 == 0,
{
    let imm: u32 = ((inst & 0b000_11111111111_00) as u32) >> 2;
    let r = cj_raw(inst);
    assert(imm < 0x800) by (bit_vector)
        requires
            imm == ((inst & 0b000_11111111111_00) as u32) >> 2,
    ;
    assert(r < 0x1000 && r % 2 == 0) by (bit_vector)
        requires
            imm < 0x800,
            r == ((((imm & 0b1110) >> 1) << 1) | (((imm & 0b1000000000) >> 9) << 4) | ((imm & 0b1)
                << 5) | (((imm & 0b100000) >> 5) << 6) | (((imm & 0b10000) >> 4) << 7) | (((imm
                & 0b110000000) >> 7) << 8) | (((imm & 0b1000000) >> 6) << 10) | (((imm
                & 0b10000000000) >> 10) << 11)),
    ;
}

proof fn lemma_cb_raw_bound(inst: u16)
    ensures
        cb_raw(inst) < 0x200,
        cb_raw(inst) % 2 == 0,
{
    let imm6_2: u32 = ((inst & 0b11111_00) as u32) >> 2;
    let imm12_10: u32 = ((inst & 0b111_0000000000) as u32) >> 10;
    let r = cb_raw(inst);
    assert(imm6_2 < 0x20 && imm12_10 < 0x8) by (bit_vector)
        requires
            imm6_2 == ((inst & 0b11111_00) as u32) >> 2,
            imm12_10 == ((inst & 0b111_0000000000) as u32) >> 10,
    ;
    assert(r < 0x200 && r % 2 == 0) by (bit_vector)
        requires
            imm6_2 < 0x20,
            imm12_10 < 0x8,
            r == ((((imm6_2 & 0b110) >> 1) << 1) | ((imm12_10 & 0b11) << 3) | ((imm6_2 & 0b1) << 5)
                | (((imm6_2 & 0b11000) >> 3) << 6) | (((imm12_10 & 0b100) >> 2) << 8)),
    ;
}

/// Sign extension as the executable code computes it.
fn sext(value: u32, sign_bit: u32) -> (r: i32)
    requires
        1 <= sign_bit <= 20,
        value < pow2((sign_bit + 1) as nat),
    ensures
        r as int == sext32(value, sign_bit as nat),
        -0x200000 < (r as int) && (r as int) < 0x200000,
{
    proof {
        lemma_u64_pow2_no_overflow((sign_bit + 1) as nat);
        lemma_u64_shl_is_mul(1u64, (sign_bit + 1) as u64);
        if sign_bit < 20 {
            lemma_pow2_strictly_increases((sign_bit + 1) as nat, 21);
        }
        lemma2_to64();
    }
    let m: u64 = 1u64 << (sign_bit + 1);
    if (value >> sign_bit) & 1 == 1 {
        proof {
            assert(value >= 1) by (bit_vector)
                requires
                    (value >> sign_bit) & 1 == 1,
            ;
        }
        let r64: i64 = value as i64 - m as i64;
        r64 as i32
    } else {
        value as i32
    }
}

/// One successor address: `pc` plus the sign extension of `raw`, reduced to
/// 32 bits, with the low bit cleared.
fn jump_target(pc: u32, raw: u32, sign_bit: u32) -> (t: u32)
    requires
        1 <= sign_bit <= 20,
        raw < pow2((sign_bit + 1) as nat),
    ensures
        t == spec_target(pc, sext32(raw, sign_bit as nat)),
        t % 2 == 0,
{
    let off: i32 = sext(raw, sign_bit);
    let s: i64 = pc as i64 + off as i64;
    let w: i64 = if s < 0 {
        s + 0x1_0000_0000
    } else if s >= 0x1_0000_0000 {
        s - 0x1_0000_0000
    } else {
        s
    };
    proof {
        if s < 0 {
            lemma_mod_sub_multiples_vanish(s + 0x1_0000_0000, 0x1_0000_0000);
            lemma_small_mod((s + 0x1_0000_0000) as nat, 0x1_0000_0000);
        } else if s >= 0x1_0000_0000 {
            lemma_mod_sub_multiples_vanish(s as int, 0x1_0000_0000);
            lemma_small_mod((s - 0x1_0000_0000) as nat, 0x1_0000_0000);
        } else {
            lemma_small_mod(s as nat, 0x1_0000_0000);
        }
        assert(w == wrap32(pc + off));
    }
    let u: u32 = w as u32;
    let t: u32 = u - u % 2;
    proof {
        lemma_fundamental_div_mod(u as int, 2);
        lemma_mod_multiples_basic(u as int / 2, 2);
    }
    t
}

/// The fall-through address `pc + step`, reduced to 32 bits.
fn fall_through(pc: u32, step: u32) -> (t: u32)
    requires
        step <= 4,
    ensures
        t == spec_fall(pc, step as nat),
{
    let s: u64 = pc as u64 + step as u64;
    if s > 0xffff_ffff {
        proof {
            lemma_mod_sub_multiples_vanish(s as int, 0x1_0000_0000);
            lemma_small_mod((s - 0x1_0000_0000) as nat, 0x1_0000_0000);
        }
        (s - 0x1_0000_0000) as u32
    } else {
        proof {
            lemma_small_mod(s as nat, 0x1_0000_0000);
        }
        s as u32
    }
}

/// The 32-bit instruction word of a 4-byte window, little endian.
fn read_le32(insn: &[u8]) -> (r: u32)
    requires
        insn@.len() >= 4,
    ensures
        r == le32(insn@),
{
    (insn[0] as u32) | ((insn[1] as u32) << 8) | ((insn[2] as u32) << 16) | ((insn[3] as u32) << 24)
}

/// The 16-bit instruction word of a 2-byte window, little endian.
fn read_le16(insn: &[u8]) -> (r: u16)
    requires
        insn@.len() >= 2,
    ensures
        r == le16(insn@),
{
    (insn[0] as u16) | ((insn[1] as u16) << 8)
}

/// True when the window holds enough bytes for the instruction it starts with.
pub fn instruction_window_ok(insn: &[u8]) -> (r: bool)
    ensures
        r == window_ok(insn@),
{
    insn.len() >= 2 && (insn[0] & 0b11 != 0b11 || insn.len() >= 4)
}

/// The successor addresses of the instruction in `insn` at address `pc`, as
/// `spec_candidates` lists them.
pub fn estimate_next_inferable_pc(insn: &[u8], pc: u32) -> (res: Vec<u32>)
    requires
        window_ok(insn@),
    ensures
        res@ == spec_candidates(insn@, pc),
{
    let mut candidates: Vec<u32> = Vec::new();
    let insn_len: u32 = if insn[0] & 0b11 == 0b11 {
        4
    } else {
        2
    };
    candidates.push(fall_through(pc, insn_len));
    if insn_len == 4 {
        let inst: u32 = read_le32(insn);
        if (inst & 0b111_1111) == 0b110_1111 {
            // JAL
            let offset_20: u32 = (inst & 0b100000000000_00000_000_00000_00000_00) >> 31;
            let offset_10_1: u32 = (inst & 0b011111111110_00000_000_00000_00000_00) >> 21;
            let offset_19_12: u32 = (inst & 0b000000000000_11111_111_00000_00000_00) >> 12;
            let offset_11: u32 = (inst & 0b000000000001_00000_000_00000_00000_00) >> 20;
            let offset: u32 = (offset_10_1 << 1) | (offset_11 << 11) | (offset_19_12 << 12) | (
            offset_20 << 20);
            proof {
                assert(offset == jal_raw(inst));
                lemma_jal_raw_bound(inst);
                lemma2_to64();
            }
            candidates.clear();
            candidates.push(jump_target(pc, offset, 20));
        } else if (inst & 0b111_1111) == 0b110_0011 {
            // BEQ, BNE, BLT, BGE, BLTU, BGEU
            let offset_12: u32 = (inst & 0b100000000000_00000_000_00000_00000_00) >> 31;
            let offset_10_5: u32 = (inst & 0b011111100000_00000_000_00000_00000_00) >> 25;
            let offset_4_1: u32 = (inst & 0b1111_0_00000_00) >> 8;
            let offset_11: u32 = (inst & 0b1_00000_00) >> 7;
            let offset: u32 = (offset_12 << 12) | (offset_11 << 11) | (offset_10_5 << 5) | (
            offset_4_1 << 1);
            proof {
                assert(offset == branch_raw(inst));
                lemma_branch_raw_bound(inst);
                lemma2_to64();
            }
            candidates.push(jump_target(pc, offset, 12));
        }
    } else {
        let inst: u16 = read_le16(insn);
        if (inst & 0b111_00000000000_11) == 0b101_00000000000_01 || (inst & 0b111_00000000000_11)
            == 0b001_00000000000_01 {
            // C.J / C.JAL
            let imm: u32 = ((inst & 0b000_11111111111_00) as u32) >> 2;
            let offset_5: u32 = imm & 0b1;
            let offset_3_1: u32 = (imm & 0b1110) >> 1;
            let offset_7: u32 = (imm & 0b10000) >> 4;
            let offset_6: u32 = (imm & 0b100000) >> 5;
            let offset_10: u32 = (imm & 0b1000000) >> 6;
            let offset_9_8: u32 = (imm & 0b110000000) >> 7;
            let offset_4: u32 = (imm & 0b1000000000) >> 9;
            let offset_11: u32 = (imm & 0b10000000000) >> 10;
            let offset: u32 = (offset_3_1 << 1) | (offset_4 << 4) | (offset_5 << 5) | (offset_6
                << 6) | (offset_7 << 7) | (offset_9_8 << 8) | (offset_10 << 10) | (offset_11 << 11);
            proof {
                assert(offset == cj_raw(inst));
                lemma_cj_raw_bound(inst);
                lemma2_to64();
            }
            candidates.clear();
            candidates.push(jump_target(pc, offset, 11));
        } else if (inst & 0b111_00000000000_11) == 0b110_00000000000_01 || (inst
            & 0b111_00000000000_11) == 0b111_00000000000_01 {
            // C.BEQZ / C.BNEZ
            let imm6_2: u32 = ((inst & 0b11111_00) as u32) >> 2;
            let imm12_10: u32 = ((inst & 0b111_0000000000) as u32) >> 10;
            let offset_5: u32 = imm6_2 & 0b1;
            let offset_2_1: u32 = (imm6_2 & 0b110) >> 1;
            let offset_7_6: u32 = (imm6_2 & 0b11000) >> 3;
            let offset_4_3: u32 = imm12_10 & 0b11;
            let offset_8: u32 = (imm12_10 & 0b100) >> 2;
            let offset: u32 = (offset_2_1 << 1) | (offset_4_3 << 3) | (offset_5 << 5) | (offset_7_6
                << 6) | (offset_8 << 8);
            proof {
                assert(offset == cb_raw(inst));
                lemma_cb_raw_bound(inst);
                lemma2_to64();
            }
            candidates.push(jump_target(pc, offset, 8));
        }
    }
    proof {
        assert(candidates@ =~= spec_candidates(insn@, pc));
    }
    candidates
}

/// The successors of the instruction in `insn` at `pc`, split into the
/// straight-line (or jump-target) address and the taken target of a
/// conditional branch.
pub fn next_address(insn: &[u8], pc: u32) -> (r: NextAddress)
    requires
        window_ok(insn@),
    ensures
        ({
            let c = spec_candidates(insn@, pc);
            &&& r.next_instruction == (if c.len() > 0 {
                Some(c[0])
            } else {
                None::<u32>
            })
            &&& r.branched == (if c.len() > 1 {
                Some(c[1])
            } else {
                None::<u32>
            })
        }),
{
    let candidates = estimate_next_inferable_pc(insn, pc);
    let next_instruction = if candidates.len() > 0 {
        Some(candidates[0])
    } else {
        None
    };
    let branched = if candidates.len() > 1 {
        Some(candidates[1])
    } else {
        None
    };
    NextAddress { next_instruction, branched }
}

/// True exactly for the conditional branches whose target the oracle can
/// compute: see `spec_is_inferable_branch`.
pub fn is_inferable_branch(insn: &[u8]) -> (r: bool)
    requires
        window_ok(insn@),
    ensures
        r == spec_is_inferable_branch(insn@),
{
    if insn[0] & 0b11 == 0b11 {
        let inst: u32 = read_le32(insn);
        (inst & 0b111_1111) == 0b110_0011
    } else {
        let inst: u16 = read_le16(insn);
        (inst & 0b111_00000000000_11) == 0b110_00000000000_01 || (inst & 0b111_00000000000_11)
            == 0b111_00000000000_01
    }
}

/// True exactly for the unconditional direct jumps: see
/// `spec_is_inferable_jump`.
pub fn is_inferable_jump(insn: &[u8]) -> (r: bool)
    requires
        window_ok(insn@),
    ensures
        r == spec_is_inferable_jump(insn@),
{
    if insn[0] & 0b11 == 0b11 {
        let inst: u32 = read_le32(insn);
        (inst & 0b111_1111) == 0b110_1111
    } else {
        let inst: u16 = read_le16(insn);
        (inst & 0b111_00000000000_11) == 0b101_00000000000_01 || (inst & 0b111_00000000000_11)
            == 0b001_00000000000_01
    }
}

/// True exactly for the control transfers whose target the oracle cannot
/// compute: see `spec_is_uninferable_branch`.
pub fn is_uninferable_branch(insn: &[u8]) -> (r: bool)
    requires
        window_ok(insn@),
    ensures
        r == spec_is_uninferable_branch(insn@),
{
    if insn[0] & 0b11 == 0b11 {
        let inst: u32 = read_le32(insn);
        (inst & 0b111_00000_11111_11) == 0b000_00000_11001_11 || inst
            == 0b00110000001000000000000001110011 || inst == 0b00000000000000000000000001110011
            || inst == 0b00000000000100000000000001110011
    } else {
        let inst: u16 = read_le16(insn);
        (inst & 0b111_1_00000_11111_11) == 0b100_00000000000_10 || (inst & 0b1111_0000_0111_1111)
            == 0b1001_0000_0000_0010 || inst == 0b1001000000000010
    }
}

/// How many successors an instruction has, and that each is halfword aligned
/// when the pc is: the facts the reconstructor leans on at every step.
pub proof fn lemma_candidates_basic(s: Seq<u8>, pc: u32)
    requires
        window_ok(s),
    ensures
        1 <= spec_candidates(s, pc).len() <= 2,
        pc % 2 == 0 ==> forall|i: int|
            0 <= i < spec_candidates(s, pc).len() ==> #[trigger] spec_candidates(s, pc)[i] % 2 == 0,
{
    if pc % 2 == 0 {
        lemma_wrap32_keeps_even(pc, 2);
        lemma_wrap32_keeps_even(pc, 4);
    }
    lemma_target_even(pc, sext32(jal_raw(le32(s)), 20));
    lemma_target_even(pc, sext32(branch_raw(le32(s)), 12));
    lemma_target_even(pc, sext32(cj_raw(le16(s)), 11));
    lemma_target_even(pc, sext32(cb_raw(le16(s)), 8));
}

proof fn lemma_wrap32_keeps_even(pc: u32, step: nat)
    requires
        pc % 2 == 0,
        step % 2 == 0,
        step <= 4,
    ensures
        spec_fall(pc, step) % 2 == 0,
{
    let s = pc + step;
    if s >= 0x1_0000_0000 {
        lemma_mod_sub_multiples_vanish(s, 0x1_0000_0000);
        lemma_small_mod((s - 0x1_0000_0000) as nat, 0x1_0000_0000);
    } else {
        lemma_small_mod(s as nat, 0x1_0000_0000);
    }
}

proof fn lemma_target_even(pc: u32, off: int)
    ensures
        spec_target(pc, off) % 2 == 0,
{
    let t = wrap32(pc + off);
    vstd::arithmetic::div_mod::lemma_mod_bound(pc + off, 0x1_0000_0000);
    lemma_fundamental_div_mod(t, 2);
    lemma_mod_multiples_basic(t / 2, 2);
}

/// Law of the inferable conditional branches: the oracle offers exactly the
/// fall-through and a taken target, and the taken target is `pc` plus an even
/// offset within the signed 13-bit range.
pub proof fn lemma_inferable_branch_candidates(s: Seq<u8>, pc: u32)
    requires
        window_ok(s),
        spec_is_inferable_branch(s),
    ensures
        spec_candidates(s, pc).len() == 2,
        spec_candidates(s, pc)[0] == spec_fall(pc, spec_insn_len(s)),
        exists|off: int|
            -4096 <= off <= 4094 && off % 2 == 0 && #[trigger] spec_target(pc, off)
                == spec_candidates(s, pc)[1],
{
    lemma2_to64();
    if s[0] & 0b11 == 0b11 {
        let inst = le32(s);
        let r = branch_raw(inst);
        lemma_branch_raw_bound(inst);
        let off = sext32(r, 12);
        if (r >> 12u32) & 1 == 1 {
            assert(r >= 0x1000) by (bit_vector)
                requires
                    (r >> 12u32) & 1 == 1,
            ;
        } else {
            assert(r < 0x1000) by (bit_vector)
                requires
                    (r >> 12u32) & 1 != 1,
                    r < 0x2000,
            ;
        }
        assert(-4096 <= off <= 4094 && off % 2 == 0 && spec_target(pc, off) == spec_candidates(
            s,
            pc,
        )[1]);
    } else {
        let inst = le16(s);
        let r = cb_raw(inst);
        lemma_cb_raw_bound(inst);
        let off = sext32(r, 8);
        if (r >> 8u32) & 1 == 1 {
            assert(r >= 0x100) by (bit_vector)
                requires
                    (r >> 8u32) & 1 == 1,
            ;
        } else {
            assert(r < 0x100) by (bit_vector)
                requires
                    (r >> 8u32) & 1 != 1,
                    r < 0x200,
            ;
        }
        assert(-4096 <= off <= 4094 && off % 2 == 0 && spec_target(pc, off) == spec_candidates(
            s,
            pc,
        )[1]);
    }
}

/// The taken target of a direct jump, by opcode family.
pub open spec fn spec_jump_target(s: Seq<u8>, pc: u32) -> u32
    recommends
        window_ok(s),
        spec_is_inferable_jump(s),
{
    if s[0] & 0b11 == 0b11 {
        spec_target(pc, sext32(jal_raw(le32(s)), 20))
    } else {
        spec_target(pc, sext32(cj_raw(le16(s)), 11))
    }
}

/// Law of the inferable jumps: the oracle offers a single successor, the jump
/// target itself, so there is no separate branched address.
pub proof fn lemma_inferable_jump_candidates(s: Seq<u8>, pc: u32)
    requires
        window_ok(s),
        spec_is_inferable_jump(s),
    ensures
        spec_candidates(s, pc).len() == 1,
        spec_candidates(s, pc)[0] == spec_jump_target(s, pc),
{
}

} // verus!
