use vstd::prelude::*;
use crate::image::{get_instruction, spec_get_instruction, Image};
use crate::inst_decoder::{
    instruction_window_ok, is_inferable_branch, is_inferable_jump, is_uninferable_branch,
    next_address, spec_candidates,
};
use crate::trace_decoder::{packet_wf, parse, spec_parse, Packet};
use crate::Error;

verus! {

/// What the reconstructor needs of every packet it walks: halfword-aligned
/// addresses and a branch count that fits a 32-bit map.
pub open spec fn packet_usable(p: Packet) -> bool {
    match p {
        Packet::Sync(_, s) => s.address % 2 == 0,
        Packet::Address(_, a) => a.address % 2 == 0,
        Packet::AddressBranchMap(_, m) => m.address % 2 == 0 && m.branches <= 32,
        Packet::NoAddressBranchMap(_, m) => m.branches <= 32,
        _ => true,
    }
}

pub open spec fn packets_usable(s: Seq<Packet>) -> bool {
    forall|i: int| 0 <= i < s.len() ==> packet_usable(#[trigger] s[i])
}

pub open spec fn spec_has_sync(pkts: Seq<Packet>) -> bool {
    exists|i: int| 0 <= i < pkts.len() && pkts[i] is Sync
}

/// Index of the first synchronisation packet; the length when there is none.
pub open spec fn first_sync_index(pkts: Seq<Packet>) -> int
    decreases pkts.len(),
{
    if pkts.len() == 0 {
        0
    } else if pkts[0] is Sync {
        0
    } else {
        1 + first_sync_index(pkts.drop_first())
    }
}

/// The address the first synchronisation packet carries.
pub open spec fn spec_first_sync_addr(pkts: Seq<Packet>) -> u32 {
    match pkts[first_sync_index(pkts)] {
        Packet::Sync(_, s) => s.address,
        _ => 0,
    }
}

pub proof fn lemma_first_sync_index(pkts: Seq<Packet>)
    ensures
        0 <= first_sync_index(pkts) <= pkts.len(),
        first_sync_index(pkts) < pkts.len() ==> pkts[first_sync_index(pkts)] is Sync,
        forall|k: int| 0 <= k < first_sync_index(pkts) ==> !(#[trigger] pkts[k] is Sync),
        spec_has_sync(pkts) ==> first_sync_index(pkts) < pkts.len(),
    decreases pkts.len(),
{
    if pkts.len() == 0 {
    } else if pkts[0] is Sync {
    } else {
        lemma_first_sync_index(pkts.drop_first());
        assert forall|k: int| 0 <= k < first_sync_index(pkts) implies !(#[trigger] pkts[k]
            is Sync) by {
            if k > 0 {
                assert(pkts.drop_first()[k - 1] == pkts[k]);
            }
        }
        if spec_has_sync(pkts) {
            let i = choose|i: int| 0 <= i < pkts.len() && pkts[i] is Sync;
            assert(pkts.drop_first()[i - 1] == pkts[i]);
        }
    }
}

/// The packet that decides the end of the path: the one before a trailing
/// `Support` packet, else the last packet itself.
pub open spec fn spec_end_index(pkts: Seq<Packet>) -> int {
    if pkts.len() > 0 && pkts.last() is Support {
        pkts.len() - 2
    } else {
        pkts.len() - 1
    }
}

/// The end-packet invariant: the packet that decides the end of the path
/// exists and is a plain address packet.
pub open spec fn spec_end_ok(pkts: Seq<Packet>) -> bool {
    &&& pkts.len() > 0
    &&& 0 <= spec_end_index(pkts)
    &&& pkts[spec_end_index(pkts)] is Address
}

/// The address at which the reconstruction stops.
pub open spec fn spec_end_pc(pkts: Seq<Packet>) -> u32 {
    match pkts[spec_end_index(pkts)] {
        Packet::Address(_, a) => a.address,
        _ => 0,
    }
}

/// Reconstruction fails exactly when no synchronisation packet exists or the
/// end-packet invariant is violated.
pub open spec fn spec_corrupted(pkts: Seq<Packet>) -> bool {
    !spec_has_sync(pkts) || !spec_end_ok(pkts)
}

/// The packet assigns `a` to the pc when the reconstructor consumes it.
pub open spec fn packet_sets_pc(p: Packet, a: u32) -> bool {
    match p {
        Packet::Sync(_, s) => s.address == a,
        Packet::Address(_, ad) => ad.address == a,
        Packet::AddressBranchMap(_, m) => m.address == a,
        _ => false,
    }
}

pub open spec fn pc_from_packets(pkts: Seq<Packet>, a: u32) -> bool {
    exists|i: int| 0 <= i < pkts.len() && packet_sets_pc(#[trigger] pkts[i], a)
}

/// How one emitted pc follows the one before it: it is a successor that the
/// instruction oracle lists for the instruction at the previous pc, or an
/// address some packet of the stream carries.
pub open spec fn spec_step_link(images: Seq<Image>, pkts: Seq<Packet>, a: u32, b: u32) -> bool {
    ||| pc_from_packets(pkts, b)
    ||| spec_candidates(spec_get_instruction(images, a), a).contains(b)
}

/// Every emitted pc is halfword aligned, no pc is emitted twice in a row, and
/// each pc is linked to the one before it.
pub open spec fn spec_path_chain(images: Seq<Image>, pkts: Seq<Packet>, path: Seq<u32>) -> bool {
    &&& forall|i: int| 0 <= i < path.len() ==> #[trigger] path[i] % 2 == 0
    &&& forall|i: int|
        0 <= i && i + 1 < path.len() ==> path[i + 1] != path[i] && spec_step_link(
            images,
            pkts,
            path[i],
            #[trigger] path[i + 1],
        )
}

/// What a successful reconstruction returns: a chained path that starts at
/// the first synchronisation address.
pub open spec fn spec_path_ok(images: Seq<Image>, pkts: Seq<Packet>, path: Seq<u32>) -> bool {
    &&& path.len() >= 1
    &&& path[0] == spec_first_sync_addr(pkts)
    &&& spec_path_chain(images, pkts, path)
}

/// Why the straight-line walk stopped.
pub enum WalkEnd {
    ReachedEnd,
    NeedBranch,
    Uninferable,
    Stopped,
}

/// The state the straight-line walk leaves behind: the pc it stopped at, the
/// path and queue as it left them, and why it stopped.
pub ghost struct WalkOut {
    pub pc: u32,
    pub path: Seq<u32>,
    pub queue: Seq<bool>,
    pub end: WalkEnd,
}

/// The straight-line walk of the reconstructor, one instruction per step:
/// append the pc when it differs from the last appended one; stop at the end
/// address, at a conditional branch with an empty queue, at an uninferable
/// branch, or where no full instruction window exists; otherwise step to the
/// fall-through or jump target, a conditional branch consuming the front of
/// the queue (`true` means taken). `fuel` bounds the number of steps, since
/// code with a cycle and no pending branches never stops otherwise.
pub open spec fn spec_walk(
    images: Seq<Image>,
    end_pc: u32,
    pc: u32,
    path: Seq<u32>,
    queue: Seq<bool>,
    fuel: nat,
) -> WalkOut
    decreases fuel,
{
    let path1 = if path.len() == 0 || path.last() != pc {
        path.push(pc)
    } else {
        path
    };
    if pc == end_pc {
        WalkOut { pc, path: path1, queue, end: WalkEnd::ReachedEnd }
    } else if fuel == 0 {
        WalkOut { pc, path: path1, queue, end: WalkEnd::Stopped }
    } else {
        let insn = spec_get_instruction(images, pc);
        if !crate::inst_decoder::window_ok(insn) {
            WalkOut { pc, path: path1, queue, end: WalkEnd::Stopped }
        } else {
            let ib = crate::inst_decoder::spec_is_inferable_branch(insn);
            let ij = crate::inst_decoder::spec_is_inferable_jump(insn);
            let iu = crate::inst_decoder::spec_is_uninferable_branch(insn);
            let c = spec_candidates(insn, pc);
            if !ib && !iu && !ij {
                spec_walk(images, end_pc, c[0], path1, queue, (fuel - 1) as nat)
            } else if ib {
                if queue.len() == 0 {
                    WalkOut { pc, path: path1, queue, end: WalkEnd::NeedBranch }
                } else {
                    let next = if queue[0] {
                        c[1]
                    } else {
                        c[0]
                    };
                    spec_walk(images, end_pc, next, path1, queue.drop_first(), (fuel - 1) as nat)
                }
            } else if ij {
                spec_walk(images, end_pc, c[0], path1, queue, (fuel - 1) as nat)
            } else {
                WalkOut { pc, path: path1, queue, end: WalkEnd::Uninferable }
            }
        }
    }
}

/// The decisions a branch-map packet queues, in wire order: a zero map bit
/// means the branch was taken; a zero branches field stands for 32 entries.
pub open spec fn spec_map_bits(branches: u8, branch_map: u32) -> Seq<bool> {
    let count: nat = if branches == 0 {
        32
    } else {
        branches as nat
    };
    Seq::new(count, |i: int| ((branch_map >> (i as u32)) & 1) == 0)
}

/// The queue after a `Sync` packet: when the instruction at the sync address
/// is an inferable conditional branch, the decision implied by the sync
/// branch bit is pushed to the front, to be consumed before any map bits.
pub open spec fn spec_sync_queue(
    images: Seq<Image>,
    s: crate::trace_decoder::Sync,
    queue: Seq<bool>,
) -> Seq<bool> {
    let insn = spec_get_instruction(images, s.address);
    if crate::inst_decoder::window_ok(insn) && crate::inst_decoder::spec_is_inferable_branch(
        insn,
    ) {
        seq![!s.branch] + queue
    } else {
        queue
    }
}

pub open spec fn run_marker(last_taken: Option<int>, current: int) -> int {
    match last_taken {
        Some(j) => if j == current {
            0
        } else {
            1
        },
        None => 1,
    }
}

/// The outer packet loop of the reconstructor, from the given machine state
/// to the emitted pc sequence: each packet updates the pc, the queue and the
/// cursor as the table of the packet actions says, and the straight-line walk
/// runs after every packet that is not skipped.
pub open spec fn spec_run(
    pkts: Seq<Packet>,
    images: Seq<Image>,
    end_pc: u32,
    current: int,
    pc: u32,
    queue: Seq<bool>,
    uninferable: bool,
    last_taken: Option<int>,
    path: Seq<u32>,
) -> Seq<u32>
    decreases pkts.len() - current, run_marker(last_taken, current), 0int,
{
    if current < 0 || current >= pkts.len() {
        path
    } else {
        match pkts[current] {
            Packet::Sync(_, s) => spec_run_resume(
                pkts,
                images,
                end_pc,
                current + 1,
                s.address,
                spec_sync_queue(images, s, queue),
                last_taken,
                path,
            ),
            Packet::Address(_, a) => spec_run_resume(
                pkts,
                images,
                end_pc,
                current + 1,
                a.address,
                queue,
                last_taken,
                path,
            ),
            Packet::AddressBranchMap(_, m) => {
                if uninferable {
                    spec_run_resume(
                        pkts,
                        images,
                        end_pc,
                        current + 1,
                        m.address,
                        queue,
                        last_taken,
                        path,
                    )
                } else if last_taken == Some(current) {
                    // the map of this packet is already consumed: step over it
                    spec_run(
                        pkts,
                        images,
                        end_pc,
                        current + 1,
                        pc,
                        queue,
                        uninferable,
                        last_taken,
                        path,
                    )
                } else {
                    spec_run_resume(
                        pkts,
                        images,
                        end_pc,
                        current,
                        pc,
                        queue + spec_map_bits(m.branches, m.branch_map),
                        Some(current),
                        path,
                    )
                }
            },
            Packet::NoAddressBranchMap(_, m) => spec_run_resume(
                pkts,
                images,
                end_pc,
                current + 1,
                pc,
                queue + spec_map_bits(m.branches, m.branch_map),
                last_taken,
                path,
            ),
            Packet::Exception(_, _) => spec_run(
                pkts,
                images,
                end_pc,
                current + 1,
                pc,
                queue,
                uninferable,
                last_taken,
                path,
            ),
            Packet::Support(_, _) => spec_run(
                pkts,
                images,
                end_pc,
                current + 1,
                pc,
                queue,
                uninferable,
                last_taken,
                path,
            ),
        }
    }
}

/// One walk after a consumed packet, and the return to the packet loop: the
/// walk's step budget is the budget the executable walk carries.
pub open spec fn spec_run_resume(
    pkts: Seq<Packet>,
    images: Seq<Image>,
    end_pc: u32,
    current: int,
    pc: u32,
    queue: Seq<bool>,
    last_taken: Option<int>,
    path: Seq<u32>,
) -> Seq<u32>
    decreases pkts.len() - current, run_marker(last_taken, current), 1int,
{
    let w = spec_walk(images, end_pc, pc, path, queue, u64::MAX as nat);
    if w.end is ReachedEnd || w.end is Stopped {
        w.path
    } else {
        spec_run(
            pkts,
            images,
            end_pc,
            current,
            w.pc,
            w.queue,
            w.end is Uninferable,
            last_taken,
            w.path,
        )
    }
}

/// What a successful reconstruction returns, in full: the run of the packet
/// machine of `spec_run` from the first `Sync` packet, with an initial pc of
/// zero, an empty queue and an empty path.
pub open spec fn spec_reconstruct(pkts: Seq<Packet>, images: Seq<Image>) -> Seq<u32> {
    spec_run(
        pkts,
        images,
        spec_end_pc(pkts),
        first_sync_index(pkts),
        0u32,
        Seq::<bool>::empty(),
        false,
        None,
        Seq::<u32>::empty(),
    )
}

/// The view the specification takes of the duplicate-suppression cursor.
pub open spec fn lt_view(o: Option<usize>) -> Option<int> {
    match o {
        Some(j) => Some(j as int),
        None => None,
    }
}

fn find_first_sync(parsed: &Vec<Packet>) -> (r: usize)
    ensures
        r as int == first_sync_index(parsed@),
{
    proof {
        lemma_first_sync_index(parsed@);
    }
    let mut i: usize = 0;
    loop
        invariant
            i <= parsed@.len(),
            forall|k: int| 0 <= k < i ==> !(#[trigger] parsed@[k] is Sync),
            0 <= first_sync_index(parsed@) <= parsed@.len(),
            first_sync_index(parsed@) < parsed@.len() ==> parsed@[first_sync_index(parsed@)]
                is Sync,
            forall|k: int|
                0 <= k < first_sync_index(parsed@) ==> !(#[trigger] parsed@[k] is Sync),
            spec_has_sync(parsed@) ==> first_sync_index(parsed@) < parsed@.len(),
        decreases parsed@.len() - i,
    {
        if i >= parsed.len() {
            proof {
                if first_sync_index(parsed@) < parsed@.len() {
                    assert(!(parsed@[first_sync_index(parsed@)] is Sync));
                }
            }
            return i;
        }
        let found: bool = match parsed[i] {
            Packet::Sync(_, _) => true,
            _ => false,
        };
        if found {
            proof {
                if first_sync_index(parsed@) < i {
                    assert(!(parsed@[first_sync_index(parsed@)] is Sync));
                }
            }
            return i;
        }
        i = i + 1;
    }
}

/// Walk straight-line code from the current pc: append each visited pc,
/// follow fall-throughs and direct jumps, consume one queued branch decision
/// at each conditional branch, and stop at the end address, at an empty
/// queue, at an uninferable branch, or where no instruction bytes exist.
#[verifier::loop_isolation(false)]
fn walk_code(
    pc: &mut u32,
    path: &mut Vec<u32>,
    queue: &mut Vec<bool>,
    images: &Vec<Image>,
    end_pc: u32,
    Ghost(pkts): Ghost<Seq<Packet>>,
) -> (w: WalkEnd)
    requires
        *old(pc) % 2 == 0,
        spec_path_chain(images@, pkts, old(path)@),
        old(path)@.len() > 0 ==> (*old(pc) == old(path)@.last() || spec_step_link(
            images@,
            pkts,
            old(path)@.last(),
            *old(pc),
        )),
        forall|i: int| 0 <= i < old(path)@.len() ==> #[trigger] old(path)@[i] != end_pc,
    ensures
        *final(pc) % 2 == 0,
        spec_path_chain(images@, pkts, final(path)@),
        final(path)@.len() > 0,
        old(path)@.is_prefix_of(final(path)@),
        final(path)@[0] == if old(path)@.len() > 0 {
            old(path)@[0]
        } else {
            *old(pc)
        },
        *final(pc) == final(path)@.last(),
        w is ReachedEnd ==> *final(pc) == end_pc,
        w is ReachedEnd ==> forall|i: int|
            0 <= i && i + 1 < final(path)@.len() ==> #[trigger] final(path)@[i] != end_pc,
        !(w is ReachedEnd) ==> forall|i: int|
            0 <= i < final(path)@.len() ==> #[trigger] final(path)@[i] != end_pc,
        ({
            let sw = spec_walk(images@, end_pc, *old(pc), old(path)@, old(queue)@, u64::MAX as nat);
            &&& *final(pc) == sw.pc
            &&& final(path)@ == sw.path
            &&& final(queue)@ == sw.queue
            &&& w == sw.end
        }),
{
    let ghost first_pc: u32 = *pc;
    let mut fuel: u64 = u64::MAX;
    loop
        invariant
            spec_walk(images@, end_pc, *old(pc), old(path)@, old(queue)@, u64::MAX as nat)
                == spec_walk(images@, end_pc, *pc, path@, queue@, fuel as nat),
            *pc % 2 == 0,
            spec_path_chain(images@, pkts, path@),
            old(path)@.is_prefix_of(path@),
            path@.len() > 0 ==> path@[0] == (if old(path)@.len() > 0 {
                old(path)@[0]
            } else {
                first_pc
            }),
            path@.len() == 0 ==> (old(path)@.len() == 0 && *pc == first_pc),
            path@.len() > 0 ==> (*pc == path@.last() || spec_step_link(
                images@,
                pkts,
                path@.last(),
                *pc,
            )),
            forall|i: int| 0 <= i < path@.len() ==> #[trigger] path@[i] != end_pc,
        decreases fuel,
    {
        let ghost pre: Seq<u32> = path@;
        let ghost qpre: Seq<bool> = queue@;
        let ghost pcpre: u32 = *pc;
        let ghost fpre: u64 = fuel;
        if path.len() == 0 || path[path.len() - 1] != *pc {
            path.push(*pc);
        }
        proof {
            assert(path@ == (if pre.len() == 0 || pre.last() != pcpre {
                pre.push(pcpre)
            } else {
                pre
            }));
            if pre.len() == 0 || pre.last() != *pc {
                assert(path@ =~= pre.push(*pc));
                assert forall|i: int| 0 <= i < path@.len() implies #[trigger] path@[i] % 2
                    == 0 by {
                    if i < pre.len() {
                        assert(pre[i] % 2 == 0);
                    }
                }
                assert forall|i: int| 0 <= i && i + 1 < path@.len() implies path@[i + 1]
                    != path@[i] && spec_step_link(images@, pkts, path@[i], #[trigger] path@[i
                    + 1]) by {
                    if i + 1 < pre.len() {
                        assert(spec_step_link(images@, pkts, pre[i], pre[i + 1]));
                    } else {
                        assert(path@.len() == pre.len() + 1);
                        assert(i == pre.len() - 1);
                        assert(pre.len() > 0);
                        assert(path@[i + 1] == *pc);
                        assert(path@[i] == pre[pre.len() - 1]);
                        assert(pre.last() != *pc);
                        assert(*pc == pre.last() || spec_step_link(images@, pkts, pre.last(), *pc));
                        assert(spec_step_link(images@, pkts, pre.last(), *pc));
                    }
                }
            }
            assert(*pc == path@.last());
            assert(spec_path_chain(images@, pkts, path@));
            if pre.len() > 0 {
                assert(path@[0] == pre[0]);
            } else {
                assert(path@[0] == *pc);
            }
            assert(path@[0] == (if old(path)@.len() > 0 {
                old(path)@[0]
            } else {
                first_pc
            }));
        }
        if *pc == end_pc {
            proof {
                assert(spec_walk(images@, end_pc, pcpre, pre, qpre, fpre as nat) == (WalkOut {
                    pc: *pc,
                    path: path@,
                    queue: queue@,
                    end: WalkEnd::ReachedEnd,
                }));
                assert forall|i: int| 0 <= i && i + 1 < path@.len() implies #[trigger] path@[i]
                    != end_pc by {
                    assert(path@[i] == pre[i]);
                }
            }
            return WalkEnd::ReachedEnd;
        }
        proof {
            assert forall|i: int| 0 <= i < path@.len() implies #[trigger] path@[i] != end_pc by {
                if i < pre.len() {
                    assert(pre[i] != end_pc);
                } else {
                    assert(path@[i] == pcpre);
                }
            }
        }
        if fuel == 0 {
            proof {
                assert(spec_walk(images@, end_pc, pcpre, pre, qpre, fpre as nat) == (WalkOut {
                    pc: *pc,
                    path: path@,
                    queue: queue@,
                    end: WalkEnd::Stopped,
                }));
            }
            return WalkEnd::Stopped;
        }
        let insn = get_instruction(images, *pc);
        if !instruction_window_ok(&insn) {
            proof {
                assert(spec_walk(images@, end_pc, pcpre, pre, qpre, fpre as nat) == (WalkOut {
                    pc: *pc,
                    path: path@,
                    queue: queue@,
                    end: WalkEnd::Stopped,
                }));
            }
            return WalkEnd::Stopped;
        }
        proof {
            crate::inst_decoder::lemma_candidates_basic(insn@, *pc);
        }
        let ib = is_inferable_branch(&insn);
        let ij = is_inferable_jump(&insn);
        let iu = is_uninferable_branch(&insn);
        let ghost pc0: u32 = *pc;
        if !ib && !iu && !ij {
            let na = next_address(&insn, *pc);
            *pc = na.next_instruction.unwrap();
        } else if ib {
            if queue.len() == 0 {
                proof {
                    assert(spec_walk(images@, end_pc, pcpre, pre, qpre, fpre as nat) == (WalkOut {
                        pc: *pc,
                        path: path@,
                        queue: queue@,
                        end: WalkEnd::NeedBranch,
                    }));
                }
                return WalkEnd::NeedBranch;
            }
            let taken: bool = queue[0];
            queue.remove(0);
            proof {
                assert(queue@ =~= qpre.drop_first());
            }
            let na = next_address(&insn, *pc);
            *pc = if taken {
                na.branched.unwrap()
            } else {
                na.next_instruction.unwrap()
            };
        } else if ij {
            let na = next_address(&insn, *pc);
            *pc = na.next_instruction.unwrap();
        } else {
            proof {
                assert(spec_walk(images@, end_pc, pcpre, pre, qpre, fpre as nat) == (WalkOut {
                    pc: *pc,
                    path: path@,
                    queue: queue@,
                    end: WalkEnd::Uninferable,
                }));
            }
            return WalkEnd::Uninferable;
        }
        proof {
            let c = spec_candidates(spec_get_instruction(images@, pc0), pc0);
            assert(c.contains(*pc));
        }
        fuel = fuel - 1;
        proof {
            assert(spec_walk(images@, end_pc, pcpre, pre, qpre, fpre as nat) == spec_walk(
                images@,
                end_pc,
                *pc,
                path@,
                queue@,
                fuel as nat,
            ));
        }
    }
}

/// Rebuild the executed pc sequence from decoded packets and the binary
/// images. Fails with `Corrupted` exactly when the stream has no `Sync`
/// packet or violates the end-packet invariant; a stream that merely runs dry
/// yields the partial path accumulated so far. A successful result is exactly
/// the run of the packet machine, `spec_reconstruct`, and the end address
/// appears in it at most once, as the final element.
#[verifier::rlimit(100)]
pub fn reconstruct(parsed: &Vec<Packet>, images: &Vec<Image>) -> (r: Result<Vec<u32>, Error>)
    requires
        packets_usable(parsed@),
    ensures
        match r {
            Err(_) => spec_corrupted(parsed@),
            Ok(path) => !spec_corrupted(parsed@) && spec_path_ok(images@, parsed@, path@)
                && path@ == spec_reconstruct(parsed@, images@) && (forall|i: int|
                0 <= i && i + 1 < path@.len() ==> #[trigger] path@[i] != spec_end_pc(parsed@)),
        },
{
    proof {
        lemma_first_sync_index(parsed@);
    }
    let first_sync: usize = find_first_sync(parsed);
    if first_sync >= parsed.len() {
        return Err(Error::Corrupted);
    }
    let last_packet: usize = match parsed[parsed.len() - 1] {
        Packet::Support(_, _) => {
            if parsed.len() < 2 {
                return Err(Error::Corrupted);
            }
            parsed.len() - 2
        },
        _ => parsed.len() - 1,
    };
    proof {
        assert(last_packet as int == spec_end_index(parsed@));
    }
    let end_pc: u32 = match parsed[last_packet] {
        Packet::Address(_, addr) => addr.address,
        _ => {
            return Err(Error::Corrupted);
        },
    };
    let mut execution_path: Vec<u32> = Vec::new();
    let mut branch_map: Vec<bool> = Vec::new();
    let mut current: usize = first_sync;
    let mut pc: u32 = 0;
    let mut uninferable: bool = false;
    let mut last_taken_branch_map: Option<usize> = None;
    proof {
        assert(branch_map@ =~= Seq::<bool>::empty());
        assert(execution_path@ =~= Seq::<u32>::empty());
    }
    loop
        invariant
            spec_run(
                parsed@,
                images@,
                end_pc,
                first_sync as int,
                0u32,
                Seq::<bool>::empty(),
                false,
                None,
                Seq::<u32>::empty(),
            ) == spec_run(
                parsed@,
                images@,
                end_pc,
                current as int,
                pc,
                branch_map@,
                uninferable,
                lt_view(last_taken_branch_map),
                execution_path@,
            ),
            packets_usable(parsed@),
            spec_has_sync(parsed@),
            spec_end_ok(parsed@),
            end_pc == spec_end_pc(parsed@),
            first_sync as int == first_sync_index(parsed@),
            first_sync < parsed@.len(),
            parsed@[first_sync as int] is Sync,
            current <= parsed@.len(),
            pc % 2 == 0,
            spec_path_chain(images@, parsed@, execution_path@),
            execution_path@.len() > 0 ==> execution_path@[0] == spec_first_sync_addr(parsed@),
            execution_path@.len() > 0 ==> (pc == execution_path@.last() || spec_step_link(
                images@,
                parsed@,
                execution_path@.last(),
                pc,
            )),
            execution_path@.len() == 0 ==> (current == first_sync && !uninferable),
            forall|i: int|
                0 <= i < execution_path@.len() ==> #[trigger] execution_path@[i] != end_pc,
        decreases
            parsed@.len() - current,
            (match last_taken_branch_map {
                Some(j) => if j == current {
                    0int
                } else {
                    1int
                },
                None => 1int,
            }),
    {
        let ghost glob: Seq<u32> = spec_run(
            parsed@,
            images@,
            end_pc,
            first_sync as int,
            0u32,
            Seq::<bool>::empty(),
            false,
            None,
            Seq::<u32>::empty(),
        );
        if current >= parsed.len() {
            proof {
                assert(glob == execution_path@);
                assert(glob == spec_reconstruct(parsed@, images@));
            }
            return Ok(execution_path);
        }
        let ghost cur0: int = current as int;
        let ghost pct: u32 = pc;
        let ghost qt: Seq<bool> = branch_map@;
        let ghost unt: bool = uninferable;
        let ghost ltt: Option<int> = lt_view(last_taken_branch_map);
        let ghost patht: Seq<u32> = execution_path@;
        match parsed[current] {
            Packet::Sync(_, sync) => {
                pc = sync.address;
                let insn = get_instruction(images, pc);
                if instruction_window_ok(&insn) {
                    if is_inferable_branch(&insn) {
                        branch_map.insert(0, !sync.branch);
                        proof {
                            assert(branch_map@ =~= seq![!sync.branch] + qt);
                        }
                    }
                }
                current = current + 1;
                proof {
                    assert(packet_usable(parsed@[cur0]));
                    assert(packet_sets_pc(parsed@[cur0], pc));
                    assert(branch_map@ == spec_sync_queue(images@, sync, qt));
                    assert(spec_run(parsed@, images@, end_pc, cur0, pct, qt, unt, ltt, patht)
                        == spec_run_resume(
                        parsed@,
                        images@,
                        end_pc,
                        current as int,
                        pc,
                        branch_map@,
                        lt_view(last_taken_branch_map),
                        execution_path@,
                    ));
                }
            },
            Packet::Address(_, address) => {
                pc = address.address;
                current = current + 1;
                proof {
                    assert(packet_usable(parsed@[cur0]));
                    assert(packet_sets_pc(parsed@[cur0], pc));
                    assert(spec_run(parsed@, images@, end_pc, cur0, pct, qt, unt, ltt, patht)
                        == spec_run_resume(
                        parsed@,
                        images@,
                        end_pc,
                        current as int,
                        pc,
                        branch_map@,
                        lt_view(last_taken_branch_map),
                        execution_path@,
                    ));
                }
            },
            Packet::AddressBranchMap(_, map) => {
                if uninferable {
                    pc = map.address;
                    current = current + 1;
                    proof {
                        assert(packet_usable(parsed@[cur0]));
                        assert(packet_sets_pc(parsed@[cur0], pc));
                        assert(spec_run(parsed@, images@, end_pc, cur0, pct, qt, unt, ltt, patht)
                            == spec_run_resume(
                            parsed@,
                            images@,
                            end_pc,
                            current as int,
                            pc,
                            branch_map@,
                            lt_view(last_taken_branch_map),
                            execution_path@,
                        ));
                    }
                } else {
                    let dup: bool = match last_taken_branch_map {
                        Some(j) => j == current,
                        None => false,
                    };
                    if dup {
                        // the map of this packet is already consumed: move on
                        current = current + 1;
                        proof {
                            assert(spec_run(
                                parsed@,
                                images@,
                                end_pc,
                                cur0,
                                pct,
                                qt,
                                unt,
                                ltt,
                                patht,
                            ) == spec_run(
                                parsed@,
                                images@,
                                end_pc,
                                current as int,
                                pc,
                                branch_map@,
                                uninferable,
                                lt_view(last_taken_branch_map),
                                execution_path@,
                            ));
                        }
                        continue ;
                    }
                    last_taken_branch_map = Some(current);
                    proof {
                        assert(packet_usable(parsed@[cur0]));
                    }
                    let count: u8 = if map.branches != 0 {
                        map.branches
                    } else {
                        32
                    };
                    let mut bi: u8 = 0;
                    proof {
                        assert(branch_map@ =~= qt + spec_map_bits(map.branches, map.branch_map).take(
                            0,
                        ));
                    }
                    while bi < count
                        invariant
                            count <= 32,
                            bi <= count,
                            count as nat == spec_map_bits(map.branches, map.branch_map).len(),
                            branch_map@ == qt + spec_map_bits(map.branches, map.branch_map).take(
                                bi as int,
                            ),
                        decreases count - bi,
                    {
                        branch_map.push(((map.branch_map >> (bi as u32)) & 1) == 0);
                        proof {
                            assert(branch_map@ =~= qt + spec_map_bits(
                                map.branches,
                                map.branch_map,
                            ).take(bi as int + 1));
                        }
                        bi = bi + 1;
                    }
                    proof {
                        assert(spec_map_bits(map.branches, map.branch_map).take(count as int)
                            =~= spec_map_bits(map.branches, map.branch_map));
                        assert(spec_run(parsed@, images@, end_pc, cur0, pct, qt, unt, ltt, patht)
                            == spec_run_resume(
                            parsed@,
                            images@,
                            end_pc,
                            current as int,
                            pc,
                            branch_map@,
                            lt_view(last_taken_branch_map),
                            execution_path@,
                        ));
                    }
                }
            },
            Packet::NoAddressBranchMap(_, map) => {
                proof {
                    assert(packet_usable(parsed@[cur0]));
                }
                let count: u8 = if map.branches != 0 {
                    map.branches
                } else {
                    32
                };
                let mut bi: u8 = 0;
                proof {
                    assert(branch_map@ =~= qt + spec_map_bits(map.branches, map.branch_map).take(
                        0,
                    ));
                }
                while bi < count
                    invariant
                        count <= 32,
                        bi <= count,
                        count as nat == spec_map_bits(map.branches, map.branch_map).len(),
                        branch_map@ == qt + spec_map_bits(map.branches, map.branch_map).take(
                            bi as int,
                        ),
                    decreases count - bi,
                {
                    branch_map.push(((map.branch_map >> (bi as u32)) & 1) == 0);
                    proof {
                        assert(branch_map@ =~= qt + spec_map_bits(map.branches, map.branch_map).take(
                            bi as int + 1,
                        ));
                    }
                    bi = bi + 1;
                }
                current = current + 1;
                proof {
                    assert(spec_map_bits(map.branches, map.branch_map).take(count as int)
                        =~= spec_map_bits(map.branches, map.branch_map));
                    assert(spec_run(parsed@, images@, end_pc, cur0, pct, qt, unt, ltt, patht)
                        == spec_run_resume(
                        parsed@,
                        images@,
                        end_pc,
                        current as int,
                        pc,
                        branch_map@,
                        lt_view(last_taken_branch_map),
                        execution_path@,
                    ));
                }
            },
            Packet::Exception(_, _) => {
                current = current + 1;
                proof {
                    assert(spec_run(parsed@, images@, end_pc, cur0, pct, qt, unt, ltt, patht)
                        == spec_run(
                        parsed@,
                        images@,
                        end_pc,
                        current as int,
                        pc,
                        branch_map@,
                        uninferable,
                        lt_view(last_taken_branch_map),
                        execution_path@,
                    ));
                }
                continue ;
            },
            Packet::Support(_, _) => {
                current = current + 1;
                proof {
                    assert(spec_run(parsed@, images@, end_pc, cur0, pct, qt, unt, ltt, patht)
                        == spec_run(
                        parsed@,
                        images@,
                        end_pc,
                        current as int,
                        pc,
                        branch_map@,
                        uninferable,
                        lt_view(last_taken_branch_map),
                        execution_path@,
                    ));
                }
                continue ;
            },
        }
        uninferable = false;
        let ghost cura: int = current as int;
        let ghost pca: u32 = pc;
        let ghost qa: Seq<bool> = branch_map@;
        let ghost lta: Option<int> = lt_view(last_taken_branch_map);
        let ghost patha: Seq<u32> = execution_path@;
        proof {
            assert(glob == spec_run_resume(parsed@, images@, end_pc, cura, pca, qa, lta, patha));
        }
        match walk_code(
            &mut pc,
            &mut execution_path,
            &mut branch_map,
            images,
            end_pc,
            Ghost(parsed@),
        ) {
            WalkEnd::ReachedEnd => {
                proof {
                    assert(glob == execution_path@);
                    assert(glob == spec_reconstruct(parsed@, images@));
                }
                return Ok(execution_path);
            },
            WalkEnd::NeedBranch => {
                proof {
                    assert(glob == spec_run(
                        parsed@,
                        images@,
                        end_pc,
                        current as int,
                        pc,
                        branch_map@,
                        false,
                        lt_view(last_taken_branch_map),
                        execution_path@,
                    ));
                }
            },
            WalkEnd::Uninferable => {
                uninferable = true;
                proof {
                    assert(glob == spec_run(
                        parsed@,
                        images@,
                        end_pc,
                        current as int,
                        pc,
                        branch_map@,
                        true,
                        lt_view(last_taken_branch_map),
                        execution_path@,
                    ));
                }
            },
            WalkEnd::Stopped => {
                proof {
                    assert(glob == execution_path@);
                    assert(glob == spec_reconstruct(parsed@, images@));
                }
                return Ok(execution_path);
            },
        }
    }
}

/// Decode a raw trace byte stream and rebuild the executed pc sequence
/// against the given binary images. `Corrupted` comes exactly when the
/// decoded packets lack a `Sync` or violate the end-packet invariant; a
/// successful result is exactly `spec_reconstruct` of the decoded packets.
pub fn parse_trace(data: Vec<u8>, images: &Vec<Image>) -> (r: Result<Vec<u32>, Error>)
    requires
        8 * data@.len() + 248 <= usize::MAX,
    ensures
        match r {
            Err(_) => spec_corrupted(spec_parse(data@)),
            Ok(path) => !spec_corrupted(spec_parse(data@)) && spec_path_ok(
                images@,
                spec_parse(data@),
                path@,
            ) && path@ == spec_reconstruct(spec_parse(data@), images@) && (forall|i: int|
                0 <= i && i + 1 < path@.len() ==> #[trigger] path@[i] != spec_end_pc(
                    spec_parse(data@),
                )),
        },
{
    let parsed = match parse(data.as_slice()) {
        Ok(v) => v,
        Err(e) => {
            return Err(e);
        },
    };
    proof {
        assert forall|i: int| 0 <= i < parsed@.len() implies packet_usable(
            #[trigger] parsed@[i],
        ) by {
            assert(packet_wf(parsed@[i]));
        }
    }
    reconstruct(&parsed, images)
}

} // verus!
