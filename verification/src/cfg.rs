//! The control-flow graph the analysis consumes: basic blocks over the
//! bytecode, their successors and predecessors, a traversal order, and the
//! back-edge bookkeeping that re-schedules loop headers.

use crate::code::Bytecode;
use vstd::prelude::*;
use vstd::seq_lib::*;
use vstd::set_lib::*;

verus! {

/// A basic block identifier: the code offset of its first instruction.
pub type BlockId = u16;

/// The basic requirements on a control-flow graph: what the fixed-point
/// driver reads. Offsets of blocks that the graph does not hold are
/// answered with the entry block.
pub trait ControlFlowGraph {
    /// Offset of the first instruction of the block.
    fn block_start(&self, block_id: BlockId) -> BlockId;

    /// Offset of the last instruction of the block.
    fn block_end(&self, block_id: BlockId) -> BlockId;

    /// Entries of the block's successors.
    fn successors(&self, block_id: BlockId) -> Vec<BlockId>;

    /// Entries of the block's predecessors.
    fn predecessors(&self, block_id: BlockId) -> Vec<BlockId>;

    /// The order in which the driver visits blocks.
    fn traversal_order(&self) -> Vec<BlockId>;

    /// The entries of all blocks.
    fn blocks(&self) -> Vec<BlockId>;

    /// The number of blocks in the graph.
    fn num_blocks(&self) -> usize;

    /// The entry offset of the block that starts the function.
    fn entry_block_id(&self) -> BlockId;
}

/// A maximal straight-line run of instructions.
#[derive(Debug)]
pub struct BasicBlock {
    /// Offset of the first instruction of the block.
    pub entry: u16,
    /// Offset of the last instruction of the block.
    pub exit: u16,
    /// Entries of the successor blocks.
    pub successors: Vec<u16>,
}

/// The control-flow graph built from a bytecode array.
#[derive(Debug)]
pub struct VMControlFlowGraph {
    /// The blocks, in ascending entry order; together they partition the
    /// code.
    pub blocks: Vec<BasicBlock>,
    /// For each block, in the same order, the entries of its predecessors.
    pub predecessors: Vec<Vec<u16>>,
    /// The order in which the driver visits blocks.
    pub ordered_blocks: Vec<u16>,
    /// Pairs of a block holding the last continue of a loop and the loop
    /// header it jumps back to.
    pub loop_heads: Vec<(u16, u16)>,
}

/// Offset `off` must start a basic block: the previous instruction is a
/// branch, or some instruction targets `off`.
pub open spec fn is_cut_point(code: Seq<Bytecode>, off: int) -> bool {
    cut_upto(code, off, code.len() as int)
}

/// `is_cut_point` restricted to the instructions before `upto`.
pub open spec fn cut_upto(code: Seq<Bytecode>, off: int, upto: int) -> bool {
    ||| (0 < off && off - 1 < upto && crate::code::spec_is_branch(code[off - 1]))
    ||| (exists|pc: int|
        0 <= pc < upto && crate::code::spec_target(#[trigger] code[pc]) == Some(off as u16))
}

/// Membership of an offset in a list of offsets.
pub open spec fn in_u16s(v: Seq<u16>, x: u16) -> bool {
    exists|i: int| 0 <= i < v.len() && v[i] == x
}

/// The block list is a contiguous partition: every block's entry is at
/// most its exit, and each block begins right after the previous one.
pub open spec fn blocks_chain(blocks: Seq<BasicBlock>) -> bool {
    &&& forall|i: int| 0 <= i < blocks.len() ==> (#[trigger] blocks[i]).entry <= blocks[i].exit
    &&& forall|i: int|
        0 < i < blocks.len() ==> (#[trigger] blocks[i]).entry == blocks[i - 1].exit + 1
}

/// Whether `x` is the entry offset of some block in `blocks`.
pub open spec fn is_entry(blocks: Seq<BasicBlock>, x: u16) -> bool {
    exists|w: int| 0 <= w < blocks.len() && (#[trigger] blocks[w]).entry == x
}

/// A walk through the graph: consecutive elements are linked by a
/// successor edge of the block whose entry is the earlier element.
pub open spec fn reach_chain(blocks: Seq<BasicBlock>, p: Seq<u16>) -> bool {
    forall|i: int|
        0 <= i < p.len() - 1 ==> exists|w: int|
            0 <= w < blocks.len() && blocks[w].entry == #[trigger] p[i] && in_u16s(
                blocks[w].successors@,
                p[i + 1],
            )
}

/// `to` can be reached from `from` by following successor edges.
pub open spec fn reachable(blocks: Seq<BasicBlock>, from: u16, to: u16) -> bool {
    exists|p: Seq<u16>|
        p.len() > 0 && p[0] == from && p[p.len() - 1] == to && reach_chain(blocks, p)
}

/// Every offset reaches itself, by the walk of one element.
proof fn lemma_reach_base(blocks: Seq<BasicBlock>, x: u16)
    ensures
        reachable(blocks, x, x),
{
    let p = seq![x];
    assert(p[0] == x && p[p.len() - 1] == x);
    assert(reach_chain(blocks, p));
}

/// A walk to `mid` extends along a successor edge of `mid`'s block to `t`.
proof fn lemma_reach_step(blocks: Seq<BasicBlock>, from: u16, mid: u16, w: int, t: u16)
    requires
        reachable(blocks, from, mid),
        0 <= w < blocks.len(),
        blocks[w].entry == mid,
        in_u16s(blocks[w].successors@, t),
    ensures
        reachable(blocks, from, t),
{
    let p = choose|p: Seq<u16>|
        p.len() > 0 && p[0] == from && p[p.len() - 1] == mid && reach_chain(blocks, p);
    let q = p.push(t);
    assert(q[0] == from && q[q.len() - 1] == t);
    assert forall|i: int|
        0 <= i < q.len() - 1 implies exists|w2: int|
        0 <= w2 < blocks.len() && blocks[w2].entry == #[trigger] q[i] && in_u16s(
            blocks[w2].successors@,
            q[i + 1],
        ) by {
        if i < p.len() - 1 {
            assert(q[i] == p[i] && q[i + 1] == p[i + 1]);
            assert(exists|w2: int|
                0 <= w2 < blocks.len() && blocks[w2].entry == #[trigger] p[i] && in_u16s(
                    blocks[w2].successors@,
                    p[i + 1],
                ));
        } else {
            assert(q[i] == mid && q[i + 1] == t);
            assert(blocks[w].entry == q[i] && in_u16s(blocks[w].successors@, q[i + 1]));
        }
    }
    assert(reach_chain(blocks, q));
}

/// `v`, taken up to `upto`, is closed under the successor edges of the
/// blocks its elements name: every successor offset that is itself a block
/// entry already stands in `v`.
pub open spec fn closed_under_successors(blocks: Seq<BasicBlock>, v: Seq<u16>, upto: int) -> bool {
    forall|idx: int, w: int, j: int|
        #![trigger v[idx], blocks[w].successors@[j]]
        0 <= idx < upto && 0 <= w < blocks.len() && blocks[w].entry == v[idx] && 0 <= j
            < blocks[w].successors@.len() && is_entry(blocks, blocks[w].successors@[j])
            ==> in_u16s(v, blocks[w].successors@[j])
}

/// Distinct offsets that are all block entries are no more numerous than
/// the blocks: in a contiguous partition entries are unique.
proof fn lemma_distinct_entries_bound(blocks: Seq<BasicBlock>, v: Seq<u16>)
    requires
        blocks_chain(blocks),
        forall|k1: int, k2: int| 0 <= k1 < k2 < v.len() ==> v[k1] != v[k2],
        forall|k: int| 0 <= k < v.len() ==> is_entry(blocks, #[trigger] v[k]),
    ensures
        v.len() <= blocks.len(),
{
    broadcast use vstd::set::group_set_axioms;

    let m = Seq::new(
        v.len(),
        |k: int| choose|w: int| 0 <= w < blocks.len() && blocks[w].entry == v[k],
    );
    assert forall|k: int|
        0 <= k < v.len() implies 0 <= #[trigger] m[k] < blocks.len() && blocks[m[k]].entry
        == v[k] by {
        assert(is_entry(blocks, v[k]));
    }
    assert forall|k1: int, k2: int|
        0 <= k1 < m.len() && 0 <= k2 < m.len() && k1 != k2 implies #[trigger] m[k1]
        != #[trigger] m[k2] by {
        assert(blocks[m[k1]].entry == v[k1] && blocks[m[k2]].entry == v[k2]);
    }
    assert(m.no_duplicates());
    m.unique_seq_to_set();
    assert forall|x: int| m.to_set().contains(x) implies set_int_range(
        0,
        blocks.len() as int,
    ).contains(x) by {
        let i = choose|i: int| 0 <= i < m.len() && m[i] == x;
        assert(0 <= m[i] < blocks.len());
    }
    lemma_int_range(0, blocks.len() as int);
    lemma_len_subset(m.to_set(), set_int_range(0, blocks.len() as int));
}

/// Any walk that begins in a successor-closed list and ends at a block
/// entry ends in the list too.
proof fn lemma_walk_in_closed(blocks: Seq<BasicBlock>, v: Seq<u16>, p: Seq<u16>)
    requires
        p.len() > 0,
        reach_chain(blocks, p),
        in_u16s(v, p[0]),
        closed_under_successors(blocks, v, v.len() as int),
    ensures
        p.len() == 1 || is_entry(blocks, p[p.len() - 1]) ==> in_u16s(v, p[p.len() - 1]),
    decreases p.len(),
{
    if p.len() > 1 {
        let q = p.subrange(0, p.len() - 1);
        assert forall|i: int|
            0 <= i < q.len() - 1 implies exists|w: int|
            0 <= w < blocks.len() && blocks[w].entry == #[trigger] q[i] && in_u16s(
                blocks[w].successors@,
                q[i + 1],
            ) by {
            assert(q[i] == p[i] && q[i + 1] == p[i + 1]);
            assert(exists|w: int|
                0 <= w < blocks.len() && blocks[w].entry == #[trigger] p[i] && in_u16s(
                    blocks[w].successors@,
                    p[i + 1],
                ));
        }
        let lw = choose|w: int|
            0 <= w < blocks.len() && blocks[w].entry == #[trigger] p[p.len() - 2] && in_u16s(
                blocks[w].successors@,
                p[p.len() - 1],
            );
        assert(is_entry(blocks, q[q.len() - 1]));
        lemma_walk_in_closed(blocks, v, q);
        assert(in_u16s(v, p[p.len() - 2]));
        if is_entry(blocks, p[p.len() - 1]) {
            let idx = choose|idx: int| 0 <= idx < v.len() && v[idx] == p[p.len() - 2];
            let j = choose|j: int|
                0 <= j < blocks[lw].successors@.len() && blocks[lw].successors@[j] == p[p.len()
                    - 1];
            assert(v[idx] == blocks[lw].entry);
            assert(in_u16s(v, blocks[lw].successors@[j]));
        }
    }
}

/// In a contiguous partition the block entries strictly increase, so an
/// entry determines its block.
proof fn lemma_entries_increase(blocks: Seq<BasicBlock>, k1: int, k2: int)
    requires
        0 <= k1 < k2 < blocks.len(),
        forall|i: int| 0 <= i < blocks.len() ==> (#[trigger] blocks[i]).entry <= blocks[i].exit,
        forall|i: int|
            0 < i < blocks.len() ==> (#[trigger] blocks[i]).entry == blocks[i - 1].exit + 1,
    ensures
        blocks[k1].entry < blocks[k2].entry,
    decreases k2 - k1,
{
    assert(blocks[k1 + 1].entry == blocks[k1].exit + 1);
    if k1 + 1 < k2 {
        lemma_entries_increase(blocks, k1 + 1, k2);
    }
}

proof fn lemma_cut_step(code: Seq<Bytecode>, off: int, pc: int)
    requires
        0 <= pc < code.len(),
        0 < off,
    ensures
        cut_upto(code, off, pc + 1) <==> cut_upto(code, off, pc) || (off - 1 == pc
            && crate::code::spec_is_branch(code[pc])) || (crate::code::spec_target(code[pc])
            == Some(off as u16)),
{
    if cut_upto(code, off, pc + 1) {
        if exists|pc2: int|
            0 <= pc2 < pc + 1 && crate::code::spec_target(#[trigger] code[pc2]) == Some(
                off as u16,
            ) {
            let pc2 = choose|pc2: int|
                0 <= pc2 < pc + 1 && crate::code::spec_target(#[trigger] code[pc2]) == Some(
                    off as u16,
                );
            if pc2 < pc {
                assert(cut_upto(code, off, pc));
            }
        }
    }
    if crate::code::spec_target(code[pc]) == Some(off as u16) {
        assert(cut_upto(code, off, pc + 1));
    }
}

/// The blocks partition the code: they are contiguous, in ascending order,
/// starting at offset zero and ending at the last instruction.
pub open spec fn cfg_wf(g: VMControlFlowGraph, code_len: int) -> bool {
    &&& g.blocks@.len() > 0
    &&& g.blocks@[0].entry == 0
    &&& forall|i: int|
        0 <= i < g.blocks@.len() ==> (#[trigger] g.blocks@[i]).entry <= g.blocks@[i].exit
            && (g.blocks@[i].exit as int) < code_len
    &&& forall|i: int|
        0 < i < g.blocks@.len() ==> (#[trigger] g.blocks@[i]).entry == g.blocks@[i - 1].exit + 1
    &&& g.blocks@[g.blocks@.len() - 1].exit + 1 == code_len
}

impl VMControlFlowGraph {
    /// Build the graph: each branch target and each instruction after a
    /// branch starts a block; every block runs to the instruction before
    /// the next block.
    #[verifier::rlimit(100)]
    #[verifier::spinoff_prover]
    pub fn new(code: &Vec<Bytecode>) -> (r: VMControlFlowGraph)
        requires
            0 < code@.len() <= u16::MAX as int,
        ensures
            cfg_wf(r, code@.len() as int),
            forall|k: int|
                0 <= k < r.blocks@.len() ==> (#[trigger] r.blocks@[k]).successors@
                    == crate::code::spec_successors(code@, r.blocks@[k].exit as int),
            forall|k: int|
                0 < k < r.blocks@.len() ==> is_cut_point(
                    code@,
                    (#[trigger] r.blocks@[k]).entry as int,
                ),
            forall|off: int|
                0 < off < code@.len() && #[trigger] is_cut_point(code@, off) ==> exists|k: int|
                    0 <= k < r.blocks@.len() && (#[trigger] r.blocks@[k]).entry == off,
            r.predecessors@.len() == r.blocks@.len(),
            forall|w: int, p: u16|
                #![trigger in_u16s(r.predecessors@[w]@, p)]
                0 <= w < r.blocks@.len() ==> (in_u16s(r.predecessors@[w]@, p) <==> exists|b: int|
                    0 <= b < r.blocks@.len() && (#[trigger] r.blocks@[b]).entry == p && in_u16s(
                        r.blocks@[b].successors@,
                        r.blocks@[w].entry,
                    )),
    {
        let n = code.len();
        // Mark the offsets that begin a basic block.
        let mut starts: Vec<bool> = Vec::new();
        let mut i: usize = 0;
        while i < n
            invariant
                0 <= i <= n,
                starts@.len() == i,
                i > 0 ==> starts@[0] == true,
                forall|j: int| 0 < j < i ==> starts@[j] == false,
            decreases n - i,
        {
            starts.push(i == 0);
            i += 1;
        }
        let mut pc: usize = 0;
        while pc < n
            invariant
                n == code@.len(),
                n <= u16::MAX as int,
                0 <= pc <= n,
                starts@.len() == n,
                starts@[0] == true,
                forall|off: int|
                    0 < off < n ==> ((#[trigger] starts@[off]) <==> cut_upto(
                        code@,
                        off,
                        pc as int,
                    )),
            decreases n - pc,
        {
            let ghost s0 = starts@;
            let tgt = code[pc].offset();
            match tgt {
                Some(t) => {
                    if (t as usize) < n {
                        starts.set(t as usize, true);
                        proof {
                            assert(starts@[0] == true);
                        }
                    }
                },
                None => {},
            }
            let ghost s1 = starts@;
            let br = code[pc].is_branch();
            if br && pc + 1 < n {
                starts.set(pc + 1, true);
            }
            proof {
                assert(tgt == crate::code::spec_target(code@[pc as int]));
                assert(br == crate::code::spec_is_branch(code@[pc as int]));
                assert forall|off: int|
                    0 < off < n implies ((#[trigger] starts@[off]) <==> cut_upto(
                    code@,
                    off,
                    pc as int + 1,
                )) by {
                    lemma_cut_step(code@, off, pc as int);
                    match tgt {
                        Some(t) => {
                            if (t as int) < n {
                                if off == t as int {
                                    assert(s1[off] == true);
                                    assert(crate::code::spec_target(code@[pc as int]) == Some(
                                        off as u16,
                                    ));
                                } else {
                                    assert(s1[off] == s0[off]);
                                    assert(crate::code::spec_target(code@[pc as int]) != Some(
                                        off as u16,
                                    ));
                                }
                            } else {
                                assert(s1[off] == s0[off]);
                                assert(off < n <= t as int);
                                assert(crate::code::spec_target(code@[pc as int]) != Some(
                                    off as u16,
                                ));
                            }
                        },
                        None => {
                            assert(s1[off] == s0[off]);
                            assert(crate::code::spec_target(code@[pc as int]) is None);
                        },
                    }
                    if br && pc + 1 < n {
                        if off == pc + 1 {
                            assert(starts@[off] == true);
                        } else {
                            assert(starts@[off] == s1[off]);
                        }
                    } else {
                        assert(starts@[off] == s1[off]);
                    }
                }
            }
            pc += 1;
        }
        // Carve the code into blocks at the marked offsets.
        let mut blocks: Vec<BasicBlock> = Vec::new();
        let mut entry: usize = 0;
        let mut pc2: usize = 0;
        while pc2 < n
            invariant
                n == code@.len(),
                0 < n <= u16::MAX as int,
                0 <= pc2 <= n,
                entry <= pc2,
                starts@.len() == n,
                blocks@.len() > 0 ==> blocks@[0].entry == 0,
                blocks@.len() == 0 ==> entry == 0,
                forall|k: int|
                    0 <= k < blocks@.len() ==> (#[trigger] blocks@[k]).entry <= blocks@[k].exit
                        && (blocks@[k].exit as int) < n,
                forall|k: int|
                    0 < k < blocks@.len() ==> (#[trigger] blocks@[k]).entry == blocks@[k
                        - 1].exit + 1,
                blocks@.len() > 0 ==> blocks@[blocks@.len() - 1].exit as int + 1 == entry,
                pc2 == n ==> entry == n && blocks@.len() > 0,
                forall|k: int|
                    0 <= k < blocks@.len() ==> (#[trigger] blocks@[k]).successors@
                        == crate::code::spec_successors(code@, blocks@[k].exit as int),
                starts@.len() == n,
                starts@[0] == true,
                forall|off: int|
                    0 < off < n ==> ((#[trigger] starts@[off]) <==> cut_upto(
                        code@,
                        off,
                        n as int,
                    )),
                entry == 0 || entry >= n || starts@[entry as int] == true,
                forall|k: int|
                    0 < k < blocks@.len() ==> starts@[(#[trigger] blocks@[k]).entry as int]
                        == true,
                forall|off: int|
                    #![trigger starts@[off]]
                    0 < off <= pc2 && off < n && starts@[off] ==> (exists|k: int|
                        0 <= k < blocks@.len() && (#[trigger] blocks@[k]).entry == off) || entry
                        == off,
            decreases n - pc2,
        {
            let is_end = pc2 + 1 == n || starts[pc2 + 1];
            let ghost pre_blocks = blocks@;
            let ghost pre_entry = entry as int;
            if is_end {
                let successors = Bytecode::get_successors(pc2 as u16, code);
                blocks.push(
                    BasicBlock { entry: entry as u16, exit: pc2 as u16, successors },
                );
                entry = pc2 + 1;
            }
            proof {
                assert forall|off: int|
                    #![trigger starts@[off]]
                    0 < off <= pc2 + 1 && off < n && starts@[off] implies (exists|k: int|
                    0 <= k < blocks@.len() && (#[trigger] blocks@[k]).entry == off) || entry as int
                    == off by {
                    if off <= pc2 as int {
                        if exists|k: int|
                            0 <= k < pre_blocks.len() && (#[trigger] pre_blocks[k]).entry == off {
                            let k = choose|k: int|
                                0 <= k < pre_blocks.len() && (#[trigger] pre_blocks[k]).entry
                                    == off;
                            assert(blocks@[k].entry == off);
                        } else if pre_entry == off {
                            if is_end {
                                assert(blocks@[blocks@.len() - 1].entry as int == off);
                            }
                        }
                    } else {
                        assert(off == pc2 + 1);
                        if is_end {
                            assert(entry as int == off);
                        }
                    }
                }
            }
            pc2 += 1;
        }
        proof {
            assert(blocks@.len() > 0);
            assert(blocks@[blocks@.len() - 1].exit as int == n - 1);
            assert forall|k: int| 0 < k < blocks@.len() implies is_cut_point(
                code@,
                (#[trigger] blocks@[k]).entry as int,
            ) by {
                assert(starts@[blocks@[k].entry as int] == true);
                assert(0 < (blocks@[k].entry as int) && (blocks@[k].entry as int) < n);
            }
            assert forall|off: int|
                0 < off < n && #[trigger] is_cut_point(code@, off) implies exists|k: int|
                0 <= k < blocks@.len() && (#[trigger] blocks@[k]).entry == off by {
                assert(starts@[off] == true);
            }
        }
        // Predecessors, in block order.
        let nb = blocks.len();
        let mut predecessors: Vec<Vec<u16>> = Vec::new();
        let mut b: usize = 0;
        while b < nb
            invariant
                0 <= b <= nb,
                predecessors@.len() == b,
                forall|j: int| 0 <= j < b ==> (#[trigger] predecessors@[j])@.len() == 0,
            decreases nb - b,
        {
            predecessors.push(Vec::new());
            b += 1;
        }
        proof {
            assert forall|w: int, p: u16|
                #![trigger in_u16s(predecessors@[w]@, p)]
                0 <= w < nb implies !in_u16s(predecessors@[w]@, p) by {
                assert(predecessors@[w]@.len() == 0);
            }
        }
        let mut b2: usize = 0;
        while b2 < nb
            invariant
                nb == blocks@.len(),
                0 <= b2 <= nb,
                predecessors@.len() == nb,
                forall|i: int|
                    0 <= i < nb ==> (#[trigger] blocks@[i]).entry <= blocks@[i].exit,
                forall|i: int|
                    0 < i < nb ==> (#[trigger] blocks@[i]).entry == blocks@[i - 1].exit + 1,
                forall|w: int, p: u16|
                    #![trigger in_u16s(predecessors@[w]@, p)]
                    0 <= w < nb ==> (in_u16s(predecessors@[w]@, p) <==> exists|b: int|
                        0 <= b < b2 && (#[trigger] blocks@[b]).entry == p && in_u16s(
                            blocks@[b].successors@,
                            blocks@[w].entry,
                        )),
            decreases nb - b2,
        {
            let ns = blocks[b2].successors.len();
            let mut si: usize = 0;
            while si < ns
                invariant
                    nb == blocks@.len(),
                    0 <= b2 < nb,
                    ns == blocks@[b2 as int].successors@.len(),
                    0 <= si <= ns,
                    predecessors@.len() == nb,
                    forall|i: int|
                        0 <= i < nb ==> (#[trigger] blocks@[i]).entry <= blocks@[i].exit,
                    forall|i: int|
                        0 < i < nb ==> (#[trigger] blocks@[i]).entry == blocks@[i - 1].exit + 1,
                    forall|w: int, p: u16|
                        #![trigger in_u16s(predecessors@[w]@, p)]
                        0 <= w < nb ==> (in_u16s(predecessors@[w]@, p) <==> (exists|b: int|
                            0 <= b < b2 && (#[trigger] blocks@[b]).entry == p && in_u16s(
                                blocks@[b].successors@,
                                blocks@[w].entry,
                            )) || (p == blocks@[b2 as int].entry && exists|si2: int|
                            0 <= si2 < si && blocks@[b2 as int].successors@[si2]
                                == blocks@[w].entry)),
                decreases ns - si,
            {
                let t = blocks[b2].successors[si];
                let ghost pre_preds = predecessors@;
                match Self::find_block(&blocks, t) {
                    Some(w) => {
                        let mut updated = copy_ids16(&predecessors[w]);
                        updated.push(blocks[b2].entry);
                        predecessors.set(w, updated);
                        proof {
                            assert forall|w2: int, p: u16|
                                #![trigger in_u16s(predecessors@[w2]@, p)]
                                0 <= w2 < nb implies (in_u16s(predecessors@[w2]@, p) <==> (
                            exists|b: int|
                                0 <= b < b2 && (#[trigger] blocks@[b]).entry == p && in_u16s(
                                    blocks@[b].successors@,
                                    blocks@[w2].entry,
                                )) || (p == blocks@[b2 as int].entry && exists|si2: int|
                                0 <= si2 < si + 1 && blocks@[b2 as int].successors@[si2]
                                    == blocks@[w2].entry)) by {
                                if w2 == w as int {
                                    if in_u16s(predecessors@[w2]@, p) {
                                        let ii = choose|ii: int|
                                            0 <= ii < predecessors@[w2]@.len()
                                                && predecessors@[w2]@[ii] == p;
                                        if ii < pre_preds[w2]@.len() {
                                            assert(pre_preds[w2]@[ii] == p);
                                            assert(in_u16s(pre_preds[w2]@, p));
                                        } else {
                                            assert(p == blocks@[b2 as int].entry);
                                            assert(blocks@[b2 as int].successors@[si as int]
                                                == blocks@[w2].entry);
                                        }
                                    }
                                    if in_u16s(pre_preds[w2]@, p) {
                                        let ii = choose|ii: int|
                                            0 <= ii < pre_preds[w2]@.len() && pre_preds[w2]@[ii]
                                                == p;
                                        assert(predecessors@[w2]@[ii] == p);
                                        assert(in_u16s(predecessors@[w2]@, p));
                                    }
                                    if p == blocks@[b2 as int].entry && exists|si2: int|
                                        0 <= si2 < si + 1 && blocks@[b2 as int].successors@[si2]
                                            == blocks@[w2].entry {
                                        assert(predecessors@[w2]@[predecessors@[w2]@.len() - 1]
                                            == blocks@[b2 as int].entry);
                                        assert(in_u16s(predecessors@[w2]@, p));
                                    }
                                } else {
                                    assert(predecessors@[w2] == pre_preds[w2]);
                                    if p == blocks@[b2 as int].entry && exists|si2: int|
                                        0 <= si2 < si + 1 && blocks@[b2 as int].successors@[si2]
                                            == blocks@[w2].entry {
                                        let si2 = choose|si2: int|
                                            0 <= si2 < si + 1
                                                && blocks@[b2 as int].successors@[si2]
                                                == blocks@[w2].entry;
                                        if si2 == si as int {
                                            // Two distinct blocks cannot share the
                                            // entry the successor names.
                                            assert(blocks@[w2].entry == t);
                                            assert(blocks@[w as int].entry == t);
                                            if w2 < w as int {
                                                lemma_entries_increase(blocks@, w2, w as int);
                                            } else {
                                                lemma_entries_increase(blocks@, w as int, w2);
                                            }
                                            assert(false);
                                        }
                                    }
                                }
                            }
                        }
                    },
                    None => {
                        proof {
                            assert forall|w2: int, p: u16|
                                #![trigger in_u16s(predecessors@[w2]@, p)]
                                0 <= w2 < nb implies (in_u16s(predecessors@[w2]@, p) <==> (
                            exists|b: int|
                                0 <= b < b2 && (#[trigger] blocks@[b]).entry == p && in_u16s(
                                    blocks@[b].successors@,
                                    blocks@[w2].entry,
                                )) || (p == blocks@[b2 as int].entry && exists|si2: int|
                                0 <= si2 < si + 1 && blocks@[b2 as int].successors@[si2]
                                    == blocks@[w2].entry)) by {
                                if p == blocks@[b2 as int].entry && exists|si2: int|
                                    0 <= si2 < si + 1 && blocks@[b2 as int].successors@[si2]
                                        == blocks@[w2].entry {
                                    let si2 = choose|si2: int|
                                        0 <= si2 < si + 1 && blocks@[b2 as int].successors@[si2]
                                            == blocks@[w2].entry;
                                    if si2 == si as int {
                                        assert(blocks@[w2].entry == t);
                                        assert(false);
                                    }
                                }
                            }
                        }
                    },
                }
                si += 1;
            }
            proof {
                assert forall|w2: int, p: u16|
                    #![trigger in_u16s(predecessors@[w2]@, p)]
                    0 <= w2 < nb implies (in_u16s(predecessors@[w2]@, p) <==> exists|b: int|
                    0 <= b < b2 + 1 && (#[trigger] blocks@[b]).entry == p && in_u16s(
                        blocks@[b].successors@,
                        blocks@[w2].entry,
                    )) by {
                    if exists|si2: int|
                        0 <= si2 < ns && blocks@[b2 as int].successors@[si2]
                            == blocks@[w2].entry {
                        assert(in_u16s(blocks@[b2 as int].successors@, blocks@[w2].entry));
                    }
                    if in_u16s(blocks@[b2 as int].successors@, blocks@[w2].entry) {
                        let si2 = choose|si2: int|
                            0 <= si2 < blocks@[b2 as int].successors@.len()
                                && blocks@[b2 as int].successors@[si2] == blocks@[w2].entry;
                        assert(0 <= si2 < ns);
                    }
                    if in_u16s(predecessors@[w2]@, p) {
                        assert(0 <= w2 < nb);
                    }
                }
            }
            b2 += 1;
        }
        // Traversal order: ascending entries.
        let mut ordered_blocks: Vec<u16> = Vec::new();
        let mut b3: usize = 0;
        while b3 < nb
            invariant
                nb == blocks@.len(),
                0 <= b3 <= nb,
            decreases nb - b3,
        {
            ordered_blocks.push(blocks[b3].entry);
            b3 += 1;
        }
        // For each loop header, the last block that continues back to it.
        let mut loop_heads: Vec<(u16, u16)> = Vec::new();
        let mut b4: usize = 0;
        while b4 < nb
            invariant
                nb == blocks@.len(),
                0 <= b4 <= nb,
            decreases nb - b4,
        {
            let ns = blocks[b4].successors.len();
            let mut si: usize = 0;
            while si < ns
                invariant
                    nb == blocks@.len(),
                    0 <= b4 < nb,
                    ns == blocks@[b4 as int].successors@.len(),
                    0 <= si <= ns,
                decreases ns - si,
            {
                let t = blocks[b4].successors[si];
                if t <= blocks[b4].entry {
                    set_last_continue(&mut loop_heads, t, blocks[b4].entry);
                }
                si += 1;
            }
            b4 += 1;
        }
        VMControlFlowGraph { blocks, predecessors, ordered_blocks, loop_heads }
    }

    /// The index of the block whose entry is `id`, if any.
    pub fn find_block(blocks: &Vec<BasicBlock>, id: u16) -> (r: Option<usize>)
        ensures
            r matches Some(w) ==> (w as int) < blocks@.len() && blocks@[w as int].entry == id,
            r is None ==> forall|k: int|
                0 <= k < blocks@.len() ==> (#[trigger] blocks@[k]).entry != id,
    {
        let nb = blocks.len();
        let mut w: usize = 0;
        while w < nb
            invariant
                nb == blocks@.len(),
                0 <= w <= nb,
                forall|k: int| 0 <= k < w ==> (#[trigger] blocks@[k]).entry != id,
            decreases nb - w,
        {
            if blocks[w].entry == id {
                return Some(w);
            }
            w += 1;
        }
        None
    }

    /// The entry offset of the block that starts the function.
    pub fn entry_block_id(&self) -> (r: BlockId)
        ensures
            r == 0,
    {
        0
    }

    /// The number of blocks.
    pub fn num_blocks(&self) -> (r: usize)
        ensures
            r == self.blocks@.len(),
    {
        self.blocks.len()
    }

    /// The entries of all blocks, in ascending order.
    pub fn blocks(&self) -> (r: Vec<u16>)
        ensures
            r@.len() == self.blocks@.len(),
    {
        let nb = self.blocks.len();
        let mut out: Vec<u16> = Vec::new();
        let mut b: usize = 0;
        while b < nb
            invariant
                nb == self.blocks@.len(),
                0 <= b <= nb,
                out@.len() == b,
            decreases nb - b,
        {
            out.push(self.blocks[b].entry);
            b += 1;
        }
        out
    }

    /// All blocks reachable from `block_id`, by breadth-first traversal of
    /// the successor relation; the result begins with `block_id` itself,
    /// repeats no block, and past the first element holds block entries
    /// only.
    pub fn reachable_from(&self, block_id: BlockId) -> (r: Vec<BlockId>)
        requires
            blocks_chain(self.blocks@),
        ensures
            r@.len() > 0,
            r@[0] == block_id,
            forall|k1: int, k2: int| 0 <= k1 < k2 < r@.len() ==> r@[k1] != r@[k2],
            forall|k: int| 1 <= k < r@.len() ==> is_entry(self.blocks@, #[trigger] r@[k]),
            forall|k: int|
                0 <= k < r@.len() ==> reachable(self.blocks@, block_id, #[trigger] r@[k]),
            forall|t: u16|
                #![trigger reachable(self.blocks@, block_id, t)]
                reachable(self.blocks@, block_id, t) && is_entry(self.blocks@, t) ==> in_u16s(
                    r@,
                    t,
                ),
    {
        self.traverse_by(block_id)
    }

    /// Breadth-first traversal from a block, guarding against cycles.
    fn traverse_by(&self, block_id: BlockId) -> (r: Vec<BlockId>)
        requires
            blocks_chain(self.blocks@),
        ensures
            r@.len() > 0,
            r@[0] == block_id,
            forall|k1: int, k2: int| 0 <= k1 < k2 < r@.len() ==> r@[k1] != r@[k2],
            forall|k: int| 1 <= k < r@.len() ==> is_entry(self.blocks@, #[trigger] r@[k]),
            forall|k: int|
                0 <= k < r@.len() ==> reachable(self.blocks@, block_id, #[trigger] r@[k]),
            forall|t: u16|
                #![trigger reachable(self.blocks@, block_id, t)]
                reachable(self.blocks@, block_id, t) && is_entry(self.blocks@, t) ==> in_u16s(
                    r@,
                    t,
                ),
    {
        let nb = self.blocks.len();
        let mut seen: Vec<bool> = Vec::new();
        let mut i: usize = 0;
        while i < nb
            invariant
                0 <= i <= nb,
                seen@.len() == i,
                forall|j: int| 0 <= j < i ==> seen@[j] == false,
            decreases nb - i,
        {
            seen.push(false);
            i += 1;
        }
        let mut ret: Vec<BlockId> = Vec::new();
        ret.push(block_id);
        proof {
            lemma_reach_base(self.blocks@, block_id);
        }
        match Self::find_block(&self.blocks, block_id) {
            Some(w) => {
                seen.set(w, true);
                proof {
                    assert forall|w2: int|
                        0 <= w2 < nb implies (seen@[w2] <==> in_u16s(
                        ret@,
                        self.blocks@[w2].entry,
                    )) by {
                        if w2 == w as int {
                            assert(ret@[0] == self.blocks@[w2].entry);
                        } else {
                            if in_u16s(ret@, self.blocks@[w2].entry) {
                                assert(self.blocks@[w2].entry == block_id);
                                if w2 < w as int {
                                    lemma_entries_increase(self.blocks@, w2, w as int);
                                } else {
                                    lemma_entries_increase(self.blocks@, w as int, w2);
                                }
                                assert(false);
                            }
                        }
                    }
                }
            },
            None => {
                proof {
                    assert forall|w2: int|
                        0 <= w2 < nb implies (seen@[w2] <==> in_u16s(
                        ret@,
                        self.blocks@[w2].entry,
                    )) by {
                        if in_u16s(ret@, self.blocks@[w2].entry) {
                            assert(self.blocks@[w2].entry == block_id);
                        }
                    }
                }
            },
        }
        let mut index: usize = 0;
        while index < ret.len()
            invariant
                seen@.len() == nb,
                nb == self.blocks@.len(),
                blocks_chain(self.blocks@),
                0 <= index <= ret@.len(),
                ret@.len() <= nb + 1,
                ret@.len() > 0,
                ret@[0] == block_id,
                forall|w2: int|
                    0 <= w2 < nb ==> ((#[trigger] seen@[w2]) <==> in_u16s(
                        ret@,
                        self.blocks@[w2].entry,
                    )),
                forall|k1: int, k2: int| 0 <= k1 < k2 < ret@.len() ==> ret@[k1] != ret@[k2],
                forall|k: int| 1 <= k < ret@.len() ==> is_entry(self.blocks@, #[trigger] ret@[k]),
                forall|k: int|
                    0 <= k < ret@.len() ==> reachable(self.blocks@, block_id, #[trigger] ret@[k]),
                ret@.len() > 1 ==> is_entry(self.blocks@, block_id),
                closed_under_successors(self.blocks@, ret@, index as int),
            decreases nb + 1 - index,
        {
            let cur = ret[index];
            index += 1;
            match Self::find_block(&self.blocks, cur) {
                Some(w) => {
                    let ns = self.blocks[w].successors.len();
                    let mut si: usize = 0;
                    while si < ns
                        invariant
                            seen@.len() == nb,
                            nb == self.blocks@.len(),
                            blocks_chain(self.blocks@),
                            0 <= w < nb,
                            ns == self.blocks@[w as int].successors@.len(),
                            0 <= si <= ns,
                            ret@.len() <= nb + 1,
                            ret@.len() > 0,
                            ret@[0] == block_id,
                            0 < index <= ret@.len(),
                            forall|w2: int|
                                0 <= w2 < nb ==> ((#[trigger] seen@[w2]) <==> in_u16s(
                                    ret@,
                                    self.blocks@[w2].entry,
                                )),
                            forall|k1: int, k2: int|
                                0 <= k1 < k2 < ret@.len() ==> ret@[k1] != ret@[k2],
                            forall|k: int|
                                1 <= k < ret@.len() ==> is_entry(self.blocks@, #[trigger] ret@[k]),
                            self.blocks@[w as int].entry == cur,
                            reachable(self.blocks@, block_id, cur),
                            forall|k: int|
                                0 <= k < ret@.len() ==> reachable(
                                    self.blocks@,
                                    block_id,
                                    #[trigger] ret@[k],
                                ),
                            ret@[index - 1] == cur,
                            ret@.len() > 1 ==> is_entry(self.blocks@, block_id),
                            closed_under_successors(self.blocks@, ret@, index - 1),
                            forall|j: int|
                                0 <= j < si && is_entry(
                                    self.blocks@,
                                    #[trigger] self.blocks@[w as int].successors@[j],
                                ) ==> in_u16s(ret@, self.blocks@[w as int].successors@[j]),
                        decreases ns - si,
                    {
                        let t = self.blocks[w].successors[si];
                        match Self::find_block(&self.blocks, t) {
                            Some(tw) => {
                                if !seen[tw] {
                                    let ghost pre_ret = ret@;
                                    proof {
                                        assert(!in_u16s(ret@, t));
                                        if ret@.len() == 1 {
                                            assert(cur == block_id);
                                        }
                                        assert(is_entry(self.blocks@, block_id));
                                        let v = ret@.push(t);
                                        assert forall|k: int|
                                            0 <= k < v.len() implies is_entry(
                                            self.blocks@,
                                            #[trigger] v[k],
                                        ) by {
                                            if k < ret@.len() {
                                                assert(v[k] == ret@[k]);
                                            } else {
                                                assert(v[k] == t);
                                                assert(self.blocks@[tw as int].entry == t);
                                            }
                                        }
                                        assert forall|k1: int, k2: int|
                                            0 <= k1 < k2 < v.len() implies v[k1] != v[k2] by {
                                            if k2 == v.len() - 1 {
                                                assert(v[k1] == ret@[k1]);
                                                if v[k1] == t {
                                                    assert(in_u16s(ret@, t));
                                                }
                                            } else {
                                                assert(v[k1] == ret@[k1] && v[k2] == ret@[k2]);
                                            }
                                        }
                                        lemma_distinct_entries_bound(self.blocks@, v);
                                        assert(ret@.len() < nb);
                                    }
                                    seen.set(tw, true);
                                    ret.push(t);
                                    proof {
                                        assert(!in_u16s(pre_ret, t));
                                        assert forall|x: u16|
                                            in_u16s(pre_ret, x) implies in_u16s(ret@, x) by {
                                            let ii = choose|ii: int|
                                                0 <= ii < pre_ret.len() && pre_ret[ii] == x;
                                            assert(ret@[ii] == x);
                                        }
                                        assert forall|idx: int, w2: int, j2: int|
                                            #![trigger ret@[idx], self.blocks@[w2].successors@[j2]]
                                            0 <= idx < index - 1 && 0 <= w2 < nb
                                                && self.blocks@[w2].entry == ret@[idx] && 0 <= j2
                                                < self.blocks@[w2].successors@.len() && is_entry(
                                                self.blocks@,
                                                self.blocks@[w2].successors@[j2],
                                            ) implies in_u16s(
                                            ret@,
                                            self.blocks@[w2].successors@[j2],
                                        ) by {
                                            assert(ret@[idx] == pre_ret[idx]);
                                            assert(in_u16s(
                                                pre_ret,
                                                self.blocks@[w2].successors@[j2],
                                            ));
                                        }
                                        assert(closed_under_successors(
                                            self.blocks@,
                                            ret@,
                                            index - 1,
                                        ));
                                        assert(in_u16s(ret@, t)) by {
                                            assert(ret@[ret@.len() - 1] == t);
                                        }
                                        assert(in_u16s(
                                            self.blocks@[w as int].successors@,
                                            t,
                                        ));
                                        lemma_reach_step(
                                            self.blocks@,
                                            block_id,
                                            cur,
                                            w as int,
                                            t,
                                        );
                                        assert forall|k: int|
                                            0 <= k < ret@.len() implies reachable(
                                            self.blocks@,
                                            block_id,
                                            #[trigger] ret@[k],
                                        ) by {
                                            if k < ret@.len() - 1 {
                                                assert(ret@[k] == pre_ret[k]);
                                            } else {
                                                assert(ret@[k] == t);
                                            }
                                        }
                                        assert forall|w2: int|
                                            0 <= w2 < nb implies ((#[trigger] seen@[w2]) <==>
                                        in_u16s(ret@, self.blocks@[w2].entry)) by {
                                            if w2 == tw as int {
                                                assert(ret@[ret@.len() - 1]
                                                    == self.blocks@[w2].entry);
                                            } else {
                                                if self.blocks@[w2].entry == t {
                                                    if w2 < tw as int {
                                                        lemma_entries_increase(
                                                            self.blocks@,
                                                            w2,
                                                            tw as int,
                                                        );
                                                    } else {
                                                        lemma_entries_increase(
                                                            self.blocks@,
                                                            tw as int,
                                                            w2,
                                                        );
                                                    }
                                                    assert(false);
                                                }
                                                if in_u16s(ret@, self.blocks@[w2].entry) {
                                                    let ii = choose|ii: int|
                                                        0 <= ii < ret@.len() && ret@[ii]
                                                            == self.blocks@[w2].entry;
                                                    assert(ii < pre_ret.len());
                                                    assert(in_u16s(
                                                        pre_ret,
                                                        self.blocks@[w2].entry,
                                                    ));
                                                }
                                                if in_u16s(pre_ret, self.blocks@[w2].entry) {
                                                    let ii = choose|ii: int|
                                                        0 <= ii < pre_ret.len() && pre_ret[ii]
                                                            == self.blocks@[w2].entry;
                                                    assert(ret@[ii] == self.blocks@[w2].entry);
                                                }
                                            }
                                        }
                                        assert forall|k1: int, k2: int|
                                            0 <= k1 < k2 < ret@.len() implies ret@[k1]
                                            != ret@[k2] by {
                                            if k2 == ret@.len() - 1 {
                                                assert(ret@[k1] == pre_ret[k1]);
                                                if ret@[k1] == t {
                                                    assert(in_u16s(pre_ret, t));
                                                }
                                            }
                                        }
                                        assert forall|k: int|
                                            1 <= k < ret@.len() implies is_entry(
                                            self.blocks@,
                                            #[trigger] ret@[k],
                                        ) by {
                                            if k == ret@.len() - 1 {
                                                assert(self.blocks@[tw as int].entry == ret@[k]);
                                            } else {
                                                assert(ret@[k] == pre_ret[k]);
                                            }
                                        }
                                    }
                                } else {
                                    proof {
                                        assert(in_u16s(ret@, self.blocks@[tw as int].entry));
                                        assert(self.blocks@[tw as int].entry == t);
                                    }
                                }
                            },
                            None => {
                                proof {
                                    assert(!is_entry(self.blocks@, t)) by {
                                        if is_entry(self.blocks@, t) {
                                            let w2 = choose|w2: int|
                                                0 <= w2 < self.blocks@.len()
                                                    && (#[trigger] self.blocks@[w2]).entry == t;
                                            assert(false);
                                        }
                                    }
                                }
                            },
                        }
                        si += 1;
                    }
                    proof {
                        assert forall|idx: int, w2: int, j2: int|
                            #![trigger ret@[idx], self.blocks@[w2].successors@[j2]]
                            0 <= idx < index && 0 <= w2 < nb && self.blocks@[w2].entry
                                == ret@[idx] && 0 <= j2 < self.blocks@[w2].successors@.len()
                                && is_entry(
                                self.blocks@,
                                self.blocks@[w2].successors@[j2],
                            ) implies in_u16s(ret@, self.blocks@[w2].successors@[j2]) by {
                            if idx == index - 1 {
                                assert(ret@[idx] == cur);
                                if w2 != w as int {
                                    if w2 < w as int {
                                        lemma_entries_increase(self.blocks@, w2, w as int);
                                    } else {
                                        lemma_entries_increase(self.blocks@, w as int, w2);
                                    }
                                }
                                assert(w2 == w as int);
                            } else {
                                assert(closed_under_successors(self.blocks@, ret@, index - 1));
                            }
                        }
                        assert(closed_under_successors(self.blocks@, ret@, index as int));
                    }
                },
                None => {
                    proof {
                        assert forall|idx: int, w2: int, j2: int|
                            #![trigger ret@[idx], self.blocks@[w2].successors@[j2]]
                            0 <= idx < index && 0 <= w2 < nb && self.blocks@[w2].entry
                                == ret@[idx] && 0 <= j2 < self.blocks@[w2].successors@.len()
                                && is_entry(
                                self.blocks@,
                                self.blocks@[w2].successors@[j2],
                            ) implies in_u16s(ret@, self.blocks@[w2].successors@[j2]) by {
                            if idx == index - 1 {
                                assert(self.blocks@[w2].entry != cur);
                                assert(false);
                            } else {
                                assert(closed_under_successors(self.blocks@, ret@, index - 1));
                            }
                        }
                        assert(closed_under_successors(self.blocks@, ret@, index as int));
                    }
                },
            }
        }
        proof {
            assert forall|t: u16|
                reachable(self.blocks@, block_id, t) && is_entry(self.blocks@, t) implies in_u16s(
                ret@,
                t,
            ) by {
                let p = choose|p: Seq<u16>|
                    p.len() > 0 && p[0] == block_id && p[p.len() - 1] == t && reach_chain(
                        self.blocks@,
                        p,
                    );
                assert(ret@[0] == block_id);
                assert(in_u16s(ret@, block_id));
                assert(closed_under_successors(self.blocks@, ret@, ret@.len() as int));
                lemma_walk_in_closed(self.blocks@, ret@, p);
            }
        }
        ret
    }
}

impl ControlFlowGraph for VMControlFlowGraph {
    fn block_start(&self, block_id: BlockId) -> BlockId {
        match Self::find_block(&self.blocks, block_id) {
            Some(w) => self.blocks[w].entry,
            None => 0,
        }
    }

    fn block_end(&self, block_id: BlockId) -> BlockId {
        match Self::find_block(&self.blocks, block_id) {
            Some(w) => self.blocks[w].exit,
            None => 0,
        }
    }

    fn successors(&self, block_id: BlockId) -> Vec<BlockId> {
        match Self::find_block(&self.blocks, block_id) {
            Some(w) => copy_ids16(&self.blocks[w].successors),
            None => Vec::new(),
        }
    }

    fn predecessors(&self, block_id: BlockId) -> Vec<BlockId> {
        match Self::find_block(&self.blocks, block_id) {
            Some(w) if w < self.predecessors.len() => copy_ids16(&self.predecessors[w]),
            _ => Vec::new(),
        }
    }

    fn traversal_order(&self) -> Vec<BlockId> {
        copy_ids16(&self.ordered_blocks)
    }

    fn blocks(&self) -> Vec<BlockId> {
        VMControlFlowGraph::blocks(self)
    }

    fn num_blocks(&self) -> usize {
        VMControlFlowGraph::num_blocks(self)
    }

    fn entry_block_id(&self) -> BlockId {
        VMControlFlowGraph::entry_block_id(self)
    }
}

/// Copy a list of block entries.
fn copy_ids16(v: &Vec<u16>) -> (r: Vec<u16>)
    ensures
        r@ == v@,
{
    let n = v.len();
    let mut out: Vec<u16> = Vec::new();
    let mut i: usize = 0;
    while i < n
        invariant
            n == v@.len(),
            0 <= i <= n,
            out@ =~= v@.subrange(0, i as int),
        decreases n - i,
    {
        out.push(v[i]);
        i += 1;
    }
    proof {
        assert(out@ =~= v@);
    }
    out
}

/// Record that `candidate` continues back to the loop `header`, keeping
/// only the last such block per header.
fn set_last_continue(loop_heads: &mut Vec<(u16, u16)>, header: u16, candidate: u16) {
    let n = loop_heads.len();
    let mut i: usize = 0;
    while i < n
        invariant
            n == loop_heads@.len(),
            0 <= i <= n,
        decreases n - i,
    {
        if loop_heads[i].1 == header {
            if candidate > loop_heads[i].0 {
                loop_heads.set(i, (candidate, header));
            }
            return ;
        }
        i += 1;
    }
    loop_heads.push((candidate, header));
}

} // verus!
