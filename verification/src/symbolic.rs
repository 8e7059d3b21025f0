//! The symbolic edge resolver: a worklist traversal from the first block
//! that runs each block's operand-producing instructions against a symbolic
//! stack and follows jumps whose target cell is concrete.
//!
//! `sym_step` is the mathematical step of that traversal; `sym_run` iterates
//! it.  `gen_symbolic_edges` is proved to leave behind exactly the edges of
//! a run that has drained its worklist.

use vstd::prelude::*;
use vstd::seq_lib::*;
use vstd::set_lib::*;

use crate::op::{category_spec, OpType, Operation};
use crate::program::{block_model_wf, lemma_program_blocks_wf, Block, BlockModel, Program};
use crate::stack::{
    cell_wf, exec_op_model, exec_ops_model, lemma_live_len_range, live_len, live_prefix, CellView,
    SymbolicStack,
    SymbolicStackCapture, SymbolicStackFrame, MAX_STACK_DEPTH,
};
use crate::word::{be_val, Word};

verus! {

/// One pending traversal: a block to run, under an incoming stack.
pub struct SymWork {
    pub block: int,
    pub cells: Seq<CellView>,
}

/// The traversal state: the worklist, the edges already taken up, and the
/// edges recorded so far.
pub struct SymState {
    pub queue: Seq<SymWork>,
    pub visited: Seq<(nat, nat)>,
    pub edges: Seq<(nat, nat)>,
}

/// The first block whose identity is `target`, scanning from `i`.
pub open spec fn find_block(bs: Seq<BlockModel>, target: nat, i: int) -> Option<int>
    decreases bs.len() - i when 0 <= i <= bs.len()
{
    if i >= bs.len() {
        None
    } else if bs[i].pc_start == target {
        Some(i)
    } else {
        find_block(bs, target, i + 1)
    }
}

proof fn lemma_find_block_from(bs: Seq<BlockModel>, target: nat, i: int, j: int)
    requires
        0 <= i <= j <= bs.len(),
        forall|t: int| i <= t < j ==> (#[trigger] bs[t]).pc_start != target,
        j < bs.len() ==> bs[j].pc_start == target,
    ensures
        j < bs.len() ==> find_block(bs, target, i) == Some(j),
        j == bs.len() ==> find_block(bs, target, i) is None,
    decreases bs.len() - i,
{
    if i < j {
        lemma_find_block_from(bs, target, i + 1, j);
    }
}

/// The starting state: block zero under the empty stack, nothing taken up,
/// nothing recorded.
pub open spec fn sym_init() -> SymState {
    SymState {
        queue: seq![SymWork { block: 0, cells: seq![] }],
        visited: seq![],
        edges: seq![],
    }
}

/// One step of the traversal.  The first work item is taken; the block's
/// instructions but the last run against the incoming stack; if the block
/// ends in a jump whose target cell is concrete and names a block, the edge
/// is recorded once and the target block is enqueued under the stack as it
/// stands after the jump.
#[verifier::opaque]
pub open spec fn sym_step(bs: Seq<BlockModel>, code: Seq<u8>, st: SymState) -> SymState {
    if st.queue.len() == 0 {
        st
    } else {
        let w = st.queue[0];
        let rest = st.queue.drop_first();
        let bm = bs[w.block];
        match exec_ops_model(w.cells, bm.ops, code, bm.ops.len() - 1) {
            None => SymState { queue: rest, ..st },
            Some(cells2) => {
                let lastop = bm.ops[bm.ops.len() - 1];
                let cat = category_spec(lastop.code);
                if cat == OpType::Jump || cat == OpType::JumpI {
                    let top = if cells2.len() > 0 {
                        cells2[cells2.len() - 1]
                    } else {
                        CellView::Uninit
                    };
                    if top is Data {
                        let target = be_val(top->Data_0);
                        match find_block(bs, target, 0) {
                            Some(bi) => {
                                let edge = (bm.pc_start as nat, target);
                                if st.visited.contains(edge) {
                                    SymState { queue: rest, ..st }
                                } else {
                                    match exec_op_model(cells2, lastop, code) {
                                        Some(cells3) => SymState {
                                            queue: rest.push(
                                                SymWork { block: bi, cells: cells3 },
                                            ),
                                            visited: st.visited.push(edge),
                                            edges: st.edges.push(edge),
                                        },
                                        None => SymState {
                                            queue: rest,
                                            visited: st.visited.push(edge),
                                            edges: st.edges.push(edge),
                                        },
                                    }
                                }
                            },
                            None => SymState { queue: rest, ..st },
                        }
                    } else {
                        SymState { queue: rest, ..st }
                    }
                } else {
                    SymState { queue: rest, ..st }
                }
            },
        }
    }
}

/// The traversal state after `n` steps.
pub open spec fn sym_run(bs: Seq<BlockModel>, code: Seq<u8>, st: SymState, n: nat) -> SymState
    decreases n,
{
    if n == 0 {
        st
    } else {
        sym_run(bs, code, sym_step(bs, code, st), (n - 1) as nat)
    }
}

proof fn lemma_sym_run_snoc(bs: Seq<BlockModel>, code: Seq<u8>, st: SymState, n: nat)
    ensures
        sym_run(bs, code, st, (n + 1) as nat) == sym_step(bs, code, sym_run(bs, code, st, n)),
    decreases n,
{
    if n == 0 {
        assert(sym_run(bs, code, st, 1) == sym_run(bs, code, sym_step(bs, code, st), 0));
    } else {
        lemma_sym_run_snoc(bs, code, sym_step(bs, code, st), (n - 1) as nat);
        assert(sym_run(bs, code, st, (n + 1) as nat) == sym_run(
            bs,
            code,
            sym_step(bs, code, st),
            n,
        ));
        assert(sym_run(bs, code, st, n) == sym_run(
            bs,
            code,
            sym_step(bs, code, st),
            (n - 1) as nat,
        ));
    }
}

/// When a step aborts part way through a block, the whole block aborts.
proof fn lemma_exec_ops_none_mono(
    s: Seq<CellView>,
    ops: Seq<Operation>,
    code: Seq<u8>,
    k: int,
    m: int,
)
    requires
        0 <= k <= m,
        exec_ops_model(s, ops, code, k) is None,
    ensures
        exec_ops_model(s, ops, code, m) is None,
    decreases m - k,
{
    if k < m {
        lemma_exec_ops_none_mono(s, ops, code, k + 1, m);
    }
}

/// A sequence of distinct integers all below `n` has at most `n` entries.
proof fn lemma_distinct_codes_bound(codes: Seq<int>, n: int)
    requires
        n >= 0,
        codes.no_duplicates(),
        forall|t: int| 0 <= t < codes.len() ==> 0 <= #[trigger] codes[t] < n,
    ensures
        codes.len() <= n,
{
    codes.unique_seq_to_set();
    lemma_int_range(0, n);
    assert(codes.to_set().subset_of(set_int_range(0, n))) by {
        assert forall|x: int| codes.to_set().contains(x) implies set_int_range(0, n).contains(
            x,
        ) by {
            assert(codes.contains(x));
            let t = choose|t: int| 0 <= t < codes.len() && codes[t] == x;
            assert(0 <= codes[t] < n);
        }
    }
    lemma_len_subset(codes.to_set(), set_int_range(0, n));
}

/// The abstraction of one pending exec work item.
#[verifier::opaque]
pub open spec fn work_of(item: (usize, SymbolicStackCapture)) -> SymWork {
    SymWork {
        block: item.0 as int,
        cells: live_prefix(item.1.vals@.map_values(|f: SymbolicStackFrame| f@)),
    }
}


/// The values `visited` stands for.
pub open spec fn visited_vals(v: Seq<(u64, u64)>) -> Seq<(nat, nat)> {
    v.map_values(|e: (u64, u64)| (e.0 as nat, e.1 as nat))
}

/// The abstraction of the pending part of the exec worklist.
pub open spec fn queue_model(q: Seq<(usize, SymbolicStackCapture)>, head: int) -> Seq<SymWork> {
    q.subrange(head, q.len() as int).map_values(|it: (usize, SymbolicStackCapture)| work_of(it))
}

/// A sound exec work item: its block index is in range, and its snapshot
/// restores to a bounded stack of well-formed cells.
pub open spec fn item_wf(item: (usize, SymbolicStackCapture), nblocks: nat) -> bool {
    &&& (item.0 as int) < nblocks
    &&& work_of(item).cells.len() <= MAX_STACK_DEPTH
    &&& forall|c: int|
        0 <= c < work_of(item).cells.len() ==> cell_wf(#[trigger] work_of(item).cells[c])
}

/// The branch condition under which a step only discards the first work
/// item.
pub open spec fn step_drops(bs: Seq<BlockModel>, code: Seq<u8>, st: SymState) -> bool {
    let w = st.queue[0];
    let bm = bs[w.block];
    match exec_ops_model(w.cells, bm.ops, code, bm.ops.len() - 1) {
        None => true,
        Some(cells2) => {
            let lastop = bm.ops[bm.ops.len() - 1];
            let cat = category_spec(lastop.code);
            if cat == OpType::Jump || cat == OpType::JumpI {
                let top = if cells2.len() > 0 {
                    cells2[cells2.len() - 1]
                } else {
                    CellView::Uninit
                };
                if top is Data {
                    match find_block(bs, be_val(top->Data_0), 0) {
                        Some(bi) => st.visited.contains((bm.pc_start as nat, be_val(top->Data_0))),
                        None => true,
                    }
                } else {
                    true
                }
            } else {
                true
            }
        },
    }
}

proof fn lemma_sym_step_drop(bs: Seq<BlockModel>, code: Seq<u8>, st: SymState)
    requires
        st.queue.len() > 0,
        step_drops(bs, code, st),
    ensures
        sym_step(bs, code, st) == (SymState { queue: st.queue.drop_first(), ..st }),
{
    reveal(crate::symbolic::sym_step);
}

proof fn lemma_sym_step_record(bs: Seq<BlockModel>, code: Seq<u8>, st: SymState)
    requires
        st.queue.len() > 0,
        ({
            let w = st.queue[0];
            let bm = bs[w.block];
            &&& exec_ops_model(w.cells, bm.ops, code, bm.ops.len() - 1) is Some
            &&& {
                let cells2 = exec_ops_model(w.cells, bm.ops, code, bm.ops.len() - 1)->0;
                let lastop = bm.ops[bm.ops.len() - 1];
                let cat = category_spec(lastop.code);
                &&& (cat == OpType::Jump || cat == OpType::JumpI)
                &&& cells2.len() > 0
                &&& cells2[cells2.len() - 1] is Data
                &&& find_block(bs, be_val(cells2[cells2.len() - 1]->Data_0), 0) is Some
                &&& !st.visited.contains(
                    (bm.pc_start as nat, be_val(cells2[cells2.len() - 1]->Data_0)),
                )
            }
        }),
    ensures
        ({
            let w = st.queue[0];
            let bm = bs[w.block];
            let cells2 = exec_ops_model(w.cells, bm.ops, code, bm.ops.len() - 1)->0;
            let lastop = bm.ops[bm.ops.len() - 1];
            let target = be_val(cells2[cells2.len() - 1]->Data_0);
            let bi = find_block(bs, target, 0)->0;
            let edge = (bm.pc_start as nat, target);
            sym_step(bs, code, st) == match exec_op_model(cells2, lastop, code) {
                Some(cells3) => SymState {
                    queue: st.queue.drop_first().push(SymWork { block: bi, cells: cells3 }),
                    visited: st.visited.push(edge),
                    edges: st.edges.push(edge),
                },
                None => SymState {
                    queue: st.queue.drop_first(),
                    visited: st.visited.push(edge),
                    edges: st.edges.push(edge),
                },
            }
        }),
{
    reveal(crate::symbolic::sym_step);
}

proof fn lemma_step_drop_bundle(
    bs: Seq<BlockModel>,
    code: Seq<u8>,
    st: SymState,
    q: Seq<(usize, SymbolicStackCapture)>,
    v: Seq<(u64, u64)>,
    e: Seq<(Word, Word)>,
    head: int,
)
    requires
        0 <= head < q.len(),
        st.queue == queue_model(q, head),
        st.visited == visited_vals(v),
        step_drops(bs, code, st),
    ensures
        ({
            let st2 = sym_step(bs, code, st);
            &&& st2.queue == queue_model(q, head + 1)
            &&& st2.visited == visited_vals(v)
            &&& crate::program::edge_vals(e) == crate::program::edge_vals(e) + st2.edges.skip(
                st.edges.len() as int,
            )
            &&& st2.edges.take(st.edges.len() as int) == st.edges
            &&& st2.edges.len() >= st.edges.len()
        }),
{
    lemma_sym_step_drop(bs, code, st);
    let st2 = sym_step(bs, code, st);
    assert(queue_model(q, head + 1) =~= st.queue.drop_first());
    assert(st2.edges.skip(st.edges.len() as int) =~= Seq::<(nat, nat)>::empty());
    assert(crate::program::edge_vals(e) =~= crate::program::edge_vals(e) + Seq::<
        (nat, nat),
    >::empty());
    assert(st2.edges.take(st.edges.len() as int) =~= st.edges);
}

/// Take up the first pending work item: run the block, record and enqueue
/// what the step function says.  The queue in front of `head` is untouched;
/// anything newly enqueued sits behind the old end.
#[verifier::rlimit(100)]
#[verifier::spinoff_prover]
fn process_work_item(
    blocks: &Vec<Block>,
    code: &Vec<u8>,
    edges: &mut Vec<(Word, Word)>,
    visited: &mut Vec<(u64, u64)>,
    queue: &mut Vec<(usize, SymbolicStackCapture)>,
    head: usize,
    Ghost(models): Ghost<Seq<BlockModel>>,
    Ghost(st): Ghost<SymState>,
)
    requires
        models == blocks@.map_values(|b: Block| b@),
        forall|i: int|
            0 <= i < blocks@.len() ==> block_model_wf((#[trigger] blocks@[i])@, code@),
        (head as int) < old(queue)@.len(),
        item_wf(old(queue)@[head as int], blocks@.len() as nat),
        st.queue == queue_model(old(queue)@, head as int),
        st.visited == visited_vals(old(visited)@),
    ensures
        ({
            let st2 = sym_step(models, code@, st);
            &&& final(queue)@.len() >= old(queue)@.len()
            &&& final(queue)@.subrange(0, old(queue)@.len() as int) == old(queue)@
            &&& st2.queue == queue_model(final(queue)@, head + 1)
            &&& st2.visited == visited_vals(final(visited)@)
            &&& forall|t: int|
                old(queue)@.len() <= t < final(queue)@.len() ==> item_wf(
                    #[trigger] final(queue)@[t],
                    blocks@.len() as nat,
                )
            &&& (final(visited)@ == old(visited)@ || (final(visited)@.len() == old(
                visited,
            )@.len() + 1 && exists|x: int, y: int|
                0 <= x < blocks@.len() && 0 <= y < blocks@.len() && final(visited)@ == old(
                    visited,
                )@.push(
                    ((#[trigger] blocks@[x]).pc_start as u64, (#[trigger] blocks@[y]).pc_start as u64),
                ) && !st.visited.contains(
                    (blocks@[x].pc_start as nat, blocks@[y].pc_start as nat),
                )))
            &&& crate::program::edge_vals(final(edges)@) == crate::program::edge_vals(
                old(edges)@,
            ) + st2.edges.skip(st.edges.len() as int)
            &&& st2.edges.take(st.edges.len() as int) == st.edges
            &&& st2.edges.len() >= st.edges.len()
            &&& (final(queue)@.len() > old(queue)@.len() ==> final(visited)@.len() > old(
                visited,
            )@.len())
        }),
{
    let ghost rest_q = st.queue.drop_first();
    proof {
        reveal(crate::symbolic::work_of);
        assert(st.queue[0] == work_of(queue@[head as int]));
    }
    let ghost w = work_of(queue@[head as int]);
    let bi = queue[head].0;
    proof {
        reveal(crate::symbolic::work_of);
        let m = queue@[head as int].1.vals@.map_values(|f: SymbolicStackFrame| f@);
        lemma_live_len_range(m, 0);
    }
    let mut stack = SymbolicStack::from_capture(&queue[head].1);
    proof {
        reveal(crate::symbolic::work_of);
        assert(stack@ == w.cells);
        let m = queue@[head as int].1.vals@.map_values(|f: SymbolicStackFrame| f@);
        lemma_live_len_range(m, 0);
        assert forall|c: int| 0 <= c < stack@.len() implies !(#[trigger] stack@[c] is Uninit) by {
            assert(stack@[c] == m[c]);
        }
        assert(stack.wf());
        assert(models[bi as int] == blocks@[bi as int]@);
        assert(block_model_wf(models[bi as int], code@));
    }
    let ops_len = blocks[bi].ops.len();
    let n = ops_len - 1;
    let mut k: usize = 0;
    let mut aborted = false;
    while k < n && !aborted
        invariant
            models == blocks@.map_values(|b: Block| b@),
            0 <= (bi as int) < blocks@.len(),
            models[bi as int] == blocks@[bi as int]@,
            n + 1 == models[bi as int].ops.len(),
            ops_len == n + 1,
            k <= n,
            !aborted ==> exec_ops_model(w.cells, models[bi as int].ops, code@, k as int) == Some(
                stack@,
            ),
            !aborted ==> stack.wf(),
            aborted ==> exec_ops_model(w.cells, models[bi as int].ops, code@, n as int) is None,
        decreases n - k,
    {
        let ghost pre = stack@;
        let ok = stack.execute_checked(&blocks[bi].ops[k], code);
        proof {
            assert(models[bi as int].ops[k as int] == blocks@[bi as int]@.ops[k as int]);
            assert(exec_ops_model(w.cells, models[bi as int].ops, code@, k + 1) == exec_op_model(
                pre,
                models[bi as int].ops[k as int],
                code@,
            ));
            if !ok {
                lemma_exec_ops_none_mono(w.cells, models[bi as int].ops, code@, k + 1, n as int);
            }
        }
        if !ok {
            aborted = true;
        }
        k = k + 1;
    }
    if aborted {
        proof {
            lemma_step_drop_bundle(models, code@, st, queue@, visited@, edges@, head as int);
        }
        return ;
    }
    let ghost cells2 = stack@;
    proof {
        assert(exec_ops_model(w.cells, models[bi as int].ops, code@, n as int) == Some(cells2));
    }
    let last_cat = blocks[bi].ops[ops_len - 1].category();
    let ghost lastop = models[bi as int].ops[n as int];
    if !(last_cat == OpType::Jump || last_cat == OpType::JumpI) {
        proof {
            lemma_step_drop_bundle(models, code@, st, queue@, visited@, edges@, head as int);
        }
        return ;
    }
    record_jump_edge(
        blocks,
        code,
        edges,
        visited,
        queue,
        head,
        bi,
        ops_len,
        &mut stack,
        Ghost(models),
        Ghost(st),
        Ghost(w),
    );
}

/// The index of the first block whose identity is `target`, or the block
/// count when there is none.
fn find_target_block(blocks: &Vec<Block>, target: &Word, Ghost(models): Ghost<Seq<BlockModel>>)
    -> (found: usize)
    requires
        models == blocks@.map_values(|b: Block| b@),
    ensures
        found <= blocks@.len(),
        found < blocks@.len() ==> find_block(models, target.value(), 0) == Some(found as int)
            && models[found as int].pc_start == target.value(),
        found == blocks@.len() ==> find_block(models, target.value(), 0) is None,
{
    let ghost tval = target.value();
    let nblocks = blocks.len();
    let mut j: usize = 0;
    let mut found: usize = nblocks;
    while j < nblocks
        invariant
            j <= nblocks,
            found <= nblocks,
            nblocks == blocks@.len(),
            models == blocks@.map_values(|b: Block| b@),
            tval == target.value(),
            found == nblocks ==> forall|t: int|
                0 <= t < j ==> (#[trigger] models[t]).pc_start != tval,
            found < nblocks ==> ((found as int) < j && models[found as int].pc_start == tval
                && forall|t: int| 0 <= t < found ==> (#[trigger] models[t]).pc_start != tval),
        decreases nblocks - j,
    {
        if found == nblocks {
            if target.eq_word(&blocks[j].id()) {
                proof {
                    assert(models[j as int] == blocks@[j as int]@);
                }
                found = j;
            }
        }
        j = j + 1;
    }
    proof {
        if found < nblocks {
            lemma_find_block_from(models, tval, 0, found as int);
        } else {
            lemma_find_block_from(models, tval, 0, nblocks as int);
        }
    }
    found
}

/// Whether the edge `(src, dst)` has been taken up before.
fn edge_seen(visited: &Vec<(u64, u64)>, src64: u64, dst64: u64) -> (seen: bool)
    ensures
        seen == visited_vals(visited@).contains(((src64 as nat), (dst64 as nat))),
{
    let mut vi: usize = 0;
    let mut seen = false;
    while vi < visited.len()
        invariant
            vi <= visited@.len(),
            seen == (exists|t: int|
                0 <= t < vi && (#[trigger] visited@[t]).0 == src64 && visited@[t].1 == dst64),
        decreases visited@.len() - vi,
    {
        if visited[vi].0 == src64 && visited[vi].1 == dst64 {
            seen = true;
        }
        vi = vi + 1;
    }
    proof {
        let e = ((src64 as nat), (dst64 as nat));
        if seen {
            let t = choose|t: int|
                0 <= t < visited@.len() && (#[trigger] visited@[t]).0 == src64 && visited@[t].1
                    == dst64;
            assert(visited_vals(visited@)[t] == e);
        } else {
            if visited_vals(visited@).contains(e) {
                let t = choose|t: int|
                    0 <= t < visited_vals(visited@).len() && visited_vals(visited@)[t] == e;
                assert(visited@[t].0 == src64 && visited@[t].1 == dst64);
                assert(false);
            }
        }
    }
    seen
}

/// The block ends in a jump and its instructions have run: record the edge
/// the stack top announces, if it is concrete and names a block, and enqueue
/// the target.
#[verifier::rlimit(100)]
#[verifier::spinoff_prover]
fn record_jump_edge(
    blocks: &Vec<Block>,
    code: &Vec<u8>,
    edges: &mut Vec<(Word, Word)>,
    visited: &mut Vec<(u64, u64)>,
    queue: &mut Vec<(usize, SymbolicStackCapture)>,
    head: usize,
    bi: usize,
    ops_len: usize,
    stack: &mut SymbolicStack,
    Ghost(models): Ghost<Seq<BlockModel>>,
    Ghost(st): Ghost<SymState>,
    Ghost(w): Ghost<SymWork>,
)
    requires
        models == blocks@.map_values(|b: Block| b@),
        forall|i: int|
            0 <= i < blocks@.len() ==> block_model_wf((#[trigger] blocks@[i])@, code@),
        (head as int) < old(queue)@.len(),
        (bi as int) < blocks@.len(),
        ops_len == models[bi as int].ops.len(),
        ops_len >= 1,
        st.queue == queue_model(old(queue)@, head as int),
        st.visited == visited_vals(old(visited)@),
        w == st.queue[0],
        w.block == bi as int,
        exec_ops_model(w.cells, models[bi as int].ops, code@, ops_len - 1) == Some(
            old(stack)@,
        ),
        old(stack).wf(),
        category_spec(models[bi as int].ops[ops_len - 1].code) == OpType::Jump || category_spec(
            models[bi as int].ops[ops_len - 1].code,
        ) == OpType::JumpI,
    ensures
        ({
            let st2 = sym_step(models, code@, st);
            &&& final(queue)@.len() >= old(queue)@.len()
            &&& final(queue)@.subrange(0, old(queue)@.len() as int) == old(queue)@
            &&& st2.queue == queue_model(final(queue)@, head + 1)
            &&& st2.visited == visited_vals(final(visited)@)
            &&& forall|t: int|
                old(queue)@.len() <= t < final(queue)@.len() ==> item_wf(
                    #[trigger] final(queue)@[t],
                    blocks@.len() as nat,
                )
            &&& (final(visited)@ == old(visited)@ || (final(visited)@.len() == old(
                visited,
            )@.len() + 1 && exists|x: int, y: int|
                0 <= x < blocks@.len() && 0 <= y < blocks@.len() && final(visited)@ == old(
                    visited,
                )@.push(
                    ((#[trigger] blocks@[x]).pc_start as u64, (#[trigger] blocks@[y]).pc_start as u64),
                ) && !st.visited.contains(
                    (blocks@[x].pc_start as nat, blocks@[y].pc_start as nat),
                )))
            &&& crate::program::edge_vals(final(edges)@) == crate::program::edge_vals(
                old(edges)@,
            ) + st2.edges.skip(st.edges.len() as int)
            &&& st2.edges.take(st.edges.len() as int) == st.edges
            &&& st2.edges.len() >= st.edges.len()
            &&& (final(queue)@.len() > old(queue)@.len() ==> final(visited)@.len() > old(
                visited,
            )@.len())
        }),
{
    let ghost rest_q = st.queue.drop_first();
    let ghost cells2 = stack@;
    let n = ops_len - 1;
    let ghost lastop = models[bi as int].ops[n as int];
    let top_val = stack.peek();
    let data = match top_val.inner() {
        Some(d) => d,
        None => {
            proof {
                if cells2.len() > 0 {
                    assert(!(cells2[cells2.len() - 1] is Data));
                }
                lemma_step_drop_bundle(models, code@, st, queue@, visited@, edges@, head as int);
            }
            return ;
        },
    };
    proof {
        assert(cells2.len() > 0);
        assert(cells2[cells2.len() - 1] is Data);
        assert(cell_wf(cells2[cells2.len() - 1]));
    }
    let target = Word::from_be_bytes(data, 0, data.len());
    let ghost tval = be_val(cells2[cells2.len() - 1]->Data_0);
    proof {
        assert(data@.subrange(0, data@.len() as int) =~= data@);
        assert(target.value() == tval);
    }
    let nblocks = blocks.len();
    let found = find_target_block(blocks, &target, Ghost(models));
    if found >= nblocks {
        proof {
            lemma_step_drop_bundle(models, code@, st, queue@, visited@, edges@, head as int);
        }
        return ;
    }
    let src64 = blocks[bi].pc_start as u64;
    let dst64 = blocks[found].pc_start as u64;
    let ghost edge = ((models[bi as int].pc_start as nat), tval);
    proof {
        assert(models[found as int].pc_start == tval);
        assert((src64 as nat) == models[bi as int].pc_start as nat);
        assert((dst64 as nat) == tval);
    }
    let seen = edge_seen(visited, src64, dst64);
    proof {
        if seen {
            assert(st.visited.contains(edge));
        } else {
            assert(!st.visited.contains(edge));
        }
    }
    if seen {
        proof {
            lemma_step_drop_bundle(models, code@, st, queue@, visited@, edges@, head as int);
        }
        return ;
    }
    commit_jump_edge(
        blocks,
        code,
        edges,
        visited,
        queue,
        head,
        bi,
        ops_len,
        found,
        target,
        src64,
        dst64,
        stack,
        Ghost(models),
        Ghost(st),
        Ghost(w),
        Ghost(tval),
    );
}

/// A fresh edge has been found: record it, run the jump itself against the
/// stack, and enqueue the target block under the resulting snapshot.
#[verifier::rlimit(100)]
#[verifier::spinoff_prover]
fn commit_jump_edge(
    blocks: &Vec<Block>,
    code: &Vec<u8>,
    edges: &mut Vec<(Word, Word)>,
    visited: &mut Vec<(u64, u64)>,
    queue: &mut Vec<(usize, SymbolicStackCapture)>,
    head: usize,
    bi: usize,
    ops_len: usize,
    found: usize,
    target: Word,
    src64: u64,
    dst64: u64,
    stack: &mut SymbolicStack,
    Ghost(models): Ghost<Seq<BlockModel>>,
    Ghost(st): Ghost<SymState>,
    Ghost(w): Ghost<SymWork>,
    Ghost(tval): Ghost<nat>,
)
    requires
        models == blocks@.map_values(|b: Block| b@),
        forall|i: int|
            0 <= i < blocks@.len() ==> block_model_wf((#[trigger] blocks@[i])@, code@),
        (head as int) < old(queue)@.len(),
        (bi as int) < blocks@.len(),
        (found as int) < blocks@.len(),
        ops_len == models[bi as int].ops.len(),
        ops_len >= 1,
        st.queue == queue_model(old(queue)@, head as int),
        st.visited == visited_vals(old(visited)@),
        w == st.queue[0],
        w.block == bi as int,
        exec_ops_model(w.cells, models[bi as int].ops, code@, ops_len - 1) == Some(
            old(stack)@,
        ),
        old(stack).wf(),
        category_spec(models[bi as int].ops[ops_len - 1].code) == OpType::Jump || category_spec(
            models[bi as int].ops[ops_len - 1].code,
        ) == OpType::JumpI,
        old(stack)@.len() > 0,
        old(stack)@.last() is Data,
        tval == be_val(old(stack)@.last()->Data_0),
        target.value() == tval,
        find_block(models, tval, 0) == Some(found as int),
        models[found as int].pc_start == tval,
        (src64 as nat) == models[bi as int].pc_start as nat,
        (dst64 as nat) == tval,
        !st.visited.contains((models[bi as int].pc_start as nat, tval)),
    ensures
        ({
            let st2 = sym_step(models, code@, st);
            &&& final(queue)@.len() >= old(queue)@.len()
            &&& final(queue)@.subrange(0, old(queue)@.len() as int) == old(queue)@
            &&& st2.queue == queue_model(final(queue)@, head + 1)
            &&& st2.visited == visited_vals(final(visited)@)
            &&& forall|t: int|
                old(queue)@.len() <= t < final(queue)@.len() ==> item_wf(
                    #[trigger] final(queue)@[t],
                    blocks@.len() as nat,
                )
            &&& (final(visited)@ == old(visited)@ || (final(visited)@.len() == old(
                visited,
            )@.len() + 1 && exists|x: int, y: int|
                0 <= x < blocks@.len() && 0 <= y < blocks@.len() && final(visited)@ == old(
                    visited,
                )@.push(
                    ((#[trigger] blocks@[x]).pc_start as u64, (#[trigger] blocks@[y]).pc_start as u64),
                ) && !st.visited.contains(
                    (blocks@[x].pc_start as nat, blocks@[y].pc_start as nat),
                )))
            &&& crate::program::edge_vals(final(edges)@) == crate::program::edge_vals(
                old(edges)@,
            ) + st2.edges.skip(st.edges.len() as int)
            &&& st2.edges.take(st.edges.len() as int) == st.edges
            &&& st2.edges.len() >= st.edges.len()
            &&& (final(queue)@.len() > old(queue)@.len() ==> final(visited)@.len() > old(
                visited,
            )@.len())
        }),
{
    let ghost rest_q = st.queue.drop_first();
    let ghost cells2 = stack@;
    let n = ops_len - 1;
    let ghost lastop = models[bi as int].ops[n as int];
    let ghost edge = ((models[bi as int].pc_start as nat), tval);
    let ghost edges_before = edges@;
    let ok2 = stack.execute_checked(&blocks[bi].ops[ops_len - 1], code);
    let src_w = blocks[bi].id();
    edges.push((src_w, target));
    visited.push((src64, dst64));
    proof {
        assert(visited_vals(visited@) =~= st.visited.push(edge));
        assert(crate::program::edge_vals(edges@) =~= crate::program::edge_vals(edges_before)
            + seq![edge]);
    }
    if ok2 {
        let cap = stack.capture();
        queue.push((found, cap));
        proof {
            reveal(crate::symbolic::work_of);
            let item = queue@[queue@.len() - 1];
            assert(Some(stack@) == exec_op_model(cells2, lastop, code@));
            let m2 = item.1.vals@.map_values(|f: SymbolicStackFrame| f@);
            assert(m2 =~= stack@.push(CellView::Uninit));
            crate::stack::lemma_restore_of_capture(stack@);
            assert(work_of(item).cells == stack@);
            lemma_sym_step_record(models, code@, st);
            let st2 = sym_step(models, code@, st);
            assert(st2 == SymState {
                queue: rest_q.push(SymWork { block: found as int, cells: stack@ }),
                visited: st.visited.push(edge),
                edges: st.edges.push(edge),
            });
            assert(work_of(item) == SymWork { block: found as int, cells: stack@ });
            assert(queue_model(queue@, head + 1) =~= rest_q.push(work_of(item)));
            assert(st2.edges.skip(st.edges.len() as int) =~= seq![edge]);
            assert(st2.edges.take(st.edges.len() as int) =~= st.edges);
            assert(queue@.subrange(0, old(queue)@.len() as int) =~= old(queue)@);
            assert(item_wf(item, blocks@.len() as nat)) by {
                assert forall|c: int| 0 <= c < work_of(item).cells.len() implies cell_wf(
                    #[trigger] work_of(item).cells[c],
                ) by {
                    assert(work_of(item).cells[c] == stack@[c]);
                }
            }
        }
    } else {
        proof {
            assert(exec_op_model(cells2, lastop, code@) is None);
            lemma_sym_step_record(models, code@, st);
            let st2 = sym_step(models, code@, st);
            assert(st2 == SymState {
                queue: rest_q,
                visited: st.visited.push(edge),
                edges: st.edges.push(edge),
            });
            assert(queue_model(queue@, head + 1) =~= rest_q);
            assert(st2.edges.skip(st.edges.len() as int) =~= seq![edge]);
            assert(st2.edges.take(st.edges.len() as int) =~= st.edges);
        }
    }
    proof {
        assert(0 <= (bi as int) < blocks@.len() && 0 <= (found as int) < blocks@.len()
            && visited@ == old(visited)@.push(
            (blocks@[bi as int].pc_start as u64, blocks@[found as int].pc_start as u64),
        ) && !st.visited.contains(
            (blocks@[bi as int].pc_start as nat, blocks@[found as int].pc_start as nat),
        ));
    }
}

/// Extend the traversal bookkeeping by one recorded edge: the parallel
/// index pairs and their packed codes stay distinct and bounded.
proof fn lemma_extend_codes(
    blocks: Seq<Block>,
    nblocks: int,
    visited_before: Seq<(u64, u64)>,
    visited_now: Seq<(u64, u64)>,
    stv: Seq<(nat, nat)>,
    codes: Seq<int>,
    pairs: Seq<(int, int)>,
) -> (r: (Seq<int>, Seq<(int, int)>))
    requires
        nblocks == blocks.len(),
        nblocks > 0,
        stv == visited_vals(visited_before),
        codes.len() == visited_before.len(),
        pairs.len() == visited_before.len(),
        codes.no_duplicates(),
        forall|t: int|
            0 <= t < pairs.len() ==> 0 <= (#[trigger] pairs[t]).0 < nblocks && 0 <= pairs[t].1
                < nblocks,
        forall|t: int|
            0 <= t < codes.len() ==> #[trigger] codes[t] == pairs[t].0 * nblocks + pairs[t].1,
        forall|t: int|
            0 <= t < visited_before.len() ==> (#[trigger] visited_before[t]) == ((
                blocks[pairs[t].0].pc_start as u64,
                blocks[pairs[t].1].pc_start as u64,
            )),
        visited_now == visited_before || (visited_now.len() == visited_before.len() + 1 && exists|
            x: int,
            y: int,
        |
            0 <= x < blocks.len() && 0 <= y < blocks.len() && visited_now == visited_before.push(
                ((#[trigger] blocks[x]).pc_start as u64, (#[trigger] blocks[y]).pc_start as u64),
            ) && !stv.contains((blocks[x].pc_start as nat, blocks[y].pc_start as nat))),
    ensures
        r.0.len() == visited_now.len(),
        r.1.len() == visited_now.len(),
        r.0.no_duplicates(),
        forall|t: int|
            0 <= t < r.1.len() ==> 0 <= (#[trigger] r.1[t]).0 < nblocks && 0 <= r.1[t].1
                < nblocks,
        forall|t: int| 0 <= t < r.0.len() ==> #[trigger] r.0[t] == r.1[t].0 * nblocks + r.1[t].1,
        forall|t: int|
            0 <= t < visited_now.len() ==> (#[trigger] visited_now[t]) == ((
                blocks[r.1[t].0].pc_start as u64,
                blocks[r.1[t].1].pc_start as u64,
            )),
        r.0.len() <= nblocks * nblocks,
{
    assert forall|t: int| 0 <= t < codes.len() implies 0 <= #[trigger] codes[t] < nblocks
        * nblocks by {
        let p = pairs[t];
        assert(0 <= p.0 * nblocks + p.1 < nblocks * nblocks) by (nonlinear_arith)
            requires
                0 <= p.0 < nblocks,
                0 <= p.1 < nblocks,
        ;
    }
    if visited_now == visited_before {
        lemma_distinct_codes_bound(codes, nblocks * nblocks);
        (codes, pairs)
    } else {
        let (x, y) = choose|x: int, y: int|
            0 <= x < blocks.len() && 0 <= y < blocks.len() && visited_now == visited_before.push(
                ((#[trigger] blocks[x]).pc_start as u64, (#[trigger] blocks[y]).pc_start as u64),
            ) && !stv.contains((blocks[x].pc_start as nat, blocks[y].pc_start as nat));
        let codes2 = codes.push(x * nblocks + y);
        let pairs2 = pairs.push((x, y));
        let edge = (blocks[x].pc_start as nat, blocks[y].pc_start as nat);
        assert forall|t: int| 0 <= t < codes2.len() - 1 implies #[trigger] codes2[t] != codes2[codes2.len() - 1] by {
            let p = pairs[t];
            assert(codes2[t] == codes[t]);
            if codes2[t] == codes2[codes2.len() - 1] {
                assert(p.0 * nblocks + p.1 == x * nblocks + y);
                assert(p.0 == x && p.1 == y) by (nonlinear_arith)
                    requires
                        0 <= p.0 < nblocks,
                        0 <= p.1 < nblocks,
                        0 <= x < nblocks,
                        0 <= y < nblocks,
                        p.0 * nblocks + p.1 == x * nblocks + y,
                ;
                assert(visited_before[t] == (
                    blocks[x].pc_start as u64,
                    blocks[y].pc_start as u64,
                ));
                assert(visited_vals(visited_before)[t] == edge);
                assert(stv.contains(edge));
                assert(false);
            }
        }
        assert(codes2.no_duplicates()) by {
            assert forall|a: int, b: int| 0 <= a < b < codes2.len() implies codes2[a] != codes2[b] by {
                if b == codes2.len() - 1 {
                    assert(codes2[a] != codes2[codes2.len() - 1]);
                } else {
                    assert(codes2[a] == codes[a] && codes2[b] == codes[b]);
                }
            }
        }
        assert forall|t: int| 0 <= t < codes2.len() implies 0 <= #[trigger] codes2[t] < nblocks
            * nblocks by {
            let p = pairs2[t];
            assert(0 <= p.0 * nblocks + p.1 < nblocks * nblocks) by (nonlinear_arith)
                requires
                    0 <= p.0 < nblocks,
                    0 <= p.1 < nblocks,
            ;
        }
        lemma_distinct_codes_bound(codes2, nblocks * nblocks);
        assert forall|t: int| 0 <= t < visited_now.len() implies (#[trigger] visited_now[t]) == ((
            blocks[pairs2[t].0].pc_start as u64,
            blocks[pairs2[t].1].pc_start as u64,
        )) by {
            if t < visited_before.len() {
                assert(pairs2[t] == pairs[t]);
                assert(visited_now[t] == visited_before[t]);
            } else {
                assert(pairs2[t] == (x, y));
            }
        }
        (codes2, pairs2)
    }
}

impl Program {
    /// Follow computed jumps from the first block, running each block's
    /// instructions symbolically, and append every edge the traversal
    /// discovers.  The result is exactly the edge list of a traversal run
    /// that has drained its worklist.
    #[verifier::rlimit(100)]
    #[verifier::spinoff_prover]
    pub fn gen_symbolic_edges(&mut self)
        requires
            old(self).wf(),
        ensures
            final(self).wf(),
            final(self).code@ == old(self).code@,
            final(self).blocks@ == old(self).blocks@,
            final(self).start_addresses@ == old(self).start_addresses@,
            old(self).blocks@.len() == 0 ==> final(self).edges@ == old(self).edges@,
            old(self).blocks@.len() > 0 ==> exists|n: nat|
                (#[trigger] sym_run(old(self).block_models(), old(self).code@, sym_init(), n))
                    .queue.len() == 0 && crate::program::edge_vals(final(self).edges@)
                    == crate::program::edge_vals(old(self).edges@) + sym_run(
                    old(self).block_models(),
                    old(self).code@,
                    sym_init(),
                    n,
                ).edges,
    {
        if self.blocks.len() == 0 {
            return ;
        }
        proof {
            lemma_program_blocks_wf(&*self);
        }
        let ghost models = self.block_models();
        let ghost codev = self.code@;
        let ghost edges0 = self.edges@;
        let ghost blocks0 = self.blocks@;
        let ghost sa0 = self.start_addresses@;
        let nblocks = self.blocks.len();
        let mut queue: Vec<(usize, SymbolicStackCapture)> = Vec::new();
        let empty_stack = SymbolicStack::new();
        queue.push((0usize, empty_stack.capture()));
        let mut head: usize = 0;
        let mut visited: Vec<(u64, u64)> = Vec::new();
        let ghost mut steps: nat = 0;
        let ghost mut codes: Seq<int> = seq![];
        let ghost mut pairs: Seq<(int, int)> = seq![];
        proof {
            reveal(crate::symbolic::work_of);
            let m0 = queue@[0].1.vals@.map_values(|f: SymbolicStackFrame| f@);
            assert(m0 =~= seq![CellView::Uninit]);
            assert(live_len(m0, 0) == 0);
            assert(work_of(queue@[0]).cells =~= Seq::<CellView>::empty());
            assert(queue_model(queue@, 0) =~= sym_init().queue);
            assert(visited_vals(visited@) =~= Seq::<(nat, nat)>::empty());
            assert(crate::program::edge_vals(self.edges@) =~= crate::program::edge_vals(edges0)
                + Seq::<(nat, nat)>::empty());
        }
        while head < queue.len()
            invariant
                self.wf(),
                self.blocks@ == blocks0,
                self.code@ == codev,
                self.start_addresses@ == sa0,
                models == self.block_models(),
                nblocks == self.blocks@.len(),
                nblocks > 0,
                head <= queue@.len(),
                forall|i: int|
                    0 <= i < self.blocks@.len() ==> block_model_wf(
                        (#[trigger] self.blocks@[i])@,
                        self.code@,
                    ),
                forall|t: int|
                    head <= t < queue@.len() ==> item_wf(#[trigger] queue@[t], nblocks as nat),
                sym_run(models, codev, sym_init(), steps).queue == queue_model(
                    queue@,
                    head as int,
                ),
                sym_run(models, codev, sym_init(), steps).visited == visited_vals(visited@),
                crate::program::edge_vals(self.edges@) == crate::program::edge_vals(edges0)
                    + sym_run(models, codev, sym_init(), steps).edges,
                codes.len() == visited@.len(),
                pairs.len() == visited@.len(),
                codes.no_duplicates(),
                forall|t: int|
                    0 <= t < pairs.len() ==> 0 <= (#[trigger] pairs[t]).0 < nblocks && 0
                        <= pairs[t].1 < nblocks,
                forall|t: int|
                    0 <= t < codes.len() ==> #[trigger] codes[t] == pairs[t].0 * nblocks
                        + pairs[t].1,
                forall|t: int|
                    0 <= t < visited@.len() ==> (#[trigger] visited@[t]) == ((
                        self.blocks@[pairs[t].0].pc_start as u64,
                        self.blocks@[pairs[t].1].pc_start as u64,
                    )),
                codes.len() <= nblocks * nblocks,
            decreases nblocks * nblocks - codes.len(), queue@.len() - head,
        {
            let ghost st = sym_run(models, codev, sym_init(), steps);
            let ghost visited_before = visited@;
            let ghost queue_before = queue@;
            proof {
                lemma_sym_run_snoc(models, codev, sym_init(), steps);
            }
            process_work_item(
                &self.blocks,
                &self.code,
                &mut self.edges,
                &mut visited,
                &mut queue,
                head,
                Ghost(models),
                Ghost(st),
            );
            proof {
                let st2 = sym_step(models, codev, st);
                steps = steps + 1;
                assert forall|t: int| head + 1 <= t < queue@.len() implies item_wf(
                    #[trigger] queue@[t],
                    nblocks as nat,
                ) by {
                    if t < queue_before.len() {
                        assert(queue@.subrange(0, queue_before.len() as int)[t] == queue@[t]);
                        assert(queue@[t] == queue_before[t]);
                    }
                }
                assert(sym_run(models, codev, sym_init(), steps) == st2);
                assert(crate::program::edge_vals(self.edges@) =~= crate::program::edge_vals(
                    edges0,
                ) + st2.edges) by {
                    assert(st2.edges =~= st2.edges.take(st.edges.len() as int) + st2.edges.skip(
                        st.edges.len() as int,
                    ));
                }
                let (c2, p2) = lemma_extend_codes(
                    self.blocks@,
                    nblocks as int,
                    visited_before,
                    visited@,
                    st.visited,
                    codes,
                    pairs,
                );
                codes = c2;
                pairs = p2;
                if visited@ == visited_before {
                    assert(visited_vals(visited@) == visited_vals(visited_before));
                    assert(st2.visited == st.visited);
                }
            }
            head = head + 1;
        }
        proof {
            let fin = sym_run(models, codev, sym_init(), steps);
            assert(queue_model(queue@, head as int) =~= Seq::<SymWork>::empty());
            assert(fin.queue.len() == 0);
            assert(crate::program::edge_vals(self.edges@) == crate::program::edge_vals(edges0)
                + fin.edges);
        }
    }
}

} // verus!
