//! The program under analysis: the flat code, its partition into basic
//! blocks, and the edges recovered between them.
//!
//! `sweep` is the mathematical disassembler: a single left-to-right pass that
//! says exactly which blocks a byte sequence splits into.  `parse_bytecode`
//! is proved to produce precisely that partition.

use vstd::prelude::*;

use crate::catalog::{
    arg_size_spec, is_block_end, is_block_end_spec, is_defined, is_defined_spec, JUMP, JUMPDEST,
    JUMPI,
};
use crate::op::{category_spec, OpType, Operation};
use crate::stack::SymbolicStack;
use crate::word::{be_val, Word};

verus! {

/// The mathematical content of a basic block.
pub struct BlockModel {
    pub pc_start: int,
    pub pc_end: int,
    pub ops: Seq<Operation>,
}

/// A basic block: a maximal run of instructions entered only at the first.
/// `pc_end` is the byte offset of the last instruction's opcode byte, not of
/// its immediate.
#[derive(Debug)]
pub struct Block {
    pub pc_start: usize,
    pub pc_end: usize,
    pub ops: Vec<Operation>,
    pub successors: Vec<usize>,
}

impl View for Block {
    type V = BlockModel;

    open spec fn view(&self) -> BlockModel {
        BlockModel {
            pc_start: self.pc_start as int,
            pc_end: self.pc_end as int,
            ops: self.ops@,
        }
    }
}

impl Block {
    /// The block's identity: its starting offset as a word.
    pub fn id(&self) -> (w: Word)
        ensures
            w.value() == self.pc_start,
    {
        Word::from_u64(self.pc_start as u64)
    }
}

/// A defined opcode decoded at offset `p`.
pub open spec fn placed_op(b: u8, p: int) -> Operation {
    Operation { pc: Some(p as usize), ..Operation::decoded_spec(b) }
}

/// An undecodable byte recorded at offset `p`.
pub open spec fn invalid_op_at(b: u8, p: int) -> Operation {
    Operation::invalid_spec(b, Some(p as usize))
}

/// The linear sweep from offset `ptr`, with the pending block begun at
/// `bstart` holding the instructions `acc`.  A defined opcode whose immediate
/// lies inside the code joins the pending block, which closes after a block
/// terminator, at the end of the code, and in front of a JUMPDEST.  Any
/// other byte closes the pending block and stands alone as an invalid block.
pub open spec fn sweep(code: Seq<u8>, ptr: int, bstart: int, acc: Seq<Operation>) -> Seq<
    BlockModel,
>
    decreases code.len() - ptr when 0 <= ptr <= code.len()
{
    if ptr >= code.len() {
        seq![]
    } else {
        let b = code[ptr];
        if is_defined_spec(b) && ptr + 1 + arg_size_spec(b) <= code.len() {
            let next = ptr + 1 + arg_size_spec(b);
            let ops2 = acc.push(placed_op(b, ptr));
            if is_block_end_spec(b) || next >= code.len() || code[next] == JUMPDEST {
                seq![BlockModel { pc_start: bstart, pc_end: ptr, ops: ops2 }] + sweep(
                    code,
                    next,
                    next,
                    seq![],
                )
            } else {
                sweep(code, next, bstart, ops2)
            }
        } else {
            let head: Seq<BlockModel> = if acc.len() > 0 {
                seq![BlockModel { pc_start: bstart, pc_end: ptr - 1, ops: acc }]
            } else {
                seq![]
            };
            head + seq![
                BlockModel { pc_start: ptr, pc_end: ptr, ops: seq![invalid_op_at(b, ptr)] },
            ] + sweep(code, ptr + 1, ptr + 1, seq![])
        }
    }
}

/// The offset of the byte after an instruction and its immediate.
pub open spec fn next_pc(op: Operation) -> int {
    op.pc->0 + 1 + op.arg_size
}

/// What the sweep guarantees of every block it emits.
pub open spec fn block_model_wf(bm: BlockModel, code: Seq<u8>) -> bool {
    &&& 0 <= bm.pc_start <= bm.pc_end < code.len()
    &&& bm.ops.len() > 0
    &&& forall|k: int| 0 <= k < bm.ops.len() ==> (#[trigger] bm.ops[k]).wf(code.len())
    &&& bm.ops[0].pc->0 == bm.pc_start
    &&& bm.ops[bm.ops.len() - 1].pc->0 <= bm.pc_end < next_pc(bm.ops[bm.ops.len() - 1])
    &&& forall|k: int|
        0 <= k < bm.ops.len() - 1 ==> next_pc(#[trigger] bm.ops[k]) == bm.ops[k + 1].pc->0
    &&& forall|k: int|
        0 <= k < bm.ops.len() ==> code[(#[trigger] bm.ops[k]).pc->0 as int] == bm.ops[k].code
    &&& forall|k: int|
        0 <= k < bm.ops.len() ==> ((#[trigger] bm.ops[k]).code == JUMPDEST && !bm.ops[k].is_invalid
            ==> k == 0)
    &&& forall|k: int| 0 <= k < bm.ops.len() - 1 ==> !is_block_end_spec((#[trigger] bm.ops[k]).code)
    &&& forall|k: int| 0 <= k < bm.ops.len() ==> ((#[trigger] bm.ops[k]).is_invalid ==> bm.ops.len() == 1)
}

/// The bytes a run of instructions covers: one opcode byte each, plus the
/// immediate.
pub open spec fn ops_bytes(ops: Seq<Operation>) -> int
    decreases ops.len(),
{
    if ops.len() == 0 {
        0
    } else {
        ops_bytes(ops.drop_last()) + 1 + ops.last().arg_size
    }
}

/// The bytes a run of blocks covers.
pub open spec fn blocks_bytes(bs: Seq<BlockModel>) -> int
    decreases bs.len(),
{
    if bs.len() == 0 {
        0
    } else {
        blocks_bytes(bs.drop_last()) + ops_bytes(bs.last().ops)
    }
}

proof fn lemma_blocks_bytes_prepend(x: BlockModel, tail: Seq<BlockModel>)
    ensures
        blocks_bytes(seq![x] + tail) == ops_bytes(x.ops) + blocks_bytes(tail),
    decreases tail.len(),
{
    if tail.len() == 0 {
        assert(seq![x] + tail =~= seq![x]);
        assert(seq![x].drop_last() =~= Seq::<BlockModel>::empty());
        assert(blocks_bytes(seq![x]) == blocks_bytes(seq![x].drop_last()) + ops_bytes(
            seq![x].last().ops,
        ));
        assert(blocks_bytes(Seq::<BlockModel>::empty()) == 0);
    } else {
        let whole = seq![x] + tail;
        assert(whole.drop_last() =~= seq![x] + tail.drop_last());
        lemma_blocks_bytes_prepend(x, tail.drop_last());
        assert(whole.last() == tail.last());
        assert(blocks_bytes(whole) == blocks_bytes(whole.drop_last()) + ops_bytes(
            whole.last().ops,
        ));
        assert(blocks_bytes(tail) == blocks_bytes(tail.drop_last()) + ops_bytes(tail.last().ops));
    }
}

proof fn lemma_blocks_bytes_two_prepend(x: BlockModel, y: BlockModel, tail: Seq<BlockModel>)
    ensures
        blocks_bytes(seq![x] + seq![y] + tail) == ops_bytes(x.ops) + ops_bytes(y.ops)
            + blocks_bytes(tail),
{
    assert(seq![x] + seq![y] + tail =~= seq![x] + (seq![y] + tail));
    lemma_blocks_bytes_prepend(x, seq![y] + tail);
    lemma_blocks_bytes_prepend(y, tail);
}

/// The invariants of the linear sweep: every emitted block is well formed,
/// the blocks are disjoint and ordered, and together they cover exactly the
/// remaining code plus the pending instructions.
#[verifier::rlimit(100)]
#[verifier::spinoff_prover]
pub proof fn lemma_sweep_props(code: Seq<u8>, ptr: int, bstart: int, acc: Seq<Operation>)
    requires
        code.len() <= usize::MAX,
        0 <= bstart <= ptr <= code.len(),
        acc.len() == 0 ==> bstart == ptr,
        acc.len() > 0 ==> ptr < code.len(),
        acc.len() > 0 ==> bstart < ptr,
        forall|k: int| 0 <= k < acc.len() ==> (#[trigger] acc[k]).wf(code.len()),
        forall|k: int| 0 <= k < acc.len() ==> !(#[trigger] acc[k]).is_invalid,
        acc.len() > 0 ==> acc[0].pc->0 == bstart,
        forall|k: int| 0 <= k < acc.len() - 1 ==> next_pc(#[trigger] acc[k]) == acc[k + 1].pc->0,
        acc.len() > 0 ==> next_pc(acc[acc.len() - 1]) == ptr,
        forall|k: int|
            0 <= k < acc.len() ==> code[(#[trigger] acc[k]).pc->0 as int] == acc[k].code,
        forall|k: int| 0 < k < acc.len() ==> (#[trigger] acc[k]).code != JUMPDEST,
        acc.len() > 0 ==> code[ptr] != JUMPDEST,
        forall|k: int| 0 <= k < acc.len() ==> !is_block_end_spec((#[trigger] acc[k]).code),
    ensures
        ({
            let bs = sweep(code, ptr, bstart, acc);
            &&& forall|i: int| 0 <= i < bs.len() ==> block_model_wf(#[trigger] bs[i], code)
            &&& bs.len() > 0 ==> bs[0].pc_start == bstart
            &&& forall|i: int| 0 <= i < bs.len() - 1 ==> (#[trigger] bs[i]).pc_end < bs[i + 1].pc_start
            &&& blocks_bytes(bs) == code.len() - ptr + ops_bytes(acc)
            &&& (acc.len() > 0 || ptr < code.len()) ==> bs.len() > 0
        }),
    decreases code.len() - ptr,
{
    let bs = sweep(code, ptr, bstart, acc);
    if ptr >= code.len() {
        assert(acc.len() == 0);
        assert(bs =~= Seq::<BlockModel>::empty());
        assert(blocks_bytes(bs) == 0);
    } else {
        let b = code[ptr];
        if is_defined_spec(b) && ptr + 1 + arg_size_spec(b) <= code.len() {
            let next = ptr + 1 + arg_size_spec(b);
            let op = placed_op(b, ptr);
            let ops2 = acc.push(op);
            assert(op.pc->0 == ptr);
            assert(op.wf(code.len()));
            assert(ops2.drop_last() =~= acc);
            assert(ops_bytes(ops2) == ops_bytes(acc) + 1 + arg_size_spec(b));
            assert forall|k: int| 0 <= k < ops2.len() implies (#[trigger] ops2[k]).wf(code.len())
                && !ops2[k].is_invalid by {
                if k < acc.len() {
                    assert(ops2[k] == acc[k]);
                }
            }
            assert forall|k: int| 0 <= k < ops2.len() - 1 implies next_pc(#[trigger] ops2[k])
                == ops2[k + 1].pc->0 by {
                assert(ops2[k] == acc[k]);
                if k < acc.len() - 1 {
                    assert(ops2[k + 1] == acc[k + 1]);
                } else {
                    assert(ops2[k + 1] == op);
                    assert(next_pc(acc[acc.len() - 1]) == ptr);
                }
            }
            assert forall|k: int| 0 <= k < ops2.len() implies code[(
            #[trigger] ops2[k]).pc->0 as int] == ops2[k].code by {
                if k < acc.len() {
                    assert(ops2[k] == acc[k]);
                } else {
                    assert(ops2[k] == op);
                }
            }
            assert forall|k: int| 0 < k < ops2.len() implies (#[trigger] ops2[k]).code
                != JUMPDEST by {
                if k < acc.len() {
                    assert(ops2[k] == acc[k]);
                } else {
                    assert(ops2[k] == op);
                    assert(acc.len() > 0 && code[ptr] != JUMPDEST);
                }
            }
            assert(ops2[0].pc->0 == bstart);
            if is_block_end_spec(b) || next >= code.len() || code[next] == JUMPDEST {
                let head = BlockModel { pc_start: bstart, pc_end: ptr, ops: ops2 };
                let tail = sweep(code, next, next, seq![]);
                assert(bs == seq![head] + tail);
                lemma_sweep_props(code, next, next, seq![]);
                assert(block_model_wf(head, code)) by {
                    assert(head.ops[head.ops.len() - 1] == op);
                    assert forall|k: int| 0 <= k < head.ops.len() - 1 implies !is_block_end_spec(
                        (#[trigger] head.ops[k]).code,
                    ) by {
                        assert(head.ops[k] == acc[k]);
                    }
                }
                lemma_blocks_bytes_prepend(head, tail);
                assert forall|i: int| 0 <= i < bs.len() - 1 implies (#[trigger] bs[i]).pc_end < bs[i + 1].pc_start by {
                    if i == 0 {
                        assert(bs[0] == head);
                        assert(bs[1] == tail[0]);
                        assert(tail[0].pc_start == next);
                    } else {
                        assert(bs[i] == tail[i - 1] && bs[i + 1] == tail[i]);
                    }
                }
                assert forall|i: int| 0 <= i < bs.len() implies block_model_wf(
                    #[trigger] bs[i],
                    code,
                ) by {
                    if i > 0 {
                        assert(bs[i] == tail[i - 1]);
                    }
                }
            } else {
                assert(bs == sweep(code, next, bstart, ops2));
                assert(next < code.len());
                assert(!is_block_end_spec(b));
                assert(code[next] != JUMPDEST);
                assert(next_pc(ops2[ops2.len() - 1]) == next);
                lemma_sweep_props(code, next, bstart, ops2);
            }
        } else {
            let iop = invalid_op_at(b, ptr);
            let inv = BlockModel { pc_start: ptr, pc_end: ptr, ops: seq![iop] };
            let tail = sweep(code, ptr + 1, ptr + 1, seq![]);
            lemma_sweep_props(code, ptr + 1, ptr + 1, seq![]);
            assert(block_model_wf(inv, code)) by {
                assert(inv.ops[0] == iop);
                assert(iop.pc->0 == ptr);
                assert(iop.wf(code.len()));
                assert(iop.code != JUMPDEST || iop.is_invalid);
            }
            assert(ops_bytes(inv.ops) == 1) by {
                assert(inv.ops.drop_last() =~= Seq::<Operation>::empty());
            }
            if acc.len() > 0 {
                let head = BlockModel { pc_start: bstart, pc_end: ptr - 1, ops: acc };
                assert(bs == seq![head] + seq![inv] + tail);
                assert(block_model_wf(head, code)) by {
                    assert(next_pc(acc[acc.len() - 1]) == ptr);
                    assert(head.ops[head.ops.len() - 1] == acc[acc.len() - 1]);
                }
                lemma_blocks_bytes_two_prepend(head, inv, tail);
                assert(bs.len() == 2 + tail.len());
                assert forall|i: int| 0 <= i < bs.len() - 1 implies (#[trigger] bs[i]).pc_end < bs[i + 1].pc_start by {
                    assert(bs[0] == head && bs[1] == inv);
                    if i == 1 {
                        assert(bs[2] == tail[0]);
                        assert(tail[0].pc_start == ptr + 1);
                    } else if i > 1 {
                        assert(bs[i] == tail[i - 2] && bs[i + 1] == tail[i - 1]);
                    }
                }
                assert forall|i: int| 0 <= i < bs.len() implies block_model_wf(
                    #[trigger] bs[i],
                    code,
                ) by {
                    if i > 1 {
                        assert(bs[i] == tail[i - 2]);
                    }
                }
            } else {
                assert(bs == seq![] + seq![inv] + tail);
                assert(bs =~= seq![inv] + tail);
                lemma_blocks_bytes_prepend(inv, tail);
                assert forall|i: int| 0 <= i < bs.len() - 1 implies (#[trigger] bs[i]).pc_end < bs[i + 1].pc_start by {
                    assert(bs[0] == inv);
                    if i == 0 {
                        assert(bs[1] == tail[0]);
                        assert(tail[0].pc_start == ptr + 1);
                    } else {
                        assert(bs[i] == tail[i - 1] && bs[i + 1] == tail[i]);
                    }
                }
                assert forall|i: int| 0 <= i < bs.len() implies block_model_wf(
                    #[trigger] bs[i],
                    code,
                ) by {
                    if i > 0 {
                        assert(bs[i] == tail[i - 1]);
                    }
                }
            }
        }
    }
}

/// The program: the code, its blocks in source order, the block identities,
/// and the recovered edges.
#[derive(Debug)]
pub struct Program {
    pub code: Vec<u8>,
    pub blocks: Vec<Block>,
    pub edges: Vec<(Word, Word)>,
    pub start_addresses: Vec<Word>,
}

impl Program {
    /// The blocks are exactly what the sweep of the code gives, and the
    /// start addresses name them in order.
    pub open spec fn wf(&self) -> bool {
        &&& self.blocks@.map_values(|b: Block| b@) == sweep(self.code@, 0, 0, seq![])
        &&& self.start_addresses@.len() == self.blocks@.len()
        &&& forall|i: int|
            0 <= i < self.blocks@.len() ==> (#[trigger] self.start_addresses@[i]).value()
                == self.blocks@[i].pc_start
    }

    /// Split the code into basic blocks by a single linear sweep.  The
    /// entry selector is reserved and ignored.
    pub fn parse_bytecode(code: Vec<u8>, entry_sig: Option<[u8; 4]>) -> (p: Program)
        ensures
            p.code@ == code@,
            p.blocks@.map_values(|b: Block| b@) == sweep(code@, 0, 0, seq![]),
            p.edges@ == Seq::<(Word, Word)>::empty(),
            forall|i: int|
                0 <= i < p.blocks@.len() ==> (#[trigger] p.blocks@[i]).successors@ == Seq::<
                    usize,
                >::empty(),
            p.wf(),
    {
        let mut blocks: Vec<Block> = Vec::new();
        let mut entry_points: Vec<Word> = Vec::new();
        let mut ptr: usize = 0;
        let mut prev_ptr: usize = 0;
        let mut curr_block_codes: Vec<Operation> = Vec::new();
        proof {
            assert(blocks@.map_values(|b: Block| b@) =~= Seq::<BlockModel>::empty());
            assert(curr_block_codes@ =~= Seq::<Operation>::empty());
        }
        while ptr < code.len()
            invariant
                prev_ptr <= ptr <= code@.len(),
                curr_block_codes@.len() == 0 ==> prev_ptr == ptr,
                curr_block_codes@.len() > 0 ==> ptr < code@.len(),
                curr_block_codes@.len() > 0 ==> prev_ptr < ptr,
                sweep(code@, 0, 0, seq![]) == blocks@.map_values(|b: Block| b@) + sweep(
                    code@,
                    ptr as int,
                    prev_ptr as int,
                    curr_block_codes@,
                ),
                entry_points@.len() == blocks@.len(),
                forall|i: int|
                    0 <= i < blocks@.len() ==> (#[trigger] entry_points@[i]).value()
                        == blocks@[i].pc_start,
                forall|i: int|
                    0 <= i < blocks@.len() ==> (#[trigger] blocks@[i]).successors@ == Seq::<
                        usize,
                    >::empty(),
            decreases code@.len() - ptr,
        {
            let ghost blocks0 = blocks@.map_values(|b: Block| b@);
            let ghost acc0 = curr_block_codes@;
            let curr_byte = code[ptr];
            let arg = crate::catalog::arg_size(curr_byte);
            let inc = 1 + arg as usize;
            if is_defined(curr_byte) && inc <= code.len() - ptr {
                let op = Operation::from_byte(curr_byte).pc(ptr);
                proof {
                    assert(op == placed_op(curr_byte, ptr as int));
                }
                curr_block_codes.push(op);
                let next = ptr + inc;
                let close = is_block_end(curr_byte) || next >= code.len() || code[next]
                    == JUMPDEST;
                if close {
                    entry_points.push(Word::from_u64(prev_ptr as u64));
                    let block = Block {
                        pc_start: prev_ptr,
                        pc_end: ptr,
                        ops: curr_block_codes,
                        successors: Vec::new(),
                    };
                    let ghost bm = block@;
                    blocks.push(block);
                    curr_block_codes = Vec::new();
                    proof {
                        assert(sweep(code@, ptr as int, prev_ptr as int, acc0) == seq![bm]
                            + sweep(code@, next as int, next as int, seq![]));
                        assert(blocks@.map_values(|b: Block| b@) =~= blocks0.push(bm));
                        assert(blocks0.push(bm) + sweep(code@, next as int, next as int, seq![])
                            =~= blocks0 + (seq![bm] + sweep(
                            code@,
                            next as int,
                            next as int,
                            seq![],
                        )));
                        assert(curr_block_codes@ =~= Seq::<Operation>::empty());
                    }
                    ptr = next;
                    prev_ptr = ptr;
                } else {
                    proof {
                        assert(sweep(code@, ptr as int, prev_ptr as int, acc0) == sweep(
                            code@,
                            next as int,
                            prev_ptr as int,
                            acc0.push(placed_op(curr_byte, ptr as int)),
                        ));
                    }
                    ptr = next;
                }
            } else {
                // an unknown byte, or a push whose immediate runs off the
                // end: close the pending block and stand the byte alone
                if curr_block_codes.len() > 0 {
                    entry_points.push(Word::from_u64(prev_ptr as u64));
                    let block = Block {
                        pc_start: prev_ptr,
                        pc_end: ptr - 1,
                        ops: curr_block_codes,
                        successors: Vec::new(),
                    };
                    blocks.push(block);
                    curr_block_codes = Vec::new();
                }
                entry_points.push(Word::from_u64(ptr as u64));
                let inv_block = Block {
                    pc_start: ptr,
                    pc_end: ptr,
                    ops: vec![Operation::invalid(curr_byte, Some(ptr))],
                    successors: Vec::new(),
                };
                let ghost ibm = inv_block@;
                blocks.push(inv_block);
                proof {
                    let head: Seq<BlockModel> = if acc0.len() > 0 {
                        seq![
                            BlockModel {
                                pc_start: prev_ptr as int,
                                pc_end: ptr - 1,
                                ops: acc0,
                            },
                        ]
                    } else {
                        seq![]
                    };
                    assert(ibm.ops =~= seq![invalid_op_at(curr_byte, ptr as int)]);
                    assert(sweep(code@, ptr as int, prev_ptr as int, acc0) == head + seq![ibm]
                        + sweep(code@, ptr + 1, ptr + 1, seq![]));
                    if acc0.len() > 0 {
                        assert(blocks@.map_values(|b: Block| b@) =~= blocks0.push(head[0]).push(
                            ibm,
                        ));
                        assert(blocks0.push(head[0]).push(ibm) + sweep(code@, ptr + 1, ptr + 1, seq![])
                            =~= blocks0 + (head + seq![ibm] + sweep(code@, ptr + 1, ptr + 1, seq![])));
                    } else {
                        assert(blocks@.map_values(|b: Block| b@) =~= blocks0.push(ibm));
                        assert(blocks0.push(ibm) + sweep(code@, ptr + 1, ptr + 1, seq![]) =~= blocks0
                            + (head + seq![ibm] + sweep(code@, ptr + 1, ptr + 1, seq![])));
                    }
                    assert(curr_block_codes@ =~= Seq::<Operation>::empty());
                }
                ptr = ptr + 1;
                prev_ptr = ptr;
            }
        }
        proof {
            assert(sweep(code@, ptr as int, prev_ptr as int, curr_block_codes@) =~= Seq::<
                BlockModel,
            >::empty());
            assert(blocks@.map_values(|b: Block| b@) + Seq::<BlockModel>::empty() =~= blocks@
                .map_values(|b: Block| b@));
        }
        Program { code, blocks, edges: Vec::new(), start_addresses: entry_points }
    }
}


/// The one JUMPDEST byte constant as seen by users of the laws below.
pub open spec fn jumpdest_byte() -> u8 {
    JUMPDEST
}

impl Program {
    /// The blocks of a well-formed program, as mathematical values.
    pub open spec fn block_models(&self) -> Seq<BlockModel> {
        self.blocks@.map_values(|b: Block| b@)
    }
}

/// Every block of a well-formed program is well formed against the code,
/// and the blocks stand in source order without overlapping.
pub proof fn lemma_program_blocks_wf(p: &Program)
    requires
        p.wf(),
    ensures
        forall|i: int|
            0 <= i < p.blocks@.len() ==> block_model_wf((#[trigger] p.blocks@[i])@, p.code@),
        forall|i: int|
            0 <= i < p.blocks@.len() - 1 ==> (#[trigger] p.blocks@[i])@.pc_end < p.blocks@[i
                + 1]@.pc_start,
        blocks_bytes(p.block_models()) == p.code@.len(),
{
    let bs = sweep(p.code@, 0, 0, seq![]);
    assert(p.code@.len() <= usize::MAX) by {
        assert(p.code@.len() == p.code.len());
    }
    lemma_sweep_props(p.code@, 0, 0, seq![]);
    assert(ops_bytes(seq![]) == 0);
    assert forall|i: int| 0 <= i < p.blocks@.len() implies block_model_wf(
        (#[trigger] p.blocks@[i])@,
        p.code@,
    ) by {
        assert(p.block_models()[i] == p.blocks@[i]@);
    }
    assert forall|i: int| 0 <= i < p.blocks@.len() - 1 implies (
    #[trigger] p.blocks@[i])@.pc_end < p.blocks@[i + 1]@.pc_start by {
        assert(p.block_models()[i] == p.blocks@[i]@);
        assert(p.block_models()[i + 1] == p.blocks@[i + 1]@);
    }
}

/// Every block spans live code, in order: `pc_start <= pc_end < len(code)`,
/// and each block begins strictly after its predecessor ends.
pub proof fn lemma_blocks_partition(p: &Program)
    requires
        p.wf(),
    ensures
        forall|i: int|
            0 <= i < p.blocks@.len() ==> (#[trigger] p.blocks@[i]).pc_start <= p.blocks@[i].pc_end
                < p.code@.len(),
        forall|i: int|
            0 <= i < p.blocks@.len() - 1 ==> (#[trigger] p.blocks@[i]).pc_end < p.blocks@[i
                + 1].pc_start,
{
    lemma_program_blocks_wf(p);
}

/// Every JUMPDEST byte that the sweep decodes begins a block of its own.
pub proof fn lemma_jumpdest_aligned(p: &Program)
    requires
        p.wf(),
    ensures
        forall|i: int, k: int|
            0 <= i < p.blocks@.len() && 0 <= k < p.blocks@[i]@.ops.len() && p.code@[(
            #[trigger] p.blocks@[i]@.ops[k]).pc->0 as int] == jumpdest_byte() ==> exists|j: int|
                0 <= j < p.blocks@.len() && (#[trigger] p.blocks@[j]).pc_start == p.blocks@[
                i]@.ops[k].pc->0,
{
    lemma_program_blocks_wf(p);
    assert forall|i: int, k: int|
        0 <= i < p.blocks@.len() && 0 <= k < p.blocks@[i]@.ops.len() && p.code@[(
        #[trigger] p.blocks@[i]@.ops[k]).pc->0 as int] == jumpdest_byte() implies exists|j: int|
        0 <= j < p.blocks@.len() && (#[trigger] p.blocks@[j]).pc_start == p.blocks@[
        i]@.ops[k].pc->0 by {
        let bm = p.blocks@[i]@;
        let op = bm.ops[k];
        assert(block_model_wf(bm, p.code@));
        assert(op.code == jumpdest_byte());
        assert(!op.is_invalid) by {
            if op.is_invalid {
                assert(op.wf(p.code@.len()));
                assert(is_defined_spec(JUMPDEST));
                assert(arg_size_spec(JUMPDEST) == 0);
            }
        }
        assert(k == 0);
        assert(op.pc->0 == bm.pc_start);
        assert(0 <= i < p.blocks@.len() && p.blocks@[i].pc_start == op.pc->0);
    }
}

/// The instruction bytes of all blocks together cover the code exactly.
pub proof fn lemma_code_covered(p: &Program)
    requires
        p.wf(),
    ensures
        blocks_bytes(p.block_models()) == p.code@.len(),
{
    lemma_program_blocks_wf(p);
}


/// Whether the instructions at offset `i` of `ops` fall under the categories
/// of `pat`, one for one.
pub open spec fn matches_at(ops: Seq<Operation>, pat: Seq<OpType>, i: int) -> bool {
    &&& 0 <= i
    &&& i + pat.len() <= ops.len()
    &&& forall|j: int| 0 <= j < pat.len() ==> category_spec(ops[i + j].code) == pat[j]
}

/// Every offset at or after `i` where the pattern matches, in order.
pub open spec fn match_indices_from(ops: Seq<Operation>, pat: Seq<OpType>, i: int) -> Seq<int>
    decreases ops.len() + 1 - i when 0 <= i
{
    if i + pat.len() > ops.len() {
        seq![]
    } else if matches_at(ops, pat, i) {
        seq![i] + match_indices_from(ops, pat, i + 1)
    } else {
        match_indices_from(ops, pat, i + 1)
    }
}

proof fn lemma_match_indices_props(ops: Seq<Operation>, pat: Seq<OpType>, i: int)
    requires
        0 <= i,
    ensures
        forall|t: int|
            0 <= t < match_indices_from(ops, pat, i).len() ==> matches_at(
                ops,
                pat,
                #[trigger] match_indices_from(ops, pat, i)[t],
            ),
    decreases ops.len() + 1 - i,
{
    if i + pat.len() > ops.len() {
    } else {
        lemma_match_indices_props(ops, pat, i + 1);
        let ms = match_indices_from(ops, pat, i);
        let rest = match_indices_from(ops, pat, i + 1);
        if matches_at(ops, pat, i) {
            assert forall|t: int| 0 <= t < ms.len() implies matches_at(
                ops,
                pat,
                #[trigger] ms[t],
            ) by {
                if t == 0 {
                    assert(ms[0] == i);
                } else {
                    assert(ms[t] == rest[t - 1]);
                }
            }
        }
    }
}

/// The categories of an unconditional direct jump.
pub open spec fn push_jump_pattern() -> Seq<OpType> {
    seq![OpType::Push, OpType::Jump]
}

/// The categories of a conditional direct jump.
pub open spec fn push_jumpi_pattern() -> Seq<OpType> {
    seq![OpType::Push, OpType::JumpI]
}

/// The value of a push instruction's immediate, read big-endian.
pub open spec fn push_target(op: Operation, code: Seq<u8>) -> nat {
    be_val(code.subrange(op.pc->0 + 1, op.pc->0 + 1 + op.arg_size))
}

/// The push instruction of the first place in the block where the pattern
/// matches, if any.
pub open spec fn first_push_of(bm: BlockModel, pat: Seq<OpType>) -> Option<Operation> {
    let ms = match_indices_from(bm.ops, pat, 0);
    if ms.len() > 0 {
        Some(bm.ops[ms[0]])
    } else {
        None
    }
}

/// The direct unconditional edges, one per block whose instructions match
/// `[push, jump]`, in block order.
pub open spec fn abs_edges_spec(bs: Seq<BlockModel>, code: Seq<u8>) -> Seq<(nat, nat)>
    decreases bs.len(),
{
    if bs.len() == 0 {
        seq![]
    } else {
        abs_edges_spec(bs.drop_last(), code) + match first_push_of(
            bs.last(),
            push_jump_pattern(),
        ) {
            Some(op) => seq![(bs.last().pc_start as nat, push_target(op, code))],
            None => seq![],
        }
    }
}

/// The taken edges of conditional jumps, in block order.
pub open spec fn cond_true_edges_spec(bs: Seq<BlockModel>, code: Seq<u8>) -> Seq<(nat, nat)>
    decreases bs.len(),
{
    if bs.len() == 0 {
        seq![]
    } else {
        cond_true_edges_spec(bs.drop_last(), code) + match first_push_of(
            bs.last(),
            push_jumpi_pattern(),
        ) {
            Some(op) => seq![(bs.last().pc_start as nat, push_target(op, code))],
            None => seq![],
        }
    }
}

/// The fall-through edges of conditional jumps, in block order.
pub open spec fn cond_false_edges_spec(bs: Seq<BlockModel>, code: Seq<u8>) -> Seq<(nat, nat)>
    decreases bs.len(),
{
    if bs.len() == 0 {
        seq![]
    } else {
        cond_false_edges_spec(bs.drop_last(), code) + match first_push_of(
            bs.last(),
            push_jumpi_pattern(),
        ) {
            Some(op) => seq![(bs.last().pc_start as nat, (bs.last().pc_end + 1) as nat)],
            None => seq![],
        }
    }
}

/// The values an edge list stands for.
pub open spec fn edge_vals(es: Seq<(Word, Word)>) -> Seq<(nat, nat)> {
    es.map_values(|e: (Word, Word)| (e.0.value(), e.1.value()))
}

impl Block {
    /// The offsets of every run of instructions in this block falling under
    /// the given categories, one for one, in order.  A pattern names at
    /// least one category: the degenerate empty pattern, which would match
    /// in front of every instruction, is not a meaningful query here.
    pub fn get_matching_op_sequences(&self, optype_sequence: &Vec<OpType>) -> (r: Vec<usize>)
        requires
            optype_sequence@.len() > 0,
        ensures
            r@.map_values(|u: usize| u as int) == match_indices_from(
                self.ops@,
                optype_sequence@,
                0,
            ),
    {
        let mut r: Vec<usize> = Vec::new();
        let mut i: usize = 0;
        proof {
            assert(r@.map_values(|u: usize| u as int) =~= Seq::<int>::empty());
            assert(self.ops@.len() == self.ops.len());
        }
        while i <= self.ops.len() && optype_sequence.len() <= self.ops.len() - i
            invariant
                optype_sequence@.len() > 0,
                0 <= i <= self.ops@.len() + 1,
                self.ops@.len() <= usize::MAX,
                match_indices_from(self.ops@, optype_sequence@, 0) == r@.map_values(
                    |u: usize| u as int,
                ) + match_indices_from(self.ops@, optype_sequence@, i as int),
            decreases self.ops@.len() + 1 - i,
        {
            let ghost r0 = r@.map_values(|u: usize| u as int);
            let mut ok = true;
            let mut j: usize = 0;
            while j < optype_sequence.len()
                invariant
                    0 <= j <= optype_sequence@.len(),
                    i + optype_sequence@.len() <= self.ops@.len(),
                    self.ops@.len() <= usize::MAX,
                    ok == (forall|t: int|
                        0 <= t < j ==> category_spec(self.ops@[i + t].code)
                            == optype_sequence@[t]),
                decreases optype_sequence@.len() - j,
            {
                let c = self.ops[i + j].category();
                if !(c == optype_sequence[j]) {
                    ok = false;
                }
                j = j + 1;
            }
            if ok {
                r.push(i);
                proof {
                    assert(matches_at(self.ops@, optype_sequence@, i as int));
                    assert(match_indices_from(self.ops@, optype_sequence@, i as int) == seq![
                        i as int,
                    ] + match_indices_from(self.ops@, optype_sequence@, i + 1));
                    assert(r@.map_values(|u: usize| u as int) =~= r0.push(i as int));
                    assert(r0.push(i as int) + match_indices_from(
                        self.ops@,
                        optype_sequence@,
                        i + 1,
                    ) =~= r0 + (seq![i as int] + match_indices_from(
                        self.ops@,
                        optype_sequence@,
                        i + 1,
                    )));
                }
            } else {
                proof {
                    assert(!matches_at(self.ops@, optype_sequence@, i as int));
                    assert(match_indices_from(self.ops@, optype_sequence@, i as int)
                        == match_indices_from(self.ops@, optype_sequence@, i + 1));
                }
            }
            i = i + 1;
        }
        proof {
            assert(match_indices_from(self.ops@, optype_sequence@, i as int) =~= Seq::<
                int,
            >::empty());
            assert(r@.map_values(|u: usize| u as int) + Seq::<int>::empty() =~= r@.map_values(
                |u: usize| u as int,
            ));
        }
        r
    }
}

/// Copy the edges of `src` onto the end of `dst`.
fn append_edges(dst: &mut Vec<(Word, Word)>, src: &Vec<(Word, Word)>)
    ensures
        final(dst)@ == old(dst)@ + src@,
{
    let mut i: usize = 0;
    proof {
        assert(dst@ =~= old(dst)@ + src@.subrange(0, 0));
    }
    while i < src.len()
        invariant
            i <= src@.len(),
            dst@ == old(dst)@ + src@.subrange(0, i as int),
        decreases src@.len() - i,
    {
        dst.push(src[i]);
        proof {
            assert(dst@ =~= old(dst)@ + src@.subrange(0, i + 1));
        }
        i = i + 1;
    }
    proof {
        assert(src@.subrange(0, src@.len() as int) =~= src@);
    }
}


impl Program {
    /// Scan each block for the first `[push, jump]` and `[push, jumpi]` run
    /// and append the edges they announce: all absolute-jump edges first,
    /// then all conditional taken edges, then all fall-through edges.
    pub fn gen_concrete_edges(&mut self)
        requires
            old(self).wf(),
        ensures
            final(self).wf(),
            final(self).code == old(self).code,
            final(self).blocks == old(self).blocks,
            final(self).start_addresses == old(self).start_addresses,
            edge_vals(final(self).edges@) == edge_vals(old(self).edges@) + abs_edges_spec(
                old(self).block_models(),
                old(self).code@,
            ) + cond_true_edges_spec(old(self).block_models(), old(self).code@)
                + cond_false_edges_spec(old(self).block_models(), old(self).code@),
    {
        proof {
            lemma_program_blocks_wf(&*self);
        }
        let ghost models = self.block_models();
        let ghost codev = self.code@;
        let pattern_abs_jumps: Vec<OpType> = vec![OpType::Push, OpType::Jump];
        let pattern_cond_jumps: Vec<OpType> = vec![OpType::Push, OpType::JumpI];
        proof {
            assert(pattern_abs_jumps@ =~= push_jump_pattern());
            assert(pattern_cond_jumps@ =~= push_jumpi_pattern());
        }
        let mut abs_jump_edges: Vec<(Word, Word)> = Vec::new();
        let mut bi: usize = 0;
        proof {
            assert(models.subrange(0, 0) =~= Seq::<BlockModel>::empty());
            assert(edge_vals(abs_jump_edges@) =~= abs_edges_spec(models.subrange(0, 0), codev));
        }
        while bi < self.blocks.len()
            invariant
                bi <= self.blocks@.len(),
                self.wf(),
                models == self.block_models(),
                codev == self.code@,
                pattern_abs_jumps@ == push_jump_pattern(),
                forall|i: int|
                    0 <= i < self.blocks@.len() ==> block_model_wf(
                        (#[trigger] self.blocks@[i])@,
                        self.code@,
                    ),
                edge_vals(abs_jump_edges@) == abs_edges_spec(
                    models.subrange(0, bi as int),
                    codev,
                ),
            decreases self.blocks@.len() - bi,
        {
            let ghost prev = edge_vals(abs_jump_edges@);
            let matches = self.blocks[bi].get_matching_op_sequences(&pattern_abs_jumps);
            proof {
                assert(models[bi as int] == self.blocks@[bi as int]@);
                lemma_match_indices_props(self.blocks@[bi as int]@.ops, push_jump_pattern(), 0);
            }
            if matches.len() > 0 {
                let mi = matches[0];
                proof {
                    assert(matches@.map_values(|u: usize| u as int)[0] == mi as int);
                    assert(matches_at(self.blocks@[bi as int]@.ops, push_jump_pattern(), mi as int));
                }
                let push_op_pc = self.blocks[bi].ops[mi].pc.unwrap();
                let push_arg = self.blocks[bi].ops[mi].arg_size;
                let target = Word::from_be_bytes(&self.code, push_op_pc + 1, push_arg as usize);
                let src = self.blocks[bi].id();
                abs_jump_edges.push((src, target));
                proof {
                    assert(edge_vals(abs_jump_edges@) =~= prev.push(
                        (src.value(), target.value()),
                    ));
                }
            }
            proof {
                assert(models.subrange(0, bi + 1).drop_last() =~= models.subrange(0, bi as int));
                assert(models.subrange(0, bi + 1).last() == models[bi as int]);
                assert(edge_vals(abs_jump_edges@) =~= abs_edges_spec(
                    models.subrange(0, bi + 1),
                    codev,
                ));
            }
            bi = bi + 1;
        }
        let mut cond_jump_true_edges: Vec<(Word, Word)> = Vec::new();
        let mut cond_jump_false_edges: Vec<(Word, Word)> = Vec::new();
        let mut ci: usize = 0;
        proof {
            assert(models.subrange(0, 0) =~= Seq::<BlockModel>::empty());
            assert(edge_vals(cond_jump_true_edges@) =~= cond_true_edges_spec(
                models.subrange(0, 0),
                codev,
            ));
            assert(edge_vals(cond_jump_false_edges@) =~= cond_false_edges_spec(
                models.subrange(0, 0),
                codev,
            ));
        }
        while ci < self.blocks.len()
            invariant
                ci <= self.blocks@.len(),
                self.wf(),
                models == self.block_models(),
                codev == self.code@,
                pattern_cond_jumps@ == push_jumpi_pattern(),
                forall|i: int|
                    0 <= i < self.blocks@.len() ==> block_model_wf(
                        (#[trigger] self.blocks@[i])@,
                        self.code@,
                    ),
                edge_vals(cond_jump_true_edges@) == cond_true_edges_spec(
                    models.subrange(0, ci as int),
                    codev,
                ),
                edge_vals(cond_jump_false_edges@) == cond_false_edges_spec(
                    models.subrange(0, ci as int),
                    codev,
                ),
            decreases self.blocks@.len() - ci,
        {
            let ghost prev_t = edge_vals(cond_jump_true_edges@);
            let ghost prev_f = edge_vals(cond_jump_false_edges@);
            let matches = self.blocks[ci].get_matching_op_sequences(&pattern_cond_jumps);
            proof {
                assert(models[ci as int] == self.blocks@[ci as int]@);
                lemma_match_indices_props(self.blocks@[ci as int]@.ops, push_jumpi_pattern(), 0);
            }
            if matches.len() > 0 {
                let mi = matches[0];
                proof {
                    assert(matches@.map_values(|u: usize| u as int)[0] == mi as int);
                    assert(matches_at(
                        self.blocks@[ci as int]@.ops,
                        push_jumpi_pattern(),
                        mi as int,
                    ));
                }
                let push_op_pc = self.blocks[ci].ops[mi].pc.unwrap();
                let push_arg = self.blocks[ci].ops[mi].arg_size;
                let target = Word::from_be_bytes(&self.code, push_op_pc + 1, push_arg as usize);
                let src = self.blocks[ci].id();
                let fall = Word::from_u64((self.blocks[ci].pc_end + 1) as u64);
                cond_jump_true_edges.push((src, target));
                cond_jump_false_edges.push((src, fall));
                proof {
                    assert(edge_vals(cond_jump_true_edges@) =~= prev_t.push(
                        (src.value(), target.value()),
                    ));
                    assert(edge_vals(cond_jump_false_edges@) =~= prev_f.push(
                        (src.value(), fall.value()),
                    ));
                }
            }
            proof {
                assert(models.subrange(0, ci + 1).drop_last() =~= models.subrange(0, ci as int));
                assert(models.subrange(0, ci + 1).last() == models[ci as int]);
                assert(edge_vals(cond_jump_true_edges@) =~= cond_true_edges_spec(
                    models.subrange(0, ci + 1),
                    codev,
                ));
                assert(edge_vals(cond_jump_false_edges@) =~= cond_false_edges_spec(
                    models.subrange(0, ci + 1),
                    codev,
                ));
            }
            ci = ci + 1;
        }
        proof {
            assert(models.subrange(0, models.len() as int) =~= models);
        }
        let ghost edges0 = self.edges@;
        append_edges(&mut self.edges, &abs_jump_edges);
        append_edges(&mut self.edges, &cond_jump_true_edges);
        append_edges(&mut self.edges, &cond_jump_false_edges);
        proof {
            assert(edge_vals(self.edges@) =~= edge_vals(edges0) + edge_vals(abs_jump_edges@)
                + edge_vals(cond_jump_true_edges@) + edge_vals(cond_jump_false_edges@));
        }
    }
}


/// Whether a block's last two instructions fall under the two categories.
pub open spec fn ends_with_categories(bm: BlockModel, second_last: OpType, last: OpType) -> bool {
    &&& bm.ops.len() >= 2
    &&& category_spec(bm.ops[bm.ops.len() - 2].code) == second_last
    &&& category_spec(bm.ops[bm.ops.len() - 1].code) == last
}

proof fn lemma_first_match_at_end(bm: BlockModel, code: Seq<u8>, pat: Seq<OpType>)
    requires
        block_model_wf(bm, code),
        pat == push_jump_pattern() || pat == push_jumpi_pattern(),
        first_push_of(bm, pat) is Some,
    ensures
        bm.ops.len() >= 2,
        first_push_of(bm, pat)->0 == bm.ops[bm.ops.len() - 2],
        category_spec(bm.ops[bm.ops.len() - 2].code) == OpType::Push,
        category_spec(bm.ops[bm.ops.len() - 1].code) == pat[1],
        !bm.ops[bm.ops.len() - 2].is_invalid,
{
    let ms = match_indices_from(bm.ops, pat, 0);
    lemma_match_indices_props(bm.ops, pat, 0);
    let m0 = ms[0];
    assert(matches_at(bm.ops, pat, m0));
    assert(category_spec(bm.ops[m0].code) == pat[0]) by {
        assert(pat[0] == OpType::Push);
    }
    assert(category_spec(bm.ops[m0 + 1].code) == pat[1]);
    let endb = bm.ops[m0 + 1].code;
    assert(endb == JUMP || endb == JUMPI);
    assert(is_block_end_spec(endb));
    if m0 + 1 < bm.ops.len() - 1 {
        assert(!is_block_end_spec(bm.ops[m0 + 1].code));
        assert(false);
    }
    assert(m0 == bm.ops.len() - 2);
}

/// Every absolute edge of the concrete resolver comes from a block that
/// ends with a push and an unconditional jump, and its destination is the
/// big-endian value of the push immediate.
#[verifier::spinoff_prover]
pub proof fn lemma_abs_edge_at(bs: Seq<BlockModel>, code: Seq<u8>, j: int)
    requires
        forall|i: int| 0 <= i < bs.len() ==> block_model_wf(#[trigger] bs[i], code),
        0 <= j < abs_edges_spec(bs, code).len(),
    ensures
        exists|i: int|
            0 <= i < bs.len() && ends_with_categories(#[trigger] bs[i], OpType::Push, OpType::Jump)
                && abs_edges_spec(bs, code)[j] == (
            bs[i].pc_start as nat,
            push_target(bs[i].ops[bs[i].ops.len() - 2], code),
        ),
    decreases bs.len(),
{
    let head = bs.drop_last();
    let pre = abs_edges_spec(head, code);
    if j < pre.len() {
        lemma_abs_edge_at(head, code, j);
        let i = choose|i: int|
            0 <= i < head.len() && ends_with_categories(#[trigger] head[i], OpType::Push, OpType::Jump)
                && pre[j] == (
            head[i].pc_start as nat,
            push_target(head[i].ops[head[i].ops.len() - 2], code),
        );
        assert(bs[i] == head[i]);
        assert(abs_edges_spec(bs, code)[j] == pre[j]);
    } else {
        let lastb = bs[bs.len() - 1];
        assert(first_push_of(lastb, push_jump_pattern()) is Some);
        lemma_first_match_at_end(lastb, code, push_jump_pattern());
        assert(abs_edges_spec(bs, code)[j] == (
            lastb.pc_start as nat,
            push_target(lastb.ops[lastb.ops.len() - 2], code),
        ));
        assert(0 <= bs.len() - 1 < bs.len() && ends_with_categories(
            bs[bs.len() - 1],
            OpType::Push,
            OpType::Jump,
        ));
    }
}

/// Every taken conditional edge comes from a block that ends with a push
/// and a conditional jump, and its destination is the big-endian value of
/// the push immediate.
#[verifier::spinoff_prover]
pub proof fn lemma_cond_true_edge_at(bs: Seq<BlockModel>, code: Seq<u8>, j: int)
    requires
        forall|i: int| 0 <= i < bs.len() ==> block_model_wf(#[trigger] bs[i], code),
        0 <= j < cond_true_edges_spec(bs, code).len(),
    ensures
        exists|i: int|
            0 <= i < bs.len() && ends_with_categories(#[trigger] bs[i], OpType::Push, OpType::JumpI)
                && cond_true_edges_spec(bs, code)[j] == (
            bs[i].pc_start as nat,
            push_target(bs[i].ops[bs[i].ops.len() - 2], code),
        ),
    decreases bs.len(),
{
    let head = bs.drop_last();
    let pre = cond_true_edges_spec(head, code);
    if j < pre.len() {
        lemma_cond_true_edge_at(head, code, j);
        let i = choose|i: int|
            0 <= i < head.len() && ends_with_categories(
                #[trigger] head[i],
                OpType::Push,
                OpType::JumpI,
            ) && pre[j] == (
            head[i].pc_start as nat,
            push_target(head[i].ops[head[i].ops.len() - 2], code),
        );
        assert(bs[i] == head[i]);
        assert(cond_true_edges_spec(bs, code)[j] == pre[j]);
    } else {
        let lastb = bs[bs.len() - 1];
        assert(first_push_of(lastb, push_jumpi_pattern()) is Some);
        lemma_first_match_at_end(lastb, code, push_jumpi_pattern());
        assert(0 <= bs.len() - 1 < bs.len() && ends_with_categories(
            bs[bs.len() - 1],
            OpType::Push,
            OpType::JumpI,
        ));
    }
}

/// Every fall-through edge comes from a block that ends with a push and a
/// conditional jump, and its destination is the byte after the block.
#[verifier::spinoff_prover]
pub proof fn lemma_cond_false_edge_at(bs: Seq<BlockModel>, code: Seq<u8>, j: int)
    requires
        forall|i: int| 0 <= i < bs.len() ==> block_model_wf(#[trigger] bs[i], code),
        0 <= j < cond_false_edges_spec(bs, code).len(),
    ensures
        exists|i: int|
            0 <= i < bs.len() && ends_with_categories(#[trigger] bs[i], OpType::Push, OpType::JumpI)
                && cond_false_edges_spec(bs, code)[j] == (
            bs[i].pc_start as nat,
            (bs[i].pc_end + 1) as nat,
        ),
    decreases bs.len(),
{
    let head = bs.drop_last();
    let pre = cond_false_edges_spec(head, code);
    if j < pre.len() {
        lemma_cond_false_edge_at(head, code, j);
        let i = choose|i: int|
            0 <= i < head.len() && ends_with_categories(
                #[trigger] head[i],
                OpType::Push,
                OpType::JumpI,
            ) && pre[j] == (head[i].pc_start as nat, (head[i].pc_end + 1) as nat);
        assert(bs[i] == head[i]);
        assert(cond_false_edges_spec(bs, code)[j] == pre[j]);
    } else {
        let lastb = bs[bs.len() - 1];
        assert(first_push_of(lastb, push_jumpi_pattern()) is Some);
        lemma_first_match_at_end(lastb, code, push_jumpi_pattern());
        assert(0 <= bs.len() - 1 < bs.len() && ends_with_categories(
            bs[bs.len() - 1],
            OpType::Push,
            OpType::JumpI,
        ));
    }
}


impl Block {
    /// Run the first `num_codes` instructions of this block against the
    /// given stack and hand the stack back.
    pub fn exec_symbolic(
        &mut self,
        stack: SymbolicStack,
        code: &Vec<u8>,
        num_codes: usize,
    ) -> (r: SymbolicStack)
        requires
            stack.wf(),
            num_codes <= old(self).ops@.len(),
            crate::stack::exec_ops_model(stack@, old(self).ops@, code@, num_codes as int)
                is Some,
        ensures
            *final(self) == *old(self),
            Some(r@) == crate::stack::exec_ops_model(
                stack@,
                old(self).ops@,
                code@,
                num_codes as int,
            ),
            r.wf(),
    {
        let ghost s0 = stack@;
        let mut s = stack;
        let mut k: usize = 0;
        while k < num_codes
            invariant
                k <= num_codes,
                num_codes <= self.ops@.len(),
                *self == *old(self),
                crate::stack::exec_ops_model(s0, self.ops@, code@, num_codes as int) is Some,
                Some(s@) == crate::stack::exec_ops_model(s0, self.ops@, code@, k as int),
                s.wf(),
            decreases num_codes - k,
        {
            proof {
                if crate::stack::exec_ops_model(s0, self.ops@, code@, k + 1) is None {
                    crate::program::lemma_exec_ops_some_prefix(
                        s0,
                        self.ops@,
                        code@,
                        k + 1,
                        num_codes as int,
                    );
                }
            }
            s.execute(&self.ops[k], code);
            k = k + 1;
        }
        s
    }
}

/// When a run of instructions succeeds, so does every shorter run.
pub proof fn lemma_exec_ops_some_prefix(
    s: Seq<crate::stack::CellView>,
    ops: Seq<Operation>,
    code: Seq<u8>,
    k: int,
    m: int,
)
    requires
        0 <= k <= m,
        crate::stack::exec_ops_model(s, ops, code, k) is None,
    ensures
        crate::stack::exec_ops_model(s, ops, code, m) is None,
    decreases m - k,
{
    if k < m {
        lemma_exec_ops_some_prefix(s, ops, code, k + 1, m);
    }
}

} // verus!
