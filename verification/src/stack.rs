//! The symbolic operand stack: a bounded stack of cells that are either a
//! concrete 32-byte value, a defined-but-untracked value, or not live at all.
//!
//! The interpreter executes only the operand-producing subset of the
//! instruction set (push, pop, swap, dup, bytewise and); everything else
//! merely shifts the depth by the coarse catalog counts.  Removals that would
//! reach below the live region are clamped, and the missing cells read as
//! untracked, so execution never underflows.

use vstd::prelude::*;

use crate::op::{category_spec, OpType, Operation};

verus! {

/// The greatest number of live cells the stack may hold.
pub const MAX_STACK_DEPTH: usize = 1024;

/// The mathematical content of one stack cell.
pub enum CellView {
    Data(Seq<u8>),
    Unknown,
    Uninit,
}

/// A sequence of `n` zero bytes.
pub open spec fn zero_bytes(n: nat) -> Seq<u8> {
    Seq::new(n, |i: int| 0u8)
}

/// A byte string widened to 32 bytes by zero bytes on the left.
pub open spec fn pad32(s: Seq<u8>) -> Seq<u8> {
    zero_bytes((32 - s.len()) as nat) + s
}

/// The bytewise AND of two byte strings of equal length.
pub open spec fn and_bytes(a: Seq<u8>, b: Seq<u8>) -> Seq<u8> {
    Seq::new(a.len(), |i: int| a[i] & b[i])
}

/// Bytewise AND does not care about the order of its operands.
pub proof fn lemma_and_bytes_comm(a: Seq<u8>, b: Seq<u8>)
    requires
        a.len() == b.len(),
    ensures
        and_bytes(a, b) == and_bytes(b, a),
{
    assert forall|i: int| 0 <= i < a.len() implies and_bytes(a, b)[i] == and_bytes(b, a)[i] by {
        let x = a[i];
        let y = b[i];
        assert(x & y == y & x) by (bit_vector);
    }
    assert(and_bytes(a, b) =~= and_bytes(b, a));
}

/// A well-formed cell content: a concrete value is exactly 32 bytes wide.
pub open spec fn cell_wf(c: CellView) -> bool {
    c is Data ==> c->Data_0.len() == 32
}

/// One symbolic cell as held by the stack.
#[derive(Debug)]
pub enum SymbolicStackValue {
    Data(Vec<u8>),
    Unknown,
    Uninitialized,
}

impl View for SymbolicStackValue {
    type V = CellView;

    open spec fn view(&self) -> CellView {
        match self {
            SymbolicStackValue::Data(d) => CellView::Data(d@),
            SymbolicStackValue::Unknown => CellView::Unknown,
            SymbolicStackValue::Uninitialized => CellView::Uninit,
        }
    }
}

/// Copy a byte vector.
fn copy_bytes(v: &Vec<u8>) -> (r: Vec<u8>)
    ensures
        r@ == v@,
{
    let mut r: Vec<u8> = Vec::new();
    let mut i: usize = 0;
    while i < v.len()
        invariant
            i <= v.len(),
            r@ == v@.subrange(0, i as int),
        decreases v.len() - i,
    {
        r.push(v[i]);
        proof {
            assert(r@ =~= v@.subrange(0, i + 1));
        }
        i = i + 1;
    }
    proof {
        assert(r@ =~= v@);
    }
    r
}

/// Whether a slot holds a live cell.
fn is_live(f: &SymbolicStackFrame) -> (r: bool)
    ensures
        r == !(f@ is Uninit),
{
    match &f.contents {
        SymbolicStackValue::Uninitialized => false,
        _ => true,
    }
}

/// Copy a cell.
fn copy_value(v: &SymbolicStackValue) -> (r: SymbolicStackValue)
    ensures
        r@ == v@,
{
    match v {
        SymbolicStackValue::Data(d) => SymbolicStackValue::Data(copy_bytes(d)),
        SymbolicStackValue::Unknown => SymbolicStackValue::Unknown,
        SymbolicStackValue::Uninitialized => SymbolicStackValue::Uninitialized,
    }
}

impl SymbolicStackValue {
    /// The concrete bytes of the cell, when it carries any.
    pub fn inner(&self) -> (r: Option<&Vec<u8>>)
        ensures
            r is Some <==> self@ is Data,
            r is Some ==> r->0@ == self@->Data_0,
    {
        if let SymbolicStackValue::Data(dat) = self {
            Some(dat)
        } else {
            None
        }
    }
}

/// One slot of the stack.
#[derive(Debug)]
pub struct SymbolicStackFrame {
    contents: SymbolicStackValue,
}

impl View for SymbolicStackFrame {
    type V = CellView;

    closed spec fn view(&self) -> CellView {
        self.contents@
    }
}

impl SymbolicStackFrame {
    /// A slot that is not live.
    pub fn new() -> (f: SymbolicStackFrame)
        ensures
            f@ == CellView::Uninit,
    {
        SymbolicStackFrame { contents: SymbolicStackValue::Uninitialized }
    }

    /// A live slot whose value is not tracked.
    pub fn new_with_unknown_val() -> (f: SymbolicStackFrame)
        ensures
            f@ == CellView::Unknown,
    {
        SymbolicStackFrame { contents: SymbolicStackValue::Unknown }
    }

    /// The contents, copied out.
    pub fn peek(&self) -> (v: SymbolicStackValue)
        ensures
            v@ == self@,
    {
        copy_value(&self.contents)
    }

    /// The contents, borrowed.
    pub fn inner(&self) -> (v: &SymbolicStackValue)
        ensures
            v@ == self@,
    {
        &self.contents
    }

    /// Make the slot carry `val`, widened to 32 bytes by zeros on the left.
    pub fn write(&mut self, val: &Vec<u8>)
        requires
            val@.len() <= 32,
        ensures
            final(self)@ == CellView::Data(pad32(val@)),
    {
        let pad: usize = 32 - val.len();
        let mut data: Vec<u8> = Vec::new();
        let mut i: usize = 0;
        while i < pad
            invariant
                i <= pad,
                data@ == zero_bytes(i as nat),
            decreases pad - i,
        {
            data.push(0u8);
            proof {
                assert(data@ =~= zero_bytes((i + 1) as nat));
            }
            i = i + 1;
        }
        let mut j: usize = 0;
        while j < val.len()
            invariant
                j <= val@.len(),
                val@.len() + data@.len() == 32 + j,
                data@ == zero_bytes((32 - val@.len()) as nat) + val@.subrange(0, j as int),
            decreases val.len() - j,
        {
            data.push(val[j]);
            proof {
                assert(data@ =~= zero_bytes((32 - val@.len()) as nat) + val@.subrange(
                    0,
                    j + 1,
                ));
            }
            j = j + 1;
        }
        proof {
            assert(val@.subrange(0, val@.len() as int) =~= val@);
        }
        self.contents = SymbolicStackValue::Data(data);
    }
}

/// The index at which the first non-live slot of a cell sequence sits,
/// scanning from the bottom.
pub open spec fn live_len(s: Seq<CellView>, i: int) -> int
    decreases s.len() - i when 0 <= i <= s.len()
{
    if i >= s.len() || s[i] is Uninit {
        i
    } else {
        live_len(s, i + 1)
    }
}

/// The live slots of a snapshot: everything below the first non-live slot.
pub open spec fn live_prefix(s: Seq<CellView>) -> Seq<CellView> {
    s.subrange(0, live_len(s, 0))
}

pub proof fn lemma_live_len_range(s: Seq<CellView>, i: int)
    requires
        0 <= i <= s.len(),
    ensures
        i <= live_len(s, i) <= s.len(),
        forall|j: int| i <= j < live_len(s, i) ==> !(s[j] is Uninit),
        live_len(s, i) < s.len() ==> s[live_len(s, i)] is Uninit,
    decreases s.len() - i,
{
    if !(i >= s.len() || s[i] is Uninit) {
        lemma_live_len_range(s, i + 1);
    }
}

/// When no slot below `k` is non-live and slot `k` (if any) is non-live,
/// the scan stops exactly at `k`.
pub proof fn lemma_live_len_exact(s: Seq<CellView>, i: int, k: int)
    requires
        0 <= i <= k <= s.len(),
        forall|j: int| i <= j < k ==> !(s[j] is Uninit),
        k < s.len() ==> s[k] is Uninit,
    ensures
        live_len(s, i) == k,
    decreases s.len() - i,
{
    if i < k {
        lemma_live_len_exact(s, i + 1, k);
    }
}

/// The operand stack: the live cells, bottom first.
#[derive(Debug)]
pub struct SymbolicStack {
    frames: Vec<SymbolicStackFrame>,
}

/// A snapshot of a stack: the live slots up to and including the first
/// non-live slot, together with the logical depth.
#[derive(Debug)]
pub struct SymbolicStackCapture {
    pub frame_count: usize,
    pub pc: usize,
    pub vals: Vec<SymbolicStackFrame>,
}

impl View for SymbolicStack {
    type V = Seq<CellView>;

    closed spec fn view(&self) -> Seq<CellView> {
        Seq::new(self.frames@.len(), |i: int| self.frames@[i]@)
    }
}

impl SymbolicStack {
    /// Every live cell is live indeed, well formed, and the depth is bounded.
    pub open spec fn wf(&self) -> bool {
        &&& self@.len() <= MAX_STACK_DEPTH
        &&& forall|i: int| 0 <= i < self@.len() ==> !(#[trigger] self@[i] is Uninit)
        &&& forall|i: int| 0 <= i < self@.len() ==> cell_wf(#[trigger] self@[i])
    }

    /// The empty stack.
    pub fn new() -> (s: SymbolicStack)
        ensures
            s@ == Seq::<CellView>::empty(),
            s.wf(),
    {
        let s = SymbolicStack { frames: Vec::new() };
        proof {
            assert(s@ =~= Seq::<CellView>::empty());
        }
        s
    }

    /// The top cell, or a non-live marker when the stack is empty.
    pub fn peek(&self) -> (v: SymbolicStackValue)
        ensures
            self@.len() > 0 ==> v@ == self@.last(),
            self@.len() == 0 ==> v@ == CellView::Uninit,
    {
        if self.frames.len() == 0 {
            SymbolicStackValue::Uninitialized
        } else {
            self.frames[self.frames.len() - 1].peek()
        }
    }

    /// Remove and return the top slot.
    pub fn pop(&mut self) -> (f: SymbolicStackFrame)
        requires
            old(self)@.len() > 0,
        ensures
            final(self)@ == old(self)@.drop_last(),
            f@ == old(self)@.last(),
            old(self).wf() ==> final(self).wf(),
    {
        let f = self.frames.pop().unwrap();
        proof {
            assert(self@ =~= old(self)@.drop_last());
        }
        f
    }

    /// Add a cell on top: a concrete value widened to 32 bytes, or an
    /// untracked one.
    pub fn push(&mut self, val: Option<&Vec<u8>>)
        requires
            old(self)@.len() < MAX_STACK_DEPTH,
            val is Some ==> val->0@.len() <= 32,
        ensures
            final(self)@ == old(self)@.push(
                match val {
                    Some(v) => CellView::Data(pad32(v@)),
                    None => CellView::Unknown,
                },
            ),
            old(self).wf() ==> final(self).wf(),
    {
        let frame = match val {
            Some(v) => {
                let mut f = SymbolicStackFrame::new();
                f.write(v);
                f
            },
            None => SymbolicStackFrame::new_with_unknown_val(),
        };
        self.frames.push(frame);
        proof {
            assert(self@ =~= old(self)@.push(
                match val {
                    Some(v) => CellView::Data(pad32(v@)),
                    None => CellView::Unknown,
                },
            ));
        }
    }

    /// Snapshot the stack: the live cells, one non-live slot on top of them,
    /// and the logical depth.
    pub fn capture(&self) -> (c: SymbolicStackCapture)
        requires
            self@.len() <= MAX_STACK_DEPTH,
        ensures
            c.vals@.len() == self@.len() + 1,
            forall|i: int| 0 <= i < self@.len() ==> c.vals@[i]@ == self@[i],
            c.vals@.last()@ == CellView::Uninit,
            c.pc == self@.len(),
            c.frame_count == self@.len() + 1,
    {
        let mut vals: Vec<SymbolicStackFrame> = Vec::new();
        let mut i: usize = 0;
        while i < self.frames.len()
            invariant
                i <= self.frames@.len(),
                vals@.len() == i,
                forall|j: int| 0 <= j < i ==> vals@[j]@ == self@[j],
            decreases self.frames@.len() - i,
        {
            let f = SymbolicStackFrame { contents: copy_value(&self.frames[i].contents) };
            vals.push(f);
            i = i + 1;
        }
        vals.push(SymbolicStackFrame::new());
        SymbolicStackCapture { frame_count: i + 1, pc: i, vals }
    }

    /// Rebuild a stack from a snapshot: the slots below the first non-live
    /// one become the live cells; everything above is cleared.
    pub fn from_capture(c: &SymbolicStackCapture) -> (s: SymbolicStack)
        requires
            live_len(c.vals@.map_values(|f: SymbolicStackFrame| f@), 0) <= MAX_STACK_DEPTH,
        ensures
            s@ == live_prefix(c.vals@.map_values(|f: SymbolicStackFrame| f@)),
    {
        let ghost m = c.vals@.map_values(|f: SymbolicStackFrame| f@);
        let mut frames: Vec<SymbolicStackFrame> = Vec::new();
        let mut i: usize = 0;
        while i < c.vals.len() && is_live(&c.vals[i])
            invariant
                i <= c.vals@.len(),
                m == c.vals@.map_values(|f: SymbolicStackFrame| f@),
                frames@.len() == i,
                forall|j: int| 0 <= j < i ==> frames@[j]@ == m[j],
                forall|j: int| 0 <= j < i ==> !(m[j] is Uninit),
                live_len(m, 0) <= MAX_STACK_DEPTH,
            decreases c.vals@.len() - i,
        {
            proof {
                lemma_live_len_range(m, 0);
                if i >= live_len(m, 0) {
                    assert(!(m[live_len(m, 0)] is Uninit));
                    assert(false);
                }
            }
            let f = SymbolicStackFrame { contents: copy_value(&c.vals[i].contents) };
            frames.push(f);
            i = i + 1;
        }
        proof {
            lemma_live_len_exact(m, 0, i as int);
        }
        let s = SymbolicStack { frames };
        proof {
            assert(s@ =~= live_prefix(m));
        }
        s
    }
}

/// A sequence of `n` untracked cells.
pub open spec fn unknown_cells(n: nat) -> Seq<CellView> {
    Seq::new(n, |i: int| CellView::Unknown)
}

/// What one instruction makes of the cell sequence.  `None` stands for the
/// fatal cases: a cell pushed at full depth, or a push immediate that lies
/// outside the code.  Removals beyond the live region are clamped and the
/// missing cells read as non-live.
pub open spec fn exec_op_model(s: Seq<CellView>, op: Operation, code: Seq<u8>) -> Option<
    Seq<CellView>,
> {
    let cat = category_spec(op.code);
    let len = s.len() as int;
    if cat == OpType::And {
        let a = if len >= 1 {
            s[len - 1]
        } else {
            CellView::Uninit
        };
        let b = if len >= 2 {
            s[len - 2]
        } else {
            CellView::Uninit
        };
        let rest = if len >= 2 {
            s.subrange(0, len - 2)
        } else {
            Seq::empty()
        };
        if a is Data && b is Data {
            Some(rest.push(CellView::Data(and_bytes(a->Data_0, b->Data_0))))
        } else {
            Some(rest.push(CellView::Data(zero_bytes(32))))
        }
    } else if cat == OpType::Pop {
        if len > 0 {
            Some(s.drop_last())
        } else {
            Some(s)
        }
    } else if cat == OpType::Push {
        if op.pc is Some && op.arg_size <= 32 && op.pc->0 + 1 + op.arg_size <= code.len() {
            if len < MAX_STACK_DEPTH {
                Some(
                    s.push(
                        CellView::Data(
                            pad32(
                                code.subrange(
                                    op.pc->0 + 1,
                                    op.pc->0 + 1 + op.arg_size,
                                ),
                            ),
                        ),
                    ),
                )
            } else {
                None
            }
        } else {
            None
        }
    } else if cat == OpType::Dup {
        if len < MAX_STACK_DEPTH {
            let n = op.rm_stack_count as int;
            let target = if 1 <= n && n <= len {
                s[len - n]
            } else {
                CellView::Uninit
            };
            if target is Data {
                Some(s.push(target))
            } else {
                Some(s.push(CellView::Unknown))
            }
        } else {
            None
        }
    } else if cat == OpType::Swap {
        let n = op.rm_stack_count as int;
        if 1 <= n && len >= n + 1 {
            Some(s.update(len - 1, s[len - 1 - n]).update(len - 1 - n, s[len - 1]))
        } else if len >= 1 {
            Some(s.update(len - 1, CellView::Unknown))
        } else {
            Some(s)
        }
    } else {
        let k = if op.rm_stack_count as int <= len {
            op.rm_stack_count as int
        } else {
            len
        };
        let rest = s.subrange(0, len - k);
        if rest.len() + op.add_stack_count <= MAX_STACK_DEPTH {
            Some(rest + unknown_cells(op.add_stack_count as nat))
        } else {
            None
        }
    }
}

/// What a run of the first `n` instructions of `ops` makes of a cell
/// sequence, instruction by instruction.
pub open spec fn exec_ops_model(
    s: Seq<CellView>,
    ops: Seq<Operation>,
    code: Seq<u8>,
    n: int,
) -> Option<Seq<CellView>>
    decreases n,
{
    if n <= 0 {
        Some(s)
    } else {
        match exec_ops_model(s, ops, code, n - 1) {
            Some(t) => exec_op_model(t, ops[n - 1], code),
            None => None,
        }
    }
}

impl SymbolicStack {
    /// Run one instruction against the stack, clamping removals.  The result
    /// tells whether the instruction could be carried out: it is false
    /// exactly where `exec_op_model` has no answer, and the stack is then
    /// left as it was.
    pub fn execute_checked(&mut self, op: &Operation, code: &Vec<u8>) -> (ok: bool)
        requires
            old(self).wf(),
        ensures
            final(self).wf(),
            ok == (exec_op_model(old(self)@, *op, code@) is Some),
            ok ==> Some(final(self)@) == exec_op_model(old(self)@, *op, code@),
            !ok ==> final(self)@ == old(self)@,
    {
        let ghost s0 = self@;
        let cat = op.category();
        match cat {
            OpType::And => {
                let top = if self.frames.len() > 0 {
                    Some(self.pop())
                } else {
                    None
                };
                let second = if self.frames.len() > 0 {
                    Some(self.pop())
                } else {
                    None
                };
                proof {
                    if s0.len() >= 2 {
                        assert(self@ =~= s0.subrange(0, s0.len() - 2));
                    } else {
                        assert(self@ =~= Seq::<CellView>::empty());
                    }
                }
                let result: Vec<u8> = match (&top, &second) {
                    (Some(t), Some(u)) => {
                        match (t.inner(), u.inner()) {
                            (SymbolicStackValue::Data(x), SymbolicStackValue::Data(y)) => {
                                let mut r: Vec<u8> = Vec::new();
                                let mut i: usize = 0;
                                while i < 32
                                    invariant
                                        i <= 32,
                                        x@.len() == 32,
                                        y@.len() == 32,
                                        r@ == and_bytes(x@, y@).subrange(0, i as int),
                                    decreases 32 - i,
                                {
                                    r.push(x[i] & y[i]);
                                    proof {
                                        assert(r@ =~= and_bytes(x@, y@).subrange(0, i + 1));
                                    }
                                    i = i + 1;
                                }
                                proof {
                                    assert(r@ =~= and_bytes(x@, y@));
                                }
                                r
                            },
                            _ => zero_vec32(),
                        }
                    },
                    _ => zero_vec32(),
                };
                self.push(Some(&result));
                proof {
                    assert(pad32(result@) =~= result@);
                    assert(Some(self@) == exec_op_model(s0, *op, code@));
                }
                true
            },
            OpType::Pop => {
                if self.frames.len() > 0 {
                    self.pop();
                }
                true
            },
            OpType::Push => {
                let pcv = match op.pc {
                    Some(p) => p,
                    None => {
                        return false;
                    },
                };
                let a = op.arg_size as usize;
                if !(a <= 32 && pcv < code.len() && a <= code.len() - 1 - pcv) {
                    return false;
                }
                if self.frames.len() >= MAX_STACK_DEPTH {
                    return false;
                }
                let mut bytes: Vec<u8> = Vec::new();
                let mut k: usize = 0;
                while k < a
                    invariant
                        k <= a,
                        a <= 32,
                        pcv + 1 + a <= code.len(),
                        bytes@ == code@.subrange(pcv + 1, pcv + 1 + k),
                    decreases a - k,
                {
                    bytes.push(code[pcv + 1 + k]);
                    proof {
                        assert(bytes@ =~= code@.subrange(pcv + 1, pcv + 1 + k + 1));
                    }
                    k = k + 1;
                }
                self.push(Some(&bytes));
                true
            },
            OpType::Dup => {
                if self.frames.len() >= MAX_STACK_DEPTH {
                    return false;
                }
                let n = op.rm_stack_count as usize;
                if 1 <= n && n <= self.frames.len() {
                    let idx = self.frames.len() - n;
                    let copied: Option<Vec<u8>> = match self.frames[idx].inner() {
                        SymbolicStackValue::Data(d) => Some(copy_bytes(d)),
                        _ => None,
                    };
                    match &copied {
                        Some(d) => {
                            proof {
                                assert(pad32(d@) =~= d@);
                            }
                            self.push(Some(d));
                        },
                        None => self.push(None),
                    }
                } else {
                    self.push(None);
                }
                true
            },
            OpType::Swap => {
                let n = op.rm_stack_count as usize;
                let len = self.frames.len();
                if 1 <= n && len >= n + 1 {
                    let a = SymbolicStackFrame {
                        contents: copy_value(&self.frames[len - 1].contents),
                    };
                    let b = SymbolicStackFrame {
                        contents: copy_value(&self.frames[len - 1 - n].contents),
                    };
                    self.frames[len - 1] = b;
                    self.frames[len - 1 - n] = a;
                    proof {
                        assert(self@ =~= s0.update(len - 1, s0[len - 1 - n]).update(
                            len - 1 - n,
                            s0[len - 1],
                        ));
                    }
                } else if len >= 1 {
                    self.frames[len - 1] = SymbolicStackFrame::new_with_unknown_val();
                    proof {
                        assert(self@ =~= s0.update(len - 1, CellView::Unknown));
                    }
                }
                true
            },
            _ => {
                let rm = op.rm_stack_count as usize;
                let add = op.add_stack_count as usize;
                let k = if rm <= self.frames.len() {
                    rm
                } else {
                    self.frames.len()
                };
                if self.frames.len() - k > MAX_STACK_DEPTH - add {
                    return false;
                }
                let mut j: usize = 0;
                proof {
                    assert(self@ =~= s0.subrange(0, s0.len() as int));
                }
                while j < k
                    invariant
                        j <= k,
                        k <= s0.len(),
                        self@ == s0.subrange(0, s0.len() - j),
                        self.wf(),
                    decreases k - j,
                {
                    self.pop();
                    proof {
                        assert(self@ =~= s0.subrange(0, s0.len() - j - 1));
                    }
                    j = j + 1;
                }
                let ghost rest = self@;
                let mut t: usize = 0;
                proof {
                    assert(self@ =~= rest + unknown_cells(0));
                }
                while t < add
                    invariant
                        t <= add,
                        rest.len() + add <= MAX_STACK_DEPTH,
                        self@ == rest + unknown_cells(t as nat),
                        self.wf(),
                    decreases add - t,
                {
                    self.push(None);
                    proof {
                        assert(self@ =~= rest + unknown_cells((t + 1) as nat));
                    }
                    t = t + 1;
                }
                true
            },
        }
    }

    /// Run one instruction against the stack.
    pub fn execute(&mut self, op: &Operation, code: &Vec<u8>)
        requires
            old(self).wf(),
            exec_op_model(old(self)@, *op, code@) is Some,
        ensures
            final(self).wf(),
            Some(final(self)@) == exec_op_model(old(self)@, *op, code@),
    {
        let ok = self.execute_checked(op, code);
        proof {
            assert(ok);
        }
    }
}

/// A vector of 32 zero bytes.
fn zero_vec32() -> (r: Vec<u8>)
    ensures
        r@ == zero_bytes(32),
{
    let mut r: Vec<u8> = Vec::new();
    let mut i: usize = 0;
    while i < 32
        invariant
            i <= 32,
            r@ == zero_bytes(i as nat),
        decreases 32 - i,
    {
        r.push(0u8);
        proof {
            assert(r@ =~= zero_bytes((i + 1) as nat));
        }
        i = i + 1;
    }
    r
}

/// How many of the topmost cells an instruction may remove or rewrite:
/// two for the bytewise AND, one for a pop, the exchanged span for a swap,
/// the removal count for the coarse remainder, and none for a push or a
/// dup, which only add.
pub open spec fn op_disturbance(op: Operation) -> int {
    let cat = category_spec(op.code);
    if cat == OpType::And {
        2
    } else if cat == OpType::Pop {
        1
    } else if cat == OpType::Push {
        0
    } else if cat == OpType::Dup {
        0
    } else if cat == OpType::Swap {
        op.rm_stack_count as int + 1
    } else {
        op.rm_stack_count as int
    }
}

/// A cell below an instruction's reach is left exactly as it was.  In
/// particular a concrete jump target pushed early in a block survives a
/// masking run of dup, and, swap and pop instructions above it, which is
/// what lets the traversal recover dispatch edges that no syntactic
/// pattern finds.
pub proof fn lemma_exec_op_preserves_below(s: Seq<CellView>, op: Operation, code: Seq<u8>)
    requires
        exec_op_model(s, op, code) is Some,
    ensures
        forall|i: int|
            0 <= i < s.len() - op_disturbance(op) ==> exec_op_model(s, op, code)->0[i] == s[i],
{
    let cat = category_spec(op.code);
    let len = s.len() as int;
    let r = exec_op_model(s, op, code)->0;
    if cat == OpType::And {
        let rest = if len >= 2 {
            s.subrange(0, len - 2)
        } else {
            Seq::empty()
        };
        assert forall|i: int| 0 <= i < len - 2 implies r[i] == s[i] by {
            assert(rest[i] == s[i]);
        }
    } else if cat == OpType::Swap {
        let n = op.rm_stack_count as int;
        assert forall|i: int| 0 <= i < len - (n + 1) implies r[i] == s[i] by {}
    } else if cat == OpType::Pop || cat == OpType::Push || cat == OpType::Dup {
    } else {
        let k = if op.rm_stack_count as int <= len {
            op.rm_stack_count as int
        } else {
            len
        };
        let rest = s.subrange(0, len - k);
        assert forall|i: int| 0 <= i < len - op.rm_stack_count as int implies r[i] == s[i] by {
            assert(r[i] == rest[i]);
        }
    }
}

/// Restoring a snapshot of a stack gives the stack back: the law that makes
/// snapshots safe to pass along the worklist.
pub proof fn lemma_restore_of_capture(cells: Seq<CellView>)
    requires
        forall|i: int| 0 <= i < cells.len() ==> !(#[trigger] cells[i] is Uninit),
    ensures
        live_prefix(cells.push(CellView::Uninit)) == cells,
{
    let padded = cells.push(CellView::Uninit);
    lemma_live_len_exact(padded, 0, cells.len() as int);
    assert(live_prefix(padded) =~= cells);
}

} // verus!
