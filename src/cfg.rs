//! The control-flow graph of one function, and the effect of a whole block.
use vstd::prelude::*;
use crate::catalog::{Catalog, Effect, lookup};
use crate::domain::{Ownership, apply_transfer, le_state, lemma_transfer_monotone, transfer};

verus! {

/// One operation: a named standard operation applied to one value.
pub struct Operation {
    pub name: String,
    pub operand: usize,
}

#[derive(Clone, Copy, Debug, PartialEq, Eq, Structural)]
pub enum EdgeKind {
    Normal,
    Unwind,
}

#[derive(Clone, Copy, Debug, PartialEq, Eq, Structural)]
pub struct Edge {
    pub target: usize,
    pub kind: EdgeKind,
}

/// The end of a block: an optional call, and the successor edges.
pub struct Terminator {
    pub call: Option<Operation>,
    pub edges: Vec<Edge>,
}

pub struct BasicBlock {
    pub ops: Vec<Operation>,
    pub terminator: Terminator,
}

/// A function body: block 0 is the entry; values are numbered
/// `0..num_values`, and `params` are owned on entry.
pub struct Cfg {
    pub blocks: Vec<BasicBlock>,
    pub num_values: usize,
    pub params: Vec<usize>,
}

/// The effect that the catalog gives an operation.
pub open spec fn op_effect(cat: Seq<(Seq<char>, Effect)>, op: Operation) -> Effect {
    lookup(cat, op.name@)
}

pub open spec fn op_transfer(cat: Seq<(Seq<char>, Effect)>, s: Seq<Ownership>, op: Operation) -> Seq<Ownership> {
    transfer(s, op_effect(cat, op), op.operand as int)
}

/// The state after running `ops` in order from `s`.
pub open spec fn ops_out(cat: Seq<(Seq<char>, Effect)>, ops: Seq<Operation>, s: Seq<Ownership>) -> Seq<Ownership>
    decreases ops.len(),
{
    if ops.len() == 0 {
        s
    } else {
        op_transfer(cat, ops_out(cat, ops.drop_last(), s), ops.last())
    }
}

/// The exit state of a block entered in state `s`: its operations, then its
/// terminator's call.
pub open spec fn block_out(cat: Seq<(Seq<char>, Effect)>, blk: BasicBlock, s: Seq<Ownership>) -> Seq<Ownership> {
    let t = ops_out(cat, blk.ops@, s);
    match blk.terminator.call {
        Some(op) => op_transfer(cat, t, op),
        None => t,
    }
}

/// The block's call catches unwinding, so nothing flows along its unwind edges.
pub open spec fn shielded(cat: Seq<(Seq<char>, Effect)>, blk: BasicBlock) -> bool {
    match blk.terminator.call {
        Some(op) => op_effect(cat, op) == Effect::ConvertsUnwindToNormal,
        None => false,
    }
}

/// Whether the exit state of `blk` flows along edge `e`.
pub open spec fn propagates(cat: Seq<(Seq<char>, Effect)>, blk: BasicBlock, e: Edge) -> bool {
    e.kind == EdgeKind::Normal || !shielded(cat, blk)
}

pub open spec fn op_wf(op: Operation, nv: nat) -> bool {
    op.operand < nv
}

/// Every operand of the block names one of `nv` values.
pub open spec fn block_ops_wf(blk: BasicBlock, nv: nat) -> bool {
    &&& forall|i: int| 0 <= i < blk.ops@.len() ==> op_wf(#[trigger] blk.ops@[i], nv)
    &&& (blk.terminator.call matches Some(op) ==> op_wf(op, nv))
}

/// Operands name values, edges name blocks, and the terminator's index
/// (one past the last operation) is a `usize`.
pub open spec fn block_wf(blk: BasicBlock, nb: nat, nv: nat) -> bool {
    &&& block_ops_wf(blk, nv)
    &&& blk.ops@.len() < usize::MAX
    &&& forall|i: int| 0 <= i < blk.terminator.edges@.len() ==> (#[trigger] blk.terminator.edges@[i]).target < nb
}

impl Cfg {
    /// There is an entry block, every edge leads to a block, and every
    /// operand and parameter names a value.
    pub open spec fn wf(&self) -> bool {
        &&& self.blocks@.len() > 0
        &&& self.blocks@.len() <= usize::MAX
        &&& forall|b: int| 0 <= b < self.blocks@.len() ==> block_wf(#[trigger] self.blocks@[b], self.blocks@.len(), self.num_values as nat)
        &&& forall|i: int| 0 <= i < self.params@.len() ==> #[trigger] self.params@[i] < self.num_values
    }

    /// The state on entry: parameters owned, everything else unknown.
    pub open spec fn init_state(&self) -> Seq<Ownership> {
        Seq::new(self.num_values as nat, |v: int| if self.params@.contains(v as usize) { Ownership::Owned } else { Ownership::Unknown })
    }

    pub fn is_wf(&self) -> (r: bool)
        ensures
            r == self.wf(),
    {
        let nb = self.blocks.len();
        let nv = self.num_values;
        if nb == 0 {
            return false;
        }
        let mut k: usize = 0;
        while k < self.params.len()
            invariant
                nv == self.num_values,
                nb == self.blocks@.len(),
                k <= self.params@.len(),
                forall|i: int| 0 <= i < k ==> #[trigger] self.params@[i] < nv,
            decreases self.params@.len() - k,
        {
            if self.params[k] >= nv {
                assert(!(self.params@[k as int] < nv));
                return false;
            }
            k += 1;
        }
        let mut b: usize = 0;
        while b < nb
            invariant
                nb == self.blocks@.len(),
                nv == self.num_values,
                b <= nb,
                nb > 0,
                forall|i: int| 0 <= i < self.params@.len() ==> #[trigger] self.params@[i] < nv,
                forall|c: int| 0 <= c < b ==> block_wf(#[trigger] self.blocks@[c], nb as nat, nv as nat),
            decreases nb - b,
        {
            let blk = &self.blocks[b];
            if blk.ops.len() == usize::MAX {
                assert(!block_wf(self.blocks@[b as int], nb as nat, nv as nat));
                return false;
            }
            let mut i: usize = 0;
            while i < blk.ops.len()
                invariant
                    nb == self.blocks@.len(),
                    nv == self.num_values,
                    b < nb,
                    *blk == self.blocks@[b as int],
                    blk.ops@.len() < usize::MAX,
                    i <= blk.ops@.len(),
                    forall|j: int| 0 <= j < i ==> op_wf(#[trigger] blk.ops@[j], nv as nat),
                decreases blk.ops@.len() - i,
            {
                if blk.ops[i].operand >= nv {
                    assert(!op_wf(blk.ops@[i as int], nv as nat));
                    assert(!block_wf(self.blocks@[b as int], nb as nat, nv as nat));
                    return false;
                }
                i += 1;
            }
            match &blk.terminator.call {
                Some(op) => {
                    if op.operand >= nv {
                        assert(!block_wf(self.blocks@[b as int], nb as nat, nv as nat));
                        return false;
                    }
                },
                None => {},
            }
            let mut i: usize = 0;
            while i < blk.terminator.edges.len()
                invariant
                    nb == self.blocks@.len(),
                    nv == self.num_values,
                    b < nb,
                    *blk == self.blocks@[b as int],
                    forall|j: int| 0 <= j < blk.ops@.len() ==> op_wf(#[trigger] blk.ops@[j], nv as nat),
                    (blk.terminator.call matches Some(op) ==> op_wf(op, nv as nat)),
                    blk.ops@.len() < usize::MAX,
                    i <= blk.terminator.edges@.len(),
                    forall|j: int| 0 <= j < i ==> (#[trigger] blk.terminator.edges@[j]).target < nb,
                decreases blk.terminator.edges@.len() - i,
            {
                if blk.terminator.edges[i].target >= nb {
                    assert(!(blk.terminator.edges@[i as int].target < nb));
                    assert(!block_wf(self.blocks@[b as int], nb as nat, nv as nat));
                    return false;
                }
                i += 1;
            }
            b += 1;
        }
        true
    }

    /// Builds the entry state.
    pub fn initial_state(&self) -> (r: Vec<Ownership>)
        requires
            self.wf(),
        ensures
            r@ == self.init_state(),
    {
        let mut r: Vec<Ownership> = Vec::new();
        let mut v: usize = 0;
        while v < self.num_values
            invariant
                v <= self.num_values,
                r@.len() == v,
                forall|j: int| 0 <= j < v ==> r@[j] == Ownership::Unknown,
            decreases self.num_values - v,
        {
            r.push(Ownership::Unknown);
            v += 1;
        }
        let mut k: usize = 0;
        while k < self.params.len()
            invariant
                self.wf(),
                k <= self.params@.len(),
                r@.len() == self.num_values,
                forall|j: int| 0 <= j < r@.len() ==> #[trigger] r@[j] == if self.params@.take(k as int).contains(j as usize) {
                    Ownership::Owned
                } else {
                    Ownership::Unknown
                },
            decreases self.params@.len() - k,
        {
            let p = self.params[k];
            assert(p < self.num_values);
            let ghost r0 = r@;
            r.set(p, Ownership::Owned);
            let ghost pre = self.params@.take(k as int);
            assert(self.params@.take(k + 1) =~= pre.push(p));
            assert forall|j: int| 0 <= j < r@.len() implies #[trigger] r@[j] == if pre.push(p).contains(j as usize) {
                Ownership::Owned
            } else {
                Ownership::Unknown
            } by {
                if j == p as int {
                    assert(pre.push(p)[pre.len() as int] == p);
                } else {
                    assert(r@[j] == r0[j]);
                    if pre.push(p).contains(j as usize) {
                        let w = choose|w: int| 0 <= w < pre.len() + 1 && pre.push(p)[w] == j as usize;
                        assert(pre[w] == j as usize);
                    }
                    if pre.contains(j as usize) {
                        let w = choose|w: int| 0 <= w < pre.len() && pre[w] == j as usize;
                        assert(pre.push(p)[w] == j as usize);
                    }
                }
            }
            k += 1;
        }
        assert(self.params@.take(k as int) =~= self.params@);
        assert(r@ =~= self.init_state());
        r
    }
}

/// Runs an operation's transfer function on `s`.
pub fn run_op(cat: &Catalog, s: &mut Vec<Ownership>, op: &Operation)
    requires
        op.operand < old(s)@.len(),
    ensures
        final(s)@ == op_transfer(cat@, old(s)@, *op),
{
    let e = cat.effect_of(&op.name);
    apply_transfer(s, e, op.operand);
}

/// Runs a whole block on `s`, leaving its exit state there.
pub fn run_block(cat: &Catalog, blk: &BasicBlock, s: &mut Vec<Ownership>)
    requires
        block_ops_wf(*blk, old(s)@.len()),
    ensures
        final(s)@ == block_out(cat@, *blk, old(s)@),
{
    let ghost s0 = s@;
    let mut i: usize = 0;
    while i < blk.ops.len()
        invariant
            block_ops_wf(*blk, s0.len()),
            i <= blk.ops@.len(),
            s@ == ops_out(cat@, blk.ops@.take(i as int), s0),
            s@.len() == s0.len(),
        decreases blk.ops@.len() - i,
    {
        assert(blk.ops@.take(i + 1).drop_last() =~= blk.ops@.take(i as int));
        assert(op_wf(blk.ops@[i as int], s0.len()));
        run_op(cat, s, &blk.ops[i]);
        i += 1;
    }
    assert(blk.ops@.take(i as int) =~= blk.ops@);
    match &blk.terminator.call {
        Some(op) => run_op(cat, s, op),
        None => {},
    }
}

/// Whether the block's call catches unwinding.
pub fn is_shielded(cat: &Catalog, blk: &BasicBlock) -> (r: bool)
    ensures
        r == shielded(cat@, *blk),
{
    match &blk.terminator.call {
        Some(op) => cat.effect_of(&op.name) == Effect::ConvertsUnwindToNormal,
        None => false,
    }
}

/// Running operations is monotone in the state they start from.
pub proof fn lemma_ops_monotone(cat: Seq<(Seq<char>, Effect)>, ops: Seq<Operation>, a: Seq<Ownership>, b: Seq<Ownership>)
    requires
        le_state(a, b),
        forall|i: int| 0 <= i < ops.len() ==> op_wf(#[trigger] ops[i], a.len()),
    ensures
        le_state(ops_out(cat, ops, a), ops_out(cat, ops, b)),
        ops_out(cat, ops, a).len() == a.len(),
    decreases ops.len(),
{
    if ops.len() > 0 {
        let o = ops.drop_last();
        assert forall|i: int| 0 <= i < o.len() implies op_wf(#[trigger] o[i], a.len()) by {
            assert(op_wf(ops[i], a.len()));
        }
        lemma_ops_monotone(cat, o, a, b);
        assert(op_wf(ops[ops.len() - 1], a.len()));
        lemma_transfer_monotone(ops_out(cat, o, a), ops_out(cat, o, b), op_effect(cat, ops.last()), ops.last().operand as int);
    }
}

/// A block's exit state is monotone in its entry state.
pub proof fn lemma_block_monotone(cat: Seq<(Seq<char>, Effect)>, blk: BasicBlock, a: Seq<Ownership>, b: Seq<Ownership>)
    requires
        le_state(a, b),
        block_ops_wf(blk, a.len()),
    ensures
        le_state(block_out(cat, blk, a), block_out(cat, blk, b)),
        block_out(cat, blk, a).len() == a.len(),
{
    lemma_ops_monotone(cat, blk.ops@, a, b);
    let ta = ops_out(cat, blk.ops@, a);
    let tb = ops_out(cat, blk.ops@, b);
    match blk.terminator.call {
        Some(op) => {
            lemma_transfer_monotone(ta, tb, op_effect(cat, op), op.operand as int);
        },
        None => {},
    }
}

} // verus!
