//! Per-function analysis state: one abstract state per block entry, and the
//! worklist of blocks whose entry state changed.
use vstd::prelude::*;
use crate::catalog::Effect;
use crate::cfg::{Cfg, block_out, propagates};
use crate::domain::{
    Ownership, copy_state, join_state, join_states, le_state, lemma_join_state_lub,
    lemma_le_state_order, lemma_state_rank, same_state, state_rank,
};

verus! {

/// The entry state of each block; `None` for a block not reached yet.
pub type Solution = Seq<Option<Seq<Ownership>>>;

/// Order on block entry states: an unreached block is below everything.
pub open spec fn le_opt(a: Option<Seq<Ownership>>, b: Option<Seq<Ownership>>) -> bool {
    match a {
        None => true,
        Some(x) => match b {
            None => false,
            Some(y) => le_state(x, y),
        },
    }
}

/// The entry state after `o` flows into a block whose entry state was `a`.
pub open spec fn join_opt(a: Option<Seq<Ownership>>, o: Seq<Ownership>) -> Seq<Ownership> {
    match a {
        None => o,
        Some(x) => join_state(x, o),
    }
}

pub open spec fn le_all(a: Solution, b: Solution) -> bool {
    a.len() == b.len() && forall|i: int| 0 <= i < a.len() ==> #[trigger] le_opt(a[i], b[i])
}

/// Edge `j` of block `b`, if it carries flow, carries the block's exit state
/// into a target entry state at least as large.
pub open spec fn edge_holds(cfg: Cfg, cat: Seq<(Seq<char>, Effect)>, x: Solution, b: int, j: int) -> bool {
    let blk = cfg.blocks@[b];
    let e = blk.terminator.edges@[j];
    x[b] is Some && propagates(cat, blk, e) ==> le_opt(Some(block_out(cat, blk, x[b]->0)), x[e.target as int])
}

pub open spec fn block_settled(cfg: Cfg, cat: Seq<(Seq<char>, Effect)>, x: Solution, b: int) -> bool {
    forall|j: int| 0 <= j < cfg.blocks@[b].terminator.edges@.len() ==> #[trigger] edge_holds(cfg, cat, x, b, j)
}

/// A consistent assignment: the entry block covers the initial state, and
/// every block's exit state is covered by each successor it flows into.
pub open spec fn is_solution(cfg: Cfg, cat: Seq<(Seq<char>, Effect)>, x: Solution) -> bool {
    &&& x.len() == cfg.blocks@.len()
    &&& le_opt(Some(cfg.init_state()), x[0])
    &&& forall|b: int| 0 <= b < x.len() ==> #[trigger] block_settled(cfg, cat, x, b)
}

/// The fixed point the analysis computes: below every consistent assignment.
pub open spec fn is_least_solution(cfg: Cfg, cat: Seq<(Seq<char>, Effect)>, x: Solution) -> bool {
    &&& is_solution(cfg, cat, x)
    &&& forall|y: Solution| #[trigger] is_solution(cfg, cat, y) ==> le_all(x, y)
}

pub open spec fn least_solution(cfg: Cfg, cat: Seq<(Seq<char>, Effect)>) -> Solution {
    choose|x: Solution| is_least_solution(cfg, cat, x)
}

pub open spec fn rank_opt(a: Option<Seq<Ownership>>) -> nat {
    match a {
        None => 0,
        Some(s) => 1 + state_rank(s),
    }
}

pub open spec fn total_rank(x: Solution) -> nat
    decreases x.len(),
{
    if x.len() == 0 {
        0
    } else {
        total_rank(x.drop_last()) + rank_opt(x.last())
    }
}

/// The most block visits the fixed-point loop makes: each visit follows a
/// strict rise of some block's entry state, and each block can rise once
/// from unreached and twice per value.
pub open spec fn visit_bound(cfg: Cfg) -> nat {
    cfg.blocks@.len() * (2 * cfg.num_values as nat + 1)
}

pub open spec fn opt_view(o: Option<Vec<Ownership>>) -> Option<Seq<Ownership>> {
    match o {
        None => None,
        Some(v) => Some(v@),
    }
}

/// Every reached block's state has one entry per value.
pub open spec fn shaped(x: Solution, nv: nat) -> bool {
    forall|b: int| 0 <= b < x.len() && #[trigger] x[b] is Some ==> x[b]->0.len() == nv
}

pub proof fn lemma_le_opt_trans(a: Option<Seq<Ownership>>, b: Option<Seq<Ownership>>, c: Option<Seq<Ownership>>)
    requires
        le_opt(a, b),
        le_opt(b, c),
    ensures
        le_opt(a, c),
{
    if a is Some {
        lemma_le_state_order(a->0, b->0, c->0);
    }
}

pub proof fn lemma_join_opt(a: Option<Seq<Ownership>>, o: Seq<Ownership>, c: Option<Seq<Ownership>>)
    requires
        a is Some ==> a->0.len() == o.len(),
    ensures
        le_opt(a, Some(join_opt(a, o))),
        le_state(o, join_opt(a, o)),
        le_opt(a, c) && le_opt(Some(o), c) ==> le_opt(Some(join_opt(a, o)), c),
        join_opt(a, o).len() == o.len(),
{
    match a {
        None => {
            lemma_le_state_order(o, o, o);
        },
        Some(x) => {
            match c {
                None => lemma_join_state_lub(x, o, o),
                Some(y) => lemma_join_state_lub(x, o, y),
            }
        },
    }
}

pub proof fn lemma_rank_opt(a: Option<Seq<Ownership>>, b: Option<Seq<Ownership>>)
    requires
        le_opt(a, b),
    ensures
        rank_opt(a) <= rank_opt(b),
        a != b ==> rank_opt(a) < rank_opt(b),
{
    match a {
        None => {},
        Some(x) => {
            lemma_state_rank(x, b->0);
        },
    }
}

pub proof fn lemma_total_rank_update(x: Solution, i: int, v: Option<Seq<Ownership>>)
    requires
        0 <= i < x.len(),
    ensures
        total_rank(x.update(i, v)) + rank_opt(x[i]) == total_rank(x) + rank_opt(v),
    decreases x.len(),
{
    let y = x.update(i, v);
    if i == x.len() - 1 {
        assert(y.drop_last() =~= x.drop_last());
    } else {
        assert(y.drop_last() =~= x.drop_last().update(i, v));
        lemma_total_rank_update(x.drop_last(), i, v);
    }
}

pub proof fn lemma_total_rank_bound(x: Solution, nv: nat)
    requires
        shaped(x, nv),
    ensures
        total_rank(x) <= x.len() * (2 * nv + 1),
    decreases x.len(),
{
    if x.len() > 0 {
        let y = x.drop_last();
        assert forall|b: int| 0 <= b < y.len() && #[trigger] y[b] is Some implies y[b]->0.len() == nv by {
            assert(x[b] is Some);
        }
        lemma_total_rank_bound(y, nv);
        if x.last() is Some {
            assert(x[x.len() - 1] is Some);
            lemma_state_rank(x.last()->0, x.last()->0);
        }
        assert(x.len() * (2 * nv + 1) == y.len() * (2 * nv + 1) + (2 * nv + 1)) by (nonlinear_arith)
            requires
                x.len() == y.len() + 1,
        ;
    }
}

/// There is at most one least solution.
pub proof fn lemma_least_unique(cfg: Cfg, cat: Seq<(Seq<char>, Effect)>, x: Solution)
    requires
        is_least_solution(cfg, cat, x),
    ensures
        x == least_solution(cfg, cat),
{
    let y = least_solution(cfg, cat);
    assert(is_least_solution(cfg, cat, y));
    assert(le_all(x, y) && le_all(y, x));
    assert forall|i: int| 0 <= i < x.len() implies x[i] == y[i] by {
        assert(le_opt(x[i], y[i]) && le_opt(y[i], x[i]));
        if x[i] is Some {
            lemma_le_state_order(x[i]->0, y[i]->0, x[i]->0);
        }
    }
    assert(x =~= y);
}

/// The working state of the fixed-point computation.
pub struct Context {
    pub states: Vec<Option<Vec<Ownership>>>,
    pub worklist: Vec<usize>,
    pub visits: usize,
}

impl Context {
    pub open spec fn solution(&self) -> Solution {
        self.states@.map_values(|o: Option<Vec<Ownership>>| opt_view(o))
    }

    /// Entry block at the initial state and pending; every other block unreached.
    pub fn seed(cfg: &Cfg) -> (r: Context)
        requires
            cfg.wf(),
        ensures
            r.solution() == Seq::new(cfg.blocks@.len(), |b: int| if b == 0 { Some(cfg.init_state()) } else { None }),
            r.worklist@ == seq![0usize],
            r.visits == 0,
    {
        let nb = cfg.blocks.len();
        let mut states: Vec<Option<Vec<Ownership>>> = Vec::new();
        states.push(Some(cfg.initial_state()));
        let mut b: usize = 1;
        while b < nb
            invariant
                1 <= b <= nb,
                nb == cfg.blocks@.len(),
                states@.len() == b,
                states@[0] matches Some(v) && v@ == cfg.init_state(),
                forall|c: int| 1 <= c < b ==> states@[c] is None,
            decreases nb - b,
        {
            states.push(None);
            b += 1;
        }
        let mut worklist: Vec<usize> = Vec::new();
        worklist.push(0);
        let r = Context { states, worklist, visits: 0 };
        assert(r.solution() =~= Seq::new(cfg.blocks@.len(), |b: int| if b == 0 { Some(cfg.init_state()) } else { None }));
        assert(r.worklist@ =~= seq![0usize]);
        r
    }

    /// A copy of the entry state of block `b`, which has been reached.
    pub fn state_at(&self, b: usize) -> (r: Vec<Ownership>)
        requires
            b < self.solution().len(),
            self.solution()[b as int] is Some,
        ensures
            Some(r@) == self.solution()[b as int],
    {
        match &self.states[b] {
            Some(s) => copy_state(s),
            None => {
                assert(self.solution()[b as int] is None);
                Vec::new()
            },
        }
    }

    /// Joins `out` into the entry state of block `t`, and marks `t` pending
    /// when that state changed.
    pub fn merge_into(&mut self, t: usize, out: &Vec<Ownership>) -> (changed: bool)
        requires
            t < old(self).solution().len(),
            old(self).solution()[t as int] is Some ==> old(self).solution()[t as int]->0.len() == out@.len(),
        ensures
            final(self).solution() == old(self).solution().update(t as int, Some(join_opt(old(self).solution()[t as int], out@))),
            changed == (old(self).solution()[t as int] != Some(join_opt(old(self).solution()[t as int], out@))),
            final(self).worklist@ == if changed { old(self).worklist@.push(t) } else { old(self).worklist@ },
            final(self).visits == old(self).visits,
    {
        let ghost sol = self.solution();
        let (changed, merged) = match &self.states[t] {
            None => (true, copy_state(out)),
            Some(cur) => {
                let j = join_states(cur, out);
                (!same_state(cur, &j), j)
            },
        };
        assert(sol[t as int] == opt_view(self.states@[t as int]));
        if changed {
            self.states.set(t, Some(merged));
            self.worklist.push(t);
            assert(self.solution() =~= sol.update(t as int, Some(join_opt(sol[t as int], out@))));
        } else {
            assert(sol =~= sol.update(t as int, Some(join_opt(sol[t as int], out@))));
        }
        changed
    }
}

} // verus!
