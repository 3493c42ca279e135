//! The lattice of ownership states and the transfer functions over it.
use vstd::prelude::*;
use crate::catalog::Effect;

verus! {

/// What is known, at one program point, about who owns a value's resource.
#[derive(Clone, Copy, Debug, PartialEq, Eq, Structural)]
pub enum Ownership {
    Owned,
    Duplicated,
    Forgotten,
    Released,
    Unknown,
}

/// Lattice order: the three settled states are incomparable, `Unknown` lies
/// above them, and `Duplicated` (the hazard) is the top.
pub open spec fn le(a: Ownership, b: Ownership) -> bool {
    a == b || b == Ownership::Duplicated || (b == Ownership::Unknown && a != Ownership::Duplicated)
}

/// Least upper bound: the hazard wins over everything, any other
/// disagreement is `Unknown`.
pub open spec fn join_spec(a: Ownership, b: Ownership) -> Ownership {
    if a == b {
        a
    } else if a == Ownership::Duplicated || b == Ownership::Duplicated {
        Ownership::Duplicated
    } else {
        Ownership::Unknown
    }
}

/// Number of strict steps from the settled states: 0, 1 for `Unknown`, 2 for
/// `Duplicated`.
pub open spec fn rank(a: Ownership) -> nat {
    match a {
        Ownership::Duplicated => 2,
        Ownership::Unknown => 1,
        _ => 0,
    }
}

/// The effect of one recognised operation on the state of its operand.
pub open spec fn step(o: Ownership, e: Effect) -> Ownership {
    match e {
        Effect::DuplicatesOperand => match o {
            Ownership::Forgotten | Ownership::Released => Ownership::Unknown,
            _ => Ownership::Duplicated,
        },
        Effect::ForgetsOperand => Ownership::Forgotten,
        Effect::ReleasesOperand => Ownership::Released,
        Effect::ConsumesOperand => Ownership::Unknown,
        Effect::ConvertsUnwindToNormal | Effect::NoEffect => o,
    }
}

pub fn join(a: Ownership, b: Ownership) -> (r: Ownership)
    ensures
        r == join_spec(a, b),
{
    if a == b {
        a
    } else if a == Ownership::Duplicated || b == Ownership::Duplicated {
        Ownership::Duplicated
    } else {
        Ownership::Unknown
    }
}

pub fn apply_step(o: Ownership, e: Effect) -> (r: Ownership)
    ensures
        r == step(o, e),
{
    match e {
        Effect::DuplicatesOperand => match o {
            Ownership::Forgotten | Ownership::Released => Ownership::Unknown,
            _ => Ownership::Duplicated,
        },
        Effect::ForgetsOperand => Ownership::Forgotten,
        Effect::ReleasesOperand => Ownership::Released,
        Effect::ConsumesOperand => Ownership::Unknown,
        Effect::ConvertsUnwindToNormal | Effect::NoEffect => o,
    }
}

/// `join_spec` is the least upper bound of `le`, and `le` is a partial order.
pub proof fn lemma_join_is_lub(a: Ownership, b: Ownership, c: Ownership)
    ensures
        le(a, a),
        le(a, b) && le(b, a) ==> a == b,
        le(a, b) && le(b, c) ==> le(a, c),
        le(a, join_spec(a, b)),
        le(b, join_spec(a, b)),
        le(a, c) && le(b, c) ==> le(join_spec(a, b), c),
        le(a, b) ==> rank(a) <= rank(b),
        le(a, b) && a != b ==> rank(a) < rank(b),
{
}

/// Every step is monotone in the state of its operand.
pub proof fn lemma_step_monotone(a: Ownership, b: Ownership, e: Effect)
    requires
        le(a, b),
    ensures
        le(step(a, e), step(b, e)),
{
}

// ---- abstract states: one ownership state per value ----

/// Pointwise order over abstract states of one length.
pub open spec fn le_state(a: Seq<Ownership>, b: Seq<Ownership>) -> bool {
    a.len() == b.len() && forall|i: int| 0 <= i < a.len() ==> #[trigger] le(a[i], b[i])
}

pub open spec fn join_state(a: Seq<Ownership>, b: Seq<Ownership>) -> Seq<Ownership> {
    Seq::new(a.len(), |i: int| join_spec(a[i], b[i]))
}

/// The post-state of an operation with effect `e` on operand `v`.
pub open spec fn transfer(s: Seq<Ownership>, e: Effect, v: int) -> Seq<Ownership> {
    s.update(v, step(s[v], e))
}

/// Sum of the ranks of all values of a state.
pub open spec fn state_rank(s: Seq<Ownership>) -> nat
    decreases s.len(),
{
    if s.len() == 0 {
        0
    } else {
        state_rank(s.drop_last()) + rank(s.last())
    }
}

/// The transfer function of every operation is monotone.
pub proof fn lemma_transfer_monotone(a: Seq<Ownership>, b: Seq<Ownership>, e: Effect, v: int)
    requires
        le_state(a, b),
        0 <= v < a.len(),
    ensures
        le_state(transfer(a, e, v), transfer(b, e, v)),
{
    lemma_step_monotone(a[v], b[v], e);
    assert forall|i: int| 0 <= i < a.len() implies #[trigger] le(
        transfer(a, e, v)[i],
        transfer(b, e, v)[i],
    ) by {
        if i != v {
            assert(le(a[i], b[i]));
        }
    }
}

/// `join_state` is the least upper bound of `le_state`.
pub proof fn lemma_join_state_lub(a: Seq<Ownership>, b: Seq<Ownership>, c: Seq<Ownership>)
    requires
        a.len() == b.len(),
    ensures
        le_state(a, join_state(a, b)),
        le_state(b, join_state(a, b)),
        le_state(a, c) && le_state(b, c) ==> le_state(join_state(a, b), c),
{
    let j = join_state(a, b);
    assert forall|i: int| 0 <= i < a.len() implies #[trigger] le(a[i], j[i]) by {
        lemma_join_is_lub(a[i], b[i], c[i]);
    }
    assert forall|i: int| 0 <= i < a.len() implies #[trigger] le(b[i], j[i]) by {
        lemma_join_is_lub(a[i], b[i], c[i]);
    }
    if le_state(a, c) && le_state(b, c) {
        assert forall|i: int| 0 <= i < a.len() implies #[trigger] le(j[i], c[i]) by {
            lemma_join_is_lub(a[i], b[i], c[i]);
            assert(le(a[i], c[i]) && le(b[i], c[i]));
        }
    }
}

/// `le_state` is reflexive, transitive and antisymmetric.
pub proof fn lemma_le_state_order(a: Seq<Ownership>, b: Seq<Ownership>, c: Seq<Ownership>)
    ensures
        le_state(a, a),
        le_state(a, b) && le_state(b, c) ==> le_state(a, c),
        le_state(a, b) && le_state(b, a) ==> a == b,
{
    assert forall|i: int| 0 <= i < a.len() implies #[trigger] le(a[i], a[i]) by {
        lemma_join_is_lub(a[i], a[i], a[i]);
    }
    if le_state(a, b) && le_state(b, c) {
        assert forall|i: int| 0 <= i < a.len() implies #[trigger] le(a[i], c[i]) by {
            lemma_join_is_lub(a[i], b[i], c[i]);
            assert(le(a[i], b[i]) && le(b[i], c[i]));
        }
    }
    if le_state(a, b) && le_state(b, a) {
        assert forall|i: int| 0 <= i < a.len() implies a[i] == b[i] by {
            lemma_join_is_lub(a[i], b[i], c[0]);
            assert(le(a[i], b[i]) && le(b[i], a[i]));
        }
        assert(a =~= b);
    }
}

/// A state's rank is at most twice its length, and grows with the order,
/// strictly when the state changes.
pub proof fn lemma_state_rank(a: Seq<Ownership>, b: Seq<Ownership>)
    ensures
        state_rank(a) <= 2 * a.len(),
        le_state(a, b) ==> state_rank(a) <= state_rank(b),
        le_state(a, b) && a != b ==> state_rank(a) < state_rank(b),
    decreases a.len(),
{
    if a.len() > 0 {
        let (a0, b0) = (a.drop_last(), b.drop_last());
        lemma_state_rank(a0, b0);
        lemma_join_is_lub(a.last(), a.last(), a.last());
        if le_state(a, b) {
            assert(le(a.last(), b.last()));
            lemma_join_is_lub(a.last(), b.last(), b.last());
            assert forall|i: int| 0 <= i < a0.len() implies #[trigger] le(a0[i], b0[i]) by {
                assert(le(a[i], b[i]));
            }
            assert(le_state(a0, b0));
            if a != b {
                if a0 == b0 {
                    if a.last() == b.last() {
                        assert(a =~= b) by {
                            assert forall|i: int| 0 <= i < a.len() implies a[i] == b[i] by {
                                if i < a.len() - 1 {
                                    assert(a[i] == a0[i]);
                                    assert(b[i] == b0[i]);
                                }
                            }
                        }
                    }
                    assert(rank(a.last()) < rank(b.last()));
                } else {
                    assert(state_rank(a0) < state_rank(b0));
                }
            }
        }
    } else if le_state(a, b) {
        assert(a =~= b);
    }
}

/// Pointwise join of two states of one length.
pub fn join_states(a: &Vec<Ownership>, b: &Vec<Ownership>) -> (r: Vec<Ownership>)
    requires
        a@.len() == b@.len(),
    ensures
        r@ == join_state(a@, b@),
{
    let mut r: Vec<Ownership> = Vec::new();
    let mut i: usize = 0;
    while i < a.len()
        invariant
            a@.len() == b@.len(),
            i <= a@.len(),
            r@ == join_state(a@, b@).take(i as int),
        decreases a@.len() - i,
    {
        r.push(join(a[i], b[i]));
        i += 1;
        assert(r@ =~= join_state(a@, b@).take(i as int));
    }
    assert(r@ =~= join_state(a@, b@));
    r
}

/// Applies an operation with effect `e` on operand `v` in place.
pub fn apply_transfer(s: &mut Vec<Ownership>, e: Effect, v: usize)
    requires
        v < old(s)@.len(),
    ensures
        final(s)@ == transfer(old(s)@, e, v as int),
{
    let o = apply_step(s[v], e);
    s.set(v, o);
}

/// Whether two states are equal.
pub fn same_state(a: &Vec<Ownership>, b: &Vec<Ownership>) -> (r: bool)
    ensures
        r == (a@ == b@),
{
    if a.len() != b.len() {
        return false;
    }
    let mut i: usize = 0;
    while i < a.len()
        invariant
            a@.len() == b@.len(),
            i <= a@.len(),
            forall|j: int| 0 <= j < i ==> a@[j] == b@[j],
        decreases a@.len() - i,
    {
        if a[i] != b[i] {
            return false;
        }
        i += 1;
    }
    assert(a@ =~= b@);
    true
}

/// A copy of a state.
pub fn copy_state(a: &Vec<Ownership>) -> (r: Vec<Ownership>)
    ensures
        r@ == a@,
{
    let mut r: Vec<Ownership> = Vec::new();
    let mut i: usize = 0;
    while i < a.len()
        invariant
            i <= a@.len(),
            r@ == a@.take(i as int),
        decreases a@.len() - i,
    {
        r.push(a[i]);
        i += 1;
        assert(r@ =~= a@.take(i as int));
    }
    assert(r@ =~= a@);
    r
}

} // verus!
