//! The table of recognised standard operations and their ownership effects.
use vstd::prelude::*;

verus! {

/// How a recognised operation acts on the ownership of its operand.
#[derive(Clone, Copy, Debug, PartialEq, Eq, Structural)]
pub enum Effect {
    /// Copies the operand out without moving it (two owners afterwards).
    DuplicatesOperand,
    /// Moves the operand away; it is no longer tracked.
    ConsumesOperand,
    /// Suppresses the operand's destructor.
    ForgetsOperand,
    /// Frees the resource through the operand.
    ReleasesOperand,
    /// Catches a non-local exit and turns it into an ordinary value.
    ConvertsUnwindToNormal,
    NoEffect,
}

pub struct CatalogEntry {
    pub name: String,
    pub effect: Effect,
}

/// Operation names with their effects; a later entry for a name overrides
/// an earlier one.
pub struct Catalog {
    pub entries: Vec<CatalogEntry>,
}

impl View for Catalog {
    type V = Seq<(Seq<char>, Effect)>;

    open spec fn view(&self) -> Seq<(Seq<char>, Effect)> {
        self.entries@.map_values(|e: CatalogEntry| (e.name@, e.effect))
    }
}

/// The effect of the last entry named `name`, or `NoEffect` when there is none.
pub open spec fn lookup(entries: Seq<(Seq<char>, Effect)>, name: Seq<char>) -> Effect
    decreases entries.len(),
{
    if entries.len() == 0 {
        Effect::NoEffect
    } else if entries.last().0 == name {
        entries.last().1
    } else {
        lookup(entries.drop_last(), name)
    }
}

/// The standard operations known out of the box.
pub open spec fn standard_entries() -> Seq<(Seq<char>, Effect)> {
    seq![
        ("core::ptr::read"@, Effect::DuplicatesOperand),
        ("core::ptr::read_unaligned"@, Effect::DuplicatesOperand),
        ("core::ptr::read_volatile"@, Effect::DuplicatesOperand),
        ("core::mem::transmute_copy"@, Effect::DuplicatesOperand),
        ("core::mem::forget"@, Effect::ForgetsOperand),
        ("core::mem::ManuallyDrop::<T>::new"@, Effect::ForgetsOperand),
        ("core::mem::ManuallyDrop::<T>::drop"@, Effect::ReleasesOperand),
        ("core::ptr::drop_in_place"@, Effect::ReleasesOperand),
        ("core::mem::drop"@, Effect::ConsumesOperand),
        ("std::panic::catch_unwind"@, Effect::ConvertsUnwindToNormal),
    ]
}

impl Catalog {
    /// A catalog that knows no operation.
    pub fn empty() -> (r: Catalog)
        ensures
            r@ == Seq::<(Seq<char>, Effect)>::empty(),
    {
        let r = Catalog { entries: Vec::new() };
        assert(r@ =~= Seq::<(Seq<char>, Effect)>::empty());
        r
    }

    /// Adds an entry; it takes precedence over earlier entries of that name.
    pub fn add(&mut self, name: &str, effect: Effect)
        ensures
            final(self)@ == old(self)@.push((name@, effect)),
    {
        self.entries.push(CatalogEntry { name: name.to_owned(), effect });
        assert(self@ =~= old(self)@.push((name@, effect)));
    }

    /// The catalog of standard operations.
    pub fn standard() -> (r: Catalog)
        ensures
            r@ == standard_entries(),
    {
        let mut r = Catalog::empty();
        r.add("core::ptr::read", Effect::DuplicatesOperand);
        r.add("core::ptr::read_unaligned", Effect::DuplicatesOperand);
        r.add("core::ptr::read_volatile", Effect::DuplicatesOperand);
        r.add("core::mem::transmute_copy", Effect::DuplicatesOperand);
        r.add("core::mem::forget", Effect::ForgetsOperand);
        r.add("core::mem::ManuallyDrop::<T>::new", Effect::ForgetsOperand);
        r.add("core::mem::ManuallyDrop::<T>::drop", Effect::ReleasesOperand);
        r.add("core::ptr::drop_in_place", Effect::ReleasesOperand);
        r.add("core::mem::drop", Effect::ConsumesOperand);
        r.add("std::panic::catch_unwind", Effect::ConvertsUnwindToNormal);
        assert(r@ =~= standard_entries());
        r
    }

    /// The effect of the operation named `name`.
    pub fn effect_of(&self, name: &String) -> (r: Effect)
        ensures
            r == lookup(self@, name@),
    {
        let mut i: usize = self.entries.len();
        assert(self@.take(i as int) =~= self@);
        while i > 0
            invariant
                i <= self.entries@.len(),
                lookup(self@, name@) == lookup(self@.take(i as int), name@),
            decreases i,
        {
            let e = &self.entries[i - 1];
            assert(self@.take(i as int).drop_last() =~= self@.take(i - 1));
            if e.name == *name {
                return e.effect;
            }
            i -= 1;
        }
        assert(self@.take(0) =~= Seq::<(Seq<char>, Effect)>::empty());
        Effect::NoEffect
    }
}

} // verus!
