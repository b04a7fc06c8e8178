use vstd::prelude::*;

pub mod element;
pub mod enums;
pub mod keyed;
pub mod g_counter;
pub mod lww_set;
pub mod order;
pub mod or_set;
pub mod rga;

verus! {

/// The four kinds of replicated data type that a variable can hold.
#[derive(Debug, Clone, Copy, PartialEq, Eq, Structural)]
pub enum CrdtKind {
    GCounter,
    LWWSet,
    ORSet,
    RGA,
}

/// The name under which a kind of data type is shown.
pub open spec fn kind_label(kind: CrdtKind) -> Seq<char> {
    match kind {
        CrdtKind::GCounter => "GCounter"@,
        CrdtKind::LWWSet => "LWWSet"@,
        CrdtKind::ORSet => "ORSet"@,
        CrdtKind::RGA => "RGA"@,
    }
}

impl CrdtKind {
    /// The name under which this kind is shown.
    pub fn name(&self) -> (r: &'static str)
        ensures
            r@ == kind_label(*self),
    {
        match self {
            CrdtKind::GCounter => "GCounter",
            CrdtKind::LWWSet => "LWWSet",
            CrdtKind::ORSet => "ORSet",
            CrdtKind::RGA => "RGA",
        }
    }
}

/// A state-based replicated data type: `merge` folds the state of another replica
/// into this one. Each implementation states in its own contract what the merged
/// state is.
pub trait Crdt {
    type Struct;

    /// Synchronizes with the other CRDT state.
    fn merge(&mut self, other: &Self::Struct);
}

} // verus!
