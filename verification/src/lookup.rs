//! What a store knows of a key.

use vstd::prelude::*;

verus! {

/// The answer of one store to a lookup.
#[derive(Debug, Clone, PartialEq, Eq)]
pub enum Lookup {
    /// The key has this value.
    Found(Vec<u8>),
    /// The key was deleted: a tombstone stands for it.
    Deleted,
    /// The store holds nothing for the key.
    Missing,
}

/// The answer of one store to a lookup, as a mathematical value.
pub enum LookupView {
    Found(Seq<u8>),
    Deleted,
    Missing,
}

impl View for Lookup {
    type V = LookupView;

    open spec fn view(&self) -> LookupView {
        match self {
            Lookup::Found(v) => LookupView::Found(v@),
            Lookup::Deleted => LookupView::Deleted,
            Lookup::Missing => LookupView::Missing,
        }
    }
}

impl LookupView {
    /// The value a reader sees: the value that was found, and nothing for a
    /// tombstone or a missing key.
    pub open spec fn value(self) -> Option<Seq<u8>> {
        match self {
            LookupView::Found(v) => Some(v),
            _ => None,
        }
    }

    /// The answer of the first store unless it holds nothing for the key,
    /// and that of the second store then.
    pub open spec fn or(self, other: LookupView) -> LookupView {
        match self {
            LookupView::Missing => other,
            _ => self,
        }
    }
}

impl Lookup {
    /// The value a reader sees: the value that was found, and nothing for a
    /// tombstone or a missing key.
    pub fn into_value(self) -> (v: Option<Vec<u8>>)
        ensures
            match v {
                Some(bytes) => self@.value() == Some(bytes@),
                None => self@.value() is None,
            },
    {
        match self {
            Lookup::Found(v) => Some(v),
            _ => None,
        }
    }

    /// Whether the store holds nothing for the key.
    pub fn is_missing(&self) -> (b: bool)
        ensures
            b == (self@ is Missing),
    {
        match self {
            Lookup::Missing => true,
            _ => false,
        }
    }
}

} // verus!
