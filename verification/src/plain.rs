//! Values that can be compared and copied by what they hold.

use vstd::prelude::*;

use crate::text::same_text;

verus! {

/// A type whose values are told apart by their deep view alone.
pub trait Plain: DeepView + Sized {
    /// Whether two values hold the same.
    fn same(&self, other: &Self) -> (same: bool)
        ensures
            same == (self.deep_view() == other.deep_view()),
    ;

    /// Another value that holds the same.
    fn duplicate(&self) -> (copy: Self)
        ensures
            copy.deep_view() == self.deep_view(),
    ;
}

impl Plain for u8 {
    fn same(&self, other: &Self) -> (same: bool) {
        *self == *other
    }

    fn duplicate(&self) -> (copy: Self) {
        *self
    }
}

impl Plain for u128 {
    fn same(&self, other: &Self) -> (same: bool) {
        *self == *other
    }

    fn duplicate(&self) -> (copy: Self) {
        *self
    }
}

impl Plain for String {
    fn same(&self, other: &Self) -> (same: bool) {
        same_text(self.as_str(), other.as_str())
    }

    fn duplicate(&self) -> (copy: Self) {
        self.clone()
    }
}

impl<T: Plain> Plain for Option<T> {
    fn same(&self, other: &Self) -> (same: bool) {
        match (self, other) {
            (None, None) => true,
            (Some(x), Some(y)) => x.same(y),
            _ => false,
        }
    }

    fn duplicate(&self) -> (copy: Self) {
        match self {
            Some(x) => Some(x.duplicate()),
            None => None,
        }
    }
}

impl<T: Plain> Plain for Vec<T> {
    fn same(&self, other: &Self) -> (same: bool) {
        if self.len() != other.len() {
            return false;
        }
        let mut i: usize = 0;
        while i < self.len()
            invariant
                i <= self@.len(),
                self@.len() == other@.len(),
                forall|j: int| 0 <= j < i ==> self@[j].deep_view() == other@[j].deep_view(),
            decreases self@.len() - i,
        {
            if !self[i].same(&other[i]) {
                assert(self.deep_view()[i as int] != other.deep_view()[i as int]);
                return false;
            }
            i += 1;
        }
        assert(self.deep_view() =~= other.deep_view());
        true
    }

    fn duplicate(&self) -> (copy: Self) {
        let mut copy: Vec<T> = Vec::new();
        let mut i: usize = 0;
        while i < self.len()
            invariant
                i <= self@.len(),
                copy@.len() == i,
                forall|j: int| 0 <= j < i ==> copy@[j].deep_view() == self@[j].deep_view(),
            decreases self@.len() - i,
        {
            copy.push(self[i].duplicate());
            i += 1;
        }
        assert(copy.deep_view() =~= self.deep_view());
        copy
    }
}

} // verus!
