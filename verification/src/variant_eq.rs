//! Comparing property values up to rounding.

use vstd::prelude::*;

use crate::name_map::NameMap;
use crate::plain::Plain;
use crate::variant::{AttributeValue, AttributeView, Variant, VariantView};

verus! {

/// The pairs of values without a form of their own that are equal up to
/// rounding although they bear different numbers.
#[derive(Debug)]
pub struct Closeness {
    pub pairs: Vec<(u64, u64)>,
}

impl View for Closeness {
    type V = Set<(u64, u64)>;

    open spec fn view(&self) -> Set<(u64, u64)> {
        self.pairs@.to_set()
    }
}

/// Whether two numbers stand for values that are equal up to rounding.
pub open spec fn numbers_close(a: u64, b: u64, close: Set<(u64, u64)>) -> bool {
    a == b || close.contains((a, b))
}

/// Whether two attributes are equal up to rounding.
pub open spec fn attributes_close(
    a: AttributeView,
    b: AttributeView,
    close: Set<(u64, u64)>,
) -> bool {
    match (a, b) {
        (AttributeView::Opaque(x), AttributeView::Opaque(y)) => numbers_close(x, y, close),
        _ => a == b,
    }
}

/// Whether two values are equal up to rounding.
pub open spec fn values_close(a: VariantView, b: VariantView, close: Set<(u64, u64)>) -> bool {
    match (a, b) {
        (VariantView::Opaque(x), VariantView::Opaque(y)) => numbers_close(x, y, close),
        (VariantView::Attributes(x), VariantView::Attributes(y)) => {
            &&& x.dom() == y.dom()
            &&& forall|name: Seq<char>| #[trigger]
                x.contains_key(name) ==> attributes_close(x[name], y[name], close)
        },
        _ => a == b,
    }
}

impl Closeness {
    /// Whether two numbers stand for values that are equal up to rounding.
    fn numbers(&self, a: u64, b: u64) -> (yes: bool)
        ensures
            yes == numbers_close(a, b, self@),
    {
        if a == b {
            return true;
        }
        let mut i: usize = 0;
        while i < self.pairs.len()
            invariant
                i <= self.pairs@.len(),
                forall|j: int| 0 <= j < i ==> self.pairs@[j] != (a, b),
            decreases self.pairs@.len() - i,
        {
            if self.pairs[i].0 == a && self.pairs[i].1 == b {
                return true;
            }
            i += 1;
        }
        false
    }
}

/// Whether two attributes are equal up to rounding.
pub fn attribute_eq(a: &AttributeValue, b: &AttributeValue, close: &Closeness) -> (yes: bool)
    ensures
        yes == attributes_close(a.deep_view(), b.deep_view(), close@),
{
    match (a, b) {
        (AttributeValue::Opaque(x), AttributeValue::Opaque(y)) => close.numbers(*x, *y),
        _ => a.same(b),
    }
}

/// Whether two values are equal up to rounding.
pub fn variant_eq(a: &Variant, b: &Variant, close: &Closeness) -> (yes: bool)
    ensures
        yes == values_close(a.deep_view(), b.deep_view(), close@),
{
    match (a, b) {
        (Variant::Opaque(x), Variant::Opaque(y)) => close.numbers(*x, *y),
        (Variant::Attributes(x), Variant::Attributes(y)) => all_attributes_eq(x, y, close),
        _ => a.same(b),
    }
}

fn all_attributes_eq(
    x: &NameMap<AttributeValue>,
    y: &NameMap<AttributeValue>,
    close: &Closeness,
) -> (yes: bool)
    ensures
        yes == values_close(
            VariantView::Attributes(x@),
            VariantView::Attributes(y@),
            close@,
        ),
{
    let len: usize = x.len();
    if len != y.len() {
        return false;
    }
    let mut i: usize = 0;
    while i < len
        invariant
            i <= len,
            len == x.names().len(),
            forall|j: int|
                0 <= j < i ==> y@.contains_key(#[trigger] x.names()[j]) && attributes_close(
                    x@[x.names()[j]],
                    y@[x.names()[j]],
                    close@,
                ),
        decreases len - i,
    {
        let name = x.name_at(i);
        match y.get(name.as_str()) {
            Some(other) => {
                if !attribute_eq(x.value_at(i), other, close) {
                    return false;
                }
            },
            None => {
                return false;
            },
        }
        i += 1;
    }
    proof {
        vstd::set_lib::lemma_subset_equality(x@.dom(), y@.dom());
    }
    true
}

} // verus!
