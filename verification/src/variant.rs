//! Property values.

use vstd::prelude::*;

use crate::name_map::NameMap;
use crate::plain::Plain;

verus! {

/// The value of an attribute.
#[derive(Debug)]
pub enum AttributeValue {
    String(String),
    BinaryString(Vec<u8>),
    /// A value of any other type. Two such values are equal exactly if they
    /// bear the same number; one that does not equal itself (a number that is
    /// not a number) bears a number of its own at each place where it stands.
    Opaque(u64),
}

/// What an [`AttributeValue`] holds.
pub enum AttributeView {
    String(Seq<char>),
    BinaryString(Seq<u8>),
    Opaque(u64),
}

impl DeepView for AttributeValue {
    type V = AttributeView;

    open spec fn deep_view(&self) -> AttributeView {
        match self {
            AttributeValue::String(text) => AttributeView::String(text@),
            AttributeValue::BinaryString(bytes) => AttributeView::BinaryString(bytes.deep_view()),
            AttributeValue::Opaque(number) => AttributeView::Opaque(*number),
        }
    }
}

impl Plain for AttributeValue {
    fn same(&self, other: &Self) -> (same: bool) {
        match (self, other) {
            (AttributeValue::String(x), AttributeValue::String(y)) => x.same(y),
            (AttributeValue::BinaryString(x), AttributeValue::BinaryString(y)) => x.same(y),
            (AttributeValue::Opaque(x), AttributeValue::Opaque(y)) => *x == *y,
            _ => false,
        }
    }

    fn duplicate(&self) -> (copy: Self) {
        match self {
            AttributeValue::String(x) => AttributeValue::String(x.duplicate()),
            AttributeValue::BinaryString(x) => AttributeValue::BinaryString(x.duplicate()),
            AttributeValue::Opaque(x) => AttributeValue::Opaque(*x),
        }
    }
}

/// The value of a property.
#[derive(Debug)]
pub enum Variant {
    /// The referent of an instance, or 0 for none.
    Ref(u128),
    Bool(bool),
    String(String),
    BinaryString(Vec<u8>),
    Attributes(NameMap<AttributeValue>),
    /// A string that is shared between instances, told apart by its number.
    SharedString(u64),
    /// A value of any other type, told apart as in [`AttributeValue::Opaque`].
    Opaque(u64),
}

/// What a [`Variant`] holds.
pub enum VariantView {
    Ref(u128),
    Bool(bool),
    String(Seq<char>),
    BinaryString(Seq<u8>),
    Attributes(Map<Seq<char>, AttributeView>),
    SharedString(u64),
    Opaque(u64),
}

impl DeepView for Variant {
    type V = VariantView;

    open spec fn deep_view(&self) -> VariantView {
        match self {
            Variant::Ref(referent) => VariantView::Ref(*referent),
            Variant::Bool(flag) => VariantView::Bool(*flag),
            Variant::String(text) => VariantView::String(text@),
            Variant::BinaryString(bytes) => VariantView::BinaryString(bytes.deep_view()),
            Variant::Attributes(attributes) => VariantView::Attributes(attributes@),
            Variant::SharedString(number) => VariantView::SharedString(*number),
            Variant::Opaque(number) => VariantView::Opaque(*number),
        }
    }
}

impl Plain for Variant {
    fn same(&self, other: &Self) -> (same: bool) {
        match (self, other) {
            (Variant::Ref(x), Variant::Ref(y)) => *x == *y,
            (Variant::Bool(x), Variant::Bool(y)) => *x == *y,
            (Variant::String(x), Variant::String(y)) => x.same(y),
            (Variant::BinaryString(x), Variant::BinaryString(y)) => x.same(y),
            (Variant::Attributes(x), Variant::Attributes(y)) => x.same(y),
            (Variant::SharedString(x), Variant::SharedString(y)) => *x == *y,
            (Variant::Opaque(x), Variant::Opaque(y)) => *x == *y,
            _ => false,
        }
    }

    fn duplicate(&self) -> (copy: Self) {
        match self {
            Variant::Ref(x) => Variant::Ref(*x),
            Variant::Bool(x) => Variant::Bool(*x),
            Variant::String(x) => Variant::String(x.duplicate()),
            Variant::BinaryString(x) => Variant::BinaryString(x.duplicate()),
            Variant::Attributes(x) => Variant::Attributes(x.duplicate()),
            Variant::SharedString(x) => Variant::SharedString(*x),
            Variant::Opaque(x) => Variant::Opaque(*x),
        }
    }
}

/// A property of an instance.
#[derive(Debug)]
pub struct Property {
    pub value: Variant,
    /// Whether the value equals, up to rounding, the one that the reflection
    /// database gives as the default of the property, where it gives one.
    pub at_default: bool,
}

/// What a [`Property`] holds.
pub struct PropertyView {
    pub value: VariantView,
    pub at_default: bool,
}

impl DeepView for Property {
    type V = PropertyView;

    open spec fn deep_view(&self) -> PropertyView {
        PropertyView { value: self.value.deep_view(), at_default: self.at_default }
    }
}

/// The values of properties.
pub open spec fn values_of(properties: Map<Seq<char>, PropertyView>) -> Map<
    Seq<char>,
    VariantView,
> {
    properties.map_values(|property: PropertyView| property.value)
}

} // verus!
