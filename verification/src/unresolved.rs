//! Property values in the form in which files hold them.

use vstd::prelude::*;

use crate::name_map::{entry, lemma_all_taken, lemma_same_entries, lemma_taken, NameMap};
use crate::plain::Plain;
use crate::reflection::{default_known, has_default};
use crate::text::{same_text, starts_with};
use crate::tree::{InstanceWithMeta, TreeInstanceView};
use crate::variant::{AttributeValue, AttributeView, Property, PropertyView, Variant, VariantView};
use crate::variant_eq::{attribute_eq, attributes_close, values_close, variant_eq, Closeness};

verus! {

/// A value in the form in which a file holds it. It is known by what it resolves
/// to at the place where it stands, or by why it does not.
#[derive(Debug)]
pub struct Unresolved<V> {
    pub resolved: Result<V, String>,
}

impl<V: DeepView> DeepView for Unresolved<V> {
    type V = Result<V::V, Seq<char>>;

    open spec fn deep_view(&self) -> Result<V::V, Seq<char>> {
        match self.resolved {
            Ok(value) => Ok(value.deep_view()),
            Err(reason) => Err(reason@),
        }
    }
}

/// The value of a property in the form in which a file holds it.
pub type UnresolvedValue = Unresolved<Variant>;

/// The value of an attribute in the form in which a file holds it.
pub type UnresolvedAttribute = Unresolved<AttributeValue>;

impl<V: Plain> Unresolved<V> {
    /// The form of a value.
    pub fn from_variant(value: &V) -> (unresolved: Unresolved<V>)
        ensures
            unresolved.deep_view() == Ok::<V::V, Seq<char>>(value.deep_view()),
    {
        Unresolved { resolved: Ok(value.duplicate()) }
    }
}

/// Whether a property is written to a file: attributes are written apart, shared
/// strings are not written at all, and neither is what is at its default.
/// `defaulted` tells whether there is a default.
pub open spec fn property_written(property: PropertyView, defaulted: bool) -> bool {
    &&& !(property.value is Attributes)
    &&& !(property.value is SharedString)
    &&& !(defaulted && property.at_default)
}

/// Whether a property is written to a file. `defaulted` tells whether there is a
/// default.
pub fn writes_property(property: &Property, defaulted: bool) -> (yes: bool)
    ensures
        yes == property_written(property.deep_view(), defaulted),
{
    match property.value {
        Variant::Attributes(_) => false,
        Variant::SharedString(_) => false,
        _ => !(defaulted && property.at_default),
    }
}

/// The properties that are written for an instance of a class.
pub open spec fn written_properties(
    class: Seq<char>,
    properties: Map<Seq<char>, PropertyView>,
) -> Map<Seq<char>, Result<VariantView, Seq<char>>> {
    Map::new(
        |name: Seq<char>|
            properties.contains_key(name) && property_written(
                properties[name],
                default_known(class, name),
            ),
        |name: Seq<char>| Ok(properties[name].value),
    )
}

/// Attributes without those that are reserved.
pub open spec fn public_attributes(attributes: Map<Seq<char>, AttributeView>) -> Map<
    Seq<char>,
    Result<AttributeView, Seq<char>>,
> {
    Map::new(
        |name: Seq<char>| attributes.contains_key(name) && !"RBX"@.is_prefix_of(name),
        |name: Seq<char>| Ok(attributes[name]),
    )
}

/// The attributes that are written for the first `n` of some properties.
pub open spec fn written_attributes(
    properties: Map<Seq<char>, PropertyView>,
    names: Seq<Seq<char>>,
    n: int,
) -> Map<Seq<char>, Result<AttributeView, Seq<char>>>
    decreases n,
{
    if n <= 0 {
        Map::empty()
    } else {
        let before = written_attributes(properties, names, n - 1);
        match properties[names[n - 1]].value {
            VariantView::Attributes(attributes) => before.union_prefer_right(
                public_attributes(attributes),
            ),
            _ => before,
        }
    }
}

/// No reserved attribute is written.
pub proof fn lemma_reserved_attributes_are_left_out(
    properties: Map<Seq<char>, PropertyView>,
    names: Seq<Seq<char>>,
    n: int,
    name: Seq<char>,
)
    requires
        written_attributes(properties, names, n).contains_key(name),
    ensures
        !"RBX"@.is_prefix_of(name),
    decreases n,
{
    if n > 0 && written_attributes(properties, names, n - 1).contains_key(name) {
        lemma_reserved_attributes_are_left_out(properties, names, n - 1, name);
    }
}

/// Adds the attributes that are not reserved to others.
fn insert_public(
    new_attributes: &mut NameMap<UnresolvedAttribute>,
    attributes: &NameMap<AttributeValue>,
)
    ensures
        final(new_attributes)@ == old(new_attributes)@.union_prefer_right(
            public_attributes(attributes@),
        ),
{
    let ghost before = new_attributes@;
    let ghost more = public_attributes(attributes@);
    let ghost names = attributes.names();
    let len: usize = attributes.len();
    let mut i: usize = 0;
    while i < len
        invariant
            i <= len,
            len == names.len(),
            names == attributes.names(),
            more == public_attributes(attributes@),
            forall|name: Seq<char>| #[trigger]
                entry(new_attributes@, name) == if names.take(i as int).contains(name)
                    && more.contains_key(name) {
                    Some(more[name])
                } else {
                    entry(before, name)
                },
        decreases len - i,
    {
        let ghost so_far = new_attributes@;
        proof {
            lemma_taken(names, i as int);
        }
        let name = attributes.name_at(i);
        if !starts_with(name.as_str(), "RBX") {
            new_attributes.insert(
                name.clone(),
                Unresolved::from_variant(attributes.value_at(i)),
            );
        }
        proof {
            assert forall|other: Seq<char>| #[trigger] entry(new_attributes@, other)
                == if names.take(i + 1).contains(other) && more.contains_key(other) {
                Some(more[other])
            } else {
                entry(before, other)
            } by {
                assert(other != name@ ==> entry(new_attributes@, other) == entry(so_far, other));
            }
        }
        i += 1;
    }
    proof {
        lemma_all_taken(names, i as int);
        let target = before.union_prefer_right(more);
        lemma_same_entries(new_attributes@, target);
    }
}

/// Generates and returns two maps of unresolved properties and attributes,
/// respectively, appropriate for producing JSON or other file representations
/// that use unresolved variants. This function ignores any properties that are
/// at their default values. It also ignores any reserved attributes (i.e. ones
/// with names starting with `RBX`).
pub fn populate_unresolved_properties(class: &str, properties: &NameMap<Property>) -> (maps: (
    NameMap<UnresolvedValue>,
    NameMap<UnresolvedAttribute>,
))
    ensures
        maps.0@ == written_properties(class@, properties@),
        maps.1@ == written_attributes(
            properties@,
            properties.names(),
            properties.names().len() as int,
        ),
{
    let ghost names = properties.names();
    let ghost wanted = written_properties(class@, properties@);
    let mut new_properties: NameMap<UnresolvedValue> = NameMap::new();
    let mut new_attributes: NameMap<UnresolvedAttribute> = NameMap::new();
    let len: usize = properties.len();
    let mut i: usize = 0;
    while i < len
        invariant
            i <= len,
            len == names.len(),
            names == properties.names(),
            wanted == written_properties(class@, properties@),
            new_attributes@ == written_attributes(properties@, names, i as int),
            forall|name: Seq<char>| #[trigger]
                entry(new_properties@, name) == if names.take(i as int).contains(name) {
                    entry(wanted, name)
                } else {
                    None
                },
        decreases len - i,
    {
        let ghost so_far = new_properties@;
        proof {
            lemma_taken(names, i as int);
        }
        let name = properties.name_at(i);
        let property = properties.value_at(i);
        if let Variant::Attributes(attributes) = &property.value {
            insert_public(&mut new_attributes, attributes);
        } else if writes_property(property, has_default(class, name.as_str())) {
            new_properties.insert(name.clone(), Unresolved::from_variant(&property.value));
        }
        proof {
            assert forall|other: Seq<char>| #[trigger] entry(new_properties@, other)
                == if names.take(i + 1).contains(other) {
                entry(wanted, other)
            } else {
                None
            } by {
                assert(other != name@ ==> entry(new_properties@, other) == entry(so_far, other));
            }
        }
        i += 1;
    }
    proof {
        lemma_all_taken(names, i as int);
        lemma_same_entries(new_properties@, wanted);
    }
    (new_properties, new_attributes)
}

/// What a property of a file says of the property of an instance, if anything:
/// that the file must be written anew, or that its value does not resolve.
pub open spec fn property_check(
    have: Option<PropertyView>,
    node: Result<VariantView, Seq<char>>,
    close: Set<(u64, u64)>,
) -> Option<Result<bool, Seq<char>>> {
    match (have, node) {
        (None, _) => Some(Ok(true)),
        (Some(_), Err(reason)) => Some(Err(reason)),
        (Some(property), Ok(value)) => if values_close(property.value, value, close) {
            None
        } else {
            Some(Ok(true))
        },
    }
}

/// The first thing that the properties of a file say, from the `i`-th on.
pub open spec fn properties_check(
    names: Seq<Seq<char>>,
    nodes: Map<Seq<char>, Result<VariantView, Seq<char>>>,
    have: Map<Seq<char>, PropertyView>,
    close: Set<(u64, u64)>,
    i: int,
) -> Option<Result<bool, Seq<char>>>
    decreases names.len() - i,
{
    if i < 0 || i >= names.len() {
        None
    } else {
        match property_check(entry(have, names[i]), nodes[names[i]], close) {
            Some(verdict) => Some(verdict),
            None => properties_check(names, nodes, have, close, i + 1),
        }
    }
}

/// What an attribute of a file says of the attribute of an instance, if
/// anything.
pub open spec fn attribute_check(
    have: Option<AttributeView>,
    node: Result<AttributeView, Seq<char>>,
    close: Set<(u64, u64)>,
) -> Option<Result<bool, Seq<char>>> {
    match (have, node) {
        (None, _) => Some(Ok(true)),
        (Some(_), Err(reason)) => Some(Err(reason)),
        (Some(attribute), Ok(value)) => if attributes_close(attribute, value, close) {
            None
        } else {
            Some(Ok(true))
        },
    }
}

/// The first thing that the attributes of a file say, from the `i`-th on.
pub open spec fn attributes_check(
    names: Seq<Seq<char>>,
    nodes: Map<Seq<char>, Result<AttributeView, Seq<char>>>,
    have: Map<Seq<char>, AttributeView>,
    close: Set<(u64, u64)>,
    i: int,
) -> Option<Result<bool, Seq<char>>>
    decreases names.len() - i,
{
    if i < 0 || i >= names.len() {
        None
    } else {
        match attribute_check(entry(have, names[i]), nodes[names[i]], close) {
            Some(verdict) => Some(verdict),
            None => attributes_check(names, nodes, have, close, i + 1),
        }
    }
}

/// Whether a property of an instance says that the file must be written anew:
/// the file lacks it although it is not at its default. Attributes are compared
/// apart.
pub open spec fn is_lost(
    name: Seq<char>,
    in_file: bool,
    defaulted: bool,
    at_default: bool,
) -> bool {
    name != "Attributes"@ && !in_file && !(defaulted && at_default)
}

/// Whether a property of an instance says that the file must be written anew.
/// Where no default is known of, the reflection database might be out of date,
/// and leaving the file as it is might lose the property.
pub fn property_is_lost(name: &str, in_file: bool, defaulted: bool, at_default: bool) -> (yes: bool)
    ensures
        yes == is_lost(name@, in_file, defaulted, at_default),
{
    !same_text(name, "Attributes") && !in_file && !(defaulted && at_default)
}

/// Whether an instance has a property that the file lacks although it is not at
/// its default.
pub open spec fn property_lost(
    nodes: Map<Seq<char>, Result<VariantView, Seq<char>>>,
    class: Seq<char>,
    have: Map<Seq<char>, PropertyView>,
) -> bool {
    exists|name: Seq<char>| #[trigger]
        have.contains_key(name) && is_lost(
            name,
            nodes.contains_key(name),
            default_known(class, name),
            have[name].at_default,
        )
}

/// What the attributes of a file and of an instance say together.
pub open spec fn attributes_verdict(
    names: Seq<Seq<char>>,
    nodes: Map<Seq<char>, Result<AttributeView, Seq<char>>>,
    have: Map<Seq<char>, PropertyView>,
    close: Set<(u64, u64)>,
) -> Result<bool, Seq<char>> {
    match entry(have, "Attributes"@) {
        Some(property) => match property.value {
            VariantView::Attributes(attributes) => if nodes.dom().len()
                != attributes.dom().len() {
                Ok(true)
            } else {
                match attributes_check(names, nodes, attributes, close, 0) {
                    Some(verdict) => verdict,
                    None => Ok(false),
                }
            },
            _ => Ok(true),
        },
        None => Ok(nodes.dom().len() != 0),
    }
}

/// Whether a file must be written anew for an instance: its properties or
/// attributes differ from those of the instance.
pub open spec fn reserialize_verdict(
    property_names: Seq<Seq<char>>,
    properties: Map<Seq<char>, Result<VariantView, Seq<char>>>,
    attribute_names: Seq<Seq<char>>,
    attributes: Map<Seq<char>, Result<AttributeView, Seq<char>>>,
    instance: TreeInstanceView,
    close: Set<(u64, u64)>,
) -> Result<bool, Seq<char>> {
    match properties_check(property_names, properties, instance.properties, close, 0) {
        Some(verdict) => verdict,
        None => if property_lost(properties, instance.class_name, instance.properties) {
            Ok(true)
        } else {
            attributes_verdict(attribute_names, attributes, instance.properties, close)
        },
    }
}

/// Whether an instance has a property that the file lacks although it is not at
/// its default.
fn has_lost_property(
    node_properties: &NameMap<UnresolvedValue>,
    instance: &InstanceWithMeta,
) -> (yes: bool)
    ensures
        yes == property_lost(node_properties@, instance@.class_name, instance@.properties),
{
    let len: usize = instance.properties.len();
    let ghost have = instance.properties@;
    let ghost class = instance.class_name@;
    let mut i: usize = 0;
    while i < len
        invariant
            i <= len,
            len == instance.properties.names().len(),
            have == instance.properties@,
            class == instance.class_name@,
            forall|j: int|
                0 <= j < i ==> {
                    let name = #[trigger] instance.properties.names()[j];
                    !is_lost(
                        name,
                        node_properties@.contains_key(name),
                        default_known(class, name),
                        have[name].at_default,
                    )
                },
        decreases len - i,
    {
        let name = instance.properties.name_at(i);
        let property = instance.properties.value_at(i);
        if property_is_lost(
            name.as_str(),
            node_properties.contains_key(name.as_str()),
            has_default(instance.class_name.as_str(), name.as_str()),
            property.at_default,
        ) {
            return true;
        }
        i += 1;
    }
    false
}

/// The result of a comparison, with the reason of a failure as a text.
pub open spec fn verdict_view(verdict: Result<bool, String>) -> Result<bool, Seq<char>> {
    match verdict {
        Ok(yes) => Ok(yes),
        Err(reason) => Err(reason@),
    }
}

/// Whether a file that holds the given attributes must be written anew for an
/// instance with as many.
fn compare_attributes(
    node_attributes: &NameMap<UnresolvedAttribute>,
    attributes: &NameMap<AttributeValue>,
    close: &Closeness,
) -> (verdict: Result<bool, String>)
    ensures
        verdict_view(verdict) == match attributes_check(
            node_attributes.names(),
            node_attributes@,
            attributes@,
            close@,
            0,
        ) {
            Some(verdict) => verdict,
            None => Ok(false),
        },
{
    let len: usize = node_attributes.len();
    let mut i: usize = 0;
    while i < len
        invariant
            i <= len,
            len == node_attributes.names().len(),
            attributes_check(
                node_attributes.names(),
                node_attributes@,
                attributes@,
                close@,
                0,
            ) == attributes_check(
                node_attributes.names(),
                node_attributes@,
                attributes@,
                close@,
                i as int,
            ),
        decreases len - i,
    {
        let name = node_attributes.name_at(i);
        match attributes.get(name.as_str()) {
            Some(attribute) => match &node_attributes.value_at(i).resolved {
                Ok(value) => {
                    if !attribute_eq(attribute, value, close) {
                        return Ok(true);
                    }
                },
                Err(reason) => {
                    return Err(reason.clone());
                },
            },
            None => {
                return Ok(true);
            },
        }
        i += 1;
    }
    Ok(false)
}

/// Whether a file that holds the given properties and attributes must be written
/// anew for an instance.
pub fn node_should_reserialize(
    node_properties: &NameMap<UnresolvedValue>,
    node_attributes: &NameMap<UnresolvedAttribute>,
    instance: &InstanceWithMeta,
    close: &Closeness,
) -> (verdict: Result<bool, String>)
    ensures
        verdict_view(verdict) == reserialize_verdict(
            node_properties.names(),
            node_properties@,
            node_attributes.names(),
            node_attributes@,
            instance@,
            close@,
        ),
{
    let ghost have = instance@.properties;
    let len: usize = node_properties.len();
    let mut i: usize = 0;
    while i < len
        invariant
            i <= len,
            len == node_properties.names().len(),
            have == instance@.properties,
            properties_check(node_properties.names(), node_properties@, have, close@, 0)
                == properties_check(
                node_properties.names(),
                node_properties@,
                have,
                close@,
                i as int,
            ),
        decreases len - i,
    {
        let name = node_properties.name_at(i);
        match instance.properties.get(name.as_str()) {
            Some(property) => match &node_properties.value_at(i).resolved {
                Ok(value) => {
                    if !variant_eq(&property.value, value, close) {
                        return Ok(true);
                    }
                },
                Err(reason) => {
                    return Err(reason.clone());
                },
            },
            None => {
                return Ok(true);
            },
        }
        i += 1;
    }

    // All that the file holds is in the instance, and equal. What is at its
    // default is left out of files, so the instance may hold more: a property
    // that has changed to its default.
    if has_lost_property(node_properties, instance) {
        return Ok(true);
    }

    match instance.properties.get("Attributes") {
        Some(property) => match &property.value {
            Variant::Attributes(attributes) => {
                if node_attributes.len() != attributes.len() {
                    Ok(true)
                } else {
                    compare_attributes(node_attributes, attributes, close)
                }
            },
            _ => Ok(true),
        },
        None => Ok(!node_attributes.is_empty()),
    }
}

/// Whether a file holds what an instance has: all that it holds is in the
/// instance, up to rounding; all that it lacks is at its default there; and the
/// attributes are the same, up to rounding.
pub open spec fn file_matches(
    properties: Map<Seq<char>, Result<VariantView, Seq<char>>>,
    attributes: Map<Seq<char>, Result<AttributeView, Seq<char>>>,
    instance: TreeInstanceView,
    close: Set<(u64, u64)>,
) -> bool {
    let have = instance.properties;
    &&& forall|name: Seq<char>| #[trigger]
        properties.contains_key(name) ==> have.contains_key(name) && (
        properties[name] matches Ok(value) && values_close(have[name].value, value, close))
    &&& forall|name: Seq<char>| #[trigger]
        have.contains_key(name) ==> name == "Attributes"@ || properties.contains_key(name) || (
        default_known(instance.class_name, name) && have[name].at_default)
    &&& if have.contains_key("Attributes"@) {
        &&& have["Attributes"@].value matches VariantView::Attributes(held) && {
            &&& forall|name: Seq<char>| #[trigger]
                attributes.contains_key(name) <==> held.contains_key(name)
            &&& forall|name: Seq<char>| #[trigger]
                attributes.contains_key(name) ==> (attributes[name] matches Ok(value)
                    && attributes_close(held[name], value, close))
        }
    } else {
        forall|name: Seq<char>| !#[trigger] attributes.contains_key(name)
    }
}

/// Whether all values of a file resolve.
pub open spec fn all_resolve(
    properties: Map<Seq<char>, Result<VariantView, Seq<char>>>,
    attributes: Map<Seq<char>, Result<AttributeView, Seq<char>>>,
) -> bool {
    &&& forall|name: Seq<char>| #[trigger] properties.contains_key(name) ==> properties[name] is Ok
    &&& forall|name: Seq<char>| #[trigger] attributes.contains_key(name) ==> attributes[name] is Ok
}

/// Whether a property holds finitely many attributes, as every one does.
pub open spec fn finitely_many(property: Option<PropertyView>) -> bool {
    property matches Some(property) ==> (property.value matches VariantView::Attributes(held)
        ==> held.dom().finite())
}

/// A file is left as it is only where it holds what the instance has. Where all
/// its values resolve, it is written anew exactly if it does not.
pub proof fn lemma_reserialized_when_different(
    property_names: Seq<Seq<char>>,
    properties: Map<Seq<char>, Result<VariantView, Seq<char>>>,
    attribute_names: Seq<Seq<char>>,
    attributes: Map<Seq<char>, Result<AttributeView, Seq<char>>>,
    instance: TreeInstanceView,
    close: Set<(u64, u64)>,
)
    requires
        properties.dom() == property_names.to_set(),
        attributes.dom() == attribute_names.to_set(),
        attributes.dom().finite(),
        finitely_many(entry(instance.properties, "Attributes"@)),
    ensures
        ({
            let verdict = reserialize_verdict(
                property_names,
                properties,
                attribute_names,
                attributes,
                instance,
                close,
            );
            let matches = file_matches(properties, attributes, instance, close);
            &&& verdict == Ok::<bool, Seq<char>>(false) <==> matches
            &&& all_resolve(properties, attributes) ==> verdict == Ok::<bool, Seq<char>>(!matches)
        }),
{
    let have = instance.properties;
    lemma_properties_check(property_names, properties, have, close, 0);
    assert forall|j: int| 0 <= j < property_names.len() implies properties.contains_key(
        #[trigger] property_names[j],
    ) by {}
    assert forall|name: Seq<char>| #[trigger] properties.contains_key(name) implies exists|j: int|
        0 <= j < property_names.len() && #[trigger] property_names[j] == name by {
        assert(property_names.to_set().contains(name));
    }
    if attributes.dom().len() == 0 {
        attributes.dom().lemma_len0_is_empty();
        assert forall|name: Seq<char>| !#[trigger] attributes.contains_key(name) by {
            assert(!attributes.dom().contains(name));
        }
    } else if forall|name: Seq<char>| !#[trigger] attributes.contains_key(name) {
        assert(attributes.dom() =~= Set::empty());
    }
    if let Some(property) = entry(have, "Attributes"@) {
        if let VariantView::Attributes(held) = property.value {
            lemma_attributes_check(attribute_names, attributes, held, close, 0);
            assert forall|j: int| 0 <= j < attribute_names.len() implies attributes.contains_key(
                #[trigger] attribute_names[j],
            ) by {}
            assert forall|name: Seq<char>| #[trigger] attributes.contains_key(name) implies exists|
                j: int,
            |
                0 <= j < attribute_names.len() && #[trigger] attribute_names[j] == name by {
                assert(attribute_names.to_set().contains(name));
            }
            if forall|name: Seq<char>| #[trigger]
                attributes.contains_key(name) <==> held.contains_key(name) {
                assert(attributes.dom() =~= held.dom());
            }
            if attributes.dom().len() == held.dom().len() && attributes_check(
                attribute_names,
                attributes,
                held,
                close,
                0,
            ) is None {
                vstd::set_lib::lemma_subset_equality(attributes.dom(), held.dom());
            }
        }
    }
}

/// Checks say nothing exactly if none of them does; without failures they say
/// nothing but that the file must be written anew.
proof fn lemma_properties_check(
    names: Seq<Seq<char>>,
    nodes: Map<Seq<char>, Result<VariantView, Seq<char>>>,
    have: Map<Seq<char>, PropertyView>,
    close: Set<(u64, u64)>,
    i: int,
)
    requires
        0 <= i,
    ensures
        ({
            let all = properties_check(names, nodes, have, close, i);
            &&& all is None <==> forall|j: int|
                i <= j < names.len() ==> property_check(
                    entry(have, #[trigger] names[j]),
                    nodes[names[j]],
                    close,
                ) is None
            &&& all != Some(Ok::<bool, Seq<char>>(false))
            &&& (forall|j: int| i <= j < names.len() ==> nodes[#[trigger] names[j]] is Ok)
                ==> all is None || all == Some(Ok::<bool, Seq<char>>(true))
        }),
    decreases names.len() - i,
{
    if i < names.len() {
        lemma_properties_check(names, nodes, have, close, i + 1);
    }
}

proof fn lemma_attributes_check(
    names: Seq<Seq<char>>,
    nodes: Map<Seq<char>, Result<AttributeView, Seq<char>>>,
    have: Map<Seq<char>, AttributeView>,
    close: Set<(u64, u64)>,
    i: int,
)
    requires
        0 <= i,
    ensures
        ({
            let all = attributes_check(names, nodes, have, close, i);
            &&& all is None <==> forall|j: int|
                i <= j < names.len() ==> attribute_check(
                    entry(have, #[trigger] names[j]),
                    nodes[names[j]],
                    close,
                ) is None
            &&& all != Some(Ok::<bool, Seq<char>>(false))
            &&& (forall|j: int| i <= j < names.len() ==> nodes[#[trigger] names[j]] is Ok)
                ==> all is None || all == Some(Ok::<bool, Seq<char>>(true))
        }),
    decreases names.len() - i,
{
    if i < names.len() {
        lemma_attributes_check(names, nodes, have, close, i + 1);
    }
}

} // verus!


