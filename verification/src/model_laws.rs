//! What holds of all that is read from model and text files and written to them.

use vstd::prelude::*;

use crate::dom::{is_below, is_tree, Dom, NodeView};
use crate::instance::{blank_metadata, ContextView, SnapshotView};
use crate::json_model::{
    against_trees, attributes_left, child_nodes, children_failure, failure_among, found, is_blank,
    is_space, model_changes, model_failure, model_file_snapshot, model_metadata, model_snapshot,
    pair_model, queue_verdict, Against, JsonModel, ModelNode, ModelView,
};
use crate::name_map::NameMap;
use crate::paths::{joined, last_component, parent_path};
use crate::reflection::default_known;
use crate::syncback_snapshot::SyncbackData;
use crate::tree::TreeInstanceView;
use crate::txt::{
    instance_snapshot, meta_name, meta_path_of, says_nothing, txt_changes, txt_meta, txt_snapshot,
    txt_value, AdjacentView,
};
use crate::unresolved::{
    attributes_check, is_lost, properties_check, property_written, reserialize_verdict,
    written_attributes, written_properties,
};
use crate::variant::{values_of, AttributeView, Property, PropertyView, VariantView};
use crate::variant_eq::{attributes_close, values_close, Closeness};

verus! {

/// Every property is written to a file with its value, but for attributes, which
/// are written apart, shared strings, and what is at a default that is known; and
/// nothing else is written.
pub proof fn lemma_properties_are_written(
    class: Seq<char>,
    properties: Map<Seq<char>, PropertyView>,
    name: Seq<char>,
)
    ensures
        ({
            let written = written_properties(class, properties);
            let leaves_out = (properties[name].value is Attributes)
                || (properties[name].value is SharedString) || (default_known(class, name)
                && properties[name].at_default);
            &&& written.contains_key(name) <==> properties.contains_key(name) && !leaves_out
            &&& written.contains_key(name) ==> written[name] == Ok::<VariantView, Seq<char>>(
                properties[name].value,
            )
        }),
{
}

/// A property is written exactly if it holds neither attributes nor a shared
/// string and is not at its default.
pub proof fn lemma_property_is_written(property: PropertyView, defaulted: bool)
    ensures
        match property.value {
            VariantView::Attributes(_) => !property_written(property, defaulted),
            VariantView::SharedString(_) => !property_written(property, defaulted),
            _ => property_written(property, defaulted) <==> !defaulted || !property.at_default,
        },
{
}

/// Whether one of some properties holds an attribute with the given name and
/// value.
pub open spec fn has_attribute(
    properties: Map<Seq<char>, PropertyView>,
    name: Seq<char>,
    value: AttributeView,
) -> bool {
    exists|holder: Seq<char>| #[trigger]
        properties.contains_key(holder) && (
        properties[holder].value matches VariantView::Attributes(attributes)
            && attributes.contains_key(name) && attributes[name] == value)
}

/// Every attribute is written to a file with its value, but for those whose names
/// start with `RBX`; and nothing else is written.
pub proof fn lemma_attributes_are_written(
    properties: Map<Seq<char>, PropertyView>,
    names: Seq<Seq<char>>,
    name: Seq<char>,
)
    requires
        properties.dom() == names.to_set(),
    ensures
        ({
            let written = written_attributes(properties, names, names.len() as int);
            &&& written.contains_key(name) <==> !"RBX"@.is_prefix_of(name) && exists|
                value: AttributeView,
            | #[trigger]
                has_attribute(properties, name, value)
            &&& written.contains_key(name) ==> (written[name] matches Ok(value) && has_attribute(
                properties,
                name,
                value,
            ))
        }),
{
    let n = names.len() as int;
    let written = written_attributes(properties, names, n);
    lemma_attributes_written_of(properties, names, n, name);
    if exists|value: AttributeView| #[trigger] has_attribute(properties, name, value) {
        let value = choose|value: AttributeView| #[trigger] has_attribute(properties, name, value);
        let holder = choose|holder: Seq<char>| #[trigger]
            properties.contains_key(holder) && (
            properties[holder].value matches VariantView::Attributes(attributes)
                && attributes.contains_key(name) && attributes[name] == value);
        assert(names.to_set().contains(holder));
        let i = names.index_of(holder);
        assert(names[i] == holder);
        assert(holds_attribute(properties[names[i]].value, name));
    }
    if written.contains_key(name) {
        let i = choose|i: int|
            0 <= i < n && holds_attribute(properties[#[trigger] names[i]].value, name)
                && written[name] == Ok::<AttributeView, Seq<char>>(
                properties[names[i]].value->Attributes_0[name],
            );
        assert(names.to_set().contains(names[i]));
        assert(properties.contains_key(names[i]));
        assert(has_attribute(properties, name, written[name]->Ok_0));
    }
}

spec fn holds_attribute(value: VariantView, name: Seq<char>) -> bool {
    value matches VariantView::Attributes(attributes) && attributes.contains_key(name)
}

proof fn lemma_attributes_written_of(
    properties: Map<Seq<char>, PropertyView>,
    names: Seq<Seq<char>>,
    n: int,
    name: Seq<char>,
)
    requires
        0 <= n <= names.len(),
    ensures
        ({
            let written = written_attributes(properties, names, n);
            &&& written.contains_key(name) <==> !"RBX"@.is_prefix_of(name) && exists|i: int|
                0 <= i < n && holds_attribute(properties[#[trigger] names[i]].value, name)
            &&& written.contains_key(name) ==> exists|i: int|
                0 <= i < n && holds_attribute(properties[#[trigger] names[i]].value, name)
                    && written[name] == Ok::<AttributeView, Seq<char>>(
                    properties[names[i]].value->Attributes_0[name],
                )
        }),
    decreases n,
{
    if n > 0 {
        lemma_attributes_written_of(properties, names, n - 1, name);
        let before = written_attributes(properties, names, n - 1);
        let written = written_attributes(properties, names, n);
        if holds_attribute(properties[names[n - 1]].value, name) && !"RBX"@.is_prefix_of(name) {
            assert(written.contains_key(name));
        } else if before.contains_key(name) {
            let i = choose|i: int|
                0 <= i < n - 1 && holds_attribute(properties[#[trigger] names[i]].value, name)
                    && before[name] == Ok::<AttributeView, Seq<char>>(
                    properties[names[i]].value->Attributes_0[name],
                );
            assert(written[name] == Ok::<AttributeView, Seq<char>>(
                properties[names[i]].value->Attributes_0[name],
            ));
        }
    }
}

/// A property that a file lacks calls for the file to be written anew, unless it
/// is at its default or is the one that holds the attributes.
pub proof fn lemma_lost_properties_are_noticed(
    name: Seq<char>,
    in_file: bool,
    defaulted: bool,
    at_default: bool,
)
    ensures
        is_lost(name, in_file, defaulted, at_default) <==> !in_file && name != "Attributes"@ && (
        !defaulted || !at_default),
{
}

/// The first property of a file that is not as the instance has it decides: the
/// file is written anew where the instance lacks the property or has another
/// value, and the comparison fails where the value does not resolve.
pub proof fn lemma_first_differing_property_decides(
    property_names: Seq<Seq<char>>,
    properties: Map<Seq<char>, Result<VariantView, Seq<char>>>,
    attribute_names: Seq<Seq<char>>,
    attributes: Map<Seq<char>, Result<AttributeView, Seq<char>>>,
    instance: TreeInstanceView,
    close: Set<(u64, u64)>,
    i: int,
)
    requires
        0 <= i < property_names.len(),
        forall|j: int|
            0 <= j < i ==> {
                let name = #[trigger] property_names[j];
                instance.properties.contains_key(name) && (properties[name] matches Ok(value)
                    && values_close(instance.properties[name].value, value, close))
            },
    ensures
        ({
            let name = property_names[i];
            let verdict = reserialize_verdict(
                property_names,
                properties,
                attribute_names,
                attributes,
                instance,
                close,
            );
            if !instance.properties.contains_key(name) {
                verdict == Ok::<bool, Seq<char>>(true)
            } else {
                match properties[name] {
                    Err(reason) => verdict == Err::<bool, Seq<char>>(reason),
                    Ok(value) => !values_close(instance.properties[name].value, value, close)
                        ==> verdict == Ok::<bool, Seq<char>>(true),
                }
            }
        }),
{
    lemma_checks_from(property_names, properties, instance, close, 0, i);
}

proof fn lemma_checks_from(
    names: Seq<Seq<char>>,
    properties: Map<Seq<char>, Result<VariantView, Seq<char>>>,
    instance: TreeInstanceView,
    close: Set<(u64, u64)>,
    from: int,
    i: int,
)
    requires
        0 <= from <= i < names.len(),
        forall|j: int|
            0 <= j < i ==> {
                let name = #[trigger] names[j];
                instance.properties.contains_key(name) && (properties[name] matches Ok(value)
                    && values_close(instance.properties[name].value, value, close))
            },
    ensures
        properties_check(names, properties, instance.properties, close, from) == properties_check(
            names,
            properties,
            instance.properties,
            close,
            i,
        ),
    decreases i - from,
{
    if from < i {
        let name = names[from];
        lemma_checks_from(names, properties, instance, close, from + 1, i);
    }
}

/// Values that are equal are equal up to rounding. Others are only where both are
/// of a type without a form of its own and their numbers are close, or where both
/// hold attributes with the same names whose values are equal up to rounding.
pub proof fn lemma_values_are_close(a: VariantView, b: VariantView, close: Set<(u64, u64)>)
    ensures
        a == b ==> values_close(a, b, close),
        values_close(a, b, close) <==> {
            ||| a == b
            ||| a matches VariantView::Opaque(x) && b matches VariantView::Opaque(y)
                && close.contains((x, y))
            ||| a matches VariantView::Attributes(x) && b matches VariantView::Attributes(y) && {
                &&& forall|name: Seq<char>| #[trigger]
                    x.contains_key(name) <==> y.contains_key(name)
                &&& forall|name: Seq<char>| #[trigger]
                    x.contains_key(name) ==> attributes_close(x[name], y[name], close)
            }
        },
{
    if a is Attributes && b is Attributes {
        let x = a->Attributes_0;
        let y = b->Attributes_0;
        if forall|name: Seq<char>| #[trigger] x.contains_key(name) <==> y.contains_key(name) {
            assert(x.dom() =~= y.dom());
        }
        if x.dom() == y.dom() {
            assert forall|name: Seq<char>| #[trigger] x.contains_key(name) <==> y.contains_key(
                name,
            ) by {
                assert(x.dom().contains(name) == y.dom().contains(name));
            }
        }
    }
}

/// Attributes that are equal are equal up to rounding. Others are only where both
/// are of a type without a form of its own and their numbers are close.
pub proof fn lemma_attributes_are_close(a: AttributeView, b: AttributeView, close: Set<(u64, u64)>)
    ensures
        attributes_close(a, b, close) <==> a == b || (a matches AttributeView::Opaque(x)
            && b matches AttributeView::Opaque(y) && close.contains((x, y))),
{
}

/// Whether all values of a model, and of the models below it, resolve.
pub open spec fn resolves_everywhere(model: JsonModel) -> bool
    decreases model,
{
    &&& forall|name: Seq<char>| #[trigger]
        model.properties@.contains_key(name) ==> model.properties@[name] is Ok
    &&& forall|name: Seq<char>| #[trigger]
        model.attributes@.contains_key(name) ==> model.attributes@[name] is Ok
    &&& forall|i: int|
        0 <= i < model.children@.len() ==> resolves_everywhere(#[trigger] model.children@[i])
}

/// Whether a value of a model, or of a model below it, fails to resolve for a
/// reason.
pub open spec fn fails_somewhere(model: JsonModel, reason: Seq<char>) -> bool
    decreases model,
{
    ||| exists|name: Seq<char>| #[trigger]
        model.properties@.contains_key(name) && model.properties@[name] == Err::<
            VariantView,
            Seq<char>,
        >(reason)
    ||| exists|name: Seq<char>| #[trigger]
        model.attributes@.contains_key(name) && model.attributes@[name] == Err::<
            AttributeView,
            Seq<char>,
        >(reason)
    ||| exists|i: int|
        0 <= i < model.children@.len() && fails_somewhere(#[trigger] model.children@[i], reason)
}

/// Whether the names and the entries of the maps of a model, and of the models
/// below it, agree, as those of every map do.
pub open spec fn names_agree(model: JsonModel) -> bool
    decreases model,
{
    &&& model.properties@.dom() == model.properties.names().to_set()
    &&& model.attributes@.dom() == model.attributes.names().to_set()
    &&& forall|i: int|
        0 <= i < model.children@.len() ==> names_agree(#[trigger] model.children@[i])
}

proof fn lemma_failure_among<T>(
    names: Seq<Seq<char>>,
    values: Map<Seq<char>, Result<T, Seq<char>>>,
    i: int,
)
    requires
        0 <= i,
    ensures
        match failure_among(names, values, i) {
            Some(reason) => exists|j: int|
                i <= j < names.len() && values[#[trigger] names[j]] == Err::<T, Seq<char>>(reason),
            None => forall|j: int| i <= j < names.len() ==> values[#[trigger] names[j]] is Ok,
        },
    decreases names.len() - i,
{
    if i < names.len() {
        lemma_failure_among(names, values, i + 1);
        if let Err(reason) = values[names[i]] {
            assert(values[names[i]] == Err::<T, Seq<char>>(reason));
        }
    }
}

/// A model is read exactly if all its values, at every depth, resolve; otherwise
/// it is told why one of them does not.
pub proof fn lemma_models_are_read_when_they_resolve(model: JsonModel)
    requires
        names_agree(model),
    ensures
        model_failure(model) is None <==> resolves_everywhere(model),
        model_failure(model) matches Some(reason) ==> fails_somewhere(model, reason),
    decreases model, 1int, 0int,
{
    let properties = model.properties.names();
    let attributes = model.attributes.names();
    lemma_children_are_read(model, 0);
    lemma_failure_among(properties, model.properties@, 0);
    lemma_failure_among(attributes, model.attributes@, 0);
    assert forall|j: int| 0 <= j < properties.len() implies model.properties@.contains_key(
        #[trigger] properties[j],
    ) by {
        assert(properties.to_set().contains(properties[j]));
    }
    assert forall|j: int| 0 <= j < attributes.len() implies model.attributes@.contains_key(
        #[trigger] attributes[j],
    ) by {
        assert(attributes.to_set().contains(attributes[j]));
    }
    if model_failure(model) is None {
        assert forall|name: Seq<char>| #[trigger] model.properties@.contains_key(name) implies
            model.properties@[name] is Ok by {
            assert(properties.to_set().contains(name));
            let j = properties.index_of(name);
            assert(model.properties@[properties[j]] is Ok);
        }
        assert forall|name: Seq<char>| #[trigger] model.attributes@.contains_key(name) implies
            model.attributes@[name] is Ok by {
            assert(attributes.to_set().contains(name));
            let j = attributes.index_of(name);
            assert(model.attributes@[attributes[j]] is Ok);
        }
    }
}

proof fn lemma_children_are_read(model: JsonModel, i: int)
    requires
        names_agree(model),
        0 <= i <= model.children@.len(),
    ensures
        children_failure(model, i) is None <==> forall|j: int|
            i <= j < model.children@.len() ==> resolves_everywhere(#[trigger] model.children@[j]),
        children_failure(model, i) matches Some(reason) ==> exists|j: int|
            i <= j < model.children@.len() && fails_somewhere(
                #[trigger] model.children@[j],
                reason,
            ),
    decreases model, 0int, model.children@.len() - i,
{
    if i < model.children@.len() {
        assert(names_agree(model.children@[i]));
        lemma_models_are_read_when_they_resolve(model.children@[i]);
        lemma_children_are_read(model, i + 1);
        if let Some(reason) = model_failure(model.children@[i]) {
            assert(fails_somewhere(model.children@[i], reason));
        }
    }
}

/// The children of a model are read first, in order: the failure of the first that
/// fails is told, whatever else fails.
pub proof fn lemma_first_failing_child_is_told(model: JsonModel, i: int)
    requires
        0 <= i < model.children@.len(),
        forall|j: int| 0 <= j < i ==> model_failure(#[trigger] model.children@[j]) is None,
        model_failure(model.children@[i]) is Some,
    ensures
        model_failure(model) == model_failure(model.children@[i]),
{
    lemma_children_failure_from(model, 0, i);
}

proof fn lemma_children_failure_from(model: JsonModel, from: int, i: int)
    requires
        0 <= from <= i < model.children@.len(),
        forall|j: int| 0 <= j < i ==> model_failure(#[trigger] model.children@[j]) is None,
    ensures
        children_failure(model, from) == children_failure(model, i),
    decreases i - from,
{
    if from < i {
        assert(model_failure(model.children@[from]) is None);
        lemma_children_failure_from(model, from + 1, i);
    }
}

/// Whether a snapshot is what a model describes, at every depth: the name of the
/// model, or of its class where it has none; its class; each of its properties;
/// its attributes, if it has any, as the property `Attributes`; and its children,
/// one by one. It has neither an identifier nor metadata.
pub open spec fn is_read_from(snapshot: SnapshotView, model: ModelView) -> bool
    decreases model,
{
    &&& snapshot.snapshot_id == 0
    &&& snapshot.metadata.instigating_source is None
    &&& snapshot.metadata.relevant_paths.len() == 0
    &&& snapshot.metadata.context.sync_rules.len() == 0
    &&& snapshot.metadata.context.settings == 0
    &&& snapshot.metadata.specified_id is None
    &&& snapshot.metadata.middleware is None
    &&& snapshot.metadata.settings == 0
    &&& match model.name {
        Some(name) => snapshot.name == name,
        None => snapshot.name == model.class_name,
    }
    &&& snapshot.class_name == model.class_name
    &&& forall|name: Seq<char>|
        name != "Attributes"@ ==> (#[trigger] snapshot.properties.contains_key(name)
            <==> model.properties.contains_key(name))
    &&& forall|name: Seq<char>|
        name != "Attributes"@ && #[trigger] model.properties.contains_key(name) ==> (
        model.properties[name] matches Ok(value) ==> snapshot.properties[name] == value)
    &&& if model.attributes.dom().len() == 0 {
        &&& snapshot.properties.contains_key("Attributes"@) <==> model.properties.contains_key(
            "Attributes"@,
        )
        &&& model.properties.contains_key("Attributes"@) ==> (
        model.properties["Attributes"@] matches Ok(value) ==> snapshot.properties["Attributes"@]
            == value)
    } else {
        &&& snapshot.properties.contains_key("Attributes"@)
        &&& snapshot.properties["Attributes"@] matches VariantView::Attributes(attributes) && {
            &&& forall|name: Seq<char>| #[trigger]
                attributes.contains_key(name) <==> model.attributes.contains_key(name)
            &&& forall|name: Seq<char>| #[trigger]
                model.attributes.contains_key(name) ==> (model.attributes[name] matches Ok(value)
                    ==> attributes[name] == value)
        }
    }
    &&& snapshot.children.len() == model.children.len()
    &&& forall|i: int|
        0 <= i < model.children.len() ==> is_read_from(
            snapshot.children[i],
            #[trigger] model.children[i],
        )
}

/// The snapshot that is read from a model is what the model describes, at every
/// depth.
pub proof fn lemma_models_are_read_whole(model: ModelView)
    ensures
        is_read_from(model_snapshot(model), model),
    decreases model,
{
    let snapshot = model_snapshot(model);
    assert forall|i: int| 0 <= i < model.children.len() implies is_read_from(
        snapshot.children[i],
        #[trigger] model.children[i],
    ) by {
        lemma_models_are_read_whole(model.children[i]);
    }
}

/// The metadata of a model file name its path, once as what brought the instance
/// into being and once as the only path that matters, the context in which it was
/// read, and the identifier that the model gives; they say nothing else.
pub proof fn lemma_model_files_are_remembered(
    context: ContextView,
    path: Seq<char>,
    id: Option<Seq<char>>,
)
    ensures
        ({
            let metadata = model_metadata(context, path, id);
            &&& metadata.instigating_source == Some(path)
            &&& metadata.relevant_paths == seq![path]
            &&& metadata.context == context
            &&& metadata.specified_id == id
            &&& metadata.middleware is None
            &&& metadata.settings == 0
        }),
{
}

/// White space is what Unicode calls so.
pub proof fn lemma_white_space(c: char)
    ensures
        is_space(c) <==> {
            ||| c == ' '
            ||| c == '\t'
            ||| c == '\n'
            ||| c == '\r'
            ||| c == '\u{b}'
            ||| c == '\u{c}'
            ||| c == '\u{85}'
            ||| c == '\u{a0}'
            ||| c == '\u{1680}'
            ||| '\u{2000}' <= c <= '\u{200a}'
            ||| c == '\u{2028}'
            ||| c == '\u{2029}'
            ||| c == '\u{202f}'
            ||| c == '\u{205f}'
            ||| c == '\u{3000}'
        },
{
}

/// A text that holds a character that is no white space is not blank, and one that
/// holds none is.
pub proof fn lemma_blank_texts(text: Seq<char>)
    ensures
        is_blank(text) <==> forall|c: char| #[trigger] text.contains(c) ==> is_space(c),
{
    if is_blank(text) {
        assert forall|c: char| #[trigger] text.contains(c) implies is_space(c) by {
            let i = text.index_of(c);
            assert(is_space(text[i]));
        }
    } else {
        let i = choose|i: int| 0 <= i < text.len() && !is_space(#[trigger] text[i]);
        assert(text.contains(text[i]));
    }
}

/// Whether a snapshot is what is to be written of an instance and of all below it:
/// its name, its class, its children in their order, each property that the filter
/// leaves and that is neither at a known default nor a shared string, and each
/// attribute whose name does not start with `RBX`.
pub open spec fn is_written_of(
    snapshot: SnapshotView,
    dom: Dom,
    filtered: Map<u128, NameMap<Property>>,
    id: u128,
) -> bool
    decreases snapshot,
{
    let node = dom@[id];
    &&& snapshot.name == node.name
    &&& snapshot.class_name == node.class
    &&& snapshot.children.len() == node.children.len()
    &&& forall|i: int|
        0 <= i < node.children.len() ==> is_written_of(
            #[trigger] snapshot.children[i],
            dom,
            filtered,
            node.children[i],
        )
    &&& forall|name: Seq<char>|
        name != "Attributes"@ ==> (#[trigger] snapshot.properties.contains_key(name)
            <==> filtered.contains_key(id) && filtered[id]@.contains_key(name) && !(
        filtered[id]@[name].value is Attributes) && !(filtered[id]@[name].value is SharedString)
            && !(default_known(node.class, name) && filtered[id]@[name].at_default))
    &&& forall|name: Seq<char>|
        name != "Attributes"@ && #[trigger] snapshot.properties.contains_key(name)
            ==> snapshot.properties[name] == filtered[id]@[name].value
    &&& filtered.contains_key(id) ==> forall|name: Seq<char>, value: AttributeView|
        #[trigger] has_attribute(filtered[id]@, name, value) && !"RBX"@.is_prefix_of(name)
            ==> snapshot.properties.contains_key("Attributes"@) && (
        snapshot.properties["Attributes"@] matches VariantView::Attributes(attributes)
            && attributes.contains_key(name) && has_attribute(
            filtered[id]@,
            name,
            attributes[name],
        ))
}

/// Whether the names and the entries of some maps agree, and each property holds
/// finitely many attributes, as those of every map do.
pub open spec fn filter_names_agree(filtered: Map<u128, NameMap<Property>>) -> bool {
    forall|id: u128| #[trigger]
        filtered.contains_key(id) ==> filtered[id]@.dom() == filtered[id].names().to_set()
            && holds_finitely_many(filtered[id]@)
}

/// Whether each of some properties holds finitely many attributes.
pub open spec fn holds_finitely_many(properties: Map<Seq<char>, PropertyView>) -> bool {
    forall|name: Seq<char>| #[trigger]
        properties.contains_key(name) ==> (
        properties[name].value matches VariantView::Attributes(attributes)
            ==> attributes.dom().finite())
}

proof fn lemma_finite_attributes(
    properties: Map<Seq<char>, PropertyView>,
    names: Seq<Seq<char>>,
    n: int,
)
    requires
        0 <= n <= names.len(),
        properties.dom() == names.to_set(),
        holds_finitely_many(properties),
    ensures
        written_attributes(properties, names, n).dom().finite(),
    decreases n,
{
    if n > 0 {
        lemma_finite_attributes(properties, names, n - 1);
        let before = written_attributes(properties, names, n - 1);
        assert(names.to_set().contains(names[n - 1]));
        assert(properties.contains_key(names[n - 1]));
        if let VariantView::Attributes(attributes) = properties[names[n - 1]].value {
            let after = written_attributes(properties, names, n);
            assert(after.dom().subset_of(before.dom().union(attributes.dom())));
            vstd::set_lib::lemma_set_subset_finite(
                before.dom().union(attributes.dom()),
                after.dom(),
            );
        }
    }
}

/// What is read back from the model that was written for an instance is what was
/// to be written of it, at every depth.
pub proof fn lemma_models_are_written_whole(
    dom: Dom,
    filtered: Map<u128, NameMap<Property>>,
    id: u128,
)
    requires
        is_tree(dom@, dom.root(), dom.depths()),
        dom@.dom() == dom.depths().dom(),
        dom@.contains_key(id),
        filter_names_agree(filtered),
    ensures
        is_written_of(model_snapshot(pair_model(dom, filtered, id)), dom, filtered, id),
    decreases usize::MAX - dom.depths()[id],
{
    let node = dom@[id];
    let model = pair_model(dom, filtered, id);
    let snapshot = model_snapshot(model);
    assert(dom.depths().dom().contains(id));
    assert forall|i: int| 0 <= i < node.children.len() implies is_written_of(
        #[trigger] snapshot.children[i],
        dom,
        filtered,
        node.children[i],
    ) by {
        assert(is_below(dom@, dom.depths(), id, dom@[id].children[i]));
        assert(dom.depths().dom().contains(node.children[i]));
        lemma_models_are_written_whole(dom, filtered, node.children[i]);
        assert(snapshot.children[i] == model_snapshot(
            pair_model(dom, filtered, node.children[i]),
        ));
    }
    if filtered.contains_key(id) {
        let left = filtered[id]@;
        let names = filtered[id].names();
        let written = attributes_left(filtered, id);
        assert forall|name: Seq<char>, value: AttributeView|
            #[trigger] has_attribute(left, name, value) && !"RBX"@.is_prefix_of(name) implies
            snapshot.properties.contains_key("Attributes"@) && (
        snapshot.properties["Attributes"@] matches VariantView::Attributes(attributes)
            && attributes.contains_key(name) && has_attribute(left, name, attributes[name])) by {
            lemma_attributes_are_written(left, names, name);
            assert(written.contains_key(name));
            lemma_finite_attributes(left, names, names.len() as int);
            assert(written.dom().contains(name));
            if written.dom().len() == 0 {
                written.dom().lemma_len0_is_empty();
            }
        }
    }
}

/// The first model that is held against an old and a new instance decides where it
/// says anything by itself: the file is written anew where one of the two is
/// missing or they differ in name or class, and otherwise as what it holds of the
/// old instance says.
pub proof fn lemma_first_model_decides(queue: Seq<ModelNode>, against: Against)
    requires
        queue.len() > 0,
    ensures
        ({
            let node = queue[0];
            let verdict = queue_verdict(queue, against);
            let old_there = node.old matches Some(old) && against.tree.instances.contains_key(old);
            let new_there = node.new matches Some(new) && against.nodes.contains_key(new);
            if !old_there || !new_there {
                verdict == Ok::<bool, Seq<char>>(true)
            } else {
                let old_inst = against.tree.instances[node.old->0];
                let new_inst = against.nodes[node.new->0];
                let own = reserialize_verdict(
                    node.model.properties.names(),
                    node.model.properties@,
                    node.model.attributes.names(),
                    node.model.attributes@,
                    old_inst,
                    against.close,
                );
                if old_inst.name != new_inst.name || old_inst.class_name != new_inst.class {
                    verdict == Ok::<bool, Seq<char>>(true)
                } else if own != Ok::<bool, Seq<char>>(false) {
                    verdict == own
                } else {
                    exists|kids: Seq<ModelNode>| #[trigger]
                        are_kids(kids, node, old_inst, new_inst) && verdict == queue_verdict(
                            queue.drop_first() + kids,
                            against,
                        )
                }
            }
        }),
{
    let node = queue[0];
    let kids = child_nodes(node, against);
    if found(against.tree.instances, node.old) is Some && found(against.nodes, node.new) is Some {
        let old_inst = against.tree.instances[node.old->0];
        let new_inst = against.nodes[node.new->0];
        assert(are_kids(kids, node, old_inst, new_inst));
    }
}

/// Whether models are the children of one that have a child of the old and a child
/// of the new instance at their place, each held against those, in their order.
pub open spec fn are_kids(
    kids: Seq<ModelNode>,
    node: ModelNode,
    old_inst: TreeInstanceView,
    new_inst: NodeView,
) -> bool {
    &&& forall|i: int|
        0 <= i < kids.len() ==> i < node.model.children@.len() && i < old_inst.children.len() && i
            < new_inst.children.len() && (#[trigger] kids[i]) == (ModelNode {
            model: node.model.children@[i],
            old: Some(old_inst.children[i]),
            new: Some(new_inst.children[i]),
        })
    &&& kids.len() == node.model.children@.len() || kids.len() == old_inst.children.len()
        || kids.len() == new_inst.children.len()
}

/// A text file describes a string value with the given name that holds the text,
/// and nothing else. It is remembered with its own path first and that of its
/// metadata second.
pub proof fn lemma_text_files_are_string_values(
    context: ContextView,
    path: Seq<char>,
    meta_path: Seq<char>,
    name: Seq<char>,
    text: Seq<char>,
)
    ensures
        ({
            let snapshot = txt_snapshot(context, path, meta_path, name, text);
            &&& snapshot.name == name
            &&& snapshot.class_name == "StringValue"@
            &&& snapshot.snapshot_id == 0
            &&& snapshot.children.len() == 0
            &&& forall|property: Seq<char>| #[trigger]
                snapshot.properties.contains_key(property) <==> property == "Value"@
            &&& snapshot.properties["Value"@] == VariantView::String(text)
            &&& snapshot.metadata.instigating_source == Some(path)
            &&& snapshot.metadata.relevant_paths == seq![path, meta_path]
            &&& snapshot.metadata.context == context
            &&& snapshot.metadata.specified_id is None
            &&& snapshot.metadata.middleware is None
            &&& snapshot.metadata.settings == 0
        }),
{
}

/// The metadata of a file are beside it, under the name of the instance with
/// `.meta.json` behind it.
pub proof fn lemma_metadata_are_beside_the_file(path: Seq<char>, name: Seq<char>)
    ensures
        meta_name(name) == name + ".meta.json"@,
        last_component(path) is Some && parent_path(path) is Some ==> meta_path_of(path, name)
            == joined(parent_path(path)->0, name + ".meta.json"@),
        last_component(path) is None || parent_path(path) is None ==> meta_path_of(path, name)
            == joined(path, name + ".meta.json"@),
{
}

/// A string value has a text exactly if its property `Value` holds a string, and
/// that is the text.
pub proof fn lemma_text_of_string_value(values: Map<Seq<char>, VariantView>)
    ensures
        match txt_value(values) {
            Some(text) => values.contains_key("Value"@) && values["Value"@] == VariantView::String(
                text,
            ),
            None => values.contains_key("Value"@) ==> !(values["Value"@] is String),
        },
{
}

/// Beside a text all is said that is to be said of the instance but for its
/// `Value`, and nothing is written only where nothing is left to say.
pub proof fn lemma_all_but_the_text_is_said_beside(meta: AdjacentView)
    requires
        meta.properties.dom().finite(),
    ensures
        ({
            let said = txt_meta(meta);
            &&& said.only_properties == meta.only_properties
            &&& said.settings == meta.settings
            &&& forall|name: Seq<char>| #[trigger]
                said.properties.contains_key(name) <==> meta.properties.contains_key(name) && name
                    != "Value"@
            &&& forall|name: Seq<char>| #[trigger]
                said.properties.contains_key(name) ==> said.properties[name]
                    == meta.properties[name]
            &&& says_nothing(said) <==> meta.only_properties && forall|name: Seq<char>| #[trigger]
                meta.properties.contains_key(name) ==> name == "Value"@
        }),
{
    let said = txt_meta(meta);
    if said.properties.dom().len() == 0 {
        said.properties.dom().lemma_len0_is_empty();
        assert forall|name: Seq<char>| #[trigger] meta.properties.contains_key(name) implies name
            == "Value"@ by {
            assert(!said.properties.dom().contains(name));
        }
    }
    if forall|name: Seq<char>| #[trigger]
        meta.properties.contains_key(name) ==> name == "Value"@ {
        assert(said.properties.dom() =~= Set::empty());
    }
}

/// The snapshot of an instance alone has its name, its class and all its
/// properties with their values, and no children, identifier or metadata.
pub proof fn lemma_instances_are_taken_as_they_are(
    node: NodeView,
    properties: Map<Seq<char>, PropertyView>,
)
    ensures
        ({
            let snapshot = instance_snapshot(node, values_of(properties));
            &&& snapshot.name == node.name
            &&& snapshot.class_name == node.class
            &&& snapshot.children.len() == 0
            &&& snapshot.snapshot_id == 0
            &&& snapshot.metadata == blank_metadata()
            &&& forall|name: Seq<char>| #[trigger]
                snapshot.properties.contains_key(name) <==> properties.contains_key(name)
            &&& forall|name: Seq<char>| #[trigger]
                properties.contains_key(name) ==> snapshot.properties[name]
                    == properties[name].value
        }),
{
}

/// Blank metadata say nothing.
pub proof fn lemma_blank_metadata_say_nothing()
    ensures
        blank_metadata().instigating_source is None,
        blank_metadata().relevant_paths.len() == 0,
        blank_metadata().context.sync_rules.len() == 0,
        blank_metadata().context.settings == 0,
        blank_metadata().specified_id is None,
        blank_metadata().middleware is None,
        blank_metadata().settings == 0,
{
}

/// A model is held against the old tree and the new one, with the pairs that are close.
pub proof fn lemma_models_are_held_against_both_trees<'sync>(
    data: SyncbackData<'sync>,
    close: Closeness,
)
    ensures
        against_trees(data, close).tree == data.old_tree@,
        against_trees(data, close).nodes == data.new_tree@,
        against_trees(data, close).close == close@,
{
}

/// Where all properties of a file are as the instance has them, one that the file lacks
/// decides before the attributes are looked at; and where it lacks none, the first
/// attribute that is not as the instance has it decides as a property does.
pub proof fn lemma_attributes_are_compared_last(
    property_names: Seq<Seq<char>>,
    properties: Map<Seq<char>, Result<VariantView, Seq<char>>>,
    attribute_names: Seq<Seq<char>>,
    attributes: Map<Seq<char>, Result<AttributeView, Seq<char>>>,
    instance: TreeInstanceView,
    close: Set<(u64, u64)>,
)
    requires
        forall|j: int|
            0 <= j < property_names.len() ==> {
                let name = #[trigger] property_names[j];
                instance.properties.contains_key(name) && (properties[name] matches Ok(value)
                    && values_close(instance.properties[name].value, value, close))
            },
    ensures
        ({
            let have = instance.properties;
            let verdict = reserialize_verdict(
                property_names,
                properties,
                attribute_names,
                attributes,
                instance,
                close,
            );
            let lost = exists|name: Seq<char>| #[trigger]
                have.contains_key(name) && name != "Attributes"@ && !properties.contains_key(name)
                    && !(default_known(instance.class_name, name) && have[name].at_default);
            &&& lost ==> verdict == Ok::<bool, Seq<char>>(true)
            &&& !lost && have.contains_key("Attributes"@) ==> match have["Attributes"@].value {
                VariantView::Attributes(held) => {
                    &&& attributes.dom().len() != held.dom().len() ==> verdict == Ok::<
                        bool,
                        Seq<char>,
                    >(true)
                    &&& attributes.dom().len() == held.dom().len() ==> forall|i: int|
                        0 <= i < attribute_names.len() && (forall|j: int|
                            0 <= j < i ==> attribute_fits(
                                held,
                                attributes,
                                #[trigger] attribute_names[j],
                                close,
                            )) ==> {
                            let name = #[trigger] attribute_names[i];
                            if !held.contains_key(name) {
                                verdict == Ok::<bool, Seq<char>>(true)
                            } else {
                                match attributes[name] {
                                    Err(reason) => verdict == Err::<bool, Seq<char>>(reason),
                                    Ok(value) => !attributes_close(held[name], value, close)
                                        ==> verdict == Ok::<bool, Seq<char>>(true),
                                }
                            }
                        }
                },
                _ => verdict == Ok::<bool, Seq<char>>(true),
            }
            &&& !lost && !have.contains_key("Attributes"@) ==> verdict == Ok::<bool, Seq<char>>(
                attributes.dom().len() != 0,
            )
        }),
{
    let have = instance.properties;
    lemma_all_checks_pass(property_names, properties, instance, close, 0);
    if have.contains_key("Attributes"@) {
        if let VariantView::Attributes(held) = have["Attributes"@].value {
            assert forall|i: int|
                0 <= i < attribute_names.len() && (forall|j: int|
                    0 <= j < i ==> attribute_fits(
                        held,
                        attributes,
                        #[trigger] attribute_names[j],
                        close,
                    )) implies attributes_check(attribute_names, attributes, held, close, 0)
                == attributes_check(attribute_names, attributes, held, close, i)
                && #[trigger] attribute_names[i] == attribute_names[i] by {
                lemma_attribute_checks_from(attribute_names, attributes, held, close, 0, i);
            }
        }
    }
}

/// Whether an attribute of a file is as an instance has it.
pub open spec fn attribute_fits(
    held: Map<Seq<char>, AttributeView>,
    attributes: Map<Seq<char>, Result<AttributeView, Seq<char>>>,
    name: Seq<char>,
    close: Set<(u64, u64)>,
) -> bool {
    held.contains_key(name) && (attributes[name] matches Ok(value) && attributes_close(
        held[name],
        value,
        close,
    ))
}

proof fn lemma_all_checks_pass(
    names: Seq<Seq<char>>,
    properties: Map<Seq<char>, Result<VariantView, Seq<char>>>,
    instance: TreeInstanceView,
    close: Set<(u64, u64)>,
    from: int,
)
    requires
        0 <= from <= names.len(),
        forall|j: int|
            0 <= j < names.len() ==> {
                let name = #[trigger] names[j];
                instance.properties.contains_key(name) && (properties[name] matches Ok(value)
                    && values_close(instance.properties[name].value, value, close))
            },
    ensures
        properties_check(names, properties, instance.properties, close, from) is None,
    decreases names.len() - from,
{
    if from < names.len() {
        let name = names[from];
        lemma_all_checks_pass(names, properties, instance, close, from + 1);
    }
}

proof fn lemma_attribute_checks_from(
    names: Seq<Seq<char>>,
    attributes: Map<Seq<char>, Result<AttributeView, Seq<char>>>,
    held: Map<Seq<char>, AttributeView>,
    close: Set<(u64, u64)>,
    from: int,
    i: int,
)
    requires
        0 <= from <= i < names.len(),
        forall|j: int|
            0 <= j < i ==> attribute_fits(held, attributes, #[trigger] names[j], close),
    ensures
        attributes_check(names, attributes, held, close, from) == attributes_check(
            names,
            attributes,
            held,
            close,
            i,
        ),
    decreases i - from,
{
    if from < i {
        assert(attribute_fits(held, attributes, names[from], close));
        lemma_attribute_checks_from(names, attributes, held, close, from + 1, i);
    }
}

/// Where no child of a model fails, the first property that does not resolve is told of,
/// and where all properties resolve, the first attribute that does not.
pub proof fn lemma_properties_are_read_before_attributes(model: JsonModel, i: int)
    requires
        forall|j: int|
            0 <= j < model.children@.len() ==> model_failure(#[trigger] model.children@[j]) is None,
    ensures
        ({
            let names = model.properties.names();
            let values = model.properties@;
            0 <= i < names.len() && (forall|j: int|
                0 <= j < i ==> values[#[trigger] names[j]] is Ok) ==> (
            values[names[i]] matches Err(reason) ==> model_failure(model) == Some(reason))
        }),
        ({
            let names = model.attributes.names();
            let values = model.attributes@;
            (forall|j: int|
                0 <= j < model.properties.names().len()
                    ==> model.properties@[#[trigger] model.properties.names()[j]] is Ok) && 0 <= i
                < names.len() && (forall|j: int|
                0 <= j < i ==> values[#[trigger] names[j]] is Ok) ==> (
            values[names[i]] matches Err(reason) ==> model_failure(model) == Some(reason))
        }),
{
    lemma_no_child_fails(model, 0);
    lemma_first_failure(model.properties.names(), model.properties@, 0, i);
    lemma_first_failure(model.attributes.names(), model.attributes@, 0, i);
    lemma_failure_among(model.properties.names(), model.properties@, 0);
}

proof fn lemma_no_child_fails(model: JsonModel, from: int)
    requires
        0 <= from <= model.children@.len(),
        forall|j: int|
            0 <= j < model.children@.len() ==> model_failure(#[trigger] model.children@[j]) is None,
    ensures
        children_failure(model, from) is None,
    decreases model.children@.len() - from,
{
    if from < model.children@.len() {
        assert(model_failure(model.children@[from]) is None);
        lemma_no_child_fails(model, from + 1);
    }
}

proof fn lemma_first_failure<T>(
    names: Seq<Seq<char>>,
    values: Map<Seq<char>, Result<T, Seq<char>>>,
    from: int,
    i: int,
)
    requires
        0 <= from,
    ensures
        from <= i < names.len() && (forall|j: int|
            from <= j < i ==> values[#[trigger] names[j]] is Ok) ==> (
        values[names[i]] matches Err(reason) ==> failure_among(names, values, from) == Some(
            reason,
        )),
    decreases i - from,
{
    if from < i {
        lemma_first_failure(names, values, from + 1, i);
    }
}

/// Where several properties hold an attribute with the same name, the last of them counts.
pub proof fn lemma_last_attribute_counts(
    properties: Map<Seq<char>, PropertyView>,
    names: Seq<Seq<char>>,
    n: int,
    i: int,
    name: Seq<char>,
)
    requires
        0 <= i < n <= names.len(),
        !"RBX"@.is_prefix_of(name),
        properties[names[i]].value matches VariantView::Attributes(attributes)
            && attributes.contains_key(name),
        forall|j: int|
            i < j < n ==> !(properties[#[trigger] names[j]].value matches VariantView::Attributes(
                attributes,
            ) && attributes.contains_key(name)),
    ensures
        written_attributes(properties, names, n).contains_key(name),
        written_attributes(properties, names, n)[name] == Ok::<AttributeView, Seq<char>>(
            properties[names[i]].value->Attributes_0[name],
        ),
    decreases n,
{
    if i < n - 1 {
        lemma_last_attribute_counts(properties, names, n - 1, i, name);
        let last = properties[names[n - 1]].value;
    }
}

/// The instance of a model file bears the name that it is given, whatever the model says,
/// and remembers the file; all else of it is what the model describes.
pub proof fn lemma_model_files_are_read_whole(
    context: ContextView,
    path: Seq<char>,
    name: Seq<char>,
    model: ModelView,
)
    ensures
        ({
            let snapshot = model_file_snapshot(context, path, name, model);
            &&& snapshot.name == name
            &&& snapshot.metadata.instigating_source == Some(path)
            &&& snapshot.metadata.relevant_paths == seq![path]
            &&& snapshot.metadata.context == context
            &&& snapshot.metadata.specified_id == model.id
            &&& snapshot.metadata.middleware is None
            &&& snapshot.snapshot_id == 0
            &&& snapshot.class_name == model.class_name
            &&& snapshot.properties == model_snapshot(model).properties
            &&& snapshot.children == model_snapshot(model).children
        }),
{
}

/// The syncback of a JSON model adds one file where a model is to be written, with what it
/// is written as, and changes nothing else.
pub proof fn lemma_one_model_file_is_written(
    path: Seq<char>,
    contents: Option<Seq<u8>>,
    other: Seq<char>,
)
    ensures
        ({
            let changes = model_changes(path, contents);
            &&& changes.added_files.contains_key(other) <==> contents is Some && other == path
            &&& contents matches Some(contents) ==> changes.added_files[path] == contents
            &&& !changes.added_dirs.contains(other)
            &&& !changes.removed_files.contains(other)
            &&& !changes.removed_dirs.contains(other)
        }),
{
}

/// The syncback of a string value adds its text file and, where there is something to say
/// beside the text, the file of its metadata; it changes nothing else.
pub proof fn lemma_text_and_metadata_are_written(
    path: Seq<char>,
    contents: Seq<u8>,
    meta: Option<(Seq<char>, Seq<u8>)>,
    other: Seq<char>,
)
    ensures
        ({
            let changes = txt_changes(path, contents, meta);
            &&& changes.added_files.contains_key(other) <==> other == path || (
            meta matches Some((meta_path, _)) && other == meta_path)
            &&& !(meta matches Some((meta_path, _)) && meta_path == path)
                ==> changes.added_files[path] == contents
            &&& meta matches Some((meta_path, meta_contents)) ==> changes.added_files[meta_path]
                == meta_contents
            &&& !changes.added_dirs.contains(other)
            &&& !changes.removed_files.contains(other)
            &&& !changes.removed_dirs.contains(other)
        }),
{
}

} // verus!
