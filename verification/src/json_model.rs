//! Instances in JSON model files.

use std::collections::HashMap;
use vstd::prelude::*;
use vstd::std_specs::hash::*;
use vstd::string::StrSliceExecFns;
use vstd::utf8::{decode_utf8, valid_utf8};

use crate::dom::{is_below, is_tree, Dom, NodeView};
use crate::fs_snapshot::{no_fs_changes, FsSnapshot, FsView};
use crate::instance::{
    blank_metadata, ContextView, InstanceContext, InstanceMetadata, InstanceSnapshot, MetadataView,
    SnapshotView,
};
use crate::name_map::{entry, NameMap};
use crate::plain::Plain;
use crate::reflection::default_known;
use crate::syncback::SyncbackReturn;
use crate::syncback_snapshot::{SyncbackData, SyncbackSnapshot};
use crate::text::utf8_text;
use crate::tree::TreeView;
use crate::txt::instance_snapshot;
use crate::unresolved::{
    all_resolve, file_matches, finitely_many, lemma_reserialized_when_different,
    node_should_reserialize, populate_unresolved_properties, reserialize_verdict, verdict_view,
    written_attributes, written_properties, Unresolved, UnresolvedAttribute, UnresolvedValue,
};
use crate::variant::{values_of, AttributeView, Property, PropertyView, Variant, VariantView};
use crate::variant_eq::Closeness;

verus! {

/// What a JSON model file holds.
#[derive(Debug)]
pub struct JsonModel {
    pub name: Option<String>,
    pub class_name: String,
    pub id: Option<String>,
    pub children: Vec<JsonModel>,
    pub properties: NameMap<UnresolvedValue>,
    pub attributes: NameMap<UnresolvedAttribute>,
}

/// What a [`JsonModel`] holds.
pub struct ModelView {
    pub name: Option<Seq<char>>,
    pub class_name: Seq<char>,
    pub id: Option<Seq<char>>,
    pub children: Seq<ModelView>,
    pub properties: Map<Seq<char>, Result<VariantView, Seq<char>>>,
    pub attributes: Map<Seq<char>, Result<AttributeView, Seq<char>>>,
}

impl JsonModel {
    /// What the model holds.
    pub open spec fn contents(self) -> ModelView
        decreases self,
    {
        ModelView {
            name: self.name.deep_view(),
            class_name: self.class_name@,
            id: self.id.deep_view(),
            children: Seq::new(
                self.children@.len(),
                |i: int|
                    if 0 <= i < self.children@.len() {
                        self.children@[i].contents()
                    } else {
                        arbitrary()
                    },
            ),
            properties: self.properties@,
            attributes: self.attributes@,
        }
    }
}

impl DeepView for JsonModel {
    type V = ModelView;

    open spec fn deep_view(&self) -> ModelView {
        self.contents()
    }
}

/// Why the first value, from the `i`-th on, that does not resolve does not.
pub open spec fn failure_among<T>(
    names: Seq<Seq<char>>,
    values: Map<Seq<char>, Result<T, Seq<char>>>,
    i: int,
) -> Option<Seq<char>>
    decreases names.len() - i,
{
    if i < 0 || i >= names.len() {
        None
    } else {
        match values[names[i]] {
            Ok(_) => failure_among(names, values, i + 1),
            Err(reason) => Some(reason),
        }
    }
}

/// Why the first value of a model that does not resolve does not. The values of
/// the children come first, then the properties, then the attributes.
pub open spec fn model_failure(model: JsonModel) -> Option<Seq<char>>
    decreases model, 1int, 0int,
{
    match children_failure(model, 0) {
        Some(reason) => Some(reason),
        None => match failure_among(model.properties.names(), model.properties@, 0) {
            Some(reason) => Some(reason),
            None => failure_among(model.attributes.names(), model.attributes@, 0),
        },
    }
}

/// [`model_failure`] for the children of a model, from the `i`-th on.
pub open spec fn children_failure(model: JsonModel, i: int) -> Option<Seq<char>>
    decreases model, 0int, model.children@.len() - i,
{
    if i < 0 || i >= model.children@.len() {
        None
    } else {
        match model_failure(model.children@[i]) {
            Some(reason) => Some(reason),
            None => children_failure(model, i + 1),
        }
    }
}

/// What values resolve to.
pub open spec fn resolved<T>(values: Map<Seq<char>, Result<T, Seq<char>>>) -> Map<Seq<char>, T> {
    values.map_values(|value: Result<T, Seq<char>>| value->Ok_0)
}

/// The properties of a model: its attributes, if there are any, are one of them.
pub open spec fn model_properties(model: ModelView) -> Map<Seq<char>, VariantView> {
    let properties = resolved(model.properties);
    if model.attributes.dom().len() == 0 {
        properties
    } else {
        properties.insert("Attributes"@, VariantView::Attributes(resolved(model.attributes)))
    }
}

/// The instance that a model describes. Without a name it bears that of its
/// class.
pub open spec fn model_snapshot(model: ModelView) -> SnapshotView
    decreases model,
{
    SnapshotView {
        snapshot_id: 0,
        metadata: blank_metadata(),
        name: match model.name {
            Some(name) => name,
            None => model.class_name,
        },
        class_name: model.class_name,
        properties: model_properties(model),
        children: Seq::new(
            model.children.len(),
            |i: int|
                if 0 <= i < model.children.len() {
                    model_snapshot(model.children[i])
                } else {
                    arbitrary()
                },
        ),
    }
}

/// What unresolved values resolve to, or why the first that does not resolve
/// does not.
fn resolve_all<V: Plain>(values: &NameMap<Unresolved<V>>) -> (properties: Result<
    NameMap<V>,
    String,
>)
    ensures
        match properties {
            Ok(properties) => failure_among(values.names(), values@, 0) is None && properties@
                == resolved(values@),
            Err(reason) => failure_among(values.names(), values@, 0) == Some(reason@),
        },
{
    let ghost names = values.names();
    let mut properties: NameMap<V> = NameMap::new();
    let len: usize = values.len();
    let mut i: usize = 0;
    while i < len
        invariant
            i <= len,
            len == names.len(),
            names == values.names(),
            names.no_duplicates(),
            values@.dom() == names.to_set(),
            failure_among(names, values@, 0) == failure_among(names, values@, i as int),
            properties.names() == names.take(i as int),
            forall|j: int|
                0 <= j < i ==> properties@.contains_key(#[trigger] names[j])
                    && properties@[names[j]] == values@[names[j]]->Ok_0,
            forall|name: Seq<char>| #[trigger]
                properties@.contains_key(name) ==> names.take(i as int).contains(name),
        decreases len - i,
    {
        let name = values.name_at(i);
        let ghost before = properties@;
        match &values.value_at(i).resolved {
            Ok(value) => {
                properties.insert(name.clone(), value.duplicate());
                proof {
                    assert forall|other: Seq<char>| #[trigger]
                        properties@.contains_key(other) implies names.take(i + 1).contains(
                        other,
                    ) by {
                        if !before.contains_key(other) {
                            assert(names.take(i + 1)[i as int] == other);
                        }
                    }
                }
            },
            Err(reason) => {
                return Err(reason.clone());
            },
        }
        i += 1;
    }
    Ok(properties)
}

impl JsonModel {
    /// The instance that the model describes, or why the first value that does
    /// not resolve does not.
    pub fn into_snapshot(self) -> (snapshot: Result<InstanceSnapshot, String>)
        ensures
            match snapshot {
                Ok(snapshot) => model_failure(self) is None && snapshot.contents()
                    == model_snapshot(self.contents()),
                Err(reason) => model_failure(self) == Some(reason@),
            },
        decreases self,
    {
        let ghost view = self.contents();
        let ghost kids = self.children@;
        let name = match self.name {
            Some(name) => name,
            None => self.class_name.clone(),
        };

        let mut children = self.children;
        let mut rest: Vec<JsonModel> = Vec::new();
        while children.len() > 0
            invariant
                children@.len() + rest@.len() == kids.len(),
                children@ == kids.take(children@.len() as int),
                forall|i: int|
                    0 <= i < rest@.len() ==> #[trigger] rest@[i] == kids[kids.len() - 1 - i],
            decreases children@.len(),
        {
            if let Some(child) = children.pop() {
                rest.push(child);
            }
        }
        let mut snapshots: Vec<InstanceSnapshot> = Vec::new();
        while rest.len() > 0
            invariant
                snapshots@.len() + rest@.len() == kids.len(),
                kids == self.children@,
                forall|i: int|
                    0 <= i < rest@.len() ==> #[trigger] rest@[i] == kids[kids.len() - 1 - i],
                children_failure(self, 0) == children_failure(self, snapshots@.len() as int),
                forall|i: int|
                    0 <= i < snapshots@.len() ==> (#[trigger] snapshots@[i]).contents()
                        == model_snapshot(kids[i].contents()),
            decreases rest@.len(),
        {
            if let Some(child) = rest.pop() {
                match child.into_snapshot() {
                    Ok(snapshot) => {
                        snapshots.push(snapshot);
                    },
                    Err(reason) => {
                        return Err(reason);
                    },
                }
            }
        }

        let mut properties = match resolve_all(&self.properties) {
            Ok(properties) => properties,
            Err(reason) => {
                return Err(reason);
            },
        };
        if !self.attributes.is_empty() {
            match resolve_all(&self.attributes) {
                Ok(attributes) => {
                    properties.insert("Attributes".to_owned(), Variant::Attributes(attributes));
                },
                Err(reason) => {
                    return Err(reason);
                },
            }
        } else {
            let _len: usize = self.attributes.len();
        }
        let snapshot = InstanceSnapshot {
            snapshot_id: 0,
            metadata: InstanceMetadata::new(),
            name,
            class_name: self.class_name,
            properties,
            children: snapshots,
        };
        proof {
            snapshot.lemma_children();
            assert(snapshot.contents().children =~= model_snapshot(view).children);
        }
        Ok(snapshot)
    }
}

/// The metadata of an instance that a model file describes.
pub open spec fn model_metadata(
    context: ContextView,
    path: Seq<char>,
    id: Option<Seq<char>>,
) -> MetadataView {
    MetadataView {
        instigating_source: Some(path),
        relevant_paths: seq![path],
        context,
        specified_id: id,
        ..blank_metadata()
    }
}

/// The snapshot of the instance that a model file describes.
pub open spec fn model_file_snapshot(
    context: ContextView,
    path: Seq<char>,
    name: Seq<char>,
    model: ModelView,
) -> SnapshotView {
    SnapshotView {
        metadata: model_metadata(context, path, model.id),
        name,
        ..model_snapshot(model)
    }
}

/// The instance that a JSON model file describes. It bears the given name
/// whatever the model says.
pub fn snapshot_json_model(
    context: &InstanceContext,
    path: &str,
    name: &str,
    model: JsonModel,
) -> (snapshot: Result<InstanceSnapshot, String>)
    ensures
        match snapshot {
            Ok(snapshot) => model_failure(model) is None && snapshot.contents() == (SnapshotView {
                metadata: model_metadata(
                    context.deep_view(),
                    path@,
                    model.contents().id,
                ),
                name: name@,
                ..model_snapshot(model.contents())
            }),
            Err(reason) => model_failure(model) == Some(reason@),
        },
        snapshot matches Ok(snapshot) ==> snapshot.contents() == model_file_snapshot(
            context.deep_view(),
            path@,
            name@,
            model.contents(),
        ),
{
    let id = match &model.id {
        Some(id) => Some(id.clone()),
        None => None,
    };
    match model.into_snapshot() {
        Ok(snapshot) => {
            let mut relevant_paths: Vec<String> = Vec::new();
            relevant_paths.push(path.to_owned());
            assert(relevant_paths.deep_view() =~= seq![path@]);
            let metadata = InstanceMetadata {
                instigating_source: Some(path.to_owned()),
                relevant_paths,
                context: context.duplicate(),
                specified_id: id,
                middleware: None,
                settings: 0,
            };
            let named = InstanceSnapshot {
                snapshot_id: snapshot.snapshot_id,
                metadata,
                name: name.to_owned(),
                class_name: snapshot.class_name,
                properties: snapshot.properties,
                children: snapshot.children,
            };
            Ok(named)
        },
        Err(reason) => Err(reason),
    }
}

/// Bytes that are not valid UTF-8.
#[derive(Debug, Clone, Copy, PartialEq, Eq, Structural)]
pub struct NotUtf8;

/// Whether a character is white space.
pub open spec fn is_space(c: char) -> bool {
    let code = c as u32;
    ||| 0x9 <= code <= 0xd
    ||| code == 0x20
    ||| code == 0x85
    ||| code == 0xa0
    ||| code == 0x1680
    ||| 0x2000 <= code <= 0x200a
    ||| code == 0x2028
    ||| code == 0x2029
    ||| code == 0x202f
    ||| code == 0x205f
    ||| code == 0x3000
}

/// Whether a text holds nothing but white space.
pub open spec fn is_blank(text: Seq<char>) -> bool {
    forall|i: int| 0 <= i < text.len() ==> is_space(#[trigger] text[i])
}

fn blank(text: &str) -> (yes: bool)
    ensures
        yes == is_blank(text@),
{
    let len: usize = text.unicode_len();
    let mut i: usize = 0;
    while i < len
        invariant
            i <= len,
            len == text@.len(),
            forall|j: int| 0 <= j < i ==> is_space(#[trigger] text@[j]),
        decreases len - i,
    {
        let code: u32 = text.get_char(i) as u32;
        let space = (0x9 <= code && code <= 0xd) || code == 0x20 || code == 0x85 || code == 0xa0
            || code == 0x1680 || (0x2000 <= code && code <= 0x200a) || code == 0x2028 || code
            == 0x2029 || code == 0x202f || code == 0x205f || code == 0x3000;
        if !space {
            return false;
        }
        i += 1;
    }
    true
}

/// The text of a JSON model file that is to be parsed: none where the file holds
/// nothing but white space, and so describes no instance.
pub fn json_model_text(contents: &[u8]) -> (text: Result<Option<String>, NotUtf8>)
    ensures
        match text {
            Ok(Some(text)) => valid_utf8(contents@) && text@ == decode_utf8(contents@)
                && !is_blank(text@),
            Ok(None) => valid_utf8(contents@) && is_blank(decode_utf8(contents@)),
            Err(_) => !valid_utf8(contents@),
        },
{
    match utf8_text(contents) {
        Some(text) => if blank(text.as_str()) {
            Ok(None)
        } else {
            Ok(Some(text))
        },
        None => Err(NotUtf8),
    }
}

/// The properties of an instance that are left by the filter of a project.
pub open spec fn left_by_filter(
    filtered: Map<u128, NameMap<Property>>,
    id: u128,
) -> Map<Seq<char>, PropertyView> {
    match entry(filtered, id) {
        Some(properties) => properties@,
        None => Map::empty(),
    }
}

/// The attributes that are written for an instance.
pub open spec fn attributes_left(
    filtered: Map<u128, NameMap<Property>>,
    id: u128,
) -> Map<Seq<char>, Result<AttributeView, Seq<char>>> {
    match entry(filtered, id) {
        Some(properties) => written_attributes(
            properties@,
            properties.names(),
            properties.names().len() as int,
        ),
        None => Map::empty(),
    }
}

/// The model of an instance of a tree and of all that is below it.
pub open spec fn pair_model(
    dom: Dom,
    filtered: Map<u128, NameMap<Property>>,
    id: u128,
) -> ModelView
    decreases usize::MAX - dom.depths()[id],
{
    let node = dom@[id];
    ModelView {
        name: Some(node.name),
        class_name: node.class,
        id: None,
        children: Seq::new(
            node.children.len(),
            |i: int|
                if dom.depths()[node.children[i]] > dom.depths()[id] {
                    pair_model(dom, filtered, node.children[i])
                } else {
                    arbitrary()
                },
        ),
        properties: written_properties(node.class, left_by_filter(filtered, id)),
        attributes: attributes_left(filtered, id),
    }
}

/// The model of an instance of the new tree and of all that is below it. Of each
/// instance only the properties in `filtered` are written.
fn json_model_from_pair(
    snapshot: &SyncbackSnapshot,
    filtered: &HashMap<u128, NameMap<Property>>,
    new: u128,
) -> (model: JsonModel)
    requires
        snapshot.data.new_tree@.contains_key(new),
    ensures
        model.contents() == pair_model(*snapshot.data.new_tree, filtered@, new),
    decreases usize::MAX - snapshot.data.new_tree.depths()[new],
{
    broadcast use group_hash_axioms;

    let _root: u128 = snapshot.data.new_tree.root_ref();
    let new_inst = snapshot.get_new_instance(new).unwrap();
    let ghost dom = *snapshot.data.new_tree;
    let none: NameMap<Property> = NameMap::new();
    let left = match filtered.get(&new) {
        Some(left) => left,
        None => &none,
    };
    let (properties, attributes) = populate_unresolved_properties(new_inst.class.as_str(), left);
    let mut children: Vec<JsonModel> = Vec::new();
    while children.len() < new_inst.children.len()
        invariant
            children@.len() <= new_inst.children@.len(),
            dom == *snapshot.data.new_tree,
            dom@.contains_key(new),
            new_inst.children@ == dom@[new].children,
            is_tree(dom@, dom.root(), dom.depths()),
            dom@.dom() == dom.depths().dom(),
            forall|i: int|
                0 <= i < children@.len() ==> (#[trigger] children@[i]).contents() == pair_model(
                    dom,
                    filtered@,
                    dom@[new].children[i],
                ),
        decreases new_inst.children@.len() - children@.len(),
    {
        let i: usize = children.len();
        children.push(json_model_from_pair(snapshot, filtered, new_inst.children[i]));
    }
    let model = JsonModel {
        name: Some(new_inst.name),
        class_name: new_inst.class,
        id: None,
        children,
        properties,
        attributes,
    };
    assert(model.contents().children =~= pair_model(dom, filtered@, new).children);
    model
}

/// What stands under a key that may not be there.
pub open spec fn found<V>(map: Map<u128, V>, id: Option<u128>) -> Option<V> {
    match id {
        Some(id) => entry(map, id),
        None => None,
    }
}

/// Whether the file of a model must be written anew: an instance is missing on
/// one side, differs in class, in name or in what the file holds of it, or this
/// is so of one of its children. Children are compared place by place, as long
/// as both sides have some.
pub open spec fn model_differs(
    model: ModelView,
    tree: TreeView,
    old: Option<u128>,
    nodes: Map<u128, NodeView>,
    new: Option<u128>,
    close: Set<(u64, u64)>,
) -> bool
    decreases model,
{
    match (found(tree.instances, old), found(nodes, new)) {
        (Some(old_inst), Some(new_inst)) => {
            ||| old_inst.class_name != new_inst.class
            ||| old_inst.name != new_inst.name
            ||| !file_matches(model.properties, model.attributes, old_inst, close)
            ||| exists|i: int|
                0 <= i < model.children.len() && i < old_inst.children.len() && i
                    < new_inst.children.len() && model_differs(
                    #[trigger] model.children[i],
                    tree,
                    Some(old_inst.children[i]),
                    nodes,
                    Some(new_inst.children[i]),
                    close,
                )
        },
        _ => true,
    }
}

/// A model that is held against an old and a new instance.
pub struct ModelNode {
    pub model: JsonModel,
    pub old: Option<u128>,
    pub new: Option<u128>,
}

/// What a model is held against: the old tree, the new one, and the values that
/// are equal up to rounding.
pub struct Against {
    pub tree: TreeView,
    pub nodes: Map<u128, NodeView>,
    pub close: Set<(u64, u64)>,
}

/// What a model says by itself of whether its file must be written anew, if
/// anything.
pub open spec fn node_verdict(node: ModelNode, against: Against) -> Option<
    Result<bool, Seq<char>>,
> {
    match (found(against.tree.instances, node.old), found(against.nodes, node.new)) {
        (Some(old_inst), Some(new_inst)) => if old_inst.class_name != new_inst.class
            || old_inst.name != new_inst.name {
            Some(Ok(true))
        } else {
            match reserialize_verdict(
                node.model.properties.names(),
                node.model.properties@,
                node.model.attributes.names(),
                node.model.attributes@,
                old_inst,
                against.close,
            ) {
                Ok(false) => None,
                verdict => Some(verdict),
            }
        },
        _ => Some(Ok(true)),
    }
}

/// How many children of a model have both an old and a new instance at their
/// place.
pub open spec fn shared_children(node: ModelNode, against: Against) -> nat {
    match (found(against.tree.instances, node.old), found(against.nodes, node.new)) {
        (Some(old_inst), Some(new_inst)) => {
            let children = node.model.children@.len();
            let olds = old_inst.children.len();
            let news = new_inst.children.len();
            if children <= olds && children <= news {
                children
            } else if olds <= news {
                olds
            } else {
                news
            }
        },
        _ => 0,
    }
}

/// The children of a model, held against the children at their places.
pub open spec fn child_nodes(node: ModelNode, against: Against) -> Seq<ModelNode> {
    Seq::new(
        shared_children(node, against),
        |i: int|
            ModelNode {
                model: node.model.children@[i],
                old: Some(found(against.tree.instances, node.old)->0.children[i]),
                new: Some(found(against.nodes, node.new)->0.children[i]),
            },
    )
}

/// The number of models in a model.
pub open spec fn model_size(model: JsonModel) -> nat
    decreases model, 1int, 0int,
{
    1 + children_size(model, model.children@.len() as int)
}

/// The number of models in the first `n` children of a model.
pub open spec fn children_size(model: JsonModel, n: int) -> nat
    decreases model, 0int, n,
{
    if n <= 0 || n > model.children@.len() {
        0
    } else {
        children_size(model, n - 1) + model_size(model.children@[n - 1])
    }
}

/// The number of models in those of a queue.
pub open spec fn queue_size(queue: Seq<ModelNode>) -> nat
    decreases queue.len(),
{
    if queue.len() == 0 {
        0
    } else {
        queue_size(queue.drop_last()) + model_size(queue.last().model)
    }
}

/// What the models of a queue, and the models below them, say of whether the file
/// must be written anew. They are asked level by level, and the first that says
/// anything decides.
pub open spec fn queue_verdict(queue: Seq<ModelNode>, against: Against) -> Result<bool, Seq<char>>
    decreases queue_size(queue),
{
    proof {
        lemma_queue_shrinks(queue, against);
    }
    if queue.len() == 0 {
        Ok(false)
    } else {
        match node_verdict(queue[0], against) {
            Some(verdict) => verdict,
            None => queue_verdict(queue.drop_first() + child_nodes(queue[0], against), against),
        }
    }
}

proof fn lemma_queue_joined(a: Seq<ModelNode>, b: Seq<ModelNode>)
    ensures
        queue_size(a + b) == queue_size(a) + queue_size(b),
    decreases b.len(),
{
    if b.len() == 0 {
        assert(a + b =~= a);
    } else {
        assert((a + b).drop_last() =~= a + b.drop_last());
        lemma_queue_joined(a, b.drop_last());
    }
}

proof fn lemma_children_sizes(node: ModelNode, against: Against, n: int)
    requires
        0 <= n <= child_nodes(node, against).len(),
    ensures
        queue_size(child_nodes(node, against).take(n)) == children_size(node.model, n),
    decreases n,
{
    if n > 0 {
        let nodes = child_nodes(node, against);
        assert(nodes.take(n).drop_last() =~= nodes.take(n - 1));
        lemma_children_sizes(node, against, n - 1);
    }
}

proof fn lemma_children_grow(model: JsonModel, n: int, m: int)
    requires
        0 <= n <= m <= model.children@.len(),
    ensures
        children_size(model, n) <= children_size(model, m),
    decreases m - n,
{
    if n < m {
        lemma_children_grow(model, n, m - 1);
    }
}

/// A queue whose first model gives way to its children is smaller.
pub proof fn lemma_queue_shrinks(queue: Seq<ModelNode>, against: Against)
    ensures
        queue.len() > 0 ==> queue_size(queue.drop_first() + child_nodes(queue[0], against))
            < queue_size(queue),
{
    if queue.len() > 0 {
        let first = queue[0];
        let nodes = child_nodes(first, against);
        let n = nodes.len() as int;
        lemma_queue_joined(seq![first], queue.drop_first());
        assert(seq![first] + queue.drop_first() =~= queue);
        assert(seq![first].drop_last() =~= Seq::<ModelNode>::empty());
        assert(queue_size(Seq::<ModelNode>::empty()) == 0);
        assert(queue_size(seq![first]) == model_size(first.model));
        lemma_queue_joined(queue.drop_first(), nodes);
        lemma_children_sizes(first, against, n);
        assert(nodes.take(n) =~= nodes);
        lemma_children_grow(first.model, n, first.model.children@.len() as int);
    }
}

/// The model of the new instance of a snapshot, and of all that is below it. Of
/// each instance only the properties in `filtered` are written. The instance
/// itself needs no name, but those below it do.
pub fn new_json_model(
    snapshot: &SyncbackSnapshot,
    filtered: &HashMap<u128, NameMap<Property>>,
) -> (model: JsonModel)
    requires
        snapshot.data.new_tree@.contains_key(snapshot.new),
    ensures
        model.contents() == (ModelView {
            name: None,
            ..pair_model(*snapshot.data.new_tree, filtered@, snapshot.new)
        }),
{
    let named = json_model_from_pair(snapshot, filtered, snapshot.new);
    let model = JsonModel {
        name: None,
        class_name: named.class_name,
        id: named.id,
        children: named.children,
        properties: named.properties,
        attributes: named.attributes,
    };
    assert(model.contents().children =~= named.contents().children);
    model
}

/// What a model of the new instance of a snapshot is held against.
pub open spec fn against_trees(data: SyncbackData, close: Closeness) -> Against {
    Against { tree: data.old_tree@, nodes: data.new_tree@, close: close@ }
}

/// The queue whose entries are models and instances that are held against each
/// other.
spec fn queue_view(queue: Seq<(&JsonModel, Option<u128>, Option<u128>)>) -> Seq<ModelNode> {
    Seq::new(
        queue.len(),
        |i: int| ModelNode { model: *queue[i].0, old: queue[i].1, new: queue[i].2 },
    )
}

/// Whether the file of a model must be written anew, or why the first value that
/// was looked at and does not resolve does not. `model` is the model of the new
/// instance of the snapshot, whose values resolve as they do once they are
/// written; `close` tells which values are equal up to rounding.
pub fn syncback_json_model(
    snapshot: &SyncbackSnapshot,
    model: &JsonModel,
    close: &Closeness,
) -> (anew: Result<bool, String>)
    ensures
        verdict_view(anew) == queue_verdict(
            seq![ModelNode { model: *model, old: snapshot.old, new: Some(snapshot.new) }],
            against_trees(snapshot.data, *close),
        ),
{
    let ghost against = against_trees(snapshot.data, *close);
    let mut queue: Vec<(&JsonModel, Option<u128>, Option<u128>)> = Vec::new();
    queue.push((model, snapshot.old, Some(snapshot.new)));
    let mut done: usize = 0;
    assert(queue_view(queue@).skip(0) =~= seq![
        ModelNode { model: *model, old: snapshot.old, new: Some(snapshot.new) },
    ]);
    while done < queue.len()
        invariant
            done <= queue@.len(),
            against == against_trees(snapshot.data, *close),
            queue_verdict(
                seq![ModelNode { model: *model, old: snapshot.old, new: Some(snapshot.new) }],
                against,
            ) == queue_verdict(queue_view(queue@).skip(done as int), against),
        decreases queue_size(queue_view(queue@).skip(done as int)),
    {
        let (node, old, new) = queue[done];
        let ghost nodes = queue_view(queue@).skip(done as int);
        let ghost first = ModelNode { model: *node, old, new };
        proof {
            assert(nodes[0] == first);
            lemma_queue_shrinks(nodes, against);
        }
        let old_inst = match old {
            Some(old) => match snapshot.get_old_instance(old) {
                Some(old_inst) => old_inst,
                None => {
                    return Ok(true);
                },
            },
            None => {
                return Ok(true);
            },
        };
        let new_inst = match new {
            Some(new) => match snapshot.get_new_instance(new) {
                Some(new_inst) => new_inst,
                None => {
                    return Ok(true);
                },
            },
            None => {
                return Ok(true);
            },
        };
        if !old_inst.class_name.same(&new_inst.class) || !old_inst.name.same(&new_inst.name) {
            return Ok(true);
        }
        match node_should_reserialize(&node.properties, &node.attributes, &old_inst, close) {
            Ok(true) => {
                return Ok(true);
            },
            Ok(false) => {},
            Err(reason) => {
                return Err(reason);
            },
        }
        let ghost before = queue_view(queue@);
        let mut i: usize = 0;
        while i < node.children.len() && i < old_inst.children.len() && i < new_inst.children.len()
            invariant
                i <= shared_children(first, against),
                against == against_trees(snapshot.data, *close),
                first == (ModelNode { model: *node, old, new }),
                found(against.tree.instances, old) == Some(old_inst@),
                found(against.nodes, new) == Some(new_inst.node()),
                queue_view(queue@) == before + child_nodes(first, against).take(i as int),
            ensures
                i == shared_children(first, against),
            decreases node.children@.len() - i,
        {
            let ghost so_far = queue_view(queue@);
            queue.push((&node.children[i], Some(old_inst.children[i]), Some(new_inst.children[i])));
            proof {
                assert(queue_view(queue@) =~= so_far.push(child_nodes(first, against)[i as int]));
                assert(child_nodes(first, against).take(i + 1) =~= child_nodes(
                    first,
                    against,
                ).take(i as int).push(child_nodes(first, against)[i as int]));
            }
            i += 1;
        }
        proof {
            let kids = child_nodes(first, against);
            assert(kids.take(i as int) =~= kids);
            assert(queue_view(queue@).skip(done + 1) =~= nodes.drop_first() + kids);
        }
        done += 1;
    }
    Ok(false)
}

/// Whether all values of a model and of the models below it resolve, and the
/// names and entries of its maps agree, as those of every map do.
pub open spec fn model_resolves(model: JsonModel) -> bool
    decreases model,
{
    &&& all_resolve(model.properties@, model.attributes@)
    &&& model.properties@.dom() == model.properties.names().to_set()
    &&& model.attributes@.dom() == model.attributes.names().to_set()
    &&& model.attributes@.dom().finite()
    &&& forall|i: int|
        0 <= i < model.children@.len() ==> model_resolves(#[trigger] model.children@[i])
}

/// Whether one of the models of a queue differs from what it is held against.
pub open spec fn any_differs(queue: Seq<ModelNode>, against: Against) -> bool {
    exists|i: int| 0 <= i < queue.len() && node_differs(#[trigger] queue[i], against)
}

/// Whether a model differs from what it is held against.
pub open spec fn node_differs(node: ModelNode, against: Against) -> bool {
    model_differs(
        node.model.contents(),
        against.tree,
        node.old,
        against.nodes,
        node.new,
        against.close,
    )
}

/// Where all its values resolve, a model is written anew exactly if it differs
/// from the old and the new instance, or a model below it does. In which order
/// they are asked then makes no difference.
pub proof fn lemma_models_are_written_when_they_differ(queue: Seq<ModelNode>, against: Against)
    requires
        forall|i: int| 0 <= i < queue.len() ==> model_resolves((#[trigger] queue[i]).model),
        forall|id: u128| #[trigger]
            against.tree.instances.contains_key(id) ==> finitely_many(
                entry(against.tree.instances[id].properties, "Attributes"@),
            ),
    ensures
        queue_verdict(queue, against) == Ok::<bool, Seq<char>>(any_differs(queue, against)),
    decreases queue_size(queue),
{
    lemma_queue_shrinks(queue, against);
    if queue.len() > 0 {
        let first = queue[0];
        let model = first.model;
        let rest = queue.drop_first();
        let kids = child_nodes(first, against);
        if let Some(old_inst) = found(against.tree.instances, first.old) {
            lemma_reserialized_when_different(
                model.properties.names(),
                model.properties@,
                model.attributes.names(),
                model.attributes@,
                old_inst,
                against.close,
            );
        }
        assert(model_resolves(model));
        if node_verdict(first, against) is None {
            assert forall|i: int| 0 <= i < (rest + kids).len() implies model_resolves(
                (#[trigger] (rest + kids)[i]).model,
            ) by {
                if i < rest.len() {
                    assert((rest + kids)[i] == queue[i + 1]);
                }
            }
            lemma_models_are_written_when_they_differ(rest + kids, against);
            lemma_first_differs(queue, against);
        } else {
            assert(node_differs(first, against));
        }
    }
}

/// A queue whose first model says nothing by itself differs exactly if what is
/// left of it, or one of the children of the first, does.
proof fn lemma_first_differs(queue: Seq<ModelNode>, against: Against)
    requires
        queue.len() > 0,
        node_verdict(queue[0], against) is None,
        model_resolves(queue[0].model),
        forall|id: u128| #[trigger]
            against.tree.instances.contains_key(id) ==> finitely_many(
                entry(against.tree.instances[id].properties, "Attributes"@),
            ),
    ensures
        any_differs(queue, against) == any_differs(
            queue.drop_first() + child_nodes(queue[0], against),
            against,
        ),
{
    let first = queue[0];
    let model = first.model;
    let rest = queue.drop_first();
    let kids = child_nodes(first, against);
    let old_inst = found(against.tree.instances, first.old)->0;
    let new_inst = found(against.nodes, first.new)->0;
    lemma_reserialized_when_different(
        model.properties.names(),
        model.properties@,
        model.attributes.names(),
        model.attributes@,
        old_inst,
        against.close,
    );
    assert forall|i: int| 0 <= i < kids.len() implies node_differs(#[trigger] kids[i], against)
        == model_differs(
        model.contents().children[i],
        against.tree,
        Some(old_inst.children[i]),
        against.nodes,
        Some(new_inst.children[i]),
        against.close,
    ) by {}
    if any_differs(queue, against) {
        let i = choose|i: int| 0 <= i < queue.len() && node_differs(#[trigger] queue[i], against);
        if i > 0 {
            assert((rest + kids)[i - 1] == queue[i]);
        } else {
            let k = choose|k: int|
                0 <= k < model.contents().children.len() && k < old_inst.children.len() && k
                    < new_inst.children.len() && model_differs(
                    #[trigger] model.contents().children[k],
                    against.tree,
                    Some(old_inst.children[k]),
                    against.nodes,
                    Some(new_inst.children[k]),
                    against.close,
                );
            assert(node_differs(kids[k], against));
            assert((rest + kids)[rest.len() + k] == kids[k]);
        }
    }
    if any_differs(rest + kids, against) {
        let i = choose|i: int|
            0 <= i < (rest + kids).len() && node_differs(#[trigger] (rest + kids)[i], against);
        if i < rest.len() {
            assert(queue[i + 1] == (rest + kids)[i]);
        } else {
            let k = i - rest.len();
            assert(kids[k] == (rest + kids)[i]);
            assert(model.contents().children[k] == model.children@[k].contents());
            assert(node_differs(queue[0], against));
        }
    }
}

/// The changes to a file system that the syncback of a JSON model asks for.
pub open spec fn model_changes(path: Seq<char>, contents: Option<Seq<u8>>) -> FsView {
    match contents {
        Some(contents) => FsView {
            added_files: Map::empty().insert(path, contents),
            ..no_fs_changes()
        },
        None => no_fs_changes(),
    }
}

/// The syncback of an instance with a JSON model. `contents` is what the model,
/// if one is to be written, is written as.
pub fn json_model_syncback<'sync>(
    snapshot: &SyncbackSnapshot<'sync>,
    path: String,
    contents: Option<Vec<u8>>,
) -> (syncback: SyncbackReturn<'sync>)
    requires
        snapshot.data.new_tree@.contains_key(snapshot.new),
    ensures
        syncback.inst_snapshot.contents() == instance_snapshot(
            snapshot.data.new_tree@[snapshot.new],
            values_of(snapshot.data.new_tree.properties_of(snapshot.new)),
        ),
        syncback.children@.len() == 0,
        syncback.removed_children@.len() == 0,
        syncback.fs_snapshot.deep_view() == match contents {
            Some(contents) => FsView {
                added_files: Map::empty().insert(path@, contents.deep_view()),
                ..no_fs_changes()
            },
            None => no_fs_changes(),
        },
        syncback.fs_snapshot.deep_view() == model_changes(path@, contents.deep_view()),
{
    let fs_snapshot = match contents {
        Some(contents) => FsSnapshot::new().with_added_file(path, contents),
        None => FsSnapshot::new(),
    };
    SyncbackReturn {
        inst_snapshot: InstanceSnapshot::from_instance(&snapshot.new_inst()),
        fs_snapshot,
        children: Vec::new(),
        removed_children: Vec::new(),
    }
}

/// A model file is written for an instance that is new.
pub proof fn lemma_new_instance_is_written(node: ModelNode, against: Against)
    requires
        found(against.tree.instances, node.old) is None,
    ensures
        queue_verdict(seq![node], against) == Ok::<bool, Seq<char>>(true),
{
}

/// What is read back from a model that was written for an instance is the
/// instance: its name, its class, its children, and each property that is left by
/// the filter and is not at a known default. Attributes are written apart, and
/// shared strings are not written.
pub proof fn lemma_written_model_reads_back(
    dom: Dom,
    filtered: Map<u128, NameMap<Property>>,
    id: u128,
)
    requires
        is_tree(dom@, dom.root(), dom.depths()),
        dom@.dom() == dom.depths().dom(),
        dom@.contains_key(id),
    ensures
        ({
            let node = dom@[id];
            let left = left_by_filter(filtered, id);
            let snapshot = model_snapshot(pair_model(dom, filtered, id));
            &&& snapshot.name == node.name
            &&& snapshot.class_name == node.class
            &&& snapshot.children.len() == node.children.len()
            &&& forall|i: int|
                0 <= i < node.children.len() ==> #[trigger] snapshot.children[i] == model_snapshot(
                    pair_model(dom, filtered, node.children[i]),
                )
            &&& forall|name: Seq<char>|
                name != "Attributes"@ ==> #[trigger] entry(snapshot.properties, name)
                    == if left.contains_key(name) && !(left[name].value is Attributes) && !(
                left[name].value is SharedString) && !(default_known(node.class, name)
                    && left[name].at_default) {
                    Some(left[name].value)
                } else {
                    None
                }
            &&& attributes_left(filtered, id).dom().len() != 0 ==> entry(
                snapshot.properties,
                "Attributes"@,
            ) == Some(VariantView::Attributes(resolved(attributes_left(filtered, id))))
        }),
{
    let node = dom@[id];
    let model = pair_model(dom, filtered, id);
    let snapshot = model_snapshot(model);
    assert forall|i: int| 0 <= i < node.children.len() implies #[trigger] snapshot.children[i]
        == model_snapshot(pair_model(dom, filtered, node.children[i])) by {
        assert(dom.depths().dom().contains(id));
        assert(is_below(dom@, dom.depths(), id, dom@[id].children[i]));
    }
}

} // verus!




