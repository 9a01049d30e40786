//! Strings in text files.

use vstd::prelude::*;
use vstd::string::{StrSliceExecFns, StringExecFns};
use vstd::utf8::{decode_utf8, encode_utf8, valid_utf8};

use crate::dom::{Instance, NodeView};
use crate::fs_snapshot::{no_fs_changes, FsSnapshot, FsView};
use crate::instance::{
    blank_metadata, ContextView, InstanceContext, InstanceMetadata, InstanceSnapshot, MetadataView,
    SnapshotView,
};
use crate::json_model::NotUtf8;
use crate::name_map::{entry, NameMap};
use crate::paths::{
    join, joined, last_component, parent_path, piece_of, portable, sibling_path, with_file_name,
};
use crate::plain::Plain;
use crate::syncback::SyncbackReturn;
use crate::syncback_snapshot::SyncbackSnapshot;
use crate::text::utf8_text;
use crate::variant::{values_of, Variant, VariantView};

verus! {

/// The name of the file that holds the metadata of an instance.
pub open spec fn meta_name(name: Seq<char>) -> Seq<char> {
    name + ".meta.json"@
}

/// The name of the file that holds the metadata of an instance.
fn meta_file_name(name: &str) -> (file_name: String)
    ensures
        file_name@ == meta_name(name@),
{
    let mut file_name = name.to_owned();
    file_name.append(".meta.json");
    file_name
}

/// The instance that a text file describes: a string value that holds the text.
pub open spec fn txt_snapshot(
    context: ContextView,
    path: Seq<char>,
    meta_path: Seq<char>,
    name: Seq<char>,
    text: Seq<char>,
) -> SnapshotView {
    SnapshotView {
        snapshot_id: 0,
        metadata: MetadataView {
            instigating_source: Some(path),
            relevant_paths: seq![path, meta_path],
            context,
            ..blank_metadata()
        },
        name,
        class_name: "StringValue"@,
        properties: Map::empty().insert("Value"@, VariantView::String(text)),
        children: Seq::empty(),
    }
}

/// The path of the metadata of a file.
pub open spec fn meta_path_of(path: Seq<char>, name: Seq<char>) -> Seq<char> {
    sibling_path(path, last_component(path), parent_path(path), meta_name(name))
}

/// The instance that a text file describes, before the metadata of the file
/// beside it are applied. The second of its relevant paths is that of the
/// metadata.
pub fn snapshot_txt(
    context: &InstanceContext,
    path: &str,
    name: &str,
    contents: &[u8],
) -> (snapshot: Result<InstanceSnapshot, NotUtf8>)
    ensures
        match snapshot {
            Ok(snapshot) => {
                &&& valid_utf8(contents@)
                &&& exists|directory: Seq<char>|
                    piece_of(directory, path@) && snapshot.contents() == txt_snapshot(
                        context.deep_view(),
                        path@,
                        #[trigger] joined(directory, meta_name(name@)),
                        name@,
                        decode_utf8(contents@),
                    )
                &&& portable(path@) ==> snapshot.contents() == txt_snapshot(
                    context.deep_view(),
                    path@,
                    meta_path_of(path@, name@),
                    name@,
                    decode_utf8(contents@),
                )
            },
            Err(_) => !valid_utf8(contents@),
        },
{
    let meta_path = with_file_name(path, meta_file_name(name).as_str());
    txt_instance(context, path, meta_path, name, contents)
}

/// The instance that a text file describes whose metadata are at the given path.
pub fn txt_instance(
    context: &InstanceContext,
    path: &str,
    meta_path: String,
    name: &str,
    contents: &[u8],
) -> (snapshot: Result<InstanceSnapshot, NotUtf8>)
    ensures
        match snapshot {
            Ok(snapshot) => valid_utf8(contents@) && snapshot.contents() == txt_snapshot(
                context.deep_view(),
                path@,
                meta_path@,
                name@,
                decode_utf8(contents@),
            ),
            Err(_) => !valid_utf8(contents@),
        },
{
    let text = match utf8_text(contents) {
        Some(text) => text,
        None => {
            return Err(NotUtf8);
        },
    };
    let mut properties: NameMap<Variant> = NameMap::new();
    properties.insert("Value".to_owned(), Variant::String(text));
    let mut relevant_paths: Vec<String> = Vec::new();
    relevant_paths.push(path.to_owned());
    relevant_paths.push(meta_path);
    assert(relevant_paths.deep_view() =~= seq![path@, meta_path@]);
    let metadata = InstanceMetadata {
        instigating_source: Some(path.to_owned()),
        relevant_paths,
        context: context.duplicate(),
        specified_id: None,
        middleware: None,
        settings: 0,
    };
    let snapshot = InstanceSnapshot {
        snapshot_id: 0,
        metadata,
        name: name.to_owned(),
        class_name: "StringValue".to_owned(),
        properties,
        children: Vec::new(),
    };
    assert(snapshot.contents().children =~= Seq::<SnapshotView>::empty());
    Ok(snapshot)
}

/// What the file beside another says of an instance.
#[derive(Debug)]
pub struct AdjacentMetadata {
    pub properties: NameMap<Variant>,
    /// Whether it says nothing else.
    pub only_properties: bool,
    /// A number for what else it says.
    pub settings: u64,
}

/// What an [`AdjacentMetadata`] holds.
pub struct AdjacentView {
    pub properties: Map<Seq<char>, VariantView>,
    pub only_properties: bool,
    pub settings: u64,
}

impl DeepView for AdjacentMetadata {
    type V = AdjacentView;

    open spec fn deep_view(&self) -> AdjacentView {
        AdjacentView {
            properties: self.properties@,
            only_properties: self.only_properties,
            settings: self.settings,
        }
    }
}

/// Why a text file cannot be written.
#[derive(Debug)]
pub enum TxtError {
    /// StringValues must have a `Value` property that is a String.
    NoValue,
    /// The metadata could not be made.
    Metadata(String),
}

/// The files to be written for a string value.
#[derive(Debug)]
pub struct TxtFiles {
    pub inst_snapshot: InstanceSnapshot,
    pub path: String,
    pub contents: Vec<u8>,
    /// The path of the metadata and what they are, if there are any.
    pub meta: Option<(String, AdjacentMetadata)>,
}

/// The text of a string value, if it has one.
pub open spec fn txt_value(values: Map<Seq<char>, VariantView>) -> Option<Seq<char>> {
    match entry(values, "Value"@) {
        Some(VariantView::String(text)) => Some(text),
        _ => None,
    }
}

/// The metadata without the property that the text file itself holds.
pub open spec fn txt_meta(meta: AdjacentView) -> AdjacentView {
    AdjacentView { properties: meta.properties.remove("Value"@), ..meta }
}

/// Whether metadata say nothing.
pub open spec fn says_nothing(meta: AdjacentView) -> bool {
    meta.properties.dom().len() == 0 && meta.only_properties
}

/// The snapshot of an instance alone.
pub open spec fn instance_snapshot(
    node: NodeView,
    values: Map<Seq<char>, VariantView>,
) -> SnapshotView {
    SnapshotView {
        snapshot_id: 0,
        metadata: blank_metadata(),
        name: node.name,
        class_name: node.class,
        properties: values,
        children: Seq::empty(),
    }
}

impl InstanceSnapshot {
    /// The snapshot of an instance, without its children.
    pub fn from_instance(instance: &Instance) -> (snapshot: InstanceSnapshot)
        ensures
            snapshot.contents() == instance_snapshot(
                instance.node(),
                values_of(instance.properties@),
            ),
    {
        let ghost names = instance.properties.names();
        let ghost target = values_of(instance.properties@);
        let mut properties: NameMap<Variant> = NameMap::new();
        let len: usize = instance.properties.len();
        let mut i: usize = 0;
        while i < len
            invariant
                i <= len,
                len == names.len(),
                names == instance.properties.names(),
                target == values_of(instance.properties@),
                instance.properties@.dom() == names.to_set(),
                forall|j: int|
                    0 <= j < i ==> properties@.contains_key(#[trigger] names[j])
                        && properties@[names[j]] == target[names[j]],
                forall|name: Seq<char>| #[trigger]
                    properties@.contains_key(name) ==> target.contains_key(name),
            decreases len - i,
        {
            let name = instance.properties.name_at(i);
            properties.insert(name.clone(), instance.properties.value_at(i).value.duplicate());
            i += 1;
        }
        proof {
            assert(properties@ =~= target);
        }
        let snapshot = InstanceSnapshot {
            snapshot_id: 0,
            metadata: InstanceMetadata::new(),
            name: instance.name.clone(),
            class_name: instance.class.clone(),
            properties,
            children: Vec::new(),
        };
        assert(snapshot.contents().children =~= Seq::<SnapshotView>::empty());
        snapshot
    }
}

/// The files to be written for a string value. `meta` is what is to be said
/// beside the text, or why that could not be made.
pub fn syncback_txt(
    snapshot: &SyncbackSnapshot,
    file_name: &str,
    meta: Result<AdjacentMetadata, String>,
) -> (files: Result<TxtFiles, TxtError>)
    requires
        snapshot.data.new_tree@.contains_key(snapshot.new),
    ensures
        ({
            let node = snapshot.data.new_tree@[snapshot.new];
            let values = values_of(snapshot.data.new_tree.properties_of(snapshot.new));
            match files {
                Ok(files) => {
                    &&& meta is Ok
                    &&& txt_value(values) matches Some(text) && files.contents@ == encode_utf8(text)
                    &&& files.path@ == joined(snapshot.parent_path@, file_name@)
                    &&& files.inst_snapshot.contents() == instance_snapshot(node, values)
                    &&& match files.meta {
                        Some((path, said)) => {
                            &&& said.deep_view() == txt_meta(meta->Ok_0.deep_view())
                            &&& !says_nothing(said.deep_view())
                            &&& path@ == joined(snapshot.parent_path@, meta_name(node.name))
                        },
                        None => says_nothing(txt_meta(meta->Ok_0.deep_view())),
                    }
                },
                Err(TxtError::NoValue) => txt_value(values) is None,
                Err(TxtError::Metadata(reason)) => txt_value(values) is Some && meta
                    == Err::<AdjacentMetadata, String>(reason),
            }
        }),
{
    let new_inst = snapshot.new_inst();
    let path = join(snapshot.parent_path.as_str(), file_name);
    let contents = match new_inst.properties.get("Value") {
        Some(property) => match &property.value {
            Variant::String(source) => source.as_str().as_bytes_vec(),
            _ => {
                return Err(TxtError::NoValue);
            },
        },
        None => {
            return Err(TxtError::NoValue);
        },
    };
    let mut meta = match meta {
        Ok(meta) => meta,
        Err(reason) => {
            return Err(TxtError::Metadata(reason));
        },
    };
    meta.properties.remove("Value");
    let inst_snapshot = InstanceSnapshot::from_instance(&new_inst);
    let meta = if meta.properties.is_empty() && meta.only_properties {
        None
    } else {
        let meta_path = join(
            snapshot.parent_path.as_str(),
            meta_file_name(new_inst.name.as_str()).as_str(),
        );
        Some((meta_path, meta))
    };
    Ok(TxtFiles { inst_snapshot, path, contents, meta })
}

/// The changes to a file system that the syncback of a string value asks for.
pub open spec fn txt_changes(
    path: Seq<char>,
    contents: Seq<u8>,
    meta: Option<(Seq<char>, Seq<u8>)>,
) -> FsView {
    let text = Map::empty().insert(path, contents);
    FsView {
        added_files: match meta {
            Some((meta_path, meta_contents)) => text.insert(meta_path, meta_contents),
            None => text,
        },
        ..no_fs_changes()
    }
}

impl TxtFiles {
    /// The syncback of a string value. `meta_contents` is what the metadata, if
    /// there are any, are written as.
    pub fn into_syncback<'sync>(self, meta_contents: Option<Vec<u8>>) -> (syncback: SyncbackReturn<
        'sync,
    >)
        requires
            self.meta is Some <==> meta_contents is Some,
        ensures
            syncback.inst_snapshot == self.inst_snapshot,
            syncback.children@.len() == 0,
            syncback.removed_children@.len() == 0,
            syncback.fs_snapshot.deep_view() == (FsView {
                added_files: {
                    let text = Map::empty().insert(self.path@, self.contents.deep_view());
                    match self.meta {
                        Some((path, _)) => text.insert(path@, meta_contents->0.deep_view()),
                        None => text,
                    }
                },
                ..no_fs_changes()
            }),
            syncback.fs_snapshot.deep_view() == txt_changes(
                self.path@,
                self.contents.deep_view(),
                match self.meta {
                    Some((path, _)) => Some((path@, meta_contents->0.deep_view())),
                    None => None,
                },
            ),
    {
        let mut fs_snapshot = FsSnapshot::new();
        fs_snapshot.add_file(self.path, self.contents);
        if let Some((path, _)) = self.meta {
            if let Some(contents) = meta_contents {
                fs_snapshot.add_file(path, contents);
            }
        }
        SyncbackReturn {
            inst_snapshot: self.inst_snapshot,
            fs_snapshot,
            children: Vec::new(),
            removed_children: Vec::new(),
        }
    }
}

/// What is read from a text file that was written for a string value is the
/// text of the value.
pub proof fn lemma_written_text_reads_back(
    context: ContextView,
    path: Seq<char>,
    meta_path: Seq<char>,
    name: Seq<char>,
    text: Seq<char>,
)
    ensures
        valid_utf8(encode_utf8(text)),
        txt_value(
            txt_snapshot(context, path, meta_path, name, decode_utf8(encode_utf8(text))).properties,
        ) == Some(text),
{
    vstd::utf8::encode_utf8_valid_utf8(text);
    vstd::utf8::encode_utf8_decode_utf8(text);
}

} // verus!
