//! Writing a changed tree back to files.

use std::collections::HashMap;
use vstd::prelude::*;
use vstd::std_specs::hash::*;
use vstd::string::StrSliceExecFns;

use crate::dom::{
    get_inst_path, is_tree, lemma_path_of_child, names_to, pruned_depths, pruned_node, Dom,
    Instance,
};
use crate::fs_snapshot::{merged, no_fs_changes, FsSnapshot, FsView};
use crate::instance::InstanceSnapshot;
use crate::middleware::{directory_middleware, writer_of, Middleware};
use crate::name_map::entry;
use crate::paths::{join, joined, portable};
use crate::plain::Plain;
use crate::syncback_snapshot::{
    local_path, may_allow, path_allowed, plain_patterns, surely_refused, RulesView, SyncbackData,
    SyncbackRules, SyncbackSnapshot,
};
use crate::text::{same_text, slash_joined, strip_prefix, strip_suffix};
use crate::tree::InstanceWithMeta;
use crate::variant::{PropertyView, Variant, VariantView};

verus! {

/// What the syncback of one instance gives.
pub struct SyncbackReturn<'sync> {
    pub inst_snapshot: InstanceSnapshot,
    pub fs_snapshot: FsSnapshot,
    pub children: Vec<SyncbackSnapshot<'sync>>,
    pub removed_children: Vec<InstanceWithMeta<'sync>>,
}

/// The classes that become JSON models.
pub open spec fn json_model_class(class: Seq<char>) -> bool {
    ||| class == "Sound"@
    ||| class == "SoundGroup"@
    ||| class == "Sky"@
    ||| class == "Atmosphere"@
    ||| class == "BloomEffect"@
    ||| class == "BlurEffect"@
    ||| class == "ColorCorrectionEffect"@
    ||| class == "DepthOfFieldEffect"@
    ||| class == "SunRaysEffect"@
    ||| class == "ParticleEmitter"@
}

/// The middleware of a model file: readable where the environment asks for it.
pub open spec fn model_format(debug: Option<Seq<char>>) -> Middleware {
    if debug == Some("1"@) {
        Middleware::Rbxmx
    } else {
        Middleware::Rbxm
    }
}

/// One of two middleware, by whether an instance has children.
pub open spec fn by_children(alone: Middleware, parent: Middleware, children: bool) -> Middleware {
    if children {
        parent
    } else {
        alone
    }
}

/// The middleware that suits an instance best.
pub open spec fn best_middleware(
    class: Seq<char>,
    children: bool,
    debug: Option<Seq<char>>,
) -> Middleware {
    if json_model_class(class) {
        by_children(Middleware::JsonModel, Middleware::Dir, children)
    } else if class == "Folder"@ || class == "Configuration"@ || class == "Tool"@ {
        Middleware::Dir
    } else if class == "StringValue"@ {
        by_children(Middleware::Text, Middleware::Dir, children)
    } else if class == "Script"@ {
        by_children(Middleware::ServerScript, Middleware::ServerScriptDir, children)
    } else if class == "LocalScript"@ {
        by_children(Middleware::ClientScript, Middleware::ClientScriptDir, children)
    } else if class == "ModuleScript"@ {
        by_children(Middleware::ModuleScript, Middleware::ModuleScriptDir, children)
    } else if class == "LocalizationTable"@ {
        by_children(Middleware::Csv, Middleware::CsvDir, children)
    } else {
        model_format(debug)
    }
}

fn is_json_model_class(class: &str) -> (yes: bool)
    ensures
        yes == json_model_class(class@),
{
    same_text(class, "Sound") || same_text(class, "SoundGroup") || same_text(class, "Sky")
        || same_text(class, "Atmosphere") || same_text(class, "BloomEffect") || same_text(
        class,
        "BlurEffect",
    ) || same_text(class, "ColorCorrectionEffect") || same_text(class, "DepthOfFieldEffect")
        || same_text(class, "SunRaysEffect") || same_text(class, "ParticleEmitter")
}

/// The middleware of a model file. `debug` is the value of the environment
/// variable that asks for readable models.
fn model_middleware(debug: Option<&str>) -> (middleware: Middleware)
    ensures
        middleware == model_format(debug.deep_view()),
{
    match debug {
        Some(value) => if same_text(value, "1") {
            Middleware::Rbxmx
        } else {
            Middleware::Rbxm
        },
        None => Middleware::Rbxm,
    }
}

/// The middleware that suits an instance best. `debug` is the value of the
/// environment variable that asks for readable models.
pub fn get_best_middleware(inst: &Instance, debug: Option<&str>) -> (middleware: Middleware)
    ensures
        middleware == best_middleware(inst.class@, inst.children@.len() > 0, debug.deep_view()),
{
    let class = inst.class.as_str();
    let alone = inst.children.len() == 0;
    if is_json_model_class(class) {
        if alone {
            Middleware::JsonModel
        } else {
            Middleware::Dir
        }
    } else if same_text(class, "Folder") || same_text(class, "Configuration") || same_text(
        class,
        "Tool",
    ) {
        Middleware::Dir
    } else if same_text(class, "StringValue") {
        if alone {
            Middleware::Text
        } else {
            Middleware::Dir
        }
    } else if same_text(class, "Script") {
        if alone {
            Middleware::ServerScript
        } else {
            Middleware::ServerScriptDir
        }
    } else if same_text(class, "LocalScript") {
        if alone {
            Middleware::ClientScript
        } else {
            Middleware::ClientScriptDir
        }
    } else if same_text(class, "ModuleScript") {
        if alone {
            Middleware::ModuleScript
        } else {
            Middleware::ModuleScriptDir
        }
    } else if same_text(class, "LocalizationTable") {
        if alone {
            Middleware::Csv
        } else {
            Middleware::CsvDir
        }
    } else {
        model_middleware(debug)
    }
}

/// An instance with children becomes a directory or a model file, never a file
/// that cannot hold them; an instance without children becomes a directory only
/// if its class is a plain container.
pub proof fn lemma_best_middleware_fits(
    class: Seq<char>,
    children: bool,
    debug: Option<Seq<char>>,
)
    ensures
        ({
            let best = best_middleware(class, children, debug);
            &&& children ==> directory_middleware(best) || best == model_format(debug)
            &&& !children && directory_middleware(best) ==> class == "Folder"@ || class
                == "Configuration"@ || class == "Tool"@
        }),
{
}

/// What the last workspace among some instances says of the current camera.
pub open spec fn camera_among(dom: Dom, ids: Seq<u128>) -> Option<PropertyView>
    decreases ids.len(),
{
    if ids.len() == 0 {
        None
    } else if dom@[ids.last()].class == "Workspace"@ {
        entry(dom.properties_of(ids.last()), "CurrentCamera"@)
    } else {
        camera_among(dom, ids.drop_last())
    }
}

/// The current camera of a tree, if the workspace names one that is there.
pub open spec fn current_camera(dom: Dom) -> Option<u128> {
    match camera_among(dom, dom@[dom.root()].children) {
        Some(property) => match property.value {
            VariantView::Ref(camera) => if dom@.contains_key(camera) {
                Some(camera)
            } else {
                None
            },
            _ => None,
        },
        None => None,
    }
}

/// Whether the current camera is left out: there are rules, and they do not ask
/// for it.
pub open spec fn camera_left_out(rules: Option<RulesView>) -> bool {
    rules matches Some(rules) && rules.sync_current_camera != Some(true)
}

/// The referent of the current camera, if the workspace names one that is in
/// the tree.
pub fn find_current_camera(dom: &Dom) -> (camera: Option<u128>)
    ensures
        camera == current_camera(*dom),
{
    let root: u128 = dom.root_ref();
    let ids: Vec<u128> = match dom.get_by_ref(root) {
        Some(instance) => instance.children,
        None => Vec::new(),
    };
    let mut i: usize = ids.len();
    assert(ids@.take(i as int) =~= ids@);
    while i > 0
        invariant
            i <= ids@.len(),
            ids@ == dom@[dom.root()].children,
            dom@.contains_key(dom.root()),
            is_tree(dom@, dom.root(), dom.depths()),
            dom@.dom() == dom.depths().dom(),
            camera_among(*dom, ids@) == camera_among(*dom, ids@.take(i as int)),
        decreases i,
    {
        let ghost part = ids@.take(i as int);
        i -= 1;
        proof {
            assert(part.drop_last() =~= ids@.take(i as int));
        }
        if let Some(child) = dom.get_by_ref(ids[i]) {
            if same_text(child.class.as_str(), "Workspace") {
                return match child.properties.get("CurrentCamera") {
                    Some(property) => match property.value {
                        Variant::Ref(camera) => if dom.get_by_ref(camera).is_some() {
                            Some(camera)
                        } else {
                            None
                        },
                        _ => None,
                    },
                    None => None,
                };
            }
        }
    }
    None
}

/// Whether the current camera is left out.
pub fn leaves_camera_out(rules: Option<&SyncbackRules>) -> (yes: bool)
    ensures
        yes == camera_left_out(rules.deep_view()),
{
    match rules {
        Some(rules) => match rules.sync_current_camera {
            Some(wanted) => !wanted,
            None => true,
        },
        None => false,
    }
}

/// The new tree without its current camera, where the rules leave that out.
pub fn remove_current_camera(new_tree: Dom, rules: Option<&SyncbackRules>) -> (dom: Dom)
    requires
        camera_left_out(rules.deep_view()) ==> current_camera(new_tree) != Some(new_tree.root()),
    ensures
        match current_camera(new_tree) {
            Some(camera) => if camera_left_out(rules.deep_view()) {
                &&& !dom@.contains_key(camera)
                &&& dom.root() == new_tree.root()
                &&& dom.depths() == pruned_depths(new_tree@, new_tree.depths(), camera)
                &&& dom@.dom() == dom.depths().dom()
                &&& forall|other: u128| #[trigger]
                    dom@.contains_key(other) ==> dom@[other] == pruned_node(
                        new_tree@,
                        camera,
                        other,
                    ) && dom.properties_of(other) == new_tree.properties_of(other)
            } else {
                dom == new_tree
            },
            None => dom == new_tree,
        },
{
    if leaves_camera_out(rules) {
        if let Some(camera) = find_current_camera(&new_tree) {
            let root: u128 = new_tree.root_ref();
            let dom = new_tree.destroy(camera);
            proof {
                assert(new_tree.depths().dom().contains(camera));
                assert(!dom.depths().dom().contains(camera));
            }
            return dom;
        }
    }
    new_tree
}

/// Why an instance is not synced back.
#[derive(Debug, Clone, Copy, PartialEq, Eq, Structural)]
pub enum Skip {
    /// The old and the new subtree have the same hash.
    Identical,
    /// The middleware cannot be synced back.
    Unsupported,
    /// The project ignores the instance, or one above it.
    IgnoredTree,
    /// The project ignores the path.
    IgnoredPath,
}

/// An instance that is being synced back.
pub struct Visit<'sync> {
    pub snapshot: SyncbackSnapshot<'sync>,
    /// The path of the instance in the new tree.
    pub inst_path: String,
    pub middleware: Middleware,
}

/// An instance that is to be written.
pub struct WriteTask<'sync> {
    pub visit: Visit<'sync>,
    pub file_name: String,
    pub path: String,
}

/// What comes next in a syncback.
enum NextStep<'sync> {
    /// Nothing is left.
    Finished,
    /// An instance is passed over.
    Skipped(Skip),
    /// A file name is needed for an instance.
    Name(Visit<'sync>),
}

/// What becomes of an instance when its file name is known.
enum Named<'sync> {
    Skipped(Skip),
    Write(WriteTask<'sync>),
}

/// The state of a syncback.
pub struct SyncbackLoop<'sync> {
    /// The path of the project's folder.
    pub project_path: String,
    /// The hashes of the subtrees of the old tree.
    pub old_hashes: HashMap<u128, Vec<u8>>,
    /// The hashes of the subtrees of the new tree.
    pub new_hashes: HashMap<u128, Vec<u8>>,
    /// The instances that are still to be synced back; the last comes next.
    pub snapshots: Vec<SyncbackSnapshot<'sync>>,
    /// The parents of the old instances that are replaced, and what by.
    pub replacements: Vec<(u128, InstanceSnapshot)>,
    /// The changes to the file system so far.
    pub fs_snapshot: FsSnapshot,
}

/// The hash of a subtree, if it is known.
pub open spec fn hash_of(hashes: Map<u128, Vec<u8>>, id: u128) -> Option<Seq<u8>> {
    match entry(hashes, id) {
        Some(hash) => Some(hash.deep_view()),
        None => None,
    }
}

/// The middleware that the old instance of a snapshot came from, if it is
/// known.
pub open spec fn old_middleware(snapshot: SyncbackSnapshot) -> Option<Middleware> {
    match snapshot.old {
        Some(old) => match entry(snapshot.data.old_tree@.instances, old) {
            Some(instance) => instance.metadata.middleware,
            None => None,
        },
        None => None,
    }
}

/// The middleware of a snapshot: the one that is forced onto it, or that the old
/// instance came from, or that suits the new instance best.
pub open spec fn middleware_of(
    snapshot: SyncbackSnapshot,
    debug: Option<Seq<char>>,
) -> Middleware {
    let new = snapshot.data.new_tree@[snapshot.new];
    match (snapshot.middleware, old_middleware(snapshot)) {
        (Some(middleware), _) => middleware,
        (None, Some(middleware)) => middleware,
        (None, None) => best_middleware(new.class, new.children.len() > 0, debug),
    }
}

/// The path of the new instance of a snapshot.
pub open spec fn new_path(snapshot: SyncbackSnapshot) -> Seq<char> {
    slash_joined(
        names_to(snapshot.data.new_tree@, snapshot.data.new_tree.depths(), snapshot.new),
    )
}

/// The path of the instance that a listed path names: a slash at its end is not
/// part of it.
pub open spec fn tree_top(listed: Seq<char>) -> Seq<char> {
    if listed.len() > 0 && listed.last() == '/' {
        listed.drop_last()
    } else {
        listed
    }
}

/// Whether the path of an instance is a listed one or below it.
pub open spec fn is_in_tree(inst_path: Seq<char>, listed: Seq<char>) -> bool {
    inst_path == tree_top(listed) || (tree_top(listed) + seq!['/']).is_prefix_of(inst_path)
}

/// Whether the project ignores an instance: it is a listed one, or below one.
pub open spec fn tree_ignored(rules: Option<RulesView>, inst_path: Seq<char>) -> bool {
    rules matches Some(rules) && exists|i: int|
        0 <= i < rules.ignore_trees.len() && is_in_tree(inst_path, #[trigger] rules.ignore_trees[i])
}

impl<'sync> SyncbackLoop<'sync> {
    /// Whether the new instances of all snapshots are in the new tree.
    pub open spec fn ready(self) -> bool {
        forall|i: int| 0 <= i < self.snapshots@.len() ==> in_new_tree(#[trigger] self.snapshots@[i])
    }

    /// Whether the subtree of a snapshot did not change.
    pub open spec fn unchanged(self, snapshot: SyncbackSnapshot) -> bool {
        snapshot.old matches Some(old) && hash_of(self.old_hashes@, old) == hash_of(
            self.new_hashes@,
            snapshot.new,
        )
    }

    /// What is decided of a snapshot before it has a file name: the middleware,
    /// or why it is passed over.
    pub open spec fn decision(
        self,
        snapshot: SyncbackSnapshot,
        debug: Option<Seq<char>>,
    ) -> Result<Middleware, Skip> {
        let middleware = middleware_of(snapshot, debug);
        if self.unchanged(snapshot) {
            Err(Skip::Identical)
        } else if middleware == Middleware::Json || middleware == Middleware::Toml {
            Err(Skip::Unsupported)
        } else if tree_ignored(snapshot.data.rules(), new_path(snapshot)) {
            Err(Skip::IgnoredTree)
        } else {
            Ok(middleware)
        }
    }

    /// Whether only the snapshots that are still to be synced back differ.
    pub open spec fn same_but_snapshots(self, other: SyncbackLoop<'sync>) -> bool {
        &&& self.project_path == other.project_path
        &&& self.old_hashes == other.old_hashes
        &&& self.new_hashes == other.new_hashes
        &&& self.replacements == other.replacements
        &&& self.fs_snapshot == other.fs_snapshot
    }
}

/// Whether the new instance of a snapshot is in the new tree.
pub open spec fn in_new_tree(snapshot: SyncbackSnapshot) -> bool {
    snapshot.data.new_tree@.contains_key(snapshot.new)
}

/// The path that brought an old instance into being.
pub open spec fn source_of(instance: InstanceWithMeta) -> Option<Seq<char>> {
    instance.metadata.instigating_source.deep_view()
}

/// The paths of those of the first `n` instances that are directories, or that
/// are not.
pub open spec fn sources_of(
    instances: Seq<InstanceWithMeta>,
    are_dirs: Seq<bool>,
    dirs: bool,
    n: int,
) -> Set<Seq<char>> {
    Set::new(
        |path: Seq<char>|
            exists|i: int|
                0 <= i < n && are_dirs[i] == dirs && source_of(#[trigger] instances[i]) == Some(
                    path,
                ),
    )
}

/// A syncback of all that is below the roots of two trees.
pub fn syncback_loop<'sync>(
    data: SyncbackData<'sync>,
    project_path: &str,
    project_name: &str,
    old_hashes: HashMap<u128, Vec<u8>>,
    new_hashes: HashMap<u128, Vec<u8>>,
) -> (state: SyncbackLoop<'sync>)
    ensures
        state.ready(),
        state.project_path@ == project_path@,
        state.old_hashes == old_hashes,
        state.new_hashes == new_hashes,
        state.replacements@.len() == 0,
        state.fs_snapshot.deep_view() == no_fs_changes(),
        state.snapshots@.len() == 1,
        ({
            let first = state.snapshots@[0];
            &&& first.data == data
            &&& first.old == Some(data.old_tree@.root)
            &&& first.new == data.new_tree.root()
            &&& first.parent_path@ == project_path@
            &&& first.name@ == project_name@
            &&& first.middleware is None
        }),
{
    let root: u128 = data.new_tree.root_ref();
    let mut snapshots: Vec<SyncbackSnapshot<'sync>> = Vec::new();
    snapshots.push(
        SyncbackSnapshot {
            data,
            old: Some(data.old_tree.get_root_id()),
            new: root,
            parent_path: project_path.to_owned(),
            name: project_name.to_owned(),
            middleware: None,
        },
    );
    SyncbackLoop {
        project_path: project_path.to_owned(),
        old_hashes,
        new_hashes,
        snapshots,
        replacements: Vec::new(),
        fs_snapshot: FsSnapshot::new(),
    }
}

/// Whether the path of an instance is a listed one or below it.
fn in_tree(inst_path: &str, listed: &str) -> (yes: bool)
    ensures
        yes == is_in_tree(inst_path@, listed@),
{
    proof {
        reveal_strlit("/");
        assert("/"@ =~= seq!['/']);
        if listed@.len() > 0 {
            assert(listed@.skip(listed@.len() - 1) =~= seq![listed@.last()]);
            assert(listed@ =~= listed@.drop_last() + seq![listed@.last()]);
        }
    }
    let named = match strip_suffix(listed, "/") {
        Some(named) => named,
        None => listed,
    };
    assert(named@ == tree_top(listed@));
    is_or_below(inst_path, named)
}

/// Whether the path of an instance is another one or below it.
fn is_or_below(inst_path: &str, named: &str) -> (yes: bool)
    ensures
        yes == (inst_path@ == named@ || (named@ + seq!['/']).is_prefix_of(inst_path@)),
{
    let ghost top = named@ + seq!['/'];
    match strip_prefix(inst_path, named) {
        Some(rest) => {
            let len: usize = rest.unicode_len();
            if len == 0 {
                assert(inst_path@ =~= named@);
                return true;
            }
            let below = rest.get_char(0) == '/';
            proof {
                assert(inst_path@[named@.len() as int] == rest@[0]);
                if below {
                    assert(inst_path@.subrange(0, top.len() as int) =~= top);
                } else if top.is_prefix_of(inst_path@) {
                    assert(top[named@.len() as int] == '/');
                    assert(inst_path@.subrange(0, top.len() as int)[named@.len() as int] == '/');
                }
            }
            below
        },
        None => {
            proof {
                if top.is_prefix_of(inst_path@) {
                    assert(inst_path@.subrange(0, top.len() as int).subrange(
                        0,
                        named@.len() as int,
                    ) =~= inst_path@.subrange(0, named@.len() as int));
                    assert(top.subrange(0, named@.len() as int) =~= named@);
                }
                if inst_path@ == named@ {
                    assert(inst_path@.subrange(0, named@.len() as int) =~= named@);
                }
            }
            false
        },
    }
}

/// Whether the project ignores an instance.
fn is_tree_ignored(snapshot: &SyncbackSnapshot, inst_path: &str) -> (yes: bool)
    ensures
        yes == tree_ignored(snapshot.data.rules(), inst_path@),
{
    if let Some(ignored) = snapshot.ignore_tree() {
        let mut i: usize = 0;
        while i < ignored.len()
            invariant
                i <= ignored@.len(),
                snapshot.data.rules() matches Some(rules) && rules.ignore_trees
                    == ignored.deep_view(),
                forall|j: int|
                    0 <= j < i ==> !is_in_tree(inst_path@, #[trigger] ignored.deep_view()[j]),
            decreases ignored@.len() - i,
        {
            assert(ignored.deep_view()[i as int] == ignored@[i as int]@);
            if in_tree(inst_path, ignored[i].as_str()) {
                return true;
            }
            i += 1;
        }
    }
    false
}

impl<'sync> SyncbackLoop<'sync> {
    /// Whether the subtree of a snapshot did not change.
    fn is_unchanged(&self, snapshot: &SyncbackSnapshot<'sync>) -> (yes: bool)
        ensures
            yes == self.unchanged(*snapshot),
    {
        broadcast use group_hash_axioms;

        match snapshot.old {
            Some(old) => match (self.old_hashes.get(&old), self.new_hashes.get(&snapshot.new)) {
                (Some(before), Some(after)) => before.same(after),
                (None, None) => true,
                _ => false,
            },
            None => false,
        }
    }

    /// Takes the next snapshot and decides whether it is synced back, and with
    /// which middleware. `debug` is the value of the environment variable that
    /// asks for readable models.
    fn next(&mut self, debug: Option<&str>) -> (step: NextStep<'sync>)
        requires
            old(self).ready(),
        ensures
            final(self).ready(),
            final(self).same_but_snapshots(*old(self)),
            old(self).snapshots@.len() == 0 ==> final(self).snapshots@.len() == 0
                && step is Finished,
            old(self).snapshots@.len() > 0 ==> {
                let snapshot = old(self).snapshots@.last();
                &&& final(self).snapshots@ == old(self).snapshots@.drop_last()
                &&& match old(self).decision(snapshot, debug.deep_view()) {
                    Ok(middleware) => step matches NextStep::Name(visit) && visit.snapshot
                        == snapshot && visit.inst_path@ == new_path(snapshot) && visit.middleware
                        == middleware,
                    Err(skip) => step == NextStep::<'sync>::Skipped(skip),
                }
            },
    {
        let snapshot = match self.snapshots.pop() {
            Some(snapshot) => snapshot,
            None => {
                return NextStep::Finished;
            },
        };
        proof {
            assert(old(self).snapshots@.drop_last() =~= self.snapshots@);
            assert(in_new_tree(old(self).snapshots@.last()));
            assert forall|i: int| 0 <= i < self.snapshots@.len() implies in_new_tree(
                #[trigger] self.snapshots@[i],
            ) by {
                assert(self.snapshots@[i] == old(self).snapshots@[i]);
            }
        }
        let inst_path = get_inst_path(snapshot.data.new_tree, snapshot.new);
        if self.is_unchanged(&snapshot) {
            return NextStep::Skipped(Skip::Identical);
        }
        let old_middleware = match snapshot.old_inst() {
            Some(instance) => instance.metadata.middleware,
            None => None,
        };
        let middleware = match (snapshot.middleware, old_middleware) {
            (Some(middleware), _) => middleware,
            (None, Some(middleware)) => middleware,
            (None, None) => get_best_middleware(&snapshot.new_inst(), debug),
        };
        if middleware == Middleware::Json || middleware == Middleware::Toml {
            return NextStep::Skipped(Skip::Unsupported);
        }
        if is_tree_ignored(&snapshot, inst_path.as_str()) {
            return NextStep::Skipped(Skip::IgnoredTree);
        }
        NextStep::Name(Visit { snapshot, inst_path, middleware })
    }
}

impl<'sync> SyncbackLoop<'sync> {
    /// Decides whether an instance is written under a file name.
    fn named(&self, visit: Visit<'sync>, file_name: String) -> (named: Named<'sync>)
        ensures
            match named {
                Named::Write(task) => task.visit == visit && task.file_name == file_name
                    && task.path@ == joined(visit.snapshot.parent_path@, file_name@),
                Named::Skipped(skip) => skip == Skip::IgnoredPath,
            },
            ({
                let path = joined(visit.snapshot.parent_path@, file_name@);
                let rules = visit.snapshot.data.rules();
                &&& may_allow(rules, self.project_path@, path, named is Write)
                &&& portable(self.project_path@) && portable(path) && surely_refused(
                    rules,
                    local_path(self.project_path@, path),
                ) ==> !(named is Write)
                &&& portable(self.project_path@) && portable(path) && plain_patterns(rules) ==> (
                named is Write <==> path_allowed(rules, self.project_path@, path))
            }),
    {
        let path = join(visit.snapshot.parent_path.as_str(), file_name.as_str());
        if visit.snapshot.is_valid_path(self.project_path.as_str(), path.as_str()) {
            Named::Write(WriteTask { visit, file_name, path })
        } else {
            Named::Skipped(Skip::IgnoredPath)
        }
    }

    /// Decides what to do where an instance could not be written: a directory is
    /// tried again as a model file. Otherwise the syncback fails; the error is
    /// the path of the instance.
    fn failed(task: WriteTask<'sync>, debug: Option<&str>) -> (retry: Result<
        Visit<'sync>,
        String,
    >)
        ensures
            match retry {
                Ok(visit) => directory_middleware(task.visit.middleware) && visit.snapshot
                    == task.visit.snapshot && visit.inst_path == task.visit.inst_path
                    && visit.middleware == model_format(debug.deep_view()),
                Err(inst_path) => !directory_middleware(task.visit.middleware) && inst_path
                    == task.visit.inst_path,
            },
    {
        let visit = task.visit;
        if visit.middleware.is_dir() {
            Ok(
                Visit {
                    snapshot: visit.snapshot,
                    inst_path: visit.inst_path,
                    middleware: model_middleware(debug),
                },
            )
        } else {
            Err(visit.inst_path)
        }
    }

    /// Takes up what the syncback of an instance gave. `are_dirs` tells of each
    /// removed child whether its path is a directory.
    fn finish(
        &mut self,
        visit: &Visit<'sync>,
        syncback: SyncbackReturn<'sync>,
        are_dirs: &Vec<bool>,
    )
        requires
            old(self).ready(),
            are_dirs@.len() == syncback.removed_children@.len(),
            forall|i: int|
                0 <= i < syncback.removed_children@.len() ==> source_of(
                    #[trigger] syncback.removed_children@[i],
                ) is Some,
            forall|i: int|
                0 <= i < syncback.children@.len() ==> in_new_tree(#[trigger] syncback.children@[i]),
        ensures
            final(self).ready(),
            final(self).project_path == old(self).project_path,
            final(self).old_hashes == old(self).old_hashes,
            final(self).new_hashes == old(self).new_hashes,
            final(self).snapshots@ == old(self).snapshots@ + syncback.children@,
            final(self).replacements@ == replaced(
                old(self).replacements@,
                visit.snapshot,
                syncback.inst_snapshot,
            ),
            final(self).fs_snapshot.deep_view() == merged(
                with_removals(
                    old(self).fs_snapshot.deep_view(),
                    syncback.removed_children@,
                    are_dirs@,
                    are_dirs@.len() as int,
                ),
                syncback.fs_snapshot.deep_view(),
            ),
    {
        let ghost before = self.fs_snapshot.deep_view();
        let ghost removed = syncback.removed_children@;
        proof {
            assert(with_removals(before, removed, are_dirs@, 0).removed_dirs
                =~= before.removed_dirs);
            assert(with_removals(before, removed, are_dirs@, 0).removed_files
                =~= before.removed_files);
        }
        let mut i: usize = 0;
        while i < syncback.removed_children.len()
            invariant
                i <= removed.len(),
                removed == syncback.removed_children@,
                are_dirs@.len() == removed.len(),
                forall|i: int| 0 <= i < removed.len() ==> source_of(#[trigger] removed[i]) is Some,
                self.fs_snapshot.deep_view() == with_removals(
                    before,
                    removed,
                    are_dirs@,
                    i as int,
                ),
                self.project_path == old(self).project_path,
                self.old_hashes == old(self).old_hashes,
                self.new_hashes == old(self).new_hashes,
                self.replacements == old(self).replacements,
                self.snapshots == old(self).snapshots,
            decreases removed.len() - i,
        {
            let instance = &syncback.removed_children[i];
            if let Some(path) = &instance.metadata.instigating_source {
                if are_dirs[i] {
                    self.fs_snapshot.remove_dir(path.clone());
                } else {
                    self.fs_snapshot.remove_file(path.clone());
                }
                proof {
                    lemma_one_more_source(removed, are_dirs@, true, i as int);
                    lemma_one_more_source(removed, are_dirs@, false, i as int);
                    let after = with_removals(before, removed, are_dirs@, i + 1);
                    assert(self.fs_snapshot.deep_view().removed_dirs =~= after.removed_dirs);
                    assert(self.fs_snapshot.deep_view().removed_files =~= after.removed_files);
                }
            }
            i += 1;
        }
        if let Some(old_inst) = visit.snapshot.old_inst() {
            self.replacements.push((old_inst.parent, syncback.inst_snapshot));
        }
        self.fs_snapshot.merge(syncback.fs_snapshot);
        let mut children = syncback.children;
        self.snapshots.append(&mut children);
    }
}

/// The changes to the file system with the first `n` of some children removed.
pub open spec fn with_removals(
    fs: FsView,
    removed: Seq<InstanceWithMeta>,
    are_dirs: Seq<bool>,
    n: int,
) -> FsView {
    FsView {
        removed_dirs: fs.removed_dirs.union(sources_of(removed, are_dirs, true, n)),
        removed_files: fs.removed_files.union(sources_of(removed, are_dirs, false, n)),
        ..fs
    }
}

/// The replacements with one more, where the snapshot has an old instance.
pub open spec fn replaced(
    replacements: Seq<(u128, InstanceSnapshot)>,
    snapshot: SyncbackSnapshot,
    by: InstanceSnapshot,
) -> Seq<(u128, InstanceSnapshot)> {
    match snapshot.old {
        Some(old) => match entry(snapshot.data.old_tree@.instances, old) {
            Some(instance) => replacements.push((instance.parent, by)),
            None => replacements,
        },
        None => replacements,
    }
}

proof fn lemma_one_more_source(
    instances: Seq<InstanceWithMeta>,
    are_dirs: Seq<bool>,
    dirs: bool,
    i: int,
)
    requires
        0 <= i < instances.len(),
        source_of(instances[i]) is Some,
    ensures
        sources_of(instances, are_dirs, dirs, i + 1) == if are_dirs[i] == dirs {
            sources_of(instances, are_dirs, dirs, i).insert(source_of(instances[i])->0)
        } else {
            sources_of(instances, are_dirs, dirs, i)
        },
{
}

/// What has happened in a syncback.
pub enum Event<'sync> {
    /// The syncback begins.
    Begun,
    /// An instance has a file name.
    Named(Visit<'sync>, String),
    /// An instance could not be written.
    Failed(WriteTask<'sync>),
    /// An instance was written. Of each removed child it is told whether its
    /// path is a directory.
    Written(WriteTask<'sync>, SyncbackReturn<'sync>, Vec<bool>),
}

/// What is to be done next in a syncback.
pub enum Action<'sync> {
    /// Find a file name for an instance.
    Name(Visit<'sync>),
    /// Write an instance.
    Write(WriteTask<'sync>),
    /// Stop: all is done.
    Finish,
    /// Stop: the instance with this path could not be written.
    Abort(String),
}

/// Whether an event can happen: what was written tells all that is needed.
pub open spec fn can_happen(event: Event) -> bool {
    match event {
        Event::Written(_, syncback, are_dirs) => {
            &&& are_dirs@.len() == syncback.removed_children@.len()
            &&& forall|i: int|
                0 <= i < syncback.removed_children@.len() ==> source_of(
                    #[trigger] syncback.removed_children@[i],
                ) is Some
            &&& forall|i: int|
                0 <= i < syncback.children@.len() ==> in_new_tree(#[trigger] syncback.children@[i])
        },
        _ => true,
    }
}

impl<'sync> SyncbackLoop<'sync> {
    /// Whether the next snapshot of `before` that is not passed over is the one
    /// that an action names, and the snapshots before it are left; with none,
    /// all is done.
    pub open spec fn advanced(
        self,
        before: Seq<SyncbackSnapshot<'sync>>,
        action: Action<'sync>,
        debug: Option<Seq<char>>,
    ) -> bool {
        &&& self.snapshots@.len() <= before.len()
        &&& self.snapshots@ == before.take(self.snapshots@.len() as int)
        &&& match action {
            Action::Name(visit) => {
                let k = self.snapshots@.len() as int;
                &&& k < before.len()
                &&& visit.snapshot == before[k]
                &&& visit.inst_path@ == new_path(before[k])
                &&& self.decision(before[k], debug) == Ok::<Middleware, Skip>(visit.middleware)
                &&& forall|j: int|
                    k < j < before.len() ==> self.decision(#[trigger] before[j], debug) is Err
            },
            Action::Finish => {
                &&& self.snapshots@.len() == 0
                &&& forall|j: int|
                    0 <= j < before.len() ==> self.decision(#[trigger] before[j], debug) is Err
            },
            _ => false,
        }
    }

    /// Passes over snapshots up to the next one that is synced back.
    fn advance(&mut self, debug: Option<&str>) -> (action: Action<'sync>)
        requires
            old(self).ready(),
        ensures
            final(self).ready(),
            final(self).same_but_snapshots(*old(self)),
            final(self).advanced(old(self).snapshots@, action, debug.deep_view()),
    {
        let ghost before = self.snapshots@;
        loop
            invariant
                self.ready(),
                self.same_but_snapshots(*old(self)),
                before == old(self).snapshots@,
                self.snapshots@.len() <= before.len(),
                self.snapshots@ == before.take(self.snapshots@.len() as int),
                forall|j: int|
                    self.snapshots@.len() <= j < before.len() ==> self.decision(
                        #[trigger] before[j],
                        debug.deep_view(),
                    ) is Err,
            decreases self.snapshots@.len(),
        {
            let ghost n = self.snapshots@.len() as int;
            match self.next(debug) {
                NextStep::Finished => {
                    assert(self.snapshots@ =~= before.take(0));
                    return Action::Finish;
                },
                NextStep::Skipped(_) => {},
                NextStep::Name(visit) => {
                    assert(self.snapshots@ =~= before.take(n - 1));
                    return Action::Name(visit);
                },
            }
        }
    }

    /// Takes an event up and decides what is to be done next. `debug` is the
    /// value of the environment variable that asks for readable models.
    pub fn step(&mut self, event: Event<'sync>, debug: Option<&str>) -> (action: Action<'sync>)
        requires
            old(self).ready(),
            can_happen(event),
        ensures
            final(self).ready(),
            match event {
                Event::Begun => final(self).same_but_snapshots(*old(self)) && final(self).advanced(
                    old(self).snapshots@,
                    action,
                    debug.deep_view(),
                ),
                Event::Named(visit, file_name) => {
                    let path = joined(visit.snapshot.parent_path@, file_name@);
                    let rules = visit.snapshot.data.rules();
                    &&& final(self).same_but_snapshots(*old(self))
                    &&& match action {
                        Action::Write(task) => task.visit == visit && task.file_name == file_name
                            && task.path@ == path && final(self).snapshots@
                            == old(self).snapshots@,
                        _ => final(self).advanced(old(self).snapshots@, action, debug.deep_view()),
                    }
                    &&& may_allow(rules, old(self).project_path@, path, action is Write)
                    &&& portable(old(self).project_path@) && portable(path) && surely_refused(
                        rules,
                        local_path(old(self).project_path@, path),
                    ) ==> !(action is Write)
                    &&& portable(old(self).project_path@) && portable(path) && plain_patterns(rules)
                        ==> (action is Write <==> path_allowed(
                        rules,
                        old(self).project_path@,
                        path,
                    ))
                },
                Event::Failed(task) => {
                    &&& final(self).same_but_snapshots(*old(self))
                    &&& final(self).snapshots@ == old(self).snapshots@
                    &&& if directory_middleware(task.visit.middleware) {
                        action matches Action::Name(visit) && visit.snapshot == task.visit.snapshot
                            && visit.inst_path == task.visit.inst_path && visit.middleware
                            == model_format(debug.deep_view())
                    } else {
                        action == Action::<'sync>::Abort(task.visit.inst_path)
                    }
                },
                Event::Written(task, syncback, are_dirs) => {
                    &&& final(self).project_path == old(self).project_path
                    &&& final(self).old_hashes == old(self).old_hashes
                    &&& final(self).new_hashes == old(self).new_hashes
                    &&& final(self).replacements@ == replaced(
                        old(self).replacements@,
                        task.visit.snapshot,
                        syncback.inst_snapshot,
                    )
                    &&& final(self).fs_snapshot.deep_view() == merged(
                        with_removals(
                            old(self).fs_snapshot.deep_view(),
                            syncback.removed_children@,
                            are_dirs@,
                            are_dirs@.len() as int,
                        ),
                        syncback.fs_snapshot.deep_view(),
                    )
                    &&& final(self).advanced(
                        old(self).snapshots@ + syncback.children@,
                        action,
                        debug.deep_view(),
                    )
                },
            },
    {
        match event {
            Event::Begun => self.advance(debug),
            Event::Named(visit, file_name) => match self.named(visit, file_name) {
                Named::Write(task) => Action::Write(task),
                Named::Skipped(_) => self.advance(debug),
            },
            Event::Failed(task) => match SyncbackLoop::failed(task, debug) {
                Ok(visit) => Action::Name(visit),
                Err(inst_path) => Action::Abort(inst_path),
            },
            Event::Written(task, syncback, are_dirs) => {
                self.finish(&task.visit, syncback, &are_dirs);
                self.advance(debug)
            },
        }
    }
}

/// Where an instance is ignored, all that is below it is.
pub proof fn lemma_ignored_trees_reach_down(dom: Dom, rules: Option<RulesView>, id: u128)
    requires
        is_tree(dom@, dom.root(), dom.depths()),
        dom@.dom() == dom.depths().dom(),
        dom@.contains_key(id),
        id != dom.root(),
        tree_ignored(rules, slash_joined(names_to(dom@, dom.depths(), dom@[id].parent))),
    ensures
        tree_ignored(rules, slash_joined(names_to(dom@, dom.depths(), id))),
{
    lemma_path_of_child(dom, id);
    let above = slash_joined(names_to(dom@, dom.depths(), dom@[id].parent));
    let path = slash_joined(names_to(dom@, dom.depths(), id));
    let trees = rules->0.ignore_trees;
    let i = choose|i: int| 0 <= i < trees.len() && is_in_tree(above, #[trigger] trees[i]);
    let top = tree_top(trees[i]) + seq!['/'];
    if above == tree_top(trees[i]) {
        assert(path.subrange(0, top.len() as int) =~= top);
    } else {
        assert(path.subrange(0, top.len() as int) =~= above.subrange(0, top.len() as int));
    }
    assert(is_in_tree(path, trees[i]));
}

/// A directory that could not be written is tried again once at most: what it is
/// tried as is no directory, and can be written.
pub proof fn lemma_directories_are_retried_once(debug: Option<Seq<char>>)
    ensures
        !directory_middleware(model_format(debug)),
        writer_of(model_format(debug)) is Some,
{
}

/// An instance is written with the middleware that it was read with, unless
/// another is forced onto it.
pub proof fn lemma_middleware_is_kept(
    snapshot: SyncbackSnapshot,
    debug: Option<Seq<char>>,
    read_with: Middleware,
)
    requires
        snapshot.middleware is None,
        snapshot.old matches Some(old) && snapshot.data.old_tree@.instances.contains_key(old)
            && snapshot.data.old_tree@.instances[old].metadata.middleware == Some(read_with),
    ensures
        middleware_of(snapshot, debug) == read_with,
{
}

/// An instance that is not a listed one and not below one is not ignored, though
/// its path may start with the text of a listed one.
pub proof fn lemma_siblings_are_not_ignored(rules: RulesView, listed: Seq<char>, more: Seq<char>)
    requires
        rules.ignore_trees == seq![listed],
        more.len() > 0,
        more[0] != '/',
    ensures
        !tree_ignored(Some(rules), tree_top(listed) + more),
{
    let path = tree_top(listed) + more;
    let top = tree_top(listed) + seq!['/'];
    if top.is_prefix_of(path) {
        assert(path.subrange(0, top.len() as int)[top.len() - 1] == '/');
    }
    assert(!is_in_tree(path, listed));
}

/// Whatever a syncback sets out to write has changed, is not below a path that
/// the project ignores, and does not come from a JSON or TOML file.
pub proof fn lemma_only_wanted_instances_are_written<'sync>(
    state: SyncbackLoop<'sync>,
    before: Seq<SyncbackSnapshot<'sync>>,
    action: Action<'sync>,
    debug: Option<Seq<char>>,
)
    requires
        state.advanced(before, action, debug),
    ensures
        action matches Action::Name(visit) ==> {
            &&& !state.unchanged(visit.snapshot)
            &&& visit.middleware != Middleware::Json
            &&& visit.middleware != Middleware::Toml
            &&& !tree_ignored(visit.snapshot.data.rules(), visit.inst_path@)
        },
{
}

/// A middleware that is forced onto a snapshot is the one that it is written
/// with.
pub proof fn lemma_forced_middleware_is_used<'sync>(
    state: SyncbackLoop<'sync>,
    before: Seq<SyncbackSnapshot<'sync>>,
    action: Action<'sync>,
    debug: Option<Seq<char>>,
)
    requires
        state.advanced(before, action, debug),
    ensures
        action matches Action::Name(visit) ==> (visit.snapshot.middleware matches Some(forced)
            ==> visit.middleware == forced),
{
}

} // verus!



