//! One instance that is to be synced back, and where it goes.

use memofs::Vfs;
use vstd::prelude::*;

use crate::dom::{get_inst_path, is_instance_of, names_to, Dom, Instance};
use crate::glob::{glob_accepts, glob_may_find, lemma_short_is_bearable, plain_pattern, Glob};
use crate::middleware::Middleware;
use crate::name_map::{lemma_all_taken, lemma_taken, NameMap};
use crate::paths::{
    is_absolute, is_trimmed, join, joined, lemma_joined_lies_below, lemma_piece_without_backslash,
    may_be_left, path_below, piece_of, portable, strip_base, without_backslash,
};
use crate::reflection::{
    ancestors, ancestry, has_own_default, own_default, scriptability, scriptability_of, superclass,
    superclass_of, Scriptability,
};
use crate::sync_rule::first_accepted;
use crate::text::{among, same_text, slash_joined};
use crate::tree::{InstanceWithMeta, RojoTree, TreeInstanceView};
use crate::variant::{Property, PropertyView, Variant, VariantView};

verus! {

/// `memofs::Vfs`, which is handed on and never looked into.
#[verifier::external_type_specification]
#[verifier::external_body]
pub struct ExVfs(Vfs);

/// What a project says of syncback.
#[derive(Debug)]
pub struct SyncbackRules {
    /// A list of subtrees in a file that will be ignored by syncback.
    pub ignore_trees: Vec<String>,
    /// A list of patterns to check against the path an instance would serialize
    /// to. If a path matches one of these, the instance won't be syncbacked.
    pub ignore_paths: Vec<Glob>,
    /// A map of classes to properties to ignore for that class when doing
    /// syncback.
    pub ignore_properties: NameMap<Vec<String>>,
    /// Whether or not the `CurrentCamera` of `Workspace` is included in the
    /// syncback or not. Defaults to `false`.
    pub sync_current_camera: Option<bool>,
    /// Whether or not to sync properties that cannot be modified via scripts.
    /// Defaults to `false`.
    pub sync_unscriptable: Option<bool>,
}

/// What [`SyncbackRules`] hold.
pub struct RulesView {
    pub ignore_trees: Seq<Seq<char>>,
    pub ignore_paths: Seq<Seq<char>>,
    pub ignore_properties: Map<Seq<char>, Seq<Seq<char>>>,
    pub sync_current_camera: Option<bool>,
    pub sync_unscriptable: Option<bool>,
}

impl DeepView for SyncbackRules {
    type V = RulesView;

    open spec fn deep_view(&self) -> RulesView {
        RulesView {
            ignore_trees: self.ignore_trees.deep_view(),
            ignore_paths: self.ignore_paths.deep_view(),
            ignore_properties: self.ignore_properties@,
            sync_current_camera: self.sync_current_camera,
            sync_unscriptable: self.sync_unscriptable,
        }
    }
}

/// What all snapshots of a syncback share.
#[derive(Clone, Copy)]
pub struct SyncbackData<'sync> {
    pub vfs: &'sync Vfs,
    pub old_tree: &'sync RojoTree,
    pub new_tree: &'sync Dom,
    pub syncback_rules: Option<&'sync SyncbackRules>,
}

impl<'sync> SyncbackData<'sync> {
    /// The rules of the project, if it has any.
    pub open spec fn rules(self) -> Option<RulesView> {
        self.syncback_rules.deep_view()
    }
}

/// An instance that is to be synced back: its referents in the old tree, if it
/// is there, and in the new one, and where it goes.
pub struct SyncbackSnapshot<'sync> {
    pub data: SyncbackData<'sync>,
    pub old: Option<u128>,
    pub new: u128,
    pub parent_path: String,
    pub name: String,
    pub middleware: Option<Middleware>,
}

/// The property that a class keeps outside of its properties: the text of a
/// script, a table or a value.
pub open spec fn kept_elsewhere(class: Seq<char>, name: Seq<char>) -> bool {
    if class == "Script"@ || class == "LocalScript"@ || class == "ModuleScript"@ {
        name == "Source"@
    } else if class == "LocalizationTable"@ {
        name == "Contents"@
    } else if class == "StringValue"@ {
        name == "Value"@
    } else {
        false
    }
}

/// Whether a property is written elsewhere than with the other properties of an
/// instance.
pub fn filter_out_property(inst: &Instance, prop_name: &str) -> (yes: bool)
    ensures
        yes == kept_elsewhere(inst.class@, prop_name@),
{
    let class = inst.class.as_str();
    if same_text(class, "Script") || same_text(class, "LocalScript") || same_text(
        class,
        "ModuleScript",
    ) {
        same_text(prop_name, "Source")
    } else if same_text(class, "LocalizationTable") {
        same_text(prop_name, "Contents")
    } else if same_text(class, "StringValue") {
        same_text(prop_name, "Value")
    } else {
        false
    }
}

/// What decides whether a property is synced back, beside its value.
pub struct PropertyFacts {
    /// It is written elsewhere.
    pub elsewhere: bool,
    /// The user ignores it.
    pub ignored: bool,
    /// Scripts cannot access it.
    pub inaccessible: bool,
    /// The old instance has it.
    pub in_old: bool,
    /// The class, if it is known, has a default for it.
    pub defaulted: bool,
}

/// Whether a property is synced back: nothing keeps it out, and the old instance
/// has it or it is not at its default.
pub open spec fn property_kept(
    property: PropertyView,
    facts: PropertyFacts,
    sync_unscriptable: bool,
) -> bool {
    &&& !facts.elsewhere
    &&& !facts.ignored
    &&& sync_unscriptable || !facts.inaccessible
    &&& facts.in_old || !(facts.defaulted && property.at_default)
}

/// Whether a property is synced back.
pub fn keeps_property(property: &Property, facts: &PropertyFacts, sync_unscriptable: bool) -> (yes:
    bool)
    ensures
        yes == property_kept(property.deep_view(), *facts, sync_unscriptable),
{
    if facts.elsewhere || facts.ignored || (facts.inaccessible && !sync_unscriptable) {
        return false;
    }
    facts.in_old || !(facts.defaulted && property.at_default)
}

/// The properties that the user ignores for a class: those of the class and of
/// all superclasses that are known of. `None` where there are no rules.
pub open spec fn ignored_names(rules: Option<RulesView>, class: Seq<char>) -> Option<
    Set<Seq<char>>,
> {
    match rules {
        Some(rules) => Some(
            Set::new(
                |name: Seq<char>| ignored_in(rules, ancestry(class, usize::MAX as nat), name),
            ),
        ),
        None => None,
    }
}

/// Whether the user ignores a property for one of some classes.
pub open spec fn ignored_in(rules: RulesView, classes: Seq<Seq<char>>, name: Seq<char>) -> bool {
    exists|i: int|
        0 <= i < classes.len() && rules.ignore_properties.contains_key(#[trigger] classes[i])
            && rules.ignore_properties[classes[i]].contains(name)
}

/// Whether the user has asked for properties that scripts cannot access.
pub open spec fn unscriptable_wanted(rules: Option<RulesView>) -> bool {
    rules matches Some(rules) && rules.sync_unscriptable == Some(true)
}

/// What decides whether a property of an instance is synced back.
pub open spec fn property_facts(
    rules: Option<RulesView>,
    class: Seq<char>,
    old: Option<TreeInstanceView>,
    name: Seq<char>,
) -> PropertyFacts {
    PropertyFacts {
        elsewhere: kept_elsewhere(class, name),
        ignored: ignored_names(rules, class) matches Some(names) && names.contains(name),
        inaccessible: superclass_of(class) is Some && scriptability_of(class, name) == Some(
            Scriptability::Inaccessible,
        ),
        in_old: old matches Some(old) && old.properties.contains_key(name),
        defaulted: superclass_of(class) is Some && own_default(class, name),
    }
}

/// The values of the properties that are synced back.
pub open spec fn filtered_properties(
    properties: Map<Seq<char>, PropertyView>,
    rules: Option<RulesView>,
    class: Seq<char>,
    old: Option<TreeInstanceView>,
) -> Map<Seq<char>, VariantView> {
    Map::new(
        |name: Seq<char>|
            properties.contains_key(name) && property_kept(
                properties[name],
                property_facts(rules, class, old, name),
                unscriptable_wanted(rules),
            ),
        |name: Seq<char>| properties[name].value,
    )
}

/// What globs are held against: what is left of a path behind the base, or the
/// whole path where it does not lie under the base.
pub open spec fn rest_or_path(rest: Option<Seq<char>>, path: Seq<char>) -> Seq<char> {
    match rest {
        Some(rest) => rest,
        None => path,
    }
}

/// The path that globs are held against: what is left of it behind the base, if
/// it lies under the base.
pub open spec fn local_path(base: Seq<char>, path: Seq<char>) -> Seq<char> {
    rest_or_path(path_below(path, base), path)
}

/// Whether a path may be written, by what is left of it behind the base: that is
/// not in a `.git` folder, and no pattern of the user's matches it.
pub open spec fn locally_allowed(rules: Option<RulesView>, local: Seq<char>) -> bool {
    &&& !glob_accepts(".git/**"@, local)
    &&& rules matches Some(rules) ==> forall|i: int|
        0 <= i < rules.ignore_paths.len() ==> !glob_accepts(
            #[trigger] rules.ignore_paths[i],
            local,
        )
}

/// Whether a path may be written: it is not in a `.git` folder, and no pattern
/// of the user's matches it.
pub open spec fn path_allowed(rules: Option<RulesView>, base: Seq<char>, path: Seq<char>) -> bool {
    locally_allowed(rules, local_path(base, path))
}

/// Whether a path may be held to be one that may be written, or not to be, by
/// what is left of it behind the base: as the glob for `.git` folders and those of
/// the user's may find. Where a pattern means something else on another machine,
/// the others still say what they say.
pub open spec fn globs_may_allow(rules: Option<RulesView>, local: Seq<char>, yes: bool) -> bool {
    if yes {
        &&& glob_may_find(".git/**"@, local, false)
        &&& rules matches Some(rules) ==> forall|i: int|
            0 <= i < rules.ignore_paths.len() ==> glob_may_find(
                #[trigger] rules.ignore_paths[i],
                local,
                false,
            )
    } else {
        ||| glob_may_find(".git/**"@, local, true)
        ||| rules matches Some(rules) && exists|i: int|
            0 <= i < rules.ignore_paths.len() && glob_may_find(
                #[trigger] rules.ignore_paths[i],
                local,
                true,
            )
    }
}

/// Whether the answer on a path is one that the globs may give.
pub open spec fn may_allow(
    rules: Option<RulesView>,
    base: Seq<char>,
    path: Seq<char>,
    yes: bool,
) -> bool {
    exists|rest: Option<Seq<char>>| #[trigger]
        may_be_left(path, base, rest) && globs_may_allow(rules, rest_or_path(rest, path), yes)
}

/// Whether a path is refused on every machine, by what is left of it behind the
/// base: it is in a `.git` folder, or one of the user's patterns that mean the
/// same everywhere matches it.
pub open spec fn surely_refused(rules: Option<RulesView>, local: Seq<char>) -> bool {
    &&& without_backslash(local)
    &&& {
        ||| glob_accepts(".git/**"@, local)
        ||| rules matches Some(rules) && exists|i: int|
            0 <= i < rules.ignore_paths.len() && plain_pattern(#[trigger] rules.ignore_paths[i])
                && glob_accepts(rules.ignore_paths[i], local)
    }
}

/// What is refused on every machine is refused, whatever the other patterns mean;
/// and where all patterns mean the same on every machine, nothing is left open.
pub proof fn lemma_globs_decide(rules: Option<RulesView>, local: Seq<char>, yes: bool)
    requires
        globs_may_allow(rules, local, yes),
    ensures
        surely_refused(rules, local) ==> !yes,
        without_backslash(local) && plain_patterns(rules) ==> yes == locally_allowed(rules, local),
{
    reveal_strlit(".git/**");
}

/// A path below an absolute base gets the same answer as the same path relative
/// to the base.
pub proof fn lemma_paths_below_base_are_local(
    rules: Option<RulesView>,
    base: Seq<char>,
    path: Seq<char>,
)
    requires
        is_absolute(base),
        is_trimmed(path),
    ensures
        path_allowed(rules, base, joined(base, path)) == path_allowed(rules, base, path),
        portable(base) && portable(path) ==> portable(joined(base, path)),
{
    lemma_joined_lies_below(base, path);
}

/// Whether the patterns of the user's are read alike on every machine.
pub open spec fn plain_patterns(rules: Option<RulesView>) -> bool {
    rules matches Some(rules) ==> forall|i: int|
        0 <= i < rules.ignore_paths.len() ==> plain_pattern(#[trigger] rules.ignore_paths[i])
}

impl<'sync> SyncbackSnapshot<'sync> {
    /// Constructs a SyncbackSnapshot from the provided refs
    /// while inheriting the parent's trees and path
    pub fn with_parent(&self, new_name: String, new_ref: u128, old_ref: Option<u128>) -> (snapshot:
        SyncbackSnapshot<'sync>)
        ensures
            snapshot.data == self.data,
            snapshot.old == old_ref,
            snapshot.new == new_ref,
            snapshot.parent_path@ == joined(self.parent_path@, self.name@),
            snapshot.name == new_name,
            snapshot.middleware is None,
    {
        SyncbackSnapshot {
            data: self.data,
            old: old_ref,
            new: new_ref,
            parent_path: join(self.parent_path.as_str(), self.name.as_str()),
            name: new_name,
            middleware: None,
        }
    }

    /// Constructs a SyncbackSnapshot from the provided refs and path, while
    /// inheriting this snapshot's trees.
    pub fn with_new_parent(
        &self,
        new_parent: String,
        new_name: String,
        new_ref: u128,
        old_ref: Option<u128>,
    ) -> (snapshot: SyncbackSnapshot<'sync>)
        ensures
            snapshot.data == self.data,
            snapshot.old == old_ref,
            snapshot.new == new_ref,
            snapshot.parent_path == new_parent,
            snapshot.name == new_name,
            snapshot.middleware is None,
    {
        SyncbackSnapshot {
            data: self.data,
            old: old_ref,
            new: new_ref,
            parent_path: new_parent,
            name: new_name,
            middleware: None,
        }
    }

    /// Allows a middleware to be 'forced' onto a SyncbackSnapshot to override
    /// the attempts to derive it.
    pub fn middleware(self, middleware: Middleware) -> (snapshot: SyncbackSnapshot<'sync>)
        ensures
            snapshot == (SyncbackSnapshot { middleware: Some(middleware), ..self }),
    {
        SyncbackSnapshot { middleware: Some(middleware), ..self }
    }

    /// Returns a map of properties for the 'new' instance with filtering
    /// done to avoid noise.
    ///
    /// Note that while the returned map does filter based on the user's
    /// `ignore_props` field, it does not filter by the type of a value and doesn't
    /// clone any. This is left to the consumer.
    pub fn new_filtered_properties(&self) -> (properties: NameMap<&'sync Variant>)
        requires
            self.data.new_tree@.contains_key(self.new),
            self.old matches Some(old) ==> self.data.old_tree@.instances.contains_key(old),
        ensures
            properties@ == filtered_properties(
                self.data.new_tree.properties_of(self.new),
                self.data.rules(),
                self.data.new_tree@[self.new].class,
                match self.old {
                    Some(old) => Some(self.data.old_tree@.instances[old]),
                    None => None,
                },
            ),
    {
        match self.get_filtered_properties(self.new, self.old) {
            Some(properties) => properties,
            None => NameMap::new(),
        }
    }

    /// Returns a map of properties for an instance from the 'new' tree
    /// with filtering done to avoid noise. Returns `None` only if `new_ref`
    /// instance is not in the new tree or if `old_ref` is provided and not in
    /// the old tree.
    ///
    /// Note that while the returned map does filter based on the user's
    /// `ignore_props` field, it does not filter by the type of a value and doesn't
    /// clone any. This is left to the consumer.
    pub fn get_filtered_properties(&self, new_ref: u128, old_ref: Option<u128>) -> (properties:
        Option<NameMap<&'sync Variant>>)
        ensures
            match properties {
                Some(properties) => {
                    &&& self.data.new_tree@.contains_key(new_ref)
                    &&& old_ref matches Some(old) ==> self.data.old_tree@.instances.contains_key(
                        old,
                    )
                    &&& properties@ == filtered_properties(
                        self.data.new_tree.properties_of(new_ref),
                        self.data.rules(),
                        self.data.new_tree@[new_ref].class,
                        match old_ref {
                            Some(old) => Some(self.data.old_tree@.instances[old]),
                            None => None,
                        },
                    )
                },
                None => !self.data.new_tree@.contains_key(new_ref) || (old_ref matches Some(old)
                    && !self.data.old_tree@.instances.contains_key(old)),
            },
    {
        let inst = match self.get_new_instance(new_ref) {
            Some(inst) => inst,
            None => {
                return None;
            },
        };
        let old_inst = match old_ref {
            Some(referent) => match self.get_old_instance(referent) {
                Some(old_inst) => Some(old_inst),
                None => {
                    return None;
                },
            },
            None => None,
        };
        let filter = self.get_property_filter(inst.class.as_str());
        let class_known = superclass(inst.class.as_str()).is_some();
        let sync_unscriptable = self.sync_unscriptable();
        let ghost rules = self.data.rules();
        let ghost class = inst.class@;
        let ghost old = match &old_inst {
            Some(old_inst) => Some(old_inst@),
            None => None,
        };
        let ghost wanted = filtered_properties(
            inst.properties@,
            rules,
            class,
            old,
        );
        let mut properties: NameMap<&'sync Variant> = NameMap::new();
        let len: usize = inst.properties.len();
        let mut i: usize = 0;
        while i < len
            invariant
                i <= len,
                len == inst.properties.names().len(),
                class == inst.class@,
                class_known == (superclass_of(class) is Some),
                sync_unscriptable == unscriptable_wanted(rules),
                wanted == filtered_properties(inst.properties@, rules, class, old),
                match old_inst {
                    Some(old_inst) => old == Some(old_inst@),
                    None => old is None,
                },
                match filter {
                    Some(filter) => ignored_names(rules, class) matches Some(names)
                        && filter.deep_view().to_set() == names,
                    None => ignored_names(rules, class) is None,
                },
                forall|name: Seq<char>| #[trigger]
                    properties@.contains_key(name) <==> wanted.contains_key(name)
                        && inst.properties.names().take(i as int).contains(name),
                forall|name: Seq<char>| #[trigger]
                    properties@.contains_key(name) ==> properties@[name] == wanted[name],
            decreases len - i,
        {
            proof {
                lemma_taken(inst.properties.names(), i as int);
            }
            let name = inst.properties.name_at(i);
            let property = inst.properties.value_at(i);
            let facts = PropertyFacts {
                elsewhere: filter_out_property(&inst, name.as_str()),
                ignored: match &filter {
                    Some(filter) => among(filter, name.as_str()),
                    None => false,
                },
                inaccessible: class_known && match scriptability(
                    inst.class.as_str(),
                    name.as_str(),
                ) {
                    Some(access) => access == Scriptability::Inaccessible,
                    None => false,
                },
                in_old: match &old_inst {
                    Some(old_inst) => old_inst.properties.contains_key(name.as_str()),
                    None => false,
                },
                defaulted: class_known && has_own_default(inst.class.as_str(), name.as_str()),
            };
            if keeps_property(property, &facts, sync_unscriptable) {
                properties.insert(name.clone(), &property.value);
            }
            i += 1;
        }
        proof {
            lemma_all_taken(inst.properties.names(), i as int);
        }
        Some(properties)
    }

    /// Returns a set of properties that should not be written with syncback for
    /// an instance of a class if one exists.
    fn get_property_filter(&self, class: &str) -> (filter: Option<Vec<String>>)
        ensures
            match filter {
                Some(filter) => ignored_names(self.data.rules(), class@) matches Some(names)
                    && filter.deep_view().to_set() == names,
                None => ignored_names(self.data.rules(), class@) is None,
            },
    {
        let ignored = match self.ignore_props() {
            Some(ignored) => ignored,
            None => {
                return None;
            },
        };
        let classes = ancestors(class);
        let ghost rules = self.data.rules()->0;
        let ghost line = classes.deep_view();
        let mut set: Vec<String> = Vec::new();
        let mut i: usize = 0;
        while i < classes.len()
            invariant
                i <= classes@.len(),
                line == classes.deep_view(),
                ignored@ == rules.ignore_properties,
                forall|name: Seq<char>| #[trigger]
                    set.deep_view().contains(name) <==> ignored_in(
                        rules,
                        line.take(i as int),
                        name,
                    ),
            decreases classes@.len() - i,
        {
            let ghost before = set.deep_view();
            let ghost here = line[i as int];
            if let Some(list) = ignored.get(classes[i].as_str()) {
                let mut j: usize = 0;
                while j < list.len()
                    invariant
                        j <= list@.len(),
                        set.deep_view() == before + list.deep_view().take(j as int),
                    decreases list@.len() - j,
                {
                    let ghost so_far = set.deep_view();
                    set.push(list[j].clone());
                    proof {
                        assert(set.deep_view() =~= so_far.push(list@[j as int]@));
                    }
                    j += 1;
                }
                proof {
                    assert(set.deep_view() == before + rules.ignore_properties[here]);
                }
            }
            proof {
                lemma_ignored_step(rules, line, i as int, before, set.deep_view());
            }
            i += 1;
        }
        proof {
            assert(line.take(i as int) =~= line);
        }
        Some(set)
    }

    /// Returns whether a given path is allowed for syncback by matching `path`
    /// against every user specified glob for ignoring.
    ///
    /// If the provided `path` lies under `base_path`, it has `base_path`
    /// stripped from it to allow globs to operate as if it were local.
    pub fn is_valid_path(&self, base_path: &str, path: &str) -> (yes: bool)
        ensures
            may_allow(self.data.rules(), base_path@, path@, yes),
            portable(base_path@) && portable(path@) && surely_refused(
                self.data.rules(),
                local_path(base_path@, path@),
            ) ==> !yes,
            portable(base_path@) && portable(path@) && plain_patterns(self.data.rules()) ==> yes
                == path_allowed(self.data.rules(), base_path@, path@),
    {
        let rest = strip_base(path, base_path);
        let ghost left = rest.deep_view();
        let test_path = match rest {
            Some(suffix) => suffix,
            None => path.to_owned(),
        };
        proof {
            assert(path@.subrange(0, path@.len() as int) =~= path@);
            assert(piece_of(test_path@, path@));
            if without_backslash(path@) {
                lemma_piece_without_backslash(test_path@, path@);
            }
            assert(may_be_left(path@, base_path@, left));
            assert(test_path@ == rest_or_path(left, path@));
        }
        self.is_valid_local_path(test_path.as_str())
    }

    /// Returns whether a path that is local to the project is allowed for
    /// syncback.
    pub fn is_valid_local_path(&self, test_path: &str) -> (yes: bool)
        ensures
            globs_may_allow(self.data.rules(), test_path@, yes),
            surely_refused(self.data.rules(), test_path@) ==> !yes,
            without_backslash(test_path@) && plain_patterns(self.data.rules()) ==> yes
                == locally_allowed(self.data.rules(), test_path@),
    {
        let ghost rules = self.data.rules();
        proof {
            reveal_strlit(".git/**");
            lemma_short_is_bearable(".git/**"@);
        }
        let mut verdicts: Vec<bool> = Vec::new();
        verdicts.push(Glob::new(".git/**").is_match(test_path));
        if let Some(ignore_paths) = self.ignore_paths() {
            let mut i: usize = 0;
            while i < ignore_paths.len()
                invariant
                    i <= ignore_paths@.len(),
                    verdicts@.len() == i + 1,
                    rules == self.data.rules(),
                    rules is Some,
                    ignore_paths.deep_view() == rules->0.ignore_paths,
                    glob_may_find(".git/**"@, test_path@, verdicts@[0]),
                    forall|j: int|
                        0 <= j < i ==> glob_may_find(
                            #[trigger] rules->0.ignore_paths[j],
                            test_path@,
                            verdicts@[j + 1],
                        ),
                decreases ignore_paths@.len() - i,
            {
                assert(ignore_paths.deep_view()[i as int] == ignore_paths@[i as int].deep_view());
                verdicts.push(ignore_paths[i].is_match(test_path));
                i += 1;
            }
        }
        let first = first_accepted(&verdicts);
        proof {
            match first {
                Some(i) => {
                    if i > 0 {
                        assert(glob_may_find(rules->0.ignore_paths[i - 1], test_path@, true));
                    }
                },
                None => {
                    assert(!verdicts@[0]);
                    if let Some(rules) = rules {
                        let patterns = rules.ignore_paths;
                        assert forall|j: int| 0 <= j < patterns.len() implies glob_may_find(
                            #[trigger] patterns[j],
                            test_path@,
                            false,
                        ) by {
                            assert(!verdicts@[j + 1]);
                        }
                    }
                },
            }
            lemma_globs_decide(rules, test_path@, first is None);
        }
        first.is_none()
    }

    /// Returns a path to the provided instance in the new DOM. This path is
    /// where you would look for the object in Roblox Studio.
    pub fn get_new_inst_path(&self, referent: u128) -> (path: String)
        ensures
            path@ == slash_joined(
                names_to(self.data.new_tree@, self.data.new_tree.depths(), referent),
            ),
    {
        get_inst_path(self.data.new_tree, referent)
    }

    /// Returns an instance from the old tree with the provided referent, if it
    /// exists.
    pub fn get_old_instance(&self, referent: u128) -> (instance: Option<InstanceWithMeta<'sync>>)
        ensures
            match instance {
                Some(instance) => instance.id == referent
                    && self.data.old_tree@.instances.contains_key(referent) && instance@
                    == self.data.old_tree@.instances[referent],
                None => !self.data.old_tree@.instances.contains_key(referent),
            },
    {
        self.data.old_tree.get_instance(referent)
    }

    /// Returns an instance from the new tree with the provided referent, if it
    /// exists.
    pub fn get_new_instance(&self, referent: u128) -> (instance: Option<Instance<'sync>>)
        ensures
            match instance {
                Some(instance) => is_instance_of(instance, *self.data.new_tree, referent),
                None => !self.data.new_tree@.contains_key(referent),
            },
    {
        self.data.new_tree.get_by_ref(referent)
    }

    /// The 'old' instance this snapshot is for, if it exists.
    pub fn old_inst(&self) -> (instance: Option<InstanceWithMeta<'sync>>)
        ensures
            match instance {
                Some(instance) => self.old == Some(instance.id)
                    && self.data.old_tree@.instances.contains_key(instance.id) && instance@
                    == self.data.old_tree@.instances[instance.id],
                None => self.old matches Some(old) ==> !self.data.old_tree@.instances.contains_key(
                    old,
                ),
            },
    {
        match self.old {
            Some(old) => self.data.old_tree.get_instance(old),
            None => None,
        }
    }

    /// The 'new' instance this snapshot is for.
    pub fn new_inst(&self) -> (instance: Instance<'sync>)
        requires
            self.data.new_tree@.contains_key(self.new),
        ensures
            is_instance_of(instance, *self.data.new_tree, self.new),
    {
        self.data.new_tree.get_by_ref(self.new).unwrap()
    }

    /// Returns the underlying VFS being used for syncback.
    pub fn vfs(&self) -> (vfs: &'sync Vfs)
        ensures
            vfs == self.data.vfs,
    {
        self.data.vfs
    }

    /// Returns the tree used for the 'new' tree.
    pub fn new_tree(&self) -> (tree: &'sync Dom)
        ensures
            tree == self.data.new_tree,
    {
        self.data.new_tree
    }

    /// Returns user-specified property ignore rules.
    pub fn ignore_props(&self) -> (ignored: Option<&'sync NameMap<Vec<String>>>)
        ensures
            ignored.deep_view() == match self.data.rules() {
                Some(rules) => Some(rules.ignore_properties),
                None => None,
            },
    {
        match self.data.syncback_rules {
            Some(rules) => Some(&rules.ignore_properties),
            None => None,
        }
    }

    /// Returns user-specified ignore paths.
    pub fn ignore_paths(&self) -> (ignored: Option<&'sync Vec<Glob>>)
        ensures
            ignored.deep_view() == match self.data.rules() {
                Some(rules) => Some(rules.ignore_paths),
                None => None,
            },
    {
        match self.data.syncback_rules {
            Some(rules) => Some(&rules.ignore_paths),
            None => None,
        }
    }

    /// Returns user-specified ignore tree.
    pub fn ignore_tree(&self) -> (ignored: Option<&'sync Vec<String>>)
        ensures
            ignored.deep_view() == match self.data.rules() {
                Some(rules) => Some(rules.ignore_trees),
                None => None,
            },
    {
        match self.data.syncback_rules {
            Some(rules) => Some(&rules.ignore_trees),
            None => None,
        }
    }

    /// Returns the user-defined setting to determine whether unscriptable
    /// properties should be synced back or not.
    pub fn sync_unscriptable(&self) -> (yes: bool)
        ensures
            yes == unscriptable_wanted(self.data.rules()),
    {
        match self.data.syncback_rules {
            Some(rules) => match rules.sync_unscriptable {
                Some(yes) => yes,
                None => false,
            },
            None => false,
        }
    }
}

/// Whatever is synced back of an instance is a property of the instance, as it
/// stands there; it is not written elsewhere, and the user does not ignore it.
/// Unless the user asks for it, it is not out of the reach of scripts.
pub proof fn lemma_filtered_properties_are_quiet(
    properties: Map<Seq<char>, PropertyView>,
    rules: Option<RulesView>,
    class: Seq<char>,
    old: Option<TreeInstanceView>,
    name: Seq<char>,
)
    requires
        filtered_properties(properties, rules, class, old).contains_key(name),
    ensures
        properties.contains_key(name),
        filtered_properties(properties, rules, class, old)[name]
            == properties[name].value,
        !kept_elsewhere(class, name),
        ignored_names(rules, class) matches Some(names) ==> !names.contains(name),
        !unscriptable_wanted(rules) && superclass_of(class) is Some ==> scriptability_of(
            class,
            name,
        ) != Some(Scriptability::Inaccessible),
{
}

/// A property that the old instance has stays in what is synced back when its
/// value returns to the default, as long as nothing keeps it out.
pub proof fn lemma_old_properties_are_kept(
    properties: Map<Seq<char>, PropertyView>,
    rules: Option<RulesView>,
    class: Seq<char>,
    old: TreeInstanceView,
    name: Seq<char>,
)
    requires
        properties.contains_key(name),
        old.properties.contains_key(name),
        !kept_elsewhere(class, name),
        ignored_names(rules, class) matches Some(names) ==> !names.contains(name),
        scriptability_of(class, name) != Some(Scriptability::Inaccessible) || unscriptable_wanted(
            rules,
        ),
    ensures
        filtered_properties(properties, rules, class, Some(old)).contains_key(name),
{
}

proof fn lemma_ignored_step(
    rules: RulesView,
    line: Seq<Seq<char>>,
    i: int,
    before: Seq<Seq<char>>,
    after: Seq<Seq<char>>,
)
    requires
        0 <= i < line.len(),
        forall|name: Seq<char>| #[trigger]
            before.contains(name) <==> ignored_in(rules, line.take(i), name),
        after == if rules.ignore_properties.contains_key(line[i]) {
            before + rules.ignore_properties[line[i]]
        } else {
            before
        },
    ensures
        forall|name: Seq<char>| #[trigger]
            after.contains(name) <==> ignored_in(rules, line.take(i + 1), name),
{
    let part = line.take(i);
    let more = line.take(i + 1);
    assert forall|name: Seq<char>| #[trigger] after.contains(name) <==> ignored_in(
        rules,
        more,
        name,
    ) by {
        if after.contains(name) {
            let k = after.index_of(name);
            if k < before.len() {
                assert(before[k] == name);
                assert(before.contains(name));
                let m = choose|m: int|
                    0 <= m < part.len() && rules.ignore_properties.contains_key(#[trigger] part[m])
                        && rules.ignore_properties[part[m]].contains(name);
                assert(more[m] == part[m]);
            } else {
                let list = rules.ignore_properties[line[i]];
                assert(list[k - before.len()] == name);
                assert(more[i] == line[i]);
            }
        }
        if ignored_in(rules, more, name) {
            let m = choose|m: int|
                0 <= m < more.len() && rules.ignore_properties.contains_key(#[trigger] more[m])
                    && rules.ignore_properties[more[m]].contains(name);
            if m < i {
                assert(part[m] == more[m]);
                assert(before.contains(name));
                let k = before.index_of(name);
                assert(after[k] == name);
            } else {
                let list = rules.ignore_properties[line[i]];
                let k = list.index_of(name);
                assert(after[before.len() + k] == name);
            }
        }
    }
}

} // verus!
