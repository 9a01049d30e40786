//! What holds of every path that is read: its rule, its middleware and its name.

use vstd::prelude::*;

use crate::glob::{bearable, glob_compiles, glob_match, glob_may_find, nesting};
use crate::instance::SnapshotView;
use crate::middleware::{
    directory_middleware, reader_of, rule_middleware, sets_own_properties, without_writer,
    writer_of, Middleware, ScriptType, SnapshotReader, SyncbackWriter,
};
use crate::paths::{
    is_absolute, is_trimmed, joined, lies_below, may_be_left, path_below, piece_of, portable,
    sibling_path,
};
use crate::reflection::{
    ancestry, default_known, holds_default, lineage, own_default, superclass_of,
};
use crate::sync_rule::{
    chosen_by, chosen_rule, default_rules, extension_dot, file_stem, instance_name, may_choose,
    plain_rule, plain_rules, rule_accepts, rule_may_find, verdict_fits, verdicts_fit, SyncRuleView,
};
use crate::syncback_snapshot::{plain_patterns, RulesView};
use crate::text::slash_joined;
use crate::vfs_snapshot::{
    finished, is_first_true, lemma_first_rule_wins, plan_follows, read_plan, read_plan_by,
    takes_rule, Found, ReadError, TaskView,
};

verus! {

/// The instance of a directory is read with the middleware and from the path that
/// were found for the directory, whatever they are, and bears the last component of
/// the directory's own path.
pub proof fn lemma_directories_bear_their_name(
    rule: Option<SyncRuleView>,
    path: Seq<char>,
    middleware: Middleware,
    init_path: String,
    file_name: Option<Seq<char>>,
)
    ensures
        match read_plan_by(rule, path, Found::Directory(middleware, init_path), file_name) {
            Ok(Some(task)) => {
                &&& Some(task.name) == file_name
                &&& task.middleware == middleware
                &&& task.path == init_path@
            },
            Ok(None) => false,
            Err(error) => error == ReadError::InvalidFileName && file_name is None,
        },
{
}

/// Nothing is read where nothing is found. A file without a name cannot be read; one
/// whose name marks it as a part of its directory gives no instance; and any other
/// is read from its own path, with the middleware of its rule, and gives no instance
/// only where it has no rule.
pub proof fn lemma_files_are_read_by_their_rule(
    rule: Option<SyncRuleView>,
    path: Seq<char>,
    file_name: Option<Seq<char>>,
)
    ensures
        read_plan_by(rule, path, Found::Nothing, file_name) == Ok::<Option<TaskView>, ReadError>(
            None,
        ),
        file_name is None ==> read_plan_by(rule, path, Found::File, file_name) == Err::<
            Option<TaskView>,
            ReadError,
        >(ReadError::InvalidFileName),
        file_name matches Some(name) ==> match read_plan_by(rule, path, Found::File, file_name) {
            Ok(Some(task)) => {
                &&& !belongs_to_directory(name)
                &&& task.path == path
                &&& rule matches Some(rule) && task.middleware == rule.middleware && is_named_by(
                    task.name,
                    rule,
                    name,
                )
            },
            Ok(None) => belongs_to_directory(name) || rule is None,
            Err(_) => false,
        },
{
    if let Some(name) = file_name {
        if let Some(rule) = rule {
            lemma_instances_are_named_by_rules(rule, name);
        }
    }
}

/// The files that belong to their directory: `init` scripts and `init.csv`.
pub open spec fn belongs_to_directory(name: Seq<char>) -> bool {
    ||| name == "init.csv"@
    ||| name == "init.lua"@
    ||| name == "init.luau"@
    ||| name == "init.client.lua"@
    ||| name == "init.client.luau"@
    ||| name == "init.server.lua"@
    ||| name == "init.server.luau"@
}

/// Whether a name is the one that a rule gives to a file: what stands before the
/// rule's suffix, or the whole file name where it does not end with that; without a
/// suffix, what stands before the last dot, unless that is the first character.
pub open spec fn is_named_by(name: Seq<char>, rule: SyncRuleView, file_name: Seq<char>) -> bool {
    match rule.suffix {
        Some(suffix) => {
            ||| file_name == name + suffix
            ||| name == file_name && !(exists|start: Seq<char>| file_name == #[trigger] (start
                + suffix))
        },
        None => is_stem(name, file_name),
    }
}

/// Whether a text is what stands before the last dot of a file name; the whole name
/// where there is no dot behind its first character, or where it is `..`.
pub open spec fn is_stem(stem: Seq<char>, file_name: Seq<char>) -> bool {
    ||| stem.len() > 0 && file_name != seq!['.', '.'] && exists|extension: Seq<char>|
        !extension.contains('.') && file_name == #[trigger] (stem + seq!['.'] + extension)
    ||| stem == file_name && (file_name == seq!['.', '.'] || forall|i: int|
        1 <= i < file_name.len() ==> #[trigger] file_name[i] != '.')
}

/// The instance of a file is named by the rule of the file.
pub proof fn lemma_instances_are_named_by_rules(rule: SyncRuleView, file_name: Seq<char>)
    ensures
        is_named_by(instance_name(rule, file_name), rule, file_name),
{
    match rule.suffix {
        Some(suffix) => {
            let name = instance_name(rule, file_name);
            if suffix.is_suffix_of(file_name) {
                assert(file_name =~= name + suffix);
            } else if exists|start: Seq<char>| file_name == #[trigger] (start + suffix) {
                let start = choose|start: Seq<char>| file_name == #[trigger] (start + suffix);
                assert(file_name.subrange(
                    file_name.len() - suffix.len(),
                    file_name.len() as int,
                ) =~= suffix);
            }
        },
        None => {
            lemma_stems(file_name);
        },
    }
}

proof fn lemma_stems(file_name: Seq<char>)
    ensures
        is_stem(file_stem(file_name), file_name),
{
    let dot = extension_dot(file_name);
    lemma_last_dot(file_name);
    if dot > 0 && file_name != seq!['.', '.'] {
        let stem = file_name.take(dot);
        let extension = file_name.skip(dot + 1);
        assert(file_name =~= stem + seq!['.'] + extension);
        assert(!extension.contains('.')) by {
            if extension.contains('.') {
                let i = extension.index_of('.');
                assert(file_name[dot + 1 + i] == '.');
            }
        }
    }
}

proof fn lemma_last_dot(name: Seq<char>)
    ensures
        ({
            let dot = extension_dot(name);
            &&& 0 <= dot
            &&& dot < name.len() || dot == 0
            &&& dot > 0 ==> name[dot] == '.'
            &&& forall|i: int| dot < i < name.len() ==> #[trigger] name[i] != '.'
        }),
    decreases name.len(),
{
    if name.len() > 1 && name.last() != '.' {
        lemma_last_dot(name.drop_last());
        let dot = extension_dot(name);
        assert forall|i: int| dot < i < name.len() implies #[trigger] name[i] != '.' by {
            if i < name.len() - 1 {
                assert(name.drop_last()[i] == name[i]);
            }
        }
    }
}

/// A rule is for a file that lies under its base path exactly if its pattern matches
/// what is left of the path there and its exclusion, if it has one, does not. A
/// pattern that cannot be compiled matches nothing.
pub proof fn lemma_rules_accept_what_they_name(rule: SyncRuleView, path: Seq<char>)
    ensures
        rule_accepts(rule, path) <==> (path_below(path, rule.base_path) matches Some(local) && {
            &&& glob_compiles(rule.pattern)
            &&& glob_match(rule.pattern, local)
            &&& !(rule.exclude matches Some(exclude) && glob_compiles(exclude) && glob_match(
                exclude,
                local,
            ))
        }),
{
}

/// A rule is held to be for a file only where its pattern can find what is left of
/// the path and its exclusion can miss it, and not to be for it only where the
/// pattern can miss it, the exclusion can find it, or nothing is left.
pub proof fn lemma_rules_go_by_their_globs(
    rule: SyncRuleView,
    local: Option<Seq<char>>,
    verdict: bool,
)
    ensures
        rule_may_find(rule, local, verdict) <==> match local {
            Some(local) => {
                let named = |yes: bool| glob_may_find(rule.pattern, local, yes);
                let excluded = |yes: bool|
                    rule.exclude matches Some(exclude) && glob_may_find(exclude, local, yes);
                ||| verdict && named(true) && (rule.exclude is None || excluded(false))
                ||| !verdict && (named(false) || excluded(true))
            },
            None => !verdict,
        },
{
}

/// A glob finds what its pattern matches, and nothing where the pattern cannot be
/// compiled. Where the pattern is short and neither text holds a backslash, nothing
/// else is possible.
pub proof fn lemma_globs_find_what_they_match(pattern: Seq<char>, path: Seq<char>)
    requires
        pattern.len() <= 4096,
        !pattern.contains('\\'),
    ensures
        !path.contains('\\') && glob_compiles(pattern) && glob_match(pattern, path)
            ==> glob_may_find(pattern, path, true) && !glob_may_find(pattern, path, false),
        !path.contains('\\') && !(glob_compiles(pattern) && glob_match(pattern, path))
            ==> glob_may_find(pattern, path, false) && !glob_may_find(pattern, path, true),
        !glob_compiles(pattern) ==> !glob_may_find(pattern, path, true),
{
}

/// The middleware of a file is that of its rule.
pub proof fn lemma_middleware_is_that_of_the_rule(rule: Option<SyncRuleView>)
    ensures
        match rule {
            Some(rule) => rule_middleware(Some(rule)) == Some(rule.middleware),
            None => rule_middleware(rule) is None,
        },
{
}

/// A rule means the same on every machine where its patterns are short and hold no
/// backslash and its base path is portable.
pub proof fn lemma_plain_rules(rule: SyncRuleView)
    ensures
        plain_rule(rule) <==> {
            &&& rule.pattern.len() <= 4096
            &&& !rule.pattern.contains('\\')
            &&& rule.exclude matches Some(exclude) ==> exclude.len() <= 4096 && !exclude.contains(
                '\\',
            )
            &&& portable(rule.base_path)
        },
{
}

/// The default rules hold wherever a file is, and each cuts from a file name what its
/// pattern asks for behind the star.
pub proof fn lemma_default_rules_hold_everywhere()
    ensures
        forall|i: int|
            0 <= i < default_rules().len() ==> {
                let rule = #[trigger] default_rules()[i];
                &&& rule.base_path.len() == 0
                &&& rule.suffix matches Some(suffix) ==> rule.pattern == "*"@ + suffix
                &&& rule.exclude is Some ==> rule.middleware == Middleware::Json
            },
{
    reveal_strlit("*");
    reveal_strlit("*.server.lua");
    reveal_strlit(".server.lua");
    reveal_strlit("*.server.luau");
    reveal_strlit(".server.luau");
    reveal_strlit("*.client.lua");
    reveal_strlit(".client.lua");
    reveal_strlit("*.client.luau");
    reveal_strlit(".client.luau");
    reveal_strlit("*.project.json");
    reveal_strlit(".project.json");
    reveal_strlit("*.model.json");
    reveal_strlit(".model.json");
    reveal_strlit("*.json");
    reveal_strlit(".json");
    assert("*.server.lua"@ =~= "*"@ + ".server.lua"@);
    assert("*.server.luau"@ =~= "*"@ + ".server.luau"@);
    assert("*.client.lua"@ =~= "*"@ + ".client.lua"@);
    assert("*.client.luau"@ =~= "*"@ + ".client.luau"@);
    assert("*.project.json"@ =~= "*"@ + ".project.json"@);
    assert("*.model.json"@ =~= "*"@ + ".model.json"@);
    assert("*.json"@ =~= "*"@ + ".json"@);
}

/// The first `true` of some answers is one, and none is before it.
pub proof fn lemma_first_true_is_first(answers: Seq<bool>, first: int)
    ensures
        is_first_true(answers, first) <==> {
            &&& 0 <= first < answers.len()
            &&& answers[first]
            &&& !answers.take(first).contains(true)
        },
{
    if is_first_true(answers, first) && answers.take(first).contains(true) {
        let i = answers.take(first).index_of(true);
        assert(answers[i]);
    }
    if 0 <= first < answers.len() && !answers.take(first).contains(true) {
        assert forall|j: int| 0 <= j < first implies !answers[j] by {
            if answers[j] {
                assert(answers.take(first)[j]);
            }
        }
    }
}

/// A path below a directory is the directory, one slash and the name; the slash is
/// not repeated, and an empty directory adds none. An absolute name stands for
/// itself.
pub proof fn lemma_paths_are_joined_by_one_slash(directory: Seq<char>, name: Seq<char>)
    ensures
        ({
            let path = joined(directory, name);
            let absolute = name.len() > 0 && name[0] == '/';
            &&& absolute ==> path == name
            &&& !absolute && directory.len() == 0 ==> path == name
            &&& !absolute && directory.len() > 0 && directory[directory.len() - 1] == '/' ==> path
                == directory + name
            &&& !absolute && directory.len() > 0 && directory[directory.len() - 1] != '/' ==> path
                == directory + seq!['/'] + name
        }),
{
    assert(Seq::<char>::empty() + name =~= name);
}

/// A path is portable where it holds no backslash and starts neither with a drive nor
/// with two slashes.
pub proof fn lemma_portable_paths(path: Seq<char>)
    ensures
        portable(path) <==> {
            &&& !path.contains('\\')
            &&& path.len() < 2 || (path[0] == '/' && path[1] != '/') || (path[0] != '/' && path[1]
                != ':')
        },
        is_absolute(path) <==> path.len() > 0 && path[0] == '/',
{
}

/// What is left of a path that is an absolute base, a slash and a relative path
/// without ornaments is the relative path.
pub proof fn lemma_rest_of_path_is_found(base: Seq<char>, rest: Seq<char>)
    requires
        base.len() > 1,
        base[0] == '/',
        base[base.len() - 1] != '/',
        rest.len() > 0,
        rest[0] != '/',
        rest[0] != '.',
        rest[rest.len() - 1] != '/',
        rest[rest.len() - 1] != '.',
    ensures
        is_trimmed(rest),
        lies_below(base + seq!['/'] + rest, base),
        path_below(base + seq!['/'] + rest, base) == Some(rest),
        path_below(rest, base) is None,
{
    crate::paths::lemma_joined_lies_below(base, rest);
    assert(joined(base, rest) =~= base + seq!['/'] + rest);
}

/// A file name is replaced in the directory that holds the file; a path without a
/// file name or a directory gets one behind it.
pub proof fn lemma_siblings_share_their_directory(
    path: Seq<char>,
    file_name: Option<Seq<char>>,
    parent: Option<Seq<char>>,
    name: Seq<char>,
)
    ensures
        file_name is Some ==> (parent matches Some(directory) ==> sibling_path(
            path,
            file_name,
            parent,
            name,
        ) == joined(directory, name)),
        file_name is None || parent is None ==> sibling_path(path, file_name, parent, name)
            == joined(path, name),
{
}

/// Parts are joined in their order, with one slash between each two.
pub proof fn lemma_parts_are_joined_by_slashes(parts: Seq<Seq<char>>, last: Seq<char>)
    ensures
        slash_joined(Seq::empty()) == Seq::<char>::empty(),
        parts.len() == 0 ==> slash_joined(parts.push(last)) == last,
        parts.len() > 0 ==> slash_joined(parts.push(last)) == slash_joined(parts) + seq!['/']
            + last,
{
    assert(parts.push(last).drop_last() =~= parts);
}

/// A pattern with no more opening braces than may be nested, and not too long, can be
/// used, whatever else it holds.
pub proof fn lemma_patterns_with_few_braces_are_bearable(pattern: Seq<char>)
    requires
        pattern.len() < 0x1000_0000,
        pattern.filter(|c: char| c == '{').len() <= 1000,
    ensures
        bearable(pattern),
{
    lemma_braces_bound_nesting(pattern, true);
    lemma_braces_bound_nesting(pattern, false);
}

proof fn lemma_braces_bound_nesting(pattern: Seq<char>, escapes: bool)
    ensures
        nesting(pattern, escapes).depth <= nesting(pattern, escapes).deepest <= pattern.filter(
            |c: char| c == '{',
        ).len(),
    decreases pattern.len(),
{
    reveal(Seq::filter);
    if pattern.len() > 0 {
        lemma_braces_bound_nesting(pattern.drop_last(), escapes);
    }
}

/// Groups that stand side by side are not nested: a pattern can be used as often in a
/// row as the length allows.
pub proof fn lemma_groups_side_by_side_are_not_nested(
    first: Seq<char>,
    second: Seq<char>,
    escapes: bool,
)
    requires
        nesting(first, escapes).depth == 0,
        nesting(first, escapes).class == nesting(Seq::empty(), escapes).class,
    ensures
        ({
            let both = nesting(first + second, escapes);
            let a = nesting(first, escapes).deepest;
            let b = nesting(second, escapes).deepest;
            &&& both.depth == nesting(second, escapes).depth
            &&& both.class == nesting(second, escapes).class
            &&& both.deepest == if a <= b {
                b
            } else {
                a
            }
        }),
    decreases second.len(),
{
    if second.len() == 0 {
        assert(first + second =~= first);
    } else {
        assert((first + second).drop_last() =~= first + second.drop_last());
        lemma_groups_side_by_side_are_not_nested(first, second.drop_last(), escapes);
    }
}

/// A class is the first of its own ancestry, and the ancestry of its superclass, if
/// the database gives one, follows.
pub proof fn lemma_ancestry_goes_up(class: Seq<char>, most: nat)
    requires
        most > 0,
    ensures
        ancestry(class, most).len() > 0,
        ancestry(class, most)[0] == class,
        superclass_of(class) matches Some(Some(above)) ==> ancestry(class, most).skip(1)
            == ancestry(above, (most - 1) as nat),
        !(superclass_of(class) matches Some(Some(_))) ==> ancestry(class, most).len() == 1,
{
    if let Some(Some(above)) = superclass_of(class) {
        assert(ancestry(class, most).skip(1) =~= ancestry(above, (most - 1) as nat));
    }
}

/// A default is known of a property exactly if the class or one of the classes above it
/// holds one, and all of these are in the database.
pub proof fn lemma_defaults_are_inherited(class: Seq<char>, property: Seq<char>)
    ensures
        default_known(class, property) <==> (lineage(class, usize::MAX as nat) matches Some(classes)
            && exists|above: Seq<char>| #[trigger]
            classes.contains(above) && own_default(above, property)),
        lineage(class, usize::MAX as nat) matches Some(classes) ==> classes == ancestry(
            class,
            usize::MAX as nat,
        ) && classes.contains(class),
{
    lemma_lineage_is_ancestry(class, usize::MAX as nat);
    if let Some(classes) = lineage(class, usize::MAX as nat) {
        if holds_default(classes, property) {
            let i = choose|i: int|
                0 <= i < classes.len() && own_default(#[trigger] classes[i], property);
            assert(classes.contains(classes[i]));
        }
        if exists|above: Seq<char>| #[trigger]
            classes.contains(above) && own_default(above, property) {
            let above = choose|above: Seq<char>| #[trigger]
                classes.contains(above) && own_default(above, property);
            let i = classes.index_of(above);
            assert(own_default(classes[i], property));
        }
        assert(classes[0] == class);
    }
}

proof fn lemma_lineage_is_ancestry(class: Seq<char>, most: nat)
    ensures
        lineage(class, most) matches Some(classes) ==> classes == ancestry(class, most)
            && classes.len() > 0 && classes[0] == class,
    decreases most,
{
    if most > 0 {
        if let Some(Some(above)) = superclass_of(class) {
            lemma_lineage_is_ancestry(above, (most - 1) as nat);
        } else {
            assert(seq![class] + Seq::<Seq<char>>::empty() =~= seq![class]);
        }
    }
}

/// A class whose superclasses are all in the database has a lineage, and one of which
/// any is missing has none.
pub proof fn lemma_lineage_goes_up(class: Seq<char>, most: nat)
    requires
        most > 0,
    ensures
        superclass_of(class) is None ==> lineage(class, most) is None,
        superclass_of(class) == Some(None::<Seq<char>>) ==> lineage(class, most) == Some(
            seq![class],
        ),
        superclass_of(class) matches Some(Some(above)) ==> lineage(class, most).is_some()
            == lineage(above, (most - 1) as nat).is_some(),
{
}

/// Whatever the machine, a rule that is chosen for a file is one of the rules, and its
/// globs can find it so in a piece of the path; and where none is chosen, each can find
/// it so.
pub proof fn lemma_chosen_rules_fit(
    rules: Seq<SyncRuleView>,
    path: Seq<char>,
    chosen: Option<SyncRuleView>,
)
    requires
        may_choose(rules, path, chosen),
    ensures
        match chosen {
            Some(rule) => {
                &&& rules.contains(rule)
                &&& can_be_for(rule, path)
            },
            None => forall|i: int|
                0 <= i < rules.len() ==> can_be_not_for(#[trigger] rules[i], path),
        },
        forall|i: int|
            0 <= i < rules.len() && chosen == Some(#[trigger] rules[i]) && (forall|j: int|
                0 <= j < i ==> rules[j] != rules[i]) ==> forall|j: int|
                0 <= j < i ==> can_be_not_for(#[trigger] rules[j], path),
{
    let verdicts = choose|verdicts: Seq<bool>| #[trigger]
        verdicts_fit(verdicts, rules, path) && chosen == chosen_by(rules, verdicts, 0);
    lemma_chosen_from(rules, verdicts, 0);
    assert forall|i: int| 0 <= i < rules.len() && !verdicts[i] implies can_be_not_for(
        #[trigger] rules[i],
        path,
    ) by {
        assert(verdict_fits(verdicts[i], rules[i], path));
        let local = choose|local: Option<Seq<char>>|
            may_be_left(path, rules[i].base_path, local) && #[trigger] rule_may_find(
                rules[i],
                local,
                false,
            );
        if let Some(local) = local {
            assert(piece_of(local, path));
        }
    }
    if let Some(rule) = chosen {
        let i = choose|i: int|
            0 <= i < rules.len() && #[trigger] rules[i] == rule && verdicts[i] && forall|j: int|
                0 <= j < i ==> !verdicts[j];
        assert(verdict_fits(verdicts[i], rules[i], path));
        let local = choose|local: Option<Seq<char>>|
            may_be_left(path, rule.base_path, local) && #[trigger] rule_may_find(
                rule,
                local,
                true,
            );
        assert(piece_of(local->0, path));
    }
}

/// Whether the globs of a rule can find that it is for a file, by a piece of the path.
pub open spec fn can_be_for(rule: SyncRuleView, path: Seq<char>) -> bool {
    exists|local: Seq<char>| #[trigger]
        piece_of(local, path) && glob_may_find(rule.pattern, local, true) && (
        rule.exclude matches Some(exclude) ==> glob_may_find(exclude, local, false))
}

/// Whether a rule can be found not to be for a file: the file does not lie under its base
/// path, as a portable path either does or does not, or its globs can find so in a piece
/// of the path.
pub open spec fn can_be_not_for(rule: SyncRuleView, path: Seq<char>) -> bool {
    ||| exists|local: Seq<char>| #[trigger]
        piece_of(local, path) && (glob_may_find(rule.pattern, local, false) || (
        rule.exclude matches Some(exclude) && glob_may_find(exclude, local, true)))
    ||| portable(path) && portable(rule.base_path) ==> path_below(path, rule.base_path) is None
}

proof fn lemma_chosen_from(rules: Seq<SyncRuleView>, verdicts: Seq<bool>, from: int)
    requires
        0 <= from <= rules.len(),
    ensures
        match chosen_by(rules, verdicts, from) {
            Some(rule) => exists|i: int|
                from <= i < rules.len() && #[trigger] rules[i] == rule && verdicts[i]
                    && forall|j: int| from <= j < i ==> !verdicts[j],
            None => forall|i: int| from <= i < rules.len() ==> !verdicts[i],
        },
    decreases rules.len() - from,
{
    if from < rules.len() {
        if verdicts[from] {
            assert(rules[from] == chosen_by(rules, verdicts, from)->0);
        } else {
            lemma_chosen_from(rules, verdicts, from + 1);
            if let Some(rule) = chosen_by(rules, verdicts, from) {
                let i = choose|i: int|
                    from + 1 <= i < rules.len() && #[trigger] rules[i] == rule && verdicts[i]
                        && forall|j: int| from + 1 <= j < i ==> !verdicts[j];
                assert(rules[i] == rule);
            }
        }
    }
}

/// The plan for a path follows from what is found there, from the file name and from a
/// rule that may be chosen among the user's rules and then the default ones.
pub proof fn lemma_plans_follow_rules(
    plan: Result<Option<TaskView>, ReadError>,
    rules: Seq<SyncRuleView>,
    path: Seq<char>,
    found: Found,
    file_name: Option<Seq<char>>,
)
    requires
        plan_follows(plan, rules, path, found, file_name),
    ensures
        found is Nothing ==> plan == Ok::<Option<TaskView>, ReadError>(None),
        !(found is Nothing) && file_name is None ==> plan == Err::<Option<TaskView>, ReadError>(
            ReadError::InvalidFileName,
        ),
        file_name matches Some(name) ==> match found {
            Found::Nothing => true,
            Found::Directory(middleware, init_path) => plan matches Ok(Some(task))
                && task.middleware == middleware && task.path == init_path@ && task.name == name,
            Found::File => match plan {
                Ok(Some(task)) => !belongs_to_directory(name) && task.path == path && exists|
                    rule: SyncRuleView,
                | #[trigger]
                    may_choose(rules + default_rules(), path, Some(rule)) && task.middleware
                        == rule.middleware && is_named_by(task.name, rule, name),
                Ok(None) => belongs_to_directory(name) || may_choose(
                    rules + default_rules(),
                    path,
                    None,
                ),
                Err(_) => false,
            },
        },
{
    let rule = choose|rule: Option<SyncRuleView>|
        (takes_rule(found, file_name) ==> may_choose(rules + default_rules(), path, rule)) && plan
            == #[trigger] read_plan_by(rule, path, found, file_name);
    if found is File {
        lemma_files_are_read_by_their_rule(rule, path, file_name);
    }
}

/// A file is read by the first rule that is for it, the user's rules before the default
/// ones: with its middleware, from the path of the file, and under the name that the rule
/// gives. Without one it gives no instance.
pub proof fn lemma_files_are_read_by_the_first_rule(
    rules: Seq<SyncRuleView>,
    path: Seq<char>,
    name: Seq<char>,
)
    requires
        !belongs_to_directory(name),
    ensures
        ({
            let all = rules + default_rules();
            match read_plan(rules, path, Found::File, Some(name)) {
                Ok(Some(task)) => task.path == path && exists|i: int|
                    0 <= i < all.len() && rule_accepts(#[trigger] all[i], path) && task.middleware
                        == all[i].middleware && is_named_by(task.name, all[i], name) && forall|
                        j: int,
                    |
                        0 <= j < i ==> !rule_accepts(#[trigger] all[j], path),
                Ok(None) => forall|j: int|
                    0 <= j < all.len() ==> !rule_accepts(#[trigger] all[j], path),
                Err(_) => false,
            }
        }),
{
    let all = rules + default_rules();
    lemma_first_rule_wins(all, path);
    let rule = chosen_rule(all, path);
    lemma_files_are_read_by_their_rule(rule, path, Some(name));
}

/// The middleware that become directories are those of a plain directory and of the
/// directories with an `init` file; `Ignore` alone cannot be read; it and the data
/// formats that have no class of their own cannot be written.
pub proof fn lemma_middleware_by_what_they_do(middleware: Middleware)
    ensures
        directory_middleware(middleware) <==> (match middleware {
            Middleware::Dir => true,
            Middleware::ServerScriptDir => true,
            Middleware::ClientScriptDir => true,
            Middleware::ModuleScriptDir => true,
            Middleware::CsvDir => true,
            _ => false,
        }),
        sets_own_properties(middleware) <==> (match middleware {
            Middleware::JsonModel => true,
            Middleware::Project => true,
            Middleware::Rbxm => true,
            Middleware::Rbxmx => true,
            _ => false,
        }),
        reader_of(middleware) is None <==> middleware is Ignore,
        writer_of(middleware) is None <==> middleware is Ignore || middleware is Json
            || middleware is Toml,
        without_writer(middleware) <==> writer_of(middleware) is None,
        reader_of(middleware) matches Some(SnapshotReader::LuaInit(script)) ==> writer_of(
            middleware,
        ) == Some(SyncbackWriter::LuaInit(script)),
{
}

/// Each reader is that of one middleware alone.
pub proof fn lemma_readers_tell_middleware_apart(middleware: Middleware)
    ensures
        match reader_of(middleware) {
            Some(SnapshotReader::Csv) => middleware is Csv,
            Some(SnapshotReader::JsonModel) => middleware is JsonModel,
            Some(SnapshotReader::Json) => middleware is Json,
            Some(SnapshotReader::Lua(ScriptType::Server)) => middleware is ServerScript,
            Some(SnapshotReader::Lua(ScriptType::Client)) => middleware is ClientScript,
            Some(SnapshotReader::Lua(ScriptType::Module)) => middleware is ModuleScript,
            Some(SnapshotReader::Project) => middleware is Project,
            Some(SnapshotReader::Rbxm) => middleware is Rbxm,
            Some(SnapshotReader::Rbxmx) => middleware is Rbxmx,
            Some(SnapshotReader::Toml) => middleware is Toml,
            Some(SnapshotReader::Txt) => middleware is Text,
            Some(SnapshotReader::Dir) => middleware is Dir,
            Some(SnapshotReader::LuaInit(ScriptType::Server)) => middleware is ServerScriptDir,
            Some(SnapshotReader::LuaInit(ScriptType::Client)) => middleware is ClientScriptDir,
            Some(SnapshotReader::LuaInit(ScriptType::Module)) => middleware is ModuleScriptDir,
            Some(SnapshotReader::CsvInit) => middleware is CsvDir,
            None => middleware is Ignore,
        },
{
}

/// Each writer is that of the middleware whose files it writes; those of the three kinds
/// of scripts that are files share one.
pub proof fn lemma_writers_tell_middleware_apart(middleware: Middleware)
    ensures
        match writer_of(middleware) {
            Some(SyncbackWriter::Csv) => middleware is Csv,
            Some(SyncbackWriter::JsonModel) => middleware is JsonModel,
            Some(SyncbackWriter::Project) => middleware is Project,
            Some(SyncbackWriter::Lua) => middleware is ServerScript || middleware is ClientScript
                || middleware is ModuleScript,
            Some(SyncbackWriter::Rbxm) => middleware is Rbxm,
            Some(SyncbackWriter::Rbxmx) => middleware is Rbxmx,
            Some(SyncbackWriter::Txt) => middleware is Text,
            Some(SyncbackWriter::Dir) => middleware is Dir,
            Some(SyncbackWriter::LuaInit(ScriptType::Server)) => middleware is ServerScriptDir,
            Some(SyncbackWriter::LuaInit(ScriptType::Client)) => middleware is ClientScriptDir,
            Some(SyncbackWriter::LuaInit(ScriptType::Module)) => middleware is ModuleScriptDir,
            Some(SyncbackWriter::CsvInit) => middleware is CsvDir,
            None => middleware is Json || middleware is Toml || middleware is Ignore,
        },
{
}

/// A relative path is without ornaments where it neither starts nor ends with a slash or
/// with a component that is a single dot.
pub proof fn lemma_trimmed_paths(path: Seq<char>)
    ensures
        is_trimmed(path) <==> {
            &&& path != seq!['.']
            &&& !seq!['/'].is_prefix_of(path)
            &&& !seq!['.', '/'].is_prefix_of(path)
            &&& !seq!['/'].is_suffix_of(path)
            &&& !seq!['/', '.'].is_suffix_of(path)
        },
{
    let n = path.len() as int;
    if n == 1 && path[0] == '.' {
        assert(path =~= seq!['.']);
    }
    if n >= 1 {
        assert(path.subrange(0, 1) =~= seq![path[0]]);
        assert(path.subrange(n - 1, n) =~= seq![path[n - 1]]);
        assert(seq!['/'][0] == '/');
        assert(seq![path[0]][0] == path[0]);
        assert(seq![path[n - 1]][0] == path[n - 1]);
    }
    if n >= 2 {
        assert(path.subrange(0, 2) =~= seq![path[0], path[1]]);
        assert(path.subrange(n - 2, n) =~= seq![path[n - 2], path[n - 1]]);
        assert(seq!['.', '/'][0] == '.' && seq!['.', '/'][1] == '/');
        assert(seq!['/', '.'][0] == '/' && seq!['/', '.'][1] == '.');
        assert(seq![path[0], path[1]][0] == path[0] && seq![path[0], path[1]][1] == path[1]);
        assert(seq![path[n - 2], path[n - 1]][0] == path[n - 2]);
        assert(seq![path[n - 2], path[n - 1]][1] == path[n - 1]);
    }
}

/// A piece of a text stands somewhere in it, with something before and something behind.
pub proof fn lemma_pieces_stand_in_their_text(piece: Seq<char>, text: Seq<char>)
    ensures
        piece_of(piece, text) <==> exists|before: Seq<char>, behind: Seq<char>|
            text == #[trigger] (before + piece + behind),
{
    if piece_of(piece, text) {
        let (i, j) = choose|i: int, j: int|
            0 <= i <= j <= text.len() && piece == #[trigger] text.subrange(i, j);
        assert(text =~= text.take(i) + piece + text.skip(j));
    }
    if exists|before: Seq<char>, behind: Seq<char>| text == #[trigger] (before + piece + behind) {
        let (before, behind) = choose|before: Seq<char>, behind: Seq<char>|
            text == #[trigger] (before + piece + behind);
        let i = before.len() as int;
        assert(text.subrange(i, i + piece.len()) =~= piece);
    }
}

/// What may be left of a path is a piece of it, and for portable paths what is left.
pub proof fn lemma_what_may_be_left(path: Seq<char>, base: Seq<char>, local: Option<Seq<char>>)
    requires
        may_be_left(path, base, local),
    ensures
        local matches Some(local) ==> piece_of(local, path),
        portable(path) && portable(base) ==> local == path_below(path, base),
{
}

/// Rules and patterns mean the same on every machine where each of them does.
pub proof fn lemma_all_plain(rules: Seq<SyncRuleView>, project: Option<RulesView>)
    ensures
        plain_rules(rules) <==> forall|i: int|
            0 <= i < rules.len() ==> plain_rule(#[trigger] rules[i]),
        plain_patterns(project) <==> (project matches Some(project) ==> forall|i: int|
            0 <= i < project.ignore_paths.len() ==> {
                let pattern = #[trigger] project.ignore_paths[i];
                pattern.len() <= 4096 && !pattern.contains('\\')
            }),
{
}

/// The snapshot that a reader has made is handed on as it is, but that it remembers the
/// middleware that it was read with. Only what is ignored gives no snapshot where the
/// reader has made one.
pub proof fn lemma_snapshots_remember_their_middleware(
    middleware: Middleware,
    output: Option<SnapshotView>,
)
    ensures
        match finished(middleware, output) {
            Some(snapshot) => !(middleware is Ignore) && (output matches Some(made) && {
                &&& snapshot.metadata.middleware == Some(middleware)
                &&& snapshot.metadata.instigating_source == made.metadata.instigating_source
                &&& snapshot.metadata.relevant_paths == made.metadata.relevant_paths
                &&& snapshot.metadata.context == made.metadata.context
                &&& snapshot.metadata.specified_id == made.metadata.specified_id
                &&& snapshot.metadata.settings == made.metadata.settings
                &&& snapshot.snapshot_id == made.snapshot_id
                &&& snapshot.name == made.name
                &&& snapshot.class_name == made.class_name
                &&& snapshot.properties == made.properties
                &&& snapshot.children == made.children
            }),
            None => middleware is Ignore || output is None,
        },
{
}

/// What the default rules of each middleware name, exclude and cut.
pub proof fn lemma_default_rules_by_middleware(i: int)
    requires
        0 <= i < default_rules().len(),
    ensures
        ({
            let rule = default_rules()[i];
            &&& rule.exclude == (if rule.middleware is Json {
                Some("*.meta.json"@)
            } else {
                None
            })
            &&& match rule.middleware {
                Middleware::ServerScript => rule.suffix == Some(".server.lua"@) || rule.suffix
                    == Some(".server.luau"@),
                Middleware::ClientScript => rule.suffix == Some(".client.lua"@) || rule.suffix
                    == Some(".client.luau"@),
                Middleware::ModuleScript => rule.suffix is None && rule.pattern
                    == "*.{lua,luau}"@,
                Middleware::Project => rule.suffix == Some(".project.json"@),
                Middleware::JsonModel => rule.suffix == Some(".model.json"@),
                Middleware::Json => rule.suffix == Some(".json"@),
                Middleware::Toml => rule.suffix is None && rule.pattern == "*.toml"@,
                Middleware::Csv => rule.suffix is None && rule.pattern == "*.csv"@,
                Middleware::Text => rule.suffix is None && rule.pattern == "*.txt"@,
                Middleware::Rbxmx => rule.suffix is None && rule.pattern == "*.rbxmx"@,
                Middleware::Rbxm => rule.suffix is None && rule.pattern == "*.rbxm"@,
                _ => false,
            }
        }),
{
}

} // verus!
