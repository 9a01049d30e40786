//! Sync rules: which files a middleware is for.

use vstd::prelude::*;
use vstd::string::StrSliceExecFns;

use crate::glob::{
    bearable, glob_accepts, glob_may_find, lemma_short_is_bearable, plain_pattern, Glob,
};
use crate::middleware::Middleware;
use crate::paths::{
    lemma_piece_without_backslash, may_be_left, path_below, portable, strip_base, without_backslash,
};
use crate::plain::Plain;
use crate::text::{same_text, strip_suffix};

verus! {

/// Tells the files that a middleware is for.
#[derive(Debug)]
pub struct SyncRule {
    pub middleware: Middleware,
    /// The files, by their paths below `base_path`.
    pub pattern: Glob,
    /// Files that the rule is not for although `pattern` names them.
    pub exclude: Option<Glob>,
    /// What is cut from the end of a file's name to get the instance's name.
    pub suffix: Option<String>,
    pub base_path: String,
}

/// What a [`SyncRule`] holds.
pub struct SyncRuleView {
    pub middleware: Middleware,
    pub pattern: Seq<char>,
    pub exclude: Option<Seq<char>>,
    pub suffix: Option<Seq<char>>,
    pub base_path: Seq<char>,
}

impl DeepView for SyncRule {
    type V = SyncRuleView;

    open spec fn deep_view(&self) -> SyncRuleView {
        SyncRuleView {
            middleware: self.middleware,
            pattern: self.pattern.deep_view(),
            exclude: self.exclude.deep_view(),
            suffix: self.suffix.deep_view(),
            base_path: self.base_path@,
        }
    }
}

impl Plain for SyncRule {
    fn same(&self, other: &Self) -> (same: bool) {
        self.middleware == other.middleware && self.pattern.same(&other.pattern)
            && self.exclude.same(&other.exclude) && self.suffix.same(&other.suffix)
            && self.base_path.same(&other.base_path)
    }

    fn duplicate(&self) -> (copy: Self) {
        SyncRule {
            middleware: self.middleware,
            pattern: self.pattern.duplicate(),
            exclude: self.exclude.duplicate(),
            suffix: self.suffix.duplicate(),
            base_path: self.base_path.duplicate(),
        }
    }
}

/// Whether a rule is read alike on every machine.
pub open spec fn plain_rule(rule: SyncRuleView) -> bool {
    &&& plain_pattern(rule.pattern)
    &&& rule.exclude matches Some(exclude) ==> plain_pattern(exclude)
    &&& portable(rule.base_path)
}

/// Whether each of some rules is read alike on every machine.
pub open spec fn plain_rules(rules: Seq<SyncRuleView>) -> bool {
    forall|i: int| 0 <= i < rules.len() ==> plain_rule(#[trigger] rules[i])
}

/// Whether a rule is for a file, by what is left of the file's path behind the
/// base path: there is something left, and the rule names it and does not exclude
/// it.
pub open spec fn local_accepted(rule: SyncRuleView, local: Option<Seq<char>>) -> bool {
    match local {
        Some(local) => {
            &&& glob_accepts(rule.pattern, local)
            &&& !(rule.exclude matches Some(exclude) && glob_accepts(exclude, local))
        },
        None => false,
    }
}

/// Whether a rule is for a file: the file lies under the base path, and there
/// the rule names it and does not exclude it.
pub open spec fn rule_accepts(rule: SyncRuleView, path: Seq<char>) -> bool {
    local_accepted(rule, path_below(path, rule.base_path))
}

/// Whether a rule may be held to be for a file, or not to be, by what is left of
/// the file's path behind the base path: as the two globs of the rule may find.
pub open spec fn rule_may_find(
    rule: SyncRuleView,
    local: Option<Seq<char>>,
    verdict: bool,
) -> bool {
    match local {
        Some(local) => if verdict {
            &&& glob_may_find(rule.pattern, local, true)
            &&& rule.exclude matches Some(exclude) ==> glob_may_find(exclude, local, false)
        } else {
            ||| glob_may_find(rule.pattern, local, false)
            ||| rule.exclude matches Some(exclude) && glob_may_find(exclude, local, true)
        },
        None => !verdict,
    }
}

/// Whether a verdict on a file is one that a rule may give. Where the rule and
/// the path mean the same on every machine, it gives one only.
pub open spec fn verdict_fits(verdict: bool, rule: SyncRuleView, path: Seq<char>) -> bool {
    &&& portable(path) && plain_rule(rule) ==> verdict == rule_accepts(rule, path)
    &&& exists|local: Option<Seq<char>>|
        may_be_left(path, rule.base_path, local) && #[trigger] rule_may_find(rule, local, verdict)
}

/// Whether verdicts on a file are ones that the rules may give, each its own.
pub open spec fn verdicts_fit(
    verdicts: Seq<bool>,
    rules: Seq<SyncRuleView>,
    path: Seq<char>,
) -> bool {
    &&& verdicts.len() == rules.len()
    &&& forall|i: int|
        0 <= i < rules.len() ==> verdict_fits(#[trigger] verdicts[i], rules[i], path)
}

/// The first of some rules, from the `i`-th on, whose verdict is in favour.
pub open spec fn chosen_by(
    rules: Seq<SyncRuleView>,
    verdicts: Seq<bool>,
    i: int,
) -> Option<SyncRuleView>
    decreases rules.len() - i,
{
    if i < 0 || i >= rules.len() {
        None
    } else if verdicts[i] {
        Some(rules[i])
    } else {
        chosen_by(rules, verdicts, i + 1)
    }
}

/// Which of some rules are for a file.
pub open spec fn accepting(rules: Seq<SyncRuleView>, path: Seq<char>) -> Seq<bool> {
    Seq::new(rules.len(), |i: int| rule_accepts(rules[i], path))
}

/// The first of some rules that is for a file.
pub open spec fn chosen_rule(rules: Seq<SyncRuleView>, path: Seq<char>) -> Option<SyncRuleView> {
    chosen_by(rules, accepting(rules, path), 0)
}

/// Whether a rule, or none, may be the first of some rules that is for a file:
/// it is so by verdicts that the rules may give. A rule that means something else
/// on another machine leaves the verdicts of the others as they are.
pub open spec fn may_choose(
    rules: Seq<SyncRuleView>,
    path: Seq<char>,
    chosen: Option<SyncRuleView>,
) -> bool {
    exists|verdicts: Seq<bool>| #[trigger]
        verdicts_fit(verdicts, rules, path) && chosen == chosen_by(rules, verdicts, 0)
}

/// The position of the last dot of a file name behind its first character, or
/// 0 where there is none.
pub open spec fn extension_dot(name: Seq<char>) -> int
    decreases name.len(),
{
    if name.len() <= 1 {
        0
    } else if name.last() == '.' {
        name.len() - 1
    } else {
        extension_dot(name.drop_last())
    }
}

/// A file name without its extension.
pub open spec fn file_stem(name: Seq<char>) -> Seq<char> {
    if extension_dot(name) == 0 || name == seq!['.', '.'] {
        name
    } else {
        name.take(extension_dot(name))
    }
}

/// The name that a rule gives to the instance of a file.
pub open spec fn instance_name(rule: SyncRuleView, file_name: Seq<char>) -> Seq<char> {
    match rule.suffix {
        Some(suffix) => if suffix.is_suffix_of(file_name) {
            file_name.take(file_name.len() - suffix.len())
        } else {
            file_name
        },
        None => file_stem(file_name),
    }
}

/// A file name without its extension.
fn stem(name: &str) -> (stem: String)
    ensures
        stem@ == file_stem(name@),
{
    proof {
        reveal_strlit("..");
        assert(".."@ =~= seq!['.', '.']);
    }
    if same_text(name, "..") {
        return name.to_owned();
    }
    let mut i: usize = name.unicode_len();
    assert(name@.take(i as int) =~= name@);
    while i > 1
        invariant
            i <= name@.len(),
            name@ != seq!['.', '.'],
            extension_dot(name@) == extension_dot(name@.take(i as int)),
        decreases i,
    {
        let ghost head = name@.take(i as int);
        if name.get_char(i - 1) == '.' {
            return name.substring_char(0, i - 1).to_owned();
        }
        assert(head.drop_last() =~= name@.take(i - 1));
        i -= 1;
    }
    name.to_owned()
}

impl SyncRule {
    /// Whether the rule is for a file.
    pub fn matches(&self, path: &str) -> (yes: bool)
        ensures
            verdict_fits(yes, self.deep_view(), path@),
    {
        let local = strip_base(path, self.base_path.as_str());
        let yes = match &local {
            Some(local) => {
                proof {
                    if without_backslash(path@) {
                        lemma_piece_without_backslash(local@, path@);
                    }
                }
                let excluded = match &self.exclude {
                    Some(exclude) => exclude.is_match(local.as_str()),
                    None => false,
                };
                !excluded && self.pattern.is_match(local.as_str())
            },
            None => false,
        };
        assert(may_be_left(path@, self.base_path@, local.deep_view()));
        assert(rule_may_find(self.deep_view(), local.deep_view(), yes));
        yes
    }

    /// The name of the instance that a file with the given name becomes:
    /// without the rule's suffix, or without the extension where the rule has
    /// none.
    pub fn file_name_for_path(&self, file_name: &str) -> (name: String)
        ensures
            name@ == instance_name(self.deep_view(), file_name@),
    {
        match &self.suffix {
            Some(suffix) => match strip_suffix(file_name, suffix.as_str()) {
                Some(rest) => {
                    rest.to_owned()
                },
                None => file_name.to_owned(),
            },
            None => stem(file_name),
        }
    }
}

/// A rule without a base path.
pub open spec fn rule_view(
    pattern: Seq<char>,
    middleware: Middleware,
    suffix: Option<Seq<char>>,
    exclude: Option<Seq<char>>,
) -> SyncRuleView {
    SyncRuleView { middleware, pattern, exclude, suffix, base_path: Seq::empty() }
}

/// The rules that hold by default, in the order in which they are tried.
pub open spec fn default_rules() -> Seq<SyncRuleView> {
    seq![
        rule_view("*.server.lua"@, Middleware::ServerScript, Some(".server.lua"@), None),
        rule_view("*.server.luau"@, Middleware::ServerScript, Some(".server.luau"@), None),
        rule_view("*.client.lua"@, Middleware::ClientScript, Some(".client.lua"@), None),
        rule_view("*.client.luau"@, Middleware::ClientScript, Some(".client.luau"@), None),
        rule_view("*.{lua,luau}"@, Middleware::ModuleScript, None, None),
        rule_view("*.project.json"@, Middleware::Project, Some(".project.json"@), None),
        rule_view("*.model.json"@, Middleware::JsonModel, Some(".model.json"@), None),
        rule_view("*.json"@, Middleware::Json, Some(".json"@), Some("*.meta.json"@)),
        rule_view("*.toml"@, Middleware::Toml, None, None),
        rule_view("*.csv"@, Middleware::Csv, None, None),
        rule_view("*.txt"@, Middleware::Text, None, None),
        rule_view("*.rbxmx"@, Middleware::Rbxmx, None, None),
        rule_view("*.rbxm"@, Middleware::Rbxm, None, None),
    ]
}

fn plain_sync_rule(pattern: &str, middleware: Middleware) -> (made: SyncRule)
    requires
        bearable(pattern@),
    ensures
        made.deep_view() == rule_view(pattern@, middleware, None, None),
{
    SyncRule {
        middleware,
        pattern: Glob::new(pattern),
        exclude: None,
        suffix: None,
        base_path: String::new(),
    }
}

fn suffix_sync_rule(pattern: &str, middleware: Middleware, suffix: &str) -> (made: SyncRule)
    requires
        bearable(pattern@),
    ensures
        made.deep_view() == rule_view(pattern@, middleware, Some(suffix@), None),
{
    SyncRule { suffix: Some(suffix.to_owned()), ..plain_sync_rule(pattern, middleware) }
}

/// Defines the 'default' syncing rules. These do not broadly overlap, but the
/// order matters for some in the case of e.g. JSON models.
pub fn default_sync_rules() -> (rules: Vec<SyncRule>)
    ensures
        rules.deep_view() == default_rules(),
{
    proof {
        lemma_default_rules_plain();
    }
    let json = SyncRule {
        exclude: Some(Glob::new("*.meta.json")),
        ..suffix_sync_rule("*.json", Middleware::Json, ".json")
    };
    vec![
        suffix_sync_rule("*.server.lua", Middleware::ServerScript, ".server.lua"),
        suffix_sync_rule("*.server.luau", Middleware::ServerScript, ".server.luau"),
        suffix_sync_rule("*.client.lua", Middleware::ClientScript, ".client.lua"),
        suffix_sync_rule("*.client.luau", Middleware::ClientScript, ".client.luau"),
        plain_sync_rule("*.{lua,luau}", Middleware::ModuleScript),
        suffix_sync_rule("*.project.json", Middleware::Project, ".project.json"),
        suffix_sync_rule("*.model.json", Middleware::JsonModel, ".model.json"),
        json,
        plain_sync_rule("*.toml", Middleware::Toml),
        plain_sync_rule("*.csv", Middleware::Csv),
        plain_sync_rule("*.txt", Middleware::Text),
        plain_sync_rule("*.rbxmx", Middleware::Rbxmx),
        plain_sync_rule("*.rbxm", Middleware::Rbxm),
    ]
}

/// The default rules are read alike on every machine, and their patterns are
/// short.
pub proof fn lemma_default_rules_plain()
    ensures
        plain_rules(default_rules()),
        forall|i: int|
            0 <= i < default_rules().len() ==> bearable((#[trigger] default_rules()[i]).pattern),
        bearable("*.meta.json"@),
{
    reveal_strlit("*.server.lua");
    reveal_strlit("*.server.luau");
    reveal_strlit("*.client.lua");
    reveal_strlit("*.client.luau");
    reveal_strlit("*.{lua,luau}");
    reveal_strlit("*.project.json");
    reveal_strlit("*.model.json");
    reveal_strlit("*.json");
    reveal_strlit("*.meta.json");
    reveal_strlit("*.toml");
    reveal_strlit("*.csv");
    reveal_strlit("*.txt");
    reveal_strlit("*.rbxmx");
    reveal_strlit("*.rbxm");
    assert forall|i: int| 0 <= i < default_rules().len() implies bearable(
        (#[trigger] default_rules()[i]).pattern,
    ) by {
        lemma_short_is_bearable(default_rules()[i].pattern);
    }
    lemma_short_is_bearable("*.meta.json"@);
}

/// Which of some rules are for a file.
fn rule_verdicts(rules: &Vec<SyncRule>, path: &str) -> (verdicts: Vec<bool>)
    ensures
        verdicts_fit(verdicts@, rules.deep_view(), path@),
{
    let mut verdicts: Vec<bool> = Vec::new();
    let mut i: usize = 0;
    while i < rules.len()
        invariant
            i <= rules@.len(),
            verdicts@.len() == i,
            forall|j: int|
                0 <= j < i ==> verdict_fits(
                    #[trigger] verdicts@[j],
                    rules.deep_view()[j],
                    path@,
                ),
        decreases rules@.len() - i,
    {
        assert(rules.deep_view()[i as int] == rules@[i as int].deep_view());
        verdicts.push(rules[i].matches(path));
        i += 1;
    }
    verdicts
}

/// The position of the first of some verdicts that is in favour.
pub fn first_accepted(verdicts: &Vec<bool>) -> (first: Option<usize>)
    ensures
        match first {
            Some(i) => i < verdicts@.len() && verdicts@[i as int] && forall|j: int|
                0 <= j < i ==> !verdicts@[j],
            None => forall|j: int| 0 <= j < verdicts@.len() ==> !verdicts@[j],
        },
{
    let mut i: usize = 0;
    while i < verdicts.len()
        invariant
            i <= verdicts@.len(),
            forall|j: int| 0 <= j < i ==> !verdicts@[j],
        decreases verdicts@.len() - i,
    {
        if verdicts[i] {
            return Some(i);
        }
        i += 1;
    }
    None
}

proof fn lemma_chosen_at(rules: Seq<SyncRuleView>, verdicts: Seq<bool>, from: int, at: int)
    requires
        0 <= from <= at <= rules.len(),
        rules.len() == verdicts.len(),
        forall|j: int| from <= j < at ==> !verdicts[j],
    ensures
        at == rules.len() ==> chosen_by(rules, verdicts, from) is None,
        at < rules.len() && verdicts[at] ==> chosen_by(rules, verdicts, from) == Some(rules[at]),
    decreases at - from,
{
    if from < at {
        lemma_chosen_at(rules, verdicts, from + 1, at);
    }
}

/// Among rules that mean the same on every machine, the rule that may be chosen
/// for a file is the first that is for it.
pub proof fn lemma_plain_rules_leave_no_choice(
    rules: Seq<SyncRuleView>,
    path: Seq<char>,
    chosen: Option<SyncRuleView>,
)
    requires
        portable(path),
        plain_rules(rules),
        may_choose(rules, path, chosen),
    ensures
        chosen == chosen_rule(rules, path),
{
    let verdicts = choose|verdicts: Seq<bool>| #[trigger]
        verdicts_fit(verdicts, rules, path) && chosen == chosen_by(rules, verdicts, 0);
    assert forall|i: int| 0 <= i < rules.len() implies verdicts[i] == accepting(rules, path)[i] by {
        assert(verdict_fits(verdicts[i], rules[i], path));
    }
    assert(verdicts =~= accepting(rules, path));
}

/// A rule that is for a file is chosen where no rule before it is for the file,
/// whatever the rules behind it mean.
pub proof fn lemma_later_rules_do_not_matter(
    rules: Seq<SyncRuleView>,
    path: Seq<char>,
    chosen: Option<SyncRuleView>,
    i: int,
)
    requires
        portable(path),
        may_choose(rules, path, chosen),
        0 <= i < rules.len(),
        forall|j: int| 0 <= j <= i ==> plain_rule(#[trigger] rules[j]),
        forall|j: int| 0 <= j < i ==> !rule_accepts(#[trigger] rules[j], path),
        rule_accepts(rules[i], path),
    ensures
        chosen == Some(rules[i]),
{
    let verdicts = choose|verdicts: Seq<bool>| #[trigger]
        verdicts_fit(verdicts, rules, path) && chosen == chosen_by(rules, verdicts, 0);
    assert forall|j: int| 0 <= j <= i implies verdicts[j] == rule_accepts(rules[j], path) by {
        assert(verdict_fits(verdicts[j], rules[j], path));
    }
    lemma_chosen_at(rules, verdicts, 0, i);
}

/// A rule that means the same on every machine is chosen for no file that it is
/// not for, and where it is for a file, some rule is chosen.
pub proof fn lemma_plain_rules_are_heeded(
    rules: Seq<SyncRuleView>,
    path: Seq<char>,
    chosen: Option<SyncRuleView>,
)
    requires
        portable(path),
        may_choose(rules, path, chosen),
    ensures
        match chosen {
            Some(rule) => rules.contains(rule) && (plain_rule(rule) ==> rule_accepts(rule, path)),
            None => forall|i: int|
                0 <= i < rules.len() && plain_rule(#[trigger] rules[i]) ==> !rule_accepts(
                    rules[i],
                    path,
                ),
        },
{
    let verdicts = choose|verdicts: Seq<bool>| #[trigger]
        verdicts_fit(verdicts, rules, path) && chosen == chosen_by(rules, verdicts, 0);
    lemma_chosen_is_in_favour(rules, verdicts, 0);
    match chosen {
        Some(rule) => {
            let i = choose|i: int|
                0 <= i < rules.len() && #[trigger] rules[i] == rule && verdicts[i];
            assert(verdict_fits(verdicts[i], rules[i], path));
        },
        None => {
            assert forall|i: int|
                0 <= i < rules.len() && plain_rule(#[trigger] rules[i]) implies !rule_accepts(
                rules[i],
                path,
            ) by {
                assert(verdict_fits(verdicts[i], rules[i], path));
            }
        },
    }
}

proof fn lemma_chosen_is_in_favour(rules: Seq<SyncRuleView>, verdicts: Seq<bool>, from: int)
    requires
        0 <= from <= rules.len(),
        rules.len() == verdicts.len(),
    ensures
        match chosen_by(rules, verdicts, from) {
            Some(rule) => exists|i: int|
                from <= i < rules.len() && #[trigger] rules[i] == rule && verdicts[i],
            None => forall|i: int| from <= i < rules.len() ==> !verdicts[i],
        },
    decreases rules.len() - from,
{
    if from < rules.len() {
        if verdicts[from] {
            assert(rules[from] == chosen_by(rules, verdicts, from)->0);
        } else {
            lemma_chosen_is_in_favour(rules, verdicts, from + 1);
        }
    }
}

/// The rule of a file: the first that is for it, the user's rules before the
/// default ones.
pub fn rule_for_file<'a>(
    user: &'a Vec<SyncRule>,
    defaults: &'a Vec<SyncRule>,
    path: &str,
) -> (found: Option<&'a SyncRule>)
    ensures
        may_choose(user.deep_view() + defaults.deep_view(), path@, found.deep_view()),
        portable(path@) && plain_rules(user.deep_view()) && plain_rules(defaults.deep_view())
            ==> found.deep_view() == chosen_rule(user.deep_view() + defaults.deep_view(), path@),
{
    let of_user = rule_verdicts(user, path);
    let of_defaults = rule_verdicts(defaults, path);
    let first_user = first_accepted(&of_user);
    let first_default = first_accepted(&of_defaults);
    let found = match (first_user, first_default) {
        (Some(i), _) => Some(&user[i]),
        (None, Some(i)) => Some(&defaults[i]),
        (None, None) => None,
    };
    proof {
        let all = user.deep_view() + defaults.deep_view();
        let n = user@.len() as int;
        let verdicts = of_user@ + of_defaults@;
        let first = match (first_user, first_default) {
            (Some(i), _) => i as int,
            (None, Some(i)) => n + i,
            (None, None) => all.len() as int,
        };
        assert forall|j: int| 0 <= j < first implies !verdicts[j] by {
            if j < n {
                assert(!of_user@[j]);
            } else {
                assert(!of_defaults@[j - n]);
            }
        }
        lemma_chosen_at(all, verdicts, 0, first);
        assert forall|i: int| 0 <= i < all.len() implies verdict_fits(
            #[trigger] verdicts[i],
            all[i],
            path@,
        ) by {
            if i < n {
                assert(verdict_fits(of_user@[i], user.deep_view()[i], path@));
            } else {
                assert(verdict_fits(of_defaults@[i - n], defaults.deep_view()[i - n], path@));
            }
        }
        assert(verdicts_fit(verdicts, all, path@));
        if portable(path@) && plain_rules(user.deep_view()) && plain_rules(defaults.deep_view()) {
            lemma_plain_rules_leave_no_choice(all, path@, found.deep_view());
        }
    }
    found
}

} // verus!
