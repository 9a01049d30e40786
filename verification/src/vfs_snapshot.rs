//! From paths of a file system to what reads them.

use vstd::prelude::*;

use crate::instance::{InstanceContext, InstanceSnapshot, MetadataView, SnapshotView};
use crate::middleware::Middleware;
use crate::paths::{file_name, join, joined, last_component, piece_of, portable};
use crate::sync_rule::{
    accepting, chosen_by, chosen_rule, default_rules, default_sync_rules, first_accepted,
    instance_name, lemma_default_rules_plain, may_choose, plain_rules, rule_accepts, rule_for_file,
    SyncRule, SyncRuleView,
};
use crate::text::same_text;

verus! {

/// A path that is to be read with a middleware, and the name of the instance
/// that it becomes.
#[derive(Debug)]
pub struct ReadTask {
    pub middleware: Middleware,
    pub path: String,
    pub name: String,
}

/// What a [`ReadTask`] holds.
pub struct TaskView {
    pub middleware: Middleware,
    pub path: Seq<char>,
    pub name: Seq<char>,
}

impl DeepView for ReadTask {
    type V = TaskView;

    open spec fn deep_view(&self) -> TaskView {
        TaskView { middleware: self.middleware, path: self.path@, name: self.name@ }
    }
}

/// The files that give a directory its middleware, in the order in which they
/// are looked for. For compatibility, that order should be left unchanged.
pub open spec fn init_files() -> Seq<(Middleware, Seq<char>)> {
    seq![
        (Middleware::Project, "default.project.json"@),
        (Middleware::ModuleScriptDir, "init.luau"@),
        (Middleware::ModuleScriptDir, "init.lua"@),
        (Middleware::ServerScriptDir, "init.server.luau"@),
        (Middleware::ServerScriptDir, "init.server.lua"@),
        (Middleware::ClientScriptDir, "init.client.luau"@),
        (Middleware::ClientScriptDir, "init.client.lua"@),
        (Middleware::CsvDir, "init.csv"@),
    ]
}

fn init_paths() -> (order: Vec<(Middleware, &'static str)>)
    ensures
        order@.len() == init_files().len(),
        forall|i: int|
            0 <= i < order@.len() ==> (#[trigger] order@[i]).0 == init_files()[i].0
                && order@[i].1@ == init_files()[i].1,
{
    vec![
        (Middleware::Project, "default.project.json"),
        (Middleware::ModuleScriptDir, "init.luau"),
        (Middleware::ModuleScriptDir, "init.lua"),
        (Middleware::ServerScriptDir, "init.server.luau"),
        (Middleware::ServerScriptDir, "init.server.lua"),
        (Middleware::ClientScriptDir, "init.client.luau"),
        (Middleware::ClientScriptDir, "init.client.lua"),
        (Middleware::CsvDir, "init.csv"),
    ]
}

/// What is found out of the middleware of a directory.
#[derive(Debug)]
pub enum DirProbe {
    /// Whether there is something at this path is to be found out next.
    Probe(String),
    /// The middleware, and the path that it reads.
    Found(Middleware, String),
}

/// Whether `first` is the first `true` of some answers.
pub open spec fn is_first_true(answers: Seq<bool>, first: int) -> bool {
    &&& 0 <= first < answers.len()
    &&& answers[first]
    &&& forall|j: int| 0 <= j < first ==> !answers[j]
}

/// Gets the appropriate middleware for a directory by checking for `init`
/// files. This uses an intrinsic priority list and for compatibility,
/// that order should be left unchanged. `probes` tells, of the paths that were
/// asked for so far, at which there is something.
pub fn get_dir_middleware(dir_path: &str, probes: &Vec<bool>) -> (probe: DirProbe)
    requires
        probes@.len() <= init_files().len(),
    ensures
        match probe {
            DirProbe::Probe(path) => {
                let n = probes@.len() as int;
                &&& forall|j: int| 0 <= j < n ==> !probes@[j]
                &&& n < init_files().len()
                &&& path@ == joined(dir_path@, init_files()[n].1)
            },
            DirProbe::Found(middleware, path) => {
                ||| exists|i: int|
                    #![trigger init_files()[i]]
                    is_first_true(probes@, i) && middleware == init_files()[i].0 && path@
                        == joined(dir_path@, init_files()[i].1)
                ||| {
                    &&& probes@.len() == init_files().len()
                    &&& forall|j: int| 0 <= j < probes@.len() ==> !probes@[j]
                    &&& middleware == Middleware::Dir
                    &&& path@ == dir_path@
                }
            },
        },
{
    let order = init_paths();
    match first_accepted(probes) {
        Some(i) => {
            DirProbe::Found(order[i].0, join(dir_path, order[i].1))
        },
        None => if probes.len() < order.len() {
            DirProbe::Probe(join(dir_path, order[probes.len()].1))
        } else {
            DirProbe::Found(Middleware::Dir, dir_path.to_owned())
        },
    }
}

/// What is found at a path.
#[derive(Debug)]
pub enum Found {
    Nothing,
    /// A directory, with the middleware and the path that
    /// [`get_dir_middleware`] finds.
    Directory(Middleware, String),
    File,
}

/// Why a path cannot be read.
#[derive(Debug, Clone, Copy, PartialEq, Eq, Structural)]
pub enum ReadError {
    /// The path has no file name.
    InvalidFileName,
}

/// The files that belong to their directory.
pub open spec fn init_file_name(name: Seq<char>) -> bool {
    ||| name == "init.server.luau"@
    ||| name == "init.server.lua"@
    ||| name == "init.client.luau"@
    ||| name == "init.client.lua"@
    ||| name == "init.luau"@
    ||| name == "init.lua"@
    ||| name == "init.csv"@
}

fn is_init_file(name: &str) -> (yes: bool)
    ensures
        yes == init_file_name(name@),
{
    same_text(name, "init.server.luau") || same_text(name, "init.server.lua") || same_text(
        name,
        "init.client.luau",
    ) || same_text(name, "init.client.lua") || same_text(name, "init.luau") || same_text(
        name,
        "init.lua",
    ) || same_text(name, "init.csv")
}

/// How a file is read by a rule, if there is one.
pub open spec fn rule_task(
    rule: Option<SyncRuleView>,
    path: Seq<char>,
    file_name: Seq<char>,
) -> Option<TaskView> {
    match rule {
        Some(rule) => Some(
            TaskView {
                middleware: rule.middleware,
                path,
                name: instance_name(rule, file_name),
            },
        ),
        None => None,
    }
}

/// How a file with the given name is read by a rule, if there is one.
pub fn task_for_rule(rule: Option<&SyncRule>, path: &str, file_name: &str) -> (task: Option<
    ReadTask,
>)
    ensures
        task.deep_view() == rule_task(rule.deep_view(), path@, file_name@),
{
    match rule {
        Some(rule) => Some(
            ReadTask {
                middleware: rule.middleware,
                path: path.to_owned(),
                name: rule.file_name_for_path(file_name),
            },
        ),
        None => None,
    }
}

/// How a file is read, taking user specified sync rules into account.
pub open spec fn file_task(
    rules: Seq<SyncRuleView>,
    path: Seq<char>,
    file_name: Seq<char>,
) -> Option<TaskView> {
    rule_task(chosen_rule(rules + default_rules(), path), path, file_name)
}

/// Gets how a file is read given an InstanceContext, taking user specified sync
/// rules into account.
fn snapshot_from_path(context: &InstanceContext, path: &str, file_name: &str) -> (task: Option<
    ReadTask,
>)
    ensures
        portable(path@) && plain_rules(context.deep_view().sync_rules) ==> task.deep_view()
            == file_task(context.deep_view().sync_rules, path@, file_name@),
        exists|rule: Option<SyncRuleView>| #[trigger]
            may_choose(context.deep_view().sync_rules + default_rules(), path@, rule)
                && task.deep_view() == rule_task(rule, path@, file_name@),
{
    proof {
        lemma_default_rules_plain();
    }
    let defaults = default_sync_rules();
    task_for_rule(rule_for_file(&context.sync_rules, &defaults, path), path, file_name)
}

/// What a path is read as, by the rule that is for it: `None` where it gives no
/// instance.
pub open spec fn read_plan_by(
    rule: Option<SyncRuleView>,
    path: Seq<char>,
    found: Found,
    file_name: Option<Seq<char>>,
) -> Result<Option<TaskView>, ReadError> {
    match (found, file_name) {
        (Found::Nothing, _) => Ok(None),
        (_, None) => Err(ReadError::InvalidFileName),
        (Found::Directory(middleware, init_path), Some(name)) => Ok(
            Some(TaskView { middleware, path: init_path@, name }),
        ),
        (Found::File, Some(name)) => if init_file_name(name) {
            Ok(None)
        } else {
            Ok(rule_task(rule, path, name))
        },
    }
}

/// What a path is read as: `None` where it gives no instance.
pub open spec fn read_plan(
    rules: Seq<SyncRuleView>,
    path: Seq<char>,
    found: Found,
    file_name: Option<Seq<char>>,
) -> Result<Option<TaskView>, ReadError> {
    read_plan_by(chosen_rule(rules + default_rules(), path), path, found, file_name)
}

/// Whether it takes the rule of a path to tell how the path is read.
pub open spec fn takes_rule(found: Found, file_name: Option<Seq<char>>) -> bool {
    &&& found is File
    &&& file_name matches Some(name) && !init_file_name(name)
}

/// Whether a plan for a path follows from its file name and, where that is what
/// tells, from the rule that may be chosen for the path.
pub open spec fn plan_follows(
    plan: Result<Option<TaskView>, ReadError>,
    rules: Seq<SyncRuleView>,
    path: Seq<char>,
    found: Found,
    file_name: Option<Seq<char>>,
) -> bool {
    exists|rule: Option<SyncRuleView>|
        (takes_rule(found, file_name) ==> may_choose(rules + default_rules(), path, rule)) && plan
            == #[trigger] read_plan_by(rule, path, found, file_name)
}

/// What reading a path comes to, by what the text of its plan says.
pub open spec fn plan_view(plan: Result<Option<ReadTask>, ReadError>) -> Result<
    Option<TaskView>,
    ReadError,
> {
    match plan {
        Ok(task) => Ok(task.deep_view()),
        Err(error) => Err(error),
    }
}

/// Finds how a path is read. This will inspect the path and find the appropriate
/// middleware for it, taking user-written rules into account.
pub fn snapshot_from_vfs(context: &InstanceContext, path: &str, found: Found) -> (plan: Result<
    Option<ReadTask>,
    ReadError,
>)
    ensures
        found is Nothing ==> plan == Ok::<Option<ReadTask>, ReadError>(None),
        found matches Found::Directory(middleware, init_path) ==> match plan {
            Ok(Some(task)) => task.middleware == middleware && task.path == init_path,
            Ok(None) => false,
            Err(_) => true,
        },
        portable(path@) && found is Directory ==> (plan matches Ok(Some(task)) ==> last_component(
            path@,
        ) == Some(task.name@)),
        portable(path@) ==> (plan is Err <==> !(found is Nothing) && last_component(path@) is None),
        found is File ==> (plan matches Ok(Some(task)) ==> task.path@ == path@),
        portable(path@) && plain_rules(context.deep_view().sync_rules) ==> plan_view(plan)
            == read_plan(
            context.deep_view().sync_rules,
            path@,
            found,
            last_component(path@),
        ),
        exists|name: Option<Seq<char>>|
            (name matches Some(name) ==> piece_of(name, path@)) && (portable(path@) ==> name
                == last_component(path@)) && #[trigger] plan_follows(
                plan_view(plan),
                context.deep_view().sync_rules,
                path@,
                found,
                name,
            ),
{
    let name = file_name(path);
    plan_for_name(context, path, found, name)
}

/// Finds how a path with the given file name is read.
pub fn plan_for_name(
    context: &InstanceContext,
    path: &str,
    found: Found,
    file_name: Option<String>,
) -> (plan: Result<Option<ReadTask>, ReadError>)
    ensures
        plan_follows(
            plan_view(plan),
            context.deep_view().sync_rules,
            path@,
            found,
            file_name.deep_view(),
        ),
        !takes_rule(found, file_name.deep_view()) || (portable(path@) && plain_rules(
            context.deep_view().sync_rules,
        )) ==> plan_view(plan) == read_plan(
            context.deep_view().sync_rules,
            path@,
            found,
            file_name.deep_view(),
        ),
        plan is Err <==> !(found is Nothing) && file_name is None,
        found is Nothing ==> plan == Ok::<Option<ReadTask>, ReadError>(None),
        found matches Found::Directory(middleware, init_path) ==> (plan matches Ok(Some(task))
            ==> task.middleware == middleware && task.path == init_path && file_name == Some(
            task.name,
        )),
        found is File ==> (plan matches Ok(Some(task)) ==> task.path@ == path@),
{
    let ghost at = found;
    let ghost name = file_name.deep_view();
    let plan = match found {
        Found::Nothing => Ok(None),
        Found::Directory(middleware, init_path) => match file_name {
            Some(name) => Ok(Some(ReadTask { middleware, path: init_path, name })),
            None => Err(ReadError::InvalidFileName),
        },
        Found::File => match file_name {
            Some(name) => if is_init_file(name.as_str()) {
                Ok(None)
            } else {
                Ok(snapshot_from_path(context, path, name.as_str()))
            },
            None => Err(ReadError::InvalidFileName),
        },
    };
    proof {
        if !takes_rule(at, name) {
            assert(plan_view(plan) == read_plan_by(None, path@, at, name));
        } else {
            let rules = context.deep_view().sync_rules + default_rules();
            let rule = choose|rule: Option<SyncRuleView>| #[trigger]
                may_choose(rules, path@, rule) && plan->Ok_0.deep_view() == rule_task(
                    rule,
                    path@,
                    name->0,
                );
            assert(plan_view(plan) == read_plan_by(rule, path@, at, name));
        }
    }
    plan
}

/// A file that gives an instance is read with the middleware that its path
/// calls for.
pub proof fn lemma_files_are_read_with_their_middleware(
    rules: Seq<SyncRuleView>,
    path: Seq<char>,
    file_name: Option<Seq<char>>,
)
    ensures
        read_plan(rules, path, Found::File, file_name) matches Ok(Some(task)) ==> {
            &&& task.path == path
            &&& chosen_rule(rules + default_rules(), path) matches Some(rule) && rule.middleware
                == task.middleware
        },
{
}

/// The rule of a file is for it, and no rule before it is.
pub proof fn lemma_first_rule_wins(rules: Seq<SyncRuleView>, path: Seq<char>)
    ensures
        match chosen_rule(rules, path) {
            Some(rule) => exists|i: int|
                0 <= i < rules.len() && #[trigger] rules[i] == rule && rule_accepts(rule, path)
                    && forall|j: int| 0 <= j < i ==> !rule_accepts(#[trigger] rules[j], path),
            None => forall|j: int|
                0 <= j < rules.len() ==> !rule_accepts(#[trigger] rules[j], path),
        },
{
    lemma_first_from(rules, path, 0);
}

proof fn lemma_first_from(rules: Seq<SyncRuleView>, path: Seq<char>, from: int)
    requires
        0 <= from <= rules.len(),
    ensures
        match chosen_by(rules, accepting(rules, path), from) {
            Some(rule) => exists|i: int|
                from <= i < rules.len() && #[trigger] rules[i] == rule && rule_accepts(rule, path)
                    && forall|j: int| from <= j < i ==> !rule_accepts(#[trigger] rules[j], path),
            None => forall|j: int|
                from <= j < rules.len() ==> !rule_accepts(#[trigger] rules[j], path),
        },
    decreases rules.len() - from,
{
    let verdicts = accepting(rules, path);
    if from < rules.len() {
        if rule_accepts(rules[from], path) {
            assert(rules[from] == chosen_by(rules, verdicts, from)->0);
        } else {
            lemma_first_from(rules, path, from + 1);
            if let Some(rule) = chosen_by(rules, verdicts, from) {
                let i = choose|i: int|
                    from + 1 <= i < rules.len() && #[trigger] rules[i] == rule && rule_accepts(
                        rule,
                        path,
                    ) && forall|j: int|
                        from + 1 <= j < i ==> !rule_accepts(#[trigger] rules[j], path);
                assert(rules[i] == rule);
            }
        }
    }
}

/// A snapshot that the reader of a middleware has made, with the middleware remembered;
/// none where it has made none or the middleware has no reader.
pub open spec fn finished(middleware: Middleware, output: Option<SnapshotView>) -> Option<
    SnapshotView,
> {
    match output {
        Some(output) => if middleware == Middleware::Ignore {
            None
        } else {
            Some(
                SnapshotView {
                    metadata: MetadataView { middleware: Some(middleware), ..output.metadata },
                    ..output
                },
            )
        },
        None => None,
    }
}

impl Middleware {
    /// Finishes a snapshot that the reader of the middleware has made: it
    /// remembers the middleware. A middleware without a reader makes none.
    pub fn snapshot(&self, output: Option<InstanceSnapshot>) -> (snapshot: Option<InstanceSnapshot>)
        ensures
            snapshot.deep_view() == match output.deep_view() {
                Some(output) => if *self == Middleware::Ignore {
                    None
                } else {
                    Some(
                        SnapshotView {
                            metadata: MetadataView { middleware: Some(*self), ..output.metadata },
                            ..output
                        },
                    )
                },
                None => None,
            },
            snapshot.deep_view() == finished(*self, output.deep_view()),
    {
        match (self.reader(), output) {
            (Some(_), Some(output)) => {
                let mut snapshot = output;
                snapshot.metadata.middleware = Some(*self);
                assert(snapshot.contents().children =~= output.contents().children);
                Some(snapshot)
            },
            _ => None,
        }
    }
}

} // verus!
