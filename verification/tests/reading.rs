use rojo_sync::glob::Glob;
use rojo_sync::instance::InstanceContext;
use rojo_sync::middleware::{
    Middleware, ScriptType, SnapshotReader, SyncbackError, SyncbackWriter,
};
use rojo_sync::paths::{join, replace_file_name, with_file_name};
use rojo_sync::sync_rule::{default_sync_rules, first_accepted, rule_for_file, SyncRule};
use rojo_sync::vfs_snapshot::{
    get_dir_middleware, snapshot_from_vfs, task_for_rule, DirProbe, Found, ReadError,
};

const ALL: [Middleware; 17] = [
    Middleware::Csv,
    Middleware::JsonModel,
    Middleware::Json,
    Middleware::ServerScript,
    Middleware::ClientScript,
    Middleware::ModuleScript,
    Middleware::Project,
    Middleware::Rbxm,
    Middleware::Rbxmx,
    Middleware::Toml,
    Middleware::Text,
    Middleware::Ignore,
    Middleware::Dir,
    Middleware::ServerScriptDir,
    Middleware::ClientScriptDir,
    Middleware::ModuleScriptDir,
    Middleware::CsvDir,
];

fn context(sync_rules: Vec<SyncRule>) -> InstanceContext {
    InstanceContext { sync_rules, settings: 0 }
}

fn read(path: &str) -> Option<(Middleware, String)> {
    let task = snapshot_from_vfs(&context(Vec::new()), path, Found::File).unwrap();
    task.map(|task| {
        assert_eq!(task.path, path);
        (task.middleware, task.name)
    })
}

#[test]
fn default_rules_name_files() {
    let cases = [
        ("/a/foo.server.lua", Middleware::ServerScript, "foo"),
        ("/a/foo.server.luau", Middleware::ServerScript, "foo"),
        ("/a/foo.client.lua", Middleware::ClientScript, "foo"),
        ("/a/foo.client.luau", Middleware::ClientScript, "foo"),
        ("/a/foo.lua", Middleware::ModuleScript, "foo"),
        ("/a/foo.bar.luau", Middleware::ModuleScript, "foo.bar"),
        ("/a/foo.project.json", Middleware::Project, "foo"),
        ("/a/foo.model.json", Middleware::JsonModel, "foo"),
        ("/a/foo.json", Middleware::Json, "foo"),
        ("/a/foo.toml", Middleware::Toml, "foo"),
        ("/a/foo.csv", Middleware::Csv, "foo"),
        ("/a/foo.txt", Middleware::Text, "foo"),
        ("/a/foo.rbxmx", Middleware::Rbxmx, "foo"),
        ("/a/foo.rbxm", Middleware::Rbxm, "foo"),
    ];
    assert_eq!(default_sync_rules().len(), 13);
    for (path, middleware, name) in cases {
        assert_eq!(read(path), Some((middleware, name.to_owned())), "{path}");
        assert_eq!(
            Middleware::middleware_for_path(&Found::File, &Vec::new(), path),
            Some(middleware)
        );
    }
    assert_eq!(read("/a/foo.meta.json"), None);
    assert_eq!(read("/a/foo.png"), None);
    assert_eq!(Middleware::middleware_for_path(&Found::Nothing, &Vec::new(), "/a.lua"), None);
    assert_eq!(
        Middleware::middleware_for_path(
            &Found::Directory(Middleware::CsvDir, "/a.lua/init.csv".to_owned()),
            &Vec::new(),
            "/a.lua"
        ),
        Some(Middleware::CsvDir)
    );
}

#[test]
fn init_files_belong_to_their_directory() {
    for name in [
        "init.server.luau",
        "init.server.lua",
        "init.client.luau",
        "init.client.lua",
        "init.luau",
        "init.lua",
        "init.csv",
    ] {
        assert_eq!(read(&format!("/a/{name}")), None);
    }
    assert_eq!(
        read("/a/init.model.json"),
        Some((Middleware::JsonModel, "init".to_owned()))
    );
}

#[test]
fn missing_and_nameless_paths() {
    assert!(snapshot_from_vfs(&context(Vec::new()), "/a", Found::Nothing).unwrap().is_none());
    assert_eq!(
        snapshot_from_vfs(&context(Vec::new()), "/", Found::File).unwrap_err(),
        ReadError::InvalidFileName
    );
    let found = Found::Directory(Middleware::ModuleScriptDir, "/a/b/init.lua".to_owned());
    let task = snapshot_from_vfs(&context(Vec::new()), "/a/b", found).unwrap().unwrap();
    assert_eq!(task.middleware, Middleware::ModuleScriptDir);
    assert_eq!(task.path, "/a/b/init.lua");
    assert_eq!(task.name, "b");
}

#[test]
fn user_rules_come_first() {
    let rule = || SyncRule {
        middleware: Middleware::Text,
        pattern: Glob::new("notes/*.lua"),
        exclude: Some(Glob::new("**/skip.lua")),
        suffix: Some(".lua".to_owned()),
        base_path: "/project".to_owned(),
    };
    let run = |path: &str| {
        let task = snapshot_from_vfs(&context(vec![rule()]), path, Found::File).unwrap();
        task.map(|task| (task.middleware, task.name))
    };
    assert_eq!(run("/project/notes/a.lua"), Some((Middleware::Text, "a".to_owned())));
    assert_eq!(
        run("/project/notes/skip.lua"),
        Some((Middleware::ModuleScript, "skip".to_owned()))
    );
    assert_eq!(
        run("/elsewhere/notes/a.lua"),
        Some((Middleware::ModuleScript, "a".to_owned()))
    );
    assert!(rule().matches("/project/notes/a.lua"));
    assert!(!rule().matches("/project/notes/skip.lua"));
    assert_eq!(first_accepted(&vec![false, true, true]), Some(1));
    assert_eq!(first_accepted(&vec![false]), None);
    assert!(task_for_rule(None, "/a.lua", "a.lua").is_none());
    let task = task_for_rule(Some(&rule()), "/a.lua", "b.lua").unwrap();
    assert_eq!((task.path.as_str(), task.name.as_str()), ("/a.lua", "b"));
}

#[test]
fn rules_with_backslashes_leave_the_others_as_they_are() {
    let rule = |pattern: &str, middleware: Middleware| SyncRule {
        middleware,
        pattern: Glob::new(pattern),
        exclude: None,
        suffix: None,
        base_path: String::new(),
    };
    let rules = || {
        vec![
            rule("*.foo", Middleware::Text),
            rule("\\*.bar", Middleware::Csv),
            rule("*.foo", Middleware::Json),
            rule("*.baz", Middleware::Json),
        ]
    };
    let of = |path: &str| Middleware::middleware_for_path(&Found::File, &rules(), path);
    assert_eq!(of("a.foo"), Some(Middleware::Text));
    assert_eq!(of("a.baz"), Some(Middleware::Json));
    assert_eq!(of("a.lua"), Some(Middleware::ModuleScript));
    assert_eq!(of("a.none"), None);
    let task = snapshot_from_vfs(&context(rules()), "/p/a.foo", Found::File).unwrap().unwrap();
    assert_eq!((task.middleware, task.name.as_str()), (Middleware::Text, "a"));
    let defaults = default_sync_rules();
    let found = rule_for_file(&rules(), &defaults, "a.baz").map(|rule| rule.middleware);
    assert_eq!(found, Some(Middleware::Json));
    assert!(rule_for_file(&rules(), &defaults, "a.none").is_none());
}

#[test]
fn bad_patterns_match_nothing() {
    assert!(!Glob::new("{a").is_match("{a"));
    assert!(Glob::new("*.lua").is_match("a/b.lua"));
    assert!(!Glob::new("*.lua").is_match("a/b.txt"));
    assert!(Glob::parse("{a").is_none());
    assert_eq!(Glob::parse("{a,b}[}]").unwrap().as_str(), "{a,b}[}]");
}

#[test]
fn patterns_that_are_nested_too_deep_are_refused() {
    let nested = |n: usize| format!("{}a{}", "{".repeat(n), "}".repeat(n));
    assert!(Glob::parse(&nested(50)).unwrap().is_match("a"));
    assert!(Glob::parse(&nested(400)).is_none());
    assert!(Glob::parse(&nested(5_000)).is_none());
    // A class may hide a brace.
    assert!(Glob::parse(&"{[}]".repeat(3_000)).is_none());
    assert!(Glob::parse(&"[{]".repeat(2_000)).is_some());
    // Braces side by side are not nested.
    assert!(Glob::parse(&"{a,b}".repeat(1_500)).is_some());
    assert!(Glob::parse(&format!("{}\\a", "{a}".repeat(1_100))).is_some());
    // A backslash may hide a brace, or not.
    assert!(Glob::parse(&"{\\}".repeat(1_100)).is_none());
    assert!(Glob::parse(&"\\{".repeat(1_100)).is_none());
}

fn dir_middleware(present: &[&str]) -> (Middleware, String) {
    let mut probes = Vec::new();
    loop {
        match get_dir_middleware("/dir", &probes) {
            DirProbe::Probe(path) => {
                let name = path.strip_prefix("/dir/").unwrap();
                probes.push(present.contains(&name));
            }
            DirProbe::Found(middleware, path) => return (middleware, path),
        }
    }
}

#[test]
fn the_first_init_file_gives_the_middleware() {
    let order = [
        (Middleware::Project, "default.project.json"),
        (Middleware::ModuleScriptDir, "init.luau"),
        (Middleware::ModuleScriptDir, "init.lua"),
        (Middleware::ServerScriptDir, "init.server.luau"),
        (Middleware::ServerScriptDir, "init.server.lua"),
        (Middleware::ClientScriptDir, "init.client.luau"),
        (Middleware::ClientScriptDir, "init.client.lua"),
        (Middleware::CsvDir, "init.csv"),
    ];
    for start in 0..order.len() {
        let present: Vec<&str> = order[start..].iter().map(|(_, name)| *name).collect();
        let (middleware, name) = order[start];
        assert_eq!(dir_middleware(&present), (middleware, format!("/dir/{name}")));
    }
    assert_eq!(dir_middleware(&[]), (Middleware::Dir, "/dir".to_owned()));
}

#[test]
fn paths_are_joined() {
    assert_eq!(join("/a", "b"), "/a/b");
    assert_eq!(join("/a/", "b"), "/a/b");
    assert_eq!(join("", "b"), "b");
    assert_eq!(join("/a", "/b"), "/b");
    assert_eq!(with_file_name("/a/b.txt", "c"), "/a/c");
    assert_eq!(with_file_name("b.txt", "c"), "c");
    assert_eq!(with_file_name("d/f.txt/", "c"), "d/c");
    assert_eq!(with_file_name("/", "c"), "/c");
    assert_eq!(with_file_name("a/..", "c"), "a/../c");
    assert_eq!(replace_file_name("x", Some("x"), Some("y"), "c"), "y/c");
}

#[test]
fn directories_and_own_properties() {
    let dirs: Vec<Middleware> = ALL.into_iter().filter(|m| m.is_dir()).collect();
    assert_eq!(
        dirs,
        [
            Middleware::Dir,
            Middleware::ServerScriptDir,
            Middleware::ClientScriptDir,
            Middleware::ModuleScriptDir,
            Middleware::CsvDir,
        ]
    );
    let own: Vec<Middleware> = ALL.into_iter().filter(|m| m.handles_own_properties()).collect();
    assert_eq!(
        own,
        [Middleware::JsonModel, Middleware::Project, Middleware::Rbxm, Middleware::Rbxmx]
    );
}

#[test]
fn readers_and_writers() {
    assert_eq!(Middleware::Ignore.reader(), None);
    assert_eq!(
        Middleware::ClientScriptDir.reader(),
        Some(SnapshotReader::LuaInit(ScriptType::Client))
    );
    for middleware in ALL {
        let unsupported =
            matches!(middleware, Middleware::Json | Middleware::Toml | Middleware::Ignore);
        match middleware.syncback(Some("ok"), true) {
            Ok(_) => assert!(!unsupported),
            Err(SyncbackError::Unsupported(which)) => {
                assert!(unsupported);
                assert_eq!(which, middleware);
            }
            Err(SyncbackError::InvalidFileName(_)) => panic!("the name is valid"),
        }
        match middleware.syncback(Some("a?"), false) {
            Err(SyncbackError::InvalidFileName(name)) => assert_eq!(name, "a?"),
            _ => panic!("the name is not valid"),
        }
    }
    assert!(matches!(
        Middleware::ServerScript.syncback(None, false),
        Ok(SyncbackWriter::Lua)
    ));
}

#[test]
fn paths_with_colons_are_read() {
    assert_eq!(read("/a/b:c.lua"), Some((Middleware::ModuleScript, "b:c".to_owned())));
}
