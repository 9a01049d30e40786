//! Middleware: what turns an entry of the file system into an instance, and an
//! instance back into files.

use vstd::prelude::*;

use crate::paths::portable;
use crate::plain::Plain;
use crate::sync_rule::{
    chosen_rule, default_rules, default_sync_rules, lemma_default_rules_plain, may_choose,
    plain_rules, rule_for_file, SyncRule, SyncRuleView,
};
use crate::vfs_snapshot::Found;

verus! {

/// Represents a possible 'transformer' that turns a file system item into an
/// instance. Missing from this list is metadata. This is deliberate, as
/// metadata is not a snapshot middleware.
#[derive(Debug, Clone, Copy, PartialEq, Eq, Structural)]
pub enum Middleware {
    Csv,
    JsonModel,
    Json,
    ServerScript,
    ClientScript,
    ModuleScript,
    Project,
    Rbxm,
    Rbxmx,
    Toml,
    Text,
    Ignore,
    Dir,
    ServerScriptDir,
    ClientScriptDir,
    ModuleScriptDir,
    CsvDir,
}

impl DeepView for Middleware {
    type V = Middleware;

    open spec fn deep_view(&self) -> Middleware {
        *self
    }
}

impl Plain for Middleware {
    fn same(&self, other: &Self) -> (same: bool) {
        *self == *other
    }

    fn duplicate(&self) -> (copy: Self) {
        *self
    }
}

/// The three kinds of scripts.
#[derive(Debug, Clone, Copy, PartialEq, Eq, Structural)]
pub enum ScriptType {
    Server,
    Client,
    Module,
}

/// The reader that turns a path into a snapshot.
#[derive(Debug, Clone, Copy, PartialEq, Eq, Structural)]
pub enum SnapshotReader {
    Csv,
    JsonModel,
    Json,
    Lua(ScriptType),
    Project,
    Rbxm,
    Rbxmx,
    Toml,
    Txt,
    Dir,
    LuaInit(ScriptType),
    CsvInit,
}

/// The writer that turns an instance into files.
#[derive(Debug, Clone, Copy, PartialEq, Eq, Structural)]
pub enum SyncbackWriter {
    Csv,
    JsonModel,
    Project,
    Lua,
    Rbxm,
    Rbxmx,
    Txt,
    Dir,
    LuaInit(ScriptType),
    CsvInit,
}

/// Why a middleware cannot be synced back.
#[derive(Debug)]
pub enum SyncbackError {
    /// No file or directory can be created with this name.
    InvalidFileName(String),
    /// The middleware does not support syncback.
    Unsupported(Middleware),
}

/// The middleware that become directories.
pub open spec fn directory_middleware(middleware: Middleware) -> bool {
    ||| middleware == Middleware::Dir
    ||| middleware == Middleware::ServerScriptDir
    ||| middleware == Middleware::ClientScriptDir
    ||| middleware == Middleware::ModuleScriptDir
    ||| middleware == Middleware::CsvDir
}

/// The middleware that set properties without a meta file.
pub open spec fn sets_own_properties(middleware: Middleware) -> bool {
    ||| middleware == Middleware::JsonModel
    ||| middleware == Middleware::Project
    ||| middleware == Middleware::Rbxm
    ||| middleware == Middleware::Rbxmx
}

/// The middleware that cannot be synced back.
pub open spec fn without_writer(middleware: Middleware) -> bool {
    ||| middleware == Middleware::Json
    ||| middleware == Middleware::Toml
    ||| middleware == Middleware::Ignore
}

/// The reader of each middleware; `Ignore` has none.
pub open spec fn reader_of(middleware: Middleware) -> Option<SnapshotReader> {
    match middleware {
        Middleware::Csv => Some(SnapshotReader::Csv),
        Middleware::JsonModel => Some(SnapshotReader::JsonModel),
        Middleware::Json => Some(SnapshotReader::Json),
        Middleware::ServerScript => Some(SnapshotReader::Lua(ScriptType::Server)),
        Middleware::ClientScript => Some(SnapshotReader::Lua(ScriptType::Client)),
        Middleware::ModuleScript => Some(SnapshotReader::Lua(ScriptType::Module)),
        Middleware::Project => Some(SnapshotReader::Project),
        Middleware::Rbxm => Some(SnapshotReader::Rbxm),
        Middleware::Rbxmx => Some(SnapshotReader::Rbxmx),
        Middleware::Toml => Some(SnapshotReader::Toml),
        Middleware::Text => Some(SnapshotReader::Txt),
        Middleware::Ignore => None,
        Middleware::Dir => Some(SnapshotReader::Dir),
        Middleware::ServerScriptDir => Some(SnapshotReader::LuaInit(ScriptType::Server)),
        Middleware::ClientScriptDir => Some(SnapshotReader::LuaInit(ScriptType::Client)),
        Middleware::ModuleScriptDir => Some(SnapshotReader::LuaInit(ScriptType::Module)),
        Middleware::CsvDir => Some(SnapshotReader::CsvInit),
    }
}

/// The writer of each middleware that has one.
pub open spec fn writer_of(middleware: Middleware) -> Option<SyncbackWriter> {
    match middleware {
        Middleware::Csv => Some(SyncbackWriter::Csv),
        Middleware::JsonModel => Some(SyncbackWriter::JsonModel),
        Middleware::Json => None,
        Middleware::Project => Some(SyncbackWriter::Project),
        Middleware::ServerScript => Some(SyncbackWriter::Lua),
        Middleware::ClientScript => Some(SyncbackWriter::Lua),
        Middleware::ModuleScript => Some(SyncbackWriter::Lua),
        Middleware::Rbxm => Some(SyncbackWriter::Rbxm),
        Middleware::Rbxmx => Some(SyncbackWriter::Rbxmx),
        Middleware::Toml => None,
        Middleware::Text => Some(SyncbackWriter::Txt),
        Middleware::Ignore => None,
        Middleware::Dir => Some(SyncbackWriter::Dir),
        Middleware::ServerScriptDir => Some(SyncbackWriter::LuaInit(ScriptType::Server)),
        Middleware::ClientScriptDir => Some(SyncbackWriter::LuaInit(ScriptType::Client)),
        Middleware::ModuleScriptDir => Some(SyncbackWriter::LuaInit(ScriptType::Module)),
        Middleware::CsvDir => Some(SyncbackWriter::CsvInit),
    }
}

/// The middleware of a rule, if there is one.
pub open spec fn rule_middleware(rule: Option<SyncRuleView>) -> Option<Middleware> {
    match rule {
        Some(rule) => Some(rule.middleware),
        None => None,
    }
}

impl Middleware {
    /// The reader that creates a snapshot for a path, or `None` where the path
    /// gives no snapshot.
    pub fn reader(&self) -> (reader: Option<SnapshotReader>)
        ensures
            reader == reader_of(*self),
    {
        match self {
            Middleware::Csv => Some(SnapshotReader::Csv),
            Middleware::JsonModel => Some(SnapshotReader::JsonModel),
            Middleware::Json => Some(SnapshotReader::Json),
            Middleware::ServerScript => Some(SnapshotReader::Lua(ScriptType::Server)),
            Middleware::ClientScript => Some(SnapshotReader::Lua(ScriptType::Client)),
            Middleware::ModuleScript => Some(SnapshotReader::Lua(ScriptType::Module)),
            Middleware::Project => Some(SnapshotReader::Project),
            Middleware::Rbxm => Some(SnapshotReader::Rbxm),
            Middleware::Rbxmx => Some(SnapshotReader::Rbxmx),
            Middleware::Toml => Some(SnapshotReader::Toml),
            Middleware::Text => Some(SnapshotReader::Txt),
            Middleware::Ignore => None,
            Middleware::Dir => Some(SnapshotReader::Dir),
            Middleware::ServerScriptDir => Some(SnapshotReader::LuaInit(ScriptType::Server)),
            Middleware::ClientScriptDir => Some(SnapshotReader::LuaInit(ScriptType::Client)),
            Middleware::ModuleScriptDir => Some(SnapshotReader::LuaInit(ScriptType::Module)),
            Middleware::CsvDir => Some(SnapshotReader::CsvInit),
        }
    }

    /// Chooses the syncback mechanism for the middleware. `file_name` is the
    /// name of the file or directory to be written, if the path has one, and
    /// `valid_name` tells whether a file can bear it.
    pub fn syncback(&self, file_name: Option<&str>, valid_name: bool) -> (writer: Result<
        SyncbackWriter,
        SyncbackError,
    >)
        ensures
            match writer {
                Ok(writer) => (file_name is None || valid_name) && writer_of(*self) == Some(writer),
                Err(SyncbackError::InvalidFileName(name)) => !valid_name && file_name is Some
                    && name@ == file_name->0@,
                Err(SyncbackError::Unsupported(middleware)) => (file_name is None || valid_name)
                    && middleware == *self && writer_of(*self) is None,
            },
            writer is Ok <==> (file_name is None || valid_name) && !without_writer(*self),
    {
        if let Some(file_name) = file_name {
            if !valid_name {
                return Err(SyncbackError::InvalidFileName(file_name.to_owned()));
            }
        }
        match self {
            Middleware::Csv => Ok(SyncbackWriter::Csv),
            Middleware::JsonModel => Ok(SyncbackWriter::JsonModel),
            Middleware::Json => Err(SyncbackError::Unsupported(*self)),
            // Projects are only generated from files that already exist on the
            // file system, so they do not depend on the file name.
            Middleware::Project => Ok(SyncbackWriter::Project),
            Middleware::ServerScript => Ok(SyncbackWriter::Lua),
            Middleware::ClientScript => Ok(SyncbackWriter::Lua),
            Middleware::ModuleScript => Ok(SyncbackWriter::Lua),
            Middleware::Rbxm => Ok(SyncbackWriter::Rbxm),
            Middleware::Rbxmx => Ok(SyncbackWriter::Rbxmx),
            Middleware::Toml => Err(SyncbackError::Unsupported(*self)),
            Middleware::Text => Ok(SyncbackWriter::Txt),
            Middleware::Ignore => Err(SyncbackError::Unsupported(*self)),
            Middleware::Dir => Ok(SyncbackWriter::Dir),
            Middleware::ServerScriptDir => Ok(SyncbackWriter::LuaInit(ScriptType::Server)),
            Middleware::ClientScriptDir => Ok(SyncbackWriter::LuaInit(ScriptType::Client)),
            Middleware::ModuleScriptDir => Ok(SyncbackWriter::LuaInit(ScriptType::Module)),
            Middleware::CsvDir => Ok(SyncbackWriter::CsvInit),
        }
    }

    /// Returns whether this particular middleware would become a directory.
    pub fn is_dir(&self) -> (yes: bool)
        ensures
            yes == directory_middleware(*self),
    {
        matches!(
            self,
            Middleware::Dir
                | Middleware::ServerScriptDir
                | Middleware::ClientScriptDir
                | Middleware::ModuleScriptDir
                | Middleware::CsvDir
        )
    }

    /// Returns whether this particular middleware sets its own properties.
    /// This applies to things like `JsonModel` and `Project`, since they
    /// set properties without needing a meta.json file.
    ///
    /// It does not cover middleware like `ServerScript` or `Csv` because they
    /// need a meta.json file to set properties that aren't their designated
    /// 'special' properties.
    pub fn handles_own_properties(&self) -> (yes: bool)
        ensures
            yes == sets_own_properties(*self),
    {
        matches!(
            self,
            Middleware::JsonModel | Middleware::Project | Middleware::Rbxm | Middleware::Rbxmx
        )
    }

    /// The middleware that should be used for a path, if there is one: that of
    /// the directory, or of the first rule that accepts the file, the given
    /// rules before the default ones.
    pub fn middleware_for_path(
        found: &Found,
        sync_rules: &Vec<SyncRule>,
        path: &str,
    ) -> (middleware: Option<Middleware>)
        ensures
            found is Nothing ==> middleware is None,
            *found matches Found::Directory(named, _) ==> middleware == Some(named),
            found is File ==> exists|rule: Option<SyncRuleView>| #[trigger]
                may_choose(sync_rules.deep_view() + default_rules(), path@, rule) && middleware
                    == rule_middleware(rule),
            found is File && portable(path@) && plain_rules(sync_rules.deep_view())
                ==> middleware == rule_middleware(
                chosen_rule(sync_rules.deep_view() + default_rules(), path@),
            ),
    {
        match found {
            Found::Nothing => None,
            Found::Directory(middleware, _) => Some(*middleware),
            Found::File => {
                let defaults = default_sync_rules();
                proof {
                    lemma_default_rules_plain();
                }
                let rule = rule_for_file(sync_rules, &defaults, path);
                assert(may_choose(
                    sync_rules.deep_view() + default_rules(),
                    path@,
                    rule.deep_view(),
                ));
                match rule {
                    Some(rule) => Some(rule.middleware),
                    None => None,
                }
            },
        }
    }
}

} // verus!
