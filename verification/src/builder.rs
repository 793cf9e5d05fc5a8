//! Which engine backs a store, what each engine can and cannot carry, and the
//! path a store is opened at.

use crate::filename::{extension, has_extension, lemma_extension_twice, set_extension, with_extension};
use vstd::prelude::*;

verus! {

/// Which engine backs a store.
#[derive(Debug, Clone, Copy, PartialEq, Eq, Structural)]
pub enum Backend {
    Redb,
    Json,
    Toml,
    Ron,
    Sqlite,
}

pub open spec fn extension_of(b: Backend) -> Seq<char> {
    match b {
        Backend::Redb => "redb"@,
        Backend::Json => "json"@,
        Backend::Toml => "toml"@,
        Backend::Ron => "ron"@,
        Backend::Sqlite => "db"@,
    }
}

pub open spec fn depth_ceiling_of(b: Backend) -> usize {
    match b {
        Backend::Redb => 512,
        Backend::Json => 127,
        Backend::Toml => 80,
        Backend::Ron => 64,
        Backend::Sqlite => 127,
    }
}

impl Backend {
    /// The extension a file this engine writes carries.
    pub fn extension(self) -> (r: &'static str)
        ensures
            r@ == extension_of(self),
    {
        match self {
            Backend::Redb => "redb",
            Backend::Json => "json",
            Backend::Toml => "toml",
            Backend::Ron => "ron",
            Backend::Sqlite => "db",
        }
    }

    /// How deeply this engine's codec will read, counting the path and the
    /// value together.
    pub fn depth_ceiling(self) -> (r: usize)
        ensures
            r == depth_ceiling_of(self),
    {
        match self {
            Backend::Redb => 512,
            Backend::Json => 127,
            Backend::Toml => 80,
            Backend::Ron => 64,
            Backend::Sqlite => 127,
        }
    }

    /// Whether committing one write on this engine commits every other write
    /// waiting beside it: true of the engines that keep the store in one
    /// document and rewrite all of it.
    pub fn a_commit_covers_the_whole_store(self) -> (r: bool)
        ensures
            r == (self == Backend::Json || self == Backend::Toml || self == Backend::Ron),
    {
        match self {
            Backend::Redb => false,
            Backend::Json => true,
            Backend::Toml => true,
            Backend::Ron => true,
            Backend::Sqlite => false,
        }
    }

    /// Whether this engine can carry an integer that does not fit in an `i64`.
    pub fn holds_an_integer_past_i64(self) -> (r: bool)
        ensures
            r == (self != Backend::Toml),
    {
        match self {
            Backend::Redb => true,
            Backend::Json => true,
            Backend::Toml => false,
            Backend::Ron => true,
            Backend::Sqlite => true,
        }
    }

    /// Whether this engine can write a `NaN` or an infinity and read it back.
    pub fn holds_non_finite_floats(self) -> (r: bool)
        ensures
            r == (self != Backend::Json && self != Backend::Sqlite),
    {
        match self {
            Backend::Redb => true,
            Backend::Json => false,
            Backend::Toml => true,
            Backend::Ron => true,
            Backend::Sqlite => false,
        }
    }

    /// Whether this engine can write an enum and read it back.
    pub fn holds_enums(self) -> (r: bool)
        ensures
            r == (self != Backend::Ron),
    {
        match self {
            Backend::Redb => true,
            Backend::Json => true,
            Backend::Toml => true,
            Backend::Ron => false,
            Backend::Sqlite => true,
        }
    }

    /// Whether this engine tells `Some(None)` apart from `None`.
    pub fn keeps_a_nested_option(self) -> (r: bool)
        ensures
            r == (self == Backend::Ron),
    {
        match self {
            Backend::Redb => false,
            Backend::Json => false,
            Backend::Toml => false,
            Backend::Ron => true,
            Backend::Sqlite => false,
        }
    }
}

/// The engine used when the caller does not name one: the first of redb,
/// sqlite, json, toml, ron that the build has.
pub fn default_backend() -> (b: Backend)
    ensures
        b == Backend::Redb,
{
    Backend::Redb
}

/// Which convention decides where an application's files belong.
#[derive(Debug, Clone, Copy, PartialEq, Eq, Structural)]
#[non_exhaustive]
pub enum Layout {
    /// The convention a command-line application follows.
    App,
    /// The convention the rest of the platform's software follows.
    Native,
    /// The layout the `directories` crate produces.
    ProjectDirs,
}

impl Layout {
    /// What a location picks when the caller does not say.
    pub fn default_for_build() -> (l: Layout)
        ensures
            l == Layout::App,
    {
        Layout::App
    }
}

/// What a builder opened at `path` holds: the default engine, parallel reads
/// off, and the path with the engine's extension where it was given none.
pub open spec fn opened_at(path: Seq<char>) -> BuilderView {
    BuilderView {
        backend: Backend::Redb,
        path: if extension(path) is Some {
            path
        } else {
            with_extension(path, extension_of(Backend::Redb))
        },
        parallel_reads: false,
        caller_named_extension: extension(path) is Some,
    }
}

/// What naming `e` as the engine makes of a builder's settings: the engine
/// changes, and a path whose extension this crate chose follows it.
pub open spec fn with_engine(v: BuilderView, e: Backend) -> BuilderView {
    BuilderView {
        backend: e,
        path: if v.caller_named_extension { v.path } else { with_extension(v.path, extension_of(e)) },
        parallel_reads: v.parallel_reads,
        caller_named_extension: v.caller_named_extension,
    }
}

/// Whether `v` keeps the path a builder was opened at `p` with: an extension
/// the caller spelled as spelled, and otherwise the extension of the engine
/// `v` names.
pub open spec fn follows(v: BuilderView, p: Seq<char>) -> bool {
    &&& v.caller_named_extension == (extension(p) is Some)
    &&& v.path == if extension(p) is Some { p } else { with_extension(p, extension_of(v.backend)) }
}

proof fn lemma_engine_extension(e: Backend)
    ensures
        extension_of(e).len() > 0,
        forall|k: int| 0 <= k < extension_of(e).len() ==> extension_of(e)[k] != '.' && extension_of(e)[k] != '/',
{
    reveal_strlit("redb");
    reveal_strlit("json");
    reveal_strlit("toml");
    reveal_strlit("ron");
    reveal_strlit("db");
}

/// The engine named last is the one the path follows: a builder opened at
/// `p` keeps an extension the caller spelled whatever engines are named after,
/// and otherwise carries the extension of the last engine named; choosing
/// whether reads go in parallel leaves the path alone.
pub proof fn the_last_engine_named_is_the_one_the_path_follows(p: Seq<char>, v: BuilderView, e: Backend, yes: bool)
    ensures
        follows(opened_at(p), p),
        follows(v, p) ==> follows(with_engine(v, e), p),
        follows(v, p) ==> follows(BuilderView { parallel_reads: yes, ..v }, p),
{
    if follows(v, p) && extension(p) is None {
        lemma_engine_extension(v.backend);
        lemma_extension_twice(p, extension_of(v.backend), extension_of(e));
    }
}

/// The places a builder knows how to find. Where each one is, is the
/// machine's to say.
#[derive(Debug, Clone, Copy)]
pub struct Location;

/// How a store is opened: where its file is, which engine reads it, and
/// whether reading back a large collection may use more than one core.
pub struct StoreBuilder {
    backend: Backend,
    path: String,
    parallel_reads: bool,
    /// Whether the extension on the path was spelled by the caller. One this
    /// crate chose follows the engine; one the caller wrote is theirs.
    caller_named_extension: bool,
}

pub struct BuilderView {
    pub backend: Backend,
    pub path: Seq<char>,
    pub parallel_reads: bool,
    pub caller_named_extension: bool,
}

impl View for StoreBuilder {
    type V = BuilderView;

    closed spec fn view(&self) -> BuilderView {
        BuilderView {
            backend: self.backend,
            path: self.path@,
            parallel_reads: self.parallel_reads,
            caller_named_extension: self.caller_named_extension,
        }
    }
}

impl StoreBuilder {
    /// A store at an explicit path. An extension that is given is kept,
    /// whatever engine ends up running; without one, the engine's own is used.
    pub fn new(path: &str) -> (r: StoreBuilder)
        ensures
            r@ == opened_at(path@),
            follows(r@, path@),
    {
        proof {
            the_last_engine_named_is_the_one_the_path_follows(path@, opened_at(path@), Backend::Redb, false);
        }
        let caller_named_extension = has_extension(path);
        let backend = default_backend();
        let path = if caller_named_extension {
            String::from_str(path)
        } else {
            set_extension(path, backend.extension())
        };
        StoreBuilder { backend, path, parallel_reads: false, caller_named_extension }
    }

    /// A store where the machine says it goes: `pick` is handed a
    /// [`Location`] and gives back the path it found, or why it found none.
    pub fn located<E, F>(pick: F) -> (r: Result<StoreBuilder, E>)
        where
            F: FnOnce(Location) -> Result<String, E>,
        requires
            call_requires(pick, (Location,)),
        ensures
            match r {
                Ok(b) => exists|p: String| #[trigger] call_ensures(pick, (Location,), Ok::<String, E>(p)) && b@ == opened_at(p@) && follows(b@, p@),
                Err(e) => call_ensures(pick, (Location,), Err::<String, E>(e)),
            },
    {
        match pick(Location) {
            Ok(path) => Ok(StoreBuilder::new(path.as_str())),
            Err(why) => Err(why),
        }
    }

    /// Picks the engine explicitly. An extension this crate chose moves with
    /// the engine; one the caller spelled stays as it is.
    pub fn backend(self, backend: Backend) -> (r: StoreBuilder)
        ensures
            r@ == with_engine(self@, backend),
            forall|p: Seq<char>| #[trigger] follows(self@, p) ==> follows(r@, p),
            r@.backend == backend,
            r@.caller_named_extension == self@.caller_named_extension,
            r@.parallel_reads == self@.parallel_reads,
            r@.path == if self@.caller_named_extension {
                self@.path
            } else {
                with_extension(self@.path, extension_of(backend))
            },
    {
        proof {
            assert forall|p: Seq<char>| #[trigger] follows(self@, p) implies follows(with_engine(self@, backend), p) by {
                the_last_engine_named_is_the_one_the_path_follows(p, self@, backend, false);
            }
        }
        let path = if self.caller_named_extension {
            self.path
        } else {
            set_extension(self.path.as_str(), backend.extension())
        };
        StoreBuilder { backend, path, parallel_reads: self.parallel_reads, caller_named_extension: self.caller_named_extension }
    }

    /// Lets reading a large collection back use more than one core.
    pub fn parallel_reads(self, yes: bool) -> (r: StoreBuilder)
        ensures
            r@.parallel_reads == yes,
            r@.backend == self@.backend,
            r@.path == self@.path,
            r@.caller_named_extension == self@.caller_named_extension,
            forall|p: Seq<char>| #[trigger] follows(self@, p) ==> follows(r@, p),
    {
        proof {
            assert forall|p: Seq<char>| #[trigger] follows(self@, p) implies follows(BuilderView { parallel_reads: yes, ..self@ }, p) by {
                the_last_engine_named_is_the_one_the_path_follows(p, self@, self@.backend, yes);
            }
        }
        StoreBuilder { parallel_reads: yes, ..self }
    }

    /// The path the store will be opened at.
    pub fn path(&self) -> (r: &str)
        ensures
            r@ == self@.path,
    {
        self.path.as_str()
    }

    /// The engine that will open it.
    pub fn engine(&self) -> (r: Backend)
        ensures
            r == self@.backend,
    {
        self.backend
    }

    /// Whether reading back may use more than one core.
    pub fn reads_in_parallel(&self) -> (r: bool)
        ensures
            r == self@.parallel_reads,
    {
        self.parallel_reads
    }
}

} // verus!
