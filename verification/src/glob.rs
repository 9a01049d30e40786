//! Glob patterns that paths are held against.

use vstd::prelude::*;
use vstd::string::StrSliceExecFns;

use crate::paths::without_backslash;
use crate::plain::Plain;

verus! {

/// Whether [`glob_set_match`] can compile a pattern.
pub uninterp spec fn glob_compiles(pattern: Seq<char>) -> bool;

/// Whether [`glob_set_match`] finds that a pattern, once compiled, matches a
/// path.
pub uninterp spec fn glob_match(pattern: Seq<char>, path: Seq<char>) -> bool;

/// Whether a pattern means the same on every machine: it holds no backslash, and
/// it is so short that what it is compiled to stays far below the limit that
/// `globset` sets, which is counted in bytes of the machine's own.
pub open spec fn plain_pattern(pattern: Seq<char>) -> bool {
    without_backslash(pattern) && pattern.len() <= 4096
}

/// Where a reader of patterns stands: outside of classes such as `[a-z]`, behind
/// a backslash there, right behind the bracket that opens a class, behind the
/// sign that negates one, or inside of one.
#[derive(Debug, Clone, Copy, PartialEq, Eq, Structural)]
pub enum ClassState {
    Outside,
    Escaped,
    Opened,
    Negated,
    Inside,
}

/// How deep the braces of a part of a pattern are nested at its end and at most,
/// and where it ends.
pub struct Nesting {
    pub depth: nat,
    pub deepest: nat,
    pub class: ClassState,
}

/// The nesting with one more character. `escapes` tells whether a backslash takes
/// the meaning off the character behind it.
pub open spec fn nesting_step(before: Nesting, c: char, escapes: bool) -> Nesting {
    match before.class {
        ClassState::Outside => if c == '{' {
            Nesting {
                depth: before.depth + 1,
                deepest: if before.deepest <= before.depth {
                    before.depth + 1
                } else {
                    before.deepest
                },
                ..before
            }
        } else if c == '}' && before.depth > 0 {
            Nesting { depth: (before.depth - 1) as nat, ..before }
        } else if c == '[' {
            Nesting { class: ClassState::Opened, ..before }
        } else if c == '\\' && escapes {
            Nesting { class: ClassState::Escaped, ..before }
        } else {
            before
        },
        ClassState::Escaped => Nesting { class: ClassState::Outside, ..before },
        ClassState::Opened => if c == '!' || c == '^' {
            Nesting { class: ClassState::Negated, ..before }
        } else {
            Nesting { class: ClassState::Inside, ..before }
        },
        ClassState::Negated => Nesting { class: ClassState::Inside, ..before },
        ClassState::Inside => if c == ']' {
            Nesting { class: ClassState::Outside, ..before }
        } else {
            before
        },
    }
}

/// The nesting of the braces of a pattern. `escapes` tells whether a backslash
/// takes the meaning off the character behind it.
pub open spec fn nesting(pattern: Seq<char>, escapes: bool) -> Nesting
    decreases pattern.len(),
{
    if pattern.len() == 0 {
        Nesting { depth: 0, deepest: 0, class: ClassState::Outside }
    } else {
        nesting_step(nesting(pattern.drop_last(), escapes), pattern.last(), escapes)
    }
}

/// The number of braces that may be nested in a pattern: more than the parser of
/// regular expressions takes, and far from what exhausts a stack.
pub const MOST_NESTED: usize = 1000;

/// Whether a pattern can be handed to `globset`: its braces are not nested too
/// deep, and it is not too long. A backslash takes the meaning off a brace on
/// some machines and separates names on others: the braces are not nested too
/// deep in either reading.
pub open spec fn bearable(pattern: Seq<char>) -> bool {
    &&& pattern.len() < 0x1000_0000
    &&& nesting(pattern, true).deepest <= MOST_NESTED
    &&& nesting(pattern, false).deepest <= MOST_NESTED
}

/// A short pattern can be handed to `globset`.
pub proof fn lemma_short_is_bearable(pattern: Seq<char>)
    requires
        pattern.len() <= MOST_NESTED,
    ensures
        bearable(pattern),
{
    lemma_nesting_bounded(pattern, true);
    lemma_nesting_bounded(pattern, false);
}

proof fn lemma_nesting_bounded(pattern: Seq<char>, escapes: bool)
    ensures
        nesting(pattern, escapes).depth <= nesting(pattern, escapes).deepest <= pattern.len(),
    decreases pattern.len(),
{
    if pattern.len() > 0 {
        lemma_nesting_bounded(pattern.drop_last(), escapes);
    }
}

/// Calls `globset::GlobSet::is_match` on the set that `globset::GlobSet::new`
/// makes of the one pattern that `globset::Glob::new` has parsed. `None` stands
/// for an error of either. Trusted: where neither text holds a backslash and the
/// pattern is short, whether it compiles depends on the pattern alone, and the
/// answer on the two texts alone. Elsewhere it depends on the machine too, and
/// nothing is said. Patterns that are nested so deep that the stack might not
/// hold them, or so long that `aho_corasick::AhoCorasick::new` might fail, on
/// which `globset` panics, are left out.
#[verifier::external_body]
fn glob_set_match(pattern: &str, path: &str) -> (found: Option<bool>)
    requires
        bearable(pattern@),
    ensures
        plain_pattern(pattern@) ==> (found is Some <==> glob_compiles(pattern@)),
        plain_pattern(pattern@) && without_backslash(path@) ==> (found matches Some(yes) ==> yes
            == glob_match(pattern@, path@)),
{
    let glob = globset::Glob::new(pattern).ok()?;
    let set = globset::GlobSet::new([glob]).ok()?;
    Some(set.is_match(path))
}

/// A glob pattern. A pattern that cannot be compiled matches nothing.
#[derive(Debug)]
pub struct Glob {
    pattern: String,
}

impl Glob {
    #[verifier::type_invariant]
    spec fn usable(self) -> bool {
        bearable(self.pattern@)
    }
}

impl DeepView for Glob {
    type V = Seq<char>;

    closed spec fn deep_view(&self) -> Seq<char> {
        self.pattern@
    }
}

impl Plain for Glob {
    fn same(&self, other: &Self) -> (same: bool) {
        self.pattern.same(&other.pattern)
    }

    fn duplicate(&self) -> (copy: Self) {
        proof {
            use_type_invariant(self);
        }
        Glob { pattern: self.pattern.duplicate() }
    }
}

/// Whether a pattern can be compiled and matches a path.
pub open spec fn glob_accepts(pattern: Seq<char>, path: Seq<char>) -> bool {
    glob_compiles(pattern) && glob_match(pattern, path)
}

/// Whether a glob may find that it matches a path, or that it does not. Where the
/// pattern and the path mean the same on every machine, only one of the two is
/// possible.
pub open spec fn glob_may_find(pattern: Seq<char>, path: Seq<char>, yes: bool) -> bool {
    plain_pattern(pattern) ==> {
        &&& without_backslash(path) ==> yes == glob_accepts(pattern, path)
        &&& !glob_compiles(pattern) ==> !yes
    }
}

/// How deep the braces of a pattern are nested at most.
fn deepest_nesting(pattern: &str, escapes: bool) -> (deepest: usize)
    ensures
        deepest == nesting(pattern@, escapes).deepest,
{
    let len: usize = pattern.unicode_len();
    let mut depth: usize = 0;
    let mut deepest: usize = 0;
    let mut class = ClassState::Outside;
    let mut i: usize = 0;
    while i < len
        invariant
            i <= len,
            len == pattern@.len(),
            depth <= deepest <= i,
            depth == nesting(pattern@.take(i as int), escapes).depth,
            deepest == nesting(pattern@.take(i as int), escapes).deepest,
            class == nesting(pattern@.take(i as int), escapes).class,
        decreases len - i,
    {
        let c = pattern.get_char(i);
        proof {
            assert(pattern@.take(i + 1).drop_last() =~= pattern@.take(i as int));
        }
        match class {
            ClassState::Outside => {
                if c == '{' {
                    depth += 1;
                    if deepest < depth {
                        deepest = depth;
                    }
                } else if c == '}' && depth > 0 {
                    depth -= 1;
                } else if c == '[' {
                    class = ClassState::Opened;
                } else if c == '\\' && escapes {
                    class = ClassState::Escaped;
                }
            },
            ClassState::Escaped => {
                class = ClassState::Outside;
            },
            ClassState::Opened => {
                class = if c == '!' || c == '^' {
                    ClassState::Negated
                } else {
                    ClassState::Inside
                };
            },
            ClassState::Negated => {
                class = ClassState::Inside;
            },
            ClassState::Inside => {
                if c == ']' {
                    class = ClassState::Outside;
                }
            },
        }
        i += 1;
    }
    assert(pattern@.take(i as int) =~= pattern@);
    deepest
}

/// Whether a pattern can be handed to `globset`.
fn is_bearable(pattern: &str) -> (yes: bool)
    ensures
        yes == bearable(pattern@),
{
    pattern.unicode_len() < 0x1000_0000 && deepest_nesting(pattern, true) <= MOST_NESTED
        && deepest_nesting(pattern, false) <= MOST_NESTED
}

impl Glob {
    /// A glob with the given pattern.
    pub fn new(pattern: &str) -> (glob: Glob)
        requires
            bearable(pattern@),
        ensures
            glob.deep_view() == pattern@,
    {
        Glob { pattern: pattern.to_owned() }
    }

    /// A glob with the given pattern, or `None` where the pattern cannot be
    /// compiled.
    pub fn parse(pattern: &str) -> (glob: Option<Glob>)
        ensures
            glob matches Some(glob) ==> glob.deep_view() == pattern@ && bearable(pattern@),
            !bearable(pattern@) ==> glob is None,
            bearable(pattern@) && plain_pattern(pattern@) ==> (glob is Some <==> glob_compiles(
                pattern@,
            )),
    {
        if !is_bearable(pattern) {
            return None;
        }
        match glob_set_match(pattern, "") {
            Some(_) => Some(Glob::new(pattern)),
            None => None,
        }
    }

    /// The pattern.
    pub fn as_str(&self) -> (pattern: &str)
        ensures
            pattern@ == self.deep_view(),
    {
        self.pattern.as_str()
    }

    /// Whether the glob matches a path.
    pub fn is_match(&self, path: &str) -> (yes: bool)
        ensures
            glob_may_find(self.deep_view(), path@, yes),
    {
        proof {
            use_type_invariant(self);
        }
        match glob_set_match(self.pattern.as_str(), path) {
            Some(yes) => yes,
            None => false,
        }
    }
}

} // verus!
