//! Paths: texts with `/` between their components.

use vstd::prelude::*;
use vstd::string::{StrSliceExecFns, StringExecFns};

verus! {

/// Whether a text holds no backslash: such a text means the same as a pattern
/// or a path whatever separators the machine has.
pub open spec fn without_backslash(text: Seq<char>) -> bool {
    !text.contains('\\')
}

/// Whether a path is read alike on every machine: it holds no backslash, and it
/// starts neither with a drive such as `C:` nor with two slashes.
pub open spec fn portable(path: Seq<char>) -> bool {
    &&& without_backslash(path)
    &&& !(path.len() >= 2 && path[0] != '/' && path[1] == ':')
    &&& !(path.len() >= 2 && path[0] == '/' && path[1] == '/')
}

/// Whether a path is absolute.
pub open spec fn is_absolute(path: Seq<char>) -> bool {
    path.len() > 0 && path[0] == '/'
}

/// Whether a relative path neither starts nor ends with something that adds
/// nothing to it: a slash or a `.` that is a component of its own.
pub open spec fn is_trimmed(path: Seq<char>) -> bool {
    let n = path.len() as int;
    &&& !is_absolute(path)
    &&& !(n >= 1 && path[0] == '.' && (n == 1 || path[1] == '/'))
    &&& !(n >= 1 && path[n - 1] == '/')
    &&& !(n >= 2 && path[n - 1] == '.' && path[n - 2] == '/')
}

/// What `std::path::Path::strip_prefix` leaves of a path that neither
/// [`lies_below`] its base nor is relative where the base is absolute.
pub uninterp spec fn path_suffix(path: Seq<char>, base: Seq<char>) -> Option<Seq<char>>;

/// Whether a path is a base with a trimmed path behind it.
pub open spec fn lies_below(path: Seq<char>, base: Seq<char>) -> bool {
    let directory = joined(base, Seq::empty());
    directory.is_prefix_of(path) && is_trimmed(path.skip(directory.len() as int))
}

/// What is left of a path behind a base, or `None` where the base is no prefix
/// of it.
pub open spec fn path_below(path: Seq<char>, base: Seq<char>) -> Option<Seq<char>> {
    if is_absolute(base) && !is_absolute(path) {
        None
    } else if lies_below(path, base) {
        Some(path.skip(joined(base, Seq::empty()).len() as int))
    } else {
        path_suffix(path, base)
    }
}

/// A path that is joined to a base lies below the base, and what is left of it
/// behind the base is the path again.
pub proof fn lemma_joined_lies_below(base: Seq<char>, path: Seq<char>)
    requires
        is_trimmed(path),
    ensures
        lies_below(joined(base, path), base),
        is_absolute(base) ==> is_absolute(joined(base, path)),
        path_below(joined(base, path), base) == Some(path),
        is_absolute(base) && portable(base) && portable(path) ==> portable(joined(base, path)),
{
    let directory = joined(base, Seq::empty());
    let whole = joined(base, path);
    assert(whole =~= directory + path);
    assert(whole.skip(directory.len() as int) =~= path);
    assert(directory.is_prefix_of(whole));
    if is_absolute(base) && portable(base) && portable(path) {
        assert forall|i: int| 0 <= i < whole.len() implies whole[i] != '\\' by {
            if i < base.len() {
                assert(whole[i] == base[i]);
                assert(base.contains(base[i]));
            } else if i >= directory.len() {
                assert(whole[i] == path[i - directory.len()]);
                assert(path.contains(path[i - directory.len()]));
            }
        }
    }
}

/// Whether a text is a piece of another.
pub open spec fn piece_of(piece: Seq<char>, text: Seq<char>) -> bool {
    exists|i: int, j: int| 0 <= i <= j <= text.len() && piece == #[trigger] text.subrange(i, j)
}

/// A piece of a text without backslashes holds none either.
pub proof fn lemma_piece_without_backslash(piece: Seq<char>, text: Seq<char>)
    requires
        piece_of(piece, text),
        without_backslash(text),
    ensures
        without_backslash(piece),
{
    let (i, j) = choose|i: int, j: int|
        0 <= i <= j <= text.len() && piece == #[trigger] text.subrange(i, j);
}

/// Whether a text may be what is left of a path behind a base: a piece of the
/// path, and where both paths mean the same on every machine, that very rest.
pub open spec fn may_be_left(path: Seq<char>, base: Seq<char>, local: Option<Seq<char>>) -> bool {
    &&& local matches Some(local) ==> piece_of(local, path)
    &&& portable(path) && portable(base) ==> local == path_below(path, base)
}

/// What is left of a path behind a base that it lies under. Calls
/// `std::path::Path::strip_prefix`, which compares whole components and gives
/// back a piece of the path, the one that gives the path again when it is joined
/// to the base. Trusted: that it is a piece; and for portable paths, that a
/// relative path has no absolute prefix, that a trimmed path behind a base is
/// what is left, and that in all other cases the answer depends on the two texts
/// alone. Where a path is not portable the answer depends on the machine too, and
/// no more is said.
#[verifier::external_body]
pub(crate) fn strip_base(path: &str, base: &str) -> (rest: Option<String>)
    ensures
        rest matches Some(rest) ==> piece_of(rest@, path@),
        portable(path@) && portable(base@) && is_absolute(base@) && !is_absolute(path@)
            ==> rest is None,
        portable(path@) && portable(base@) && !(is_absolute(base@) && !is_absolute(path@))
            && lies_below(path@, base@) ==> rest.deep_view() == Some(
            path@.skip(joined(base@, Seq::empty()).len() as int),
        ),
        portable(path@) && portable(base@) && !(is_absolute(base@) && !is_absolute(path@))
            && !lies_below(path@, base@) ==> rest.deep_view() == path_suffix(path@, base@),
{
    let rest = std::path::Path::new(path).strip_prefix(base).ok()?;
    rest.to_str().map(|text| text.to_owned())
}

/// A path below a directory: an absolute `name` stands for itself, any other
/// follows the directory, behind a slash unless the directory is empty or ends
/// with one. Paths are written with slashes on every machine, and a `name` is
/// that of a file, which no drive belongs to.
pub open spec fn joined(directory: Seq<char>, name: Seq<char>) -> Seq<char> {
    if name.len() > 0 && name[0] == '/' {
        name
    } else if directory.len() == 0 || directory.last() == '/' {
        directory + name
    } else {
        directory + seq!['/'] + name
    }
}

/// The path of `name` below `directory`.
pub fn join(directory: &str, name: &str) -> (path: String)
    ensures
        path@ == joined(directory@, name@),
{
    if name.unicode_len() > 0 && name.get_char(0) == '/' {
        return name.to_owned();
    }
    let len: usize = directory.unicode_len();
    let mut path = directory.to_owned();
    if len > 0 && directory.get_char(len - 1) != '/' {
        path.append("/");
        proof {
            reveal_strlit("/");
        }
    }
    path.append(name);
    path
}

/// What [`file_name`] finds: the last component of a path, if it names a file or
/// a directory.
pub uninterp spec fn last_component(path: Seq<char>) -> Option<Seq<char>>;

/// The last component of a path. Calls `std::path::Path::file_name`, which gives
/// back a piece of the path, and `None` for a path that ends in `..` or is a
/// root. Trusted: that it is a piece, and that for a portable path the answer
/// depends on its text alone.
#[verifier::external_body]
pub(crate) fn file_name(path: &str) -> (name: Option<String>)
    ensures
        name matches Some(name) ==> piece_of(name@, path@),
        portable(path@) ==> name.deep_view() == last_component(path@),
{
    let name = std::path::Path::new(path).file_name()?;
    name.to_str().map(|text| text.to_owned())
}

/// What [`parent`] finds: a path without its last component.
pub uninterp spec fn parent_path(path: Seq<char>) -> Option<Seq<char>>;

/// A path without its last component. Calls `std::path::Path::parent`, which
/// gives back a piece of the path, and `None` for a path that is a root or empty.
/// Trusted: that it is a piece, and that for a portable path the answer depends
/// on its text alone.
#[verifier::external_body]
fn parent(path: &str) -> (directory: Option<String>)
    ensures
        directory matches Some(directory) ==> piece_of(directory@, path@),
        portable(path@) ==> directory.deep_view() == parent_path(path@),
{
    let directory = std::path::Path::new(path).parent()?;
    directory.to_str().map(|text| text.to_owned())
}

/// A path with its file name replaced; one without a file name gets one.
pub open spec fn sibling_path(
    path: Seq<char>,
    file_name: Option<Seq<char>>,
    parent: Option<Seq<char>>,
    name: Seq<char>,
) -> Seq<char> {
    match (file_name, parent) {
        (Some(_), Some(directory)) => joined(directory, name),
        _ => joined(path, name),
    }
}

/// A path with its file name, given with the directory that holds it, replaced.
pub fn replace_file_name(
    path: &str,
    file_name: Option<&str>,
    parent: Option<&str>,
    name: &str,
) -> (sibling: String)
    ensures
        sibling@ == sibling_path(path@, file_name.deep_view(), parent.deep_view(), name@),
{
    match (file_name, parent) {
        (Some(_), Some(directory)) => join(directory, name),
        _ => join(path, name),
    }
}

/// A path with its file name replaced.
pub fn with_file_name(path: &str, name: &str) -> (sibling: String)
    ensures
        portable(path@) ==> sibling@ == sibling_path(
            path@,
            last_component(path@),
            parent_path(path@),
            name@,
        ),
        exists|directory: Seq<char>|
            piece_of(directory, path@) && sibling@ == #[trigger] joined(directory, name@),
{
    let old_name = file_name(path);
    let directory = parent(path);
    let old_name = match &old_name {
        Some(old_name) => Some(old_name.as_str()),
        None => None,
    };
    let directory = match &directory {
        Some(directory) => Some(directory.as_str()),
        None => None,
    };
    proof {
        assert(path@.subrange(0, path@.len() as int) =~= path@);
        assert(piece_of(path@, path@));
    }
    replace_file_name(path, old_name, directory, name)
}

} // verus!
