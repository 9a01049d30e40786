//! What the reflection database knows of classes and their properties.

use vstd::prelude::*;

verus! {

/// How scripts can access a property.
#[derive(Debug, Clone, Copy, PartialEq, Eq, Structural)]
pub enum Scriptability {
    /// Not at all.
    Inaccessible,
    ReadWrite,
    Read,
    Write,
    Custom,
    Other,
}

impl DeepView for Scriptability {
    type V = Scriptability;

    open spec fn deep_view(&self) -> Scriptability {
        *self
    }
}

/// The superclass that the database gives for a class, if it has one; `None`
/// for a class that is not in the database.
pub uninterp spec fn superclass_of(class: Seq<char>) -> Option<Option<Seq<char>>>;

/// Whether the database gives a default value for a property in the entry of a
/// class itself.
pub uninterp spec fn own_default(class: Seq<char>, property: Seq<char>) -> bool;

/// How scripts can access a property that stands in the entry of a class
/// itself.
pub uninterp spec fn scriptability_of(class: Seq<char>, property: Seq<char>) -> Option<
    Scriptability,
>;

/// The field `superclass` of the entry of a class in the database that
/// `rbx_reflection_database::get` returns. The database is part of that crate,
/// so the same class gives the same answer everywhere.
#[verifier::external_body]
pub(crate) fn superclass(class: &str) -> (superclass: Option<Option<String>>)
    ensures
        superclass.deep_view() == superclass_of(class@),
{
    let entry = rbx_reflection_database::get().classes.get(class)?;
    Some(entry.superclass.as_ref().map(|name| name.to_string()))
}

/// Whether the field `default_properties` of the entry of a class, in the
/// database that `rbx_reflection_database::get` returns, holds a property.
#[verifier::external_body]
pub(crate) fn has_own_default(class: &str, property: &str) -> (yes: bool)
    ensures
        yes == own_default(class@, property@),
{
    let entry = rbx_reflection_database::get().classes.get(class);
    entry.is_some_and(|entry| entry.default_properties.contains_key(property))
}

/// The field `scriptability` of a property in the entry of a class, in the
/// database that `rbx_reflection_database::get` returns.
#[verifier::external_body]
pub(crate) fn scriptability(class: &str, property: &str) -> (access: Option<Scriptability>)
    ensures
        access == scriptability_of(class@, property@),
{
    let entry = rbx_reflection_database::get().classes.get(class)?;
    Some(match entry.properties.get(property)?.scriptability {
        rbx_reflection::Scriptability::None => Scriptability::Inaccessible,
        rbx_reflection::Scriptability::ReadWrite => Scriptability::ReadWrite,
        rbx_reflection::Scriptability::Read => Scriptability::Read,
        rbx_reflection::Scriptability::Write => Scriptability::Write,
        rbx_reflection::Scriptability::Custom => Scriptability::Custom,
        _ => Scriptability::Other,
    })
}

/// `rbx_reflection::ReflectionDatabase::find_default_property`, on the database
/// that `rbx_reflection_database::get` returns, finds a default value exactly if
/// the entry of the class or of one of its superclasses holds one. It panics
/// where a superclass has no entry, so it is called only on a class all of whose
/// superclasses have one.
#[verifier::external_body]
fn find_default_property(class: &str, property: &str) -> (found: bool)
    requires
        lineage(class@, usize::MAX as nat) is Some,
    ensures
        found == holds_default(lineage(class@, usize::MAX as nat)->0, property@),
{
    let database = rbx_reflection_database::get();
    let entry = database.classes.get(class);
    entry.is_some_and(|entry| database.find_default_property(entry, property).is_some())
}

/// A class and its superclasses, from the class itself up, as long as there are
/// no more than `most`; `None` where one of them is not in the database.
pub open spec fn lineage(class: Seq<char>, most: nat) -> Option<Seq<Seq<char>>>
    decreases most,
{
    if most == 0 {
        None
    } else {
        match superclass_of(class) {
            None => None,
            Some(None) => Some(seq![class]),
            Some(Some(above)) => match lineage(above, (most - 1) as nat) {
                Some(rest) => Some(seq![class] + rest),
                None => None,
            },
        }
    }
}

/// A class and the superclasses that the database gives for it, from the class
/// itself up, as long as there are no more than `most`. The list ends with the
/// first class that has no superclass or is not in the database.
pub open spec fn ancestry(class: Seq<char>, most: nat) -> Seq<Seq<char>>
    decreases most,
{
    if most == 0 {
        Seq::empty()
    } else {
        seq![class] + match superclass_of(class) {
            Some(Some(above)) => ancestry(above, (most - 1) as nat),
            _ => Seq::empty(),
        }
    }
}

/// Whether the entry of one of some classes holds a default value.
pub open spec fn holds_default(classes: Seq<Seq<char>>, property: Seq<char>) -> bool {
    exists|i: int| 0 <= i < classes.len() && own_default(#[trigger] classes[i], property)
}

/// Whether the database gives a default value for a property of a class that
/// contains or inherits it.
pub open spec fn default_known(class: Seq<char>, property: Seq<char>) -> bool {
    match lineage(class, usize::MAX as nat) {
        Some(classes) => holds_default(classes, property),
        None => false,
    }
}

/// A class and its superclasses, from the class itself up.
pub fn superclasses(class: &str) -> (list: Option<Vec<String>>)
    ensures
        list.deep_view() == lineage(class@, usize::MAX as nat),
{
    let mut list: Vec<String> = Vec::new();
    let mut current = class.to_owned();
    let mut left: usize = usize::MAX;
    while left > 0
        invariant
            lineage(class@, usize::MAX as nat) == match lineage(current@, left as nat) {
                Some(rest) => Some(list.deep_view() + rest),
                None => None,
            },
        decreases left,
    {
        let above = superclass(current.as_str());
        match above {
            None => {
                return None;
            },
            Some(None) => {
                list.push(current);
                return Some(list);
            },
            Some(Some(next)) => {
                list.push(current);
                current = next;
            },
        }
        left -= 1;
    }
    None
}

/// A class and the superclasses that the database gives for it, from the class
/// itself up.
pub fn ancestors(class: &str) -> (list: Vec<String>)
    ensures
        list.deep_view() == ancestry(class@, usize::MAX as nat),
{
    let mut list: Vec<String> = Vec::new();
    let mut current = class.to_owned();
    let mut left: usize = usize::MAX;
    assert(list.deep_view() + ancestry(current@, left as nat) =~= ancestry(
        class@,
        usize::MAX as nat,
    ));
    while left > 0
        invariant_except_break
            ancestry(class@, usize::MAX as nat) == list.deep_view() + ancestry(
                current@,
                left as nat,
            ),
        ensures
            list.deep_view() == ancestry(class@, usize::MAX as nat),
        decreases left,
    {
        let above = superclass(current.as_str());
        let ghost before = list.deep_view();
        let ghost name = current@;
        let ghost all = ancestry(name, left as nat);
        list.push(current);
        assert(list.deep_view() =~= before + seq![name]);
        match above {
            Some(Some(next)) => {
                current = next;
            },
            _ => {
                assert(all =~= seq![name]);
                break;
            },
        }
        left -= 1;
        assert(before + all =~= list.deep_view() + ancestry(current@, left as nat));
    }
    list
}

/// Whether the database gives a default value for a property of a class that
/// contains or inherits it.
pub fn has_default(class: &str, property: &str) -> (yes: bool)
    ensures
        yes == default_known(class@, property@),
{
    match superclasses(class) {
        Some(_) => find_default_property(class, property),
        None => false,
    }
}

} // verus!
