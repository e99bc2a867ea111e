use vstd::prelude::*;

use crate::strings::{contains_string, views};
use toml_edit::DocumentMut;

verus! {

/// Key of the workspace table in a manifest.
pub const WORKSPACE_KEY: &'static str = "workspace";

/// Key of the member list in the workspace table.
pub const MEMBERS_KEY: &'static str = "members";

/// Key of the excluded paths in the workspace table.
pub const EXCLUDE_KEY: &'static str = "exclude";

/// Key of the shared dependency table in the workspace table.
pub const DEPENDENCIES_KEY: &'static str = "dependencies";

/// How a top-level entry of a parsed TOML document is written.
pub enum EntryShape {
    Absent,
    Table,
    InlineTable,
    /// Anything other than a table: a plain value or an array of tables.
    Other,
}

/// A document the TOML parser refused.
#[verifier::external_type_specification]
#[verifier::external_body]
pub struct ExTomlError(toml_edit::TomlError);

/// Why a workspace manifest could not be rewritten.
pub enum ManifestError {
    Parse(toml_edit::TomlError),
    /// The `workspace` entry is not a table, so no members can be set in it.
    WorkspaceNotTable,
}

/// Whether `text` parses as a `toml_edit::DocumentMut`.
pub uninterp spec fn toml_parses(text: Seq<char>) -> bool;

/// Shape of the top-level entry `key` of the document `text`.
pub uninterp spec fn entry_shape(text: Seq<char>, key: Seq<char>) -> EntryShape;

/// `text` parsed by `toml_edit` and written back out.
pub uninterp spec fn rendered_toml(text: Seq<char>) -> Seq<char>;

/// `text` with `table.key` set to the array of strings `values`, written back
/// out.
pub uninterp spec fn with_array_entry(text: Seq<char>, table: Seq<char>, key: Seq<char>, values: Seq<Seq<char>>) -> Seq<char>;

/// `text` with `key` removed from the top-level table `table`, written back
/// out.
pub uninterp spec fn without_table_key(text: Seq<char>, table: Seq<char>, key: Seq<char>) -> Seq<char>;

/// Keys of the table `table.sub` of `text`, in document order (none when
/// there is no such table).
pub uninterp spec fn subtable_key_list(text: Seq<char>, table: Seq<char>, sub: Seq<char>) -> Seq<Seq<char>>;

/// `text` with `key` removed from the table `table.sub`, written back out.
pub uninterp spec fn without_subtable_key(text: Seq<char>, table: Seq<char>, sub: Seq<char>, key: Seq<char>) -> Seq<char>;

/// Parses `text` as a `DocumentMut` and tells how its top-level entry `key`
/// is written (`Table::get`, then the `Item` variant): an error exactly when
/// the text does not parse. Which texts parse is not stated.
#[verifier::external_body]
fn toml_entry_shape(text: &str, key: &str) -> (shape: Result<EntryShape, toml_edit::TomlError>)
    ensures
        match shape {
            Ok(s) => toml_parses(text@) && entry_shape(text@, key@) == s,
            Err(_) => !toml_parses(text@),
        },
{
    let doc = text.parse::<DocumentMut>()?;
    Ok(match doc.get(key) {
        None => EntryShape::Absent,
        Some(toml_edit::Item::Table(_)) => EntryShape::Table,
        Some(toml_edit::Item::Value(toml_edit::Value::InlineTable(_))) => EntryShape::InlineTable,
        Some(_) => EntryShape::Other,
    })
}

/// Parses `text` and writes the document back out (`DocumentMut`'s
/// `Display`): the text `rendered_toml` names, or an error exactly when the
/// text does not parse.
#[verifier::external_body]
fn render_toml(text: &str) -> (out: Result<String, toml_edit::TomlError>)
    ensures
        match out {
            Ok(o) => toml_parses(text@) && o@ == rendered_toml(text@),
            Err(_) => !toml_parses(text@),
        },
{
    Ok(text.parse::<DocumentMut>()?.to_string())
}

/// Parses `text`, sets `table.key` to an array of `values` (indexing, then
/// assigning `toml_edit::value`), and writes the document back out: the text
/// `with_array_entry` names, or an error exactly when `text` does not parse.
/// Indexing panics on an entry that is neither absent nor a table, which
/// `requires` leaves out.
#[verifier::external_body]
fn set_array_entry(text: &str, table: &str, key: &str, values: &Vec<String>) -> (out: Result<String, toml_edit::TomlError>)
    requires
        toml_parses(text@) ==> entry_shape(text@, table@) != EntryShape::Other,
    ensures
        match out {
            Ok(o) => toml_parses(text@) && o@ == with_array_entry(text@, table@, key@, views(values@)),
            Err(_) => !toml_parses(text@),
        },
{
    let mut doc = text.parse::<DocumentMut>()?;
    doc[table][key] = toml_edit::value(values.iter().map(|v| v.as_str()).collect::<toml_edit::Array>());
    Ok(doc.to_string())
}

/// Parses `text`, removes `key` from the top-level entry `table` when that
/// entry is a table (`Table::remove`), and writes the document back out: the
/// text `without_table_key` names, or an error exactly when `text` does not
/// parse. What the removal does to the shape of the document is not stated.
#[verifier::external_body]
fn remove_table_key(text: &str, table: &str, key: &str) -> (out: Result<String, toml_edit::TomlError>)
    ensures
        match out {
            Ok(o) => toml_parses(text@) && o@ == without_table_key(text@, table@, key@),
            Err(_) => !toml_parses(text@),
        },
{
    let mut doc = text.parse::<DocumentMut>()?;
    doc.get_mut(table).and_then(|t| t.as_table_mut()).map(|t| t.remove(key));
    Ok(doc.to_string())
}

/// Parses `text` and lists the keys of `table.sub` (`TableLike::iter`), none
/// when either is absent or not table-like: the list `subtable_key_list`
/// names, or an error exactly when `text` does not parse.
#[verifier::external_body]
fn subtable_keys(text: &str, table: &str, sub: &str) -> (keys: Result<Vec<String>, toml_edit::TomlError>)
    ensures
        match keys {
            Ok(k) => toml_parses(text@) && views(k@) == subtable_key_list(text@, table@, sub@),
            Err(_) => !toml_parses(text@),
        },
{
    let doc = text.parse::<DocumentMut>()?;
    let t = doc.get(table).and_then(|w| w.as_table_like()).and_then(|w| w.get(sub)).and_then(|d| d.as_table_like());
    Ok(t.map(|t| t.iter().map(|(k, _)| k.to_owned()).collect()).unwrap_or_default())
}

/// Parses `text`, removes `key` from `table.sub` when both are table-like
/// (`TableLike::remove`), and writes the document back out: the text
/// `without_subtable_key` names, or an error exactly when `text` does not
/// parse. What the removal does to the shape of the document is not stated.
#[verifier::external_body]
fn remove_subtable_key(text: &str, table: &str, sub: &str, key: &str) -> (out: Result<String, toml_edit::TomlError>)
    ensures
        match out {
            Ok(o) => toml_parses(text@) && o@ == without_subtable_key(text@, table@, sub@, key@),
            Err(_) => !toml_parses(text@),
        },
{
    let mut doc = text.parse::<DocumentMut>()?;
    let w = doc.get_mut(table).and_then(|w| w.as_table_like_mut());
    w.and_then(|w| w.get_mut(sub)).and_then(|d| d.as_table_like_mut()).map(|d| d.remove(key));
    Ok(doc.to_string())
}

/// The keys of `keys` that `keep` does not hold, in order.
pub open spec fn dropped_keys(keys: Seq<Seq<char>>, keep: Set<Seq<char>>) -> Seq<Seq<char>>
    decreases keys.len(),
{
    if keys.len() == 0 {
        seq![]
    } else {
        let rest = dropped_keys(keys.drop_last(), keep);
        if keep.contains(keys.last()) {
            rest
        } else {
            rest.push(keys.last())
        }
    }
}

/// Pruning removes exactly the workspace dependencies that `keep` does not
/// name: a kept key is never removed, and every other key is.
pub proof fn law_dropped_keys(keys: Seq<Seq<char>>, keep: Set<Seq<char>>)
    ensures
        forall|k: Seq<char>| #[trigger] dropped_keys(keys, keep).contains(k) <==> keys.contains(k) && !keep.contains(k),
    decreases keys.len(),
{
    if keys.len() > 0 {
        let rest = keys.drop_last();
        law_dropped_keys(rest, keep);
        let d = dropped_keys(keys, keep);
        let dr = dropped_keys(rest, keep);
        assert forall|k: Seq<char>| #[trigger] d.contains(k) <==> keys.contains(k) && !keep.contains(k) by {
            if d.contains(k) {
                let i = choose|i: int| 0 <= i < d.len() && d[i] == k;
                if i < dr.len() {
                    assert(dr[i] == k);
                    assert(dr.contains(k));
                    let j = choose|j: int| 0 <= j < rest.len() && rest[j] == k;
                    assert(keys[j] == k);
                } else {
                    assert(k == keys.last());
                }
            }
            if keys.contains(k) && !keep.contains(k) {
                let j = choose|j: int| 0 <= j < keys.len() && keys[j] == k;
                if j < rest.len() {
                    assert(rest[j] == k);
                    assert(rest.contains(k));
                    assert(dr.contains(k));
                    let i = choose|i: int| 0 <= i < dr.len() && dr[i] == k;
                    assert(d[i] == k);
                } else {
                    assert(d[d.len() - 1] == k);
                }
            }
        }
    }
}

/// `text` with the workspace dependencies `names` removed one after another,
/// or `None` as soon as a text on the way does not parse.
pub open spec fn without_dependencies(text: Seq<char>, names: Seq<Seq<char>>) -> Option<Seq<char>>
    decreases names.len(),
{
    if names.len() == 0 {
        Some(text)
    } else {
        match without_dependencies(text, names.drop_last()) {
            None => None,
            Some(t) => if toml_parses(t) {
                Some(without_subtable_key(t, WORKSPACE_KEY@, DEPENDENCIES_KEY@, names.last()))
            } else {
                None
            },
        }
    }
}

/// `text` with the workspace dependencies that `keep` does not hold removed,
/// or `None` when a text on the way does not parse.
pub open spec fn pruned_dependencies(text: Seq<char>, keep: Set<Seq<char>>) -> Option<Seq<char>> {
    if toml_parses(text) {
        without_dependencies(
            text,
            dropped_keys(subtable_key_list(text, WORKSPACE_KEY@, DEPENDENCIES_KEY@), keep),
        )
    } else {
        None
    }
}

/// The workspace manifest of the minimal workspace: the members set to
/// `paths`, `exclude` dropped from a `[workspace]` table, and the workspace
/// dependencies that `keep` does not name removed. A manifest without a
/// workspace is only written back out. `None` when the text, or a text on the
/// way, does not parse, or when `workspace` is not a table.
pub open spec fn rewritten_manifest(text: Seq<char>, paths: Seq<Seq<char>>, keep: Set<Seq<char>>) -> Option<
    Seq<char>,
> {
    if !toml_parses(text) {
        None
    } else {
        match entry_shape(text, WORKSPACE_KEY@) {
            EntryShape::Absent => Some(rendered_toml(text)),
            EntryShape::Other => None,
            EntryShape::Table => {
                let with_members = with_array_entry(text, WORKSPACE_KEY@, MEMBERS_KEY@, paths);
                if toml_parses(with_members) {
                    pruned_dependencies(without_table_key(with_members, WORKSPACE_KEY@, EXCLUDE_KEY@), keep)
                } else {
                    None
                }
            },
            EntryShape::InlineTable => pruned_dependencies(
                with_array_entry(text, WORKSPACE_KEY@, MEMBERS_KEY@, paths),
                keep,
            ),
        }
    }
}

/// Once a removal on the way fails, removing more names fails too.
proof fn lemma_failure_persists(text: Seq<char>, names: Seq<Seq<char>>, k: int)
    requires
        0 <= k <= names.len(),
        without_dependencies(text, names.take(k)) is None,
    ensures
        without_dependencies(text, names) is None,
    decreases names.len(),
{
    if k < names.len() {
        assert(names.take(k) =~= names.drop_last().take(k));
        lemma_failure_persists(text, names.drop_last(), k);
    } else {
        assert(names.take(k) =~= names);
    }
}

/// The keys of `keys` that `keep` does not name, in order.
fn keys_to_drop(keys: &Vec<String>, keep: &Vec<String>) -> (dropped: Vec<String>)
    ensures
        views(dropped@) == dropped_keys(views(keys@), views(keep@).to_set()),
{
    let ghost keep_set = views(keep@).to_set();
    let mut dropped: Vec<String> = Vec::new();
    let mut i: usize = 0;
    while i < keys.len()
        invariant
            i <= keys.len(),
            keep_set == views(keep@).to_set(),
            views(dropped@) == dropped_keys(views(keys@).take(i as int), keep_set),
        decreases keys.len() - i,
    {
        let ghost prev = views(keys@).take(i as int);
        let ghost next = views(keys@).take(i + 1);
        assert(next.drop_last() =~= prev);
        assert(next.last() == keys@[i as int]@);
        let ghost before = dropped@;
        if !contains_string(keep, &keys[i]) {
            assert(!keep_set.contains(keys@[i as int]@));
            dropped.push(keys[i].clone());
            assert(views(dropped@) =~= views(before).push(keys@[i as int]@));
        } else {
            assert(keep_set.contains(keys@[i as int]@));
        }
        i += 1;
    }
    assert(views(keys@).take(keys.len() as int) =~= views(keys@));
    dropped
}

/// Removes from `text` the workspace dependencies that `keep` does not name.
fn prune_dependencies(text: String, keep: &Vec<String>) -> (res: Result<String, toml_edit::TomlError>)
    ensures
        match res {
            Ok(out) => pruned_dependencies(text@, views(keep@).to_set()) == Some(out@),
            Err(_) => pruned_dependencies(text@, views(keep@).to_set()) is None,
        },
{
    let keys = match subtable_keys(text.as_str(), WORKSPACE_KEY, DEPENDENCIES_KEY) {
        Ok(k) => k,
        Err(e) => {
            return Err(e);
        },
    };
    let dropped = keys_to_drop(&keys, keep);
    let ghost names = views(dropped@);
    let ghost start = text@;
    let mut out = text;
    assert(names.take(0) =~= Seq::<Seq<char>>::empty());
    let mut j: usize = 0;
    while j < dropped.len()
        invariant
            j <= dropped.len(),
            names == views(dropped@),
            toml_parses(start),
            start == text@,
            names == dropped_keys(subtable_key_list(start, WORKSPACE_KEY@, DEPENDENCIES_KEY@), views(keep@).to_set()),
            without_dependencies(start, names.take(j as int)) == Some(out@),
        decreases dropped.len() - j,
    {
        let ghost prev = names.take(j as int);
        let ghost next = names.take(j + 1);
        assert(next.drop_last() =~= prev);
        assert(next.last() == dropped@[j as int]@);
        match remove_subtable_key(out.as_str(), WORKSPACE_KEY, DEPENDENCIES_KEY, dropped[j].as_str()) {
            Ok(o) => {
                out = o;
            },
            Err(e) => {
                proof {
                    assert(without_dependencies(start, prev) == Some(out@));
                    assert(!toml_parses(out@));
                    assert(without_dependencies(start, next) is None);
                    lemma_failure_persists(start, names, j + 1);
                    assert(without_dependencies(start, names) is None);
                }
                return Err(e);
            },
        }
        j += 1;
    }
    assert(names.take(dropped.len() as int) =~= names);
    Ok(out)
}

/// Rewrites the workspace manifest `text` for the minimal workspace; `paths`
/// are the member directories and `keep` the workspace dependencies to
/// keep.
pub fn rewrite_workspace_manifest(text: &String, paths: &Vec<String>, keep: &Vec<String>) -> (res: Result<
    String,
    ManifestError,
>)
    ensures
        match res {
            Ok(out) => rewritten_manifest(text@, views(paths@), views(keep@).to_set()) == Some(out@),
            Err(ManifestError::Parse(_)) => {
                &&& rewritten_manifest(text@, views(paths@), views(keep@).to_set()) is None
                &&& !(toml_parses(text@) && entry_shape(text@, WORKSPACE_KEY@) == EntryShape::Other)
            },
            Err(ManifestError::WorkspaceNotTable) => toml_parses(text@) && entry_shape(text@, WORKSPACE_KEY@)
                == EntryShape::Other,
        },
{
    let shape = match toml_entry_shape(text.as_str(), WORKSPACE_KEY) {
        Ok(s) => s,
        Err(e) => {
            return Err(ManifestError::Parse(e));
        },
    };
    match shape {
        EntryShape::Absent => match render_toml(text.as_str()) {
            Ok(out) => Ok(out),
            Err(e) => Err(ManifestError::Parse(e)),
        },
        EntryShape::Other => Err(ManifestError::WorkspaceNotTable),
        EntryShape::Table => {
            let with_members = match set_array_entry(text.as_str(), WORKSPACE_KEY, MEMBERS_KEY, paths) {
                Ok(t) => t,
                Err(e) => {
                    return Err(ManifestError::Parse(e));
                },
            };
            let trimmed = match remove_table_key(with_members.as_str(), WORKSPACE_KEY, EXCLUDE_KEY) {
                Ok(t) => t,
                Err(e) => {
                    return Err(ManifestError::Parse(e));
                },
            };
            match prune_dependencies(trimmed, keep) {
                Ok(out) => Ok(out),
                Err(e) => Err(ManifestError::Parse(e)),
            }
        },
        EntryShape::InlineTable => {
            let with_members = match set_array_entry(text.as_str(), WORKSPACE_KEY, MEMBERS_KEY, paths) {
                Ok(t) => t,
                Err(e) => {
                    return Err(ManifestError::Parse(e));
                },
            };
            match prune_dependencies(with_members, keep) {
                Ok(out) => Ok(out),
                Err(e) => Err(ManifestError::Parse(e)),
            }
        },
    }
}

} // verus!
