//! The in-memory index: a concurrent ordered map from key to the
//! location of the key's most recent `Set` record.
//!
//! The map itself is `crossbeam_skiplist::SkipMap`; what it holds is
//! named by [`index_entries`], and each operation the store uses is a
//! thin wrapper whose contract states, over that name, what the skip
//! map's documentation promises.

use vstd::prelude::*;

use crossbeam_skiplist::SkipMap;

verus! {

/// The location of a serialized command in the log: the segment's
/// generation, the byte offset of the record, and its byte length.
#[derive(Clone, Copy, Debug, PartialEq, Eq, Structural)]
pub struct CommandPos {
    /// Generation of the segment holding the record.
    pub gen: u64,
    /// Byte offset of the record within the segment.
    pub pos: u64,
    /// Byte length of the record.
    pub len: u64,
}

#[verifier::external_type_specification]
#[verifier::external_body]
#[verifier::reject_recursive_types(K)]
#[verifier::reject_recursive_types(V)]
pub struct ExSkipMap<K, V>(SkipMap<K, V>);

/// What the index holds: the location bound to each present key.
pub uninterp spec fn index_entries(m: SkipMap<String, CommandPos>) -> Map<Seq<char>, CommandPos>;

/// Lexicographic order on character sequences; `String`'s `Ord` orders
/// strings this way (by scalar value, which UTF-8 byte order agrees
/// with).
pub open spec fn chars_lt(a: Seq<char>, b: Seq<char>) -> bool
    decreases a.len(),
{
    if b.len() == 0 {
        false
    } else if a.len() == 0 {
        true
    } else if a[0] == b[0] {
        chars_lt(a.drop_first(), b.drop_first())
    } else {
        (a[0] as u32) < (b[0] as u32)
    }
}

/// The empty index.
pub open spec fn empty_index() -> Map<Seq<char>, CommandPos> {
    Map::empty()
}

/// Relies on `SkipMap::new`: the new map is empty.
#[verifier::external_body]
pub(crate) fn index_new() -> (r: SkipMap<String, CommandPos>)
    ensures
        index_entries(r) == empty_index(),
{
    SkipMap::new()
}

/// Relies on `SkipMap::get`: returns the value bound to the key, or
/// `None` where the key is absent.
#[verifier::external_body]
pub(crate) fn index_get(m: &SkipMap<String, CommandPos>, key: &String) -> (r: Option<CommandPos>)
    ensures
        r == if index_entries(*m).contains_key(key@) {
            Some(index_entries(*m)[key@])
        } else {
            None::<CommandPos>
        },
{
    m.get(key).map(|e| *e.value())
}

/// Relies on `SkipMap::insert`: binds the key to the value, replacing
/// any previous binding.
#[verifier::external_body]
pub(crate) fn index_insert(m: &mut SkipMap<String, CommandPos>, key: String, val: CommandPos)
    ensures
        index_entries(*final(m)) == index_entries(*old(m)).insert(key@, val),
{
    m.insert(key, val);
}

/// Relies on `SkipMap::remove`: unbinds the key and returns what was
/// bound to it, or `None` where the key was absent.
#[verifier::external_body]
pub(crate) fn index_remove(m: &mut SkipMap<String, CommandPos>, key: &String) -> (r: Option<
    CommandPos,
>)
    ensures
        index_entries(*final(m)) == index_entries(*old(m)).remove(key@),
        r == if index_entries(*old(m)).contains_key(key@) {
            Some(index_entries(*old(m))[key@])
        } else {
            None::<CommandPos>
        },
{
    m.remove(key).map(|e| *e.value())
}

/// Relies on `SkipMap::iter`: yields each entry exactly once, in
/// ascending key order.
#[verifier::external_body]
pub(crate) fn index_to_vec(m: &SkipMap<String, CommandPos>) -> (r: Vec<(String, CommandPos)>)
    ensures
        forall|i: int|
            0 <= i < r@.len() ==> index_entries(*m).contains_key(#[trigger] r@[i].0@)
                && index_entries(*m)[r@[i].0@] == r@[i].1,
        forall|k: Seq<char>|
            index_entries(*m).contains_key(k) ==> exists|i: int|
                0 <= i < r@.len() && (#[trigger] r@[i].0@) == k,
        forall|i: int, j: int| 0 <= i < j < r@.len() ==> chars_lt(r@[i].0@, r@[j].0@),
        forall|i: int, j: int| 0 <= i < j < r@.len() ==> r@[i].0@ != r@[j].0@,
{
    let mut out = Vec::new();
    for entry in m.iter() {
        out.push((entry.key().clone(), *entry.value()));
    }
    out
}

} // verus!
