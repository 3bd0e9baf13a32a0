//! Hash tables backed by fxhash's `FxHashMap` (std's `HashMap` with the
//! Fx hasher). Each table is held in an opaque struct; its contents are
//! named by an uninterpreted view, and the wrapped operations state over
//! that view what std's `HashMap` documents: a map from keys to values,
//! where `String` keys are equal exactly when their characters are.

use vstd::prelude::*;

verus! {

/// Lookup table from an element name to its id.
#[verifier::external_body]
pub struct NameTable {
    map: fxhash::FxHashMap<String, usize>,
}

/// The contents of a `NameTable`: the name's characters mapped to the id.
pub uninterp spec fn name_table_view(t: NameTable) -> Map<Seq<char>, usize>;

/// Relies on fxhash's FxHashMap::default to allocate a table; nothing is
/// assumed of the fresh value (see `name_table_clear`).
#[verifier::external_body]
fn name_table_alloc() -> NameTable {
    NameTable { map: fxhash::FxHashMap::default() }
}

/// Relies on HashMap::clear: afterwards the map holds no entry.
#[verifier::external_body]
pub fn name_table_clear(t: &mut NameTable)
    ensures
        name_table_view(*final(t)) == name_table_view(*old(t)).remove_keys(
            name_table_view(*old(t)).dom(),
        ),
{
    t.map.clear();
}

/// A table with no entries.
pub fn name_table_new() -> (t: NameTable)
    ensures
        name_table_view(t) == Map::<Seq<char>, usize>::empty(),
{
    let mut t = name_table_alloc();
    name_table_clear(&mut t);
    proof {
        assert(name_table_view(t) =~= Map::<Seq<char>, usize>::empty());
    }
    t
}

/// Relies on HashMap::insert: the map afterwards holds the old entries and
/// the new one, the new binding winning on an equal key.
#[verifier::external_body]
pub fn name_table_insert(t: &mut NameTable, name: &str, id: usize)
    ensures
        name_table_view(*final(t)) == name_table_view(*old(t)).insert(name@, id),
{
    t.map.insert(name.to_owned(), id);
}

/// Relies on HashMap::get: returns the value bound to the key, if any.
#[verifier::external_body]
pub fn name_table_get(t: &NameTable, name: &str) -> (r: Option<usize>)
    ensures
        match r {
            Some(id) => name_table_view(*t).contains_key(name@) && name_table_view(*t)[name@]
                == id,
            None => !name_table_view(*t).contains_key(name@),
        },
{
    t.map.get(name).copied()
}

/// Registry from (element id, key text) to the instance key allocated for it.
#[verifier::external_body]
pub struct KeyTable {
    map: fxhash::FxHashMap<(usize, String), usize>,
}

/// The contents of a `KeyTable`: (element id, key text characters) mapped
/// to the allocated instance key.
pub uninterp spec fn key_table_view(t: KeyTable) -> Map<(usize, Seq<char>), usize>;

/// Relies on fxhash's FxHashMap::default to allocate a table; nothing is
/// assumed of the fresh value (see `key_table_clear`).
#[verifier::external_body]
fn key_table_alloc() -> KeyTable {
    KeyTable { map: fxhash::FxHashMap::default() }
}

/// Relies on HashMap::clear: afterwards the map holds no entry.
#[verifier::external_body]
pub fn key_table_clear(t: &mut KeyTable)
    ensures
        key_table_view(*final(t)) == key_table_view(*old(t)).remove_keys(
            key_table_view(*old(t)).dom(),
        ),
{
    t.map.clear();
}

/// A table with no entries.
pub fn key_table_new() -> (t: KeyTable)
    ensures
        key_table_view(t) == Map::<(usize, Seq<char>), usize>::empty(),
{
    let mut t = key_table_alloc();
    key_table_clear(&mut t);
    proof {
        assert(key_table_view(t) =~= Map::<(usize, Seq<char>), usize>::empty());
    }
    t
}

/// Relies on HashMap::insert: the map afterwards holds the old entries and
/// the new one, the new binding winning on an equal key.
#[verifier::external_body]
pub fn key_table_insert(t: &mut KeyTable, elem: usize, txt: &str, key: usize)
    ensures
        key_table_view(*final(t)) == key_table_view(*old(t)).insert((elem, txt@), key),
{
    t.map.insert((elem, txt.to_owned()), key);
}

/// Relies on HashMap::get: returns the value bound to the key, if any.
#[verifier::external_body]
pub fn key_table_get(t: &KeyTable, elem: usize, txt: &str) -> (r: Option<usize>)
    ensures
        match r {
            Some(k) => key_table_view(*t).contains_key((elem, txt@)) && key_table_view(*t)[
                (elem, txt@)
            ] == k,
            None => !key_table_view(*t).contains_key((elem, txt@)),
        },
{
    t.map.get(&(elem, txt.to_owned())).copied()
}

/// Store of attribute strings, addressed by (element id, instance key).
#[verifier::external_body]
pub struct AttrTable {
    map: fxhash::FxHashMap<(usize, usize), String>,
}

/// The contents of an `AttrTable`: (element id, instance key) mapped to
/// the characters of the attribute string stored for that instance.
pub uninterp spec fn attr_table_view(t: AttrTable) -> Map<(usize, usize), Seq<char>>;

/// Relies on fxhash's FxHashMap::default to allocate a table; nothing is
/// assumed of the fresh value (see `attr_table_clear`).
#[verifier::external_body]
fn attr_table_alloc() -> AttrTable {
    AttrTable { map: fxhash::FxHashMap::default() }
}

/// Relies on HashMap::clear: afterwards the map holds no entry.
#[verifier::external_body]
pub fn attr_table_clear(t: &mut AttrTable)
    ensures
        attr_table_view(*final(t)) == attr_table_view(*old(t)).remove_keys(
            attr_table_view(*old(t)).dom(),
        ),
{
    t.map.clear();
}

/// A table with no entries.
pub fn attr_table_new() -> (t: AttrTable)
    ensures
        attr_table_view(t) == Map::<(usize, usize), Seq<char>>::empty(),
{
    let mut t = attr_table_alloc();
    attr_table_clear(&mut t);
    proof {
        assert(attr_table_view(t) =~= Map::<(usize, usize), Seq<char>>::empty());
    }
    t
}

/// Relies on HashMap::insert: the map afterwards holds the old entries and
/// the new one, the new binding winning on an equal key.
#[verifier::external_body]
pub fn attr_table_insert(t: &mut AttrTable, elem: usize, key: usize, s: String)
    ensures
        attr_table_view(*final(t)) == attr_table_view(*old(t)).insert((elem, key), s@),
{
    t.map.insert((elem, key), s);
}

/// Relies on HashMap::get: returns the value bound to the key, if any;
/// the value is handed back as a copy of its characters.
#[verifier::external_body]
pub fn attr_table_get(t: &AttrTable, elem: usize, key: usize) -> (r: Option<String>)
    ensures
        match r {
            Some(s) => attr_table_view(*t).contains_key((elem, key)) && attr_table_view(*t)[
                (elem, key)
            ] == s@,
            None => !attr_table_view(*t).contains_key((elem, key)),
        },
{
    t.map.get(&(elem, key)).cloned()
}

} // verus!
