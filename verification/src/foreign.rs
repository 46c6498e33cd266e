//! The calls this crate makes into other crates, each with the contract the
//! verified code relies on.

use vstd::prelude::*;
use vstd::utf8::{decode_utf8, valid_utf8};

use crate::recipe::{HydratedRecipeModel, HydratedRecipeVersion};

verus! {

/// The lowercase hexadecimal SHA-256 digest that `sha256::digest` returns for `data`.
pub uninterp spec fn sha256_hex(data: Seq<u8>) -> Seq<char>;

/// A lowercase hexadecimal digit.
pub open spec fn is_lower_hex_digit(c: char) -> bool {
    ('0' <= c && c <= '9') || ('a' <= c && c <= 'f')
}

/// Calls `sha256::digest` on a byte slice. The crate hashes the bytes with
/// SHA-256 and hex-encodes the 32-byte digest with `hex::encode`, so the
/// result is 64 lowercase hexadecimal digits. Which digits they are is
/// only named here, not stated.
#[verifier::external_body]
pub(crate) fn sha256_digest(data: &[u8]) -> (res: String)
    ensures
        res@ == sha256_hex(data@),
        res@.len() == 64,
        forall|i: int| 0 <= i < 64 ==> is_lower_hex_digit(#[trigger] res@[i]),
{
    sha256::digest(data)
}

/// Calls `String::from_utf8`, which succeeds exactly on well-formed UTF-8 and
/// then holds the characters that the bytes encode.
#[verifier::external_body]
pub(crate) fn string_from_utf8(bytes: Vec<u8>) -> (res: Option<String>)
    ensures
        res is Some <==> valid_utf8(bytes@),
        res matches Some(s) ==> s@ == decode_utf8(bytes@),
{
    String::from_utf8(bytes).ok()
}

/// Calls `std::str::from_utf8` and tells whether it succeeded, which it does
/// exactly on well-formed UTF-8.
#[verifier::external_body]
pub(crate) fn bytes_are_utf8(bytes: &[u8]) -> (res: bool)
    ensures
        res == valid_utf8(bytes@),
{
    std::str::from_utf8(bytes).is_ok()
}

#[verifier::external_type_specification]
#[verifier::external_body]
#[verifier::reject_recursive_types(K)]
#[verifier::reject_recursive_types(V)]
#[verifier::reject_recursive_types(H)]
pub struct ExLockfreeMap<K, V, H>(lockfree::map::Map<K, V, H>);

#[verifier::external_type_specification]
#[verifier::external_body]
#[verifier::reject_recursive_types(T)]
#[verifier::reject_recursive_types(H)]
pub struct ExLockfreeSet<T, H>(lockfree::set::Set<T, H>);

#[verifier::external_type_specification]
#[verifier::external_body]
pub struct ExSledDb(sled::Db);

#[verifier::external_type_specification]
#[verifier::external_body]
pub struct ExSledError(sled::Error);

/// A concurrent map from hash texts to recipes.
pub type RecipeMap = lockfree::map::Map<String, HydratedRecipeVersion>;

/// A concurrent map from strings to strings.
pub type StringMap = lockfree::map::Map<String, String>;

/// What a `lockfree::map::Map` from hashes to recipes holds: each key's text
/// and the deep view of its recipe.
pub uninterp spec fn recipe_map_contents(
    m: RecipeMap,
) -> Map<Seq<char>, HydratedRecipeModel>;

/// What a `lockfree::map::Map` from strings to strings holds.
pub uninterp spec fn string_map_contents(m: StringMap) -> Map<
    Seq<char>,
    Seq<char>,
>;

/// What a `sled::Db` holds: its keys and values as bytes. The name stands for
/// the tree as this handle sees it; the store that owns the handle is the
/// only writer, so what it reads is what it and earlier runs wrote.
pub uninterp spec fn sled_contents(db: sled::Db) -> Map<Seq<u8>, Seq<u8>>;

/// Calls `lockfree::map::Map::new`, which makes an empty map.
#[verifier::external_body]
pub(crate) fn recipe_map_new() -> (res: RecipeMap)
    ensures
        recipe_map_contents(res).is_empty(),
{
    lockfree::map::Map::new()
}

/// Calls `lockfree::map::Map::get` and copies the value found: the entry
/// stored under a key equal to `key`, if there is one.
#[verifier::external_body]
pub(crate) fn recipe_map_get(
    m: &RecipeMap,
    key: &str,
) -> (res: Option<HydratedRecipeVersion>)
    ensures
        match res {
            Some(v) => recipe_map_contents(*m).contains_key(key@) && v.deep_view()
                == recipe_map_contents(*m)[key@],
            None => !recipe_map_contents(*m).contains_key(key@),
        },
{
    match m.get(key) {
        Some(guard) => Some(guard.val().clone()),
        None => None,
    }
}

/// Calls `lockfree::map::Map::insert`, which stores `value` under `key`,
/// replacing what was stored under it.
#[verifier::external_body]
pub(crate) fn recipe_map_insert(
    m: &mut RecipeMap,
    key: String,
    value: HydratedRecipeVersion,
)
    ensures
        recipe_map_contents(*final(m)) == recipe_map_contents(*old(m)).insert(
            key@,
            value.deep_view(),
        ),
{
    m.insert(key, value);
}

/// Calls `lockfree::map::Map::new`, which makes an empty map.
#[verifier::external_body]
pub(crate) fn string_map_new() -> (res: StringMap)
    ensures
        string_map_contents(res).is_empty(),
{
    lockfree::map::Map::new()
}

/// Calls `lockfree::map::Map::get` and copies the value found: the entry
/// stored under a key equal to `key`, if there is one.
#[verifier::external_body]
pub(crate) fn string_map_get(m: &StringMap, key: &str) -> (res: Option<
    String,
>)
    ensures
        match res {
            Some(v) => string_map_contents(*m).contains_key(key@) && v@ == string_map_contents(
                *m,
            )[key@],
            None => !string_map_contents(*m).contains_key(key@),
        },
{
    match m.get(key) {
        Some(guard) => Some(guard.val().clone()),
        None => None,
    }
}

/// Calls `lockfree::map::Map::insert`, which stores `value` under `key`,
/// replacing what was stored under it.
#[verifier::external_body]
pub(crate) fn string_map_insert(m: &mut StringMap, key: String, value: String)
    ensures
        string_map_contents(*final(m)) == string_map_contents(*old(m)).insert(key@, value@),
{
    m.insert(key, value);
}

/// Calls `sled::Tree::get` (through `sled::Db`): when the read succeeds, the
/// value stored under `key`, if there is one. A failed read is an error of
/// the store (I/O, corruption); nothing is stated of when it happens.
#[verifier::external_body]
pub(crate) fn sled_get(db: &sled::Db, key: &[u8]) -> (res: Result<Option<Vec<u8>>, sled::Error>)
    ensures
        res matches Ok(found) ==> match found {
            Some(v) => sled_contents(*db).contains_key(key@) && v@ == sled_contents(*db)[key@],
            None => !sled_contents(*db).contains_key(key@),
        },
{
    match db.get(key) {
        Ok(Some(v)) => Ok(Some(v.to_vec())),
        Ok(None) => Ok(None),
        Err(e) => Err(e),
    }
}

/// Calls `sled::Tree::insert` (through `sled::Db`): when it succeeds, `value`
/// is stored under `key`, replacing what was there. Nothing is stated of the
/// store after a failed insert.
#[verifier::external_body]
pub(crate) fn sled_insert(db: &mut sled::Db, key: &[u8], value: &[u8]) -> (res: Result<(), sled::Error>)
    ensures
        res is Ok ==> sled_contents(*final(db)) == sled_contents(*old(db)).insert(key@, value@),
{
    match db.insert(key, value) {
        Ok(_) => Ok(()),
        Err(e) => Err(e),
    }
}

/// A concurrent set of strings.
pub type StringSet = lockfree::set::Set<String>;

/// What a `lockfree::set::Set` of strings holds.
pub uninterp spec fn string_set_contents(s: StringSet) -> Set<Seq<char>>;

/// Calls `lockfree::set::Set::new`, which makes an empty set.
#[verifier::external_body]
pub(crate) fn string_set_new() -> (res: StringSet)
    ensures
        string_set_contents(res).is_empty(),
{
    lockfree::set::Set::new()
}

/// Calls `lockfree::set::Set::insert`, which adds `elem` and answers `Ok`
/// when no equal element was present, and otherwise leaves the set as it was
/// and answers `Err`. Whether it was added is returned.
#[verifier::external_body]
pub(crate) fn string_set_insert(s: &mut StringSet, elem: String) -> (added: bool)
    ensures
        added == !string_set_contents(*old(s)).contains(elem@),
        string_set_contents(*final(s)) == string_set_contents(*old(s)).insert(elem@),
{
    s.insert(elem).is_ok()
}

/// Calls `lockfree::set::Set::remove`, which takes out the element equal to
/// `elem`, if there is one, and hands it back. Whether one was taken out is
/// returned.
#[verifier::external_body]
pub(crate) fn string_set_remove(s: &mut StringSet, elem: &String) -> (removed: bool)
    ensures
        removed == string_set_contents(*old(s)).contains(elem@),
        string_set_contents(*final(s)) == string_set_contents(*old(s)).remove(elem@),
{
    s.remove(elem).is_some()
}

/// Walks `lockfree::set::Set::iter` and copies each element: every element
/// of the set once, in an order the source leaves open.
#[verifier::external_body]
pub(crate) fn string_set_items(s: &StringSet) -> (items: Vec<String>)
    ensures
        items@.map_values(|x: String| x@).no_duplicates(),
        items@.map_values(|x: String| x@).to_set() == string_set_contents(*s),
{
    let mut items = Vec::new();
    for guard in s.iter() {
        items.push((*guard).clone());
    }
    items
}

} // verus!
