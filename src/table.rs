//! The two containers of the allocation table, seen through their contents:
//! hashlink's `LruCache` keyed by address value, and std's `HashMap` from
//! name to address value.

use hashlink::LruCache;
use std::collections::HashMap;
use vstd::prelude::*;

verus! {

#[verifier::external_type_specification]
#[verifier::external_body]
#[verifier::reject_recursive_types(K)]
#[verifier::reject_recursive_types(V)]
#[verifier::reject_recursive_types(S)]
pub struct ExLruCache<K, V, S>(LruCache<K, V, S>);

#[verifier::external_type_specification]
#[verifier::external_body]
pub struct ExDefaultHashBuilder(hashlink::DefaultHashBuilder);

/// The entries of a cache, least recently used first.
pub uninterp spec fn lru_entries(c: LruCache<u128, String>) -> Seq<(u128, Seq<char>)>;

/// The bound that a cache was made with.
pub uninterp spec fn lru_bound(c: LruCache<u128, String>) -> nat;

/// The names bound in a reverse index.
pub uninterp spec fn index_entries(m: HashMap<String, u128>) -> Map<Seq<char>, u128>;

/// Some entry of `s` has key `k`.
pub open spec fn has_key(s: Seq<(u128, Seq<char>)>, k: u128) -> bool {
    exists|i: int| 0 <= i < s.len() && (#[trigger] s[i]).0 == k
}

/// The position of the entry with key `k` (meaningful when `has_key(s, k)`).
pub open spec fn key_pos(s: Seq<(u128, Seq<char>)>, k: u128) -> int {
    choose|i: int| 0 <= i < s.len() && (#[trigger] s[i]).0 == k
}

/// `s` with the entry of key `k`, if any, moved to the most recently used end.
pub open spec fn to_back(s: Seq<(u128, Seq<char>)>, k: u128) -> Seq<(u128, Seq<char>)> {
    if has_key(s, k) {
        let i = key_pos(s, k);
        s.remove(i).push(s[i])
    } else {
        s
    }
}

/// Relies on hashlink's `LruCache::new`: an empty cache with the given bound.
#[verifier::external_body]
pub(crate) fn lru_new(capacity: usize) -> (r: LruCache<u128, String>)
    ensures
        lru_entries(r).len() == 0,
        lru_bound(r) == capacity,
{
    LruCache::new(capacity)
}

/// Relies on hashlink's `LruCache::len`: the number of entries.
#[verifier::external_body]
pub(crate) fn lru_len(c: &LruCache<u128, String>) -> (r: usize)
    ensures
        r == lru_entries(*c).len(),
{
    c.len()
}

/// Relies on hashlink's `LruCache::capacity`: the bound given at construction.
#[verifier::external_body]
pub(crate) fn lru_capacity(c: &LruCache<u128, String>) -> (r: usize)
    ensures
        r == lru_bound(*c),
{
    c.capacity()
}

/// Relies on hashlink's `LruCache::contains_key`: a lookup that leaves the order alone.
#[verifier::external_body]
pub(crate) fn lru_contains(c: &LruCache<u128, String>, k: u128) -> (r: bool)
    ensures
        r == has_key(lru_entries(*c), k),
{
    c.contains_key(&k)
}

/// Relies on hashlink's `LruCache::get`: a hit moves the entry to the most
/// recently used end and hands out its value; a miss changes nothing.
#[verifier::external_body]
pub(crate) fn lru_get(c: &mut LruCache<u128, String>, k: u128) -> (r: Option<String>)
    ensures
        lru_entries(*final(c)) == to_back(lru_entries(*old(c)), k),
        lru_bound(*final(c)) == lru_bound(*old(c)),
        r.is_some() == has_key(lru_entries(*old(c)), k),
        r.is_some() ==> r.unwrap()@ == lru_entries(*old(c))[key_pos(lru_entries(*old(c)), k)].1,
{
    c.get(&k).cloned()
}

/// Relies on hashlink's `LruCache::insert` of an absent key into a cache below
/// its bound: the entry joins at the most recently used end and nothing is evicted.
#[verifier::external_body]
pub(crate) fn lru_insert(c: &mut LruCache<u128, String>, k: u128, v: String)
    requires
        !has_key(lru_entries(*old(c)), k),
        lru_entries(*old(c)).len() < lru_bound(*old(c)),
    ensures
        lru_entries(*final(c)) == lru_entries(*old(c)).push((k, v@)),
        lru_bound(*final(c)) == lru_bound(*old(c)),
{
    c.insert(k, v);
}

/// Relies on hashlink's `LruCache::remove_lru`: takes out the least recently
/// used entry, if there is one.
#[verifier::external_body]
pub(crate) fn lru_remove_lru(c: &mut LruCache<u128, String>) -> (r: Option<(u128, String)>)
    ensures
        lru_bound(*final(c)) == lru_bound(*old(c)),
        lru_entries(*old(c)).len() == 0 ==> r.is_none() && lru_entries(*final(c)) == lru_entries(
            *old(c),
        ),
        lru_entries(*old(c)).len() > 0 ==> r.is_some() && lru_entries(*final(c))
            == lru_entries(*old(c)).drop_first() && (r.unwrap().0, r.unwrap().1@) == lru_entries(
            *old(c),
        )[0],
{
    c.remove_lru()
}

/// Relies on `HashMap::new`: an empty map. (vstd models `HashMap` only for
/// keys that obey its key model, and `String` is not among them.)
#[verifier::external_body]
pub(crate) fn index_new() -> (r: HashMap<String, u128>)
    ensures
        index_entries(r).dom() == Set::<Seq<char>>::empty(),
{
    HashMap::new()
}

/// Relies on `HashMap::get`: the value bound to the key, if any.
#[verifier::external_body]
pub(crate) fn index_get(m: &HashMap<String, u128>, k: &String) -> (r: Option<u128>)
    ensures
        r.is_some() == index_entries(*m).contains_key(k@),
        r.is_some() ==> r.unwrap() == index_entries(*m)[k@],
{
    m.get(k).copied()
}

/// Relies on `HashMap::insert`: binds the key to the value, replacing any earlier binding.
#[verifier::external_body]
pub(crate) fn index_insert(m: &mut HashMap<String, u128>, k: String, v: u128)
    ensures
        index_entries(*final(m)) == index_entries(*old(m)).insert(k@, v),
{
    m.insert(k, v);
}

/// Relies on `HashMap::remove`: unbinds the key.
#[verifier::external_body]
pub(crate) fn index_remove(m: &mut HashMap<String, u128>, k: &String)
    ensures
        index_entries(*final(m)) == index_entries(*old(m)).remove(k@),
{
    m.remove(k);
}

} // verus!
