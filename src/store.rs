use std::collections::HashMap;
use vstd::prelude::*;

verus! {

/// The key/value pairs that a table holds.
pub uninterp spec fn table_contents(m: HashMap<Vec<u8>, Vec<u8>>) -> Map<Seq<u8>, Seq<u8>>;

/// Relies on HashMap::new: a new map holds no entries.
#[verifier::external_body]
fn table_new() -> (r: HashMap<Vec<u8>, Vec<u8>>)
    ensures
        table_contents(r).dom() == Set::<Seq<u8>>::empty(),
{
    HashMap::new()
}

/// Relies on HashMap::get: it finds the entry whose key equals `key`, and
/// byte vectors are equal exactly when their bytes are.
#[verifier::external_body]
fn table_get(m: &HashMap<Vec<u8>, Vec<u8>>, key: &[u8]) -> (r: Option<Vec<u8>>)
    ensures
        r is Some <==> table_contents(*m).contains_key(key@),
        r matches Some(v) ==> v@ == table_contents(*m)[key@],
{
    m.get(key).cloned()
}

/// Relies on HashMap::insert: afterwards `key` maps to `value`, and every
/// other entry is left as it was.
#[verifier::external_body]
fn table_insert(m: &mut HashMap<Vec<u8>, Vec<u8>>, key: Vec<u8>, value: Vec<u8>)
    ensures
        table_contents(*final(m)) == table_contents(*old(m)).insert(key@, value@),
{
    m.insert(key, value);
}

/// Relies on HashMap::remove: afterwards no entry has key `key`, and every
/// other entry is left as it was.
#[verifier::external_body]
fn table_remove(m: &mut HashMap<Vec<u8>, Vec<u8>>, key: &[u8])
    ensures
        table_contents(*final(m)) == table_contents(*old(m)).remove(key@),
{
    m.remove(key);
}

/// The value stored under `k` in `m`, if any.
pub open spec fn lookup(m: Map<Seq<u8>, Seq<u8>>, k: Seq<u8>) -> Option<Seq<u8>> {
    if m.contains_key(k) {
        Some(m[k])
    } else {
        None
    }
}

pub open spec fn bytes_of(r: Option<Vec<u8>>) -> Option<Seq<u8>> {
    match r {
        Some(v) => Some(v@),
        None => None,
    }
}

/// The in-memory map from keys to values. Keys and values are arbitrary
/// bytes.
pub struct Store {
    data: HashMap<Vec<u8>, Vec<u8>>,
}

impl View for Store {
    type V = Map<Seq<u8>, Seq<u8>>;

    closed spec fn view(&self) -> Map<Seq<u8>, Seq<u8>> {
        table_contents(self.data)
    }
}

impl Store {
    /// An empty store.
    pub fn new() -> (s: Store)
        ensures
            s@ == Map::<Seq<u8>, Seq<u8>>::empty(),
    {
        Store { data: table_new() }
    }

    /// A copy of the value stored under `key`, or `None` if there is none.
    pub fn get(&self, key: &[u8]) -> (r: Option<Vec<u8>>)
        ensures
            bytes_of(r) == lookup(self@, key@),
    {
        table_get(&self.data, key)
    }

    /// Stores `value` under `key`, replacing any value that was there.
    pub fn set(&mut self, key: Vec<u8>, value: Vec<u8>)
        ensures
            final(self)@ == old(self)@.insert(key@, value@),
    {
        table_insert(&mut self.data, key, value)
    }

    /// Removes `key` and its value; a key that is absent is no error.
    pub fn delete(&mut self, key: &[u8])
        ensures
            final(self)@ == old(self)@.remove(key@),
    {
        table_remove(&mut self.data, key)
    }
}

} // verus!
