//! The table of searched positions, a `DashMap` from board hashes to entries.
use vstd::prelude::*;
use dashmap::DashMap;

verus! {

pub const EXACT_FLAG: u8 = 0;

pub const UPPER_FLAG: u8 = 0;

pub const LOWER_FLAG: u8 = 0;

/// What the search learnt of a position: the kind of bound, the depth it
/// was searched to, and its score.
#[derive(Debug, Copy, Clone)]
pub struct TBEntry {
    pub flag: u8,
    pub depth: u8,
    pub score: i32,
}

#[verifier::external_type_specification]
#[verifier::external_body]
#[verifier::reject_recursive_types(K)]
#[verifier::reject_recursive_types(V)]
#[verifier::reject_recursive_types(S)]
pub struct ExDashMap<K, V, S>(DashMap<K, V, S>);

/// The table of searched positions, keyed by board hash.
pub type HashTable = DashMap<u64, TBEntry>;

/// The entries of a table, by key.
pub uninterp spec fn table_entries(t: HashTable) -> Map<u64, TBEntry>;

/// `DashMap::with_capacity`: an empty table with room for `capacity` entries.
#[verifier::external_body]
pub(crate) fn new_table(capacity: usize) -> (table: HashTable)
    requires
        capacity <= 40000000,
    ensures
        table_entries(table).is_empty(),
{
    DashMap::with_capacity(capacity)
}

/// `DashMap::get`: the entry stored under `key`, if any.  The table is held
/// by a unique reference, so no other thread changes it meanwhile.
#[verifier::external_body]
pub(crate) fn table_get(t: &mut HashTable, key: u64) -> (e: Option<TBEntry>)
    ensures
        *final(t) == *old(t),
        e == (if table_entries(*old(t)).contains_key(key) {
            Some(table_entries(*old(t))[key])
        } else {
            None
        }),
{
    match t.get(&key) {
        Some(r) => Some(*r),
        None => None,
    }
}

/// `DashMap::insert`: stores `entry` under `key`, replacing any entry there.
#[verifier::external_body]
pub(crate) fn table_insert(t: &mut HashTable, key: u64, entry: TBEntry)
    ensures
        table_entries(*final(t)) == table_entries(*old(t)).insert(key, entry),
{
    t.insert(key, entry);
}

} // verus!
