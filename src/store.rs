//! The outside collaborators: the ordered key-value store and the clock.
//!
//! The store is shared with other writers and lives on disk, so nothing here names its
//! contents: each call states what holds of every answer it can give.
use vstd::prelude::*;
use crate::codec::{be8, read_be8};
use crate::keys::has_prefix;

verus! {

#[verifier::external_type_specification]
#[verifier::external_body]
pub struct ExDb(sled::Db);

#[verifier::external_type_specification]
#[verifier::external_body]
pub struct ExStoreError(sled::Error);

/// The value held by a counter record; a missing or malformed record counts as zero.
pub open spec fn counter_value(stored: Option<Seq<u8>>) -> u64 {
    match stored {
        Some(b) => if b.len() == 8 {
            read_be8(b, 0)
        } else {
            0
        },
        None => 0,
    }
}

/// The counter record after one allocation: one more, stopping at `u64::MAX`.
pub open spec fn counter_after(stored: Option<Seq<u8>>) -> Seq<u8> {
    let n = counter_value(stored);
    if n < u64::MAX {
        be8((n + 1) as u64)
    } else {
        be8(n)
    }
}

/// The update that allocates one identifier from a counter record.
pub fn next_counter(stored: Option<&[u8]>) -> (r: Option<Vec<u8>>)
    ensures
        r is Some,
        r->Some_0@ == counter_after(
            match stored {
                Some(b) => Some(b@),
                None => None,
            },
        ),
{
    let n: u64 = match stored {
        Some(b) => if b.len() == 8 {
            crate::codec::get_be8(b, 0)
        } else {
            0
        },
        None => 0,
    };
    let next: u64 = if n < u64::MAX {
        n + 1
    } else {
        n
    };
    let mut out: Vec<u8> = Vec::new();
    crate::codec::push_be8(&mut out, next);
    assert(out@ =~= be8(next));
    Some(out)
}

/// Relies on sled's `Tree::get`: the value stored under `key`, if any, or a store failure.
/// The contents of the store are not known here, so nothing more is stated.
#[verifier::external_body]
pub(crate) fn store_get(db: &sled::Db, key: &Vec<u8>) -> (r: Result<Option<Vec<u8>>, sled::Error>) {
    db.get(key).map(|o| o.map(|v| v.to_vec()))
}

/// Relies on sled's `Tree::insert`: stores `value` under `key`, or reports a store failure.
#[verifier::external_body]
pub(crate) fn store_insert(db: &sled::Db, key: Vec<u8>, value: Vec<u8>) -> (r: Result<(), sled::Error>) {
    db.insert(key, value).map(|_| ())
}

/// Relies on sled's `Tree::scan_prefix`: the records whose keys start with `prefix`, each
/// once, in ascending key order; an item that fails makes the whole scan fail.
#[verifier::external_body]
pub(crate) fn store_scan(db: &sled::Db, prefix: &Vec<u8>) -> (r: Result<
    Vec<(Vec<u8>, Vec<u8>)>,
    sled::Error,
>)
    ensures
        r is Ok ==> forall|i: int|
            0 <= i < r->Ok_0@.len() ==> has_prefix(#[trigger] r->Ok_0@[i].0@, prefix@),
        r is Ok ==> forall|i: int, j: int|
            0 <= i < j < r->Ok_0@.len() ==> #[trigger] r->Ok_0@[i].0@ != #[trigger] r->Ok_0@[j].0@,
{
    db.scan_prefix(prefix).map(|e| e.map(|(k, v)| (k.to_vec(), v.to_vec()))).collect()
}

/// Relies on sled's `Tree::update_and_fetch`: it applies `next_counter` to the record under
/// `key` as one atomic compare-and-swap, retried until no other writer came between, and
/// returns what `next_counter` made of the value it last read.
#[verifier::external_body]
pub(crate) fn store_bump_counter(db: &sled::Db, key: &Vec<u8>) -> (r: Result<
    Option<Vec<u8>>,
    sled::Error,
>)
    ensures
        r is Ok ==> r->Ok_0 is Some && exists|stored: Option<Seq<u8>>|
            #[trigger] counter_after(stored) == r->Ok_0->Some_0@,
{
    db.update_and_fetch(key, next_counter).map(|o| o.map(|v| v.to_vec()))
}

/// Relies on chrono's `Utc::now` and `DateTime::timestamp`: the current time in seconds
/// since the epoch. Nothing is known of its value.
#[verifier::external_body]
pub(crate) fn now_seconds() -> (r: i64) {
    chrono::Utc::now().timestamp()
}

} // verus!
