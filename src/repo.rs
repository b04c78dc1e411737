//! The repository: threads and replies over the key-value store.
use vstd::prelude::*;
use crate::codec::{
    decode_reply, decode_thread, encode_reply, encode_thread, Reply, ReplyView, Thread, ThreadView,
};
use crate::keys::{
    has_prefix, reply_counter_key_bytes, reply_key, reply_key_bytes, reply_prefix,
    reply_prefix_bytes, thread_counter_key_bytes, thread_key, thread_key_bytes, thread_namespace,
    thread_scan_prefix,
};
use crate::store::{
    counter_after, counter_value, now_seconds, store_bump_counter, store_get, store_insert,
    store_scan,
};

verus! {

/// What can go wrong in a repository operation.
#[derive(PartialEq, Eq, Structural, Debug, Clone, Copy)]
pub enum BoardError {
    /// The store failed to read or write.
    Store,
    /// The thread asked for does not exist.
    NotFound,
    /// Every identifier of the id-space has been handed out.
    IdsExhausted,
}

/// The thread in a record read from the store: absent where the record is missing or
/// does not decode.
pub open spec fn stored_thread(stored: Option<Seq<u8>>) -> Option<ThreadView> {
    match stored {
        Some(b) => decode_thread(b),
        None => None,
    }
}

/// The threads that a scanned record list holds, in scan order: each record that decodes,
/// the others skipped.
pub open spec fn threads_in(entries: Seq<(Seq<u8>, Seq<u8>)>) -> Seq<ThreadView>
    decreases entries.len(),
{
    if entries.len() == 0 {
        Seq::empty()
    } else {
        let (k, v) = entries.last();
        let rest = threads_in(entries.drop_last());
        match decode_thread(v) {
            Some(t) => rest.push(t),
            None => rest,
        }
    }
}

/// The replies that a scanned record list holds, in scan order: each record that decodes,
/// the others skipped.
pub open spec fn replies_in(entries: Seq<(Seq<u8>, Seq<u8>)>) -> Seq<ReplyView>
    decreases entries.len(),
{
    if entries.len() == 0 {
        Seq::empty()
    } else {
        let (k, v) = entries.last();
        let rest = replies_in(entries.drop_last());
        match decode_reply(v) {
            Some(r) => rest.push(r),
            None => rest,
        }
    }
}

/// The byte view of a list of records.
pub open spec fn entries_view(e: Seq<(Vec<u8>, Vec<u8>)>) -> Seq<(Seq<u8>, Seq<u8>)> {
    e.map_values(|p: (Vec<u8>, Vec<u8>)| (p.0@, p.1@))
}

/// The bytes of a record read from the store, if any.
pub open spec fn bytes_of(stored: Option<Vec<u8>>) -> Option<Seq<u8>> {
    match stored {
        Some(b) => Some(b@),
        None => None,
    }
}

/// The view of a list of threads.
pub open spec fn threads_view(s: Seq<Thread>) -> Seq<ThreadView> {
    s.map_values(|t: Thread| t@)
}

/// The view of a list of replies.
pub open spec fn replies_view(s: Seq<Reply>) -> Seq<ReplyView> {
    s.map_values(|r: Reply| r@)
}

/// The thread in a record read from the store.
pub fn thread_from_stored(stored: Option<Vec<u8>>) -> (r: Option<Thread>)
    ensures
        match r {
            Some(t) => stored_thread(bytes_of(stored)) == Some(t@),
            None => stored_thread(bytes_of(stored)) is None,
        },
{
    match stored {
        Some(b) => Thread::decode(b.as_slice()),
        None => None,
    }
}

/// The threads held by the records of a thread scan, in scan order.
pub fn threads_from_entries(entries: Vec<(Vec<u8>, Vec<u8>)>) -> (r: Vec<Thread>)
    ensures
        threads_view(r@) == threads_in(entries_view(entries@)),
{
    let mut out: Vec<Thread> = Vec::new();
    let mut i: usize = 0;
    while i < entries.len()
        invariant
            i <= entries@.len(),
            threads_view(out@) == threads_in(entries_view(entries@.subrange(0, i as int))),
        decreases entries@.len() - i,
    {
        let ghost prev = out@;
        let k = &entries[i].0;
        let v = &entries[i].1;
        let ghost sub = entries_view(entries@.subrange(0, i as int + 1));
        assert(sub.drop_last() =~= entries_view(entries@.subrange(0, i as int)));
        assert(sub.last() == (k@, v@));
        match Thread::decode(v.as_slice()) {
            Some(t) => {
                out.push(t);
                assert(threads_view(out@) =~= threads_view(prev).push(out@.last()@));
            },
            None => {},
        }
        assert(threads_in(sub) == threads_view(out@));
        i = i + 1;
    }
    assert(entries@.subrange(0, i as int) =~= entries@);
    out
}

/// The replies held by the records of a reply scan, in scan order.
pub fn replies_from_entries(entries: Vec<(Vec<u8>, Vec<u8>)>) -> (r: Vec<Reply>)
    ensures
        replies_view(r@) == replies_in(entries_view(entries@)),
{
    let mut out: Vec<Reply> = Vec::new();
    let mut i: usize = 0;
    while i < entries.len()
        invariant
            i <= entries@.len(),
            replies_view(out@) == replies_in(entries_view(entries@.subrange(0, i as int))),
        decreases entries@.len() - i,
    {
        let ghost prev = out@;
        let k = &entries[i].0;
        let v = &entries[i].1;
        let ghost sub = entries_view(entries@.subrange(0, i as int + 1));
        assert(sub.drop_last() =~= entries_view(entries@.subrange(0, i as int)));
        assert(sub.last() == (k@, v@));
        match Reply::decode(v.as_slice()) {
            Some(x) => {
                out.push(x);
                assert(replies_view(out@) =~= replies_view(prev).push(out@.last()@));
            },
            None => {},
        }
        assert(replies_in(sub) == replies_view(out@));
        i = i + 1;
    }
    assert(entries@.subrange(0, i as int) =~= entries@);
    out
}

/// Whether `entries` can be the answer of a scan with `prefix`: every key starts with it,
/// and no key comes twice.
pub open spec fn is_prefix_scan(entries: Seq<(Seq<u8>, Seq<u8>)>, prefix: Seq<u8>) -> bool {
    &&& forall|i: int| 0 <= i < entries.len() ==> has_prefix(#[trigger] entries[i].0, prefix)
    &&& forall|i: int, j: int|
        0 <= i < j < entries.len() ==> #[trigger] entries[i].0 != #[trigger] entries[j].0
}

proof fn lemma_scan_view(entries: Seq<(Vec<u8>, Vec<u8>)>, prefix: Seq<u8>)
    requires
        forall|i: int| 0 <= i < entries.len() ==> has_prefix(#[trigger] entries[i].0@, prefix),
        forall|i: int, j: int|
            0 <= i < j < entries.len() ==> #[trigger] entries[i].0@ != #[trigger] entries[j].0@,
    ensures
        is_prefix_scan(entries_view(entries), prefix),
{
    let e = entries_view(entries);
    assert forall|i: int| 0 <= i < e.len() implies has_prefix(#[trigger] e[i].0, prefix) by {
        assert(e[i].0 == entries[i].0@);
    }
    assert forall|i: int, j: int| 0 <= i < j < e.len() implies #[trigger] e[i].0
        != #[trigger] e[j].0 by {
        assert(e[i].0 == entries[i].0@ && e[j].0 == entries[j].0@);
    }
}

/// The thread after activity at time `now`: its last activity never moves back.
pub open spec fn touched(t: ThreadView, now: i64) -> ThreadView {
    ThreadView {
        last_updated: if now > t.last_updated {
            now
        } else {
            t.last_updated
        },
        ..t
    }
}

/// The identifier handed out for a counter record that reads back as `bytes`: absent where
/// the counter is spent.
pub open spec fn issued_id(bytes: Seq<u8>) -> Option<u64> {
    if bytes.len() == 8 && crate::codec::read_be8(bytes, 0) < u64::MAX {
        Some(crate::codec::read_be8(bytes, 0))
    } else {
        None
    }
}

/// Every counter record that an allocation can leave gives a positive identifier, or none
/// once the counter is spent.
proof fn lemma_counter_issues_positive(stored: Option<Seq<u8>>)
    ensures
        issued_id(counter_after(stored)) is Some ==> issued_id(counter_after(stored))->Some_0
            >= 1,
        issued_id(counter_after(stored)) is Some <==> counter_value(stored) < u64::MAX - 1,
        issued_id(counter_after(stored)) is Some ==> issued_id(counter_after(stored))->Some_0
            == counter_value(stored) + 1,
{
    let n = counter_value(stored);
    let m: u64 = if n < u64::MAX {
        (n + 1) as u64
    } else {
        n
    };
    crate::codec::lemma_be8_round_trip(Seq::empty(), m, Seq::empty());
    assert(Seq::<u8>::empty() + crate::codec::be8(m) + Seq::<u8>::empty() =~= counter_after(
        stored,
    ));
}

/// The identifier in a counter record read back after an allocation.
pub fn id_from_counter(bytes: &Vec<u8>) -> (r: Option<u64>)
    ensures
        r == issued_id(bytes@),
{
    if bytes.len() != 8 {
        return None;
    }
    let n = crate::codec::get_be8(bytes.as_slice(), 0);
    if n < u64::MAX {
        Some(n)
    } else {
        None
    }
}

/// The thread store: threads and replies in an ordered key-value store that is handed in,
/// so that a temporary store can stand in for a durable one.
pub struct Repository {
    db: sled::Db,
}

impl Repository {
    /// A repository over `db`.
    pub fn new(db: sled::Db) -> (r: Repository) {
        Repository { db }
    }

    /// Allocates the next identifier from the counter under `key`. The counter moves in
    /// one atomic read-modify-write of the store, never as a count followed by a write.
    fn allocate(&self, key: &Vec<u8>) -> (r: Result<u64, BoardError>)
        ensures
            r is Ok ==> r->Ok_0 >= 1,
            r is Err ==> r->Err_0 == BoardError::Store || r->Err_0 == BoardError::IdsExhausted,
    {
        match store_bump_counter(&self.db, key) {
            Ok(Some(bytes)) => {
                proof {
                    let stored = choose|stored: Option<Seq<u8>>|
                        #[trigger] counter_after(stored) == bytes@;
                    lemma_counter_issues_positive(stored);
                }
                match id_from_counter(&bytes) {
                    Some(id) => Ok(id),
                    None => Err(BoardError::IdsExhausted),
                }
            },
            Ok(None) => Err(BoardError::Store),
            Err(_) => Err(BoardError::Store),
        }
    }

    /// Stores a new thread with the next thread id and the current time as its last
    /// activity, and returns it.
    pub fn create_thread(&self, title: String, message: String) -> (r: Result<Thread, BoardError>)
        ensures
            r is Ok ==> r->Ok_0.id >= 1 && r->Ok_0.title@ == title@ && r->Ok_0.message@
                == message@,
            r is Err ==> r->Err_0 == BoardError::Store || r->Err_0 == BoardError::IdsExhausted,
    {
        let key = thread_counter_key_bytes();
        let id = match self.allocate(&key) {
            Ok(id) => id,
            Err(e) => return Err(e),
        };
        let thread = Thread { id, title, message, last_updated: now_seconds() };
        let (key, value) = thread_record(&thread);
        match store_insert(&self.db, key, value) {
            Ok(()) => Ok(thread),
            Err(_) => Err(BoardError::Store),
        }
    }

    /// The thread stored under `thread_key(id)`; `NotFound` where that record is absent or
    /// does not decode.
    pub fn get_thread(&self, id: u64) -> (r: Result<Thread, BoardError>)
        ensures
            r is Ok ==> exists|b: Seq<u8>| #[trigger] decode_thread(b) == Some(r->Ok_0@),
            r is Err ==> r->Err_0 == BoardError::Store || r->Err_0 == BoardError::NotFound,
    {
        match store_get(&self.db, &thread_key_bytes(id)) {
            Ok(stored) => {
                let ghost b = bytes_of(stored);
                match thread_from_stored(stored) {
                    Some(t) => {
                        assert(decode_thread(b->Some_0) == Some(t@));
                        Ok(t)
                    },
                    None => Err(BoardError::NotFound),
                }
            },
            Err(_) => Err(BoardError::Store),
        }
    }

    /// Every thread in the store, in scan order; records that do not decode are skipped.
    pub fn list_threads(&self) -> (r: Result<Vec<Thread>, BoardError>)
        ensures
            r is Ok ==> exists|entries: Seq<(Seq<u8>, Seq<u8>)>|
                #[trigger] threads_in(entries) == threads_view(r->Ok_0@) && is_prefix_scan(
                    entries,
                    thread_namespace(),
                ),
            r is Err ==> r->Err_0 == BoardError::Store,
    {
        let prefix = thread_scan_prefix();
        match store_scan(&self.db, &prefix) {
            Ok(entries) => {
                let ghost e = entries_view(entries@);
                proof {
                    lemma_scan_view(entries@, prefix@);
                }
                let r = threads_from_entries(entries);
                assert(threads_in(e) == threads_view(r@));
                Ok(r)
            },
            Err(_) => Err(BoardError::Store),
        }
    }

    /// The replies stored under thread `parent_id`, in scan order; records that do not
    /// decode are skipped.
    pub fn list_replies(&self, parent_id: u64) -> (r: Result<Vec<Reply>, BoardError>)
        ensures
            r is Ok ==> exists|entries: Seq<(Seq<u8>, Seq<u8>)>|
                #[trigger] replies_in(entries) == replies_view(r->Ok_0@) && is_prefix_scan(
                    entries,
                    reply_prefix(parent_id),
                ),
            r is Err ==> r->Err_0 == BoardError::Store,
    {
        let prefix = reply_prefix_bytes(parent_id);
        match store_scan(&self.db, &prefix) {
            Ok(entries) => {
                let ghost e = entries_view(entries@);
                proof {
                    lemma_scan_view(entries@, prefix@);
                }
                let r = replies_from_entries(entries);
                assert(replies_in(e) == replies_view(r@));
                Ok(r)
            },
            Err(_) => Err(BoardError::Store),
        }
    }

    /// Stores a reply under the existing thread `parent_id` with the next reply id of that
    /// thread, then moves the thread's last activity to now (never back). A reply to a
    /// thread that does not exist is refused with `NotFound`, so that no reply is orphaned.
    pub fn create_reply(&self, parent_id: u64, message: String) -> (r: Result<Reply, BoardError>)
        ensures
            r is Ok ==> r->Ok_0.id >= 1 && r->Ok_0.message@ == message@,
            r is Err ==> r->Err_0 == BoardError::Store || r->Err_0 == BoardError::NotFound
                || r->Err_0 == BoardError::IdsExhausted,
    {
        match self.get_thread(parent_id) {
            Ok(_) => {},
            Err(e) => return Err(e),
        }
        let id = match self.allocate(&reply_counter_key_bytes(parent_id)) {
            Ok(id) => id,
            Err(e) => return Err(e),
        };
        let reply = Reply { id, message };
        let (key, value) = reply_record(parent_id, &reply);
        match store_insert(&self.db, key, value) {
            Ok(()) => {},
            Err(_) => return Err(BoardError::Store),
        }
        let thread = match self.get_thread(parent_id) {
            Ok(t) => t,
            Err(e) => return Err(e),
        };
        let thread = touch(thread, now_seconds());
        let (key, value) = thread_record(&thread);
        match store_insert(&self.db, key, value) {
            Ok(()) => Ok(reply),
            Err(_) => Err(BoardError::Store),
        }
    }
}

/// The key and stored form under which `thread` is written.
pub fn thread_record(thread: &Thread) -> (r: (Vec<u8>, Vec<u8>))
    ensures
        r.0@ == thread_key(thread.id),
        r.1@ == encode_thread(thread@),
        thread@.fits(),
{
    (thread_key_bytes(thread.id), thread.encode())
}

/// The key and stored form under which `reply` is written beneath thread `parent`.
pub fn reply_record(parent: u64, reply: &Reply) -> (r: (Vec<u8>, Vec<u8>))
    ensures
        r.0@ == reply_key(parent, reply.id),
        r.1@ == encode_reply(reply@),
        reply@.fits(),
{
    (reply_key_bytes(parent, reply.id), reply.encode())
}

/// The thread after activity at time `now`.
pub fn touch(thread: Thread, now: i64) -> (r: Thread)
    ensures
        r@ == touched(thread@, now),
        r.last_updated >= thread.last_updated,
{
    let last_updated = if now > thread.last_updated {
        now
    } else {
        thread.last_updated
    };
    Thread { last_updated, ..thread }
}

} // verus!
