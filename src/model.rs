//! The store as a map from keys to records, and the laws that the repository's writes
//! obey over it: what a write makes visible, and what it leaves alone.
use vstd::prelude::*;
use crate::codec::{
    decode_reply, decode_thread, encode_reply, encode_thread, lemma_reply_round_trip,
    lemma_thread_round_trip, ReplyView, ThreadView,
};
use crate::keys::{
    has_prefix, lemma_namespaces_disjoint, lemma_reply_scan_isolates,
    reply_counter_key, reply_key, reply_prefix, thread_counter_key, thread_key, thread_namespace,
};
use crate::repo::{replies_in, stored_thread, threads_in, touched};

verus! {

/// The record under `k`, if any.
pub open spec fn lookup(m: Map<Seq<u8>, Seq<u8>>, k: Seq<u8>) -> Option<Seq<u8>> {
    if m.dom().contains(k) {
        Some(m[k])
    } else {
        None
    }
}

/// What a lookup of thread `id` finds in the store `m`.
pub open spec fn found_thread(m: Map<Seq<u8>, Seq<u8>>, id: u64) -> Option<ThreadView> {
    stored_thread(lookup(m, thread_key(id)))
}

/// The threads that a listing of the store `m` gives: every record in the thread
/// namespace that decodes.
pub open spec fn listed_threads(m: Map<Seq<u8>, Seq<u8>>) -> Set<ThreadView> {
    Set::new(
        |t: ThreadView|
            exists|k: Seq<u8>|
                #![trigger m[k]]
                m.dom().contains(k) && has_prefix(k, thread_namespace()) && decode_thread(m[k])
                    == Some(t),
    )
}

/// The replies that a listing of thread `parent` in the store `m` gives: every record
/// under `reply_prefix(parent)` that decodes.
pub open spec fn listed_replies(m: Map<Seq<u8>, Seq<u8>>, parent: u64) -> Set<ReplyView> {
    Set::new(
        |r: ReplyView|
            exists|k: Seq<u8>|
                #![trigger m[k]]
                m.dom().contains(k) && has_prefix(k, reply_prefix(parent)) && decode_reply(m[k])
                    == Some(r),
    )
}

/// Whether every thread record of `m` that decodes is stored under its own id, as the
/// repository writes them.
pub open spec fn threads_keyed(m: Map<Seq<u8>, Seq<u8>>) -> bool {
    forall|k: Seq<u8>|
        #![trigger m[k]]
        m.dom().contains(k) && has_prefix(k, thread_namespace()) && decode_thread(m[k]) is Some
            ==> k == thread_key(decode_thread(m[k])->Some_0.id)
}

/// Whether every reply record of `parent` in `m` that decodes is stored under its own id,
/// as the repository writes them.
pub open spec fn replies_keyed(m: Map<Seq<u8>, Seq<u8>>, parent: u64) -> bool {
    forall|k: Seq<u8>|
        #![trigger m[k]]
        m.dom().contains(k) && has_prefix(k, reply_prefix(parent)) && decode_reply(m[k]) is Some
            ==> k == reply_key(parent, decode_reply(m[k])->Some_0.id)
}

proof fn lemma_thread_key_in_namespace(id: u64)
    ensures
        has_prefix(thread_key(id), thread_namespace()),
{
    assert(thread_key(id).subrange(0, 7) =~= thread_namespace());
}

proof fn lemma_reply_key_in_prefix(p: u64, id: u64)
    ensures
        has_prefix(reply_key(p, id), reply_prefix(p)),
{
    lemma_reply_scan_isolates(p, p, id);
}

/// After a thread is written, a lookup of its id finds it and a listing holds it.
pub proof fn lemma_created_thread_found(m: Map<Seq<u8>, Seq<u8>>, t: ThreadView)
    requires
        t.fits(),
    ensures
        found_thread(m.insert(thread_key(t.id), encode_thread(t)), t.id) == Some(t),
        listed_threads(m.insert(thread_key(t.id), encode_thread(t))).contains(t),
{
    lemma_thread_round_trip(t);
    lemma_thread_key_in_namespace(t.id);
    let m2 = m.insert(thread_key(t.id), encode_thread(t));
    assert(m2[thread_key(t.id)] == encode_thread(t));
}

/// Writing a thread under a fresh id adds exactly that thread to the listing: from an
/// empty store, the listing is the set of threads written.
pub proof fn lemma_create_thread_listing(m: Map<Seq<u8>, Seq<u8>>, t: ThreadView)
    requires
        t.fits(),
        !m.dom().contains(thread_key(t.id)),
    ensures
        listed_threads(m.insert(thread_key(t.id), encode_thread(t))) == listed_threads(m).insert(t),
{
    lemma_created_thread_found(m, t);
    let k0 = thread_key(t.id);
    let m2 = m.insert(k0, encode_thread(t));
    assert forall|x: ThreadView| listed_threads(m2).contains(x) <==> listed_threads(m).insert(
        t,
    ).contains(x) by {
        if listed_threads(m2).contains(x) && x != t {
            let k = choose|k: Seq<u8>|
                #![trigger m2[k]]
                m2.dom().contains(k) && has_prefix(k, thread_namespace()) && decode_thread(m2[k])
                    == Some(x);
            assert(k != k0);
            assert(m[k] == m2[k]);
        }
        if listed_threads(m).contains(x) {
            let k = choose|k: Seq<u8>|
                #![trigger m[k]]
                m.dom().contains(k) && has_prefix(k, thread_namespace()) && decode_thread(m[k])
                    == Some(x);
            assert(k != k0);
            assert(m2[k] == m[k]);
        }
    }
    assert(listed_threads(m2) =~= listed_threads(m).insert(t));
}

/// A write of a record outside the thread namespace leaves the thread listing, and whether
/// threads are keyed, as they were.
pub proof fn lemma_write_outside_threads(m: Map<Seq<u8>, Seq<u8>>, k0: Seq<u8>, v: Seq<u8>)
    requires
        !has_prefix(k0, thread_namespace()),
    ensures
        listed_threads(m.insert(k0, v)) == listed_threads(m),
        threads_keyed(m) ==> threads_keyed(m.insert(k0, v)),
{
    let m2 = m.insert(k0, v);
    assert forall|x: ThreadView| listed_threads(m2).contains(x) <==> listed_threads(m).contains(
        x,
    ) by {
        if listed_threads(m2).contains(x) {
            let k = choose|k: Seq<u8>|
                #![trigger m2[k]]
                m2.dom().contains(k) && has_prefix(k, thread_namespace()) && decode_thread(m2[k])
                    == Some(x);
            assert(m[k] == m2[k]);
        }
        if listed_threads(m).contains(x) {
            let k = choose|k: Seq<u8>|
                #![trigger m[k]]
                m.dom().contains(k) && has_prefix(k, thread_namespace()) && decode_thread(m[k])
                    == Some(x);
            assert(m2[k] == m[k]);
        }
    }
    assert(listed_threads(m2) =~= listed_threads(m));
    if threads_keyed(m) {
        assert forall|k: Seq<u8>|
            #![trigger m2[k]]
            m2.dom().contains(k) && has_prefix(k, thread_namespace()) && decode_thread(
                m2[k],
            ) is Some implies k == thread_key(decode_thread(m2[k])->Some_0.id) by {
            assert(m[k] == m2[k]);
        }
    }
}

/// A write of a record outside `reply_prefix(p)` leaves the replies of `p`, and whether they
/// are keyed, as they were.
pub proof fn lemma_write_outside_replies(
    m: Map<Seq<u8>, Seq<u8>>,
    p: u64,
    k0: Seq<u8>,
    v: Seq<u8>,
)
    requires
        !has_prefix(k0, reply_prefix(p)),
    ensures
        listed_replies(m.insert(k0, v), p) == listed_replies(m, p),
        replies_keyed(m, p) ==> replies_keyed(m.insert(k0, v), p),
{
    let m2 = m.insert(k0, v);
    assert forall|x: ReplyView| listed_replies(m2, p).contains(x) <==> listed_replies(
        m,
        p,
    ).contains(x) by {
        if listed_replies(m2, p).contains(x) {
            let k = choose|k: Seq<u8>|
                #![trigger m2[k]]
                m2.dom().contains(k) && has_prefix(k, reply_prefix(p)) && decode_reply(m2[k])
                    == Some(x);
            assert(m[k] == m2[k]);
        }
        if listed_replies(m, p).contains(x) {
            let k = choose|k: Seq<u8>|
                #![trigger m[k]]
                m.dom().contains(k) && has_prefix(k, reply_prefix(p)) && decode_reply(m[k])
                    == Some(x);
            assert(m2[k] == m[k]);
        }
    }
    assert(listed_replies(m2, p) =~= listed_replies(m, p));
    if replies_keyed(m, p) {
        assert forall|k: Seq<u8>|
            #![trigger m2[k]]
            m2.dom().contains(k) && has_prefix(k, reply_prefix(p)) && decode_reply(
                m2[k],
            ) is Some implies k == reply_key(p, decode_reply(m2[k])->Some_0.id) by {
            assert(m[k] == m2[k]);
        }
    }
}

/// Writing a thread as the repository does keeps every thread keyed, and leaves every
/// reply listing as it was.
pub proof fn lemma_thread_write_keeps_keyed(m: Map<Seq<u8>, Seq<u8>>, t: ThreadView, p: u64)
    requires
        t.fits(),
    ensures
        threads_keyed(m) ==> threads_keyed(m.insert(thread_key(t.id), encode_thread(t))),
        listed_replies(m.insert(thread_key(t.id), encode_thread(t)), p) == listed_replies(m, p),
        replies_keyed(m, p) ==> replies_keyed(m.insert(thread_key(t.id), encode_thread(t)), p),
{
    lemma_thread_round_trip(t);
    lemma_namespaces_disjoint(t.id, p, 0);
    lemma_write_outside_replies(m, p, thread_key(t.id), encode_thread(t));
    let m2 = m.insert(thread_key(t.id), encode_thread(t));
    if threads_keyed(m) {
        assert forall|k: Seq<u8>|
            #![trigger m2[k]]
            m2.dom().contains(k) && has_prefix(k, thread_namespace()) && decode_thread(
                m2[k],
            ) is Some implies k == thread_key(decode_thread(m2[k])->Some_0.id) by {
            if k != thread_key(t.id) {
                assert(m[k] == m2[k]);
            }
        }
    }
}

/// Writing a reply beneath `q` as the repository does keeps the replies of every thread
/// keyed, and leaves the thread listing as it was.
pub proof fn lemma_reply_write_keeps_keyed(
    m: Map<Seq<u8>, Seq<u8>>,
    q: u64,
    r: ReplyView,
    p: u64,
)
    requires
        r.fits(),
    ensures
        replies_keyed(m, p) ==> replies_keyed(m.insert(reply_key(q, r.id), encode_reply(r)), p),
        listed_threads(m.insert(reply_key(q, r.id), encode_reply(r))) == listed_threads(m),
        threads_keyed(m) ==> threads_keyed(m.insert(reply_key(q, r.id), encode_reply(r))),
{
    lemma_reply_round_trip(r);
    lemma_namespaces_disjoint(0, q, r.id);
    lemma_write_outside_threads(m, reply_key(q, r.id), encode_reply(r));
    lemma_reply_scan_isolates(p, q, r.id);
    if p != q {
        lemma_write_outside_replies(m, p, reply_key(q, r.id), encode_reply(r));
    } else {
        let m2 = m.insert(reply_key(q, r.id), encode_reply(r));
        if replies_keyed(m, p) {
            assert forall|k: Seq<u8>|
                #![trigger m2[k]]
                m2.dom().contains(k) && has_prefix(k, reply_prefix(p)) && decode_reply(
                    m2[k],
                ) is Some implies k == reply_key(p, decode_reply(m2[k])->Some_0.id) by {
                if k != reply_key(q, r.id) {
                    assert(m[k] == m2[k]);
                }
            }
        }
    }
}

/// In a store whose threads are keyed, a listing never holds two threads with one id.
pub proof fn lemma_listed_threads_unique(m: Map<Seq<u8>, Seq<u8>>, a: ThreadView, b: ThreadView)
    requires
        threads_keyed(m),
        listed_threads(m).contains(a),
        listed_threads(m).contains(b),
        a.id == b.id,
    ensures
        a == b,
{
    let ka = choose|k: Seq<u8>|
        #![trigger m[k]]
        m.dom().contains(k) && has_prefix(k, thread_namespace()) && decode_thread(m[k]) == Some(a);
    let kb = choose|k: Seq<u8>|
        #![trigger m[k]]
        m.dom().contains(k) && has_prefix(k, thread_namespace()) && decode_thread(m[k]) == Some(b);
    assert(ka == kb);
}

/// In a store whose replies of `p` are keyed, their listing never holds two replies with
/// one id.
pub proof fn lemma_listed_replies_unique(
    m: Map<Seq<u8>, Seq<u8>>,
    p: u64,
    a: ReplyView,
    b: ReplyView,
)
    requires
        replies_keyed(m, p),
        listed_replies(m, p).contains(a),
        listed_replies(m, p).contains(b),
        a.id == b.id,
    ensures
        a == b,
{
    let ka = choose|k: Seq<u8>|
        #![trigger m[k]]
        m.dom().contains(k) && has_prefix(k, reply_prefix(p)) && decode_reply(m[k]) == Some(a);
    let kb = choose|k: Seq<u8>|
        #![trigger m[k]]
        m.dom().contains(k) && has_prefix(k, reply_prefix(p)) && decode_reply(m[k]) == Some(b);
    assert(ka == kb);
}

/// After a reply is written beneath `parent`, the listing of `parent` holds it, and the
/// thread listing is unchanged.
pub proof fn lemma_created_reply_listed(m: Map<Seq<u8>, Seq<u8>>, parent: u64, r: ReplyView)
    requires
        r.fits(),
    ensures
        listed_replies(m.insert(reply_key(parent, r.id), encode_reply(r)), parent).contains(r),
        listed_threads(m.insert(reply_key(parent, r.id), encode_reply(r))) == listed_threads(m),
{
    lemma_reply_round_trip(r);
    lemma_reply_key_in_prefix(parent, r.id);
    let m2 = m.insert(reply_key(parent, r.id), encode_reply(r));
    assert(m2[reply_key(parent, r.id)] == encode_reply(r));
    lemma_reply_write_keeps_keyed(m, parent, r, parent);
}

/// A reply written beneath `q` never shows in the listing of another thread `p`, whatever
/// the widths of the two ids (thread 1 and thread 12 stay apart).
pub proof fn lemma_reply_listing_isolated(
    m: Map<Seq<u8>, Seq<u8>>,
    p: u64,
    q: u64,
    id: u64,
    v: Seq<u8>,
)
    requires
        p != q,
    ensures
        listed_replies(m.insert(reply_key(q, id), v), p) == listed_replies(m, p),
{
    lemma_reply_scan_isolates(p, q, id);
    lemma_write_outside_replies(m, p, reply_key(q, id), v);
}

/// A thread written under `thread_key(id)` with the activity of a reply is found with its
/// last activity moved to `now` or kept, never moved back.
pub proof fn lemma_touched_thread_found(m: Map<Seq<u8>, Seq<u8>>, t: ThreadView, now: i64)
    requires
        t.fits(),
    ensures
        found_thread(m.insert(thread_key(t.id), encode_thread(touched(t, now))), t.id) == Some(
            touched(t, now),
        ),
        touched(t, now).last_updated >= t.last_updated,
        touched(t, now).last_updated >= now,
{
    lemma_thread_round_trip(touched(t, now));
}

/// The counters of the identifier allocator show in no listing and keep every record
/// keyed.
pub proof fn lemma_counter_writes_invisible(m: Map<Seq<u8>, Seq<u8>>, p: u64, q: u64, v: Seq<u8>)
    ensures
        listed_threads(m.insert(thread_counter_key(), v)) == listed_threads(m),
        listed_threads(m.insert(reply_counter_key(q), v)) == listed_threads(m),
        listed_replies(m.insert(thread_counter_key(), v), p) == listed_replies(m, p),
        listed_replies(m.insert(reply_counter_key(q), v), p) == listed_replies(m, p),
        threads_keyed(m) ==> threads_keyed(m.insert(thread_counter_key(), v)),
        threads_keyed(m) ==> threads_keyed(m.insert(reply_counter_key(q), v)),
        replies_keyed(m, p) ==> replies_keyed(m.insert(thread_counter_key(), v), p),
        replies_keyed(m, p) ==> replies_keyed(m.insert(reply_counter_key(q), v), p),
{
    lemma_namespaces_disjoint(0, q, p);
    lemma_write_outside_threads(m, thread_counter_key(), v);
    lemma_write_outside_threads(m, reply_counter_key(q), v);
    lemma_write_outside_replies(m, p, thread_counter_key(), v);
    lemma_write_outside_replies(m, p, reply_counter_key(q), v);
}

/// Whether `entries` are exactly the records of `m` whose keys start with `prefix`.
pub open spec fn is_scan_of(
    entries: Seq<(Seq<u8>, Seq<u8>)>,
    m: Map<Seq<u8>, Seq<u8>>,
    prefix: Seq<u8>,
) -> bool {
    forall|k: Seq<u8>, v: Seq<u8>|
        #![trigger entries.contains((k, v))]
        entries.contains((k, v)) <==> (m.dom().contains(k) && has_prefix(k, prefix) && m[k] == v)
}

/// Whether no two records of `entries` share a key.
pub open spec fn keys_distinct(entries: Seq<(Seq<u8>, Seq<u8>)>) -> bool {
    forall|i: int, j: int|
        0 <= i < j < entries.len() ==> #[trigger] entries[i].0 != #[trigger] entries[j].0
}

/// A scanned record list holds the thread `t` exactly where one of its records decodes to it.
pub proof fn lemma_threads_in_members(entries: Seq<(Seq<u8>, Seq<u8>)>, t: ThreadView)
    ensures
        threads_in(entries).contains(t) <==> exists|i: int|
            0 <= i < entries.len() && decode_thread((#[trigger] entries[i]).1) == Some(t),
    decreases entries.len(),
{
    if entries.len() > 0 {
        let rest = entries.drop_last();
        let last = entries.last();
        let n = entries.len() - 1;
        assert(entries[n] == last);
        let hit = decode_thread(last.1) == Some(t);
        let any = exists|i: int| 0 <= i < entries.len() && decode_thread((#[trigger] entries[i]).1) == Some(t);
        let any_rest = exists|i: int| 0 <= i < rest.len() && decode_thread((#[trigger] rest[i]).1) == Some(t);
        assert(any <==> any_rest || hit) by {
            if any {
                let i = choose|i: int| 0 <= i < entries.len() && decode_thread((#[trigger] entries[i]).1) == Some(t);
                if i < n {
                    assert(rest[i] == entries[i]);
                }
            }
            if any_rest {
                let i = choose|i: int| 0 <= i < rest.len() && decode_thread((#[trigger] rest[i]).1) == Some(t);
                assert(rest[i] == entries[i]);
            }
        }
        lemma_threads_in_members(rest, t);
        let before = threads_in(rest);
        match decode_thread(last.1) {
            Some(x) => {
                assert(threads_in(entries) == before.push(x));
                if before.push(x).contains(t) {
                    let j = choose|j: int| 0 <= j < before.push(x).len() && before.push(x)[j] == t;
                    if j < before.len() {
                        assert(before[j] == t);
                    }
                }
                if before.contains(t) {
                    let j = choose|j: int| 0 <= j < before.len() && before[j] == t;
                    assert(before.push(x)[j] == t);
                }
                if hit {
                    assert(before.push(x)[before.len() as int] == t);
                }
            },
            None => {},
        }
    }
}

/// Whether each record of `entries` that decodes is stored under its own id.
pub open spec fn threads_entries_keyed(entries: Seq<(Seq<u8>, Seq<u8>)>) -> bool {
    forall|i: int|
        0 <= i < entries.len() && decode_thread((#[trigger] entries[i]).1) is Some ==> entries[i].0
            == thread_key(decode_thread(entries[i].1)->Some_0.id)
}

/// A scan that gives each key once, of records stored under their own ids, lists each id once.
pub proof fn lemma_threads_in_ids_distinct(entries: Seq<(Seq<u8>, Seq<u8>)>)
    requires
        keys_distinct(entries),
        threads_entries_keyed(entries),
    ensures
        forall|i: int, j: int|
            0 <= i < j < threads_in(entries).len() ==> #[trigger] threads_in(entries)[i].id
                != #[trigger] threads_in(entries)[j].id,
    decreases entries.len(),
{
    if entries.len() > 0 {
        let rest = entries.drop_last();
        let n = entries.len() - 1;
        assert(entries[n] == entries.last());
        assert forall|i: int, j: int| 0 <= i < j < rest.len() implies #[trigger] rest[i].0
            != #[trigger] rest[j].0 by {
            assert(rest[i] == entries[i] && rest[j] == entries[j]);
        }
        assert forall|i: int| 0 <= i < rest.len() && decode_thread((#[trigger] rest[i]).1) is Some implies rest[i].0
            == thread_key(decode_thread(rest[i].1)->Some_0.id) by {
            assert(rest[i] == entries[i]);
        }
        lemma_threads_in_ids_distinct(rest);
        let before = threads_in(rest);
        match decode_thread(entries.last().1) {
            Some(x) => {
                let after = before.push(x);
                assert(threads_in(entries) == after);
                assert forall|i: int, j: int| 0 <= i < j < after.len() implies #[trigger] after[i].id
                    != #[trigger] after[j].id by {
                    if j == before.len() {
                        let y = before[i];
                        if y.id == x.id {
                            assert(before.contains(y));
                            lemma_threads_in_members(rest, y);
                            let k = choose|k: int| 0 <= k < rest.len() && decode_thread((#[trigger] rest[k]).1) == Some(y);
                            assert(rest[k] == entries[k]);
                        }
                    } else {
                        assert(after[i] == before[i] && after[j] == before[j]);
                    }
                }
            },
            None => {},
        }
    }
}

/// Decoding a full scan of the threads in `m`, whatever its order, gives the
/// listing of `m`; where the store is keyed, each id comes once.
pub proof fn lemma_thread_scan_is_listing(
    entries: Seq<(Seq<u8>, Seq<u8>)>,
    m: Map<Seq<u8>, Seq<u8>>,
)
    requires
        is_scan_of(entries, m, thread_namespace()),
    ensures
        threads_in(entries).to_set() == listed_threads(m),
        keys_distinct(entries) && threads_keyed(m) ==> forall|i: int, j: int|
            0 <= i < j < threads_in(entries).len() ==> #[trigger] threads_in(entries)[i].id
                != #[trigger] threads_in(entries)[j].id,
{
    assert forall|t: ThreadView| threads_in(entries).to_set().contains(t) <==> listed_threads(m).contains(t) by {
        lemma_threads_in_members(entries, t);
        if listed_threads(m).contains(t) {
            let k = choose|k: Seq<u8>|
                #![trigger m[k]]
                m.dom().contains(k) && has_prefix(k, thread_namespace()) && decode_thread(m[k]) == Some(t);
            assert(entries.contains((k, m[k])));
            let i = choose|i: int| 0 <= i < entries.len() && entries[i] == (k, m[k]);
            assert(decode_thread(entries[i].1) == Some(t));
        }
        if threads_in(entries).contains(t) {
            let i = choose|i: int| 0 <= i < entries.len() && decode_thread((#[trigger] entries[i]).1) == Some(t);
            assert(entries.contains((entries[i].0, entries[i].1)));
        }
    }
    assert(threads_in(entries).to_set() =~= listed_threads(m));
    if keys_distinct(entries) && threads_keyed(m) {
        assert forall|i: int| 0 <= i < entries.len() && decode_thread((#[trigger] entries[i]).1) is Some implies entries[i].0
            == thread_key(decode_thread(entries[i].1)->Some_0.id) by {
            assert(entries.contains((entries[i].0, entries[i].1)));
            assert(m[entries[i].0] == entries[i].1);
        }
        lemma_threads_in_ids_distinct(entries);
    }
}

/// A scanned record list holds the reply `r` exactly where one of its records decodes to it.
pub proof fn lemma_replies_in_members(entries: Seq<(Seq<u8>, Seq<u8>)>, r: ReplyView)
    ensures
        replies_in(entries).contains(r) <==> exists|i: int|
            0 <= i < entries.len() && decode_reply((#[trigger] entries[i]).1) == Some(r),
    decreases entries.len(),
{
    if entries.len() > 0 {
        let rest = entries.drop_last();
        let last = entries.last();
        let n = entries.len() - 1;
        assert(entries[n] == last);
        let hit = decode_reply(last.1) == Some(r);
        let any = exists|i: int| 0 <= i < entries.len() && decode_reply((#[trigger] entries[i]).1) == Some(r);
        let any_rest = exists|i: int| 0 <= i < rest.len() && decode_reply((#[trigger] rest[i]).1) == Some(r);
        assert(any <==> any_rest || hit) by {
            if any {
                let i = choose|i: int| 0 <= i < entries.len() && decode_reply((#[trigger] entries[i]).1) == Some(r);
                if i < n {
                    assert(rest[i] == entries[i]);
                }
            }
            if any_rest {
                let i = choose|i: int| 0 <= i < rest.len() && decode_reply((#[trigger] rest[i]).1) == Some(r);
                assert(rest[i] == entries[i]);
            }
        }
        lemma_replies_in_members(rest, r);
        let before = replies_in(rest);
        match decode_reply(last.1) {
            Some(x) => {
                assert(replies_in(entries) == before.push(x));
                if before.push(x).contains(r) {
                    let j = choose|j: int| 0 <= j < before.push(x).len() && before.push(x)[j] == r;
                    if j < before.len() {
                        assert(before[j] == r);
                    }
                }
                if before.contains(r) {
                    let j = choose|j: int| 0 <= j < before.len() && before[j] == r;
                    assert(before.push(x)[j] == r);
                }
                if hit {
                    assert(before.push(x)[before.len() as int] == r);
                }
            },
            None => {},
        }
    }
}

/// Whether each record of `entries` that decodes is stored under its own id.
pub open spec fn replies_entries_keyed(p: u64, entries: Seq<(Seq<u8>, Seq<u8>)>) -> bool {
    forall|i: int|
        0 <= i < entries.len() && decode_reply((#[trigger] entries[i]).1) is Some ==> entries[i].0
            == reply_key(p, decode_reply(entries[i].1)->Some_0.id)
}

/// A scan that gives each key once, of records stored under their own ids, lists each id once.
pub proof fn lemma_replies_in_ids_distinct(p: u64, entries: Seq<(Seq<u8>, Seq<u8>)>)
    requires
        keys_distinct(entries),
        replies_entries_keyed(p, entries),
    ensures
        forall|i: int, j: int|
            0 <= i < j < replies_in(entries).len() ==> #[trigger] replies_in(entries)[i].id
                != #[trigger] replies_in(entries)[j].id,
    decreases entries.len(),
{
    if entries.len() > 0 {
        let rest = entries.drop_last();
        let n = entries.len() - 1;
        assert(entries[n] == entries.last());
        assert forall|i: int, j: int| 0 <= i < j < rest.len() implies #[trigger] rest[i].0
            != #[trigger] rest[j].0 by {
            assert(rest[i] == entries[i] && rest[j] == entries[j]);
        }
        assert forall|i: int| 0 <= i < rest.len() && decode_reply((#[trigger] rest[i]).1) is Some implies rest[i].0
            == reply_key(p, decode_reply(rest[i].1)->Some_0.id) by {
            assert(rest[i] == entries[i]);
        }
        lemma_replies_in_ids_distinct(p, rest);
        let before = replies_in(rest);
        match decode_reply(entries.last().1) {
            Some(x) => {
                let after = before.push(x);
                assert(replies_in(entries) == after);
                assert forall|i: int, j: int| 0 <= i < j < after.len() implies #[trigger] after[i].id
                    != #[trigger] after[j].id by {
                    if j == before.len() {
                        let y = before[i];
                        if y.id == x.id {
                            assert(before.contains(y));
                            lemma_replies_in_members(rest, y);
                            let k = choose|k: int| 0 <= k < rest.len() && decode_reply((#[trigger] rest[k]).1) == Some(y);
                            assert(rest[k] == entries[k]);
                        }
                    } else {
                        assert(after[i] == before[i] && after[j] == before[j]);
                    }
                }
            },
            None => {},
        }
    }
}

/// Decoding a full scan of the replies of `p` in `m`, whatever its order, gives the
/// listing of `m`; where the store is keyed, each id comes once.
pub proof fn lemma_reply_scan_is_listing(
    p: u64, entries: Seq<(Seq<u8>, Seq<u8>)>,
    m: Map<Seq<u8>, Seq<u8>>,
)
    requires
        is_scan_of(entries, m, reply_prefix(p)),
    ensures
        replies_in(entries).to_set() == listed_replies(m, p),
        keys_distinct(entries) && replies_keyed(m, p) ==> forall|i: int, j: int|
            0 <= i < j < replies_in(entries).len() ==> #[trigger] replies_in(entries)[i].id
                != #[trigger] replies_in(entries)[j].id,
{
    assert forall|r: ReplyView| replies_in(entries).to_set().contains(r) <==> listed_replies(m, p).contains(r) by {
        lemma_replies_in_members(entries, r);
        if listed_replies(m, p).contains(r) {
            let k = choose|k: Seq<u8>|
                #![trigger m[k]]
                m.dom().contains(k) && has_prefix(k, reply_prefix(p)) && decode_reply(m[k]) == Some(r);
            assert(entries.contains((k, m[k])));
            let i = choose|i: int| 0 <= i < entries.len() && entries[i] == (k, m[k]);
            assert(decode_reply(entries[i].1) == Some(r));
        }
        if replies_in(entries).contains(r) {
            let i = choose|i: int| 0 <= i < entries.len() && decode_reply((#[trigger] entries[i]).1) == Some(r);
            assert(entries.contains((entries[i].0, entries[i].1)));
        }
    }
    assert(replies_in(entries).to_set() =~= listed_replies(m, p));
    if keys_distinct(entries) && replies_keyed(m, p) {
        assert forall|i: int| 0 <= i < entries.len() && decode_reply((#[trigger] entries[i]).1) is Some implies entries[i].0
            == reply_key(p, decode_reply(entries[i].1)->Some_0.id) by {
            assert(entries.contains((entries[i].0, entries[i].1)));
            assert(m[entries[i].0] == entries[i].1);
        }
        lemma_replies_in_ids_distinct(p, entries);
    }
}

} // verus!
