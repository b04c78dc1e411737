//! The key scheme: how thread and reply identities map onto store keys.
use vstd::prelude::*;

verus! {

/// Whether `b` is an ASCII decimal digit.
pub open spec fn is_digit(b: u8) -> bool {
    48 <= b && b <= 57
}

/// The decimal digits of `n`, most significant first, without leading zeros.
pub open spec fn decimal(n: nat) -> Seq<u8>
    decreases n,
{
    if n < 10 {
        seq![(48 + n) as u8]
    } else {
        decimal(n / 10).push((48 + n % 10) as u8)
    }
}

/// A decimal rendering is never empty and holds digits only.
pub proof fn lemma_decimal_digits(n: nat)
    ensures
        decimal(n).len() >= 1,
        n >= 10 ==> decimal(n).len() >= 2,
        forall|i: int| 0 <= i < decimal(n).len() ==> is_digit(#[trigger] decimal(n)[i]),
    decreases n,
{
    if n >= 10 {
        lemma_decimal_digits(n / 10);
    }
}

/// Distinct numbers have distinct decimal renderings.
pub proof fn lemma_decimal_injective(a: nat, b: nat)
    requires
        decimal(a) == decimal(b),
    ensures
        a == b,
    decreases a,
{
    lemma_decimal_digits(a);
    lemma_decimal_digits(b);
    if a < 10 && b < 10 {
        assert(decimal(a)[0] == (48 + a) as u8);
        assert(decimal(b)[0] == (48 + b) as u8);
    } else if a < 10 || b < 10 {
        assert(decimal(a).len() == decimal(b).len());
    } else if a >= 10 && b >= 10 {
        let la = decimal(a).len();
        assert(decimal(a / 10) =~= decimal(a).drop_last());
        assert(decimal(b / 10) =~= decimal(b).drop_last());
        lemma_decimal_injective(a / 10, b / 10);
        assert(decimal(a)[la - 1] == (48 + a % 10) as u8);
        assert(decimal(b)[la - 1] == (48 + b % 10) as u8);
        assert(a % 10 == b % 10);
        assert(a == 10 * (a / 10) + a % 10);
        assert(b == 10 * (b / 10) + b % 10);
    }
}

/// Appends the decimal digits of `n` to `out`.
pub fn push_decimal(out: &mut Vec<u8>, n: u64)
    ensures
        final(out)@ == old(out)@ + decimal(n as nat),
    decreases n,
{
    if n >= 10 {
        push_decimal(out, n / 10);
        let ghost mid = out@;
        out.push((48 + n % 10) as u8);
        assert(out@ =~= old(out)@ + decimal(n as nat)) by {
            assert(mid =~= old(out)@ + decimal((n / 10) as nat));
        }
    } else {
        out.push((48 + n) as u8);
        assert(out@ =~= old(out)@ + decimal(n as nat));
    }
}

/// Whether `p` is a prefix of `s`.
pub open spec fn has_prefix(s: Seq<u8>, p: Seq<u8>) -> bool {
    p.len() <= s.len() && s.subrange(0, p.len() as int) == p
}

/// The ASCII text `thread_`: the namespace of thread records.
pub open spec fn thread_namespace() -> Seq<u8> {
    seq![116u8, 104u8, 114u8, 101u8, 97u8, 100u8, 95u8]
}

/// The ASCII text `reply_`: the namespace of reply records.
pub open spec fn reply_namespace() -> Seq<u8> {
    seq![114u8, 101u8, 112u8, 108u8, 121u8, 95u8]
}

/// The ASCII text `next_`: the namespace of the identifier counters.
pub open spec fn counter_namespace() -> Seq<u8> {
    seq![110u8, 101u8, 120u8, 116u8, 95u8]
}

/// The separator `_` that ends a parent id inside a reply key.
pub open spec fn separator() -> u8 {
    95u8
}

/// The key of the thread `id`: `thread_<id>`.
pub open spec fn thread_key(id: u64) -> Seq<u8> {
    thread_namespace() + decimal(id as nat)
}

/// The prefix shared by the replies of `parent` and by nothing else: `reply_<parent>_`.
pub open spec fn reply_prefix(parent: u64) -> Seq<u8> {
    reply_namespace() + decimal(parent as nat).push(separator())
}

/// The key of reply `id` under thread `parent`: `reply_<parent>_<id>`.
pub open spec fn reply_key(parent: u64, id: u64) -> Seq<u8> {
    reply_prefix(parent) + decimal(id as nat)
}

/// The key of the counter that allocates thread ids: `next_thread_`.
pub open spec fn thread_counter_key() -> Seq<u8> {
    counter_namespace() + thread_namespace()
}

/// The key of the counter that allocates the reply ids of `parent`: `next_reply_<parent>_`.
pub open spec fn reply_counter_key(parent: u64) -> Seq<u8> {
    counter_namespace() + reply_prefix(parent)
}

/// A number terminated by the separator fixes the number: if `ns + d(a) + "_"`
/// is a prefix of `ns + d(b) + "_" + rest`, then `a == b`.
proof fn lemma_terminated_number(ns: Seq<u8>, a: nat, b: nat, rest: Seq<u8>)
    requires
        has_prefix(
            ns + decimal(b).push(separator()) + rest,
            ns + decimal(a).push(separator()),
        ),
    ensures
        a == b,
{
    let s = ns + decimal(b).push(separator()) + rest;
    let da = decimal(a);
    let db = decimal(b);
    let n = ns.len() as int;
    lemma_decimal_digits(a);
    lemma_decimal_digits(b);
    let pa = ns + da.push(separator());
    assert(s.subrange(0, pa.len() as int)[n + da.len()] == pa[n + da.len()]);
    if da.len() < db.len() {
        assert(s[n + da.len()] == db[da.len() as int]);
        assert(false);
    } else if da.len() > db.len() {
        assert(s.subrange(0, pa.len() as int)[n + db.len()] == pa[n + db.len()]);
        assert(pa[n + db.len()] == da[db.len() as int]);
        assert(false);
    }
    assert(da =~= db) by {
        assert forall|i: int| 0 <= i < da.len() implies da[i] == db[i] by {
            assert(s.subrange(0, pa.len() as int)[n + i] == pa[n + i]);
        }
    }
    lemma_decimal_injective(a, b);
}

/// A prefix scan with `reply_prefix(p)` reaches the replies of `p` and of no other thread,
/// whatever the widths of the ids.
pub proof fn lemma_reply_scan_isolates(p: u64, q: u64, id: u64)
    ensures
        has_prefix(reply_key(q, id), reply_prefix(p)) <==> p == q,
{
    if has_prefix(reply_key(q, id), reply_prefix(p)) {
        lemma_terminated_number(reply_namespace(), p as nat, q as nat, decimal(id as nat));
    }
    if p == q {
        assert(reply_key(q, id).subrange(0, reply_prefix(p).len() as int) =~= reply_prefix(p));
    }
}

/// Distinct replies of one thread have distinct keys, and so do distinct threads.
pub proof fn lemma_keys_injective(a: u64, b: u64, p: u64, q: u64)
    ensures
        thread_key(a) == thread_key(b) ==> a == b,
        reply_key(p, a) == reply_key(q, b) ==> p == q && a == b,
{
    if thread_key(a) == thread_key(b) {
        assert(decimal(a as nat) =~= thread_key(a).subrange(7, thread_key(a).len() as int));
        assert(decimal(b as nat) =~= thread_key(b).subrange(7, thread_key(b).len() as int));
        lemma_decimal_injective(a as nat, b as nat);
    }
    if reply_key(p, a) == reply_key(q, b) {
        lemma_reply_scan_isolates(p, q, b);
        assert(reply_key(p, a).subrange(0, reply_prefix(p).len() as int) =~= reply_prefix(p));
        let k = reply_prefix(p).len() as int;
        assert(decimal(a as nat) =~= reply_key(p, a).subrange(k, reply_key(p, a).len() as int));
        assert(decimal(b as nat) =~= reply_key(q, b).subrange(k, reply_key(q, b).len() as int));
        lemma_decimal_injective(a as nat, b as nat);
    }
}

/// The three namespaces do not meet: the thread scan reaches no reply or counter, and a
/// reply scan reaches no thread or counter.
pub proof fn lemma_namespaces_disjoint(id: u64, p: u64, q: u64)
    ensures
        !has_prefix(reply_key(p, q), thread_namespace()),
        !has_prefix(thread_key(id), reply_prefix(p)),
        !has_prefix(thread_counter_key(), thread_namespace()),
        !has_prefix(reply_counter_key(p), thread_namespace()),
        !has_prefix(thread_counter_key(), reply_prefix(q)),
        !has_prefix(reply_counter_key(p), reply_prefix(q)),
{
    assert(reply_key(p, q)[0] == 114u8);
    assert(thread_key(id)[0] == 116u8);
    assert(thread_counter_key()[0] == 110u8);
    assert(reply_counter_key(p)[0] == 110u8);
    assert(reply_prefix(q)[0] == 114u8);
    assert(thread_key(id).len() >= 1);
    lemma_decimal_digits(q as nat);
    assert(reply_prefix(p).len() >= 1);
    assert(reply_prefix(q).len() >= 1);
    if has_prefix(reply_key(p, q), thread_namespace()) {
        assert(reply_key(p, q).subrange(0, 7)[0] == thread_namespace()[0]);
    }
    if has_prefix(thread_key(id), reply_prefix(p)) {
        assert(thread_key(id).subrange(0, reply_prefix(p).len() as int)[0] == reply_prefix(p)[0]);
    }
    if has_prefix(thread_counter_key(), thread_namespace()) {
        assert(thread_counter_key().subrange(0, 7)[0] == thread_namespace()[0]);
    }
    if has_prefix(reply_counter_key(p), thread_namespace()) {
        assert(reply_counter_key(p).subrange(0, 7)[0] == thread_namespace()[0]);
    }
    if has_prefix(thread_counter_key(), reply_prefix(q)) {
        assert(thread_counter_key().subrange(0, reply_prefix(q).len() as int)[0] == reply_prefix(q)[0]);
    }
    if has_prefix(reply_counter_key(p), reply_prefix(q)) {
        assert(reply_counter_key(p).subrange(0, reply_prefix(q).len() as int)[0] == reply_prefix(q)[0]);
    }
}

/// The prefix that every thread key starts with.
pub fn thread_scan_prefix() -> (r: Vec<u8>)
    ensures
        r@ == thread_namespace(),
{
    let r: Vec<u8> = vec![116u8, 104u8, 114u8, 101u8, 97u8, 100u8, 95u8];
    assert(r@ =~= thread_namespace());
    r
}

/// The store key of the thread `id`.
pub fn thread_key_bytes(id: u64) -> (r: Vec<u8>)
    ensures
        r@ == thread_key(id),
{
    let mut r = thread_scan_prefix();
    push_decimal(&mut r, id);
    r
}

/// The prefix under which the replies of `parent` are stored.
pub fn reply_prefix_bytes(parent: u64) -> (r: Vec<u8>)
    ensures
        r@ == reply_prefix(parent),
{
    let mut r: Vec<u8> = vec![114u8, 101u8, 112u8, 108u8, 121u8, 95u8];
    assert(r@ =~= reply_namespace());
    push_decimal(&mut r, parent);
    r.push(95u8);
    assert(r@ =~= reply_prefix(parent));
    r
}

/// The store key of reply `id` under thread `parent`.
pub fn reply_key_bytes(parent: u64, id: u64) -> (r: Vec<u8>)
    ensures
        r@ == reply_key(parent, id),
{
    let mut r = reply_prefix_bytes(parent);
    push_decimal(&mut r, id);
    r
}

/// The key of the counter of thread ids.
pub fn thread_counter_key_bytes() -> (r: Vec<u8>)
    ensures
        r@ == thread_counter_key(),
{
    let r: Vec<u8> = vec![
        110u8, 101u8, 120u8, 116u8, 95u8, 116u8, 104u8, 114u8, 101u8, 97u8, 100u8, 95u8,
    ];
    assert(r@ =~= thread_counter_key());
    r
}

/// The key of the counter of the reply ids of `parent`.
pub fn reply_counter_key_bytes(parent: u64) -> (r: Vec<u8>)
    ensures
        r@ == reply_counter_key(parent),
{
    let mut r: Vec<u8> = vec![110u8, 101u8, 120u8, 116u8, 95u8];
    let tail = reply_prefix_bytes(parent);
    let mut i: usize = 0;
    while i < tail.len()
        invariant
            i <= tail@.len(),
            tail@ == reply_prefix(parent),
            r@ == counter_namespace() + tail@.subrange(0, i as int),
        decreases tail@.len() - i,
    {
        r.push(tail[i]);
        i = i + 1;
        assert(r@ =~= counter_namespace() + tail@.subrange(0, i as int));
    }
    assert(tail@.subrange(0, i as int) =~= tail@);
    r
}

} // verus!
