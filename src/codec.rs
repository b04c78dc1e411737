//! The record codec: threads and replies to bytes and back.
//!
//! A record is a sequence of fields. An integer is eight bytes, most significant
//! first; a timestamp is stored offset by 2^63 so that it fits an unsigned integer;
//! a text is its UTF-8 byte length as an integer followed by its UTF-8 bytes.
//! A thread is `id, last_updated, title, message`; a reply is `id, message`.
use vstd::prelude::*;
use vstd::utf8::{decode_utf8, encode_utf8, valid_utf8};

verus! {

broadcast use {vstd::utf8::encode_utf8_valid_utf8, vstd::utf8::encode_utf8_decode_utf8};

/// The eight bytes of `n`, most significant first.
pub open spec fn be8(n: u64) -> Seq<u8> {
    seq![
        (n >> 56u64) as u8,
        (n >> 48u64) as u8,
        (n >> 40u64) as u8,
        (n >> 32u64) as u8,
        (n >> 24u64) as u8,
        (n >> 16u64) as u8,
        (n >> 8u64) as u8,
        n as u8,
    ]
}

/// The integer held by the eight bytes of `b` from `pos` on.
pub open spec fn read_be8(b: Seq<u8>, pos: int) -> u64 {
    (b[pos] as u64) << 56u64 | (b[pos + 1] as u64) << 48u64 | (b[pos + 2] as u64) << 40u64 | (
    b[pos + 3] as u64) << 32u64 | (b[pos + 4] as u64) << 24u64 | (b[pos + 5] as u64) << 16u64 | (
    b[pos + 6] as u64) << 8u64 | (b[pos + 7] as u64)
}

proof fn lemma_be8_bits(n: u64)
    ensures
        (((n >> 56u64) as u8) as u64) << 56u64 | (((n >> 48u64) as u8) as u64) << 48u64 | (((n
            >> 40u64) as u8) as u64) << 40u64 | (((n >> 32u64) as u8) as u64) << 32u64 | (((n
            >> 24u64) as u8) as u64) << 24u64 | (((n >> 16u64) as u8) as u64) << 16u64 | (((n
            >> 8u64) as u8) as u64) << 8u64 | ((n as u8) as u64) == n,
{
    assert((((n >> 56u64) as u8) as u64) << 56u64 | (((n >> 48u64) as u8) as u64) << 48u64 | (((n
        >> 40u64) as u8) as u64) << 40u64 | (((n >> 32u64) as u8) as u64) << 32u64 | (((n
        >> 24u64) as u8) as u64) << 24u64 | (((n >> 16u64) as u8) as u64) << 16u64 | (((n
        >> 8u64) as u8) as u64) << 8u64 | ((n as u8) as u64) == n) by (bit_vector);
}

/// Reading back the eight bytes of `n` gives `n`, wherever they stand.
pub proof fn lemma_be8_round_trip(pre: Seq<u8>, n: u64, post: Seq<u8>)
    ensures
        read_be8(pre + be8(n) + post, pre.len() as int) == n,
{
    let s = pre + be8(n) + post;
    let k = pre.len() as int;
    assert(s[k] == be8(n)[0] && s[k + 1] == be8(n)[1] && s[k + 2] == be8(n)[2] && s[k + 3]
        == be8(n)[3]);
    assert(s[k + 4] == be8(n)[4] && s[k + 5] == be8(n)[5] && s[k + 6] == be8(n)[6] && s[k + 7]
        == be8(n)[7]);
    lemma_be8_bits(n);
}

/// Appends the eight bytes of `n`.
pub fn push_be8(out: &mut Vec<u8>, n: u64)
    ensures
        final(out)@ == old(out)@ + be8(n),
{
    out.push((n >> 56u64) as u8);
    out.push((n >> 48u64) as u8);
    out.push((n >> 40u64) as u8);
    out.push((n >> 32u64) as u8);
    out.push((n >> 24u64) as u8);
    out.push((n >> 16u64) as u8);
    out.push((n >> 8u64) as u8);
    out.push(n as u8);
    assert(out@ =~= old(out)@ + be8(n));
}

/// Reads the integer in the eight bytes of `b` from `pos` on.
pub fn get_be8(b: &[u8], pos: usize) -> (r: u64)
    requires
        pos + 8 <= b@.len(),
    ensures
        r == read_be8(b@, pos as int),
{
    (b[pos] as u64) << 56u64 | (b[pos + 1] as u64) << 48u64 | (b[pos + 2] as u64) << 40u64 | (
    b[pos + 3] as u64) << 32u64 | (b[pos + 4] as u64) << 24u64 | (b[pos + 5] as u64) << 16u64 | (
    b[pos + 6] as u64) << 8u64 | (b[pos + 7] as u64)
}

/// A timestamp as an unsigned integer: offset by 2^63, so that order is kept.
pub open spec fn stamp_bits(t: i64) -> u64 {
    (t as int + 0x8000_0000_0000_0000) as u64
}

/// The timestamp that `u` stands for.
pub open spec fn stamp_of_bits(u: u64) -> i64 {
    (u as int - 0x8000_0000_0000_0000) as i64
}

fn to_stamp_bits(t: i64) -> (r: u64)
    ensures
        r == stamp_bits(t),
{
    if t >= 0 {
        t as u64 + 0x8000_0000_0000_0000u64
    } else {
        (t + 0x7fff_ffff_ffff_ffffi64 + 1) as u64
    }
}

fn from_stamp_bits(u: u64) -> (r: i64)
    ensures
        r == stamp_of_bits(u),
{
    if u >= 0x8000_0000_0000_0000u64 {
        (u - 0x8000_0000_0000_0000u64) as i64
    } else {
        (u as i64) - 0x7fff_ffff_ffff_ffffi64 - 1
    }
}

/// Whether the UTF-8 form of `s` is short enough for its length to be stored.
pub open spec fn text_fits(s: Seq<char>) -> bool {
    encode_utf8(s).len() <= u64::MAX
}

/// A text field: the byte length, then the UTF-8 bytes.
pub open spec fn text_field(s: Seq<char>) -> Seq<u8> {
    be8(encode_utf8(s).len() as u64) + encode_utf8(s)
}

/// The text field that starts at `pos` of `b`, with the position after it; `None` where
/// the bytes are too short or are not UTF-8.
pub open spec fn read_text(b: Seq<u8>, pos: int) -> Option<(Seq<char>, int)> {
    if 0 <= pos && pos + 8 <= b.len() {
        let n = read_be8(b, pos) as int;
        let body = b.subrange(pos + 8, pos + 8 + n);
        if pos + 8 + n <= b.len() && valid_utf8(body) {
            Some((decode_utf8(body), pos + 8 + n))
        } else {
            None
        }
    } else {
        None
    }
}

proof fn lemma_text_round_trip(pre: Seq<u8>, s: Seq<char>, post: Seq<u8>)
    requires
        text_fits(s),
    ensures
        read_text(pre + text_field(s) + post, pre.len() as int) == Some(
            (s, pre.len() + text_field(s).len() as int),
        ),
{
    let e = encode_utf8(s);
    let b = pre + text_field(s) + post;
    assert(b =~= pre + be8(e.len() as u64) + (e + post));
    lemma_be8_round_trip(pre, e.len() as u64, e + post);
    let k = pre.len() as int;
    assert(b.subrange(k + 8, k + 8 + e.len()) =~= e);
}

/// Relies on `String::from_utf8`: it accepts exactly the well-formed UTF-8 byte
/// strings, and the string it returns holds the characters they encode.
#[verifier::external_body]
fn string_from_utf8(v: Vec<u8>) -> (r: Option<String>)
    ensures
        r is Some <==> valid_utf8(v@),
        r is Some ==> r->Some_0@ == decode_utf8(v@),
{
    String::from_utf8(v).ok()
}

/// Appends the text field of `s`.
fn push_text(out: &mut Vec<u8>, s: &String)
    ensures
        final(out)@ == old(out)@ + text_field(s@),
        text_fits(s@),
{
    let b = s.as_str().as_bytes();
    push_be8(out, b.len() as u64);
    let ghost start = out@;
    let mut i: usize = 0;
    while i < b.len()
        invariant
            i <= b@.len(),
            b@ == encode_utf8(s@),
            out@ == start + b@.subrange(0, i as int),
        decreases b@.len() - i,
    {
        out.push(b[i]);
        i = i + 1;
        assert(out@ =~= start + b@.subrange(0, i as int));
    }
    assert(b@.subrange(0, i as int) =~= b@);
    assert(out@ =~= old(out)@ + text_field(s@));
}

/// Reads the text field at `pos` of `b`, with the position after it.
fn get_text(b: &[u8], pos: usize) -> (r: Option<(String, usize)>)
    ensures
        match r {
            Some((s, next)) => read_text(b@, pos as int) == Some((s@, next as int)),
            None => read_text(b@, pos as int) is None,
        },
{
    if b.len() < 8 || pos > b.len() - 8 {
        return None;
    }
    let n = get_be8(b, pos);
    let start = pos + 8;
    if n > (b.len() - start) as u64 {
        return None;
    }
    let end = start + n as usize;
    let mut body: Vec<u8> = Vec::new();
    let mut i: usize = start;
    while i < end
        invariant
            start <= i <= end <= b@.len(),
            body@ == b@.subrange(start as int, i as int),
        decreases end - i,
    {
        body.push(b[i]);
        i = i + 1;
        assert(body@ =~= b@.subrange(start as int, i as int));
    }
    match string_from_utf8(body) {
        Some(s) => Some((s, end)),
        None => None,
    }
}

/// A top-level discussion topic.
pub struct Thread {
    pub id: u64,
    pub title: String,
    pub message: String,
    /// Seconds since the epoch of the last activity on the thread.
    pub last_updated: i64,
}

/// The value that a `Thread` stands for.
pub struct ThreadView {
    pub id: u64,
    pub title: Seq<char>,
    pub message: Seq<char>,
    pub last_updated: i64,
}

impl View for Thread {
    type V = ThreadView;

    open spec fn view(&self) -> ThreadView {
        ThreadView {
            id: self.id,
            title: self.title@,
            message: self.message@,
            last_updated: self.last_updated,
        }
    }
}

/// A message attached to one thread; the thread is part of its key, not of the record.
pub struct Reply {
    pub id: u64,
    pub message: String,
}

/// The value that a `Reply` stands for.
pub struct ReplyView {
    pub id: u64,
    pub message: Seq<char>,
}

impl View for Reply {
    type V = ReplyView;

    open spec fn view(&self) -> ReplyView {
        ReplyView { id: self.id, message: self.message@ }
    }
}

impl ThreadView {
    /// Whether both texts are short enough to be stored.
    pub open spec fn fits(self) -> bool {
        text_fits(self.title) && text_fits(self.message)
    }
}

impl ReplyView {
    /// Whether the text is short enough to be stored.
    pub open spec fn fits(self) -> bool {
        text_fits(self.message)
    }
}

/// The stored form of a thread.
pub open spec fn encode_thread(t: ThreadView) -> Seq<u8> {
    be8(t.id) + be8(stamp_bits(t.last_updated)) + text_field(t.title) + text_field(t.message)
}

/// The thread that `b` holds, or `None` where `b` is not exactly one stored thread.
pub open spec fn decode_thread(b: Seq<u8>) -> Option<ThreadView> {
    if b.len() < 16 {
        None
    } else {
        match read_text(b, 16) {
            Some((title, p)) => match read_text(b, p) {
                Some((message, q)) => if q == b.len() {
                    Some(
                        ThreadView {
                            id: read_be8(b, 0),
                            title,
                            message,
                            last_updated: stamp_of_bits(read_be8(b, 8)),
                        },
                    )
                } else {
                    None
                },
                None => None,
            },
            None => None,
        }
    }
}

/// The stored form of a reply.
pub open spec fn encode_reply(r: ReplyView) -> Seq<u8> {
    be8(r.id) + text_field(r.message)
}

/// The reply that `b` holds, or `None` where `b` is not exactly one stored reply.
pub open spec fn decode_reply(b: Seq<u8>) -> Option<ReplyView> {
    if b.len() < 8 {
        None
    } else {
        match read_text(b, 8) {
            Some((message, p)) => if p == b.len() {
                Some(ReplyView { id: read_be8(b, 0), message })
            } else {
                None
            },
            None => None,
        }
    }
}

/// Decoding the stored form of a thread gives the thread back.
#[verifier::rlimit(60)]
pub proof fn lemma_thread_round_trip(t: ThreadView)
    requires
        t.fits(),
    ensures
        decode_thread(encode_thread(t)) == Some(t),
{
    let b = encode_thread(t);
    let head = be8(t.id) + be8(stamp_bits(t.last_updated));
    let tail = text_field(t.title) + text_field(t.message);
    assert(b =~= Seq::<u8>::empty() + be8(t.id) + (be8(stamp_bits(t.last_updated)) + tail));
    lemma_be8_round_trip(Seq::empty(), t.id, be8(stamp_bits(t.last_updated)) + tail);
    assert(b =~= be8(t.id) + be8(stamp_bits(t.last_updated)) + tail);
    lemma_be8_round_trip(be8(t.id), stamp_bits(t.last_updated), tail);
    assert(stamp_of_bits(stamp_bits(t.last_updated)) == t.last_updated);
    assert(b =~= head + text_field(t.title) + text_field(t.message));
    lemma_text_round_trip(head, t.title, text_field(t.message));
    let p: int = 16 + text_field(t.title).len() as int;
    assert(read_text(b, 16) == Some((t.title, p)));
    assert(b =~= head + text_field(t.title) + text_field(t.message) + Seq::<u8>::empty());
    lemma_text_round_trip(head + text_field(t.title), t.message, Seq::empty());
    assert(read_text(b, p) == Some((t.message, b.len() as int)));
}

/// Decoding the stored form of a reply gives the reply back.
pub proof fn lemma_reply_round_trip(r: ReplyView)
    requires
        r.fits(),
    ensures
        decode_reply(encode_reply(r)) == Some(r),
{
    let b = encode_reply(r);
    lemma_be8_round_trip(Seq::empty(), r.id, text_field(r.message));
    assert(Seq::<u8>::empty() + be8(r.id) + text_field(r.message) =~= b);
    lemma_text_round_trip(be8(r.id), r.message, Seq::empty());
    assert(be8(r.id) + text_field(r.message) + Seq::<u8>::empty() =~= b);
}

impl Thread {
    /// The stored form of this thread.
    pub fn encode(&self) -> (r: Vec<u8>)
        ensures
            r@ == encode_thread(self@),
            self@.fits(),
    {
        let mut r: Vec<u8> = Vec::new();
        push_be8(&mut r, self.id);
        push_be8(&mut r, to_stamp_bits(self.last_updated));
        push_text(&mut r, &self.title);
        push_text(&mut r, &self.message);
        assert(r@ =~= encode_thread(self@));
        r
    }

    /// The thread stored in `b`; `None` where `b` is not exactly one stored thread.
    pub fn decode(b: &[u8]) -> (r: Option<Thread>)
        ensures
            match r {
                Some(t) => decode_thread(b@) == Some(t@),
                None => decode_thread(b@) is None,
            },
    {
        if b.len() < 16 {
            return None;
        }
        let id = get_be8(b, 0);
        let last_updated = from_stamp_bits(get_be8(b, 8));
        match get_text(b, 16) {
            Some((title, p)) => match get_text(b, p) {
                Some((message, q)) => if q == b.len() {
                    Some(Thread { id, title, message, last_updated })
                } else {
                    None
                },
                None => None,
            },
            None => None,
        }
    }
}

impl Reply {
    /// The stored form of this reply.
    pub fn encode(&self) -> (r: Vec<u8>)
        ensures
            r@ == encode_reply(self@),
            self@.fits(),
    {
        let mut r: Vec<u8> = Vec::new();
        push_be8(&mut r, self.id);
        push_text(&mut r, &self.message);
        assert(r@ =~= encode_reply(self@));
        r
    }

    /// The reply stored in `b`; `None` where `b` is not exactly one stored reply.
    pub fn decode(b: &[u8]) -> (r: Option<Reply>)
        ensures
            match r {
                Some(x) => decode_reply(b@) == Some(x@),
                None => decode_reply(b@) is None,
            },
    {
        if b.len() < 8 {
            return None;
        }
        let id = get_be8(b, 0);
        match get_text(b, 8) {
            Some((message, p)) => if p == b.len() {
                Some(Reply { id, message })
            } else {
                None
            },
            None => None,
        }
    }
}

} // verus!
