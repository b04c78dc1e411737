//! The pagination engine: one page of a list of threads, most recently active first.
use vstd::prelude::*;
use crate::codec::Thread;
use vstd::multiset::Multiset;

verus! {

/// One page of threads, with the page number actually used and the number of pages.
pub struct Page {
    pub items: Vec<Thread>,
    pub current_page: u64,
    pub total_pages: u64,
}

/// The number of pages that `n` items fill, `size` to a page: zero for no items.
pub open spec fn page_count(n: nat, size: nat) -> nat
    recommends
        size > 0,
{
    if n == 0 {
        0
    } else {
        ((n - 1) as nat / size + 1) as nat
    }
}

/// The page shown for a request: absent means the first page; below one gives the first
/// page; past the last page gives the last page; with no pages it is the first page.
pub open spec fn clamped_page(requested: Option<i64>, total: nat) -> nat {
    let req: int = match requested {
        Some(p) => p as int,
        None => 1,
    };
    if req < 1 || total == 0 {
        1
    } else if req > total {
        total
    } else {
        req as nat
    }
}

/// The index of the first item of page `page`.
pub open spec fn page_start(page: nat, size: nat) -> int {
    (page - 1) * size
}

/// The index past the last item of page `page` among `n` items.
pub open spec fn page_end(page: nat, size: nat, n: nat) -> int {
    if page_start(page, size) + size < n {
        page_start(page, size) + size
    } else {
        n as int
    }
}

proof fn lemma_page_bounds(n: nat, size: nat, requested: Option<i64>)
    requires
        size > 0,
    ensures
        ({
            let page = clamped_page(requested, page_count(n, size));
            &&& page >= 1
            &&& page_count(n, size) <= n
            &&& page <= page_count(n, size) || (n == 0 && page == 1)
            &&& 0 <= page_start(page, size)
            &&& page_start(page, size) <= page_end(page, size, n) <= n
        }),
{
    let total = page_count(n, size);
    let page = clamped_page(requested, total);
    if n > 0 {
        assert((n - 1) as nat / size <= (n - 1) as nat) by (nonlinear_arith)
            requires
                size > 0,
        ;
        assert((page - 1) * size <= ((n - 1) as nat / size) * size) by (nonlinear_arith)
            requires
                page - 1 <= (n - 1) as nat / size,
                size > 0,
        ;
        assert(((n - 1) as nat / size) * size <= (n - 1) as nat) by (nonlinear_arith)
            requires
                size > 0,
        ;
    }
    assert(0 <= (page - 1) * size) by (nonlinear_arith)
        requires
            page >= 1,
    ;
}

/// With no threads there are no pages, and any request shows an empty first page.
pub proof fn lemma_no_threads_empty_page(page_size: nat, requested: Option<i64>)
    requires
        page_size > 0,
    ensures
        page_count(0, page_size) == 0,
        clamped_page(requested, 0) == 1,
        page_start(1, page_size) == 0,
        page_end(1, page_size, 0) == 0,
{
}

/// The page `requested` of `threads`, `page_size` threads to a page. The request is
/// clamped into the pages that exist, so that no request fails.
pub fn paginate(threads: Vec<Thread>, page_size: usize, requested: Option<i64>) -> (r: Page)
    requires
        page_size > 0,
    ensures
        r.total_pages == page_count(threads@.len(), page_size as nat),
        r.current_page == clamped_page(requested, r.total_pages as nat),
        r.items@ == threads@.subrange(
            page_start(r.current_page as nat, page_size as nat),
            page_end(r.current_page as nat, page_size as nat, threads@.len()),
        ),
{
    let n = threads.len();
    let ghost size = page_size as nat;
    proof {
        lemma_page_bounds(n as nat, size, requested);
    }
    let total: usize = if n == 0 {
        0
    } else {
        (n - 1) / page_size + 1
    };
    let req: i64 = match requested {
        Some(p) => p,
        None => 1,
    };
    let page: usize = if req < 1 || total == 0 {
        1
    } else if req as u64 > total as u64 {
        total
    } else {
        req as usize
    };
    assert(page as nat == clamped_page(requested, total as nat));
    let start: usize = (page - 1) * page_size;
    let end: usize = if start < n && n - start > page_size {
        start + page_size
    } else {
        n
    };
    assert(end as int == page_end(page as nat, size, n as nat));
    let mut items = threads;
    items.truncate(end);
    let tail = items.split_off(start);
    assert(tail@ =~= threads@.subrange(start as int, end as int));
    Page { items: tail, current_page: page as u64, total_pages: total as u64 }
}

/// Whether `s` is ordered by last activity, most recent first.
pub open spec fn by_recency(s: Seq<Thread>) -> bool {
    forall|i: int, j: int| 0 <= i < j < s.len() ==> s[i].last_updated >= s[j].last_updated
}

/// Whether `r` is `s` ordered most recently active first, threads with equal last activity
/// in their order in `s`: `r[i]` is `s[perm[i]]`, each index of `s` used once.
pub open spec fn stably_by_recency(r: Seq<Thread>, s: Seq<Thread>, perm: Seq<int>) -> bool {
    &&& perm.len() == r.len() == s.len()
    &&& forall|i: int| 0 <= i < r.len() ==> 0 <= #[trigger] perm[i] < s.len() && r[i] == s[perm[i]]
    &&& forall|i: int, j: int| 0 <= i < j < r.len() ==> #[trigger] perm[i] != #[trigger] perm[j]
    &&& forall|i: int, j: int|
        0 <= i < j < r.len() ==> #[trigger] r[i].last_updated > #[trigger] r[j].last_updated || (
        r[i].last_updated == r[j].last_updated && perm[i] < perm[j])
}

/// `threads` ordered most recently active first; threads with equal last activity keep
/// their order, so the result is fixed by the input.
pub fn sort_by_recency(threads: Vec<Thread>) -> (r: Vec<Thread>)
    ensures
        r@.to_multiset() == threads@.to_multiset(),
        by_recency(r@),
        exists|perm: Seq<int>| stably_by_recency(r@, threads@, perm),
{
    broadcast use vstd::multiset::group_multiset_axioms;

    let ghost all = threads@;
    let ghost n = threads@.len();
    let mut rest = threads;
    let mut out: Vec<Thread> = Vec::new();
    let ghost mut perm: Seq<int> = Seq::empty();
    let ghost mut i: int = 0;
    proof {
        vstd::seq_lib::to_multiset_len(out@);
        vstd::multiset::lemma_multiset_empty_len(out@.to_multiset());
        assert(rest@ =~= all.subrange(0, n as int));
    }
    while rest.len() > 0
        invariant
            0 <= i <= n == all.len(),
            rest@ == all.subrange(i, n as int),
            out@.len() == i,
            perm.len() == i,
            forall|a: int| 0 <= a < i ==> 0 <= #[trigger] perm[a] < i && out@[a] == all[perm[a]],
            forall|a: int, b: int| 0 <= a < b < i ==> #[trigger] perm[a] != #[trigger] perm[b],
            forall|a: int, b: int|
                0 <= a < b < i ==> #[trigger] out@[a].last_updated > #[trigger] out@[b].last_updated
                    || (out@[a].last_updated == out@[b].last_updated && perm[a] < perm[b]),
            by_recency(out@),
            out@.to_multiset().add(rest@.to_multiset()) == all.to_multiset(),
        decreases rest@.len(),
    {
        let ghost before = rest@;
        let x = rest.remove(0);
        proof {
            vstd::seq_lib::to_multiset_remove(before, 0);
            vstd::seq_lib::to_multiset_contains(before, x);
            assert(before.contains(x)) by {
                assert(before[0] == x);
            }
            assert(rest@ =~= all.subrange(i + 1, n as int));
            assert(x == all[i]);
        }
        let mut j: usize = 0;
        while j < out.len() && out[j].last_updated >= x.last_updated
            invariant
                j <= out@.len(),
                forall|a: int| 0 <= a < j ==> out@[a].last_updated >= x.last_updated,
            decreases out@.len() - j,
        {
            j = j + 1;
        }
        let ghost prev = out@;
        let ghost pprev = perm;
        out.insert(j, x);
        proof {
            perm = pprev.insert(j as int, i);
            vstd::seq_lib::to_multiset_insert(prev, j as int, x);
            assert(out@.to_multiset().add(rest@.to_multiset()) =~= all.to_multiset());
            assert forall|a: int| 0 <= a < i + 1 implies 0 <= #[trigger] perm[a] < i + 1
                && out@[a] == all[perm[a]] by {
                if a < j {
                    assert(perm[a] == pprev[a] && out@[a] == prev[a]);
                } else if a > j {
                    assert(perm[a] == pprev[a - 1] && out@[a] == prev[a - 1]);
                }
            }
            assert forall|a: int, b: int| 0 <= a < b < i + 1 implies #[trigger] perm[a]
                != #[trigger] perm[b] by {
                if a < j && b < j {
                    assert(perm[a] == pprev[a] && perm[b] == pprev[b]);
                } else if a < j && b > j {
                    assert(perm[a] == pprev[a] && perm[b] == pprev[b - 1]);
                } else if a > j {
                    assert(perm[a] == pprev[a - 1] && perm[b] == pprev[b - 1]);
                } else if a == j {
                    assert(perm[b] == pprev[b - 1]);
                } else {
                    assert(perm[a] == pprev[a]);
                }
            }
            assert forall|a: int, b: int| 0 <= a < b < i + 1 implies #[trigger] out@[a].last_updated
                > #[trigger] out@[b].last_updated || (out@[a].last_updated == out@[b].last_updated
                && perm[a] < perm[b]) by {
                if b == j {
                    assert(out@[a] == prev[a] && perm[a] == pprev[a]);
                } else if a == j {
                    assert(out@[b] == prev[b - 1]);
                    assert(prev[j as int].last_updated < x.last_updated);
                } else if b < j {
                    assert(out@[a] == prev[a] && out@[b] == prev[b]);
                    assert(perm[a] == pprev[a] && perm[b] == pprev[b]);
                } else if a < j {
                    assert(out@[a] == prev[a] && out@[b] == prev[b - 1]);
                    assert(perm[a] == pprev[a] && perm[b] == pprev[b - 1]);
                } else {
                    assert(out@[a] == prev[a - 1] && out@[b] == prev[b - 1]);
                    assert(perm[a] == pprev[a - 1] && perm[b] == pprev[b - 1]);
                }
            }
            i = i + 1;
        }
    }
    proof {
        vstd::seq_lib::to_multiset_len(rest@);
        vstd::multiset::lemma_multiset_empty_len(rest@.to_multiset());
        assert(out@.to_multiset().add(rest@.to_multiset()) =~= out@.to_multiset());
        assert(stably_by_recency(out@, all, perm));
    }
    out
}

/// The page `requested` of `threads` once they are ordered most recently active first,
/// threads with equal last activity in their given order.
pub fn recent_page(threads: Vec<Thread>, page_size: usize, requested: Option<i64>) -> (r: Page)
    requires
        page_size > 0,
    ensures
        exists|s: Seq<Thread>, perm: Seq<int>|
            #![trigger stably_by_recency(s, threads@, perm)]
            stably_by_recency(s, threads@, perm) && r.total_pages == page_count(
                s.len(),
                page_size as nat,
            ) && r.current_page == clamped_page(requested, r.total_pages as nat) && r.items@
                == s.subrange(
                page_start(r.current_page as nat, page_size as nat),
                page_end(r.current_page as nat, page_size as nat, s.len()),
            ),
{
    let ghost input = threads@;
    let sorted = sort_by_recency(threads);
    let ghost s = sorted@;
    let ghost perm = choose|perm: Seq<int>| stably_by_recency(s, input, perm);
    let r = paginate(sorted, page_size, requested);
    assert(stably_by_recency(s, input, perm));
    r
}

} // verus!
