use vstd::prelude::*;
use crate::text::{chars_match, same_folded};

verus! {

/// `q` occurs in `t` as an in-order, not necessarily contiguous,
/// subsequence, characters compared up to ASCII case.
pub open spec fn is_subseq(q: Seq<char>, t: Seq<char>) -> bool
    decreases t.len(),
{
    if q.len() == 0 {
        true
    } else if t.len() == 0 {
        false
    } else {
        (same_folded(q.last(), t.last()) && is_subseq(q.drop_last(), t.drop_last()))
            || is_subseq(q, t.drop_last())
    }
}

/// `[s, e)` is the match window of `q` in `t`: it holds a match, no match
/// starts further right, and no shorter span from `s` holds one.
pub open spec fn is_window(q: Seq<char>, t: Seq<char>, s: int, e: int) -> bool {
    &&& q.len() > 0
    &&& 0 <= s < e <= t.len()
    &&& is_subseq(q, t.subrange(s, e))
    &&& forall|s2: int| s < s2 <= t.len() ==> !is_subseq(q, #[trigger] t.subrange(s2, t.len() as int))
    &&& forall|e2: int| s <= e2 < e ==> !is_subseq(q, #[trigger] t.subrange(s, e2))
}

/// The match window of `q` in `t`, if `q` is non-empty and occurs in `t`.
pub open spec fn window_of(q: Seq<char>, t: Seq<char>) -> Option<(int, int)> {
    if q.len() > 0 && is_subseq(q, t) {
        Some(choose|w: (int, int)| is_window(q, t, w.0, w.1))
    } else {
        None
    }
}

/// Dropping the last query character keeps a match.
pub proof fn lemma_drop_last_query(q: Seq<char>, t: Seq<char>)
    requires
        q.len() > 0,
        is_subseq(q, t),
    ensures
        is_subseq(q.drop_last(), t),
    decreases t.len(),
{
    if t.len() > 0 {
        if is_subseq(q, t.drop_last()) {
            lemma_drop_last_query(q, t.drop_last());
        }
    }
}

/// Dropping the first query character keeps a match.
pub proof fn lemma_drop_first_query(q: Seq<char>, t: Seq<char>)
    requires
        q.len() > 0,
        is_subseq(q, t),
    ensures
        is_subseq(q.drop_first(), t),
    decreases t.len(),
{
    if t.len() > 0 && q.len() > 1 {
        assert(q.drop_first().drop_last() =~= q.drop_last().drop_first());
        assert(q.drop_first().last() == q.last());
        if is_subseq(q, t.drop_last()) {
            lemma_drop_first_query(q, t.drop_last());
        } else {
            lemma_drop_first_query(q.drop_last(), t.drop_last());
        }
    }
}

/// When the last characters match, a greedy step from the end is safe.
pub proof fn lemma_greedy_last(q: Seq<char>, t: Seq<char>)
    requires
        q.len() > 0,
        t.len() > 0,
        same_folded(q.last(), t.last()),
    ensures
        is_subseq(q, t) == is_subseq(q.drop_last(), t.drop_last()),
{
    if is_subseq(q, t.drop_last()) {
        lemma_drop_last_query(q, t.drop_last());
    }
}

/// The same recursion, read from the front.
pub proof fn lemma_front(q: Seq<char>, t: Seq<char>)
    requires
        q.len() > 0,
        t.len() > 0,
    ensures
        is_subseq(q, t) == ((same_folded(q[0], t[0]) && is_subseq(q.drop_first(), t.drop_first()))
            || is_subseq(q, t.drop_first())),
    decreases t.len(),
{
    if t.len() == 1 {
        assert(t.drop_first().len() == 0);
        assert(t.drop_last().len() == 0);
        assert(t.last() == t[0]);
        if q.len() == 1 {
            assert(q.last() == q[0]);
            assert(q.drop_first().len() == 0);
            assert(q.drop_last().len() == 0);
            assert(is_subseq(q.drop_last(), t.drop_last()));
            assert(is_subseq(q.drop_first(), t.drop_first()));
            assert(!is_subseq(q, t.drop_last()));
            assert(!is_subseq(q, t.drop_first()));
            assert(is_subseq(q, t) == ((same_folded(q[0], t[0]) && is_subseq(q.drop_first(), t.drop_first()))
                || is_subseq(q, t.drop_first())));
        } else {
            assert(q.drop_last().len() > 0);
            assert(q.drop_first().len() > 0);
            assert(!is_subseq(q.drop_last(), t.drop_last()));
            assert(!is_subseq(q.drop_first(), t.drop_first()));
            assert(!is_subseq(q, t.drop_last()));
            assert(!is_subseq(q, t.drop_first()));
            assert(is_subseq(q, t) == ((same_folded(q[0], t[0]) && is_subseq(q.drop_first(), t.drop_first()))
                || is_subseq(q, t.drop_first())));
        }
    } else {
        let x = t.drop_last().drop_first();
        assert(x =~= t.drop_first().drop_last());
        assert(t.drop_first().last() == t.last());
        assert(t.drop_last()[0] == t[0]);
        lemma_front(q, t.drop_last());
        let a = same_folded(q.last(), t.last());
        let b = same_folded(q[0], t[0]);
        assert(is_subseq(q, t) == ((a && is_subseq(q.drop_last(), t.drop_last())) || is_subseq(
            q,
            t.drop_last(),
        )));
        if q.len() > 1 {
            lemma_front(q.drop_last(), t.drop_last());
            assert(q.drop_last().drop_first() =~= q.drop_first().drop_last());
            assert(q.drop_first().last() == q.last());
            assert(q.drop_last()[0] == q[0]);
            assert(is_subseq(q.drop_first(), t.drop_first()) == ((a && is_subseq(
                q.drop_first().drop_last(),
                x,
            )) || is_subseq(q.drop_first(), x)));
            assert(is_subseq(q, t.drop_first()) == ((a && is_subseq(q.drop_last(), x))
                || is_subseq(q, x)));
            assert(is_subseq(q, t) == ((same_folded(q[0], t[0]) && is_subseq(q.drop_first(), t.drop_first()))
                || is_subseq(q, t.drop_first())));
        } else {
            assert(q.drop_last().len() == 0);
            assert(q.drop_first().len() == 0);
            assert(q.last() == q[0]);
            assert(is_subseq(q, t.drop_first()) == ((a && is_subseq(q.drop_last(), x))
                || is_subseq(q, x)));
            assert(is_subseq(q, t) == ((same_folded(q[0], t[0]) && is_subseq(q.drop_first(), t.drop_first()))
                || is_subseq(q, t.drop_first())));
        }
    }
}

/// A match in a span is a match in every wider span ending further right.
pub proof fn lemma_extend_end(q: Seq<char>, t: Seq<char>, s: int, e: int, e2: int)
    requires
        0 <= s <= e <= e2 <= t.len(),
        is_subseq(q, t.subrange(s, e)),
    ensures
        is_subseq(q, t.subrange(s, e2)),
    decreases e2 - e,
{
    if e2 > e {
        lemma_extend_end(q, t, s, e, e2 - 1);
        assert(t.subrange(s, e2).drop_last() =~= t.subrange(s, e2 - 1));
    }
}

/// A match in a span is a match in every wider span starting further left.
pub proof fn lemma_extend_start(q: Seq<char>, t: Seq<char>, s2: int, s: int, e: int)
    requires
        0 <= s2 <= s <= e <= t.len(),
        is_subseq(q, t.subrange(s, e)),
    ensures
        is_subseq(q, t.subrange(s2, e)),
    decreases s - s2,
{
    if s2 < s {
        lemma_extend_start(q, t, s2 + 1, s, e);
        let u = t.subrange(s2, e);
        assert(u.drop_first() =~= t.subrange(s2 + 1, e));
        if q.len() > 0 {
            lemma_front(q, u);
        }
    }
}

/// There is at most one match window.
pub proof fn lemma_window_unique(q: Seq<char>, t: Seq<char>, s: int, e: int, s2: int, e2: int)
    requires
        is_window(q, t, s, e),
        is_window(q, t, s2, e2),
    ensures
        s == s2 && e == e2,
{
    lemma_extend_end(q, t, s, e, t.len() as int);
    lemma_extend_end(q, t, s2, e2, t.len() as int);
    if s2 == s {
        if e < e2 {
            assert(!is_subseq(q, t.subrange(s2, e)));
        }
        if e2 < e {
            assert(!is_subseq(q, t.subrange(s, e2)));
        }
    }
}

/// Finds the match window of `q` in `t`: the right-most start at which `q`
/// still occurs, then the shortest span from there that holds it.
pub fn locate_window(q: &Vec<char>, t: &Vec<char>) -> (r: Option<(usize, usize)>)
    ensures
        r matches Some(w) ==> window_of(q@, t@) == Some((w.0 as int, w.1 as int)) && is_window(
            q@,
            t@,
            w.0 as int,
            w.1 as int,
        ),
        r is None ==> window_of(q@, t@) is None,
{
    let qn = q.len();
    let n = t.len();
    if qn == 0 {
        return None;
    }
    let ghost qs = q@;
    let ghost ts = t@;
    // Backwards: consume the query from its end.
    let mut i: usize = n;
    let mut j: usize = qn;
    assert(qs.subrange(0, qn as int) =~= qs);
    while i > 0 && j > 0
        invariant
            qn == q@.len(),
            n == t@.len(),
            qs == q@,
            ts == t@,
            qn > 0,
            0 <= i <= n,
            0 <= j <= qn,
            forall|s: int|
                0 <= s <= i ==> is_subseq(qs, #[trigger] ts.subrange(s, n as int)) == is_subseq(
                    qs.subrange(0, j as int),
                    ts.subrange(s, i as int),
                ),
            forall|s: int| i < s <= n ==> !is_subseq(qs, #[trigger] ts.subrange(s, n as int)),
        decreases i,
    {
        let ghost j0 = j;
        let ghost i0 = i;
        if chars_match(q[j - 1], t[i - 1]) {
            j = j - 1;
        }
        i = i - 1;
        assert forall|s: int| 0 <= s <= i implies is_subseq(qs, #[trigger] ts.subrange(s, n as int))
            == is_subseq(qs.subrange(0, j as int), ts.subrange(s, i as int)) by {
            let u = ts.subrange(s, i0 as int);
            let p = qs.subrange(0, j0 as int);
            assert(u.drop_last() =~= ts.subrange(s, i as int));
            assert(u.last() == ts[i as int]);
            assert(p.drop_last() =~= qs.subrange(0, j0 - 1));
            assert(p.last() == qs[j0 - 1]);
            if j < j0 {
                lemma_greedy_last(p, u);
            }
        }
        assert(!is_subseq(qs, ts.subrange(i0 as int, n as int))) by {
            assert(ts.subrange(i0 as int, i0 as int).len() == 0);
        }
    }
    if j > 0 {
        assert(ts.subrange(0, n as int) =~= ts);
        assert(ts.subrange(0, 0).len() == 0);
        return None;
    }
    let start = i;
    assert(qs.subrange(0, 0).len() == 0);
    assert(is_subseq(qs, ts.subrange(start as int, n as int)));
    // Forwards from the start: the shortest span that holds the query.
    let mut k: usize = start;
    let mut m: usize = 0;
    assert forall|e: int| k <= e <= n implies is_subseq(qs, #[trigger] ts.subrange(start as int, e))
        == is_subseq(qs.subrange(m as int, qn as int), ts.subrange(k as int, e)) by {
        assert(qs.subrange(0, qn as int) =~= qs);
    }
    while m < qn
        invariant
            qn == q@.len(),
            n == t@.len(),
            qs == q@,
            ts == t@,
            qn > 0,
            start <= k <= n,
            0 <= m <= qn,
            forall|e: int|
                k <= e <= n ==> is_subseq(qs, #[trigger] ts.subrange(start as int, e)) == is_subseq(
                    qs.subrange(m as int, qn as int),
                    ts.subrange(k as int, e),
                ),
            forall|e: int| start <= e < k ==> !is_subseq(qs, #[trigger] ts.subrange(start as int, e)),
            is_subseq(qs, ts.subrange(start as int, n as int)),
        decreases n - k,
    {
        let ghost k0 = k;
        let ghost m0 = m;
        assert(k < n) by {
            if k == n {
                assert(ts.subrange(k as int, n as int).len() == 0);
            }
        }
        if chars_match(q[m], t[k]) {
            m = m + 1;
        }
        k = k + 1;
        assert forall|e: int| k <= e <= n implies is_subseq(qs, #[trigger] ts.subrange(start as int, e))
            == is_subseq(qs.subrange(m as int, qn as int), ts.subrange(k as int, e)) by {
            let u = ts.subrange(k0 as int, e);
            let p = qs.subrange(m0 as int, qn as int);
            assert(u.drop_first() =~= ts.subrange(k as int, e));
            assert(p.drop_first() =~= qs.subrange(m0 + 1, qn as int));
            lemma_front(p, u);
            if m > m0 && is_subseq(p, u.drop_first()) {
                lemma_drop_first_query(p, u.drop_first());
            }
        }
        assert(!is_subseq(qs, ts.subrange(start as int, k0 as int))) by {
            assert(ts.subrange(k0 as int, k0 as int).len() == 0);
        }
    }
    let end = k;
    assert(qs.subrange(qn as int, qn as int).len() == 0);
    assert(is_window(qs, ts, start as int, end as int));
    proof {
        lemma_extend_start(qs, ts, 0, start as int, end as int);
        lemma_extend_end(qs, ts, 0, end as int, n as int);
        assert(ts.subrange(0, n as int) =~= ts);
        let w0 = (start as int, end as int);
        assert(is_window(qs, ts, w0.0, w0.1));
        let w = choose|w: (int, int)| is_window(qs, ts, w.0, w.1);
        lemma_window_unique(qs, ts, start as int, end as int, w.0, w.1);
    }
    Some((start, end))
}

} // verus!
