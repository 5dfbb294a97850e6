//! Downtime windows: pairs of a start and an end, in microseconds since the
//! epoch.

use vstd::prelude::*;
use crate::sort::{ascending, has_key, law_stable_sort, law_stable_sort_unique};
use crate::sort::{lemma_ascending_drop_last, order_of, sort_by_key, stable_sort, with_key};

verus! {

/// Whether each window ends before the next one begins, or where it begins.
pub open spec fn in_order(windows: Seq<(u64, u64)>) -> bool {
    forall|i: int, j: int|
        #![trigger windows[i], windows[j]]
        0 <= i < j < windows.len() ==> windows[i].1 <= windows[j].0
}

/// Whether no window begins before `t`.
pub open spec fn none_before(windows: Seq<(u64, u64)>, t: u64) -> bool {
    forall|i: int| 0 <= i < windows.len() ==> t <= (#[trigger] windows[i]).0
}

/// Whether no window ends after `t`.
pub open spec fn none_after(windows: Seq<(u64, u64)>, t: u64) -> bool {
    forall|i: int| 0 <= i < windows.len() ==> (#[trigger] windows[i]).1 <= t
}

/// Whether every window has a length.
pub open spec fn have_length(windows: Seq<(u64, u64)>) -> bool {
    forall|i: int| 0 <= i < windows.len() ==> (#[trigger] windows[i]).0 < windows[i].1
}

/// Whether the instant `t` lies in one of the windows: at or after its start and
/// before its end.
pub open spec fn covers(windows: Seq<(u64, u64)>, t: int) -> bool {
    exists|i: int| 0 <= i < windows.len() && (#[trigger] windows[i]).0 <= t < windows[i].1
}

/// The later of two instants.
pub open spec fn later(a: u64, b: u64) -> u64 {
    if a >= b {
        a
    } else {
        b
    }
}

/// Windows sorted by their start, with each one that begins no later than the
/// end of the one before it joined to that one.
pub open spec fn joined(s: Seq<(u64, u64)>) -> Seq<(u64, u64)>
    decreases s.len(),
{
    if s.len() == 0 {
        s
    } else {
        let m = joined(s.drop_last());
        let w = s.last();
        if m.len() > 0 && w.0 <= m.last().1 {
            m.drop_last().push((m.last().0, later(m.last().1, w.1)))
        } else {
            m.push(w)
        }
    }
}

/// Windows by their start.
pub open spec fn by_start(wins: Seq<(u64, u64)>) -> Seq<(u64, u64)> {
    stable_sort(wins, order_of::<(u64, u64)>())
}

/// Windows sorted by their start and joined where they touch or overlap.
pub open spec fn coalesced(wins: Seq<(u64, u64)>) -> Seq<(u64, u64)> {
    joined(by_start(wins))
}

/// Sorts windows and joins those that touch or overlap.
pub fn coalesce(wins: Vec<(u64, u64)>) -> (out: Vec<(u64, u64)>)
    ensures
        out@ == coalesced(wins@),
{
    let mut wins = wins;
    sort_by_key(&mut wins);
    let ghost sorted = wins@;
    let mut out: Vec<(u64, u64)> = Vec::new();
    let mut i: usize = 0;
    while i < wins.len()
        invariant
            i <= wins@.len(),
            wins@ == sorted,
            out@ == joined(sorted.take(i as int)),
        decreases wins@.len() - i,
    {
        let w = wins[i];
        assert(sorted.take(i + 1).drop_last() =~= sorted.take(i as int));
        i = i + 1;
        if out.len() > 0 {
            let last = out[out.len() - 1];
            if w.0 <= last.1 {
                let end: u64 = if last.1 >= w.1 {
                    last.1
                } else {
                    w.1
                };
                out.pop();
                out.push((last.0, end));
                continue ;
            }
        }
        out.push(w);
    }
    assert(sorted.take(sorted.len() as int) =~= sorted);
    out
}

/// Whether starts never decrease and every window ends before the later ones
/// begin.
pub open spec fn separated(s: Seq<(u64, u64)>) -> bool {
    forall|i: int, j: int|
        #![trigger s[i], s[j]]
        0 <= i < j < s.len() ==> s[i].0 <= s[j].0 && s[i].1 < s[j].0
}

/// What joining does to windows sorted by their start.
proof fn lemma_joined(s: Seq<(u64, u64)>)
    requires
        ascending(s, order_of::<(u64, u64)>()),
    ensures
        separated(joined(s)),
        s.len() > 0 ==> joined(s).len() > 0 && joined(s).last().0 <= s.last().0,
        have_length(s) ==> have_length(joined(s)),
        forall|t: int| covers(joined(s), t) <==> covers(s, t),
        forall|t: u64| #[trigger] none_before(s, t) ==> none_before(joined(s), t),
        forall|t: u64| #[trigger] none_after(s, t) ==> none_after(joined(s), t),
    decreases s.len(),
{
    let key = order_of::<(u64, u64)>();
    let r = joined(s);
    if s.len() == 0 {
    } else {
        let d = s.drop_last();
        let w = s.last();
        lemma_ascending_drop_last(s, key);
        if have_length(s) {
            assert forall|i: int| 0 <= i < d.len() implies (#[trigger] d[i]).0 < d[i].1 by {
                assert(s[i].0 < s[i].1);
            }
            assert(s[s.len() - 1].0 < s[s.len() - 1].1);
        }
        lemma_joined(d);
        let m = joined(d);
        assert forall|t: u64| #[trigger] none_before(s, t) implies none_before(r, t) by {
            assert forall|i: int| 0 <= i < d.len() implies t <= (#[trigger] d[i]).0 by {
                assert(t <= s[i].0);
            }
            assert(none_before(d, t));
            assert(t <= s[s.len() - 1].0);
            if m.len() > 0 {
                assert(t <= m[m.len() - 1].0);
            }
        }
        assert forall|t: u64| #[trigger] none_after(s, t) implies none_after(r, t) by {
            assert forall|i: int| 0 <= i < d.len() implies (#[trigger] d[i]).1 <= t by {
                assert(s[i].1 <= t);
            }
            assert(none_after(d, t));
            assert(s[s.len() - 1].1 <= t);
            if m.len() > 0 {
                assert(m[m.len() - 1].1 <= t);
            }
        }
        if d.len() > 0 {
            assert(key(s[d.len() - 1]) <= key(s[s.len() - 1]));
            assert(m.last().0 <= w.0);
        }
        assert forall|t: int| covers(s, t) <==> covers(d, t) || w.0 <= t < w.1 by {
            if covers(d, t) {
                let i = choose|i: int| 0 <= i < d.len() && (#[trigger] d[i]).0 <= t < d[i].1;
                assert(s[i] == d[i]);
            }
            if w.0 <= t < w.1 {
                assert(s[s.len() - 1] == w);
            }
            if covers(s, t) {
                let i = choose|i: int| 0 <= i < s.len() && (#[trigger] s[i]).0 <= t < s[i].1;
                if i < d.len() {
                    assert(d[i] == s[i]);
                }
            }
        }
        if m.len() > 0 && w.0 <= m.last().1 {
            let n = m.len() - 1;
            assert forall|t: int| covers(r, t) <==> covers(m, t) || w.0 <= t < w.1 by {
                if covers(m, t) {
                    let i = choose|i: int| 0 <= i < m.len() && (#[trigger] m[i]).0 <= t < m[i].1;
                    if i < n {
                        assert(r[i] == m[i]);
                    } else {
                        assert(r[n].0 <= t < r[n].1);
                    }
                }
                if w.0 <= t < w.1 {
                    assert(r[n].0 <= t < r[n].1);
                }
                if covers(r, t) {
                    let i = choose|i: int| 0 <= i < r.len() && (#[trigger] r[i]).0 <= t < r[i].1;
                    if i < n {
                        assert(m[i] == r[i]);
                    } else {
                        assert(m[n].0 <= t < m[n].1 || w.0 <= t < w.1);
                    }
                }
            }
        } else {
            assert forall|t: int| covers(r, t) <==> covers(m, t) || w.0 <= t < w.1 by {
                if covers(m, t) {
                    let i = choose|i: int| 0 <= i < m.len() && (#[trigger] m[i]).0 <= t < m[i].1;
                    assert(r[i] == m[i]);
                }
                if w.0 <= t < w.1 {
                    assert(r[m.len() as int] == w);
                }
                if covers(r, t) {
                    let i = choose|i: int| 0 <= i < r.len() && (#[trigger] r[i]).0 <= t < r[i].1;
                    if i < m.len() {
                        assert(m[i] == r[i]);
                    }
                }
            }
        }
    }
}

/// Sorting keeps the members.
proof fn lemma_by_start(wins: Seq<(u64, u64)>)
    ensures
        ascending(by_start(wins), order_of::<(u64, u64)>()),
        forall|w: (u64, u64)| #[trigger] by_start(wins).contains(w) <==> wins.contains(w),
{
    let key = order_of::<(u64, u64)>();
    let b = by_start(wins);
    law_stable_sort(wins, key);
    assert forall|w: (u64, u64)| #[trigger] b.contains(w) <==> wins.contains(w) by {
        let hit = has_key(key, w.0);
        assert(with_key(b, key, w.0) == with_key(wins, key, w.0));
        assert(key(w) == w.0);
        if b.contains(w) {
            b.lemma_filter_contains(hit, b.index_of(w));
            wins.lemma_filter_contains_rev(hit, w);
        }
        if wins.contains(w) {
            wins.lemma_filter_contains(hit, wins.index_of(w));
            b.lemma_filter_contains_rev(hit, w);
        }
    }
}

/// Coalescing neither adds nor loses downtime: the same instants are covered.
pub proof fn law_coalesce_keeps_cover(wins: Seq<(u64, u64)>, t: int)
    ensures
        covers(coalesced(wins), t) <==> covers(wins, t),
{
    lemma_by_start(wins);
    lemma_joined(by_start(wins));
    let b = by_start(wins);
    if covers(wins, t) {
        let i = choose|i: int| 0 <= i < wins.len() && (#[trigger] wins[i]).0 <= t < wins[i].1;
        assert(wins.contains(wins[i]));
        assert(b.contains(wins[i]));
        let j = b.index_of(wins[i]);
        assert(b[j].0 <= t < b[j].1);
    }
    if covers(b, t) {
        let i = choose|i: int| 0 <= i < b.len() && (#[trigger] b[i]).0 <= t < b[i].1;
        assert(b.contains(b[i]));
        assert(wins.contains(b[i]));
        let j = wins.index_of(b[i]);
        assert(wins[j].0 <= t < wins[j].1);
    }
}

/// Coalesced windows come in the order of their starts, and each ends before the
/// later ones begin: no two overlap or touch. If every window had a length,
/// every coalesced one has.
pub proof fn law_coalesce_separates(wins: Seq<(u64, u64)>)
    ensures
        separated(coalesced(wins)),
        in_order(coalesced(wins)),
        have_length(wins) ==> have_length(coalesced(wins)),
{
    lemma_by_start(wins);
    let b = by_start(wins);
    lemma_joined(b);
    if have_length(wins) {
        assert forall|i: int| 0 <= i < b.len() implies (#[trigger] b[i]).0 < b[i].1 by {
            assert(b.contains(b[i]));
            let j = wins.index_of(b[i]);
            assert(wins[j].0 < wins[j].1);
        }
    }
}

/// Coalesced windows begin no earlier and end no later than those they came from.
pub proof fn law_coalesce_within(wins: Seq<(u64, u64)>, from: u64, to: u64)
    ensures
        none_before(wins, from) ==> none_before(coalesced(wins), from),
        none_after(wins, to) ==> none_after(coalesced(wins), to),
{
    let b = by_start(wins);
    lemma_by_start(wins);
    lemma_joined(b);
    assert forall|i: int| 0 <= i < b.len() implies wins.contains(#[trigger] b[i]) by {
        assert(b.contains(b[i]));
    }
    if none_before(wins, from) {
        assert(none_before(b, from));
    }
    if none_after(wins, to) {
        assert(none_after(b, to));
    }
}

/// Coalescing twice is coalescing once.
pub proof fn law_coalesce_idempotent(wins: Seq<(u64, u64)>)
    ensures
        coalesced(coalesced(wins)) == coalesced(wins),
{
    let c = coalesced(wins);
    law_coalesce_separates(wins);
    lemma_separated_is_coalesced(c);
}

/// Separated windows are coalesced already.
proof fn lemma_separated_is_coalesced(c: Seq<(u64, u64)>)
    requires
        separated(c),
    ensures
        coalesced(c) == c,
{
    let key = order_of::<(u64, u64)>();
    law_stable_sort(c, key);
    assert(ascending(c, key)) by {
        assert forall|i: int, j: int|
            #![trigger key(c[i]), key(c[j])]
            0 <= i < j < c.len() implies key(c[i]) <= key(c[j]) by {
            assert(c[i].0 <= c[j].0);
        }
    }
    law_stable_sort_unique(by_start(c), c, key);
    lemma_joined_separated(c, c.len() as int);
    assert(c.take(c.len() as int) =~= c);
}

/// Joining leaves separated windows alone.
proof fn lemma_joined_separated(c: Seq<(u64, u64)>, n: int)
    requires
        separated(c),
        0 <= n <= c.len(),
    ensures
        joined(c.take(n)) == c.take(n),
    decreases n,
{
    if n > 0 {
        lemma_joined_separated(c, n - 1);
        assert(c.take(n).drop_last() =~= c.take(n - 1));
        if n > 1 {
            assert(c[n - 2].1 < c[n - 1].0);
        }
        assert(c.take(n - 1).push(c[n - 1]) =~= c.take(n));
    }
}

/// Only the downtime counts: two lists of windows with a length that cover the
/// same instants, in whatever order and however cut up, coalesce to the same
/// windows.
pub proof fn law_coalesce_canonical(a: Seq<(u64, u64)>, b: Seq<(u64, u64)>)
    requires
        have_length(a),
        have_length(b),
        forall|t: int| #[trigger] covers(a, t) <==> covers(b, t),
    ensures
        coalesced(a) == coalesced(b),
{
    let (ca, cb) = (coalesced(a), coalesced(b));
    law_coalesce_separates(a);
    law_coalesce_separates(b);
    assert forall|t: int| #[trigger] covers(ca, t) <==> covers(cb, t) by {
        law_coalesce_keeps_cover(a, t);
        law_coalesce_keeps_cover(b, t);
        assert(covers(a, t) <==> covers(b, t));
    }
    lemma_same_cover(ca, cb);
}

/// Whether windows have a length and leave a gap between any two.
spec fn spaced(s: Seq<(u64, u64)>) -> bool {
    &&& have_length(s)
    &&& forall|i: int, j: int| #![trigger s[i], s[j]] 0 <= i < j < s.len() ==> s[i].1 < s[j].0
}

/// Spaced windows are determined by what they cover.
proof fn lemma_same_cover(a: Seq<(u64, u64)>, b: Seq<(u64, u64)>)
    requires
        spaced(a),
        spaced(b),
        forall|t: int| #[trigger] covers(a, t) <==> covers(b, t),
    ensures
        a == b,
    decreases a.len(),
{
    if a.len() == 0 {
        if b.len() > 0 {
            assert(b[0].0 <= b[0].0 < b[0].1);
            assert(covers(b, b[0].0 as int));
            assert(covers(a, b[0].0 as int));
        }
        assert(a =~= b);
    } else {
        assert(a[0].0 <= a[0].0 < a[0].1);
        assert(covers(a, a[0].0 as int));
        assert(covers(b, a[0].0 as int));
        assert(b.len() > 0);
        assert(b[0].0 <= b[0].0 < b[0].1);
        assert(covers(b, b[0].0 as int));
        assert(covers(a, b[0].0 as int));
        lemma_first_window(a, b[0].0 as int);
        lemma_first_window(b, a[0].0 as int);
        lemma_first_window(a, a[0].1 as int);
        lemma_first_window(b, b[0].1 as int);
        assert(!covers(b, b[0].1 as int));
        assert(!covers(a, a[0].1 as int));
        assert(a[0].0 == b[0].0);
        if b[0].1 < a[0].1 {
            assert(a[0].0 <= b[0].1 < a[0].1);
            assert(covers(a, b[0].1 as int));
        }
        if a[0].1 < b[0].1 {
            assert(b[0].0 <= a[0].1 < b[0].1);
            assert(covers(b, a[0].1 as int));
        }
        let (ta, tb) = (a.drop_first(), b.drop_first());
        lemma_tail_spaced(a);
        lemma_tail_spaced(b);
        assert forall|t: int| #[trigger] covers(ta, t) <==> covers(tb, t) by {
            lemma_tail_cover(a, t);
            lemma_tail_cover(b, t);
            assert(covers(a, t) <==> covers(b, t));
        }
        lemma_same_cover(ta, tb);
        assert(a =~= seq![a[0]] + ta);
        assert(b =~= seq![b[0]] + tb);
    }
}

/// The first of spaced windows has the first covered instant, and its end is not
/// covered.
proof fn lemma_first_window(s: Seq<(u64, u64)>, t: int)
    requires
        spaced(s),
        s.len() > 0,
    ensures
        covers(s, t) ==> s[0].0 <= t && t != s[0].1,
{
    if covers(s, t) {
        let i = choose|i: int| 0 <= i < s.len() && (#[trigger] s[i]).0 <= t < s[i].1;
        if i > 0 {
            assert(s[0].1 < s[i].0);
            assert(s[0].0 < s[0].1);
        }
    }
}

/// Spaced windows stay so without the first.
proof fn lemma_tail_spaced(s: Seq<(u64, u64)>)
    requires
        spaced(s),
        s.len() > 0,
    ensures
        spaced(s.drop_first()),
{
    let r = s.drop_first();
    assert forall|i: int| 0 <= i < r.len() implies (#[trigger] r[i]).0 < r[i].1 by {
        assert(s[i + 1].0 < s[i + 1].1);
    }
    assert forall|i: int, j: int|
        #![trigger r[i], r[j]]
        0 <= i < j < r.len() implies r[i].1 < r[j].0 by {
        assert(s[i + 1].1 < s[j + 1].0);
    }
}

/// Behind the first of spaced windows, its tail covers what they cover.
proof fn lemma_tail_cover(s: Seq<(u64, u64)>, t: int)
    requires
        spaced(s),
        s.len() > 0,
    ensures
        covers(s.drop_first(), t) <==> covers(s, t) && t >= s[0].1,
{
    let r = s.drop_first();
    if covers(r, t) {
        let i = choose|i: int| 0 <= i < r.len() && (#[trigger] r[i]).0 <= t < r[i].1;
        assert(s[i + 1].0 <= t < s[i + 1].1);
        assert(s[0].1 < s[i + 1].0);
    }
    if covers(s, t) && t >= s[0].1 {
        let i = choose|i: int| 0 <= i < s.len() && (#[trigger] s[i]).0 <= t < s[i].1;
        assert(r[i - 1].0 <= t < r[i - 1].1);
    }
}

/// Whether no window ends before it begins.
pub open spec fn well_formed(windows: Seq<(u64, u64)>) -> bool {
    forall|i: int| 0 <= i < windows.len() ==> (#[trigger] windows[i]).0 <= windows[i].1
}

/// Whether `t`, counted in half instants, lies in one of the windows, of which each
/// has its end too.
pub open spec fn meets(windows: Seq<(u64, u64)>, t: int) -> bool {
    exists|i: int|
        0 <= i < windows.len() && 2 * (#[trigger] windows[i]).0 <= t <= 2 * windows[i].1
}

/// What the last window adds to what windows meet.
proof fn lemma_meets_push(m: Seq<(u64, u64)>, w: (u64, u64), t: int)
    ensures
        meets(m.push(w), t) <==> meets(m, t) || 2 * w.0 <= t <= 2 * w.1,
{
    let r = m.push(w);
    if meets(m, t) {
        let i = choose|i: int| 0 <= i < m.len() && 2 * (#[trigger] m[i]).0 <= t <= 2 * m[i].1;
        assert(r[i] == m[i]);
    }
    if 2 * w.0 <= t <= 2 * w.1 {
        assert(r[m.len() as int] == w);
    }
    if meets(r, t) {
        let i = choose|i: int| 0 <= i < r.len() && 2 * (#[trigger] r[i]).0 <= t <= 2 * r[i].1;
        if i < m.len() {
            assert(m[i] == r[i]);
        }
    }
}

/// Joining keeps windows well formed, and what they meet.
proof fn lemma_joined_meets(s: Seq<(u64, u64)>, t: int)
    requires
        ascending(s, order_of::<(u64, u64)>()),
        well_formed(s),
    ensures
        well_formed(joined(s)),
        meets(joined(s), t) <==> meets(s, t),
    decreases s.len(),
{
    let key = order_of::<(u64, u64)>();
    if s.len() > 0 {
        let d = s.drop_last();
        let w = s.last();
        let m = joined(d);
        lemma_ascending_drop_last(s, key);
        assert forall|i: int| 0 <= i < d.len() implies (#[trigger] d[i]).0 <= d[i].1 by {
            assert(s[i].0 <= s[i].1);
        }
        assert(s[s.len() - 1].0 <= s[s.len() - 1].1);
        lemma_joined_meets(d, t);
        lemma_joined(d);
        if d.len() > 0 {
            assert(key(s[d.len() - 1]) <= key(s[s.len() - 1]));
        }
        assert(s =~= d.push(w));
        lemma_meets_push(d, w, t);
        if m.len() > 0 && w.0 <= m.last().1 {
            let n = m.drop_last();
            let last = m.last();
            let end = later(last.1, w.1);
            assert(m[m.len() - 1].0 <= m[m.len() - 1].1);
            assert(m =~= n.push(last));
            lemma_meets_push(n, last, t);
            lemma_meets_push(n, (last.0, end), t);
            assert forall|i: int| 0 <= i < n.len() implies (#[trigger] n[i]).0 <= n[i].1 by {
                assert(m[i].0 <= m[i].1);
            }
        } else {
            lemma_meets_push(m, w, t);
        }
    }
}

/// Separated windows that are well formed are determined by what they meet.
proof fn lemma_same_meets(a: Seq<(u64, u64)>, b: Seq<(u64, u64)>)
    requires
        separated(a),
        separated(b),
        well_formed(a),
        well_formed(b),
        forall|t: int| #[trigger] meets(a, t) <==> meets(b, t),
    ensures
        a == b,
    decreases a.len(),
{
    if a.len() == 0 || b.len() == 0 {
        if b.len() > 0 {
            assert(2 * b[0].0 <= 2 * b[0].0 <= 2 * b[0].1);
            assert(meets(b, 2 * b[0].0));
            assert(meets(a, 2 * b[0].0));
        }
        if a.len() > 0 {
            assert(2 * a[0].0 <= 2 * a[0].0 <= 2 * a[0].1);
            assert(meets(a, 2 * a[0].0));
            assert(meets(b, 2 * a[0].0));
        }
        assert(a =~= b);
    } else {
        let (n, k) = (a.len() - 1, b.len() - 1);
        let (wa, wb) = (a.last(), b.last());
        let (da, db) = (a.drop_last(), b.drop_last());
        assert(a[n].0 <= a[n].1 && b[k].0 <= b[k].1);
        lemma_last_meets(a, 2 * wb.1);
        lemma_last_meets(b, 2 * wa.1);
        assert(2 * a[n].0 <= 2 * wa.1 <= 2 * a[n].1);
        assert(meets(a, 2 * wa.1));
        assert(2 * b[k].0 <= 2 * wb.1 <= 2 * b[k].1);
        assert(meets(b, 2 * wb.1));
        assert(meets(b, 2 * wa.1) && meets(a, 2 * wb.1));
        assert(wa.1 == wb.1);
        lemma_last_meets(a, 2 * wa.0 - 1);
        lemma_last_meets(b, 2 * wb.0 - 1);
        if wa.0 < wb.0 {
            assert(2 * a[n].0 <= 2 * wb.0 - 1 <= 2 * a[n].1);
            assert(meets(a, 2 * wb.0 - 1));
            assert(meets(b, 2 * wb.0 - 1));
        }
        if wb.0 < wa.0 {
            assert(2 * b[k].0 <= 2 * wa.0 - 1 <= 2 * b[k].1);
            assert(meets(b, 2 * wa.0 - 1));
            assert(meets(a, 2 * wa.0 - 1));
        }
        lemma_front(a);
        lemma_front(b);
        assert forall|t: int| #[trigger] meets(da, t) <==> meets(db, t) by {
            lemma_last_meets(a, t);
            lemma_last_meets(b, t);
            assert(meets(a, t) <==> meets(b, t));
            assert(a =~= da.push(wa));
            assert(b =~= db.push(wb));
            lemma_meets_push(da, wa, t);
            lemma_meets_push(db, wb, t);
        }
        lemma_same_meets(da, db);
        assert(a =~= da.push(wa));
        assert(b =~= db.push(wb));
    }
}

/// Nothing after the last of separated windows is met, and nothing right before
/// it; what the others meet lies before that.
proof fn lemma_last_meets(s: Seq<(u64, u64)>, t: int)
    requires
        separated(s),
        well_formed(s),
        s.len() > 0,
    ensures
        meets(s, t) ==> t <= 2 * s.last().1 && t != 2 * s.last().0 - 1,
        meets(s.drop_last(), t) ==> t < 2 * s.last().0 - 1,
{
    let d = s.drop_last();
    let n = s.len() - 1;
    assert(s[n].0 <= s[n].1);
    if meets(s, t) {
        let i = choose|i: int| 0 <= i < s.len() && 2 * (#[trigger] s[i]).0 <= t <= 2 * s[i].1;
        if i < n {
            assert(s[i].1 < s[n].0);
        }
    }
    if meets(d, t) {
        let i = choose|i: int| 0 <= i < d.len() && 2 * (#[trigger] d[i]).0 <= t <= 2 * d[i].1;
        assert(s[i].1 < s[n].0);
    }
}

/// Separated windows that are well formed stay so without the last.
proof fn lemma_front(s: Seq<(u64, u64)>)
    requires
        separated(s),
        well_formed(s),
        s.len() > 0,
    ensures
        separated(s.drop_last()),
        well_formed(s.drop_last()),
{
    let d = s.drop_last();
    assert forall|i: int| 0 <= i < d.len() implies (#[trigger] d[i]).0 <= d[i].1 by {
        assert(s[i].0 <= s[i].1);
    }
    assert forall|i: int, j: int|
        #![trigger d[i], d[j]]
        0 <= i < j < d.len() implies d[i].0 <= d[j].0 && d[i].1 < d[j].0 by {
        assert(s[i].1 < s[j].0);
    }
}

/// What coalesced windows meet is what the windows meet.
proof fn lemma_coalesced_meets(wins: Seq<(u64, u64)>, t: int)
    requires
        well_formed(wins),
    ensures
        well_formed(coalesced(wins)),
        meets(coalesced(wins), t) <==> meets(wins, t),
{
    let b = by_start(wins);
    lemma_by_start(wins);
    assert forall|i: int| 0 <= i < b.len() implies (#[trigger] b[i]).0 <= b[i].1 by {
        assert(b.contains(b[i]));
        let j = wins.index_of(b[i]);
        assert(wins[j].0 <= wins[j].1);
    }
    lemma_joined_meets(b, t);
    lemma_meets_members(wins, b, t);
    lemma_meets_members(b, wins, t);
}

/// Windows with the same members meet the same.
proof fn lemma_meets_members(a: Seq<(u64, u64)>, b: Seq<(u64, u64)>, t: int)
    requires
        forall|w: (u64, u64)| #[trigger] a.contains(w) ==> b.contains(w),
    ensures
        meets(a, t) ==> meets(b, t),
{
    if meets(a, t) {
        let i = choose|i: int| 0 <= i < a.len() && 2 * (#[trigger] a[i]).0 <= t <= 2 * a[i].1;
        assert(a.contains(a[i]));
        let j = b.index_of(a[i]);
        assert(2 * b[j].0 <= t <= 2 * b[j].1);
    }
}

/// Neither the order of windows nor how often one occurs matters: two lists with
/// the same members coalesce to the same windows, if no window ends before it
/// begins.
pub proof fn law_coalesce_members(a: Seq<(u64, u64)>, b: Seq<(u64, u64)>)
    requires
        well_formed(a),
        forall|w: (u64, u64)| a.contains(w) <==> b.contains(w),
    ensures
        coalesced(a) == coalesced(b),
{
    assert forall|i: int| 0 <= i < b.len() implies (#[trigger] b[i]).0 <= b[i].1 by {
        assert(b.contains(b[i]));
        let j = a.index_of(b[i]);
        assert(a[j].0 <= a[j].1);
    }
    let (ca, cb) = (coalesced(a), coalesced(b));
    law_coalesce_separates(a);
    law_coalesce_separates(b);
    lemma_coalesced_meets(a, 0);
    lemma_coalesced_meets(b, 0);
    assert forall|t: int| #[trigger] meets(ca, t) <==> meets(cb, t) by {
        lemma_coalesced_meets(a, t);
        lemma_coalesced_meets(b, t);
        lemma_meets_members(a, b, t);
        lemma_meets_members(b, a, t);
    }
    lemma_same_meets(ca, cb);
}

/// The order of windows does not matter: two lists of the same windows coalesce
/// alike, if no window ends before it begins.
pub proof fn law_coalesce_unordered(a: Seq<(u64, u64)>, b: Seq<(u64, u64)>)
    requires
        well_formed(a),
        a.to_multiset() == b.to_multiset(),
    ensures
        coalesced(a) == coalesced(b),
{
    a.to_multiset_ensures();
    b.to_multiset_ensures();
    assert forall|w: (u64, u64)| a.contains(w) <==> b.contains(w) by {
        assert(a.contains(w) <==> a.to_multiset().count(w) > 0);
        assert(b.contains(w) <==> b.to_multiset().count(w) > 0);
    }
    law_coalesce_members(a, b);
}

/// Windows that come in order and neither overlap nor touch are left as they are.
pub proof fn law_coalesce_leaves_separated(wins: Seq<(u64, u64)>)
    requires
        forall|i: int, j: int|
            #![trigger wins[i], wins[j]]
            0 <= i < j < wins.len() ==> wins[i].0 <= wins[j].0 && wins[i].1 < wins[j].0,
    ensures
        coalesced(wins) == wins,
{
    lemma_separated_is_coalesced(wins);
}

/// If no window ends before it begins, coalescing keeps what the windows meet, their
/// ends among it: not even a window without a length is lost.
pub proof fn law_coalesce_keeps_points(wins: Seq<(u64, u64)>, t: int)
    requires
        well_formed(wins),
    ensures
        meets(coalesced(wins), t) <==> meets(wins, t),
        well_formed(coalesced(wins)),
{
    lemma_coalesced_meets(wins, t);
}

/// Every coalesced window begins where one of the windows begins, and ends where one of
/// them ends.
pub proof fn law_coalesce_keeps_ends(wins: Seq<(u64, u64)>, k: int)
    requires
        0 <= k < coalesced(wins).len(),
    ensures
        exists|i: int| 0 <= i < wins.len() && (#[trigger] wins[i]).0 == coalesced(wins)[k].0,
        exists|i: int| 0 <= i < wins.len() && (#[trigger] wins[i]).1 == coalesced(wins)[k].1,
{
    let b = by_start(wins);
    lemma_by_start(wins);
    lemma_joined_ends(b, k);
    let i = choose|i: int| 0 <= i < b.len() && (#[trigger] b[i]).0 == joined(b)[k].0;
    let j = choose|j: int| 0 <= j < b.len() && (#[trigger] b[j]).1 == joined(b)[k].1;
    assert(b.contains(b[i]) && b.contains(b[j]));
    assert(wins[wins.index_of(b[i])] == b[i]);
    assert(wins[wins.index_of(b[j])] == b[j]);
}

/// Joining takes starts and ends from the windows.
proof fn lemma_joined_ends(s: Seq<(u64, u64)>, k: int)
    requires
        0 <= k < joined(s).len(),
    ensures
        exists|i: int| 0 <= i < s.len() && (#[trigger] s[i]).0 == joined(s)[k].0,
        exists|i: int| 0 <= i < s.len() && (#[trigger] s[i]).1 == joined(s)[k].1,
    decreases s.len(),
{
    if s.len() > 0 {
        let d = s.drop_last();
        let m = joined(d);
        assert(s[s.len() - 1] == s.last());
        if k < m.len() {
            lemma_joined_ends(d, k);
            let i = choose|i: int| 0 <= i < d.len() && (#[trigger] d[i]).0 == m[k].0;
            let j = choose|j: int| 0 <= j < d.len() && (#[trigger] d[j]).1 == m[k].1;
            assert(s[i] == d[i]);
            assert(s[j] == d[j]);
        }
    }
}

} // verus!
