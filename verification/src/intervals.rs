//! Half-open integer intervals `[start, end)` over byte offsets or token
//! indices: sorting, coalescing, complementing and fuzzy joining.

use vstd::prelude::*;

use crate::ratio::Threshold;

verus! {

/// Every interval has `start <= end`.
pub open spec fn well_formed(v: Seq<(usize, usize)>) -> bool {
    forall|i: int| 0 <= i < v.len() ==> (#[trigger] v[i]).0 <= v[i].1
}

/// Starts never decrease along the sequence.
pub open spec fn sorted_by_start(v: Seq<(usize, usize)>) -> bool {
    forall|i: int, j: int| 0 <= i < j < v.len() ==> (#[trigger] v[i]).0 <= (#[trigger] v[j]).0
}

/// Each interval ends strictly before the next one starts.
pub open spec fn separated(v: Seq<(usize, usize)>) -> bool {
    forall|i: int, j: int| 0 <= i < j < v.len() ==> (#[trigger] v[i]).1 < (#[trigger] v[j]).0
}

/// Well-formed intervals, each ending no later than the next one starts.
pub open spec fn sorted_disjoint(v: Seq<(usize, usize)>) -> bool {
    &&& well_formed(v)
    &&& forall|i: int, j: int| 0 <= i < j < v.len() ==> (#[trigger] v[i]).1 <= (#[trigger] v[j]).0
}

/// No interval ends beyond `limit`.
pub open spec fn bounded_by(v: Seq<(usize, usize)>, limit: int) -> bool {
    forall|i: int| 0 <= i < v.len() ==> (#[trigger] v[i]).1 <= limit
}

/// The point `x` lies in some interval of `v`.
pub open spec fn covers(v: Seq<(usize, usize)>, x: int) -> bool {
    exists|i: int| 0 <= i < v.len() && (#[trigger] v[i]).0 <= x < v[i].1
}

/// `acc` with `iv` placed behind every interval that does not start later.
pub open spec fn insert_by_start(acc: Seq<(usize, usize)>, iv: (usize, usize)) -> Seq<
    (usize, usize),
>
    decreases acc.len(),
{
    if acc.len() > 0 && acc.last().0 > iv.0 {
        insert_by_start(acc.drop_last(), iv).push(acc.last())
    } else {
        acc.push(iv)
    }
}

/// `v` in order of start; intervals with equal starts keep their order.
pub open spec fn sort_by_start(v: Seq<(usize, usize)>) -> Seq<(usize, usize)>
    decreases v.len(),
{
    if v.len() == 0 {
        Seq::empty()
    } else {
        insert_by_start(sort_by_start(v.drop_last()), v.last())
    }
}

/// One coalescing step: `iv` is absorbed by the last interval of `acc` when
/// that one ends at or after the start of `iv`, and appended otherwise.
pub open spec fn merge_step(acc: Seq<(usize, usize)>, iv: (usize, usize)) -> Seq<(usize, usize)> {
    if acc.len() > 0 && acc.last().1 >= iv.0 {
        acc.drop_last().push(
            (
                acc.last().0,
                if iv.1 >= acc.last().1 {
                    iv.1
                } else {
                    acc.last().1
                },
            ),
        )
    } else {
        acc.push(iv)
    }
}

/// Left-to-right coalescing of overlapping or adjacent intervals.
pub open spec fn merge_run(v: Seq<(usize, usize)>) -> Seq<(usize, usize)>
    decreases v.len(),
{
    if v.len() == 0 {
        Seq::empty()
    } else {
        merge_step(merge_run(v.drop_last()), v.last())
    }
}

/// What `merge_intervals` returns.
pub open spec fn merged(v: Seq<(usize, usize)>, already_sorted: bool) -> Seq<(usize, usize)> {
    if already_sorted {
        merge_run(v)
    } else {
        merge_run(sort_by_start(v))
    }
}

/// Two-pointer interleaving of `u[ui..]` and `w[wi..]`: the smaller head
/// goes first, ties by start go to the shorter, then to `u`.
pub open spec fn interleave_from(
    u: Seq<(usize, usize)>,
    w: Seq<(usize, usize)>,
    ui: int,
    wi: int,
) -> Seq<(usize, usize)>
    decreases u.len() - ui + w.len() - wi,
{
    if ui < 0 || wi < 0 {
        Seq::empty()
    } else if ui >= u.len() {
        w.skip(wi)
    } else if wi >= w.len() {
        u.skip(ui)
    } else if u[ui].0 < w[wi].0 || (u[ui].0 == w[wi].0 && u[ui].1 <= w[wi].1) {
        seq![u[ui]] + interleave_from(u, w, ui + 1, wi)
    } else {
        seq![w[wi]] + interleave_from(u, w, ui, wi + 1)
    }
}

/// The gaps between consecutive intervals of `v`.
pub open spec fn inner_gaps(v: Seq<(usize, usize)>) -> Seq<(usize, usize)> {
    Seq::new((v.len() - 1) as nat, |i: int| (v[i].1, v[i + 1].0))
}

/// The complement of `v` in `[0, max_len)`: the part before the first
/// interval, the gaps in between, and the part behind the last one.
pub open spec fn inverted(v: Seq<(usize, usize)>, max_len: usize) -> Seq<(usize, usize)> {
    if v.len() == 0 {
        seq![(0usize, max_len)]
    } else {
        let head = if v[0].0 > 0 {
            seq![(0usize, v[0].0)]
        } else {
            Seq::empty()
        };
        let tail = if v.last().1 < max_len {
            seq![(v.last().1, max_len)]
        } else {
            Seq::empty()
        };
        head + inner_gaps(v) + tail
    }
}

/// A running span of the fuzzy scan: its bounds and the summed width of the
/// intervals it has absorbed.
pub struct Span {
    pub start: usize,
    pub end: usize,
    pub weight: int,
}

/// The span that starts at `iv` alone.
pub open spec fn span_of(iv: (usize, usize)) -> Span {
    Span { start: iv.0, end: iv.1, weight: iv.1 - iv.0 }
}

/// The span `cur` grown to take in `iv`.
pub open spec fn span_joined(cur: Span, iv: (usize, usize)) -> Span {
    Span {
        start: if iv.0 <= cur.start {
            iv.0
        } else {
            cur.start
        },
        end: if iv.1 >= cur.end {
            iv.1
        } else {
            cur.end
        },
        weight: cur.weight + (iv.1 - iv.0),
    }
}

/// One step of the fuzzy scan: `iv` joins the last span when the absorbed
/// width is at least `threshold` times the width of the grown span.
pub open spec fn fuzzy_step(acc: Seq<Span>, iv: (usize, usize), threshold: Threshold) -> Seq<
    Span,
> {
    if acc.len() == 0 {
        acc.push(span_of(iv))
    } else {
        let joined = span_joined(acc.last(), iv);
        if threshold.is_reached_scaled(joined.weight, joined.end - joined.start) {
            acc.drop_last().push(joined)
        } else {
            acc.push(span_of(iv))
        }
    }
}

/// The spans after scanning all of `v` in the order given.
pub open spec fn fuzzy_run(v: Seq<(usize, usize)>, threshold: Threshold) -> Seq<Span>
    decreases v.len(),
{
    if v.len() == 0 {
        Seq::empty()
    } else {
        fuzzy_step(fuzzy_run(v.drop_last(), threshold), v.last(), threshold)
    }
}

/// The order in which the fuzzy scan visits `v`.
pub open spec fn scan_order(v: Seq<(usize, usize)>, forward: bool) -> Seq<(usize, usize)> {
    if forward {
        v
    } else {
        v.reverse()
    }
}

/// What `fuzzy_sandwich_intervals` returns: the bounds of the spans of a
/// scan from the front, or from the back when `forward` is false. The spans
/// come in the order of the scan.
pub open spec fn fuzzy_sandwich(v: Seq<(usize, usize)>, forward: bool, threshold: Threshold) -> Seq<
    (usize, usize),
> {
    fuzzy_run(scan_order(v, forward), threshold).map_values(|s: Span| (s.start, s.end))
}

/// `insert_by_start` puts `iv` at the position where the scan from the back
/// first meets an interval that does not start later.
proof fn lemma_insert_position(acc: Seq<(usize, usize)>, iv: (usize, usize), pos: int)
    requires
        0 <= pos <= acc.len(),
        forall|j: int| pos <= j < acc.len() ==> (#[trigger] acc[j]).0 > iv.0,
        pos == 0 || acc[pos - 1].0 <= iv.0,
    ensures
        insert_by_start(acc, iv) == acc.insert(pos, iv),
    decreases acc.len() - pos,
{
    if pos == acc.len() {
        assert(acc.push(iv) =~= acc.insert(pos, iv));
    } else {
        lemma_insert_position(acc.drop_last(), iv, pos);
        assert(acc.drop_last().insert(pos, iv).push(acc.last()) =~= acc.insert(pos, iv));
    }
}

/// The intervals of `v` in order of start. Intervals with equal starts keep
/// the order they came in.
pub fn sort_intervals(v: &Vec<(usize, usize)>) -> (r: Vec<(usize, usize)>)
    ensures
        r@ == sort_by_start(v@),
{
    let mut out: Vec<(usize, usize)> = Vec::new();
    let mut i: usize = 0;
    while i < v.len()
        invariant
            i <= v.len(),
            out@ == sort_by_start(v@.take(i as int)),
        decreases v.len() - i,
    {
        let iv = v[i];
        let mut pos: usize = out.len();
        while pos > 0 && out[pos - 1].0 > iv.0
            invariant
                pos <= out.len(),
                forall|j: int| pos <= j < out.len() ==> (#[trigger] out@[j]).0 > iv.0,
            decreases pos,
        {
            pos -= 1;
        }
        proof {
            lemma_insert_position(out@, iv, pos as int);
            assert(v@.take(i + 1).drop_last() =~= v@.take(i as int));
        }
        out.insert(pos, iv);
        i += 1;
    }
    proof {
        assert(v@.take(v.len() as int) =~= v@);
    }
    out
}

/// Coalesces overlapping and adjacent intervals, after sorting them by
/// start unless the caller says they are sorted already.
pub fn merge_intervals(v: Vec<(usize, usize)>, already_sorted: bool) -> (r: Vec<(usize, usize)>)
    ensures
        r@ == merged(v@, already_sorted),
{
    let v = if already_sorted {
        v
    } else {
        sort_intervals(&v)
    };
    let mut out: Vec<(usize, usize)> = Vec::new();
    let mut i: usize = 0;
    while i < v.len()
        invariant
            i <= v.len(),
            out@ == merge_run(v@.take(i as int)),
        decreases v.len() - i,
    {
        let (s, e) = v[i];
        let n: usize = out.len();
        proof {
            assert(v@.take(i + 1).drop_last() =~= v@.take(i as int));
        }
        if n > 0 && out[n - 1].1 >= s {
            let (old_s, old_e) = out[n - 1];
            out.pop();
            out.push((old_s, if e >= old_e { e } else { old_e }));
        } else {
            out.push((s, e));
        }
        i += 1;
    }
    proof {
        assert(v@.take(v.len() as int) =~= v@);
    }
    out
}

/// Interleaves two lists of intervals by their heads, then coalesces the
/// result as a sorted list.
pub fn merge_sorted_interval_pair(u: Vec<(usize, usize)>, w: Vec<(usize, usize)>) -> (r: Vec<
    (usize, usize),
>)
    ensures
        r@ == merge_run(interleave_from(u@, w@, 0, 0)),
{
    let mut v: Vec<(usize, usize)> = Vec::new();
    let mut ui: usize = 0;
    let mut wi: usize = 0;
    while ui < u.len() && wi < w.len()
        invariant
            ui <= u.len(),
            wi <= w.len(),
            v@ + interleave_from(u@, w@, ui as int, wi as int) == interleave_from(u@, w@, 0, 0),
        decreases u.len() - ui + w.len() - wi,
    {
        let (us, ue) = u[ui];
        let (ws, we) = w[wi];
        let ghost rest = interleave_from(u@, w@, ui as int, wi as int);
        if us < ws || (us == ws && ue <= we) {
            v.push((us, ue));
            ui += 1;
        } else {
            v.push((ws, we));
            wi += 1;
        }
        proof {
            assert(v@ + interleave_from(u@, w@, ui as int, wi as int) =~= v@.drop_last() + rest);
        }
    }
    while ui < u.len()
        invariant
            ui <= u.len(),
            wi <= w.len(),
            ui >= u.len() || wi >= w.len(),
            v@ + interleave_from(u@, w@, ui as int, wi as int) == interleave_from(u@, w@, 0, 0),
        decreases u.len() - ui,
    {
        let ghost rest = interleave_from(u@, w@, ui as int, wi as int);
        v.push(u[ui]);
        ui += 1;
        proof {
            assert(rest =~= seq![u@[ui - 1]] + u@.skip(ui as int));
            assert(interleave_from(u@, w@, ui as int, wi as int) =~= u@.skip(ui as int)) by {
                if ui >= u.len() {
                    assert(w@.skip(wi as int) =~= Seq::empty());
                    assert(u@.skip(ui as int) =~= Seq::empty());
                }
            }
            assert(v@ + interleave_from(u@, w@, ui as int, wi as int) =~= v@.drop_last() + rest);
        }
    }
    while wi < w.len()
        invariant
            ui == u.len(),
            wi <= w.len(),
            v@ + interleave_from(u@, w@, ui as int, wi as int) == interleave_from(u@, w@, 0, 0),
        decreases w.len() - wi,
    {
        let ghost rest = interleave_from(u@, w@, ui as int, wi as int);
        v.push(w[wi]);
        wi += 1;
        proof {
            assert(rest =~= seq![w@[wi - 1]] + w@.skip(wi as int));
            assert(v@ + interleave_from(u@, w@, ui as int, wi as int) =~= v@.drop_last() + rest);
        }
    }
    proof {
        assert(interleave_from(u@, w@, ui as int, wi as int) =~= Seq::empty());
        assert(v@ + Seq::<(usize, usize)>::empty() =~= v@);
    }
    merge_intervals(v, true)
}

/// The intervals, sorted by start unless the caller says they are sorted
/// already, together with their complement in `[0, max_len)`.
pub fn invert_intervals(v: Vec<(usize, usize)>, already_sorted: bool, max_len: usize) -> (r: (
    Vec<(usize, usize)>,
    Vec<(usize, usize)>,
))
    ensures
        r.0@ == if already_sorted {
            v@
        } else {
            sort_by_start(v@)
        },
        r.1@ == inverted(r.0@, max_len),
{
    let v = if already_sorted {
        v
    } else {
        sort_intervals(&v)
    };
    let mut inv: Vec<(usize, usize)> = Vec::new();
    let n: usize = v.len();
    if n == 0 {
        inv.push((0, max_len));
        return (v, inv);
    }
    if v[0].0 > 0 {
        inv.push((0, v[0].0));
    }
    let ghost head = inv@;
    let mut i: usize = 0;
    while i + 1 < n
        invariant
            n == v.len(),
            n > 0,
            i + 1 <= n,
            inv@ == head + inner_gaps(v@).take(i as int),
        decreases n - i,
    {
        inv.push((v[i].1, v[i + 1].0));
        proof {
            assert(inner_gaps(v@).take(i + 1) =~= inner_gaps(v@).take(i as int).push(
                (v@[i as int].1, v@[i + 1].0),
            ));
        }
        i += 1;
    }
    proof {
        assert(inner_gaps(v@).take(i as int) =~= inner_gaps(v@));
    }
    if v[n - 1].1 < max_len {
        inv.push((v[n - 1].1, max_len));
    }
    proof {
        assert(inv@ =~= inverted(v@, max_len));
    }
    (v, inv)
}

/// Scans sorted, disjoint intervals from the front (or from the back) and
/// greedily joins each interval to the running span as long as the absorbed
/// width stays at or above `threshold` times the width of the span. Returns
/// the bounds of the spans in the order of the scan.
pub fn fuzzy_sandwich_intervals(v: &Vec<(usize, usize)>, forward: bool, threshold: Threshold) -> (r:
    Vec<(usize, usize)>)
    requires
        sorted_disjoint(v@),
    ensures
        r@ == fuzzy_sandwich(v@, forward, threshold),
{
    let n: usize = v.len();
    let ghost order = scan_order(v@, forward);
    let mut spans: Vec<(usize, usize, usize)> = Vec::new();
    let mut k: usize = 0;
    while k < n
        invariant
            n == v.len(),
            k <= n,
            sorted_disjoint(v@),
            order == scan_order(v@, forward),
            spans@.len() == fuzzy_run(order.take(k as int), threshold).len(),
            forall|i: int|
                0 <= i < spans@.len() ==> {
                    let s = #[trigger] fuzzy_run(order.take(k as int), threshold)[i];
                    s.start == spans@[i].0 && s.end == spans@[i].1 && s.weight == spans@[i].2
                },
            k > 0 ==> spans@.len() > 0,
            k > 0 ==> spans@.last().0 <= spans@.last().1 && spans@.last().2 <= spans@.last().1
                - spans@.last().0,
            k > 0 && forward ==> spans@.last().1 == v@[k - 1].1,
            k > 0 && !forward ==> spans@.last().0 == v@[n - k].0,
        decreases n - k,
    {
        let idx: usize = if forward {
            k
        } else {
            n - 1 - k
        };
        let (next_s, next_e) = v[idx];
        let ghost before = fuzzy_run(order.take(k as int), threshold);
        proof {
            assert(order.take(k + 1).drop_last() =~= order.take(k as int));
            assert(order.take(k + 1).last() == v@[idx as int]);
            assert(v@[idx as int].0 <= v@[idx as int].1);
        }
        let m: usize = spans.len();
        if m == 0 {
            spans.push((next_s, next_e, next_e - next_s));
        } else {
            let (cur_s, cur_e, cur_w) = spans[m - 1];
            proof {
                if forward {
                    assert(v@[k - 1].1 <= v@[idx as int].0);
                } else {
                    assert(v@[idx as int].1 <= v@[n - k].0);
                }
            }
            let new_s: usize = if next_s <= cur_s {
                next_s
            } else {
                cur_s
            };
            let new_e: usize = if next_e >= cur_e {
                next_e
            } else {
                cur_e
            };
            let new_w: usize = cur_w + (next_e - next_s);
            if threshold.scaled_reached_by(new_w, new_e - new_s) {
                spans.pop();
                spans.push((new_s, new_e, new_w));
            } else {
                spans.push((next_s, next_e, next_e - next_s));
            }
        }
        k += 1;
    }
    proof {
        assert(order.take(n as int) =~= order);
    }
    let mut out: Vec<(usize, usize)> = Vec::new();
    let mut i: usize = 0;
    while i < spans.len()
        invariant
            i <= spans.len(),
            out@.len() == i,
            forall|j: int| 0 <= j < i ==> out@[j] == ((#[trigger] spans@[j]).0, spans@[j].1),
        decreases spans.len() - i,
    {
        out.push((spans[i].0, spans[i].1));
        i += 1;
    }
    proof {
        assert(out@ =~= fuzzy_sandwich(v@, forward, threshold));
    }
    out
}

/// Every start is at most `limit`.
pub open spec fn starts_bounded_by(v: Seq<(usize, usize)>, limit: int) -> bool {
    forall|i: int| 0 <= i < v.len() ==> (#[trigger] v[i]).0 <= limit
}

/// The position at which `insert_by_start` places `iv`.
pub open spec fn insert_position(acc: Seq<(usize, usize)>, iv: (usize, usize)) -> int
    decreases acc.len(),
{
    if acc.len() > 0 && acc.last().0 > iv.0 {
        insert_position(acc.drop_last(), iv)
    } else {
        acc.len() as int
    }
}

/// `insert_by_start` is an insertion at `insert_position`, behind the last
/// interval that does not start later.
pub proof fn lemma_insert_by_start(acc: Seq<(usize, usize)>, iv: (usize, usize))
    ensures
        0 <= insert_position(acc, iv) <= acc.len(),
        insert_by_start(acc, iv) == acc.insert(insert_position(acc, iv), iv),
        forall|j: int| insert_position(acc, iv) <= j < acc.len() ==> (#[trigger] acc[j]).0 > iv.0,
        insert_position(acc, iv) > 0 ==> acc[insert_position(acc, iv) - 1].0 <= iv.0,
    decreases acc.len(),
{
    if acc.len() > 0 && acc.last().0 > iv.0 {
        lemma_insert_by_start(acc.drop_last(), iv);
        let pos = insert_position(acc.drop_last(), iv);
        assert(acc.drop_last().insert(pos, iv).push(acc.last()) =~= acc.insert(pos, iv));
        assert forall|j: int| pos <= j < acc.len() implies (#[trigger] acc[j]).0 > iv.0 by {
            if j < acc.len() - 1 {
                assert(acc.drop_last()[j] == acc[j]);
            }
        }
        if pos > 0 {
            assert(acc.drop_last()[pos - 1] == acc[pos - 1]);
        }
    } else {
        assert(acc.push(iv) =~= acc.insert(acc.len() as int, iv));
    }
}

/// A point is covered after a push exactly if it was covered before or lies
/// in the pushed interval.
pub proof fn lemma_covers_push(s: Seq<(usize, usize)>, a: (usize, usize), x: int)
    ensures
        covers(s.push(a), x) <==> (covers(s, x) || a.0 <= x < a.1),
{
    let t = s.push(a);
    {
        if covers(t, x) {
            let i = choose|i: int| 0 <= i < t.len() && (#[trigger] t[i]).0 <= x < t[i].1;
            if i < s.len() {
                assert(s[i].0 <= x < s[i].1);
            }
        }
        if covers(s, x) {
            let i = choose|i: int| 0 <= i < s.len() && (#[trigger] s[i]).0 <= x < s[i].1;
            assert(t[i].0 <= x < t[i].1);
        }
        if a.0 <= x < a.1 {
            assert(t[s.len() as int].0 <= x < t[s.len() as int].1);
        }
    }
}

/// A point is covered after an insertion exactly if it was covered before
/// or lies in the inserted interval.
pub proof fn lemma_covers_insert(s: Seq<(usize, usize)>, pos: int, a: (usize, usize), x: int)
    requires
        0 <= pos <= s.len(),
    ensures
        covers(s.insert(pos, a), x) <==> (covers(s, x) || a.0 <= x < a.1),
{
    let t = s.insert(pos, a);
    {
        if covers(t, x) {
            let i = choose|i: int| 0 <= i < t.len() && (#[trigger] t[i]).0 <= x < t[i].1;
            if i < pos {
                assert(s[i].0 <= x < s[i].1);
            } else if i > pos {
                assert(s[i - 1].0 <= x < s[i - 1].1);
            }
        }
        if covers(s, x) {
            let i = choose|i: int| 0 <= i < s.len() && (#[trigger] s[i]).0 <= x < s[i].1;
            if i < pos {
                assert(t[i].0 <= x < t[i].1);
            } else {
                assert(t[i + 1].0 <= x < t[i + 1].1);
            }
        }
        if a.0 <= x < a.1 {
            assert(t[pos].0 <= x < t[pos].1);
        }
    }
}

/// Sorting by start yields a sorted list of the same length that covers the
/// same points, and keeps well-formedness and bounds.
pub proof fn lemma_sort_by_start(v: Seq<(usize, usize)>)
    ensures
        sorted_by_start(sort_by_start(v)),
        sort_by_start(v).len() == v.len(),
        forall|x: int| covers(sort_by_start(v), x) <==> covers(v, x),
        well_formed(v) ==> well_formed(sort_by_start(v)),
        forall|limit: int| bounded_by(v, limit) ==> #[trigger] bounded_by(sort_by_start(v), limit),
    decreases v.len(),
{
    if v.len() == 0 {
        assert forall|x: int| covers(sort_by_start(v), x) <==> covers(v, x) by {}
    } else {
        let head = v.drop_last();
        let iv = v.last();
        let acc = sort_by_start(head);
        lemma_sort_by_start(head);
        lemma_insert_by_start(acc, iv);
        let pos = insert_position(acc, iv);
        let r = acc.insert(pos, iv);
        assert(r == sort_by_start(v));
        assert(head.push(iv) =~= v);
        assert forall|x: int| covers(sort_by_start(v), x) <==> covers(v, x) by {
            lemma_covers_insert(acc, pos, iv, x);
            lemma_covers_push(head, iv, x);
        }
        assert forall|i: int, j: int| 0 <= i < j < r.len() implies (#[trigger] r[i]).0 <= (
        #[trigger] r[j]).0 by {
            if j < pos {
            } else if j == pos {
                if pos > 0 {
                    assert(acc[i].0 <= acc[pos - 1].0 || i == pos - 1);
                }
            } else if i < pos {
                assert(acc[i].0 <= acc[j - 1].0);
            } else if i == pos {
                assert(acc[j - 1].0 > iv.0);
            } else {
                assert(acc[i - 1].0 <= acc[j - 1].0);
            }
        }
        if well_formed(v) {
            assert(well_formed(head)) by {
                assert forall|i: int| 0 <= i < head.len() implies (#[trigger] head[i]).0
                    <= head[i].1 by {
                    assert(head[i] == v[i]);
                }
            }
            assert forall|i: int| 0 <= i < r.len() implies (#[trigger] r[i]).0 <= r[i].1 by {
                if i < pos {
                    assert(r[i] == acc[i]);
                } else if i > pos {
                    assert(r[i] == acc[i - 1]);
                }
            }
        }
        assert forall|limit: int| bounded_by(v, limit) implies #[trigger] bounded_by(
            sort_by_start(v),
            limit,
        ) by {
            assert(bounded_by(head, limit)) by {
                assert forall|i: int| 0 <= i < head.len() implies (#[trigger] head[i]).1
                    <= limit by {
                    assert(head[i] == v[i]);
                }
            }
            assert(bounded_by(acc, limit));
            assert forall|i: int| 0 <= i < r.len() implies (#[trigger] r[i]).1 <= limit by {
                if i < pos {
                    assert(r[i] == acc[i]);
                } else if i > pos {
                    assert(r[i] == acc[i - 1]);
                }
            }
        }
    }
}

/// Sorting a list that is sorted by start changes nothing.
pub proof fn lemma_sort_sorted(v: Seq<(usize, usize)>)
    requires
        sorted_by_start(v),
    ensures
        sort_by_start(v) == v,
    decreases v.len(),
{
    if v.len() == 0 {
        assert(v =~= Seq::empty());
    } else {
        let head = v.drop_last();
        assert(sorted_by_start(head)) by {
            assert forall|i: int, j: int| 0 <= i < j < head.len() implies (#[trigger] head[i]).0
                <= (#[trigger] head[j]).0 by {
                assert(head[i] == v[i] && head[j] == v[j]);
            }
        }
        lemma_sort_sorted(head);
        if head.len() > 0 {
            assert(head.last() == v[v.len() - 2]);
        }
        assert(head.push(v.last()) =~= v);
    }
}

/// Coalescing keeps every start and every end within the bounds of the
/// input.
pub proof fn lemma_merge_run_bounds(v: Seq<(usize, usize)>, start_limit: int, end_limit: int)
    requires
        starts_bounded_by(v, start_limit),
        bounded_by(v, end_limit),
    ensures
        starts_bounded_by(merge_run(v), start_limit),
        bounded_by(merge_run(v), end_limit),
        merge_run(v).len() <= v.len(),
        v.len() > 0 ==> merge_run(v).len() > 0,
    decreases v.len(),
{
    if v.len() > 0 {
        let head = v.drop_last();
        assert(starts_bounded_by(head, start_limit) && bounded_by(head, end_limit)) by {
            assert forall|i: int| 0 <= i < head.len() implies (#[trigger] head[i]).0
                <= start_limit && head[i].1 <= end_limit by {
                assert(head[i] == v[i]);
            }
        }
        lemma_merge_run_bounds(head, start_limit, end_limit);
    }
}

/// Coalescing well-formed intervals yields well-formed intervals, each
/// ending strictly before the next one starts. Where the input is sorted by
/// start, the result covers the same points.
pub proof fn lemma_merge_run(v: Seq<(usize, usize)>)
    requires
        well_formed(v),
    ensures
        well_formed(merge_run(v)),
        separated(merge_run(v)),
        sorted_by_start(v) ==> forall|x: int| covers(merge_run(v), x) <==> covers(v, x),
    decreases v.len(),
{
    if v.len() == 0 {
        assert forall|x: int| covers(merge_run(v), x) <==> covers(v, x) by {}
    } else {
        let head = v.drop_last();
        let iv = v.last();
        let acc = merge_run(head);
        let r = merge_step(acc, iv);
        assert(well_formed(head)) by {
            assert forall|i: int| 0 <= i < head.len() implies (#[trigger] head[i]).0
                <= head[i].1 by {
                assert(head[i] == v[i]);
            }
        }
        lemma_merge_run(head);
        assert(head.push(iv) =~= v);
        assert(iv.0 <= iv.1);
        if acc.len() > 0 && acc.last().1 >= iv.0 {
            let front = acc.drop_last();
            let last = acc.last();
            assert(last.0 <= last.1);
            assert forall|i: int| 0 <= i < r.len() implies (#[trigger] r[i]).0 <= r[i].1 by {
                if i < front.len() {
                    assert(r[i] == acc[i]);
                }
            }
            assert forall|i: int, j: int| 0 <= i < j < r.len() implies (#[trigger] r[i]).1 < (
            #[trigger] r[j]).0 by {
                assert(r[i] == acc[i]);
                if j < front.len() {
                    assert(r[j] == acc[j]);
                } else {
                    assert(acc[i].1 < acc[j].0);
                }
            }
        } else {
            assert forall|i: int| 0 <= i < r.len() implies (#[trigger] r[i]).0 <= r[i].1 by {
                if i < acc.len() {
                    assert(r[i] == acc[i]);
                }
            }
            assert forall|i: int, j: int| 0 <= i < j < r.len() implies (#[trigger] r[i]).1 < (
            #[trigger] r[j]).0 by {
                assert(r[i] == acc[i]);
                if j < acc.len() {
                    assert(r[j] == acc[j]);
                } else {
                    assert(acc[i].1 <= acc.last().1);
                }
            }
        }
        if sorted_by_start(v) {
            assert(sorted_by_start(head)) by {
                assert forall|i: int, j: int| 0 <= i < j < head.len() implies (
                #[trigger] head[i]).0 <= (#[trigger] head[j]).0 by {
                    assert(head[i] == v[i] && head[j] == v[j]);
                }
            }
            assert(starts_bounded_by(head, iv.0 as int)) by {
                assert forall|i: int| 0 <= i < head.len() implies (#[trigger] head[i]).0
                    <= iv.0 by {
                    assert(head[i] == v[i]);
                    assert(v[i].0 <= v[v.len() - 1].0);
                }
            }
            assert(bounded_by(head, usize::MAX as int));
            lemma_merge_run_bounds(head, iv.0 as int, usize::MAX as int);
            if acc.len() > 0 && acc.last().1 >= iv.0 {
                let front = acc.drop_last();
                let last = acc.last();
                let joined = (
                    last.0,
                    if iv.1 >= last.1 {
                        iv.1
                    } else {
                        last.1
                    },
                );
                assert(front.push(last) =~= acc);
                assert(last.0 <= iv.0);
                assert forall|x: int| covers(r, x) <==> covers(v, x) by {
                    lemma_covers_push(head, iv, x);
                    lemma_covers_push(front, joined, x);
                    lemma_covers_push(front, last, x);
                }
            } else {
                assert forall|x: int| covers(r, x) <==> covers(v, x) by {
                    lemma_covers_push(head, iv, x);
                    lemma_covers_push(acc, iv, x);
                }
            }
        }
    }
}

/// `merge_intervals` returns well-formed intervals that are sorted, apart
/// from one another, of the same bound as the input and cover the same
/// points. A caller who passes `already_sorted` has to mean it.
pub proof fn lemma_merged(v: Seq<(usize, usize)>, already_sorted: bool, limit: int)
    requires
        well_formed(v),
        already_sorted ==> sorted_by_start(v),
        bounded_by(v, limit),
    ensures
        well_formed(merged(v, already_sorted)),
        separated(merged(v, already_sorted)),
        sorted_by_start(merged(v, already_sorted)),
        bounded_by(merged(v, already_sorted), limit),
        forall|x: int| covers(merged(v, already_sorted), x) <==> covers(v, x),
{
    let input = if already_sorted {
        v
    } else {
        sort_by_start(v)
    };
    lemma_sort_by_start(v);
    assert(bounded_by(input, limit));
    lemma_merge_run(input);
    assert(starts_bounded_by(input, usize::MAX as int));
    lemma_merge_run_bounds(input, usize::MAX as int, limit);
    let m = merge_run(input);
    assert forall|i: int, j: int| 0 <= i < j < m.len() implies (#[trigger] m[i]).0 <= (
    #[trigger] m[j]).0 by {
        assert(m[i].0 <= m[i].1);
    }
}

/// In a list of intervals that are apart from one another, an earlier
/// interval starts and ends before a later one does.
pub proof fn lemma_separated_order(m: Seq<(usize, usize)>, i: int, j: int)
    requires
        well_formed(m),
        separated(m),
        0 <= i <= j < m.len(),
    ensures
        m[i].0 <= m[j].0,
        m[i].1 <= m[j].1,
{
    if i < j {
        assert(m[i].1 < m[j].0);
        assert(m[i].0 <= m[i].1);
        assert(m[j].0 <= m[j].1);
    }
}

/// For a point between the first start and a later start, the index of the
/// last interval that starts at or before it.
proof fn lemma_locate(m: Seq<(usize, usize)>, x: int, hi: int) -> (i: int)
    requires
        0 < hi < m.len(),
        m[0].0 <= x < m[hi].0,
    ensures
        0 <= i < hi,
        m[i].0 <= x < m[i + 1].0,
    decreases hi,
{
    if m[hi - 1].0 <= x {
        hi - 1
    } else {
        lemma_locate(m, x, hi - 1)
    }
}

/// The complement of well-formed intervals that lie apart from one another
/// within `[0, max_len)` is well-formed and sorted, stays within the same
/// bound, and covers exactly the points of `[0, max_len)` that the
/// intervals do not cover.
pub proof fn lemma_inverted(m: Seq<(usize, usize)>, max_len: usize)
    requires
        well_formed(m),
        separated(m),
        bounded_by(m, max_len as int),
    ensures
        well_formed(inverted(m, max_len)),
        sorted_by_start(inverted(m, max_len)),
        sorted_disjoint(inverted(m, max_len)),
        bounded_by(inverted(m, max_len), max_len as int),
        forall|x: int| covers(inverted(m, max_len), x) <==> (0 <= x < max_len && !covers(m, x)),
{
    let inv = inverted(m, max_len);
    let n = m.len() as int;
    if n == 0 {
        assert forall|x: int| covers(inv, x) <==> (0 <= x < max_len && !covers(m, x)) by {
            if 0 <= x < max_len {
                assert(inv[0].0 <= x < inv[0].1);
            }
        }
    } else {
        let h: int = if m[0].0 > 0 {
            1
        } else {
            0
        };
        let t: int = if m.last().1 < max_len {
            1
        } else {
            0
        };
        assert(inv.len() == h + n - 1 + t);
        assert forall|k: int| h <= k < h + n - 1 implies #[trigger] inv[k] == (
            m[k - h].1,
            m[k - h + 1].0,
        ) by {
            assert(inner_gaps(m)[k - h] == (m[k - h].1, m[k - h + 1].0));
        }
        assert(h == 1 ==> inv[0] == (0usize, m[0].0));
        assert(t == 1 ==> inv[h + n - 1] == (m.last().1, max_len));
        assert forall|k: int| 0 <= k < inv.len() implies (#[trigger] inv[k]).0 <= inv[k].1
            && inv[k].1 <= max_len by {
            if h <= k < h + n - 1 {
                assert(m[k - h].1 < m[k - h + 1].0);
                assert(m[k - h + 1].0 <= m[k - h + 1].1);
            }
        }
        assert forall|a: int, b: int| 0 <= a < b < inv.len() implies (#[trigger] inv[a]).0 <= (
        #[trigger] inv[b]).0 && inv[a].1 <= inv[b].0 by {
            if a < h {
                if b < h + n - 1 {
                    lemma_separated_order(m, 0, b - h);
                } else {
                    lemma_separated_order(m, 0, n - 1);
                }
            } else if b < h + n - 1 {
                lemma_separated_order(m, a - h, b - h);
                lemma_separated_order(m, a - h + 1, b - h);
            } else {
                lemma_separated_order(m, a - h, n - 1);
                lemma_separated_order(m, a - h + 1, n - 1);
            }
        }
        assert forall|x: int| covers(inv, x) <==> (0 <= x < max_len && !covers(m, x)) by {
            if covers(inv, x) {
                let k = choose|k: int| 0 <= k < inv.len() && (#[trigger] inv[k]).0 <= x < inv[k].1;
                assert(inv[k].1 <= max_len);
                if covers(m, x) {
                    let j = choose|j: int| 0 <= j < m.len() && (#[trigger] m[j]).0 <= x < m[j].1;
                    if k < h {
                        lemma_separated_order(m, 0, j);
                    } else if k < h + n - 1 {
                        if j <= k - h {
                            lemma_separated_order(m, j, k - h);
                        } else {
                            lemma_separated_order(m, k - h + 1, j);
                        }
                    } else {
                        lemma_separated_order(m, j, n - 1);
                    }
                }
            }
            if 0 <= x < max_len && !covers(m, x) {
                if x < m[0].0 {
                    assert(inv[0].0 <= x < inv[0].1);
                } else if x >= m.last().1 {
                    assert(inv[h + n - 1].0 <= x < inv[h + n - 1].1);
                } else {
                    assert(!(m[n - 1].0 <= x < m[n - 1].1));
                    let i = lemma_locate(m, x, n - 1);
                    assert(!(m[i].0 <= x < m[i].1));
                    assert(inv[h + i].0 <= x < inv[h + i].1);
                }
            }
        }
    }
}

/// Law: coalesced intervals and the coalesced complement of them split
/// `[0, max_len)` in two. For well-formed intervals that end within
/// `max_len`, every point of `[0, max_len)` is covered by exactly one of
/// `merge(v)` and `merge(invert(merge(v), max_len))`, no point outside is
/// covered by either, and `merge(v)` covers what `v` covers. This holds
/// whichever of the three calls sorts its input, as long as a call that is
/// told its input is sorted gets a sorted one.
pub proof fn law_merge_invert_partition(
    v: Seq<(usize, usize)>,
    v_sorted: bool,
    invert_sorted: bool,
    complement_sorted: bool,
    max_len: usize,
)
    requires
        well_formed(v),
        bounded_by(v, max_len as int),
        v_sorted ==> sorted_by_start(v),
    ensures
        ({
            let m = merged(v, v_sorted);
            let kept = if invert_sorted {
                m
            } else {
                sort_by_start(m)
            };
            let complement = merged(inverted(kept, max_len), complement_sorted);
            &&& kept == m
            &&& forall|x: int| (covers(m, x) || covers(complement, x)) <==> 0 <= x < max_len
            &&& forall|x: int| !(covers(m, x) && covers(complement, x))
            &&& forall|x: int| covers(m, x) <==> covers(v, x)
        }),
{
    let m = merged(v, v_sorted);
    lemma_merged(v, v_sorted, max_len as int);
    lemma_sort_sorted(m);
    let inv = inverted(m, max_len);
    lemma_inverted(m, max_len);
    lemma_merged(inv, complement_sorted, max_len as int);
    let complement = merged(inv, complement_sorted);
    assert forall|x: int| (covers(m, x) || covers(complement, x)) <==> 0 <= x < max_len by {
        if covers(m, x) {
            let j = choose|j: int| 0 <= j < m.len() && (#[trigger] m[j]).0 <= x < m[j].1;
            assert(m[j].1 <= max_len);
        }
    }
}

/// The intervals of at least `min_width`, in order.
pub open spec fn wide_enough(v: Seq<(usize, usize)>, min_width: usize) -> Seq<(usize, usize)>
    decreases v.len(),
{
    if v.len() == 0 {
        Seq::empty()
    } else {
        let rest = wide_enough(v.drop_last(), min_width);
        if v.last().1 - v.last().0 >= min_width {
            rest.push(v.last())
        } else {
            rest
        }
    }
}

/// Dropping narrow intervals keeps the others well-formed, apart and
/// bounded, and leaves only intervals of the width asked for.
pub proof fn lemma_wide_enough(v: Seq<(usize, usize)>, min_width: usize, limit: int)
    requires
        well_formed(v),
        separated(v),
        bounded_by(v, limit),
    ensures
        well_formed(wide_enough(v, min_width)),
        separated(wide_enough(v, min_width)),
        bounded_by(wide_enough(v, min_width), limit),
        forall|i: int|
            0 <= i < wide_enough(v, min_width).len() ==> (#[trigger] wide_enough(
                v,
                min_width,
            )[i]).1 - wide_enough(v, min_width)[i].0 >= min_width,
        forall|i: int|
            0 <= i < wide_enough(v, min_width).len() ==> v.len() > 0 && (#[trigger] wide_enough(
                v,
                min_width,
            )[i]).1 <= v.last().1,
    decreases v.len(),
{
    if v.len() > 0 {
        let head = v.drop_last();
        assert(well_formed(head) && separated(head) && bounded_by(head, limit)) by {
            assert forall|i: int| 0 <= i < head.len() implies (#[trigger] head[i]).0 <= head[i].1
                && head[i].1 <= limit by {
                assert(head[i] == v[i]);
            }
            assert forall|i: int, j: int| 0 <= i < j < head.len() implies (#[trigger] head[i]).1
                < (#[trigger] head[j]).0 by {
                assert(head[i] == v[i] && head[j] == v[j]);
            }
        }
        lemma_wide_enough(head, min_width, limit);
        let rest = wide_enough(head, min_width);
        let r = wide_enough(v, min_width);
        if head.len() > 0 {
            assert(head.last() == v[v.len() - 2]);
            assert(v[v.len() - 2].1 < v[v.len() - 1].0);
        }
        assert forall|i: int| 0 <= i < r.len() implies (#[trigger] r[i]).0 <= r[i].1 && r[i].1
            <= limit && r[i].1 - r[i].0 >= min_width && r[i].1 <= v.last().1 by {
            if i < rest.len() {
                assert(r[i] == rest[i]);
            }
        }
        assert forall|i: int, j: int| 0 <= i < j < r.len() implies (#[trigger] r[i]).1 < (
        #[trigger] r[j]).0 by {
            assert(r[i] == rest[i]);
            if j < rest.len() {
                assert(r[j] == rest[j]);
            }
        }
    }
}

/// The intervals of at least `min_width`, in order.
pub fn keep_wide(v: &Vec<(usize, usize)>, min_width: usize) -> (r: Vec<(usize, usize)>)
    requires
        well_formed(v@),
    ensures
        r@ == wide_enough(v@, min_width),
{
    let mut out: Vec<(usize, usize)> = Vec::new();
    let mut i: usize = 0;
    while i < v.len()
        invariant
            i <= v@.len(),
            well_formed(v@),
            out@ == wide_enough(v@.take(i as int), min_width),
        decreases v@.len() - i,
    {
        let (s, e) = v[i];
        proof {
            assert(v@.take(i + 1).drop_last() =~= v@.take(i as int));
            assert(v@[i as int].0 <= v@[i as int].1);
        }
        if e - s >= min_width {
            out.push((s, e));
        }
        i += 1;
    }
    proof {
        assert(v@.take(v@.len() as int) =~= v@);
    }
    out
}

/// The spans of a fuzzy scan over well-formed, bounded intervals are
/// well-formed and bounded.
pub proof fn lemma_fuzzy_run(v: Seq<(usize, usize)>, threshold: Threshold, limit: int)
    requires
        well_formed(v),
        bounded_by(v, limit),
    ensures
        forall|i: int|
            0 <= i < fuzzy_run(v, threshold).len() ==> (#[trigger] fuzzy_run(v, threshold)[i]).start
                <= fuzzy_run(v, threshold)[i].end && fuzzy_run(v, threshold)[i].end <= limit,
    decreases v.len(),
{
    if v.len() > 0 {
        let head = v.drop_last();
        assert(well_formed(head) && bounded_by(head, limit)) by {
            assert forall|i: int| 0 <= i < head.len() implies (#[trigger] head[i]).0 <= head[i].1
                && head[i].1 <= limit by {
                assert(head[i] == v[i]);
            }
        }
        lemma_fuzzy_run(head, threshold, limit);
        let acc = fuzzy_run(head, threshold);
        let r = fuzzy_run(v, threshold);
        assert(v.last().0 <= v.last().1 && v.last().1 <= limit);
        assert forall|i: int| 0 <= i < r.len() implies (#[trigger] r[i]).start <= r[i].end
            && r[i].end <= limit by {
            if i < r.len() - 1 {
                assert(r[i] == acc[i]);
            } else if acc.len() > 0 {
                assert(acc.last() == acc[acc.len() - 1]);
            }
        }
    }
}

/// `fuzzy_sandwich_intervals` returns well-formed intervals within the
/// bound of its input.
pub proof fn lemma_fuzzy_sandwich(
    v: Seq<(usize, usize)>,
    forward: bool,
    threshold: Threshold,
    limit: int,
)
    requires
        well_formed(v),
        bounded_by(v, limit),
    ensures
        well_formed(fuzzy_sandwich(v, forward, threshold)),
        bounded_by(fuzzy_sandwich(v, forward, threshold), limit),
{
    let order = scan_order(v, forward);
    assert(well_formed(order) && bounded_by(order, limit)) by {
        assert forall|i: int| 0 <= i < order.len() implies (#[trigger] order[i]).0 <= order[i].1
            && order[i].1 <= limit by {
            if !forward {
                assert(order[i] == v[v.len() - 1 - i]);
            }
        }
    }
    lemma_fuzzy_run(order, threshold, limit);
}

/// Interleaving two well-formed, bounded lists gives a well-formed, bounded
/// list.
pub proof fn lemma_interleave(
    u: Seq<(usize, usize)>,
    w: Seq<(usize, usize)>,
    ui: int,
    wi: int,
    limit: int,
)
    requires
        well_formed(u),
        well_formed(w),
        bounded_by(u, limit),
        bounded_by(w, limit),
        0 <= ui <= u.len(),
        0 <= wi <= w.len(),
    ensures
        well_formed(interleave_from(u, w, ui, wi)),
        bounded_by(interleave_from(u, w, ui, wi), limit),
    decreases u.len() - ui + w.len() - wi,
{
    let r = interleave_from(u, w, ui, wi);
    if ui >= u.len() {
        assert forall|i: int| 0 <= i < r.len() implies (#[trigger] r[i]).0 <= r[i].1 && r[i].1
            <= limit by {
            assert(r[i] == w[wi + i]);
        }
    } else if wi >= w.len() {
        assert forall|i: int| 0 <= i < r.len() implies (#[trigger] r[i]).0 <= r[i].1 && r[i].1
            <= limit by {
            assert(r[i] == u[ui + i]);
        }
    } else if u[ui].0 < w[wi].0 || (u[ui].0 == w[wi].0 && u[ui].1 <= w[wi].1) {
        lemma_interleave(u, w, ui + 1, wi, limit);
        let rest = interleave_from(u, w, ui + 1, wi);
        assert forall|i: int| 0 <= i < r.len() implies (#[trigger] r[i]).0 <= r[i].1 && r[i].1
            <= limit by {
            if i > 0 {
                assert(r[i] == rest[i - 1]);
            }
        }
    } else {
        lemma_interleave(u, w, ui, wi + 1, limit);
        let rest = interleave_from(u, w, ui, wi + 1);
        assert forall|i: int| 0 <= i < r.len() implies (#[trigger] r[i]).0 <= r[i].1 && r[i].1
            <= limit by {
            if i > 0 {
                assert(r[i] == rest[i - 1]);
            }
        }
    }
}

/// Some span takes in the whole interval.
pub open spec fn span_holds(spans: Seq<Span>, iv: (usize, usize)) -> bool {
    exists|i: int| 0 <= i < spans.len() && (#[trigger] spans[i]).start <= iv.0 && iv.1 <= spans[i].end
}

/// Every interval that a fuzzy scan has visited lies within one of its
/// spans.
pub proof fn lemma_fuzzy_run_holds(v: Seq<(usize, usize)>, threshold: Threshold, k: int)
    requires
        0 <= k < v.len(),
    ensures
        span_holds(fuzzy_run(v, threshold), v[k]),
    decreases v.len(),
{
    let head = v.drop_last();
    let acc = fuzzy_run(head, threshold);
    let r = fuzzy_run(v, threshold);
    if k == v.len() - 1 {
        assert(r.last().start <= v[k].0 && v[k].1 <= r.last().end);
        assert(r[r.len() - 1] == r.last());
    } else {
        lemma_fuzzy_run_holds(head, threshold, k);
        assert(head[k] == v[k]);
        let i = choose|i: int|
            0 <= i < acc.len() && (#[trigger] acc[i]).start <= v[k].0 && v[k].1 <= acc[i].end;
        if i < acc.len() - 1 {
            assert(r[i] == acc[i]);
        } else {
            assert(acc[i] == acc.last());
            if r.len() == acc.len() {
                assert(r[i].start <= acc[i].start && acc[i].end <= r[i].end);
            } else {
                assert(r[i] == acc[i]);
            }
        }
    }
}

/// Law: a fuzzy scan loses nothing. Whatever the threshold and the
/// direction, every point that the intervals cover is covered by what
/// `fuzzy_sandwich_intervals` returns.
pub proof fn law_fuzzy_sandwich_keeps_cover(
    v: Seq<(usize, usize)>,
    forward: bool,
    threshold: Threshold,
    x: int,
)
    requires
        covers(v, x),
    ensures
        covers(fuzzy_sandwich(v, forward, threshold), x),
{
    let j = choose|j: int| 0 <= j < v.len() && (#[trigger] v[j]).0 <= x < v[j].1;
    let order = scan_order(v, forward);
    let k = if forward {
        j
    } else {
        v.len() - 1 - j
    };
    assert(order[k] == v[j]);
    lemma_fuzzy_run_holds(order, threshold, k);
    let spans = fuzzy_run(order, threshold);
    let i = choose|i: int|
        0 <= i < spans.len() && (#[trigger] spans[i]).start <= v[j].0 && v[j].1 <= spans[i].end;
    let out = fuzzy_sandwich(v, forward, threshold);
    assert(out[i].0 <= x < out[i].1);
}

/// The spans of a forward scan at a threshold of one or more: each holds
/// as much as its width, the last ends where the last interval ends, and
/// together they cover what the intervals cover.
proof fn lemma_fuzzy_run_exact(v: Seq<(usize, usize)>, threshold: Threshold)
    requires
        sorted_disjoint(v),
        threshold.numerator() >= threshold.denominator() > 0,
    ensures
        forall|i: int|
            0 <= i < fuzzy_run(v, threshold).len() ==> (#[trigger] fuzzy_run(v, threshold)[i]).weight
                == fuzzy_run(v, threshold)[i].end - fuzzy_run(v, threshold)[i].start,
        v.len() > 0 ==> fuzzy_run(v, threshold).len() > 0 && fuzzy_run(v, threshold).last().end
            == v.last().1,
        forall|x: int|
            covers(fuzzy_run(v, threshold).map_values(|s: Span| (s.start, s.end)), x) <==> covers(
                v,
                x,
            ),
    decreases v.len(),
{
    let r = fuzzy_run(v, threshold);
    let out = r.map_values(|s: Span| (s.start, s.end));
    if v.len() == 0 {
        assert forall|x: int| covers(out, x) <==> covers(v, x) by {}
    } else {
        let head = v.drop_last();
        let iv = v.last();
        let acc = fuzzy_run(head, threshold);
        let prev = acc.map_values(|s: Span| (s.start, s.end));
        assert(sorted_disjoint(head)) by {
            assert forall|i: int| 0 <= i < head.len() implies (#[trigger] head[i]).0 <= head[i].1 by {
                assert(head[i] == v[i]);
            }
            assert forall|i: int, j: int| 0 <= i < j < head.len() implies (#[trigger] head[i]).1
                <= (#[trigger] head[j]).0 by {
                assert(head[i] == v[i] && head[j] == v[j]);
            }
        }
        lemma_fuzzy_run_exact(head, threshold);
        assert(head.push(iv) =~= v);
        assert(iv.0 <= iv.1);
        if acc.len() == 0 {
            assert(out =~= prev.push(iv));
            assert forall|x: int| covers(out, x) <==> covers(v, x) by {
                lemma_covers_push(prev, iv, x);
                lemma_covers_push(head, iv, x);
            }
        } else {
            let cur = acc.last();
            assert(cur == acc[acc.len() - 1]);
            assert(head.last() == v[v.len() - 2]);
            assert(cur.end <= iv.0);
            let joined = span_joined(cur, iv);
            let gap = iv.0 - cur.end;
            if threshold.is_reached_scaled(joined.weight, joined.end - joined.start) {
                assert(gap == 0) by (nonlinear_arith)
                    requires
                        gap >= 0,
                        joined.weight >= 0,
                        threshold.numerator() >= threshold.denominator() > 0,
                        joined.weight * threshold.denominator() >= threshold.numerator() * (
                        joined.weight + gap),
                ;
                let front = prev.drop_last();
                assert(out =~= front.push((joined.start, joined.end)));
                assert(prev =~= front.push((cur.start, cur.end)));
                assert forall|x: int| covers(out, x) <==> covers(v, x) by {
                    lemma_covers_push(front, (joined.start, joined.end), x);
                    lemma_covers_push(front, (cur.start, cur.end), x);
                    lemma_covers_push(head, iv, x);
                }
                assert forall|i: int| 0 <= i < r.len() implies (#[trigger] r[i]).weight == r[i].end
                    - r[i].start by {
                    if i < r.len() - 1 {
                        assert(r[i] == acc[i]);
                    }
                }
            } else {
                assert(out =~= prev.push(iv));
                assert forall|x: int| covers(out, x) <==> covers(v, x) by {
                    lemma_covers_push(prev, iv, x);
                    lemma_covers_push(head, iv, x);
                }
                assert forall|i: int| 0 <= i < r.len() implies (#[trigger] r[i]).weight == r[i].end
                    - r[i].start by {
                    if i < r.len() - 1 {
                        assert(r[i] == acc[i]);
                    }
                }
            }
        }
    }
}

/// Law: at a threshold of one or more, a scan from the front adds nothing.
/// It joins only intervals that touch, so that what it returns covers
/// exactly the points that the intervals cover; at any lower threshold the
/// scan covers at least these.
pub proof fn law_fuzzy_sandwich_exact_from_one(v: Seq<(usize, usize)>, threshold: Threshold)
    requires
        sorted_disjoint(v),
        threshold.numerator() >= threshold.denominator() > 0,
    ensures
        forall|x: int| covers(fuzzy_sandwich(v, true, threshold), x) <==> covers(v, x),
{
    lemma_fuzzy_run_exact(v, threshold);
}

} // verus!
