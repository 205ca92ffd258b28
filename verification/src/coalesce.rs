use vstd::prelude::*;

use crate::events::{EventView, FileSystemEvent, event_views, opt_view};
use crate::paths::{bytes_eq, copy_bytes};

verus! {

/// The mathematical value of the coalescer: the window being filled, the
/// window eligible for combination, the combined events awaiting delivery,
/// and whether the delay timer is running.
#[verifier::ext_equal]
pub struct DelayView {
    pub incoming: Seq<EventView>,
    pub ready: Seq<EventView>,
    pub output: Seq<EventView>,
    pub timer_running: bool,
}

/// Position of the partner that cancels a creation: scanning from `j`, the
/// first event that mentions path `p` must be the matching unconsumed
/// removal of the same kind; any other event mentioning `p` blocks the
/// cancellation.
pub open spec fn find_cancel(
    s: Seq<EventView>,
    consumed: Seq<bool>,
    p: Seq<u8>,
    dir: bool,
    j: int,
) -> Option<int>
    decreases s.len() - j,
{
    if j < 0 || j >= s.len() {
        None
    } else if s[j].touches(p) {
        if !consumed[j] && s[j].is_removed() && s[j].is_dir_kind() == dir && s[j].path() == p {
            Some(j)
        } else {
            None
        }
    } else {
        find_cancel(s, consumed, p, dir, j + 1)
    }
}

/// Partner for a removal of path `a`: scanning from `j`, the first
/// unconsumed creation of the same kind — a cancellation when it recreates
/// `a` itself, a move destination otherwise — unless an event mentioning
/// `a` comes first.
pub open spec fn find_pair(
    s: Seq<EventView>,
    consumed: Seq<bool>,
    a: Seq<u8>,
    dir: bool,
    j: int,
) -> Option<int>
    decreases s.len() - j,
{
    if j < 0 || j >= s.len() {
        None
    } else if !consumed[j] && s[j].is_created() && s[j].is_dir_kind() == dir {
        Some(j)
    } else if s[j].touches(a) {
        None
    } else {
        find_pair(s, consumed, a, dir, j + 1)
    }
}

/// What processing the unconsumed event at position `i` contributes: the
/// events it emits and the consumption marks it adds.
///
/// A creation cancels against the matching later removal (an ephemeral
/// object is hidden). A removal either cancels against a later recreation
/// of the same path, or recombines with the next creation of the same kind
/// into a single `Moved` event, or passes through. A repeated
/// `FileModified` collapses onto its first occurrence. Everything else
/// passes through unchanged.
pub open spec fn combine_step(s: Seq<EventView>, consumed: Seq<bool>, i: int) -> (
    Seq<EventView>,
    Seq<bool>,
) {
    let e = s[i];
    if e.is_created() {
        match find_cancel(s, consumed, e.path(), e.is_dir_kind(), i + 1) {
            Some(j) => (Seq::empty(), consumed.update(j, true)),
            None => (seq![e], consumed),
        }
    } else if e.is_removed() {
        match find_pair(s, consumed, e.path(), e.is_dir_kind(), i + 1) {
            Some(j) => if s[j].path() == e.path() {
                (Seq::empty(), consumed.update(j, true))
            } else {
                (seq![EventView::Moved(e.path(), s[j].path(), e.is_dir_kind())], consumed.update(
                    j,
                    true,
                ))
            },
            None => (seq![e], consumed),
        }
    } else if e matches EventView::FileModified(_) {
        if exists|k: int| 0 <= k < i && s[k] == e {
            (Seq::empty(), consumed)
        } else {
            (seq![e], consumed)
        }
    } else {
        (seq![e], consumed)
    }
}

/// The combined tail of the window from position `i` on, given the marks
/// accumulated so far.
pub open spec fn combine_from(s: Seq<EventView>, consumed: Seq<bool>, i: int) -> Seq<EventView>
    decreases s.len() - i,
{
    if i < 0 || i >= s.len() {
        Seq::empty()
    } else if consumed[i] {
        combine_from(s, consumed, i + 1)
    } else {
        combine_step(s, consumed, i).0 + combine_from(s, combine_step(s, consumed, i).1, i + 1)
    }
}

/// One window's combination: ephemeral create/remove pairs cancel, a
/// removal recombines with the next creation of the same kind into `Moved`,
/// repeated modifications collapse, and everything else passes through in
/// its original relative order.
pub open spec fn combine(s: Seq<EventView>) -> Seq<EventView> {
    combine_from(s, Seq::new(s.len(), |i: int| false), 0)
}

/// The coalescer after accepting one event into the current window; a new
/// event restarts the timer when it was idle.
pub open spec fn accepted(c: DelayView, e: EventView) -> DelayView {
    DelayView { incoming: c.incoming.push(e), timer_running: true, ..c }
}

/// The coalescer after one firing of the delay timer: the eligible window
/// is combined onto the delivery queue, the filling window becomes
/// eligible, and the timer keeps running only while events remain.
pub open spec fn ticked(c: DelayView) -> DelayView {
    DelayView {
        incoming: Seq::empty(),
        ready: c.incoming,
        output: c.output + combine(c.ready),
        timer_running: c.incoming.len() > 0,
    }
}

/// Law: an event accepted into the filling window becomes eligible for
/// delivery exactly two timer firings later — one firing moves its window
/// into the eligible batch, the next combines that batch onto the delivery
/// queue. With firings `d` apart, an event accepted at time `t_accept`
/// during the window that the firing at time `(k + 1) * d` closes is
/// combined at time `(k + 2) * d`, so its time to eligibility lies between
/// `d` and `2 * d`.
pub proof fn lemma_delay_bound(c: DelayView, e: EventView, d: int, k: int, t_accept: int)
    requires
        d >= 1,
        k * d <= t_accept,
        t_accept <= (k + 1) * d,
    ensures
        ticked(accepted(c, e)).ready == c.incoming.push(e),
        ticked(ticked(accepted(c, e))).output == ticked(accepted(c, e)).output + combine(
            c.incoming.push(e),
        ),
        d <= (k + 2) * d - t_accept,
        (k + 2) * d - t_accept <= 2 * d,
{
    assert(d <= (k + 2) * d - t_accept && (k + 2) * d - t_accept <= 2 * d) by (nonlinear_arith)
        requires
            d >= 1,
            k * d <= t_accept,
            t_accept <= (k + 1) * d,
    ;
}

/// A found cancellation partner is an unconsumed removal of the sought
/// path and kind, at or after the scan start.
proof fn lemma_find_cancel_props(s: Seq<EventView>, c: Seq<bool>, q: Seq<u8>, d: bool, j: int)
    ensures
        match find_cancel(s, c, q, d, j) {
            Some(r) => j <= r < s.len() && s[r].is_removed() && s[r].path() == q && !c[r]
                && s[r].is_dir_kind() == d,
            None => true,
        },
    decreases s.len() - j,
{
    if j < 0 || j >= s.len() {
    } else if s[j].touches(q) {
    } else {
        lemma_find_cancel_props(s, c, q, d, j + 1);
    }
}

/// A found pairing partner is an unconsumed creation of the sought kind, at
/// or after the scan start.
proof fn lemma_find_pair_props(s: Seq<EventView>, c: Seq<bool>, a: Seq<u8>, d: bool, j: int)
    ensures
        match find_pair(s, c, a, d, j) {
            Some(r) => j <= r < s.len() && s[r].is_created() && !c[r] && s[r].is_dir_kind() == d,
            None => true,
        },
    decreases s.len() - j,
{
    if j < 0 || j >= s.len() {
    } else if !c[j] && s[j].is_created() && s[j].is_dir_kind() == d {
    } else if s[j].touches(a) {
    } else {
        lemma_find_pair_props(s, c, a, d, j + 1);
    }
}

/// The induction behind the general ephemeral-hiding law: with the
/// creation/removal pair at `i0`/`i0 + 1` still unconsumed (or, past `i0`,
/// with the removal consumed by the cancellation), combining the rest of
/// the window emits nothing that mentions `p`.
proof fn lemma_combine_from_hides(s: Seq<EventView>, c: Seq<bool>, j: int, p: Seq<u8>, i0: int)
    requires
        c.len() == s.len(),
        0 <= j,
        0 <= i0,
        i0 + 1 < s.len(),
        s[i0].is_created() && s[i0].path() == p,
        s[i0 + 1].is_removed() && s[i0 + 1].path() == p,
        s[i0 + 1].is_dir_kind() == s[i0].is_dir_kind(),
        forall|k: int|
            0 <= k < s.len() && k != i0 && k != i0 + 1 ==> !(#[trigger] s[k]).touches(p),
        forall|k: int|
            0 <= k < i0 ==> !((#[trigger] s[k]).is_removed() && s[k].is_dir_kind() == s[i0].is_dir_kind()),
        j <= i0 ==> !c[i0] && !c[i0 + 1],
        j > i0 ==> c[i0 + 1],
    ensures
        forall|m: int|
            0 <= m < combine_from(s, c, j).len() ==> !(#[trigger] combine_from(s, c, j)[m]).touches(p),
    decreases s.len() - j,
{
    if j >= s.len() {
        assert(forall|m: int|
            0 <= m < combine_from(s, c, j).len() ==> !(#[trigger] combine_from(s, c, j)[m]).touches(p));
    } else if c[j] {
        lemma_combine_from_hides(s, c, j + 1, p, i0);
        assert(combine_from(s, c, j) == combine_from(s, c, j + 1));
        assert(forall|m: int|
            0 <= m < combine_from(s, c, j).len() ==> !(#[trigger] combine_from(s, c, j)[m]).touches(p));
    } else if j == i0 {
        // The cancellation fires: the immediately following event mentions
        // `p` and is exactly the matching unconsumed removal.
        assert(find_cancel(s, c, p, s[i0].is_dir_kind(), i0 + 1) == Some(i0 + 1));
        let c2 = c.update(i0 + 1, true);
        lemma_combine_from_hides(s, c2, j + 1, p, i0);
        assert(combine_step(s, c, j).0 =~= Seq::<EventView>::empty());
        assert(combine_from(s, c, j) =~= combine_from(s, c2, j + 1));
        assert(forall|m: int|
            0 <= m < combine_from(s, c, j).len() ==> !(#[trigger] combine_from(s, c, j)[m]).touches(p));
    } else {
        // `s[j]` is not part of the pair: it does not mention `p`.
        assert(!s[j].touches(p));
        let e = s[j];
        let step = combine_step(s, c, j);
        // Each case establishes the same two facts: the step never consumes
        // a half of the pair, and whatever it emits does not mention `p`.
        if e.is_created() {
            lemma_find_cancel_props(s, c, e.path(), e.is_dir_kind(), j + 1);
            match find_cancel(s, c, e.path(), e.is_dir_kind(), j + 1) {
                Some(r) => {
                    // The consumed removal has the creation's own path, so
                    // it is neither half of the pair.
                    assert(e.path() != p);
                    assert(r != i0 && r != i0 + 1);
                    assert(step.1 == c.update(r, true));
                    assert(j <= i0 ==> !step.1[i0] && !step.1[i0 + 1]);
                    assert(forall|m: int| 0 <= m < step.0.len() ==> !(#[trigger] step.0[m]).touches(p));
                },
                None => {
                    assert(step.1 == c);
                    assert(forall|m: int| 0 <= m < step.0.len() ==> !(#[trigger] step.0[m]).touches(p));
                },
            }
        } else if e.is_removed() {
            lemma_find_pair_props(s, c, e.path(), e.is_dir_kind(), j + 1);
            match find_pair(s, c, e.path(), e.is_dir_kind(), j + 1) {
                Some(r) => {
                    // The consumed creation cannot be `s[i0]`: before the
                    // pair no removal of its kind exists, and after `i0`
                    // the scan never reaches back.
                    assert(r != i0 + 1);
                    assert(r != i0) by {
                        if j < i0 {
                            assert(s[j].is_dir_kind() != s[i0].is_dir_kind());
                        }
                    }
                    assert(!s[r].touches(p));
                    assert(s[r].path() != p);
                    assert(e.path() != p);
                    assert(step.1 == c.update(r, true));
                    assert(j <= i0 ==> !step.1[i0] && !step.1[i0 + 1]);
                    assert(forall|m: int| 0 <= m < step.0.len() ==> !(#[trigger] step.0[m]).touches(p));
                },
                None => {
                    assert(step.1 == c);
                    assert(forall|m: int| 0 <= m < step.0.len() ==> !(#[trigger] step.0[m]).touches(p));
                },
            }
        } else {
            assert(step.1 == c);
            assert(forall|m: int| 0 <= m < step.0.len() ==> !(#[trigger] step.0[m]).touches(p));
        }
        assert(j <= i0 ==> !step.1[i0] && !step.1[i0 + 1]);
        assert(j > i0 ==> step.1[i0 + 1]);
        lemma_combine_from_hides(s, step.1, j + 1, p, i0);
        let tail = combine_from(s, step.1, j + 1);
        assert(combine_from(s, c, j) == step.0 + tail);
        assert forall|m: int|
            0 <= m < combine_from(s, c, j).len() implies !(#[trigger] combine_from(s, c, j)[m]).touches(p) by {
            if m < step.0.len() {
                assert(combine_from(s, c, j)[m] == step.0[m]);
            } else {
                assert(combine_from(s, c, j)[m] == tail[m - step.0.len()]);
            }
        }
    }
}

/// Law (ephemeral hiding, whole window): a creation of `p` immediately
/// followed by the matching removal, with no other event in the window
/// mentioning `p` and no earlier removal of the same kind still seeking its
/// pairing partner, cancels — the combined window delivers no event that
/// mentions `p`, whatever else the window holds.
pub proof fn lemma_ephemeral_hiding_in_window(s: Seq<EventView>, p: Seq<u8>, i0: int)
    requires
        0 <= i0,
        i0 + 1 < s.len(),
        s[i0].is_created() && s[i0].path() == p,
        s[i0 + 1].is_removed() && s[i0 + 1].path() == p,
        s[i0 + 1].is_dir_kind() == s[i0].is_dir_kind(),
        forall|k: int|
            0 <= k < s.len() && k != i0 && k != i0 + 1 ==> !(#[trigger] s[k]).touches(p),
        forall|k: int|
            0 <= k < i0 ==> !((#[trigger] s[k]).is_removed() && s[k].is_dir_kind() == s[i0].is_dir_kind()),
    ensures
        forall|m: int|
            0 <= m < combine(s).len() ==> !(#[trigger] combine(s)[m]).touches(p),
{
    let c0 = Seq::new(s.len(), |i: int| false);
    lemma_combine_from_hides(s, c0, 0, p, i0);
}

/// The induction behind the pass-through law: an event that takes part in
/// no combination rule is never consumed, and is emitted when its turn
/// comes.
proof fn lemma_combine_from_keeps(s: Seq<EventView>, c: Seq<bool>, j: int, i: int)
    requires
        c.len() == s.len(),
        0 <= j,
        0 <= i < s.len(),
        !s[i].is_created(),
        !s[i].is_removed(),
        !(s[i] matches EventView::FileModified(_)),
        j <= i ==> !c[i],
    ensures
        j <= i ==> combine_from(s, c, j).contains(s[i]),
    decreases s.len() - j,
{
    if j > i {
    } else if c[j] {
        lemma_combine_from_keeps(s, c, j + 1, i);
        assert(combine_from(s, c, j) == combine_from(s, c, j + 1));
    } else if j == i {
        let e = s[i];
        assert(combine_step(s, c, j) == (seq![e], c));
        assert(combine_from(s, c, j) == seq![e] + combine_from(s, c, j + 1));
        assert(combine_from(s, c, j)[0] == e);
    } else {
        let e = s[j];
        let step = combine_step(s, c, j);
        // Whatever this step consumes is a removal or a creation, so never
        // the pass-through event at `i`.
        if e.is_created() {
            lemma_find_cancel_props(s, c, e.path(), e.is_dir_kind(), j + 1);
        } else if e.is_removed() {
            lemma_find_pair_props(s, c, e.path(), e.is_dir_kind(), j + 1);
        }
        assert(!step.1[i]);
        lemma_combine_from_keeps(s, step.1, j + 1, i);
        let tail = combine_from(s, step.1, j + 1);
        assert(combine_from(s, c, j) == step.0 + tail);
        let m = choose|m: int| 0 <= m < tail.len() && tail[m] == s[i];
        assert(combine_from(s, c, j)[step.0.len() + m] == s[i]);
    }
}

/// Law: the coalescer never drops a non-combinable event — one that no
/// combination rule touches (the watch announcements, `Stopped`, `Error`
/// and already-combined `Moved` events) always survives the window.
pub proof fn lemma_non_combinable_event_kept(s: Seq<EventView>, i: int)
    requires
        0 <= i < s.len(),
        !s[i].is_created(),
        !s[i].is_removed(),
        !(s[i] matches EventView::FileModified(_)),
    ensures
        combine(s).contains(s[i]),
{
    let c0 = Seq::new(s.len(), |k: int| false);
    lemma_combine_from_keeps(s, c0, 0, i);
}

/// Selects exactly the recombined move event.
pub open spec fn move_pred(a: Seq<u8>, b: Seq<u8>, d: bool) -> spec_fn(EventView) -> bool {
    |e: EventView| e == EventView::Moved(a, b, d)
}

/// `filter` on the empty sequence and on a singleton.
proof fn lemma_filter_small<A>(x: A, pred: spec_fn(A) -> bool)
    ensures
        Seq::<A>::empty().filter(pred) == Seq::<A>::empty(),
        seq![x].filter(pred) == if pred(x) {
            seq![x]
        } else {
            Seq::<A>::empty()
        },
{
    reveal(Seq::filter);
    assert(Seq::<A>::empty().filter(pred) == Seq::<A>::empty());
    assert(seq![x].drop_last() =~= Seq::<A>::empty());
    assert(seq![x].last() == x);
    assert(seq![x].filter(pred) == if pred(x) {
        Seq::<A>::empty().push(x)
    } else {
        Seq::<A>::empty()
    });
    assert(Seq::<A>::empty().push(x) =~= seq![x]);
}

/// Scanning for the partner of the removal of `a` from anywhere after it
/// reaches `j0`, when nothing in between mentions `a` or is a creation of
/// the right kind.
proof fn lemma_scan_reaches_partner(
    s: Seq<EventView>,
    c: Seq<bool>,
    a: Seq<u8>,
    d: bool,
    j: int,
    i0: int,
    j0: int,
)
    requires
        0 <= i0 < j0 < s.len(),
        i0 < j <= j0,
        !c[j0],
        s[j0].is_created() && s[j0].is_dir_kind() == d,
        forall|k: int| i0 < k < j0 ==> !((#[trigger] s[k]).is_created() && s[k].is_dir_kind() == d),
        forall|k: int| i0 < k < j0 ==> !(#[trigger] s[k]).touches(a),
    ensures
        find_pair(s, c, a, d, j) == Some(j0),
    decreases j0 - j,
{
    if j == j0 {
    } else {
        lemma_scan_reaches_partner(s, c, a, d, j + 1, i0, j0);
    }
}

/// The induction behind the general move-recombination law: with the
/// removal at `i0` and its partner creation at `j0` still unconsumed (or,
/// past `i0`, with the creation consumed by the recombination), combining
/// the rest of the window yields the `Moved` event exactly once before
/// `i0` is passed, and never afterwards; nothing else mentions either path.
proof fn lemma_combine_from_moves(
    s: Seq<EventView>,
    c: Seq<bool>,
    j: int,
    a: Seq<u8>,
    b: Seq<u8>,
    d: bool,
    i0: int,
    j0: int,
)
    requires
        c.len() == s.len(),
        0 <= j,
        0 <= i0 < j0 < s.len(),
        s[i0].is_removed() && s[i0].path() == a && s[i0].is_dir_kind() == d,
        s[j0].is_created() && s[j0].path() == b && s[j0].is_dir_kind() == d,
        a != b,
        forall|k: int|
            0 <= k < s.len() && k != i0 && k != j0 ==> !(#[trigger] s[k]).touches(a) && !s[k].touches(b),
        forall|k: int| i0 < k < j0 ==> !((#[trigger] s[k]).is_created() && s[k].is_dir_kind() == d),
        forall|k: int| 0 <= k < i0 ==> !((#[trigger] s[k]).is_removed() && s[k].is_dir_kind() == d),
        j <= i0 ==> !c[i0] && !c[j0],
        j > i0 ==> c[j0],
    ensures
        j <= i0 ==> combine_from(s, c, j).filter(move_pred(a, b, d)).len() == 1,
        j > i0 ==> combine_from(s, c, j).filter(move_pred(a, b, d)).len() == 0,
        forall|m: int|
            0 <= m < combine_from(s, c, j).len() && ((#[trigger] combine_from(s, c, j)[m]).touches(
                a,
            ) || combine_from(s, c, j)[m].touches(b)) ==> combine_from(s, c, j)[m]
                == EventView::Moved(a, b, d),
    decreases s.len() - j,
{
    let mv = EventView::Moved(a, b, d);
    let pred = move_pred(a, b, d);
    if j >= s.len() {
        assert(j > i0);
        lemma_filter_small(mv, pred);
    } else if c[j] {
        lemma_combine_from_moves(s, c, j + 1, a, b, d, i0, j0);
        assert(combine_from(s, c, j) == combine_from(s, c, j + 1));
    } else if j == i0 {
        // The recombination fires: the scan reaches the partner creation.
        lemma_scan_reaches_partner(s, c, a, d, i0 + 1, i0, j0);
        assert(find_pair(s, c, a, d, i0 + 1) == Some(j0));
        let c2 = c.update(j0, true);
        let step = combine_step(s, c, j);
        assert(step.0 == seq![mv] && step.1 == c2);
        lemma_combine_from_moves(s, c2, j + 1, a, b, d, i0, j0);
        let tail = combine_from(s, c2, j + 1);
        assert(combine_from(s, c, j) == seq![mv] + tail);
        lemma_filter_small(mv, pred);
        Seq::filter_distributes_over_add(seq![mv], tail, pred);
        assert(combine_from(s, c, j).filter(pred).len() == 1);
        assert forall|m: int|
            0 <= m < combine_from(s, c, j).len() && ((#[trigger] combine_from(s, c, j)[m]).touches(
                a,
            ) || combine_from(s, c, j)[m].touches(b)) implies combine_from(s, c, j)[m] == mv by {
            if m > 0 {
                assert(combine_from(s, c, j)[m] == tail[m - 1]);
            }
        }
    } else {
        // `s[j]` is neither half of the pair: it mentions neither path.
        assert(!s[j].touches(a) && !s[j].touches(b));
        let e = s[j];
        let step = combine_step(s, c, j);
        // Each case establishes the same facts: the step consumes neither
        // half of the pair, and what it emits mentions neither path and is
        // not the move event.
        if e.is_created() {
            lemma_find_cancel_props(s, c, e.path(), e.is_dir_kind(), j + 1);
            match find_cancel(s, c, e.path(), e.is_dir_kind(), j + 1) {
                Some(r) => {
                    assert(e.path() != a && e.path() != b);
                    assert(r != i0 && r != j0);
                    assert(step.1 == c.update(r, true));
                    assert(forall|m: int| 0 <= m < step.0.len() ==> !(#[trigger] step.0[m]).touches(a) && !step.0[m].touches(b) && step.0[m] != mv);
                },
                None => {
                    assert(step.1 == c);
                    assert(forall|m: int| 0 <= m < step.0.len() ==> !(#[trigger] step.0[m]).touches(a) && !step.0[m].touches(b) && step.0[m] != mv);
                },
            }
        } else if e.is_removed() {
            lemma_find_pair_props(s, c, e.path(), e.is_dir_kind(), j + 1);
            match find_pair(s, c, e.path(), e.is_dir_kind(), j + 1) {
                Some(r) => {
                    assert(r != i0);
                    assert(r != j0) by {
                        if j < i0 {
                            assert(e.is_dir_kind() != d);
                        }
                    }
                    assert(!s[r].touches(a) && !s[r].touches(b));
                    assert(s[r].path() != a && s[r].path() != b);
                    assert(e.path() != a);
                    assert(step.1 == c.update(r, true));
                    assert(forall|m: int| 0 <= m < step.0.len() ==> !(#[trigger] step.0[m]).touches(a) && !step.0[m].touches(b) && step.0[m] != mv);
                },
                None => {
                    assert(step.1 == c);
                    assert(forall|m: int| 0 <= m < step.0.len() ==> !(#[trigger] step.0[m]).touches(a) && !step.0[m].touches(b) && step.0[m] != mv);
                },
            }
        } else {
            assert(step.1 == c);
            assert(forall|m: int| 0 <= m < step.0.len() ==> !(#[trigger] step.0[m]).touches(a) && !step.0[m].touches(b) && step.0[m] != mv);
        }
        assert(j <= i0 ==> !step.1[i0] && !step.1[j0]);
        assert(j > i0 ==> step.1[j0]);
        lemma_combine_from_moves(s, step.1, j + 1, a, b, d, i0, j0);
        let tail = combine_from(s, step.1, j + 1);
        assert(combine_from(s, c, j) == step.0 + tail);
        Seq::filter_distributes_over_add(step.0, tail, pred);
        assert(step.0.filter(pred).len() == 0) by {
            if step.0.len() > 0 {
                lemma_filter_small(step.0[0], pred);
                assert(step.0 =~= seq![step.0[0]]);
            } else {
                lemma_filter_small(mv, pred);
                assert(step.0 =~= Seq::<EventView>::empty());
            }
        }
        assert forall|m: int|
            0 <= m < combine_from(s, c, j).len() && ((#[trigger] combine_from(s, c, j)[m]).touches(
                a,
            ) || combine_from(s, c, j)[m].touches(b)) implies combine_from(s, c, j)[m] == mv by {
            if m < step.0.len() {
                assert(combine_from(s, c, j)[m] == step.0[m]);
            } else {
                assert(combine_from(s, c, j)[m] == tail[m - step.0.len()]);
            }
        }
    }
}

/// Law (move recombination, whole window): a removal of `a` followed in the
/// same window by the first creation of the same kind, of a different path
/// `b`, with no other event in the window mentioning `a` or `b` and no
/// earlier removal of the same kind still seeking its partner, recombines —
/// the combined window delivers exactly one `Moved(a, b, _)` and never the
/// two separate events, whatever else the window holds.
pub proof fn lemma_move_recombination_in_window(
    s: Seq<EventView>,
    a: Seq<u8>,
    b: Seq<u8>,
    d: bool,
    i0: int,
    j0: int,
)
    requires
        0 <= i0 < j0 < s.len(),
        s[i0].is_removed() && s[i0].path() == a && s[i0].is_dir_kind() == d,
        s[j0].is_created() && s[j0].path() == b && s[j0].is_dir_kind() == d,
        a != b,
        forall|k: int|
            0 <= k < s.len() && k != i0 && k != j0 ==> !(#[trigger] s[k]).touches(a) && !s[k].touches(b),
        forall|k: int| i0 < k < j0 ==> !((#[trigger] s[k]).is_created() && s[k].is_dir_kind() == d),
        forall|k: int| 0 <= k < i0 ==> !((#[trigger] s[k]).is_removed() && s[k].is_dir_kind() == d),
    ensures
        combine(s).filter(move_pred(a, b, d)).len() == 1,
        forall|m: int|
            0 <= m < combine(s).len() && ((#[trigger] combine(s)[m]).touches(a) || combine(s)[m].touches(b)) ==> combine(s)[m] == EventView::Moved(a, b, d),
{
    let c0 = Seq::new(s.len(), |i: int| false);
    lemma_combine_from_moves(s, c0, 0, a, b, d, i0, j0);
}

/// Law (ephemeral hiding): a creation followed within one window by the
/// matching removal, with nothing between them, combines to nothing — no
/// event for the path is delivered.
pub proof fn lemma_ephemeral_hiding(cre: EventView, rem: EventView)
    requires
        cre.is_created(),
        rem.is_removed(),
        rem.is_dir_kind() == cre.is_dir_kind(),
        rem.path() == cre.path(),
    ensures
        combine(seq![cre, rem]) == Seq::<EventView>::empty(),
{
    let s = seq![cre, rem];
    let c0 = Seq::new(s.len(), |i: int| false);
    assert(s[1] == rem && s[0] == cre);
    assert(rem.touches(cre.path()));
    assert(find_cancel(s, c0, cre.path(), cre.is_dir_kind(), 1) == Some(1int));
    let c1 = c0.update(1, true);
    assert(combine_step(s, c0, 0) == (Seq::<EventView>::empty(), c1));
    assert(combine_from(s, c1, 2) == Seq::<EventView>::empty());
    assert(combine_from(s, c1, 1) == Seq::<EventView>::empty());
    assert(combine(s) =~= Seq::<EventView>::empty());
}

/// Law (move recombination): a removal followed within one window by the
/// creation of a different path of the same kind, with nothing between
/// them, combines to exactly one `Moved` event — never the two separate
/// events.
pub proof fn lemma_move_recombination(rem: EventView, cre: EventView)
    requires
        rem.is_removed(),
        cre.is_created(),
        cre.is_dir_kind() == rem.is_dir_kind(),
        cre.path() != rem.path(),
    ensures
        combine(seq![rem, cre]) == seq![
            EventView::Moved(rem.path(), cre.path(), rem.is_dir_kind()),
        ],
{
    let s = seq![rem, cre];
    let c0 = Seq::new(s.len(), |i: int| false);
    assert(s[0] == rem && s[1] == cre);
    assert(find_pair(s, c0, rem.path(), rem.is_dir_kind(), 1) == Some(1int));
    let c1 = c0.update(1, true);
    let m = EventView::Moved(rem.path(), cre.path(), rem.is_dir_kind());
    assert(combine_step(s, c0, 0) == (seq![m], c1));
    assert(combine_from(s, c1, 2) == Seq::<EventView>::empty());
    assert(combine_from(s, c1, 1) == Seq::<EventView>::empty());
    assert(combine(s) =~= seq![m]);
}

/// Law (rate limiting): two identical modifications in one window collapse
/// to one.
pub proof fn lemma_modified_collapse(p: Seq<u8>)
    ensures
        combine(seq![EventView::FileModified(p), EventView::FileModified(p)]) == seq![
            EventView::FileModified(p),
        ],
{
    let e = EventView::FileModified(p);
    let s = seq![e, e];
    let c0 = Seq::new(s.len(), |i: int| false);
    assert(s[0] == e && s[1] == e);
    assert(!(exists|k: int| 0 <= k < 0 && s[k] == e));
    assert(combine_step(s, c0, 0) == (seq![e], c0));
    assert(s[0int] == e);
    assert(exists|k: int| 0 <= k < 1 && s[k] == e);
    assert(combine_step(s, c0, 1) == (Seq::<EventView>::empty(), c0));
    assert(combine_from(s, c0, 2) == Seq::<EventView>::empty());
    assert(combine_from(s, c0, 1) =~= Seq::<EventView>::empty());
    assert(combine(s) =~= seq![e]);
}

/// Copies an event.
fn clone_event(e: &FileSystemEvent) -> (r: FileSystemEvent)
    ensures
        r@ == e@,
{
    match e {
        FileSystemEvent::Stopped(s) => FileSystemEvent::Stopped(*s),
        FileSystemEvent::DirectoryWatched(p) => FileSystemEvent::DirectoryWatched(copy_bytes(p)),
        FileSystemEvent::DirectoryCreated(p) => FileSystemEvent::DirectoryCreated(copy_bytes(p)),
        FileSystemEvent::DirectoryRemoved(p) => FileSystemEvent::DirectoryRemoved(copy_bytes(p)),
        FileSystemEvent::FileCreated(p) => FileSystemEvent::FileCreated(copy_bytes(p)),
        FileSystemEvent::FileModified(p) => FileSystemEvent::FileModified(copy_bytes(p)),
        FileSystemEvent::FileRemoved(p) => FileSystemEvent::FileRemoved(copy_bytes(p)),
        FileSystemEvent::Moved(a, b, d) => FileSystemEvent::Moved(
            copy_bytes(a),
            copy_bytes(b),
            *d,
        ),
        FileSystemEvent::Error(er) => FileSystemEvent::Error(*er),
    }
}

/// Whether the event is a creation, a removal, and whether it concerns a
/// directory.
fn classify(e: &FileSystemEvent) -> (r: (bool, bool, bool))
    ensures
        r.0 == e@.is_created(),
        r.1 == e@.is_removed(),
        r.2 == e@.is_dir_kind(),
{
    match e {
        FileSystemEvent::Stopped(_) => (false, false, false),
        FileSystemEvent::DirectoryWatched(_) => (false, false, true),
        FileSystemEvent::DirectoryCreated(_) => (true, false, true),
        FileSystemEvent::DirectoryRemoved(_) => (false, true, true),
        FileSystemEvent::FileCreated(_) => (true, false, false),
        FileSystemEvent::FileModified(_) => (false, false, false),
        FileSystemEvent::FileRemoved(_) => (false, true, false),
        FileSystemEvent::Moved(_, _, _) => (false, false, false),
        FileSystemEvent::Error(_) => (false, false, false),
    }
}

/// The path the event names.
fn event_path(e: &FileSystemEvent) -> (r: Vec<u8>)
    ensures
        r@ == e@.path(),
{
    match e {
        FileSystemEvent::Stopped(_) => Vec::new(),
        FileSystemEvent::DirectoryWatched(p) => copy_bytes(p),
        FileSystemEvent::DirectoryCreated(p) => copy_bytes(p),
        FileSystemEvent::DirectoryRemoved(p) => copy_bytes(p),
        FileSystemEvent::FileCreated(p) => copy_bytes(p),
        FileSystemEvent::FileModified(p) => copy_bytes(p),
        FileSystemEvent::FileRemoved(p) => copy_bytes(p),
        FileSystemEvent::Moved(a, _, _) => copy_bytes(a),
        FileSystemEvent::Error(_) => Vec::new(),
    }
}

/// Whether the event mentions path `p`.
fn event_touches(e: &FileSystemEvent, p: &Vec<u8>) -> (r: bool)
    ensures
        r == e@.touches(p@),
{
    match e {
        FileSystemEvent::Stopped(_) => false,
        FileSystemEvent::DirectoryWatched(q) => bytes_eq(q, p),
        FileSystemEvent::DirectoryCreated(q) => bytes_eq(q, p),
        FileSystemEvent::DirectoryRemoved(q) => bytes_eq(q, p),
        FileSystemEvent::FileCreated(q) => bytes_eq(q, p),
        FileSystemEvent::FileModified(q) => bytes_eq(q, p),
        FileSystemEvent::FileRemoved(q) => bytes_eq(q, p),
        FileSystemEvent::Moved(a, b, _) => {
            let ra = bytes_eq(a, p);
            let rb = bytes_eq(b, p);
            ra || rb
        },
        FileSystemEvent::Error(_) => false,
    }
}

/// The view of an optional index.
pub open spec fn opt_idx(r: Option<usize>) -> Option<int> {
    match r {
        Some(j) => Some(j as int),
        None => None,
    }
}

/// Sets one mark.
fn set_flag(v: &mut Vec<bool>, i: usize, b: bool)
    requires
        i < old(v)@.len(),
    ensures
        final(v)@ == old(v)@.update(i as int, b),
{
    v.remove(i);
    v.insert(i, b);
    proof {
        assert(v@ =~= old(v)@.update(i as int, b));
    }
}

/// Finds the cancellation partner of a creation of `p`, scanning from
/// `start`.
fn find_cancel_exec(
    batch: &Vec<FileSystemEvent>,
    consumed: &Vec<bool>,
    p: &Vec<u8>,
    dir: bool,
    start: usize,
) -> (r: Option<usize>)
    requires
        consumed@.len() == batch@.len(),
    ensures
        opt_idx(r) == find_cancel(event_views(batch@), consumed@, p@, dir, start as int),
        r matches Some(j) ==> j < batch@.len(),
{
    let ghost s = event_views(batch@);
    let mut j = start;
    while j < batch.len()
        invariant
            consumed@.len() == batch@.len(),
            s == event_views(batch@),
            find_cancel(s, consumed@, p@, dir, start as int) == find_cancel(
                s,
                consumed@,
                p@,
                dir,
                j as int,
            ),
        decreases batch.len() - j,
    {
        proof {
            assert(s[j as int] == batch[j as int]@);
        }
        if event_touches(&batch[j], p) {
            let (_, is_rem, kd) = classify(&batch[j]);
            let qp = event_path(&batch[j]);
            if !consumed[j] && is_rem && kd == dir && bytes_eq(&qp, p) {
                return Some(j);
            } else {
                return None;
            }
        }
        j += 1;
    }
    None
}

/// Finds the pairing partner of a removal of `a`, scanning from `start`.
fn find_pair_exec(
    batch: &Vec<FileSystemEvent>,
    consumed: &Vec<bool>,
    a: &Vec<u8>,
    dir: bool,
    start: usize,
) -> (r: Option<usize>)
    requires
        consumed@.len() == batch@.len(),
    ensures
        opt_idx(r) == find_pair(event_views(batch@), consumed@, a@, dir, start as int),
        r matches Some(j) ==> j < batch@.len(),
    {
    let ghost s = event_views(batch@);
    let mut j = start;
    while j < batch.len()
        invariant
            consumed@.len() == batch@.len(),
            s == event_views(batch@),
            find_pair(s, consumed@, a@, dir, start as int) == find_pair(
                s,
                consumed@,
                a@,
                dir,
                j as int,
            ),
        decreases batch.len() - j,
    {
        proof {
            assert(s[j as int] == batch[j as int]@);
        }
        let (is_cre, _, kd) = classify(&batch[j]);
        if !consumed[j] && is_cre && kd == dir {
            return Some(j);
        }
        if event_touches(&batch[j], a) {
            return None;
        }
        j += 1;
    }
    None
}

/// Whether an identical modification of `p` occurs before position `i`.
fn has_earlier_modified(batch: &Vec<FileSystemEvent>, p: &Vec<u8>, i: usize) -> (r: bool)
    requires
        i <= batch@.len(),
    ensures
        r == exists|k: int|
            0 <= k < i && event_views(batch@)[k] == EventView::FileModified(p@),
{
    let mut k: usize = 0;
    while k < i
        invariant
            k <= i,
            i <= batch@.len(),
            forall|t: int|
                0 <= t < k ==> event_views(batch@)[t] != EventView::FileModified(p@),
        decreases i - k,
    {
        let hit = match &batch[k] {
            FileSystemEvent::FileModified(q) => bytes_eq(q, p),
            _ => false,
        };
        proof {
            assert(event_views(batch@)[k as int] == batch[k as int]@);
        }
        if hit {
            return true;
        }
        k += 1;
    }
    false
}

/// Combines one eligible window, as `combine` describes.
fn combine_window(batch: &Vec<FileSystemEvent>) -> (r: Vec<FileSystemEvent>)
    ensures
        event_views(r@) == combine(event_views(batch@)),
{
    let ghost s = event_views(batch@);
    let n = batch.len();
    let mut consumed: Vec<bool> = vec![false; n];
    let mut out: Vec<FileSystemEvent> = Vec::new();
    let mut i: usize = 0;
    proof {
        assert(consumed@ =~= Seq::new(s.len(), |k: int| false));
        assert(event_views(out@) =~= Seq::<EventView>::empty());
        assert(event_views(out@) + combine_from(s, consumed@, 0) =~= combine(s));
    }
    while i < n
        invariant
            n == batch.len(),
            i <= n,
            consumed@.len() == batch@.len(),
            s == event_views(batch@),
            event_views(out@) + combine_from(s, consumed@, i as int) == combine(s),
        decreases n - i,
    {
        proof {
            assert(s[i as int] == batch[i as int]@);
        }
        let ghost c_in = consumed@;
        let ghost out_in = out@;
        if !consumed[i] {
            let (is_cre, is_rem, kd) = classify(&batch[i]);
            if is_cre {
                let p = event_path(&batch[i]);
                match find_cancel_exec(batch, &consumed, &p, kd, i + 1) {
                    Some(j) => {
                        set_flag(&mut consumed, j, true);
                    },
                    None => {
                        out.push(clone_event(&batch[i]));
                    },
                }
            } else if is_rem {
                let a = event_path(&batch[i]);
                match find_pair_exec(batch, &consumed, &a, kd, i + 1) {
                    Some(j) => {
                        let b = event_path(&batch[j]);
                        if !bytes_eq(&b, &a) {
                            out.push(FileSystemEvent::Moved(a, b, kd));
                        }
                        set_flag(&mut consumed, j, true);
                    },
                    None => {
                        out.push(clone_event(&batch[i]));
                    },
                }
            } else {
                let emit = match &batch[i] {
                    FileSystemEvent::FileModified(q) => !has_earlier_modified(batch, q, i),
                    _ => true,
                };
                if emit {
                    out.push(clone_event(&batch[i]));
                }
            }
            proof {
                let step = combine_step(s, c_in, i as int);
                assert(consumed@ == step.1);
                assert(event_views(out@) =~= event_views(out_in) + step.0);
                assert(event_views(out@) + combine_from(s, consumed@, i + 1) =~= combine(s));
            }
        }
        i += 1;
    }
    proof {
        assert(combine_from(s, consumed@, n as int) == Seq::<EventView>::empty());
        assert(event_views(out@) =~= combine(s));
    }
    out
}

/// Delays and combines the event stream: each event is held for at least
/// one full timer period and combined at the next, so that ephemeral
/// create/remove churn is hidden, detach/attach pairs recombine into
/// `Moved`, and bursts of modifications are rate limited — at the cost of a
/// delivery delay between one and two periods.
pub struct FileEventDelay {
    /// The timer period, in milliseconds; the driver fires `tick` at this
    /// interval while the timer runs.
    pub min_delay: u64,
    pub incoming: Vec<FileSystemEvent>,
    pub ready: Vec<FileSystemEvent>,
    pub output: Vec<FileSystemEvent>,
    pub timer_running: bool,
}

impl View for FileEventDelay {
    type V = DelayView;

    open spec fn view(&self) -> DelayView {
        DelayView {
            incoming: event_views(self.incoming@),
            ready: event_views(self.ready@),
            output: event_views(self.output@),
            timer_running: self.timer_running,
        }
    }
}

impl FileEventDelay {
    /// An idle coalescer with the given minimum delay.
    pub fn new(min_delay: u64) -> (c: FileEventDelay)
        ensures
            c@ == (DelayView {
                incoming: Seq::empty(),
                ready: Seq::empty(),
                output: Seq::empty(),
                timer_running: false,
            }),
            c.min_delay == min_delay,
    {
        let c = FileEventDelay {
            min_delay,
            incoming: Vec::new(),
            ready: Vec::new(),
            output: Vec::new(),
            timer_running: false,
        };
        proof {
            assert(c@ =~= (DelayView {
                incoming: Seq::empty(),
                ready: Seq::empty(),
                output: Seq::empty(),
                timer_running: false,
            }));
        }
        c
    }

    /// Accepts one event into the filling window, restarting the timer if
    /// it was idle.
    pub fn accept(&mut self, e: FileSystemEvent)
        ensures
            final(self)@ == accepted(old(self)@, e@),
            final(self).min_delay == old(self).min_delay,
    {
        self.incoming.push(e);
        self.timer_running = true;
        proof {
            assert(event_views(self.incoming@) =~= old(self)@.incoming.push(
                self.incoming@[self.incoming@.len() - 1]@,
            ));
            assert(self@ =~= accepted(old(self)@, self.incoming@[self.incoming@.len() - 1]@));
        }
    }

    /// One firing of the delay timer: combines the eligible window onto the
    /// delivery queue, promotes the filling window, and stops the timer if
    /// nothing remains to combine.
    pub fn tick(&mut self)
        ensures
            final(self)@ == ticked(old(self)@),
            final(self).min_delay == old(self).min_delay,
    {
        let mut combined = combine_window(&self.ready);
        self.output.append(&mut combined);
        self.ready.clear();
        core::mem::swap(&mut self.ready, &mut self.incoming);
        self.timer_running = self.ready.len() > 0;
        proof {
            assert(event_views(self.output@) =~= old(self)@.output + combine(old(self)@.ready));
            assert(event_views(self.incoming@) =~= Seq::<EventView>::empty());
            assert(self@ =~= ticked(old(self)@));
        }
    }

    /// Delivers the next combined event, if one is eligible.
    pub fn next_event(&mut self) -> (r: Option<FileSystemEvent>)
        ensures
            final(self).min_delay == old(self).min_delay,
            old(self)@.output.len() == 0 ==> r is None && final(self)@ == old(self)@,
            old(self)@.output.len() > 0 ==> match r {
                Some(e) => e@ == old(self)@.output[0] && final(self)@ == (DelayView {
                    output: old(self)@.output.skip(1),
                    ..old(self)@
                }),
                None => false,
            },
    {
        if self.output.is_empty() {
            return None;
        }
        let e = self.output.remove(0);
        proof {
            assert(event_views(self.output@) =~= old(self)@.output.skip(1));
            assert(self@ =~= (DelayView { output: old(self)@.output.skip(1), ..old(self)@ }));
        }
        Some(e)
    }
}

} // verus!
