use vstd::prelude::*;

use crate::paths::{bytes_eq, check_descendant, copy_bytes, is_descendant};

verus! {

/// One active watch: the directory's path and the kernel handle attached to
/// it.
pub struct WatchEntry {
    pub path: Vec<u8>,
    pub handle: u64,
}

/// The mathematical value of the watch tree: the root path, the active
/// path↔handle mapping, the queue of paths awaiting installation, and the
/// set of handles logically removed but not yet physically released.
#[verifier::ext_equal]
pub struct TreeView {
    pub root: Seq<u8>,
    pub active: Seq<(Seq<u8>, u64)>,
    pub pending: Seq<Seq<u8>>,
    pub released: Seq<u64>,
}

/// Keeps the active entries that do not lie below `p`.
pub open spec fn keep_pred(p: Seq<u8>) -> spec_fn((Seq<u8>, u64)) -> bool {
    |e: (Seq<u8>, u64)| !is_descendant(e.0, p)
}

/// Selects the active entries that lie below `p`.
pub open spec fn drop_pred(p: Seq<u8>) -> spec_fn((Seq<u8>, u64)) -> bool {
    |e: (Seq<u8>, u64)| is_descendant(e.0, p)
}

/// Keeps the queued paths that do not lie below `p`.
pub open spec fn keep_path_pred(p: Seq<u8>) -> spec_fn(Seq<u8>) -> bool {
    |q: Seq<u8>| !is_descendant(q, p)
}

/// Keeps the handles other than `h`.
pub open spec fn ne_pred(h: u64) -> spec_fn(u64) -> bool {
    |x: u64| x != h
}

/// The handle of an active entry.
pub open spec fn handle_fn() -> spec_fn((Seq<u8>, u64)) -> u64 {
    |e: (Seq<u8>, u64)| e.1
}

/// The path of an active entry.
pub open spec fn path_fn() -> spec_fn((Seq<u8>, u64)) -> Seq<u8> {
    |e: (Seq<u8>, u64)| e.0
}

/// A queued path, unchanged.
pub open spec fn id_path() -> spec_fn(Seq<u8>) -> Seq<u8> {
    |q: Seq<u8>| q
}

/// A released handle, unchanged.
pub open spec fn id_handle() -> spec_fn(u64) -> u64 {
    |x: u64| x
}

impl TreeView {
    /// Whether some active watch covers exactly path `p`.
    pub open spec fn active_has_path(self, p: Seq<u8>) -> bool {
        exists|i: int| 0 <= i < self.active.len() && (#[trigger] self.active[i]).0 == p
    }

    /// Whether handle `h` is attached to some active watch.
    pub open spec fn active_has_handle(self, h: u64) -> bool {
        exists|i: int| 0 <= i < self.active.len() && (#[trigger] self.active[i]).1 == h
    }

    /// The path handle `h` is attached to (meaningful when `h` is active).
    pub open spec fn path_of(self, h: u64) -> Seq<u8> {
        let i = choose|i: int| 0 <= i < self.active.len() && (#[trigger] self.active[i]).1 == h;
        self.active[i].0
    }

    /// Well-formedness: the path↔handle mapping is injective in both
    /// directions, no handle is both active and pending release, and the
    /// pending queue holds no duplicate and no path already watched.
    pub open spec fn wf(self) -> bool {
        &&& forall|i: int, j: int|
            0 <= i < j < self.active.len() ==> (#[trigger] self.active[i]).0 != (
            #[trigger] self.active[j]).0 && self.active[i].1 != self.active[j].1
        &&& forall|i: int|
            0 <= i < self.active.len() ==> !self.released.contains((#[trigger] self.active[i]).1)
        &&& forall|i: int|
            0 <= i < self.pending.len() ==> !self.active_has_path(#[trigger] self.pending[i])
        &&& forall|i: int, j: int|
            0 <= i < j < self.pending.len() ==> #[trigger] self.pending[i]
                != #[trigger] self.pending[j]
        &&& forall|i: int, j: int|
            0 <= i < j < self.released.len() ==> #[trigger] self.released[i]
                != #[trigger] self.released[j]
    }

    /// The tree after every watch at or below `p` is logically removed:
    /// those entries leave the active mapping, their handles join the
    /// pending-release set, and queued paths below `p` are dropped.
    pub open spec fn mark_removed(self, p: Seq<u8>) -> TreeView {
        TreeView {
            root: self.root,
            active: self.active.filter(keep_pred(p)),
            pending: self.pending.filter(keep_path_pred(p)),
            released: self.released + self.active.filter(drop_pred(p)).map_values(handle_fn()),
        }
    }

    /// The tree after the kernel confirmed that handle `h` was retired.
    pub open spec fn confirm(self, h: u64) -> TreeView {
        TreeView { released: self.released.filter(ne_pred(h)), ..self }
    }

    /// The tree after a watch on `p` with handle `h` is installed.
    pub open spec fn install(self, p: Seq<u8>, h: u64) -> TreeView {
        TreeView { active: self.active.push((p, h)), ..self }
    }

    /// The tree after path `d` is queued for installation, unless it is
    /// already watched or already queued.
    pub open spec fn enqueue_one(self, d: Seq<u8>) -> TreeView {
        if self.active_has_path(d) || self.pending.contains(d) {
            self
        } else {
            TreeView { pending: self.pending.push(d), ..self }
        }
    }

    /// The tree after the paths `ds` are queued in order.
    pub open spec fn enqueue_all(self, ds: Seq<Seq<u8>>) -> TreeView
        decreases ds.len(),
    {
        if ds.len() == 0 {
            self
        } else {
            self.enqueue_one(ds[0]).enqueue_all(ds.skip(1))
        }
    }
}

/// Law: in every well-formed tree the path↔handle mapping restricted to
/// active watches is a bijection — injective in both directions — and no
/// handle appears both in the active mapping and in the pending-release set.
pub proof fn lemma_active_mapping_bijective(t: TreeView)
    requires
        t.wf(),
    ensures
        forall|i: int, j: int|
            0 <= i < t.active.len() && 0 <= j < t.active.len() && i != j ==> (
            #[trigger] t.active[i]).0 != (#[trigger] t.active[j]).0 && t.active[i].1
                != t.active[j].1,
        forall|i: int|
            0 <= i < t.active.len() ==> !t.released.contains((#[trigger] t.active[i]).1),
{
    assert forall|i: int, j: int|
        0 <= i < t.active.len() && 0 <= j < t.active.len() && i != j implies (
    #[trigger] t.active[i]).0 != (#[trigger] t.active[j]).0 && t.active[i].1
        != t.active[j].1 by {
        if i < j {
            assert(t.active[i].0 != t.active[j].0 && t.active[i].1 != t.active[j].1);
        } else {
            assert(t.active[j].0 != t.active[i].0 && t.active[j].1 != t.active[i].1);
        }
    }
}

/// `filter` commutes with `push`.
pub proof fn lemma_filter_push<A>(s: Seq<A>, pred: spec_fn(A) -> bool, x: A)
    ensures
        s.push(x).filter(pred) == if pred(x) {
            s.filter(pred).push(x)
        } else {
            s.filter(pred)
        },
{
    reveal(Seq::filter);
    assert(s.push(x).drop_last() =~= s);
    assert(s.push(x).last() == x);
}

/// Every filtered element comes from the original sequence and satisfies
/// the predicate, and the filtered elements stay pairwise distinct under
/// any key on which the original sequence is pairwise distinct.
pub proof fn lemma_filter_distinct_by<A, K>(
    s: Seq<A>,
    pred: spec_fn(A) -> bool,
    key: spec_fn(A) -> K,
)
    requires
        forall|i: int, j: int| 0 <= i < j < s.len() ==> key(#[trigger] s[i]) != key(#[trigger] s[j]),
    ensures
        forall|i: int|
            0 <= i < s.filter(pred).len() ==> pred(#[trigger] s.filter(pred)[i]) && exists|k: int|
                0 <= k < s.len() && s[k] == s.filter(pred)[i],
        forall|i: int, j: int|
            0 <= i < j < s.filter(pred).len() ==> key(#[trigger] s.filter(pred)[i]) != key(
                #[trigger] s.filter(pred)[j],
            ),
    decreases s.len(),
{
    reveal(Seq::filter);
    if s.len() > 0 {
        let sub = s.drop_last();
        assert(forall|i: int| 0 <= i < sub.len() ==> #[trigger] sub[i] == s[i]);
        lemma_filter_distinct_by(sub, pred, key);
        let f = s.filter(pred);
        let fsub = sub.filter(pred);
        assert forall|i: int| 0 <= i < f.len() implies pred(#[trigger] f[i]) && exists|k: int|
            0 <= k < s.len() && s[k] == f[i] by {
            if pred(s.last()) && i == f.len() - 1 {
                assert(f[i] == s.last());
                assert(s[s.len() - 1] == f[i]);
            } else {
                assert(f[i] == fsub[i]);
                let k = choose|k: int| 0 <= k < sub.len() && sub[k] == fsub[i];
                assert(s[k] == f[i]);
            }
        }
        assert forall|i: int, j: int| 0 <= i < j < f.len() implies key(#[trigger] f[i]) != key(
            #[trigger] f[j],
        ) by {
            if pred(s.last()) && j == f.len() - 1 {
                assert(f[j] == s.last());
                assert(f[i] == fsub[i]);
                let k = choose|k: int| 0 <= k < sub.len() && sub[k] == fsub[i];
                assert(key(s[k]) != key(s[s.len() - 1]));
            } else {
                assert(f[i] == fsub[i] && f[j] == fsub[j]);
            }
        }
    }
}

/// `mark_removed` preserves well-formedness; a path stays actively watched
/// exactly when it was watched and does not lie below `p`, and a handle is
/// pending release exactly when it already was or was attached to a watch
/// at or below `p`.
pub proof fn lemma_mark_removed_wf(t: TreeView, p: Seq<u8>)
    requires
        t.wf(),
    ensures
        t.mark_removed(p).wf(),
        forall|q: Seq<u8>|
            #[trigger] t.mark_removed(p).active_has_path(q) <==> (t.active_has_path(q)
                && !is_descendant(q, p)),
        forall|h: u64|
            #[trigger] t.mark_removed(p).released.contains(h) <==> (t.released.contains(h)
                || exists|i: int|
                0 <= i < t.active.len() && (#[trigger] t.active[i]).1 == h && is_descendant(
                    t.active[i].0,
                    p,
                )),
{
    let t2 = t.mark_removed(p);
    let kept = t.active.filter(keep_pred(p));
    let dropped = t.active.filter(drop_pred(p));
    let moved = dropped.map_values(handle_fn());
    lemma_filter_distinct_by(t.active, keep_pred(p), path_fn());
    lemma_filter_distinct_by(t.active, keep_pred(p), handle_fn());
    lemma_filter_distinct_by(t.active, drop_pred(p), handle_fn());
    lemma_filter_distinct_by(t.pending, keep_path_pred(p), id_path());
    assert(forall|i: int| 0 <= i < moved.len() ==> #[trigger] moved[i] == dropped[i].1);
    // A kept handle never coincides with a moved handle: the two entries
    // would sit at distinct indices of the active mapping (the predicates
    // disagree), contradicting handle injectivity.
    assert forall|i: int, mi: int|
        0 <= i < kept.len() && 0 <= mi < dropped.len() implies kept[i].1 != dropped[mi].1 by {
        let ki = choose|k: int| 0 <= k < t.active.len() && t.active[k] == kept[i];
        let di = choose|k: int| 0 <= k < t.active.len() && t.active[k] == dropped[mi];
        assert(keep_pred(p)(kept[i]));
        assert(drop_pred(p)(dropped[mi]));
        assert(ki != di);
        lemma_active_mapping_bijective(t);
    }
    // Kept entries keep their paths and handles pairwise distinct.
    assert forall|i: int, j: int| 0 <= i < j < t2.active.len() implies (
    #[trigger] t2.active[i]).0 != (#[trigger] t2.active[j]).0 && t2.active[i].1
        != t2.active[j].1 by {
        assert(path_fn()(kept[i]) != path_fn()(kept[j]));
        assert(handle_fn()(kept[i]) != handle_fn()(kept[j]));
    }
    // No kept handle lies in the new pending-release set.
    assert forall|i: int| 0 <= i < t2.active.len() implies !t2.released.contains(
        (#[trigger] t2.active[i]).1,
    ) by {
        let ki = choose|k: int| 0 <= k < t.active.len() && t.active[k] == kept[i];
        assert(!t.released.contains(t.active[ki].1));
        if t2.released.contains(kept[i].1) {
            let w = choose|w: int| 0 <= w < t2.released.len() && t2.released[w] == kept[i].1;
            if w < t.released.len() {
                assert(t.released[w] == kept[i].1);
                assert(t.released.contains(kept[i].1));
            } else {
                let mi = w - t.released.len();
                assert(moved[mi] == kept[i].1);
                assert(kept[i].1 != dropped[mi].1);
            }
        }
    }
    // Surviving queued paths are not actively watched afterwards.
    assert forall|i: int| 0 <= i < t2.pending.len() implies !t2.active_has_path(
        #[trigger] t2.pending[i],
    ) by {
        let q = t2.pending[i];
        let pi = choose|k: int| 0 <= k < t.pending.len() && t.pending[k] == q;
        assert(t.pending[pi] == q);
        assert(!t.active_has_path(q));
        if t2.active_has_path(q) {
            let j = choose|j: int| 0 <= j < t2.active.len() && (#[trigger] t2.active[j]).0 == q;
            let kj = choose|k: int| 0 <= k < t.active.len() && t.active[k] == kept[j];
            assert(t.active[kj].0 == q);
            assert(t.active_has_path(q));
        }
    }
    // The new pending-release set stays duplicate free.
    assert forall|i: int, j: int| 0 <= i < j < t2.released.len() implies #[trigger] t2.released[i]
        != #[trigger] t2.released[j] by {
        if j < t.released.len() {
        } else if i < t.released.len() {
            let mj = j - t.released.len();
            assert(t2.released[j] == dropped[mj].1);
            let dj = choose|k: int| 0 <= k < t.active.len() && t.active[k] == dropped[mj];
            assert(!t.released.contains(t.active[dj].1));
            assert(t2.released[i] == t.released[i]);
            if t2.released[i] == t2.released[j] {
                assert(t.released.contains(t.active[dj].1));
            }
        } else {
            let mi = i - t.released.len();
            let mj = j - t.released.len();
            assert(handle_fn()(dropped[mi]) != handle_fn()(dropped[mj]));
        }
    }
    assert(t2.wf());
    // A path stays watched exactly when it was watched and is not below `p`.
    assert forall|q: Seq<u8>| #[trigger] t2.active_has_path(q) implies (t.active_has_path(q)
        && !is_descendant(q, p)) by {
        let j = choose|j: int| 0 <= j < t2.active.len() && (#[trigger] t2.active[j]).0 == q;
        let kj = choose|k: int| 0 <= k < t.active.len() && t.active[k] == kept[j];
        assert(t.active[kj].0 == q);
        assert(keep_pred(p)(kept[j]));
    }
    assert forall|q: Seq<u8>| t.active_has_path(q) && !is_descendant(q, p) implies
        #[trigger] t2.active_has_path(q) by {
        let i = choose|i: int| 0 <= i < t.active.len() && (#[trigger] t.active[i]).0 == q;
        assert(keep_pred(p)(t.active[i]));
        t.active.lemma_filter_contains(keep_pred(p), i);
        let j = choose|j: int| 0 <= j < kept.len() && kept[j] == t.active[i];
        assert(t2.active[j].0 == q);
    }
    // A handle is pending release exactly when it already was, or was
    // attached to a watch at or below `p`.
    assert forall|h: u64| #[trigger] t2.released.contains(h) implies (t.released.contains(h)
        || exists|i: int|
        0 <= i < t.active.len() && (#[trigger] t.active[i]).1 == h && is_descendant(
            t.active[i].0,
            p,
        )) by {
        let w = choose|w: int| 0 <= w < t2.released.len() && t2.released[w] == h;
        if w < t.released.len() {
            assert(t.released[w] == h);
        } else {
            let mi = w - t.released.len();
            assert(dropped[mi].1 == h);
            assert(drop_pred(p)(dropped[mi]));
            let di = choose|k: int| 0 <= k < t.active.len() && t.active[k] == dropped[mi];
            assert(t.active[di].1 == h && is_descendant(t.active[di].0, p));
        }
    }
    assert forall|h: u64|
        (t.released.contains(h) || exists|i: int|
            0 <= i < t.active.len() && (#[trigger] t.active[i]).1 == h && is_descendant(
                t.active[i].0,
                p,
            )) implies #[trigger] t2.released.contains(h) by {
        if t.released.contains(h) {
            let w = choose|w: int| 0 <= w < t.released.len() && t.released[w] == h;
            assert(t2.released[w] == h);
        } else {
            let i = choose|i: int|
                0 <= i < t.active.len() && (#[trigger] t.active[i]).1 == h && is_descendant(
                    t.active[i].0,
                    p,
                );
            assert(drop_pred(p)(t.active[i]));
            t.active.lemma_filter_contains(drop_pred(p), i);
            let mi = choose|k: int| 0 <= k < dropped.len() && dropped[k] == t.active[i];
            assert(t2.released[t.released.len() + mi] == h);
        }
    }
}

/// The views of a sequence of watch entries.
pub open spec fn entry_views(s: Seq<WatchEntry>) -> Seq<(Seq<u8>, u64)> {
    s.map_values(|e: WatchEntry| (e.path@, e.handle))
}

/// The views of a sequence of queued paths.
pub open spec fn pending_views(s: Seq<Vec<u8>>) -> Seq<Seq<u8>> {
    s.map_values(|v: Vec<u8>| v@)
}

/// The watch tree: the path↔handle mapping for all active watches, the
/// queue of paths awaiting installation, and the set of handles logically
/// removed but not yet physically released.
pub struct WatchTree {
    pub root: Vec<u8>,
    pub active: Vec<WatchEntry>,
    pub pending: Vec<Vec<u8>>,
    pub released: Vec<u64>,
}

impl View for WatchTree {
    type V = TreeView;

    open spec fn view(&self) -> TreeView {
        TreeView {
            root: self.root@,
            active: entry_views(self.active@),
            pending: pending_views(self.pending@),
            released: self.released@,
        }
    }
}

impl WatchTree {
    /// A fresh tree for `root`: nothing watched yet, the root queued for
    /// installation.
    pub fn new(root: Vec<u8>) -> (t: WatchTree)
        ensures
            t@ == (TreeView {
                root: root@,
                active: Seq::empty(),
                pending: seq![root@],
                released: Seq::empty(),
            }),
            t@.wf(),
    {
        let first = copy_bytes(&root);
        let mut pending: Vec<Vec<u8>> = Vec::new();
        pending.push(first);
        let t = WatchTree { root, active: Vec::new(), pending, released: Vec::new() };
        proof {
            assert(t@.active =~= Seq::<(Seq<u8>, u64)>::empty());
            assert(t@.pending =~= seq![t.root@]);
            assert(t@ =~= (TreeView {
                root: t.root@,
                active: Seq::empty(),
                pending: seq![t.root@],
                released: Seq::empty(),
            }));
        }
        t
    }

    /// Whether some active watch covers exactly path `p`.
    pub fn contains_path(&self, p: &Vec<u8>) -> (r: bool)
        ensures
            r == self@.active_has_path(p@),
    {
        let mut i: usize = 0;
        while i < self.active.len()
            invariant
                i <= self.active.len(),
                forall|k: int| 0 <= k < i ==> (#[trigger] self@.active[k]).0 != p@,
            decreases self.active.len() - i,
        {
            if bytes_eq(&self.active[i].path, p) {
                proof {
                    assert((self@.active[i as int]).0 == p@);
                }
                return true;
            }
            i += 1;
        }
        false
    }

    /// Whether handle `h` is attached to some active watch.
    pub fn contains_handle(&self, h: u64) -> (r: bool)
        ensures
            r == self@.active_has_handle(h),
    {
        let mut i: usize = 0;
        while i < self.active.len()
            invariant
                i <= self.active.len(),
                forall|k: int| 0 <= k < i ==> (#[trigger] self@.active[k]).1 != h,
            decreases self.active.len() - i,
        {
            if self.active[i].handle == h {
                proof {
                    assert((self@.active[i as int]).1 == h);
                }
                return true;
            }
            i += 1;
        }
        false
    }

    /// Whether handle `h` is in the pending-release set.
    pub fn released_contains(&self, h: u64) -> (r: bool)
        ensures
            r == self@.released.contains(h),
    {
        let mut i: usize = 0;
        while i < self.released.len()
            invariant
                i <= self.released.len(),
                forall|k: int| 0 <= k < i ==> self@.released[k] != h,
            decreases self.released.len() - i,
        {
            if self.released[i] == h {
                return true;
            }
            i += 1;
        }
        false
    }

    /// Whether path `p` is queued for installation.
    pub fn pending_contains(&self, p: &Vec<u8>) -> (r: bool)
        ensures
            r == self@.pending.contains(p@),
    {
        let mut i: usize = 0;
        while i < self.pending.len()
            invariant
                i <= self.pending.len(),
                forall|k: int| 0 <= k < i ==> #[trigger] self@.pending[k] != p@,
            decreases self.pending.len() - i,
        {
            if bytes_eq(&self.pending[i], p) {
                proof {
                    assert(self@.pending[i as int] == p@);
                }
                return true;
            }
            i += 1;
        }
        false
    }

    /// The path handle `h` is attached to, if any.
    pub fn path_of_handle(&self, h: u64) -> (r: Option<Vec<u8>>)
        requires
            self@.wf(),
        ensures
            match r {
                Some(pv) => self@.active_has_handle(h) && pv@ == self@.path_of(h),
                None => !self@.active_has_handle(h),
            },
    {
        let mut i: usize = 0;
        while i < self.active.len()
            invariant
                i <= self.active.len(),
                forall|k: int| 0 <= k < i ==> (#[trigger] self@.active[k]).1 != h,
                self@.wf(),
            decreases self.active.len() - i,
        {
            if self.active[i].handle == h {
                let pv = copy_bytes(&self.active[i].path);
                proof {
                    assert((self@.active[i as int]).1 == h);
                    let j = choose|j: int|
                        0 <= j < self@.active.len() && (#[trigger] self@.active[j]).1 == h;
                    if j < i {
                        assert((self@.active[j]).1 != (self@.active[i as int]).1);
                    } else if i < j {
                        assert((self@.active[i as int]).1 != (self@.active[j]).1);
                    }
                    assert(j == i);
                }
                return Some(pv);
            }
            i += 1;
        }
        None
    }

    /// Logically removes every watch at or below `p`: the matching entries
    /// leave the active mapping and the pending queue, and their handles
    /// move to the pending-release set. Physical release is deferred until
    /// the notification backlog is drained.
    pub fn mark_subtree_removed(&mut self, p: &Vec<u8>)
        requires
            old(self)@.wf(),
        ensures
            final(self)@ == old(self)@.mark_removed(p@),
            final(self)@.wf(),
    {
        let ghost t0 = old(self)@;
        let mut kept: Vec<WatchEntry> = Vec::new();
        let mut moved: Vec<u64> = Vec::new();
        let n = self.active.len();
        let mut idx: usize = 0;
        proof {
            assert(entry_views(kept@) =~= t0.active.subrange(0, 0).filter(keep_pred(p@))) by {
                assert(t0.active.subrange(0, 0) =~= Seq::<(Seq<u8>, u64)>::empty());
                reveal(Seq::filter);
            }
            assert(moved@ =~= t0.active.subrange(0, 0).filter(drop_pred(p@)).map_values(
                handle_fn(),
            )) by {
                assert(t0.active.subrange(0, 0) =~= Seq::<(Seq<u8>, u64)>::empty());
                reveal(Seq::filter);
            }
        }
        while idx < n
            invariant
                n == self.active.len(),
                idx <= n,
                self@ == t0,
                entry_views(kept@) == t0.active.subrange(0, idx as int).filter(keep_pred(p@)),
                moved@ == t0.active.subrange(0, idx as int).filter(drop_pred(p@)).map_values(
                    handle_fn(),
                ),
            decreases n - idx,
        {
            let ghost pre = t0.active.subrange(0, idx as int);
            let ghost cur = t0.active[idx as int];
            proof {
                assert(cur == (self.active[idx as int].path@, self.active[idx as int].handle));
                assert(t0.active.subrange(0, idx + 1) =~= pre.push(cur));
                lemma_filter_push(pre, keep_pred(p@), cur);
                lemma_filter_push(pre, drop_pred(p@), cur);
            }
            let desc = check_descendant(&self.active[idx].path, p);
            if desc {
                let h = self.active[idx].handle;
                moved.push(h);
                proof {
                    assert(moved@ =~= pre.push(cur).filter(drop_pred(p@)).map_values(handle_fn()))
                        by {
                        assert(pre.push(cur).filter(drop_pred(p@)) == pre.filter(
                            drop_pred(p@),
                        ).push(cur));
                        assert(pre.filter(drop_pred(p@)).push(cur).map_values(handle_fn())
                            =~= pre.filter(drop_pred(p@)).map_values(handle_fn()).push(cur.1));
                    }
                    assert(entry_views(kept@) == pre.push(cur).filter(keep_pred(p@)));
                }
            } else {
                let path_copy = copy_bytes(&self.active[idx].path);
                let h = self.active[idx].handle;
                kept.push(WatchEntry { path: path_copy, handle: h });
                proof {
                    assert(entry_views(kept@) =~= pre.filter(keep_pred(p@)).push(cur));
                    assert(moved@ == pre.push(cur).filter(drop_pred(p@)).map_values(handle_fn()));
                }
            }
            idx += 1;
        }
        proof {
            assert(t0.active.subrange(0, n as int) =~= t0.active);
        }
        // Now filter the pending queue the same way.
        let mut keptp: Vec<Vec<u8>> = Vec::new();
        let np = self.pending.len();
        let mut pdx: usize = 0;
        proof {
            assert(pending_views(keptp@) =~= t0.pending.subrange(0, 0).filter(keep_path_pred(p@)))
                by {
                assert(t0.pending.subrange(0, 0) =~= Seq::<Seq<u8>>::empty());
                reveal(Seq::filter);
            }
        }
        while pdx < np
            invariant
                n == self.active.len(),
                np == self.pending.len(),
                pdx <= np,
                self@ == t0,
                entry_views(kept@) == t0.active.filter(keep_pred(p@)),
                moved@ == t0.active.filter(drop_pred(p@)).map_values(handle_fn()),
                pending_views(keptp@) == t0.pending.subrange(0, pdx as int).filter(
                    keep_path_pred(p@),
                ),
            decreases np - pdx,
        {
            let ghost prep = t0.pending.subrange(0, pdx as int);
            let ghost curp = t0.pending[pdx as int];
            proof {
                assert(curp == self.pending[pdx as int]@);
                assert(t0.pending.subrange(0, pdx + 1) =~= prep.push(curp));
                lemma_filter_push(prep, keep_path_pred(p@), curp);
            }
            let descp = check_descendant(&self.pending[pdx], p);
            if !descp {
                let q_copy = copy_bytes(&self.pending[pdx]);
                keptp.push(q_copy);
                proof {
                    assert(pending_views(keptp@) =~= prep.filter(keep_path_pred(p@)).push(curp));
                }
            }
            pdx += 1;
        }
        proof {
            assert(t0.pending.subrange(0, np as int) =~= t0.pending);
        }
        self.active = kept;
        self.pending = keptp;
        self.released.append(&mut moved);
        proof {
            assert(self@ =~= t0.mark_removed(p@));
            lemma_mark_removed_wf(t0, p@);
        }
    }

    /// Removes `h` from the pending-release set, after the kernel confirmed
    /// that the watch was retired.
    pub fn confirm_retired(&mut self, h: u64)
        requires
            old(self)@.wf(),
        ensures
            final(self)@ == old(self)@.confirm(h),
            final(self)@.wf(),
    {
        let ghost t0 = old(self)@;
        let mut kept: Vec<u64> = Vec::new();
        let n = self.released.len();
        let mut i: usize = 0;
        proof {
            assert(kept@ =~= t0.released.subrange(0, 0).filter(ne_pred(h))) by {
                assert(t0.released.subrange(0, 0) =~= Seq::<u64>::empty());
                reveal(Seq::filter);
            }
        }
        while i < n
            invariant
                n == self.released.len(),
                i <= n,
                self@ == t0,
                kept@ == t0.released.subrange(0, i as int).filter(ne_pred(h)),
            decreases n - i,
        {
            proof {
                assert(t0.released.subrange(0, i + 1) =~= t0.released.subrange(0, i as int).push(
                    t0.released[i as int],
                ));
                lemma_filter_push(t0.released.subrange(0, i as int), ne_pred(h), t0.released[i as int]);
            }
            let x = self.released[i];
            if x != h {
                kept.push(x);
            }
            i += 1;
        }
        proof {
            assert(t0.released.subrange(0, n as int) =~= t0.released);
        }
        self.released = kept;
        proof {
            assert(self@ =~= t0.confirm(h));
            lemma_filter_distinct_by(t0.released, ne_pred(h), id_handle());
            let t2 = self@;
            assert forall|i2: int| 0 <= i2 < t2.active.len() implies !t2.released.contains(
                (#[trigger] t2.active[i2]).1,
            ) by {
                if t2.released.contains(t2.active[i2].1) {
                    let w = choose|w: int|
                        0 <= w < t2.released.len() && t2.released[w] == t2.active[i2].1;
                    let k = choose|k: int|
                        0 <= k < t0.released.len() && t0.released[k] == t2.released[w];
                    assert(t0.released.contains(t2.active[i2].1));
                }
            }
            assert(t2.wf());
        }
    }

    /// Hands out every handle in the pending-release set for physical
    /// release, and clears the set.
    pub fn take_released(&mut self) -> (r: Vec<u64>)
        requires
            old(self)@.wf(),
        ensures
            r@ == old(self)@.released,
            final(self)@ == (TreeView { released: Seq::empty(), ..old(self)@ }),
            final(self)@.wf(),
    {
        let mut out: Vec<u64> = Vec::new();
        core::mem::swap(&mut self.released, &mut out);
        proof {
            assert(self@ =~= (TreeView { released: Seq::empty(), ..old(self)@ }));
        }
        out
    }

    /// Queues path `d` for watch installation, unless it is already watched
    /// or already queued.
    pub fn enqueue_pending(&mut self, d: Vec<u8>)
        requires
            old(self)@.wf(),
        ensures
            final(self)@ == old(self)@.enqueue_one(d@),
            final(self)@.wf(),
    {
        if self.contains_path(&d) {
            return ;
        }
        if self.pending_contains(&d) {
            return ;
        }
        let ghost t0 = self@;
        self.pending.push(d);
        proof {
            assert(self@ =~= t0.enqueue_one(d@)) by {
                assert(pending_views(self.pending@) =~= t0.pending.push(d@));
            }
            assert forall|i: int, j: int| 0 <= i < j < self@.pending.len() implies
                #[trigger] self@.pending[i] != #[trigger] self@.pending[j] by {
                if j == self@.pending.len() - 1 {
                    assert(!t0.pending.contains(d@));
                    assert(t0.pending[i] != d@);
                }
            }
            assert(self@.wf());
        }
    }

    /// Pops the next path awaiting installation.
    pub fn pop_pending(&mut self) -> (r: Option<Vec<u8>>)
        requires
            old(self)@.wf(),
        ensures
            final(self)@.wf(),
            old(self)@.pending.len() == 0 ==> r is None && final(self)@ == old(self)@,
            old(self)@.pending.len() > 0 ==> match r {
                Some(v) => v@ == old(self)@.pending[0] && final(self)@ == (TreeView {
                    pending: old(self)@.pending.skip(1),
                    ..old(self)@
                }),
                None => false,
            },
    {
        if self.pending.is_empty() {
            return None;
        }
        let ghost t0 = self@;
        let v = self.pending.remove(0);
        proof {
            assert(pending_views(self.pending@) =~= t0.pending.skip(1));
            assert(self@ =~= (TreeView { pending: t0.pending.skip(1), ..t0 }));
        }
        Some(v)
    }

    /// Records a successfully installed watch: `path` now maps to `handle`.
    pub fn install_active(&mut self, path: Vec<u8>, handle: u64)
        requires
            old(self)@.wf(),
            !old(self)@.active_has_path(path@),
            !old(self)@.active_has_handle(handle),
            !old(self)@.released.contains(handle),
            !old(self)@.pending.contains(path@),
        ensures
            final(self)@ == old(self)@.install(path@, handle),
            final(self)@.wf(),
    {
        let ghost t0 = self@;
        let ghost pv = path@;
        self.active.push(WatchEntry { path, handle });
        proof {
            assert(entry_views(self.active@) =~= t0.active.push((pv, handle)));
            assert(self@ =~= t0.install(pv, handle));
            let t2 = self@;
            assert forall|i: int, j: int| 0 <= i < j < t2.active.len() implies (
            #[trigger] t2.active[i]).0 != (#[trigger] t2.active[j]).0 && t2.active[i].1
                != t2.active[j].1 by {
                if j == t2.active.len() - 1 {
                    assert(t2.active[i] == t0.active[i]);
                    assert(t0.active[i].0 != pv);
                    assert(t0.active[i].1 != handle);
                }
            }
            assert forall|i: int| 0 <= i < t2.pending.len() implies !t2.active_has_path(
                #[trigger] t2.pending[i],
            ) by {
                assert(t2.pending[i] == t0.pending[i]);
                if t2.active_has_path(t2.pending[i]) {
                    let j = choose|j: int|
                        0 <= j < t2.active.len() && (#[trigger] t2.active[j]).0 == t2.pending[i];
                    if j < t2.active.len() - 1 {
                        assert(t0.active[j].0 == t0.pending[i]);
                        assert(t0.active_has_path(t0.pending[i]));
                    } else {
                        assert(t2.pending[i] == pv);
                        assert(t0.pending.contains(pv));
                    }
                }
            }
            assert(t2.wf());
        }
    }
}

} // verus!
