//! The watched roots: how many subscriptions stand on each root directory,
//! which roots carry a watch, and whether a change calls for a watch to be
//! installed or torn down.
//!
//! Watches are recursive, so a watch on a root serves every root below it.
//! A root gets a watch of its own only if no installed root lies at or above
//! it, and that watch then takes over from the watches on roots below it. A
//! watch is torn down when the last subscription at or below its root has
//! left. So the installed roots never lie within one another, every one of
//! them is needed, and every subscription is served.

use crate::path::{
    is_within, lemma_holders_overlap, lemma_within_itself, lemma_within_transitive, names,
    names_start_with, split_names,
};
use vstd::prelude::*;

verus! {

/// What the caller has to do with the watch backend.
#[derive(Clone, Copy, PartialEq, Eq, Structural, Debug)]
pub enum WatchAction {
    /// Nothing.
    NoOp,
    /// Install a recursive watch on the root.
    Install,
    /// Tear down the watch on the root.
    Uninstall,
}

/// Mathematical value of [`WatchRoots`].
pub struct RootsModel {
    /// For each root on which a subscription stands, how many do.
    pub counts: Map<Seq<char>, nat>,
    /// The roots that carry a watch, in the order in which they got it.
    pub installed: Seq<Seq<char>>,
}

/// The counts after one more subscription stands on `path`.
pub open spec fn bump(counts: Map<Seq<char>, nat>, path: Seq<char>) -> Map<Seq<char>, nat> {
    if counts.contains_key(path) {
        counts.insert(path, counts[path] + 1)
    } else {
        counts.insert(path, 1)
    }
}

/// The counts after one subscription less stands on `path`. A root that loses
/// its last subscription leaves.
pub open spec fn drop_one(counts: Map<Seq<char>, nat>, path: Seq<char>) -> Map<Seq<char>, nat> {
    if !counts.contains_key(path) {
        counts
    } else if counts[path] > 1 {
        counts.insert(path, (counts[path] - 1) as nat)
    } else {
        counts.remove(path)
    }
}

/// Index of the first installed root that lies at or above `path`; the
/// number of installed roots if there is none.
pub open spec fn cover(installed: Seq<Seq<char>>, path: Seq<char>) -> int
    decreases installed.len(),
{
    if installed.len() == 0 || is_within(path, installed[0]) {
        0
    } else {
        1 + cover(installed.skip(1), path)
    }
}

/// Whether a watch serves `path`: some installed root lies at or above it.
pub open spec fn is_covered(installed: Seq<Seq<char>>, path: Seq<char>) -> bool {
    cover(installed, path) < installed.len()
}

/// Those of the installed roots that do not lie at or below `path`, in order.
pub open spec fn outside(installed: Seq<Seq<char>>, path: Seq<char>) -> Seq<Seq<char>>
    decreases installed.len(),
{
    if installed.len() == 0 {
        Seq::empty()
    } else if is_within(installed.last(), path) {
        outside(installed.drop_last(), path)
    } else {
        outside(installed.drop_last(), path).push(installed.last())
    }
}

/// Those of the installed roots that lie at or below `path`, in order.
pub open spec fn inside(installed: Seq<Seq<char>>, path: Seq<char>) -> Seq<Seq<char>>
    decreases installed.len(),
{
    if installed.len() == 0 {
        Seq::empty()
    } else if is_within(installed.last(), path) {
        inside(installed.drop_last(), path).push(installed.last())
    } else {
        inside(installed.drop_last(), path)
    }
}

/// Whether a subscription stands at or below `root`.
pub open spec fn counted_within(counts: Map<Seq<char>, nat>, root: Seq<char>) -> bool {
    exists|p: Seq<char>| #[trigger] counts.contains_key(p) && is_within(p, root)
}

/// The roots after one more subscription stands on `path`, and what to do.
/// Where an installed root lies at or above `path`, its watch serves the
/// subscription and nothing is to be done. Otherwise a watch is installed on
/// `path`, and it takes over from the installed roots below `path`.
pub open spec fn with_root(m: RootsModel, path: Seq<char>) -> (RootsModel, WatchAction) {
    if is_covered(m.installed, path) {
        (RootsModel { counts: bump(m.counts, path), installed: m.installed }, WatchAction::NoOp)
    } else {
        (
            RootsModel {
                counts: bump(m.counts, path),
                installed: outside(m.installed, path).push(path),
            },
            WatchAction::Install,
        )
    }
}

/// The installed roots from which a watch that is installed on `path` takes
/// over. They are no longer counted as installed; a backend that keeps one
/// watch for each root tears theirs down once the new watch stands.
pub open spec fn absorbed(m: RootsModel, path: Seq<char>) -> Seq<Seq<char>> {
    if is_covered(m.installed, path) {
        Seq::empty()
    } else {
        inside(m.installed, path)
    }
}

/// The root whose watch serves `path`; `path` itself if none does.
pub open spec fn carrier(m: RootsModel, path: Seq<char>) -> Seq<char> {
    if is_covered(m.installed, path) {
        m.installed[cover(m.installed, path)]
    } else {
        path
    }
}

/// The roots after one subscription less stands on `path`, and what to do
/// with the watch that serves `path`: it is torn down when no subscription is
/// left at or below its root. A path on which no subscription stands changes
/// nothing.
pub open spec fn without_root(m: RootsModel, path: Seq<char>) -> (RootsModel, WatchAction) {
    if !m.counts.contains_key(path) {
        (m, WatchAction::NoOp)
    } else {
        let counts = drop_one(m.counts, path);
        let k = cover(m.installed, path);
        if k < m.installed.len() && !counted_within(counts, m.installed[k]) {
            (RootsModel { counts, installed: m.installed.remove(k) }, WatchAction::Uninstall)
        } else {
            (RootsModel { counts, installed: m.installed }, WatchAction::NoOp)
        }
    }
}

/// Whether no installed root lies at or below another.
pub open spec fn apart(installed: Seq<Seq<char>>) -> bool {
    forall|i: int, j: int|
        0 <= i < installed.len() && 0 <= j < installed.len() && i != j ==> !is_within(
            installed[i],
            installed[j],
        )
}

/// What holds of the watched roots at all times: every count is positive,
/// every root with a subscription is served by a watch, no installed root
/// lies at or below another, and every installed root has a subscription at
/// or below it.
pub open spec fn roots_valid(m: RootsModel) -> bool {
    &&& forall|p: Seq<char>| m.counts.contains_key(p) ==> #[trigger] m.counts[p] >= 1
    &&& forall|p: Seq<char>| #[trigger] m.counts.contains_key(p) ==> is_covered(m.installed, p)
    &&& apart(m.installed)
    &&& forall|i: int|
        0 <= i < m.installed.len() ==> counted_within(m.counts, #[trigger] m.installed[i])
}

/// `cover` is the index up to which no installed root lies at or above
/// `path`.
pub proof fn lemma_cover(installed: Seq<Seq<char>>, path: Seq<char>, k: int)
    requires
        0 <= k <= installed.len(),
        forall|j: int| 0 <= j < k ==> !is_within(path, #[trigger] installed[j]),
        k == installed.len() || is_within(path, installed[k]),
    ensures
        cover(installed, path) == k,
    decreases k,
{
    if k > 0 {
        let t = installed.skip(1);
        assert(!is_within(path, installed[0]));
        assert forall|j: int| 0 <= j < k - 1 implies !is_within(path, #[trigger] t[j]) by {
            assert(t[j] == installed[j + 1]);
        }
        lemma_cover(t, path, k - 1);
    }
}

/// `cover` lies within the sequence, no installed root before it lies at or
/// above `path`, and the one at it, if there is one, does.
pub proof fn lemma_cover_bounds(installed: Seq<Seq<char>>, path: Seq<char>)
    ensures
        0 <= cover(installed, path) <= installed.len(),
        forall|j: int|
            0 <= j < cover(installed, path) ==> !is_within(path, #[trigger] installed[j]),
        cover(installed, path) < installed.len() ==> is_within(
            path,
            installed[cover(installed, path)],
        ),
    decreases installed.len(),
{
    if !(installed.len() == 0 || is_within(path, installed[0])) {
        let t = installed.skip(1);
        lemma_cover_bounds(t, path);
        assert forall|j: int| 0 <= j < cover(installed, path) implies !is_within(
            path,
            #[trigger] installed[j],
        ) by {
            if j > 0 {
                assert(installed[j] == t[j - 1]);
            }
        }
        if cover(installed, path) < installed.len() {
            assert(installed[cover(installed, path)] == t[cover(t, path)]);
        }
    }
}

/// A path is served exactly when some installed root lies at or above it.
pub proof fn lemma_is_covered(installed: Seq<Seq<char>>, path: Seq<char>)
    ensures
        is_covered(installed, path) <==> exists|j: int|
            0 <= j < installed.len() && is_within(path, #[trigger] installed[j]),
{
    lemma_cover_bounds(installed, path);
    if is_covered(installed, path) {
        assert(is_within(path, installed[cover(installed, path)]));
    }
}

/// The members of `outside` and `inside`: each installed root is in exactly
/// one of them, by whether it lies at or below `path`.
pub proof fn lemma_split_members(installed: Seq<Seq<char>>, path: Seq<char>)
    ensures
        forall|x: Seq<char>| #[trigger]
            outside(installed, path).contains(x) <==> installed.contains(x) && !is_within(
                x,
                path,
            ),
        forall|x: Seq<char>| #[trigger]
            inside(installed, path).contains(x) <==> installed.contains(x) && is_within(x, path),
    decreases installed.len(),
{
    let out = outside(installed, path);
    let ins = inside(installed, path);
    if installed.len() > 0 {
        let front = installed.drop_last();
        let last = installed.last();
        lemma_split_members(front, path);
        let out0 = outside(front, path);
        let ins0 = inside(front, path);
        assert forall|x: Seq<char>| #[trigger]
            out.contains(x) <==> installed.contains(x) && !is_within(x, path) by {
            if out.contains(x) {
                let i = choose|i: int| 0 <= i < out.len() && out[i] == x;
                if i < out0.len() {
                    assert(out0[i] == x);
                    assert(out0.contains(x));
                    let j = choose|j: int| 0 <= j < front.len() && front[j] == x;
                    assert(installed[j] == x);
                } else {
                    assert(installed[installed.len() - 1] == x);
                }
            }
            if installed.contains(x) && !is_within(x, path) {
                let j = choose|j: int| 0 <= j < installed.len() && installed[j] == x;
                if j < front.len() {
                    assert(front[j] == x);
                    assert(front.contains(x));
                    assert(out0.contains(x));
                    let i = choose|i: int| 0 <= i < out0.len() && out0[i] == x;
                    assert(out[i] == x);
                } else {
                    assert(out[out.len() - 1] == x);
                }
            }
        }
        assert forall|x: Seq<char>| #[trigger]
            ins.contains(x) <==> installed.contains(x) && is_within(x, path) by {
            if ins.contains(x) {
                let i = choose|i: int| 0 <= i < ins.len() && ins[i] == x;
                if i < ins0.len() {
                    assert(ins0[i] == x);
                    assert(ins0.contains(x));
                    let j = choose|j: int| 0 <= j < front.len() && front[j] == x;
                    assert(installed[j] == x);
                } else {
                    assert(installed[installed.len() - 1] == x);
                }
            }
            if installed.contains(x) && is_within(x, path) {
                let j = choose|j: int| 0 <= j < installed.len() && installed[j] == x;
                if j < front.len() {
                    assert(front[j] == x);
                    assert(front.contains(x));
                    assert(ins0.contains(x));
                    let i = choose|i: int| 0 <= i < ins0.len() && ins0[i] == x;
                    assert(ins[i] == x);
                } else {
                    assert(ins[ins.len() - 1] == x);
                }
            }
        }
    }
}

/// Leaving roots out keeps the others apart.
pub proof fn lemma_outside_apart(installed: Seq<Seq<char>>, path: Seq<char>)
    requires
        apart(installed),
    ensures
        apart(outside(installed, path)),
    decreases installed.len(),
{
    if installed.len() > 0 {
        let front = installed.drop_last();
        let last = installed.last();
        assert(apart(front)) by {
            assert forall|i: int, j: int|
                0 <= i < front.len() && 0 <= j < front.len() && i != j implies !is_within(
                front[i],
                front[j],
            ) by {
                assert(front[i] == installed[i] && front[j] == installed[j]);
            }
        }
        lemma_outside_apart(front, path);
        lemma_split_members(front, path);
        let out0 = outside(front, path);
        let out = outside(installed, path);
        if !is_within(last, path) {
            assert forall|i: int, j: int|
                0 <= i < out.len() && 0 <= j < out.len() && i != j implies !is_within(
                out[i],
                out[j],
            ) by {
                if i < out0.len() && j < out0.len() {
                    assert(out[i] == out0[i] && out[j] == out0[j]);
                } else {
                    let a = if i < out0.len() {
                        i
                    } else {
                        j
                    };
                    assert(out0.contains(out0[a]));
                    let b = choose|b: int| 0 <= b < front.len() && front[b] == out0[a];
                    assert(installed[b] == out0[a]);
                    assert(installed[installed.len() - 1] == last);
                }
            }
        }
    }
}

/// Where no installed root lies at or below `path`, none is left out.
pub proof fn lemma_outside_all(installed: Seq<Seq<char>>, path: Seq<char>)
    requires
        forall|j: int| 0 <= j < installed.len() ==> !is_within(#[trigger] installed[j], path),
    ensures
        outside(installed, path) == installed,
        inside(installed, path) == Seq::<Seq<char>>::empty(),
    decreases installed.len(),
{
    if installed.len() > 0 {
        let front = installed.drop_last();
        assert forall|j: int| 0 <= j < front.len() implies !is_within(#[trigger] front[j], path) by {
            assert(front[j] == installed[j]);
        }
        lemma_outside_all(front, path);
        assert(!is_within(installed[installed.len() - 1], path));
        assert(front.push(installed.last()) =~= installed);
    } else {
        assert(outside(installed, path) =~= installed);
    }
}

/// One more subscription keeps what holds of the watched roots at all times.
pub proof fn lemma_with_root_valid(m: RootsModel, path: Seq<char>)
    requires
        roots_valid(m),
    ensures
        roots_valid(with_root(m, path).0),
{
    let after = with_root(m, path).0;
    lemma_within_itself(path);
    lemma_cover_bounds(m.installed, path);
    assert(after.counts.contains_key(path));
    assert forall|p: Seq<char>| m.counts.contains_key(p) implies after.counts.contains_key(p) by {}
    if is_covered(m.installed, path) {
        assert forall|i: int| 0 <= i < after.installed.len() implies counted_within(
            after.counts,
            #[trigger] after.installed[i],
        ) by {
            let p = choose|p: Seq<char>| #[trigger]
                m.counts.contains_key(p) && is_within(p, m.installed[i]);
            assert(after.counts.contains_key(p));
        }
    } else {
        let out = outside(m.installed, path);
        let now = after.installed;
        lemma_split_members(m.installed, path);
        lemma_outside_apart(m.installed, path);
        assert forall|i: int, j: int|
            0 <= i < now.len() && 0 <= j < now.len() && i != j implies !is_within(
            now[i],
            now[j],
        ) by {
            if i < out.len() && j < out.len() {
                assert(now[i] == out[i] && now[j] == out[j]);
            } else {
                let a = if i < out.len() {
                    i
                } else {
                    j
                };
                assert(out.contains(out[a]));
                let b = choose|b: int| 0 <= b < m.installed.len() && m.installed[b] == out[a];
                assert(!is_within(path, m.installed[b]));
            }
        }
        assert forall|i: int| 0 <= i < now.len() implies counted_within(
            after.counts,
            #[trigger] now[i],
        ) by {
            if i < out.len() {
                assert(out.contains(out[i]));
                let b = choose|b: int| 0 <= b < m.installed.len() && m.installed[b] == out[i];
                let p = choose|p: Seq<char>| #[trigger]
                    m.counts.contains_key(p) && is_within(p, m.installed[b]);
                assert(after.counts.contains_key(p));
            }
        }
        assert forall|p: Seq<char>| #[trigger] after.counts.contains_key(p) implies is_covered(
            now,
            p,
        ) by {
            lemma_is_covered(now, p);
            if p == path {
                assert(is_within(p, now[now.len() - 1]));
            } else {
                lemma_cover_bounds(m.installed, p);
                let r = m.installed[cover(m.installed, p)];
                assert(m.installed.contains(r));
                if is_within(r, path) {
                    lemma_within_transitive(p, r, path);
                    assert(is_within(p, now[now.len() - 1]));
                } else {
                    assert(out.contains(r));
                    let i = choose|i: int| 0 <= i < out.len() && out[i] == r;
                    assert(is_within(p, now[i]));
                }
            }
        }
    }
}

/// One subscription less keeps what holds of the watched roots at all times.
pub proof fn lemma_without_root_valid(m: RootsModel, path: Seq<char>)
    requires
        roots_valid(m),
    ensures
        roots_valid(without_root(m, path).0),
{
    if m.counts.contains_key(path) {
        let after = without_root(m, path).0;
        let k = cover(m.installed, path);
        lemma_cover_bounds(m.installed, path);
        assert forall|p: Seq<char>| after.counts.contains_key(p) implies m.counts.contains_key(p)
            && (p != path ==> after.counts[p] == m.counts[p]) by {}
        let torn = k < m.installed.len() && !counted_within(after.counts, m.installed[k]);
        // Every installed root but the one that serves `path` keeps the
        // subscription that needs it.
        assert forall|i: int| 0 <= i < m.installed.len() && i != k implies counted_within(
            after.counts,
            #[trigger] m.installed[i],
        ) by {
            let p = choose|p: Seq<char>| #[trigger]
                m.counts.contains_key(p) && is_within(p, m.installed[i]);
            if p == path {
                lemma_holders_overlap(path, m.installed[i], m.installed[k]);
            }
            assert(after.counts.contains_key(p));
        }
        if torn {
            let now = m.installed.remove(k);
            assert forall|i: int| 0 <= i < now.len() implies (#[trigger] now[i]) == m.installed[if i
                < k {
                i
            } else {
                i + 1
            }] by {}
            assert forall|i: int, j: int|
                0 <= i < now.len() && 0 <= j < now.len() && i != j implies !is_within(
                now[i],
                now[j],
            ) by {
                let si = if i < k {
                    i
                } else {
                    i + 1
                };
                let sj = if j < k {
                    j
                } else {
                    j + 1
                };
                assert(now[i] == m.installed[si] && now[j] == m.installed[sj]);
            }
            assert forall|i: int| 0 <= i < now.len() implies counted_within(
                after.counts,
                #[trigger] now[i],
            ) by {
                let si = if i < k {
                    i
                } else {
                    i + 1
                };
                assert(now[i] == m.installed[si]);
            }
            assert forall|p: Seq<char>| #[trigger] after.counts.contains_key(p) implies is_covered(
                now,
                p,
            ) by {
                lemma_cover_bounds(m.installed, p);
                lemma_is_covered(now, p);
                let c = cover(m.installed, p);
                if c < k {
                    assert(now[c] == m.installed[c]);
                } else {
                    assert(c != k);
                    assert(now[c - 1] == m.installed[c]);
                }
            }
        }
    }
}

/// Mathematical value of one root's record.
pub struct RootModel {
    pub path: Seq<char>,
    pub count: nat,
}

/// Whether no path stands twice.
pub open spec fn distinct_paths(es: Seq<RootModel>) -> bool {
    forall|i: int, j: int| 0 <= i < j < es.len() ==> es[i].path != es[j].path
}

/// Whether `m` holds exactly what the records say.
pub open spec fn represents(es: Seq<RootModel>, m: Map<Seq<char>, nat>) -> bool {
    &&& forall|i: int|
        0 <= i < es.len() ==> m.contains_key((#[trigger] es[i]).path) && m[es[i].path]
            == es[i].count
    &&& forall|p: Seq<char>|
        m.contains_key(p) ==> exists|i: int| 0 <= i < es.len() && (#[trigger] es[i]).path == p
}

/// The map from each recorded path to its count.
pub open spec fn table(es: Seq<RootModel>) -> Map<Seq<char>, nat> {
    Map::new(
        |p: Seq<char>| exists|i: int| 0 <= i < es.len() && (#[trigger] es[i]).path == p,
        |p: Seq<char>|
            es[choose|i: int| 0 <= i < es.len() && (#[trigger] es[i]).path == p].count,
    )
}

/// Records with distinct paths stand for one map only.
pub proof fn lemma_table(es: Seq<RootModel>, m: Map<Seq<char>, nat>)
    requires
        distinct_paths(es),
        represents(es, m),
    ensures
        table(es) == m,
{
    assert forall|p: Seq<char>| table(es).contains_key(p) implies m.contains_key(p) by {
        let i = choose|i: int| 0 <= i < es.len() && (#[trigger] es[i]).path == p;
        assert(m.contains_key(es[i].path));
    }
    assert forall|p: Seq<char>| m.contains_key(p) implies table(es).contains_key(p)
        && table(es)[p] == m[p] by {
        let i = choose|i: int| 0 <= i < es.len() && (#[trigger] es[i]).path == p;
        assert(m[es[i].path] == es[i].count);
    }
    assert(table(es) =~= m);
}

/// The map of records with distinct paths holds what the records say.
pub proof fn lemma_table_represents(es: Seq<RootModel>)
    requires
        distinct_paths(es),
    ensures
        represents(es, table(es)),
{
    let m = table(es);
    assert forall|i: int| 0 <= i < es.len() implies m.contains_key((#[trigger] es[i]).path)
        && m[es[i].path] == es[i].count by {
        let p = es[i].path;
        let j = choose|j: int| 0 <= j < es.len() && (#[trigger] es[j]).path == p;
        assert(i == j);
    }
}

/// One root's record: its path, the names of the path, and the number of
/// subscriptions that stand on it.
#[derive(Debug)]
struct RootEntry {
    path: String,
    path_names: Vec<String>,
    count: usize,
}

impl View for RootEntry {
    type V = RootModel;

    closed spec fn view(&self) -> RootModel {
        RootModel { path: self.path@, count: self.count as nat }
    }
}

impl DeepView for RootEntry {
    type V = RootModel;

    closed spec fn deep_view(&self) -> RootModel {
        self@
    }
}

/// One installed root: its path and the names of the path.
#[derive(Debug)]
struct Watched {
    path: String,
    path_names: Vec<String>,
}

impl View for Watched {
    type V = Seq<char>;

    closed spec fn view(&self) -> Seq<char> {
        self.path@
    }
}

impl DeepView for Watched {
    type V = Seq<char>;

    closed spec fn deep_view(&self) -> Seq<char> {
        self@
    }
}

/// Whether the records are consistent: no root stands twice, every count is
/// positive, and the names of every root are at hand.
spec fn entries_ok(entries: &Vec<RootEntry>) -> bool {
    &&& distinct_paths(entries.deep_view())
    &&& forall|i: int|
        0 <= i < entries.len() ==> {
            &&& (#[trigger] entries[i]).count >= 1
            &&& entries[i].path_names.deep_view() == names(entries[i].path@)
        }
}

/// Whether the names of every installed root are at hand.
spec fn installed_ok(installed: &Vec<Watched>) -> bool {
    forall|i: int|
        0 <= i < installed.len() ==> (#[trigger] installed[i]).path_names.deep_view() == names(
            installed[i].path@,
        )
}

/// The index of the record of `path`, or the number of records if there is
/// none.
fn find(entries: &Vec<RootEntry>, path: &String) -> (k: usize)
    ensures
        k <= entries.len(),
        k < entries.len() ==> entries[k as int].path@ == path@,
        k == entries.len() ==> forall|j: int|
            0 <= j < entries.len() ==> (#[trigger] entries[j]).path@ != path@,
{
    let mut k: usize = 0;
    while k < entries.len()
        invariant
            k <= entries.len(),
            forall|j: int| 0 <= j < k ==> (#[trigger] entries[j]).path@ != path@,
        decreases entries.len() - k,
    {
        if entries[k].path == *path {
            return k;
        }
        k += 1;
    }
    k
}

/// Records one more subscription on `path`.
fn bump_entry(entries: &mut Vec<RootEntry>, path: &str, path_names: Vec<String>)
    requires
        entries_ok(old(entries)),
        path_names.deep_view() == names(path@),
        table(old(entries).deep_view()).contains_key(path@) ==> table(
            old(entries).deep_view(),
        )[path@] < usize::MAX,
    ensures
        entries_ok(final(entries)),
        table(final(entries).deep_view()) == bump(table(old(entries).deep_view()), path@),
{
    let key = path.to_owned();
    let k = find(entries, &key);
    let ghost before = entries.deep_view();
    let ghost counts = table(before);
    proof {
        lemma_table_represents(before);
    }
    if k < entries.len() {
        assert(before[k as int] == entries[k as int]@);
        entries[k].count = entries[k].count + 1;
        proof {
            let after = entries.deep_view();
            let goal = counts.insert(path@, counts[path@] + 1);
            assert forall|i: int| 0 <= i < after.len() implies goal.contains_key(
                (#[trigger] after[i]).path,
            ) && goal[after[i].path] == after[i].count by {
                assert(after[i] == entries[i]@);
                assert(before[i] == old(entries)[i]@);
            }
            assert forall|p: Seq<char>| goal.contains_key(p) implies exists|i: int|
                0 <= i < after.len() && (#[trigger] after[i]).path == p by {
                if p == path@ {
                    assert(after[k as int].path == p);
                } else {
                    let i = choose|i: int| 0 <= i < before.len() && (#[trigger] before[i]).path == p;
                    assert(after[i].path == p);
                }
            }
            assert forall|i: int, j: int| 0 <= i < j < after.len() implies after[i].path
                != after[j].path by {
                assert(after[i].path == before[i].path);
                assert(after[j].path == before[j].path);
            }
            lemma_table(after, goal);
        }
    } else {
        entries.push(RootEntry { path: key, path_names, count: 1 });
        proof {
            let after = entries.deep_view();
            let goal = counts.insert(path@, 1);
            assert(!counts.contains_key(path@)) by {
                if counts.contains_key(path@) {
                    let i = choose|i: int|
                        0 <= i < before.len() && (#[trigger] before[i]).path == path@;
                    assert(before[i] == old(entries)[i]@);
                }
            }
            assert forall|i: int| 0 <= i < after.len() implies goal.contains_key(
                (#[trigger] after[i]).path,
            ) && goal[after[i].path] == after[i].count by {
                assert(after[i] == entries[i]@);
                if i < before.len() {
                    assert(before[i] == old(entries)[i]@);
                }
            }
            assert forall|p: Seq<char>| goal.contains_key(p) implies exists|i: int|
                0 <= i < after.len() && (#[trigger] after[i]).path == p by {
                if p == path@ {
                    assert(after[before.len() as int].path == p);
                } else {
                    let i = choose|i: int| 0 <= i < before.len() && (#[trigger] before[i]).path == p;
                    assert(after[i].path == p);
                }
            }
            assert forall|i: int, j: int| 0 <= i < j < after.len() implies after[i].path
                != after[j].path by {
                assert(after[i] == entries[i]@);
                assert(after[j] == entries[j]@);
                assert(before[i] == old(entries)[i]@);
                if j < before.len() {
                    assert(before[j] == old(entries)[j]@);
                }
            }
            lemma_table(after, goal);
        }
    }
}

/// Records one subscription less on `path`, and says whether one stood
/// there.
fn drop_entry(entries: &mut Vec<RootEntry>, path: &str) -> (found: bool)
    requires
        entries_ok(old(entries)),
    ensures
        entries_ok(final(entries)),
        found == table(old(entries).deep_view()).contains_key(path@),
        table(final(entries).deep_view()) == drop_one(table(old(entries).deep_view()), path@),
{
    let key = path.to_owned();
    let k = find(entries, &key);
    let ghost before = entries.deep_view();
    let ghost counts = table(before);
    proof {
        lemma_table_represents(before);
    }
    if k >= entries.len() {
        proof {
            if counts.contains_key(path@) {
                let i = choose|i: int| 0 <= i < before.len() && (#[trigger] before[i]).path == path@;
                assert(before[i] == old(entries)[i]@);
            }
        }
        return false;
    }
    assert(before[k as int] == entries[k as int]@);
    if entries[k].count > 1 {
        entries[k].count = entries[k].count - 1;
        proof {
            let after = entries.deep_view();
            let goal = counts.insert(path@, (counts[path@] - 1) as nat);
            assert forall|i: int| 0 <= i < after.len() implies goal.contains_key(
                (#[trigger] after[i]).path,
            ) && goal[after[i].path] == after[i].count by {
                assert(after[i] == entries[i]@);
                assert(before[i] == old(entries)[i]@);
            }
            assert forall|p: Seq<char>| goal.contains_key(p) implies exists|i: int|
                0 <= i < after.len() && (#[trigger] after[i]).path == p by {
                if p == path@ {
                    assert(after[k as int].path == p);
                } else {
                    let i = choose|i: int| 0 <= i < before.len() && (#[trigger] before[i]).path == p;
                    assert(after[i].path == p);
                }
            }
            assert forall|i: int, j: int| 0 <= i < j < after.len() implies after[i].path
                != after[j].path by {
                assert(after[i].path == before[i].path);
                assert(after[j].path == before[j].path);
            }
            lemma_table(after, goal);
        }
        return true;
    }
    let gone = entries.remove(k);
    proof {
        let after = entries.deep_view();
        let goal = counts.remove(path@);
        assert forall|i: int| 0 <= i < after.len() implies (#[trigger] after[i]) == before[if i < k {
            i
        } else {
            i + 1
        }] by {
            assert(after[i] == entries[i]@);
            if i < k {
                assert(before[i] == old(entries)[i]@);
            } else {
                assert(before[i + 1] == old(entries)[i + 1]@);
            }
        }
        assert forall|i: int| 0 <= i < after.len() implies goal.contains_key(
            (#[trigger] after[i]).path,
        ) && goal[after[i].path] == after[i].count by {
            if i < k {
                assert(before[i].path != before[k as int].path);
            } else {
                assert(before[k as int].path != before[i + 1].path);
            }
        }
        assert forall|p: Seq<char>| goal.contains_key(p) implies exists|i: int|
            0 <= i < after.len() && (#[trigger] after[i]).path == p by {
            let i = choose|i: int| 0 <= i < before.len() && (#[trigger] before[i]).path == p;
            if i < k {
                assert(after[i].path == p);
            } else {
                assert(after[i - 1].path == p);
            }
        }
        assert forall|i: int, j: int| 0 <= i < j < after.len() implies after[i].path
            != after[j].path by {
            let si = if i < k {
                i
            } else {
                i + 1
            };
            let sj = if j < k {
                j
            } else {
                j + 1
            };
            assert(before[si].path != before[sj].path);
        }
        lemma_table(after, goal);
        assert forall|i: int| 0 <= i < entries.len() implies {
            &&& (#[trigger] entries[i]).count >= 1
            &&& entries[i].path_names.deep_view() == names(entries[i].path@)
        } by {
            if i < k {
                assert(entries[i] == old(entries)[i]);
            } else {
                assert(entries[i] == old(entries)[i + 1]);
            }
        }
    }
    true
}

/// Whether a subscription stands at or below the root with the given names.
fn any_within(entries: &Vec<RootEntry>, root: &str, root_names: &Vec<String>) -> (r: bool)
    requires
        entries_ok(entries),
        root_names.deep_view() == names(root@),
    ensures
        r == counted_within(table(entries.deep_view()), root@),
{
    let ghost es = entries.deep_view();
    let ghost counts = table(es);
    proof {
        lemma_table_represents(es);
    }
    let mut i: usize = 0;
    while i < entries.len()
        invariant
            i <= entries.len(),
            entries_ok(entries),
            es == entries.deep_view(),
            counts == table(es),
            represents(es, counts),
            root_names.deep_view() == names(root@),
            forall|j: int| 0 <= j < i ==> !is_within((#[trigger] es[j]).path, root@),
        decreases entries.len() - i,
    {
        assert(es[i as int] == entries[i as int]@);
        if names_start_with(&entries[i].path_names, root_names) {
            assert(counts.contains_key(es[i as int].path));
            assert(is_within(es[i as int].path, root@));
            return true;
        }
        i += 1;
    }
    proof {
        if counted_within(counts, root@) {
            let p = choose|p: Seq<char>| #[trigger] counts.contains_key(p) && is_within(p, root@);
            let j = choose|j: int| 0 <= j < es.len() && (#[trigger] es[j]).path == p;
            assert(!is_within(es[j].path, root@));
        }
    }
    false
}

/// The index of the first installed root at or above the path with the
/// given names, or the number of installed roots if there is none.
fn find_cover(installed: &Vec<Watched>, path: &str, path_names: &Vec<String>) -> (k: usize)
    requires
        installed_ok(installed),
        path_names.deep_view() == names(path@),
    ensures
        k == cover(installed.deep_view(), path@),
        k <= installed.len(),
{
    let mut k: usize = 0;
    while k < installed.len()
        invariant
            k <= installed.len(),
            installed_ok(installed),
            path_names.deep_view() == names(path@),
            forall|j: int| 0 <= j < k ==> !is_within(path@, #[trigger] installed.deep_view()[j]),
        decreases installed.len() - k,
    {
        assert(installed.deep_view()[k as int] == installed[k as int].path@);
        if names_start_with(path_names, &installed[k].path_names) {
            proof {
                lemma_cover(installed.deep_view(), path@, k as int);
            }
            return k;
        }
        k += 1;
    }
    proof {
        lemma_cover(installed.deep_view(), path@, k as int);
    }
    k
}

/// Takes out the installed roots at or below the path with the given names
/// and hands their paths back.
fn absorb(installed: &mut Vec<Watched>, path: &str, path_names: &Vec<String>) -> (gone: Vec<String>)
    requires
        installed_ok(old(installed)),
        path_names.deep_view() == names(path@),
    ensures
        installed_ok(final(installed)),
        final(installed).deep_view() == outside(old(installed).deep_view(), path@),
        gone.deep_view() == inside(old(installed).deep_view(), path@),
{
    let ghost all = installed.deep_view();
    let ghost mut done: int = 0;
    let mut gone: Vec<String> = Vec::new();
    let mut i: usize = 0;
    assert(all.take(0) =~= Seq::<Seq<char>>::empty());
    assert(gone.deep_view() =~= Seq::<Seq<char>>::empty());
    assert(all.skip(0) =~= all);
    assert(Seq::<Seq<char>>::empty() + all =~= all);
    while i < installed.len()
        invariant
            0 <= done <= all.len(),
            i <= installed.len(),
            installed_ok(installed),
            path_names.deep_view() == names(path@),
            i == outside(all.take(done), path@).len(),
            installed.deep_view() == outside(all.take(done), path@) + all.skip(done),
            gone.deep_view() == inside(all.take(done), path@),
        decreases all.len() - done,
    {
        let ghost now = installed.deep_view();
        let ghost kept = outside(all.take(done), path@);
        let ghost left = gone.deep_view();
        proof {
            assert(now[i as int] == all.skip(done)[0]);
            assert(now[i as int] == installed[i as int].path@);
            assert(all.take(done + 1).drop_last() =~= all.take(done));
            assert(all.take(done + 1).last() == all[done]);
        }
        if names_start_with(&installed[i].path_names, path_names) {
            let ghost before = installed@;
            let taken = installed.remove(i);
            gone.push(taken.path);
            proof {
                assert(gone.deep_view() =~= left.push(all[done]));
                assert(installed.deep_view() =~= kept + all.skip(done + 1)) by {
                    assert(kept.len() == i);
                    assert(now =~= kept + all.skip(done));
                    assert(now.len() == i + (all.len() - done));
                    assert(before.len() == now.len());
                    assert(installed.deep_view().len() == now.len() - 1);
                    assert forall|j: int| 0 <= j < installed.len() implies installed.deep_view()[j]
                        == (kept + all.skip(done + 1))[j] by {
                        assert(installed.deep_view()[j] == installed[j]@);
                        assert(kept.len() == i);
                        assert(now =~= kept + all.skip(done));
                        assert(now.len() == i + (all.len() - done));
                        assert(before.len() == now.len());
                        assert(installed.len() == now.len() - 1);
                        if j < i {
                            assert(installed[j] == before[j]);
                            assert(now[j] == before[j]@);
                            assert(now[j] == kept[j]);
                        } else {
                            assert(installed[j] == before[j + 1]);
                            assert(now[j + 1] == before[j + 1]@);
                            assert(now[j + 1] == all.skip(done)[j + 1 - i]);
                            assert(all.skip(done + 1)[j - i] == all[done + 1 + j - i]);
                        }
                    }
                }
                assert forall|j: int| 0 <= j < installed.len() implies (
                #[trigger] installed[j]).path_names.deep_view() == names(installed[j].path@) by {
                    if j < i {
                        assert(installed[j] == before[j]);
                    } else {
                        assert(installed[j] == before[j + 1]);
                    }
                }
                done = done + 1;
            }
        } else {
            proof {
                assert(installed.deep_view() =~= kept.push(all[done]) + all.skip(done + 1));
                done = done + 1;
            }
            i += 1;
        }
    }
    proof {
        assert(done == all.len()) by {
            assert(installed.deep_view().len() == i + (all.len() - done));
        }
        assert(all.take(done) =~= all);
        assert(outside(all, path@) + all.skip(done) =~= outside(all, path@));
    }
    gone
}

/// The answer to one more subscription on a root.
#[derive(Debug)]
pub struct Added {
    /// What to do with the watch on the root.
    pub action: WatchAction,
    /// The installed roots from which the new watch takes over.
    pub absorbed: Vec<String>,
}

/// The answer to one subscription less on a root.
#[derive(Debug)]
pub struct Removed {
    /// What to do with the watch on `root`.
    pub action: WatchAction,
    /// The root whose watch served the subscription.
    pub root: String,
}

/// The watched roots: their reference counts and which of them carry a
/// watch.
#[derive(Debug)]
pub struct WatchRoots {
    entries: Vec<RootEntry>,
    installed: Vec<Watched>,
}

impl View for WatchRoots {
    type V = RootsModel;

    closed spec fn view(&self) -> RootsModel {
        RootsModel { counts: table(self.entries.deep_view()), installed: self.installed.deep_view() }
    }
}

impl WatchRoots {
    /// Whether the value is consistent.
    pub closed spec fn wf(&self) -> bool {
        &&& entries_ok(&self.entries)
        &&& installed_ok(&self.installed)
        &&& roots_valid(self@)
    }

    /// What holds of the watched roots at all times.
    pub proof fn law_valid(&self)
        requires
            self.wf(),
        ensures
            roots_valid(self@),
    {
    }

    /// No roots.
    pub fn new() -> (r: WatchRoots)
        ensures
            r.wf(),
            r@.counts == Map::<Seq<char>, nat>::empty(),
            r@.installed == Seq::<Seq<char>>::empty(),
    {
        let r = WatchRoots { entries: Vec::new(), installed: Vec::new() };
        assert(r@.counts =~= Map::<Seq<char>, nat>::empty());
        assert(r@.installed =~= Seq::<Seq<char>>::empty());
        r
    }

    /// The number of subscriptions that stand on `path`.
    pub fn count(&self, path: &str) -> (r: usize)
        requires
            self.wf(),
        ensures
            r == if self@.counts.contains_key(path@) {
                self@.counts[path@]
            } else {
                0
            },
    {
        let key = path.to_owned();
        let k = find(&self.entries, &key);
        proof {
            let es = self.entries.deep_view();
            lemma_table_represents(es);
            if k < self.entries.len() {
                assert(es[k as int] == self.entries[k as int]@);
            } else if self@.counts.contains_key(path@) {
                let i = choose|i: int| 0 <= i < es.len() && (#[trigger] es[i]).path == path@;
                assert(es[i] == self.entries[i]@);
            }
        }
        if k < self.entries.len() {
            self.entries[k].count
        } else {
            0
        }
    }

    /// Whether a watch serves `path`: some installed root lies at or above
    /// it. A subscription on a path that is served needs no watch of its own.
    pub fn is_served(&self, path: &str) -> (r: bool)
        requires
            self.wf(),
        ensures
            r == is_covered(self@.installed, path@),
    {
        let path_names = split_names(path);
        find_cover(&self.installed, path, &path_names) < self.installed.len()
    }

    /// The roots that carry a watch, in the order in which they got it.
    pub fn installed(&self) -> (r: Vec<String>)
        ensures
            r.deep_view() == self@.installed,
    {
        let mut r: Vec<String> = Vec::new();
        let mut i: usize = 0;
        while i < self.installed.len()
            invariant
                i <= self.installed.len(),
                r.len() == i,
                forall|j: int| 0 <= j < i ==> (#[trigger] r[j])@ == self.installed[j].path@,
            decreases self.installed.len() - i,
        {
            r.push(self.installed[i].path.clone());
            i += 1;
        }
        assert(r.deep_view() =~= self.installed.deep_view());
        r
    }

    /// Records one more subscription on `path` and says whether a watch has
    /// to be installed on it, and from which installed roots that watch takes
    /// over.
    pub fn add_root(&mut self, path: &str) -> (r: Added)
        requires
            old(self).wf(),
            old(self)@.counts.contains_key(path@) ==> old(self)@.counts[path@] < usize::MAX,
        ensures
            final(self).wf(),
            (final(self)@, r.action) == with_root(old(self)@, path@),
            r.absorbed.deep_view() == absorbed(old(self)@, path@),
    {
        proof {
            lemma_with_root_valid(self@, path@);
        }
        let path_names = split_names(path);
        let k = find_cover(&self.installed, path, &path_names);
        if k < self.installed.len() {
            bump_entry(&mut self.entries, path, path_names);
            let absorbed: Vec<String> = Vec::new();
            assert(absorbed.deep_view() =~= Seq::<Seq<char>>::empty());
            Added { action: WatchAction::NoOp, absorbed }
        } else {
            let absorbed = absorb(&mut self.installed, path, &path_names);
            let ghost kept = self.installed.deep_view();
            let ghost before = self.installed@;
            self.installed.push(Watched { path: path.to_owned(), path_names: split_names(path) });
            proof {
                assert(self.installed.deep_view() =~= kept.push(path@));
                assert forall|j: int| 0 <= j < self.installed.len() implies (
                #[trigger] self.installed[j]).path_names.deep_view() == names(
                    self.installed[j].path@,
                ) by {
                    if j < before.len() {
                        assert(self.installed[j] == before[j]);
                    }
                }
            }
            bump_entry(&mut self.entries, path, path_names);
            Added { action: WatchAction::Install, absorbed }
        }
    }

    /// Records one subscription less on `path` and says whether the watch
    /// that served it has to be torn down, and on which root that watch
    /// stands. A path on which no subscription stands changes nothing.
    pub fn remove_root(&mut self, path: &str) -> (r: Removed)
        requires
            old(self).wf(),
        ensures
            final(self).wf(),
            (final(self)@, r.action) == without_root(old(self)@, path@),
            r.root@ == carrier(old(self)@, path@),
    {
        proof {
            lemma_without_root_valid(self@, path@);
        }
        let path_names = split_names(path);
        let k = find_cover(&self.installed, path, &path_names);
        let root = if k < self.installed.len() {
            assert(self.installed.deep_view()[k as int] == self.installed[k as int].path@);
            self.installed[k].path.clone()
        } else {
            path.to_owned()
        };
        if !drop_entry(&mut self.entries, path) {
            return Removed { action: WatchAction::NoOp, root };
        }
        if k < self.installed.len() && !any_within(
            &self.entries,
            root.as_str(),
            &self.installed[k].path_names,
        ) {
            let ghost before = self.installed@;
            let ghost texts = self.installed.deep_view();
            let gone = self.installed.remove(k);
            proof {
                assert(self.installed.deep_view() =~= texts.remove(k as int)) by {
                    assert forall|j: int| 0 <= j < self.installed.len() implies
                        self.installed.deep_view()[j] == texts.remove(k as int)[j] by {
                        if j < k {
                            assert(self.installed[j] == before[j]);
                            assert(texts[j] == before[j]@);
                        } else {
                            assert(self.installed[j] == before[j + 1]);
                            assert(texts[j + 1] == before[j + 1]@);
                        }
                    }
                }
                assert forall|j: int| 0 <= j < self.installed.len() implies (
                #[trigger] self.installed[j]).path_names.deep_view() == names(
                    self.installed[j].path@,
                ) by {
                    if j < k {
                        assert(self.installed[j] == before[j]);
                    } else {
                        assert(self.installed[j] == before[j + 1]);
                    }
                }
            }
            Removed { action: WatchAction::Uninstall, root }
        } else {
            Removed { action: WatchAction::NoOp, root }
        }
    }
}

} // verus!
