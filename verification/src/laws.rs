//! Laws of the service, stated over its mathematical model and proved once
//! and for all.

use crate::config::{compile, ConfigModel, RequestModel};
use crate::path::{
    is_absolute, is_canonical, is_name, is_within, joined, lemma_holders_overlap,
    lemma_names_are_names, lemma_names_concat, lemma_names_of_join, lemma_names_of_padded,
    lemma_names_of_tidy,
    lemma_within_itself, lemma_within_transitive, names, relative, resolve,
};
use crate::registry::{
    ascending, has_uid, inserted, lemma_inserted_ascending, lemma_removed_ascending, lemma_removed_inserted, lemma_slot,
    lemma_slot_bounds, lemma_slot_finds, removed, slot,
};
use crate::roots::{
    carrier, counted_within, cover, inside, is_covered, lemma_cover, lemma_cover_bounds,
    lemma_is_covered, lemma_outside_all, lemma_split_members, lemma_with_root_valid,
    lemma_without_root_valid, outside, roots_valid, RootsModel, WatchAction,
};
use crate::service::{
    absorbed_report, accepted, closed, lemma_root_counts_inserted, lemma_root_counts_removed,
    not_found, register_model, root_counts, standing, unregister_model, valid, ServiceModel,
};
use vstd::prelude::*;

verus! {

/// A pattern that does not begin at the root resolves to a path within the
/// root of its subscription: its names are those of the root followed by its
/// own.
pub proof fn law_relative_pattern_stays_below(cwd: Seq<char>, pattern: Seq<char>)
    requires
        !is_absolute(pattern),
    ensures
        names(resolve(cwd, pattern)) == names(cwd) + names(pattern),
        is_within(resolve(cwd, pattern), cwd),
{
    lemma_names_of_tidy(joined(cwd, pattern));
    if cwd.len() > 0 && cwd.last() == '/' {
        let front = cwd.drop_last();
        lemma_names_concat(front, pattern);
        lemma_names_of_padded(front);
        assert(front + seq!['/'] =~= cwd);
        assert(front + seq!['/'] + pattern =~= cwd + pattern);
    } else {
        lemma_names_concat(cwd, pattern);
    }
    let all = names(cwd) + names(pattern);
    assert(all.subrange(0, names(cwd).len() as int) =~= names(cwd));
}

/// A pattern that begins at the root stands for itself, whatever the root of
/// its subscription.
pub proof fn law_absolute_pattern_stands_alone(cwd: Seq<char>, pattern: Seq<char>)
    requires
        is_absolute(pattern),
    ensures
        names(resolve(cwd, pattern)) == names(pattern),
{
    lemma_names_of_tidy(joined(cwd, pattern));
}

/// The relative path leads from the base back to the path: the names of the
/// base followed by those of the relative path are the names of the path.
pub proof fn law_relative_path_leads_back(path: Seq<char>, base: Seq<char>)
    requires
        is_within(path, base),
    ensures
        names(base) + names(relative(path, base)) == names(path),
{
    let all = names(path);
    let rest = all.skip(names(base).len() as int);
    lemma_names_are_names(path);
    assert forall|i: int| 0 <= i < rest.len() implies is_name(#[trigger] rest[i]) by {
        assert(rest[i] == all[i + names(base).len()]);
    }
    lemma_names_of_join(rest);
    assert(names(base) + rest =~= all);
}

/// Canonical paths with the same names are the same text: among the roots of
/// subscriptions, equal texts and equal directories are one thing.
pub proof fn law_canonical_text_is_unique(a: Seq<char>, b: Seq<char>)
    requires
        is_canonical(a),
        is_canonical(b),
        names(a) == names(b),
    ensures
        a == b,
{
}

/// In an ascending sequence every subscription stands at the slot of its id.
pub proof fn lemma_slot_at(subs: Seq<ConfigModel>, i: int)
    requires
        ascending(subs),
        0 <= i < subs.len(),
    ensures
        slot(subs, subs[i].uid) == i,
        has_uid(subs, subs[i].uid),
{
    lemma_slot(subs, subs[i].uid, i);
}

/// The members of the subscriptions after one was put in.
pub proof fn lemma_inserted_members(subs: Seq<ConfigModel>, c: ConfigModel)
    ensures
        forall|x: ConfigModel| #[trigger]
            inserted(subs, c).contains(x) <==> x == c || subs.contains(x),
{
    lemma_slot_bounds(subs, c.uid);
    let k = slot(subs, c.uid);
    let out = inserted(subs, c);
    assert forall|x: ConfigModel| #[trigger] out.contains(x) <==> x == c || subs.contains(x) by {
        if out.contains(x) {
            let i = choose|i: int| 0 <= i < out.len() && out[i] == x;
            if i < k {
                assert(subs[i] == x);
            } else if i > k {
                assert(subs[i - 1] == x);
            }
        }
        if x == c {
            assert(out[k] == x);
        }
        if subs.contains(x) {
            let i = choose|i: int| 0 <= i < subs.len() && subs[i] == x;
            if i < k {
                assert(out[i] == x);
            } else {
                assert(out[i + 1] == x);
            }
        }
    }
}

/// The members of the subscriptions after the one with the id `uid` was
/// taken out.
pub proof fn lemma_removed_members(subs: Seq<ConfigModel>, uid: usize)
    requires
        ascending(subs),
    ensures
        forall|x: ConfigModel| #[trigger]
            removed(subs, uid).contains(x) <==> subs.contains(x) && x.uid != uid,
{
    lemma_slot_bounds(subs, uid);
    lemma_slot_finds(subs, uid);
    let k = slot(subs, uid);
    let out = removed(subs, uid);
    assert forall|x: ConfigModel| #[trigger]
        out.contains(x) <==> subs.contains(x) && x.uid != uid by {
        if has_uid(subs, uid) {
            if out.contains(x) {
                let i = choose|i: int| 0 <= i < out.len() && out[i] == x;
                if i < k {
                    assert(subs[i] == x);
                    assert(subs[i].uid < subs[k].uid);
                } else {
                    assert(subs[i + 1] == x);
                    assert(subs[k].uid < subs[i + 1].uid);
                }
            }
            if subs.contains(x) && x.uid != uid {
                let i = choose|i: int| 0 <= i < subs.len() && subs[i] == x;
                if i < k {
                    assert(out[i] == x);
                } else {
                    assert(out[i - 1] == x);
                }
            }
        } else {
            if subs.contains(x) {
                let i = choose|i: int| 0 <= i < subs.len() && subs[i] == x;
                assert(subs[i].uid != uid);
            }
        }
    }
}

/// Ascending sequences with the same members are one sequence: the order of
/// registration leaves no trace.
pub proof fn lemma_ascending_unique(s: Seq<ConfigModel>, t: Seq<ConfigModel>)
    requires
        ascending(s),
        ascending(t),
        forall|x: ConfigModel| s.contains(x) <==> t.contains(x),
    ensures
        s == t,
    decreases s.len(),
{
    if s.len() == 0 {
        if t.len() > 0 {
            assert(t.contains(t[0]));
        }
        assert(s =~= t);
    } else {
        assert(s.contains(s.last()));
        let j = choose|j: int| 0 <= j < t.len() && t[j] == s.last();
        assert(t.contains(t.last()));
        let i = choose|i: int| 0 <= i < s.len() && s[i] == t.last();
        if j < t.len() - 1 {
            assert(t[j].uid < t.last().uid);
            if i < s.len() - 1 {
                assert(s[i].uid < s.last().uid);
            }
        }
        assert(s.last() == t.last());
        let s0 = s.drop_last();
        let t0 = t.drop_last();
        assert forall|x: ConfigModel| s0.contains(x) <==> t0.contains(x) by {
            if s0.contains(x) {
                let a = choose|a: int| 0 <= a < s0.len() && s0[a] == x;
                assert(s[a] == x);
                assert(s.contains(x));
                let b = choose|b: int| 0 <= b < t.len() && t[b] == x;
                assert(s[a].uid < s.last().uid);
                assert(t0[b] == x);
            }
            if t0.contains(x) {
                let b = choose|b: int| 0 <= b < t0.len() && t0[b] == x;
                assert(t[b] == x);
                assert(t.contains(x));
                let a = choose|a: int| 0 <= a < s.len() && s[a] == x;
                assert(t[b].uid < t.last().uid);
                assert(s0[a] == x);
            }
        }
        lemma_ascending_unique(s0, t0);
        assert(s =~= s0.push(s.last()));
        assert(t =~= t0.push(t.last()));
    }
}

/// A member of an ascending sequence is the one found under its id.
pub proof fn lemma_lookup(subs: Seq<ConfigModel>, x: ConfigModel)
    requires
        ascending(subs),
        subs.contains(x),
    ensures
        has_uid(subs, x.uid),
        subs[slot(subs, x.uid)] == x,
{
    let i = choose|i: int| 0 <= i < subs.len() && subs[i] == x;
    lemma_slot_at(subs, i);
}

/// A subscription stands on a watched root.
pub proof fn lemma_member_root_is_watched(subs: Seq<ConfigModel>, i: int)
    requires
        0 <= i < subs.len(),
    ensures
        standing(subs, subs[i].cwd) >= 1,
        root_counts(subs).contains_key(subs[i].cwd),
    decreases subs.len(),
{
    if i < subs.len() - 1 {
        lemma_member_root_is_watched(subs.drop_last(), i);
    }
}

/// Two new subscriptions put in one after the other are both found under
/// their ids.
pub proof fn lemma_two_on_board(subs: Seq<ConfigModel>, ca: ConfigModel, cb: ConfigModel)
    requires
        ascending(subs),
        ca.uid != cb.uid,
        !has_uid(subs, ca.uid),
        !has_uid(subs, cb.uid),
    ensures
        ({
            let one = inserted(subs, ca);
            let two = inserted(one, cb);
            &&& ascending(one)
            &&& ascending(two)
            &&& !has_uid(one, cb.uid)
            &&& has_uid(two, ca.uid)
            &&& has_uid(two, cb.uid)
            &&& two[slot(two, ca.uid)] == ca
            &&& two[slot(two, cb.uid)] == cb
        }),
{
    let one = inserted(subs, ca);
    let two = inserted(one, cb);
    lemma_inserted_ascending(subs, ca);
    lemma_inserted_ascending(one, cb);
    lemma_inserted_members(subs, ca);
    lemma_inserted_members(one, cb);
    assert(one.contains(ca));
    assert(two.contains(ca));
    assert(two.contains(cb));
    lemma_lookup(two, ca);
    lemma_lookup(two, cb);
}

/// Of two subscriptions put in one after the other, the first can leave
/// first: what stays is the others and the second, and when the second
/// leaves too, the others are as they were.
pub proof fn lemma_two_leave(subs: Seq<ConfigModel>, ca: ConfigModel, cb: ConfigModel)
    requires
        ascending(subs),
        ca.uid != cb.uid,
        !has_uid(subs, ca.uid),
        !has_uid(subs, cb.uid),
    ensures
        ({
            let two = inserted(inserted(subs, ca), cb);
            let rest = removed(two, ca.uid);
            &&& rest == inserted(subs, cb)
            &&& has_uid(rest, cb.uid)
            &&& rest[slot(rest, cb.uid)] == cb
            &&& removed(rest, cb.uid) == subs
        }),
{
    let one = inserted(subs, ca);
    let two = inserted(one, cb);
    let rest = removed(two, ca.uid);
    let goal = inserted(subs, cb);
    lemma_two_on_board(subs, ca, cb);
    lemma_inserted_ascending(subs, cb);
    lemma_removed_ascending(two, ca.uid);
    lemma_inserted_members(subs, ca);
    lemma_inserted_members(one, cb);
    lemma_inserted_members(subs, cb);
    lemma_removed_members(two, ca.uid);
    assert forall|x: ConfigModel| rest.contains(x) <==> goal.contains(x) by {
        if subs.contains(x) {
            let i = choose|i: int| 0 <= i < subs.len() && subs[i] == x;
            assert(subs[i].uid != ca.uid);
        }
    }
    lemma_ascending_unique(rest, goal);
    assert(goal.contains(cb));
    lemma_lookup(goal, cb);
    lemma_removed_inserted(subs, cb);
}

/// Of two subscriptions put in one after the other, the second can leave
/// first: what stays is the others and the first, and when the first leaves
/// too, the others are as they were.
pub proof fn lemma_two_leave_swapped(subs: Seq<ConfigModel>, ca: ConfigModel, cb: ConfigModel)
    requires
        ascending(subs),
        ca.uid != cb.uid,
        !has_uid(subs, ca.uid),
        !has_uid(subs, cb.uid),
    ensures
        ({
            let two = inserted(inserted(subs, ca), cb);
            let rest = removed(two, cb.uid);
            &&& rest == inserted(subs, ca)
            &&& has_uid(rest, ca.uid)
            &&& rest[slot(rest, ca.uid)] == ca
            &&& removed(rest, ca.uid) == subs
        }),
{
    let one = inserted(subs, ca);
    lemma_two_on_board(subs, ca, cb);
    lemma_removed_inserted(one, cb);
    lemma_inserted_members(subs, ca);
    assert(one.contains(ca));
    lemma_lookup(one, ca);
    lemma_removed_inserted(subs, ca);
}

/// A root on which subscriptions are counted has one standing on it.
pub proof fn lemma_standing_member(subs: Seq<ConfigModel>, root: Seq<char>)
    requires
        standing(subs, root) > 0,
    ensures
        exists|j: int| 0 <= j < subs.len() && (#[trigger] subs[j]).cwd == root,
    decreases subs.len(),
{
    if subs.last().cwd == root {
        assert(subs[subs.len() - 1].cwd == root);
    } else {
        lemma_standing_member(subs.drop_last(), root);
        let j = choose|j: int|
            0 <= j < subs.drop_last().len() && (#[trigger] subs.drop_last()[j]).cwd == root;
        assert(subs[j].cwd == root);
    }
}

/// Registering keeps what holds of the service at all times.
pub proof fn law_register_keeps_validity(s: ServiceModel, req: RequestModel)
    requires
        valid(s),
    ensures
        valid(register_model(s, req).0),
{
    if is_canonical(req.cwd) && !has_uid(s.subs, req.uid) {
        let c = compile(req);
        lemma_inserted_ascending(s.subs, c);
        lemma_root_counts_inserted(s.subs, c);
        lemma_with_root_valid(s.roots, req.cwd);
        lemma_slot_bounds(s.subs, c.uid);
        let k = slot(s.subs, c.uid);
        let out = inserted(s.subs, c);
        assert forall|i: int| 0 <= i < out.len() implies is_canonical((#[trigger] out[i]).cwd) by {
            if i < k {
                assert(out[i] == s.subs[i]);
            } else if i > k {
                assert(out[i] == s.subs[i - 1]);
            }
        }
    }
}

/// Unregistering keeps what holds of the service at all times.
pub proof fn law_unregister_keeps_validity(s: ServiceModel, uid: usize)
    requires
        valid(s),
    ensures
        valid(unregister_model(s, uid).0),
{
    if has_uid(s.subs, uid) {
        lemma_removed_ascending(s.subs, uid);
        lemma_root_counts_removed(s.subs, uid);
        lemma_slot_bounds(s.subs, uid);
        lemma_slot_finds(s.subs, uid);
        let k = slot(s.subs, uid);
        lemma_member_root_is_watched(s.subs, k);
        lemma_without_root_valid(s.roots, s.subs[k].cwd);
        let out = removed(s.subs, uid);
        assert forall|i: int| 0 <= i < out.len() implies is_canonical((#[trigger] out[i]).cwd) by {
            if i < k {
                assert(out[i] == s.subs[i]);
            } else {
                assert(out[i] == s.subs[i + 1]);
            }
        }
    }
}

/// Every subscription is served: its root is counted, and an installed root
/// lies at or above it.
pub proof fn law_every_subscription_is_served(s: ServiceModel, i: int)
    requires
        valid(s),
        0 <= i < s.subs.len(),
    ensures
        s.roots.counts.contains_key(s.subs[i].cwd),
        s.roots.counts[s.subs[i].cwd] >= 1,
        is_covered(s.roots.installed, s.subs[i].cwd),
{
    lemma_member_root_is_watched(s.subs, i);
}

/// No installed root lies at or below another: no watch is doubled.
pub proof fn law_installed_roots_lie_apart(s: ServiceModel, i: int, j: int)
    requires
        valid(s),
        0 <= i < s.roots.installed.len(),
        0 <= j < s.roots.installed.len(),
        i != j,
    ensures
        !is_within(s.roots.installed[i], s.roots.installed[j]),
{
}

/// The installed watches are as few as can be: each of them is the only one
/// that serves some subscription, so that none can go without a subscription
/// losing its watch.
pub proof fn law_installed_is_minimal(s: ServiceModel, i: int)
    requires
        valid(s),
        0 <= i < s.roots.installed.len(),
    ensures
        exists|j: int|
            0 <= j < s.subs.len() && is_within((#[trigger] s.subs[j]).cwd, s.roots.installed[i])
                && forall|k: int|
                0 <= k < s.roots.installed.len() && k != i ==> !is_within(
                    s.subs[j].cwd,
                    #[trigger] s.roots.installed[k],
                ),
{
    let r = s.roots.installed[i];
    let p = choose|p: Seq<char>| #[trigger] s.roots.counts.contains_key(p) && is_within(p, r);
    lemma_standing_member(s.subs, p);
    let j = choose|j: int| 0 <= j < s.subs.len() && (#[trigger] s.subs[j]).cwd == p;
    assert forall|k: int| 0 <= k < s.roots.installed.len() && k != i implies !is_within(
        s.subs[j].cwd,
        #[trigger] s.roots.installed[k],
    ) by {
        if is_within(p, s.roots.installed[k]) {
            lemma_holders_overlap(p, r, s.roots.installed[k]);
        }
    }
}

/// A watch is asked for exactly when no installed root lies at or above the
/// root of the new subscription, and after a registration that root is
/// served either way.
pub proof fn law_install_when_uncovered(s: ServiceModel, req: RequestModel)
    requires
        valid(s),
        register_model(s, req).1 is Ok,
    ensures
        register_model(s, req).1 == accepted(WatchAction::Install) <==> !is_covered(
            s.roots.installed,
            req.cwd,
        ),
        register_model(s, req).1 == accepted(WatchAction::NoOp) <==> is_covered(
            s.roots.installed,
            req.cwd,
        ),
        is_covered(register_model(s, req).0.roots.installed, req.cwd),
{
    law_register_keeps_validity(s, req);
    let after = register_model(s, req).0;
    assert(after.roots.counts.contains_key(req.cwd));
}

/// A watch is torn down only when no subscription that stays lies at or
/// below its root: closing one subscription never takes the watch from
/// another.
pub proof fn law_teardown_spares_the_active(s: ServiceModel, uid: usize, i: int)
    requires
        valid(s),
        unregister_model(s, uid).1 matches Ok(done) && done.action == WatchAction::Uninstall,
        0 <= i < unregister_model(s, uid).0.subs.len(),
    ensures
        !is_within(
            unregister_model(s, uid).0.subs[i].cwd,
            carrier(s.roots, s.subs[slot(s.subs, uid)].cwd),
        ),
        is_covered(
            unregister_model(s, uid).0.roots.installed,
            unregister_model(s, uid).0.subs[i].cwd,
        ),
{
    let after = unregister_model(s, uid).0;
    law_unregister_keeps_validity(s, uid);
    lemma_member_root_is_watched(after.subs, i);
    assert(after.roots.counts.contains_key(after.subs[i].cwd));
}

/// Unregistering is safe to repeat: the second request for the same id finds
/// nothing and changes nothing, so no count is lowered twice.
pub proof fn law_unregister_twice(s: ServiceModel, uid: usize)
    requires
        valid(s),
    ensures
        ({
            let once = unregister_model(s, uid);
            let twice = unregister_model(once.0, uid);
            &&& twice.1 == not_found()
            &&& twice.0 == once.0
        }),
{
    lemma_removed_ascending(s.subs, uid);
}

/// Where no watch serves `root` and no subscription stands at or below it,
/// the installed roots with `root` added at the end serve `root` and
/// everything below it through `root`, and taking `root` out again gives the
/// installed roots as they were.
pub proof fn lemma_fresh_root(m: RootsModel, root: Seq<char>, below: Seq<char>)
    requires
        roots_valid(m),
        !is_covered(m.installed, root),
        !counted_within(m.counts, root),
        is_within(below, root),
    ensures
        outside(m.installed, root) == m.installed,
        inside(m.installed, root) == Seq::<Seq<char>>::empty(),
        !m.counts.contains_key(below),
        cover(m.installed.push(root), below) == m.installed.len(),
        m.installed.push(root).remove(m.installed.len() as int) == m.installed,
{
    let now = m.installed.push(root);
    lemma_is_covered(m.installed, root);
    assert forall|j: int| 0 <= j < m.installed.len() implies !is_within(
        #[trigger] m.installed[j],
        root,
    ) by {
        let r = m.installed[j];
        if is_within(r, root) {
            let p = choose|p: Seq<char>| #[trigger] m.counts.contains_key(p) && is_within(p, r);
            lemma_within_transitive(p, r, root);
        }
    }
    lemma_outside_all(m.installed, root);
    assert forall|j: int| 0 <= j < m.installed.len() implies !is_within(
        below,
        #[trigger] now[j],
    ) by {
        let r = m.installed[j];
        if is_within(below, r) {
            lemma_holders_overlap(below, root, r);
            assert(is_within(root, m.installed[j]) || is_within(m.installed[j], root));
        }
    }
    lemma_cover(now, below, m.installed.len() as int);
    assert(now.remove(m.installed.len() as int) =~= m.installed);
}

/// Reference counting. Of two subscriptions that stand on the same root,
/// where no watch serves that root and no subscription stands at or below
/// it, the first costs one install and the second none; when both are closed,
/// in either order, the first to leave costs nothing and the second one
/// uninstall, and the service is as it was.
pub proof fn law_shared_root(s: ServiceModel, a: RequestModel, b: RequestModel)
    requires
        valid(s),
        a.cwd == b.cwd,
        is_canonical(a.cwd),
        a.uid != b.uid,
        !has_uid(s.subs, a.uid),
        !has_uid(s.subs, b.uid),
        !is_covered(s.roots.installed, a.cwd),
        !counted_within(s.roots.counts, a.cwd),
    ensures
        ({
            let s1 = register_model(s, a);
            let s2 = register_model(s1.0, b);
            let a3 = unregister_model(s2.0, a.uid);
            let a4 = unregister_model(a3.0, b.uid);
            let b3 = unregister_model(s2.0, b.uid);
            let b4 = unregister_model(b3.0, a.uid);
            &&& s1.1 == accepted(WatchAction::Install)
            &&& s2.1 == accepted(WatchAction::NoOp)
            &&& a3.1 == closed(a.cwd, a.cwd, WatchAction::NoOp)
            &&& a4.1 == closed(a.cwd, a.cwd, WatchAction::Uninstall)
            &&& a4.0 == s
            &&& b3.1 == closed(a.cwd, a.cwd, WatchAction::NoOp)
            &&& b4.1 == closed(a.cwd, a.cwd, WatchAction::Uninstall)
            &&& b4.0 == s
        }),
{
    let p = a.cwd;
    let ca = compile(a);
    let cb = compile(b);
    lemma_within_itself(p);
    lemma_fresh_root(s.roots, p, p);
    lemma_two_on_board(s.subs, ca, cb);
    lemma_two_leave(s.subs, ca, cb);
    lemma_two_leave_swapped(s.subs, ca, cb);
    let now = s.roots.installed.push(p);
    let s1 = register_model(s, a).0;
    assert(s1.roots.installed == now);
    let s2 = register_model(s1, b).0;
    assert(s2.roots.installed == now);
    assert(s2.roots.counts =~= s.roots.counts.insert(p, 2));
    let a3 = unregister_model(s2, a.uid).0;
    let b3 = unregister_model(s2, b.uid).0;
    assert(a3.roots.counts =~= s.roots.counts.insert(p, 1));
    assert(b3.roots.counts =~= s.roots.counts.insert(p, 1));
    assert(a3.roots.counts.contains_key(p));
    assert(counted_within(a3.roots.counts, p));
    assert(a3.roots.installed == now);
    assert(b3.roots.installed == now);
    assert(a3.roots.counts.remove(p) =~= s.roots.counts);
    let a4 = unregister_model(a3, b.uid).0;
    let b4 = unregister_model(b3, a.uid).0;
    assert(a4.roots.counts == s.roots.counts);
    assert(b4.roots.counts == s.roots.counts);
    assert(a4.roots == s.roots);
    assert(b4.roots == s.roots);
}

/// Nested roots. Of two subscriptions, one on a root and one on a root below
/// it, where no watch serves the upper root and no subscription stands at or
/// below it, the upper costs one install and the lower none: the watch on
/// the upper root serves both. While either stays, closing the other tears
/// nothing down; closing the one that is left tears down the watch on the
/// upper root, and the service is as it was.
pub proof fn law_nested_roots(s: ServiceModel, a: RequestModel, b: RequestModel)
    requires
        valid(s),
        is_canonical(a.cwd),
        is_canonical(b.cwd),
        is_within(b.cwd, a.cwd),
        a.cwd != b.cwd,
        a.uid != b.uid,
        !has_uid(s.subs, a.uid),
        !has_uid(s.subs, b.uid),
        !is_covered(s.roots.installed, a.cwd),
        !counted_within(s.roots.counts, a.cwd),
    ensures
        ({
            let s1 = register_model(s, a);
            let s2 = register_model(s1.0, b);
            let b3 = unregister_model(s2.0, b.uid);
            let b4 = unregister_model(b3.0, a.uid);
            let a3 = unregister_model(s2.0, a.uid);
            let a4 = unregister_model(a3.0, b.uid);
            &&& s1.1 == accepted(WatchAction::Install)
            &&& s2.1 == accepted(WatchAction::NoOp)
            &&& b3.1 == closed(b.cwd, a.cwd, WatchAction::NoOp)
            &&& b4.1 == closed(a.cwd, a.cwd, WatchAction::Uninstall)
            &&& b4.0 == s
            &&& a3.1 == closed(a.cwd, a.cwd, WatchAction::NoOp)
            &&& a4.1 == closed(b.cwd, a.cwd, WatchAction::Uninstall)
            &&& a4.0 == s
        }),
{
    let pa = a.cwd;
    let pb = b.cwd;
    let ca = compile(a);
    let cb = compile(b);
    lemma_within_itself(pa);
    lemma_fresh_root(s.roots, pa, pa);
    lemma_fresh_root(s.roots, pa, pb);
    lemma_two_on_board(s.subs, ca, cb);
    lemma_two_leave(s.subs, ca, cb);
    lemma_two_leave_swapped(s.subs, ca, cb);
    let now = s.roots.installed.push(pa);
    let s1 = register_model(s, a).0;
    assert(s1.roots.installed == now);
    assert(s1.roots.counts =~= s.roots.counts.insert(pa, 1));
    assert(is_covered(now, pb));
    let s2 = register_model(s1, b).0;
    assert(s2.roots.installed == now);
    assert(s2.roots.counts =~= s.roots.counts.insert(pa, 1).insert(pb, 1));
    let b3 = unregister_model(s2, b.uid).0;
    let a3 = unregister_model(s2, a.uid).0;
    assert(b3.roots.counts =~= s.roots.counts.insert(pa, 1));
    assert(a3.roots.counts =~= s.roots.counts.insert(pb, 1));
    assert(b3.roots.counts.contains_key(pa));
    assert(a3.roots.counts.contains_key(pb));
    assert(counted_within(b3.roots.counts, pa));
    assert(counted_within(a3.roots.counts, pa));
    assert(b3.roots.installed == now);
    assert(a3.roots.installed == now);
    assert(b3.roots.counts.remove(pa) =~= s.roots.counts);
    assert(a3.roots.counts.remove(pb) =~= s.roots.counts);
    let b4 = unregister_model(b3, a.uid).0;
    let a4 = unregister_model(a3, b.uid).0;
    assert(b4.roots.counts == s.roots.counts);
    assert(a4.roots.counts == s.roots.counts);
    assert(b4.roots == s.roots);
    assert(a4.roots == s.roots);
}

/// Unregistering what was just registered gives back the service as it was,
/// unless the registration took over from watches on roots below.
pub proof fn law_register_then_unregister(s: ServiceModel, req: RequestModel)
    requires
        valid(s),
        register_model(s, req).1 is Ok,
        absorbed_report(s, req) == Seq::<Seq<char>>::empty(),
    ensures
        unregister_model(register_model(s, req).0, req.uid).0 == s,
        unregister_model(register_model(s, req).0, req.uid).1 is Ok,
{
    let c = compile(req);
    let p = req.cwd;
    let s1 = register_model(s, req).0;
    lemma_inserted_ascending(s.subs, c);
    lemma_slot_bounds(s.subs, c.uid);
    lemma_removed_inserted(s.subs, c);
    assert(s1.subs[slot(s.subs, c.uid)] == c);
    lemma_slot_at(s1.subs, slot(s.subs, c.uid));
    lemma_within_itself(p);
    let back = unregister_model(s1, req.uid).0;
    assert(back.roots.counts =~= s.roots.counts);
    lemma_cover_bounds(s.roots.installed, p);
    if is_covered(s.roots.installed, p) {
        let k = cover(s.roots.installed, p);
        assert(counted_within(s.roots.counts, s.roots.installed[k]));
    } else {
        lemma_split_members(s.roots.installed, p);
        assert(!counted_within(s.roots.counts, p)) by {
            if counted_within(s.roots.counts, p) {
                let q = choose|q: Seq<char>| #[trigger]
                    s.roots.counts.contains_key(q) && is_within(q, p);
                lemma_cover_bounds(s.roots.installed, q);
                let r = s.roots.installed[cover(s.roots.installed, q)];
                lemma_holders_overlap(q, p, r);
                lemma_is_covered(s.roots.installed, p);
                assert(s.roots.installed.contains(r));
                assert(inside(s.roots.installed, p).contains(r));
            }
        }
        lemma_fresh_root(s.roots, p, p);
    }
    assert(back.roots == s.roots);
}

} // verus!
