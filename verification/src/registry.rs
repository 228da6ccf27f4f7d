//! The active subscriptions, kept in ascending order of their ids.

use crate::config::{ConfigModel, RegisterError, WatcherConfig};
use crate::output::{decimal, decimal_string};
use vstd::prelude::*;

verus! {

/// Whether a subscription with this id is among `subs`.
pub open spec fn has_uid(subs: Seq<ConfigModel>, uid: usize) -> bool {
    exists|i: int| 0 <= i < subs.len() && (#[trigger] subs[i]).uid == uid
}

/// Whether the ids strictly ascend.
pub open spec fn ascending(subs: Seq<ConfigModel>) -> bool {
    forall|i: int, j: int| 0 <= i < j < subs.len() ==> subs[i].uid < subs[j].uid
}

/// Index of the first subscription whose id is not below `uid`; the length if
/// there is none.
pub open spec fn slot(subs: Seq<ConfigModel>, uid: usize) -> int
    decreases subs.len(),
{
    if subs.len() == 0 || subs[0].uid >= uid {
        0
    } else {
        1 + slot(subs.skip(1), uid)
    }
}

/// The subscriptions with `c` put in its place.
pub open spec fn inserted(subs: Seq<ConfigModel>, c: ConfigModel) -> Seq<ConfigModel> {
    subs.insert(slot(subs, c.uid), c)
}

/// The subscriptions without the one that has the id `uid`.
pub open spec fn removed(subs: Seq<ConfigModel>, uid: usize) -> Seq<ConfigModel> {
    if has_uid(subs, uid) {
        subs.remove(slot(subs, uid))
    } else {
        subs
    }
}

/// `slot` is the index up to which all ids are below `uid`.
pub proof fn lemma_slot(subs: Seq<ConfigModel>, uid: usize, k: int)
    requires
        0 <= k <= subs.len(),
        forall|j: int| 0 <= j < k ==> subs[j].uid < uid,
        k == subs.len() || subs[k].uid >= uid,
    ensures
        slot(subs, uid) == k,
    decreases k,
{
    if k > 0 {
        let t = subs.skip(1);
        assert forall|j: int| 0 <= j < k - 1 implies t[j].uid < uid by {
            assert(t[j] == subs[j + 1]);
        }
        lemma_slot(t, uid, k - 1);
    }
}

/// `slot` lies within the sequence, the ids before it are below `uid`, and
/// the id at it, if there is one, is not.
pub proof fn lemma_slot_bounds(subs: Seq<ConfigModel>, uid: usize)
    ensures
        0 <= slot(subs, uid) <= subs.len(),
        forall|j: int| 0 <= j < slot(subs, uid) ==> subs[j].uid < uid,
        slot(subs, uid) < subs.len() ==> subs[slot(subs, uid)].uid >= uid,
    decreases subs.len(),
{
    if !(subs.len() == 0 || subs[0].uid >= uid) {
        let t = subs.skip(1);
        lemma_slot_bounds(t, uid);
        assert forall|j: int| 0 <= j < slot(subs, uid) implies subs[j].uid < uid by {
            if j > 0 {
                assert(subs[j] == t[j - 1]);
            }
        }
        if slot(subs, uid) < subs.len() {
            assert(subs[slot(subs, uid)] == t[slot(t, uid)]);
        }
    }
}

/// In an ascending sequence the subscription with the id `uid`, if there is
/// one, stands at `slot`.
pub proof fn lemma_slot_finds(subs: Seq<ConfigModel>, uid: usize)
    requires
        ascending(subs),
    ensures
        has_uid(subs, uid) <==> (slot(subs, uid) < subs.len() && subs[slot(subs, uid)].uid == uid),
{
    lemma_slot_bounds(subs, uid);
    if has_uid(subs, uid) {
        let i = choose|i: int| 0 <= i < subs.len() && (#[trigger] subs[i]).uid == uid;
        let k = slot(subs, uid);
        if k > i {
            assert(subs[i].uid < uid);
        }
        if k < i {
            assert(subs[k].uid < subs[i].uid);
        }
    }
}

/// Putting a new id in its place keeps the ids ascending.
pub proof fn lemma_inserted_ascending(subs: Seq<ConfigModel>, c: ConfigModel)
    requires
        ascending(subs),
        !has_uid(subs, c.uid),
    ensures
        ascending(inserted(subs, c)),
        has_uid(inserted(subs, c), c.uid),
        forall|u: usize| u != c.uid ==> (has_uid(inserted(subs, c), u) <==> has_uid(subs, u)),
{
    lemma_slot_bounds(subs, c.uid);
    let k = slot(subs, c.uid);
    let out = inserted(subs, c);
    if k < subs.len() {
        assert(subs[k].uid != c.uid);
    }
    assert forall|i: int, j: int| 0 <= i < j < out.len() implies out[i].uid < out[j].uid by {
        if j < k {
            assert(out[i] == subs[i] && out[j] == subs[j]);
        } else if j == k {
            assert(out[i] == subs[i]);
        } else if i < k {
            assert(out[i] == subs[i] && out[j] == subs[j - 1]);
            assert(subs[k].uid <= subs[j - 1].uid);
        } else if i == k {
            assert(out[j] == subs[j - 1]);
            assert(subs[k].uid <= subs[j - 1].uid);
        } else {
            assert(out[i] == subs[i - 1] && out[j] == subs[j - 1]);
        }
    }
    assert(out[k] == c);
    assert forall|u: usize| u != c.uid implies (has_uid(out, u) <==> has_uid(subs, u)) by {
        if has_uid(subs, u) {
            let i = choose|i: int| 0 <= i < subs.len() && (#[trigger] subs[i]).uid == u;
            if i < k {
                assert(out[i] == subs[i]);
            } else {
                assert(out[i + 1] == subs[i]);
            }
        }
        if has_uid(out, u) {
            let i = choose|i: int| 0 <= i < out.len() && (#[trigger] out[i]).uid == u;
            if i < k {
                assert(subs[i] == out[i]);
            } else {
                assert(subs[i - 1] == out[i]);
            }
        }
    }
}

/// Taking a subscription out keeps the ids ascending and frees its id.
pub proof fn lemma_removed_ascending(subs: Seq<ConfigModel>, uid: usize)
    requires
        ascending(subs),
    ensures
        ascending(removed(subs, uid)),
        !has_uid(removed(subs, uid), uid),
        forall|u: usize| u != uid ==> (has_uid(removed(subs, uid), u) <==> has_uid(subs, u)),
{
    lemma_slot_bounds(subs, uid);
    lemma_slot_finds(subs, uid);
    if has_uid(subs, uid) {
        let k = slot(subs, uid);
        let out = removed(subs, uid);
        assert(0 <= k < subs.len());
        assert(out == subs.remove(k));
        assert(out.len() == subs.len() - 1);
        assert forall|i: int, j: int| 0 <= i < j < out.len() implies out[i].uid < out[j].uid by {
            let si = if i < k {
                i
            } else {
                i + 1
            };
            let sj = if j < k {
                j
            } else {
                j + 1
            };
            assert(out[i] == subs[si] && out[j] == subs[sj]);
        }
        if has_uid(out, uid) {
            let i = choose|i: int| 0 <= i < out.len() && (#[trigger] out[i]).uid == uid;
            if i < k {
                assert(out[i] == subs[i]);
                assert(subs[i].uid < subs[k].uid);
            } else {
                assert(out[i] == subs[i + 1]);
                assert(subs[k].uid < subs[i + 1].uid);
            }
        }
        assert forall|u: usize| u != uid implies (has_uid(out, u) <==> has_uid(subs, u)) by {
            if has_uid(subs, u) {
                let i = choose|i: int| 0 <= i < subs.len() && (#[trigger] subs[i]).uid == u;
                if i < k {
                    assert(out[i] == subs[i]);
                } else {
                    assert(out[i - 1] == subs[i]);
                }
            }
            if has_uid(out, u) {
                let i = choose|i: int| 0 <= i < out.len() && (#[trigger] out[i]).uid == u;
                if i < k {
                    assert(subs[i] == out[i]);
                } else {
                    assert(subs[i + 1] == out[i]);
                }
            }
        }
    }
}

/// Taking out what was just put in gives back what was there before.
pub proof fn lemma_removed_inserted(subs: Seq<ConfigModel>, c: ConfigModel)
    requires
        ascending(subs),
        !has_uid(subs, c.uid),
    ensures
        removed(inserted(subs, c), c.uid) == subs,
{
    lemma_slot_bounds(subs, c.uid);
    lemma_inserted_ascending(subs, c);
    let k = slot(subs, c.uid);
    let out = inserted(subs, c);
    assert(out[k] == c);
    assert forall|j: int| 0 <= j < k implies out[j].uid < c.uid by {
        assert(out[j] == subs[j]);
    }
    lemma_slot(out, c.uid, k);
    assert(out.remove(k) =~= subs);
}

/// Why a subscription was not closed.
#[derive(Clone, Copy, PartialEq, Eq, Structural, Debug)]
pub enum UnregisterError {
    /// No subscription holds the id.
    NotFound,
}

impl UnregisterError {
    /// What the diagnostic stream is told when no subscription `uid` is
    /// found.
    pub open spec fn spec_message(self, uid: usize) -> Seq<char> {
        "watcher with ID "@ + decimal(uid as nat) + " not found"@
    }

    /// The diagnostic for a request to close subscription `uid` that found
    /// none.
    pub fn message(&self, uid: usize) -> (r: String)
        ensures
            r@ == self.spec_message(uid),
    {
        let mut r = String::from_str("watcher with ID ");
        r.append(decimal_string(uid).as_str());
        r.append(" not found");
        r
    }
}

/// The active subscriptions.
#[derive(Debug)]
pub struct Registry {
    subs: Vec<WatcherConfig>,
}

impl View for Registry {
    type V = Seq<ConfigModel>;

    closed spec fn view(&self) -> Seq<ConfigModel> {
        self.subs.deep_view()
    }
}

impl Registry {
    /// Whether the value is consistent: the ids strictly ascend and every
    /// subscription is consistent.
    pub closed spec fn wf(&self) -> bool {
        &&& ascending(self@)
        &&& forall|i: int| 0 <= i < self.subs.len() ==> (#[trigger] self.subs[i]).wf()
    }

    /// The ids of a registry strictly ascend.
    pub proof fn law_ascending(&self)
        requires
            self.wf(),
        ensures
            ascending(self@),
    {
    }

    /// A registry without subscriptions.
    pub fn new() -> (r: Registry)
        ensures
            r.wf(),
            r@ == Seq::<ConfigModel>::empty(),
    {
        let r = Registry { subs: Vec::new() };
        assert(r@ =~= Seq::<ConfigModel>::empty());
        r
    }

    /// The number of active subscriptions.
    pub fn len(&self) -> (r: usize)
        ensures
            r == self@.len(),
    {
        self.subs.len()
    }

    /// The index of the first subscription whose id is not below `uid`.
    fn find_slot(&self, uid: usize) -> (k: usize)
        requires
            self.wf(),
        ensures
            k == slot(self@, uid),
            k <= self.subs.len(),
    {
        let mut k: usize = 0;
        while k < self.subs.len() && self.subs[k].uid() < uid
            invariant
                k <= self.subs.len(),
                forall|j: int| 0 <= j < k ==> (#[trigger] self@[j]).uid < uid,
            decreases self.subs.len() - k,
        {
            k += 1;
        }
        proof {
            lemma_slot(self@, uid, k as int);
        }
        k
    }

    /// Whether a subscription holds the id.
    pub fn contains(&self, uid: usize) -> (r: bool)
        requires
            self.wf(),
        ensures
            r == has_uid(self@, uid),
    {
        let k = self.find_slot(uid);
        proof {
            lemma_slot_finds(self@, uid);
        }
        k < self.subs.len() && self.subs[k].uid() == uid
    }

    /// Adds a subscription, unless its id is taken: then nothing changes.
    pub fn register(&mut self, config: WatcherConfig) -> (r: Result<(), RegisterError>)
        requires
            old(self).wf(),
            config.wf(),
        ensures
            final(self).wf(),
            match r {
                Ok(_) => !has_uid(old(self)@, config@.uid) && final(self)@ == inserted(
                    old(self)@,
                    config@,
                ),
                Err(e) => e == RegisterError::DuplicateId && has_uid(old(self)@, config@.uid)
                    && final(self)@ == old(self)@,
            },
    {
        let k = self.find_slot(config.uid());
        proof {
            lemma_slot_finds(self@, config@.uid);
        }
        if k < self.subs.len() && self.subs[k].uid() == config.uid() {
            return Err(RegisterError::DuplicateId);
        }
        proof {
            lemma_inserted_ascending(self@, config@);
        }
        let ghost before = self.subs@;
        self.subs.insert(k, config);
        assert(self@ =~= inserted(old(self)@, config@));
        assert forall|i: int| 0 <= i < self.subs.len() implies (#[trigger] self.subs[i]).wf() by {
            if i < k {
                assert(self.subs[i] == before[i]);
            } else if i > k {
                assert(self.subs[i] == before[i - 1]);
            }
        }
        Ok(())
    }

    /// Takes out the subscription with the id `uid` and hands it back. If
    /// there is none, nothing changes.
    pub fn unregister(&mut self, uid: usize) -> (r: Result<WatcherConfig, UnregisterError>)
        requires
            old(self).wf(),
        ensures
            final(self).wf(),
            final(self)@ == removed(old(self)@, uid),
            match r {
                Ok(config) => {
                    &&& has_uid(old(self)@, uid)
                    &&& config.wf()
                    &&& config@ == old(self)@[slot(old(self)@, uid)]
                    &&& config@.uid == uid
                },
                Err(e) => e == UnregisterError::NotFound && !has_uid(old(self)@, uid),
            },
    {
        let k = self.find_slot(uid);
        proof {
            lemma_slot_finds(self@, uid);
            lemma_removed_ascending(self@, uid);
        }
        if k < self.subs.len() && self.subs[k].uid() == uid {
            let ghost before = self.subs@;
            let config = self.subs.remove(k);
            assert(self@ =~= removed(old(self)@, uid));
            assert forall|i: int| 0 <= i < self.subs.len() implies (#[trigger] self.subs[i]).wf() by {
                if i < k {
                    assert(self.subs[i] == before[i]);
                } else {
                    assert(self.subs[i] == before[i + 1]);
                }
            }
            Ok(config)
        } else {
            Err(UnregisterError::NotFound)
        }
    }

    /// The active subscriptions in ascending order of their ids.
    pub fn snapshot(&self) -> (r: &Vec<WatcherConfig>)
        requires
            self.wf(),
        ensures
            r.deep_view() == self@,
            ascending(r.deep_view()),
            forall|i: int| 0 <= i < r.len() ==> (#[trigger] r[i]).wf(),
    {
        &self.subs
    }
}

} // verus!
