//! The state of the service and the two requests that change it.
//!
//! The service owns the registry and the watched roots and keeps them in
//! step: the count of a root is the number of subscriptions that stand on
//! it, and every subscription is served by one installed watch at or above
//! its root. Each request is applied in full and answered with what the
//! caller has to do with the watch backend.

use crate::config::{
    compile, rejected, Compiled, ConfigModel, RegisterError, RegisterRequest, RequestModel,
    WatcherConfig,
};
use crate::dispatch::batch_output;
use crate::event::RawEvent;
use crate::path::is_canonical;
use crate::registry::{
    ascending, has_uid, inserted, lemma_slot_bounds, lemma_slot_finds, removed, slot, Registry,
    UnregisterError,
};
use crate::roots::{
    absorbed, bump, carrier, drop_one, roots_valid, with_root, without_root, RootsModel,
    WatchAction, WatchRoots,
};
use vstd::prelude::*;

verus! {

/// Mathematical value of a [`Service`].
pub struct ServiceModel {
    /// The active subscriptions in ascending order of their ids.
    pub subs: Seq<ConfigModel>,
    /// The watched roots: their reference counts and which carry a watch.
    pub roots: RootsModel,
}

/// The number of subscriptions that stand on `root`.
pub open spec fn standing(subs: Seq<ConfigModel>, root: Seq<char>) -> nat
    decreases subs.len(),
{
    if subs.len() == 0 {
        0
    } else if subs.last().cwd == root {
        standing(subs.drop_last(), root) + 1
    } else {
        standing(subs.drop_last(), root)
    }
}

/// The roots on which a subscription stands, each with the number of
/// subscriptions on it.
pub open spec fn root_counts(subs: Seq<ConfigModel>) -> Map<Seq<char>, nat> {
    Map::new(|p: Seq<char>| standing(subs, p) > 0, |p: Seq<char>| standing(subs, p))
}

/// What holds of the service at all times: the ids ascend, every root is a
/// canonical path, the counted roots are exactly the roots of the
/// subscriptions, and the installed watches serve every subscription with
/// none to spare.
pub open spec fn valid(s: ServiceModel) -> bool {
    &&& ascending(s.subs)
    &&& forall|i: int| 0 <= i < s.subs.len() ==> is_canonical((#[trigger] s.subs[i]).cwd)
    &&& s.roots.counts == root_counts(s.subs)
    &&& roots_valid(s.roots)
}

/// The answer to a request to register that was taken up.
pub open spec fn accepted(action: WatchAction) -> Result<WatchAction, RegisterError> {
    Ok(action)
}

/// Mathematical value of [`Unregistered`].
pub struct ClosedModel {
    /// The root directory of the subscription that left.
    pub cwd: Seq<char>,
    /// The root whose watch served the subscription.
    pub root: Seq<char>,
    /// What to do with the watch on `root`.
    pub action: WatchAction,
}

/// The answer to a request to unregister that found its subscription, which
/// stood on `cwd` and was served by the watch on `root`.
pub open spec fn closed(cwd: Seq<char>, root: Seq<char>, action: WatchAction) -> Result<
    ClosedModel,
    UnregisterError,
> {
    Ok(ClosedModel { cwd, root, action })
}

/// The answer to a request to unregister that found no subscription.
pub open spec fn not_found() -> Result<ClosedModel, UnregisterError> {
    Err(UnregisterError::NotFound)
}

/// The service after a request to register, and the answer: the action to
/// take, or why the request was turned down. A request that is turned down
/// changes nothing.
pub open spec fn register_model(s: ServiceModel, req: RequestModel) -> (
    ServiceModel,
    Result<WatchAction, RegisterError>,
) {
    if !is_canonical(req.cwd) {
        (s, Err(RegisterError::InvalidRoot))
    } else if has_uid(s.subs, req.uid) {
        (s, Err(RegisterError::DuplicateId))
    } else {
        let (roots, action) = with_root(s.roots, req.cwd);
        (ServiceModel { subs: inserted(s.subs, compile(req)), roots }, accepted(action))
    }
}

/// The patterns that a request to register is told were dropped. A request
/// whose root is turned down gets no further than the root.
pub open spec fn rejected_report(req: RequestModel) -> Seq<Seq<char>> {
    if is_canonical(req.cwd) {
        rejected(req)
    } else {
        Seq::empty()
    }
}

/// The installed roots from which the watch that a request to register asks
/// for takes over. A request that is turned down has none.
pub open spec fn absorbed_report(s: ServiceModel, req: RequestModel) -> Seq<Seq<char>> {
    if register_model(s, req).1 is Ok {
        absorbed(s.roots, req.cwd)
    } else {
        Seq::empty()
    }
}

/// The service after a request to unregister, and the answer: the root of
/// the subscription that left, the root whose watch served it and the action
/// to take on that watch, or that there is no such subscription. In that case
/// nothing changes.
pub open spec fn unregister_model(s: ServiceModel, uid: usize) -> (
    ServiceModel,
    Result<ClosedModel, UnregisterError>,
) {
    if !has_uid(s.subs, uid) {
        (s, not_found())
    } else {
        let gone = s.subs[slot(s.subs, uid)];
        let (roots, action) = without_root(s.roots, gone.cwd);
        (
            ServiceModel { subs: removed(s.subs, uid), roots },
            closed(gone.cwd, carrier(s.roots, gone.cwd), action),
        )
    }
}

/// No more subscriptions stand on a root than there are subscriptions.
pub proof fn lemma_standing_bound(subs: Seq<ConfigModel>, root: Seq<char>)
    ensures
        standing(subs, root) <= subs.len(),
    decreases subs.len(),
{
    if subs.len() > 0 {
        lemma_standing_bound(subs.drop_last(), root);
    }
}

/// A subscription put anywhere among the others adds one to the count of
/// its root and nothing to any other.
pub proof fn lemma_standing_insert(subs: Seq<ConfigModel>, k: int, c: ConfigModel, root: Seq<char>)
    requires
        0 <= k <= subs.len(),
    ensures
        standing(subs.insert(k, c), root) == standing(subs, root) + if c.cwd == root {
            1nat
        } else {
            0nat
        },
    decreases subs.len(),
{
    let out = subs.insert(k, c);
    if k == subs.len() {
        assert(out.drop_last() =~= subs);
        assert(out.last() == c);
    } else {
        assert(out.drop_last() =~= subs.drop_last().insert(k, c));
        assert(out.last() == subs.last());
        lemma_standing_insert(subs.drop_last(), k, c, root);
    }
}

/// A subscription taken out takes one from the count of its root and
/// nothing from any other.
pub proof fn lemma_standing_remove(subs: Seq<ConfigModel>, k: int, root: Seq<char>)
    requires
        0 <= k < subs.len(),
    ensures
        standing(subs, root) == standing(subs.remove(k), root) + if subs[k].cwd == root {
            1nat
        } else {
            0nat
        },
    decreases subs.len(),
{
    let out = subs.remove(k);
    if k == subs.len() - 1 {
        assert(out =~= subs.drop_last());
    } else {
        assert(out.drop_last() =~= subs.drop_last().remove(k));
        assert(out.last() == subs.last());
        lemma_standing_remove(subs.drop_last(), k, root);
    }
}

/// Registering keeps the counts in step with the subscriptions.
pub proof fn lemma_root_counts_inserted(subs: Seq<ConfigModel>, c: ConfigModel)
    ensures
        root_counts(inserted(subs, c)) == bump(root_counts(subs), c.cwd),
{
    lemma_slot_bounds(subs, c.uid);
    let k = slot(subs, c.uid);
    let a = root_counts(inserted(subs, c));
    let b = bump(root_counts(subs), c.cwd);
    assert forall|p: Seq<char>| #[trigger]
        a.dom().contains(p) == b.dom().contains(p) && (a.dom().contains(p) ==> a[p] == b[p]) by {
        lemma_standing_insert(subs, k, c, p);
    }
    assert(a =~= b);
}

/// Unregistering keeps the counts in step with the subscriptions.
pub proof fn lemma_root_counts_removed(subs: Seq<ConfigModel>, uid: usize)
    requires
        ascending(subs),
        has_uid(subs, uid),
    ensures
        root_counts(removed(subs, uid)) == drop_one(root_counts(subs), subs[slot(subs, uid)].cwd),
{
    lemma_slot_bounds(subs, uid);
    lemma_slot_finds(subs, uid);
    let k = slot(subs, uid);
    let a = root_counts(removed(subs, uid));
    let b = drop_one(root_counts(subs), subs[k].cwd);
    assert forall|p: Seq<char>| #[trigger]
        a.dom().contains(p) == b.dom().contains(p) && (a.dom().contains(p) ==> a[p] == b[p]) by {
        lemma_standing_remove(subs, k, p);
    }
    assert(a =~= b);
}

/// The answer to a request to register.
#[derive(Debug)]
pub struct RegisterReply {
    /// The root directory that the request named.
    pub cwd: String,
    /// The resolved patterns that were dropped because they do not compile.
    pub rejected: Vec<String>,
    /// What to do with the watch on `cwd`, or why the request was turned
    /// down.
    pub result: Result<WatchAction, RegisterError>,
    /// The installed roots from which a watch that is installed on `cwd`
    /// takes over. A backend that keeps one watch for each root tears theirs
    /// down once the new watch stands.
    pub absorbed: Vec<String>,
}

/// The answer to a request to unregister that found its subscription.
#[derive(Debug)]
pub struct Unregistered {
    /// The root directory of the subscription that left.
    pub cwd: String,
    /// The root whose watch served the subscription.
    pub root: String,
    /// What to do with the watch on `root`.
    pub action: WatchAction,
}

/// A request to the service.
#[derive(Debug)]
pub enum Request {
    Register(RegisterRequest),
    Unregister(usize),
}

/// The answer to a request.
#[derive(Debug)]
pub enum Reply {
    Register(RegisterReply),
    Unregister(Result<Unregistered, UnregisterError>),
}

/// The answer to a request to unregister, as a mathematical value.
pub open spec fn unregister_view(r: Result<Unregistered, UnregisterError>) -> Result<
    ClosedModel,
    UnregisterError,
> {
    match r {
        Ok(done) => Ok(ClosedModel { cwd: done.cwd@, root: done.root@, action: done.action }),
        Err(e) => Err(e),
    }
}

/// The registry and the watched roots, kept in step.
#[derive(Debug)]
pub struct Service {
    registry: Registry,
    roots: WatchRoots,
}

impl View for Service {
    type V = ServiceModel;

    closed spec fn view(&self) -> ServiceModel {
        ServiceModel { subs: self.registry@, roots: self.roots@ }
    }
}

impl Service {
    /// Whether the value is consistent.
    pub closed spec fn wf(&self) -> bool {
        &&& self.registry.wf()
        &&& self.roots.wf()
        &&& valid(self@)
    }

    /// What holds of the service at all times.
    pub proof fn law_valid(&self)
        requires
            self.wf(),
        ensures
            valid(self@),
    {
    }

    /// A service without subscriptions and without watched roots.
    pub fn new() -> (r: Service)
        ensures
            r.wf(),
            r@.subs == Seq::<ConfigModel>::empty(),
            r@.roots.counts == Map::<Seq<char>, nat>::empty(),
            r@.roots.installed == Seq::<Seq<char>>::empty(),
    {
        let r = Service { registry: Registry::new(), roots: WatchRoots::new() };
        proof {
            r.roots.law_valid();
            assert(r@.roots.counts =~= root_counts(r@.subs));
        }
        r
    }

    /// The active subscriptions.
    pub fn registry(&self) -> (r: &Registry)
        requires
            self.wf(),
        ensures
            r.wf(),
            r@ == self@.subs,
    {
        &self.registry
    }

    /// The watched roots.
    pub fn roots(&self) -> (r: &WatchRoots)
        requires
            self.wf(),
        ensures
            r.wf(),
            r@ == self@.roots,
    {
        &self.roots
    }

    /// Opens a subscription. The request is turned down, and nothing
    /// changes, if its root is not a canonical absolute path or its id is
    /// taken. Otherwise the answer says whether a watch has to be installed on
    /// the root: it has, unless an installed root lies at or above it.
    pub fn register(&mut self, req: RegisterRequest) -> (r: RegisterReply)
        requires
            old(self).wf(),
        ensures
            final(self).wf(),
            (final(self)@, r.result) == register_model(old(self)@, req@),
            r.rejected.deep_view() == rejected_report(req@),
            r.absorbed.deep_view() == absorbed_report(old(self)@, req@),
            r.cwd@ == req@.cwd,
    {
        let cwd = req.cwd.clone();
        let ghost subs = self.registry@;
        let absorbed: Vec<String> = Vec::new();
        assert(absorbed.deep_view() =~= Seq::<Seq<char>>::empty());
        match WatcherConfig::from_request(req) {
            Err(e) => {
                let rejected: Vec<String> = Vec::new();
                assert(rejected.deep_view() =~= Seq::<Seq<char>>::empty());
                RegisterReply { cwd, rejected, result: Err(e), absorbed }
            },
            Ok(compiled) => {
                let Compiled { config, rejected } = compiled;
                let ghost c = config@;
                match self.registry.register(config) {
                    Err(e) => RegisterReply { cwd, rejected, result: Err(e), absorbed },
                    Ok(_) => {
                        let n = self.registry.len();
                        proof {
                            lemma_slot_bounds(subs, c.uid);
                            lemma_standing_bound(subs, c.cwd);
                            lemma_root_counts_inserted(subs, c);
                            self.registry.law_ascending();
                            let k = slot(subs, c.uid);
                            assert forall|i: int|
                                0 <= i < self.registry@.len() implies is_canonical(
                                (#[trigger] self.registry@[i]).cwd,
                            ) by {
                                if i < k {
                                    assert(self.registry@[i] == subs[i]);
                                } else if i > k {
                                    assert(self.registry@[i] == subs[i - 1]);
                                }
                            }
                        }
                        let added = self.roots.add_root(cwd.as_str());
                        proof {
                            self.roots.law_valid();
                        }
                        RegisterReply {
                            cwd,
                            rejected,
                            result: Ok(added.action),
                            absorbed: added.absorbed,
                        }
                    },
                }
            },
        }
    }

    /// Closes the subscription with the id `uid`. If there is none, nothing
    /// changes. Otherwise the answer names the root of the subscription and
    /// the root whose watch served it, and says whether that watch has to be
    /// torn down: it has, once no subscription is left at or below its root.
    pub fn unregister(&mut self, uid: usize) -> (r: Result<Unregistered, UnregisterError>)
        requires
            old(self).wf(),
        ensures
            final(self).wf(),
            (final(self)@, unregister_view(r)) == unregister_model(old(self)@, uid),
    {
        let ghost subs = self.registry@;
        match self.registry.unregister(uid) {
            Err(e) => Err(e),
            Ok(config) => {
                proof {
                    lemma_slot_bounds(subs, uid);
                    lemma_slot_finds(subs, uid);
                    lemma_root_counts_removed(subs, uid);
                    self.registry.law_ascending();
                    let k = slot(subs, uid);
                    assert forall|i: int| 0 <= i < self.registry@.len() implies is_canonical(
                        (#[trigger] self.registry@[i]).cwd,
                    ) by {
                        if i < k {
                            assert(self.registry@[i] == subs[i]);
                        } else {
                            assert(self.registry@[i] == subs[i + 1]);
                        }
                    }
                }
                let removed = self.roots.remove_root(config.cwd());
                proof {
                    self.roots.law_valid();
                }
                Ok(
                    Unregistered {
                        cwd: config.cwd().to_owned(),
                        root: removed.root,
                        action: removed.action,
                    },
                )
            },
        }
    }

    /// Applies one request in full.
    pub fn apply(&mut self, request: Request) -> (r: Reply)
        requires
            old(self).wf(),
        ensures
            final(self).wf(),
            match request {
                Request::Register(req) => r matches Reply::Register(reply) && {
                    &&& (final(self)@, reply.result) == register_model(old(self)@, req@)
                    &&& reply.rejected.deep_view() == rejected_report(req@)
                    &&& reply.absorbed.deep_view() == absorbed_report(old(self)@, req@)
                    &&& reply.cwd@ == req@.cwd
                },
                Request::Unregister(uid) => r matches Reply::Unregister(reply) && (
                final(self)@,
                unregister_view(reply),
                ) == unregister_model(old(self)@, uid),
            },
    {
        match request {
            Request::Register(req) => Reply::Register(self.register(req)),
            Request::Unregister(uid) => Reply::Unregister(self.unregister(uid)),
        }
    }

    /// Handles one debounced batch against the active subscriptions.
    pub fn event_handler(&self, events: &Vec<RawEvent>) -> (out: Vec<String>)
        requires
            self.wf(),
        ensures
            out.deep_view() == batch_output(self@.subs, events.deep_view()),
    {
        crate::dispatch::event_handler(&self.registry, events)
    }
}

} // verus!
