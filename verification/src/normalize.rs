//! Rewrites a raw batch into canonical events.
//!
//! Renames are the only raw kind without a canonical counterpart. Each is
//! replaced, in place, by the deletions and creations it stands for.

use crate::event::{CanonicalEvent, EventModel, EventType, RawEvent, RawModel};
use vstd::prelude::*;

verus! {

/// The canonical events that one raw event stands for.
pub open spec fn normalize_one(e: RawModel) -> Seq<EventModel> {
    match e {
        RawModel::Create(p) => seq![EventModel { kind: EventType::Create, path: p }],
        RawModel::Modify(p) => seq![EventModel { kind: EventType::Change, path: p }],
        RawModel::Remove(p) => seq![EventModel { kind: EventType::Delete, path: p }],
        RawModel::RenameFrom(p) => seq![EventModel { kind: EventType::Delete, path: p }],
        RawModel::RenameTo(p) => seq![
            EventModel { kind: EventType::Create, path: p },
            EventModel { kind: EventType::Change, path: p },
        ],
        RawModel::RenameBoth(from, to) => seq![
            EventModel { kind: EventType::Delete, path: from },
            EventModel { kind: EventType::Create, path: to },
        ],
        RawModel::Other(_) => Seq::empty(),
    }
}

/// The canonical events of a batch: those of each raw event, in batch order.
pub open spec fn normalize(batch: Seq<RawModel>) -> Seq<EventModel>
    decreases batch.len(),
{
    if batch.len() == 0 {
        Seq::empty()
    } else {
        normalize(batch.drop_last()) + normalize_one(batch.last())
    }
}

/// Normalizing keeps batch order: the events of `a + b` are those of `a`
/// followed by those of `b`.
pub proof fn law_normalize_keeps_order(a: Seq<RawModel>, b: Seq<RawModel>)
    ensures
        normalize(a + b) == normalize(a) + normalize(b),
    decreases b.len(),
{
    if b.len() == 0 {
        assert(a + b =~= a);
        assert(normalize(a) + normalize(b) =~= normalize(a));
    } else {
        assert((a + b).drop_last() =~= a + b.drop_last());
        assert((a + b).last() == b.last());
        law_normalize_keeps_order(a, b.drop_last());
        assert((normalize(a) + normalize(b.drop_last())) + normalize_one(b.last()) =~= normalize(a)
            + (normalize(b.drop_last()) + normalize_one(b.last())));
    }
}

/// A batch of one raw event normalizes to what that event stands for.
pub proof fn law_batch_of_one(e: RawModel)
    ensures
        normalize(seq![e]) == normalize_one(e),
{
    assert(seq![e].drop_last() =~= Seq::<RawModel>::empty());
    assert(normalize(Seq::<RawModel>::empty()) + normalize_one(e) =~= normalize_one(e));
}

/// Rewrites a raw batch into canonical events, keeping batch order.
pub fn normalize_events(events: &Vec<RawEvent>) -> (out: Vec<CanonicalEvent>)
    ensures
        out.deep_view() == normalize(events.deep_view()),
{
    let mut out: Vec<CanonicalEvent> = Vec::new();
    let mut i: usize = 0;
    assert(events.deep_view().take(0) =~= Seq::<RawModel>::empty());
    assert(out.deep_view() =~= Seq::<EventModel>::empty());
    while i < events.len()
        invariant
            i <= events.len(),
            out.deep_view() == normalize(events.deep_view().take(i as int)),
        decreases events.len() - i,
    {
        let ghost before = out.deep_view();
        let ghost raw = events.deep_view();
        proof {
            assert(raw.take(i + 1).drop_last() =~= raw.take(i as int));
            assert(raw.take(i + 1).last() == events[i as int]@);
        }
        match &events[i] {
            RawEvent::Create(p) => {
                out.push(CanonicalEvent { kind: EventType::Create, path: p.clone() });
            },
            RawEvent::Modify(p) => {
                out.push(CanonicalEvent { kind: EventType::Change, path: p.clone() });
            },
            RawEvent::Remove(p) => {
                out.push(CanonicalEvent { kind: EventType::Delete, path: p.clone() });
            },
            RawEvent::RenameFrom(p) => {
                out.push(CanonicalEvent { kind: EventType::Delete, path: p.clone() });
            },
            RawEvent::RenameTo(p) => {
                out.push(CanonicalEvent { kind: EventType::Create, path: p.clone() });
                out.push(CanonicalEvent { kind: EventType::Change, path: p.clone() });
            },
            RawEvent::RenameBoth(from, to) => {
                out.push(CanonicalEvent { kind: EventType::Delete, path: from.clone() });
                out.push(CanonicalEvent { kind: EventType::Create, path: to.clone() });
            },
            RawEvent::Other(_) => {},
        }
        assert(out.deep_view() =~= before + normalize_one(events[i as int]@));
        i += 1;
    }
    assert(events.deep_view().take(events.len() as int) =~= events.deep_view());
    out
}

} // verus!
