//! Turns one debounced batch into the lines of the output stream.
//!
//! Events are taken in batch order, and for each event the subscriptions in
//! ascending order of their ids. A batch that produced a line is closed by
//! the flush mark; a batch that produced none writes nothing at all.

use crate::config::{delivery, ConfigModel, WatcherConfig};
use crate::event::{CanonicalEvent, EventModel, RawEvent, RawModel};
use crate::normalize::{normalize, normalize_events};
use crate::output::{flush_line, flush_mark, lemma_line_is_not_flush_mark};
use crate::path::{names, relative, split_names};
use crate::registry::Registry;
use vstd::prelude::*;

verus! {

/// The lines that one event produces: one for each subscription that is to
/// hear of it, in the order of the subscriptions.
pub open spec fn lines_for_event(subs: Seq<ConfigModel>, e: EventModel) -> Seq<Seq<char>>
    decreases subs.len(),
{
    if subs.len() == 0 {
        Seq::empty()
    } else {
        match delivery(subs.last(), e) {
            Some(line) => lines_for_event(subs.drop_last(), e).push(line),
            None => lines_for_event(subs.drop_last(), e),
        }
    }
}

/// The lines that a sequence of events produces: those of each event, in the
/// order of the events.
pub open spec fn lines_for_batch(subs: Seq<ConfigModel>, events: Seq<EventModel>) -> Seq<
    Seq<char>,
>
    decreases events.len(),
{
    if events.len() == 0 {
        Seq::empty()
    } else {
        lines_for_batch(subs, events.drop_last()) + lines_for_event(subs, events.last())
    }
}

/// Everything one raw batch writes: the lines of its canonical events and,
/// if there is any line, the flush mark after them.
pub open spec fn batch_output(subs: Seq<ConfigModel>, batch: Seq<RawModel>) -> Seq<Seq<char>> {
    let lines = lines_for_batch(subs, normalize(batch));
    if lines.len() > 0 {
        lines.push(flush_mark())
    } else {
        lines
    }
}

/// No line that an event produces is the flush mark.
pub proof fn lemma_event_lines_are_not_marks(subs: Seq<ConfigModel>, e: EventModel)
    ensures
        forall|i: int|
            0 <= i < lines_for_event(subs, e).len() ==> #[trigger] lines_for_event(subs, e)[i]
                != flush_mark(),
    decreases subs.len(),
{
    if subs.len() > 0 {
        lemma_event_lines_are_not_marks(subs.drop_last(), e);
        let c = subs.last();
        lemma_line_is_not_flush_mark(c.uid, e.kind, relative(e.path, c.cwd));
        let rest = lines_for_event(subs.drop_last(), e);
        let all = lines_for_event(subs, e);
        assert forall|i: int| 0 <= i < all.len() implies #[trigger] all[i] != flush_mark() by {
            if i < rest.len() {
                assert(all[i] == rest[i]);
            }
        }
    }
}

/// No line that a sequence of events produces is the flush mark.
pub proof fn lemma_batch_lines_are_not_marks(subs: Seq<ConfigModel>, events: Seq<EventModel>)
    ensures
        forall|i: int|
            0 <= i < lines_for_batch(subs, events).len() ==> #[trigger] lines_for_batch(
                subs,
                events,
            )[i] != flush_mark(),
    decreases events.len(),
{
    if events.len() > 0 {
        lemma_batch_lines_are_not_marks(subs, events.drop_last());
        lemma_event_lines_are_not_marks(subs, events.last());
        let earlier = lines_for_batch(subs, events.drop_last());
        let last = lines_for_event(subs, events.last());
        let all = lines_for_batch(subs, events);
        assert forall|i: int| 0 <= i < all.len() implies #[trigger] all[i] != flush_mark() by {
            if i < earlier.len() {
                assert(all[i] == earlier[i]);
            } else {
                assert(all[i] == last[i - earlier.len()]);
            }
        }
    }
}

/// Dispatching keeps the order of the events: the lines of `a + b` are those
/// of `a` followed by those of `b`.
pub proof fn law_dispatch_keeps_order(
    subs: Seq<ConfigModel>,
    a: Seq<EventModel>,
    b: Seq<EventModel>,
)
    ensures
        lines_for_batch(subs, a + b) == lines_for_batch(subs, a) + lines_for_batch(subs, b),
    decreases b.len(),
{
    if b.len() == 0 {
        assert(a + b =~= a);
        assert(lines_for_batch(subs, a) + lines_for_batch(subs, b) =~= lines_for_batch(subs, a));
    } else {
        assert((a + b).drop_last() =~= a + b.drop_last());
        assert((a + b).last() == b.last());
        law_dispatch_keeps_order(subs, a, b.drop_last());
        assert((lines_for_batch(subs, a) + lines_for_batch(subs, b.drop_last())) + lines_for_event(
            subs,
            b.last(),
        ) =~= lines_for_batch(subs, a) + (lines_for_batch(subs, b.drop_last()) + lines_for_event(
            subs,
            b.last(),
        )));
    }
}

/// A batch writes either nothing, or its event lines and then the flush mark
/// exactly once, as the last line.
pub proof fn law_flush_discipline(subs: Seq<ConfigModel>, batch: Seq<RawModel>)
    ensures
        ({
            let lines = lines_for_batch(subs, normalize(batch));
            let out = batch_output(subs, batch);
            &&& lines.len() == 0 ==> out.len() == 0
            &&& lines.len() > 0 ==> {
                &&& out.len() == lines.len() + 1
                &&& out.last() == flush_mark()
                &&& forall|i: int| 0 <= i < lines.len() ==> out[i] == lines[i] && #[trigger] out[i]
                    != flush_mark()
            }
        }),
{
    lemma_batch_lines_are_not_marks(subs, normalize(batch));
}

/// The lines that tell the subscriptions of one event.
fn dispatch_event(subs: &Vec<WatcherConfig>, event: &CanonicalEvent, out: &mut Vec<String>)
    requires
        forall|i: int| 0 <= i < subs.len() ==> (#[trigger] subs[i]).wf(),
    ensures
        final(out).deep_view() == old(out).deep_view() + lines_for_event(
            subs.deep_view(),
            event@,
        ),
{
    let ghost start = out.deep_view();
    let ghost all = subs.deep_view();
    let path_names = split_names(event.path.as_str());
    let mut i: usize = 0;
    assert(all.take(0) =~= Seq::<ConfigModel>::empty());
    assert(start + Seq::<Seq<char>>::empty() =~= start);
    while i < subs.len()
        invariant
            i <= subs.len(),
            all == subs.deep_view(),
            path_names.deep_view() == names(event@.path),
            forall|j: int| 0 <= j < subs.len() ==> (#[trigger] subs[j]).wf(),
            out.deep_view() == start + lines_for_event(all.take(i as int), event@),
        decreases subs.len() - i,
    {
        let ghost before = out.deep_view();
        proof {
            assert(all.take(i + 1).drop_last() =~= all.take(i as int));
            assert(all.take(i + 1).last() == subs[i as int]@);
        }
        match subs[i].line_for_names(event, &path_names) {
            Some(line) => {
                out.push(line);
                assert(out.deep_view() =~= before.push(line@));
                assert(before.push(line@) =~= start + lines_for_event(all.take(i as int), event@).push(
                    line@,
                ));
            },
            None => {},
        }
        i += 1;
    }
    assert(all.take(subs.len() as int) =~= all);
}

/// The lines that tell the subscriptions of the given events, without a
/// flush mark.
pub fn dispatch(configs: &Registry, events: &Vec<CanonicalEvent>) -> (out: Vec<String>)
    requires
        configs.wf(),
    ensures
        out.deep_view() == lines_for_batch(configs@, events.deep_view()),
{
    let subs = configs.snapshot();
    let ghost all = events.deep_view();
    let mut out: Vec<String> = Vec::new();
    let mut i: usize = 0;
    assert(all.take(0) =~= Seq::<EventModel>::empty());
    assert(out.deep_view() =~= Seq::<Seq<char>>::empty());
    while i < events.len()
        invariant
            i <= events.len(),
            all == events.deep_view(),
            subs.deep_view() == configs@,
            forall|j: int| 0 <= j < subs.len() ==> (#[trigger] subs[j]).wf(),
            out.deep_view() == lines_for_batch(configs@, all.take(i as int)),
        decreases events.len() - i,
    {
        proof {
            assert(all.take(i + 1).drop_last() =~= all.take(i as int));
            assert(all.take(i + 1).last() == events[i as int]@);
        }
        dispatch_event(subs, &events[i], &mut out);
        i += 1;
    }
    assert(all.take(events.len() as int) =~= all);
    out
}

/// Handles one debounced batch: normalizes it, tells each subscription of
/// the events it is to hear of, and closes the batch with the flush mark if
/// anything was written. The caller writes the lines as they come and
/// flushes its output if there is any.
pub fn event_handler(configs: &Registry, events: &Vec<RawEvent>) -> (out: Vec<String>)
    requires
        configs.wf(),
    ensures
        out.deep_view() == batch_output(configs@, events.deep_view()),
{
    let canonical = normalize_events(events);
    let mut out = dispatch(configs, &canonical);
    if out.len() > 0 {
        let ghost lines = out.deep_view();
        out.push(flush_line());
        assert(out.deep_view() =~= lines.push(flush_mark()));
    }
    out
}

} // verus!
