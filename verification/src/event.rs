//! Event vocabulary: the raw kinds a watch backend reports and the canonical
//! kinds delivered to subscriptions.

use vstd::prelude::*;

verus! {

/// Kind of a canonical event, and the unit of a subscription's event mask.
#[derive(Clone, Copy, PartialEq, Eq, Structural, Debug)]
pub enum EventType {
    Create,
    Change,
    Delete,
}

impl EventType {
    /// The word that stands for this kind on the output stream.
    pub open spec fn spec_name(self) -> Seq<char> {
        match self {
            EventType::Create => seq!['c', 'r', 'e', 'a', 't', 'e'],
            EventType::Change => seq!['c', 'h', 'a', 'n', 'g', 'e'],
            EventType::Delete => seq!['d', 'e', 'l', 'e', 't', 'e'],
        }
    }

    /// Returns `create`, `change` or `delete`.
    pub fn name(&self) -> (r: &'static str)
        ensures
            r@ == self.spec_name(),
    {
        proof {
            reveal_strlit("create");
            reveal_strlit("change");
            reveal_strlit("delete");
        }
        let r = match self {
            EventType::Create => "create",
            EventType::Change => "change",
            EventType::Delete => "delete",
        };
        assert(r@ =~= self.spec_name());
        r
    }
}

/// What a watch backend reports: the kind of change and the absolute path it
/// happened at. A rename of which both ends were seen carries the old path,
/// then the new one.
#[derive(Debug)]
pub enum RawEvent {
    Create(String),
    Modify(String),
    Remove(String),
    RenameFrom(String),
    RenameTo(String),
    RenameBoth(String, String),
    Other(String),
}

/// Mathematical value of a [`RawEvent`].
pub enum RawModel {
    Create(Seq<char>),
    Modify(Seq<char>),
    Remove(Seq<char>),
    RenameFrom(Seq<char>),
    RenameTo(Seq<char>),
    RenameBoth(Seq<char>, Seq<char>),
    Other(Seq<char>),
}

impl View for RawEvent {
    type V = RawModel;

    open spec fn view(&self) -> RawModel {
        match self {
            RawEvent::Create(p) => RawModel::Create(p@),
            RawEvent::Modify(p) => RawModel::Modify(p@),
            RawEvent::Remove(p) => RawModel::Remove(p@),
            RawEvent::RenameFrom(p) => RawModel::RenameFrom(p@),
            RawEvent::RenameTo(p) => RawModel::RenameTo(p@),
            RawEvent::RenameBoth(from, to) => RawModel::RenameBoth(from@, to@),
            RawEvent::Other(p) => RawModel::Other(p@),
        }
    }
}

impl Clone for RawEvent {
    fn clone(&self) -> (r: RawEvent)
        ensures
            r@ == self@,
    {
        match self {
            RawEvent::Create(p) => RawEvent::Create(p.clone()),
            RawEvent::Modify(p) => RawEvent::Modify(p.clone()),
            RawEvent::Remove(p) => RawEvent::Remove(p.clone()),
            RawEvent::RenameFrom(p) => RawEvent::RenameFrom(p.clone()),
            RawEvent::RenameTo(p) => RawEvent::RenameTo(p.clone()),
            RawEvent::RenameBoth(from, to) => RawEvent::RenameBoth(from.clone(), to.clone()),
            RawEvent::Other(p) => RawEvent::Other(p.clone()),
        }
    }
}

impl DeepView for RawEvent {
    type V = RawModel;

    open spec fn deep_view(&self) -> RawModel {
        self@
    }
}

/// The unit delivered to subscriptions: a kind and an absolute path.
#[derive(Debug)]
pub struct CanonicalEvent {
    pub kind: EventType,
    pub path: String,
}

/// Mathematical value of a [`CanonicalEvent`].
pub struct EventModel {
    pub kind: EventType,
    pub path: Seq<char>,
}

impl View for CanonicalEvent {
    type V = EventModel;

    open spec fn view(&self) -> EventModel {
        EventModel { kind: self.kind, path: self.path@ }
    }
}

impl Clone for CanonicalEvent {
    fn clone(&self) -> (r: CanonicalEvent)
        ensures
            r@ == self@,
    {
        CanonicalEvent { kind: self.kind, path: self.path.clone() }
    }
}

impl DeepView for CanonicalEvent {
    type V = EventModel;

    open spec fn deep_view(&self) -> EventModel {
        self@
    }
}

/// The kind tag of what a watch backend reports.
#[derive(Clone, Copy, PartialEq, Eq, Structural, Debug)]
pub enum RawKind {
    Create,
    Modify,
    Remove,
    RenameFrom,
    RenameTo,
    RenameBoth,
    Other,
}

/// The raw event of the given kind at one path. A rename seen at both ends
/// needs two paths: one path alone stands for nothing that is delivered.
pub open spec fn raw_event_at(kind: RawKind, path: Seq<char>) -> RawModel {
    match kind {
        RawKind::Create => RawModel::Create(path),
        RawKind::Modify => RawModel::Modify(path),
        RawKind::Remove => RawModel::Remove(path),
        RawKind::RenameFrom => RawModel::RenameFrom(path),
        RawKind::RenameTo => RawModel::RenameTo(path),
        RawKind::RenameBoth => RawModel::Other(path),
        RawKind::Other => RawModel::Other(path),
    }
}

/// The raw events that one report of the backend stands for, which carries a
/// kind and a list of paths: a rename seen at both ends is one event and
/// must carry exactly the old path and the new one; a report of any other
/// kind stands for one event at each of its paths.
pub open spec fn raw_events(kind: RawKind, paths: Seq<Seq<char>>) -> Option<Seq<RawModel>> {
    if kind == RawKind::RenameBoth {
        if paths.len() == 2 {
            Some(seq![RawModel::RenameBoth(paths[0], paths[1])])
        } else {
            None
        }
    } else {
        Some(Seq::new(paths.len(), |i: int| raw_event_at(kind, paths[i])))
    }
}

/// The raw events that one report of the backend stands for, or `None` for a
/// rename seen at both ends that does not carry exactly two paths.
pub fn raw_events_of(kind: RawKind, paths: &Vec<String>) -> (r: Option<Vec<RawEvent>>)
    ensures
        match r {
            Some(events) => raw_events(kind, paths.deep_view()) == Some(events.deep_view()),
            None => raw_events(kind, paths.deep_view()) is None,
        },
{
    let mut out: Vec<RawEvent> = Vec::new();
    if kind == RawKind::RenameBoth {
        if paths.len() != 2 {
            return None;
        }
        out.push(RawEvent::RenameBoth(paths[0].clone(), paths[1].clone()));
        assert(out.deep_view() =~= seq![
            RawModel::RenameBoth(paths.deep_view()[0], paths.deep_view()[1]),
        ]);
        return Some(out);
    }
    let mut i: usize = 0;
    while i < paths.len()
        invariant
            i <= paths.len(),
            kind != RawKind::RenameBoth,
            out.len() == i,
            forall|j: int| 0 <= j < i ==> (#[trigger] out[j])@ == raw_event_at(kind, paths[j]@),
        decreases paths.len() - i,
    {
        let path = paths[i].clone();
        let event = match kind {
            RawKind::Create => RawEvent::Create(path),
            RawKind::Modify => RawEvent::Modify(path),
            RawKind::Remove => RawEvent::Remove(path),
            RawKind::RenameFrom => RawEvent::RenameFrom(path),
            RawKind::RenameTo => RawEvent::RenameTo(path),
            RawKind::RenameBoth => RawEvent::Other(path),
            RawKind::Other => RawEvent::Other(path),
        };
        out.push(event);
        i += 1;
    }
    assert(out.deep_view() =~= Seq::new(
        paths.deep_view().len(),
        |i: int| raw_event_at(kind, paths.deep_view()[i]),
    ));
    Some(out)
}

} // verus!
