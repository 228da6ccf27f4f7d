//! A subscription: whose events it wants, below which directory, and which
//! paths it lets through.

use crate::event::{CanonicalEvent, EventModel, EventType};
use crate::output::{decimal, decimal_string, event_line, line_text};
use crate::path::{
    check_canonical, is_canonical, is_within, join_tail, names, names_start_with, relative,
    resolve, resolve_pattern, split_names,
};
use crate::pattern::{
    any_glob_matches, compile_glob, glob_text, glob_texts, glob_valid, matches_any, pattern_str,
};
use vstd::prelude::*;

verus! {

/// A request to open a subscription. `cwd` is the subscription's root
/// directory; the patterns are read from that directory.
#[derive(Debug)]
pub struct RegisterRequest {
    pub cwd: String,
    pub events: Vec<EventType>,
    pub ignores: Vec<String>,
    pub patterns: Vec<String>,
    pub uid: usize,
}

/// Mathematical value of a [`RegisterRequest`].
pub struct RequestModel {
    pub cwd: Seq<char>,
    pub events: Seq<EventType>,
    pub ignores: Seq<Seq<char>>,
    pub patterns: Seq<Seq<char>>,
    pub uid: usize,
}

impl View for RegisterRequest {
    type V = RequestModel;

    open spec fn view(&self) -> RequestModel {
        RequestModel {
            cwd: self.cwd@,
            events: self.events@,
            ignores: self.ignores.deep_view(),
            patterns: self.patterns.deep_view(),
            uid: self.uid,
        }
    }
}

/// Why a subscription was not opened.
#[derive(Clone, Copy, PartialEq, Eq, Structural, Debug)]
pub enum RegisterError {
    /// The root directory is not written as a canonical absolute path.
    InvalidRoot,
    /// Another subscription holds the id.
    DuplicateId,
}

impl RegisterError {
    /// What the diagnostic stream is told when the request of subscription
    /// `uid` is turned down.
    pub open spec fn spec_message(self, uid: usize) -> Seq<char> {
        match self {
            RegisterError::InvalidRoot => "watcher with ID "@ + decimal(uid as nat)
                + " has no canonical root directory"@,
            RegisterError::DuplicateId => "watcher with ID "@ + decimal(uid as nat)
                + " already exists"@,
        }
    }

    /// The diagnostic for a request of subscription `uid` that was turned
    /// down.
    pub fn message(&self, uid: usize) -> (r: String)
        ensures
            r@ == self.spec_message(uid),
    {
        let mut r = String::from_str("watcher with ID ");
        r.append(decimal_string(uid).as_str());
        match self {
            RegisterError::InvalidRoot => r.append(" has no canonical root directory"),
            RegisterError::DuplicateId => r.append(" already exists"),
        }
        r
    }
}

/// Mathematical value of a [`WatcherConfig`].
pub struct ConfigModel {
    /// The subscription's id.
    pub uid: usize,
    /// The root directory.
    pub cwd: Seq<char>,
    /// The kinds of event the subscription wants.
    pub events: Seq<EventType>,
    /// Texts of the patterns that shut a path out.
    pub ignores: Seq<Seq<char>>,
    /// Texts of the patterns that let a path in.
    pub patterns: Seq<Seq<char>>,
    /// Names of the literal paths below which every path is let in.
    pub prefixes: Seq<Seq<Seq<char>>>,
}

/// The given patterns, each resolved from `cwd`.
pub open spec fn resolve_all(cwd: Seq<char>, patterns: Seq<Seq<char>>) -> Seq<Seq<char>> {
    Seq::new(patterns.len(), |i: int| resolve(cwd, patterns[i]))
}

/// The names of each of the given paths.
pub open spec fn names_of_all(paths: Seq<Seq<char>>) -> Seq<Seq<Seq<char>>> {
    Seq::new(paths.len(), |i: int| names(paths[i]))
}

/// Those of the texts that compile as patterns, in order.
pub open spec fn valid_globs(texts: Seq<Seq<char>>) -> Seq<Seq<char>>
    decreases texts.len(),
{
    if texts.len() == 0 {
        Seq::empty()
    } else if glob_valid(texts.last()) {
        valid_globs(texts.drop_last()).push(texts.last())
    } else {
        valid_globs(texts.drop_last())
    }
}

/// Those of the texts that do not compile as patterns, in order.
pub open spec fn invalid_globs(texts: Seq<Seq<char>>) -> Seq<Seq<char>>
    decreases texts.len(),
{
    if texts.len() == 0 {
        Seq::empty()
    } else if glob_valid(texts.last()) {
        invalid_globs(texts.drop_last())
    } else {
        invalid_globs(texts.drop_last()).push(texts.last())
    }
}

/// The subscription that a request asks for. Every include pattern counts
/// twice: as a pattern, if it compiles, and as a literal path below which
/// everything is let in.
pub open spec fn compile(req: RequestModel) -> ConfigModel {
    ConfigModel {
        uid: req.uid,
        cwd: req.cwd,
        events: req.events,
        ignores: valid_globs(resolve_all(req.cwd, req.ignores)),
        patterns: valid_globs(resolve_all(req.cwd, req.patterns)),
        prefixes: names_of_all(resolve_all(req.cwd, req.patterns)),
    }
}

/// The resolved patterns of a request that do not compile: include patterns
/// first, then ignore patterns.
pub open spec fn rejected(req: RequestModel) -> Seq<Seq<char>> {
    invalid_globs(resolve_all(req.cwd, req.patterns)) + invalid_globs(
        resolve_all(req.cwd, req.ignores),
    )
}

/// Whether the path lies at or below one of the literal paths.
pub open spec fn any_prefix_holds(prefixes: Seq<Seq<Seq<char>>>, path: Seq<char>) -> bool {
    exists|i: int| 0 <= i < prefixes.len() && (#[trigger] prefixes[i]).is_prefix_of(names(path))
}

/// The filter rule. A path is let through if an include pattern matched it
/// or a literal path holds it, unless an ignore pattern matched it: ignoring
/// comes first.
pub open spec fn lets_through(matched: bool, held: bool, ignored: bool) -> bool {
    (matched || held) && !ignored
}

/// Whether the subscription lets the path through.
pub open spec fn accepts(c: ConfigModel, path: Seq<char>) -> bool {
    lets_through(
        any_glob_matches(c.patterns, path),
        any_prefix_holds(c.prefixes, path),
        any_glob_matches(c.ignores, path),
    )
}

/// The output line that tells the subscription of the event, if the
/// subscription is to hear of it, given what its patterns said of the path:
/// whether an include pattern matched, and whether an ignore pattern did. The
/// subscription hears of the event if it wants the kind, the filter rule lets
/// the path through, and the path lies within its root.
pub open spec fn delivery_given(c: ConfigModel, e: EventModel, matched: bool, ignored: bool)
    -> Option<Seq<char>> {
    if c.events.contains(e.kind) && lets_through(
        matched,
        any_prefix_holds(c.prefixes, e.path),
        ignored,
    ) && is_within(e.path, c.cwd) {
        Some(line_text(c.uid, e.kind, relative(e.path, c.cwd)))
    } else {
        None
    }
}

/// The output line that tells the subscription of the event, if the
/// subscription is to hear of it.
pub open spec fn delivery(c: ConfigModel, e: EventModel) -> Option<Seq<char>> {
    delivery_given(
        c,
        e,
        any_glob_matches(c.patterns, e.path),
        any_glob_matches(c.ignores, e.path),
    )
}

/// A subscription, with its patterns compiled.
#[derive(Debug)]
pub struct WatcherConfig {
    uid: usize,
    cwd: String,
    cwd_names: Vec<String>,
    events: Vec<EventType>,
    ignores: Vec<glob::Pattern>,
    patterns: Vec<glob::Pattern>,
    prefixes: Vec<Vec<String>>,
}

/// A compiled subscription, and the resolved patterns that were dropped
/// because they do not compile.
#[derive(Debug)]
pub struct Compiled {
    pub config: WatcherConfig,
    pub rejected: Vec<String>,
}

/// The patterns of one list, each resolved from `cwd`.
fn resolve_list(cwd: &str, raw: &Vec<String>) -> (out: Vec<String>)
    ensures
        out.deep_view() == resolve_all(cwd@, raw.deep_view()),
{
    let mut out: Vec<String> = Vec::new();
    let mut i: usize = 0;
    while i < raw.len()
        invariant
            i <= raw.len(),
            out.len() == i,
            forall|j: int| 0 <= j < i ==> (#[trigger] out[j])@ == resolve(cwd@, raw[j]@),
        decreases raw.len() - i,
    {
        out.push(resolve_pattern(cwd, raw[i].as_str()));
        i += 1;
    }
    assert(out.deep_view() =~= resolve_all(cwd@, raw.deep_view()));
    out
}

/// The names of each of the given paths.
fn split_list(texts: &Vec<String>) -> (out: Vec<Vec<String>>)
    ensures
        out.deep_view() == names_of_all(texts.deep_view()),
{
    let mut out: Vec<Vec<String>> = Vec::new();
    let mut i: usize = 0;
    while i < texts.len()
        invariant
            i <= texts.len(),
            out.len() == i,
            forall|j: int| 0 <= j < i ==> (#[trigger] out[j]).deep_view() == names(texts[j]@),
        decreases texts.len() - i,
    {
        out.push(split_names(texts[i].as_str()));
        i += 1;
    }
    assert(out.deep_view() =~= names_of_all(texts.deep_view()));
    out
}

/// Files the outcome of compiling `text`: a compiled pattern joins `kept`,
/// and where compiling failed the text joins `rejected`.
pub fn take_compiled(
    text: &String,
    outcome: Result<glob::Pattern, glob::PatternError>,
    kept: &mut Vec<glob::Pattern>,
    rejected: &mut Vec<String>,
)
    ensures
        match outcome {
            Ok(p) => {
                &&& final(kept)@ == old(kept)@.push(p)
                &&& final(rejected).deep_view() == old(rejected).deep_view()
            },
            Err(_) => {
                &&& final(kept)@ == old(kept)@
                &&& final(rejected).deep_view() == old(rejected).deep_view().push(text@)
            },
        },
{
    let ghost dropped = rejected.deep_view();
    match outcome {
        Ok(p) => {
            kept.push(p);
        },
        Err(_) => {
            rejected.push(text.clone());
            assert(rejected.deep_view() =~= dropped.push(text@));
        },
    }
}

/// Compiles the given texts as patterns. Those that do not compile are
/// appended to `rejected`.
fn compile_list(texts: &Vec<String>, rejected: &mut Vec<String>) -> (out: Vec<glob::Pattern>)
    ensures
        glob_texts(out@) == valid_globs(texts.deep_view()),
        final(rejected).deep_view() == old(rejected).deep_view() + invalid_globs(
            texts.deep_view(),
        ),
{
    let ghost all = texts.deep_view();
    let ghost start = rejected.deep_view();
    let mut out: Vec<glob::Pattern> = Vec::new();
    let mut i: usize = 0;
    assert(all.take(0) =~= Seq::<Seq<char>>::empty());
    assert(glob_texts(out@) =~= Seq::<Seq<char>>::empty());
    assert(start + Seq::<Seq<char>>::empty() =~= start);
    while i < texts.len()
        invariant
            i <= texts.len(),
            all == texts.deep_view(),
            glob_texts(out@) == valid_globs(all.take(i as int)),
            rejected.deep_view() == start + invalid_globs(all.take(i as int)),
        decreases texts.len() - i,
    {
        let ghost compiled = glob_texts(out@);
        let ghost dropped = rejected.deep_view();
        proof {
            assert(all.take(i + 1).drop_last() =~= all.take(i as int));
            assert(all.take(i + 1).last() == texts[i as int]@);
        }
        let outcome = compile_glob(texts[i].as_str());
        take_compiled(&texts[i], outcome, &mut out, rejected);
        proof {
            if glob_valid(texts[i as int]@) {
                assert(glob_texts(out@) =~= compiled.push(texts[i as int]@));
            } else {
                assert(dropped.push(texts[i as int]@) =~= start + invalid_globs(
                    all.take(i as int),
                ).push(texts[i as int]@));
            }
        }
        i += 1;
    }
    assert(all.take(texts.len() as int) =~= all);
    out
}

/// Whether one of the literal paths holds the path with the given names.
fn any_prefix(prefixes: &Vec<Vec<String>>, path_names: &Vec<String>) -> (r: bool)
    ensures
        r == exists|i: int|
            0 <= i < prefixes.len() && (#[trigger] prefixes.deep_view()[i]).is_prefix_of(
                path_names.deep_view(),
            ),
{
    let mut i: usize = 0;
    while i < prefixes.len()
        invariant
            i <= prefixes.len(),
            forall|j: int|
                0 <= j < i ==> !(#[trigger] prefixes.deep_view()[j]).is_prefix_of(
                    path_names.deep_view(),
                ),
        decreases prefixes.len() - i,
    {
        if names_start_with(path_names, &prefixes[i]) {
            assert(prefixes.deep_view()[i as int] == prefixes[i as int].deep_view());
            return true;
        }
        assert(prefixes.deep_view()[i as int] == prefixes[i as int].deep_view());
        i += 1;
    }
    false
}

impl View for WatcherConfig {
    type V = ConfigModel;

    closed spec fn view(&self) -> ConfigModel {
        ConfigModel {
            uid: self.uid,
            cwd: self.cwd@,
            events: self.events@,
            ignores: glob_texts(self.ignores@),
            patterns: glob_texts(self.patterns@),
            prefixes: self.prefixes.deep_view(),
        }
    }
}

impl DeepView for WatcherConfig {
    type V = ConfigModel;

    open spec fn deep_view(&self) -> ConfigModel {
        self@
    }
}

impl WatcherConfig {
    /// Whether the value is consistent: the root is canonical and its names
    /// are at hand.
    pub closed spec fn wf(&self) -> bool {
        &&& is_canonical(self.cwd@)
        &&& self.cwd_names.deep_view() == names(self.cwd@)
    }

    /// The root of a subscription is a canonical absolute path.
    pub proof fn law_root_is_canonical(&self)
        requires
            self.wf(),
        ensures
            is_canonical(self@.cwd),
    {
    }

    /// Compiles the subscription that `req` asks for. Fails if the root is not
    /// a canonical absolute path. A pattern that does not compile is dropped
    /// and reported, and the subscription stands without it.
    pub fn from_request(req: RegisterRequest) -> (r: Result<Compiled, RegisterError>)
        ensures
            match r {
                Ok(c) => {
                    &&& is_canonical(req@.cwd)
                    &&& c.config.wf()
                    &&& c.config@ == compile(req@)
                    &&& c.rejected.deep_view() == rejected(req@)
                },
                Err(e) => e == RegisterError::InvalidRoot && !is_canonical(req@.cwd),
            },
    {
        if !check_canonical(req.cwd.as_str()) {
            return Err(RegisterError::InvalidRoot);
        }
        let mut dropped: Vec<String> = Vec::new();
        assert(dropped.deep_view() =~= Seq::<Seq<char>>::empty());
        let include_texts = resolve_list(req.cwd.as_str(), &req.patterns);
        let ignore_texts = resolve_list(req.cwd.as_str(), &req.ignores);
        let prefixes = split_list(&include_texts);
        let patterns = compile_list(&include_texts, &mut dropped);
        let ignores = compile_list(&ignore_texts, &mut dropped);
        let cwd_names = split_names(req.cwd.as_str());
        assert(dropped.deep_view() =~= rejected(req@));
        let config = WatcherConfig {
            uid: req.uid,
            cwd: req.cwd,
            cwd_names,
            events: req.events,
            ignores,
            patterns,
            prefixes,
        };
        Ok(Compiled { config, rejected: dropped })
    }

    /// The subscription's id.
    pub fn uid(&self) -> (r: usize)
        ensures
            r == self@.uid,
    {
        self.uid
    }

    /// The subscription's root directory.
    pub fn cwd(&self) -> (r: &str)
        ensures
            r@ == self@.cwd,
    {
        self.cwd.as_str()
    }

    /// The kinds of event the subscription wants.
    pub fn events(&self) -> (r: &Vec<EventType>)
        ensures
            r@ == self@.events,
    {
        &self.events
    }

    /// The texts of the include patterns that compiled.
    pub fn patterns(&self) -> (r: Vec<String>)
        ensures
            r.deep_view() == self@.patterns,
    {
        pattern_texts(&self.patterns)
    }

    /// The texts of the ignore patterns that compiled.
    pub fn ignores(&self) -> (r: Vec<String>)
        ensures
            r.deep_view() == self@.ignores,
    {
        pattern_texts(&self.ignores)
    }

    /// Whether the subscription wants events of this kind.
    pub fn wants(&self, kind: EventType) -> (r: bool)
        ensures
            r == self@.events.contains(kind),
    {
        let mut i: usize = 0;
        while i < self.events.len()
            invariant
                i <= self.events.len(),
                forall|j: int| 0 <= j < i ==> self.events@[j] != kind,
            decreases self.events.len() - i,
        {
            if self.events[i] == kind {
                return true;
            }
            i += 1;
        }
        false
    }

    /// Whether the subscription lets the path through.
    pub fn accepts(&self, path: &str) -> (r: bool)
        ensures
            r == accepts(self@, path@),
    {
        let ignored = matches_any(&self.ignores, path);
        let matched = !ignored && matches_any(&self.patterns, path);
        let path_names = split_names(path);
        self.verdict_names(&path_names, matched, ignored)
    }

    /// Whether the subscription lets the path through, given what its
    /// patterns said of the path: whether an include pattern matched, and
    /// whether an ignore pattern did.
    pub fn verdict(&self, path: &str, matched: bool, ignored: bool) -> (r: bool)
        ensures
            r == lets_through(matched, any_prefix_holds(self@.prefixes, path@), ignored),
    {
        let path_names = split_names(path);
        self.verdict_names(&path_names, matched, ignored)
    }

    fn verdict_names(&self, path_names: &Vec<String>, matched: bool, ignored: bool) -> (r: bool)
        ensures
            r == lets_through(
                matched,
                exists|i: int|
                    0 <= i < self@.prefixes.len() && (#[trigger] self@.prefixes[i]).is_prefix_of(
                        path_names.deep_view(),
                    ),
                ignored,
            ),
    {
        assert(self@.prefixes == self.prefixes.deep_view());
        if ignored {
            false
        } else if matched {
            true
        } else {
            any_prefix(&self.prefixes, path_names)
        }
    }

    /// The output line that tells this subscription of the event, if the
    /// subscription is to hear of it.
    pub fn line_for(&self, event: &CanonicalEvent) -> (r: Option<String>)
        requires
            self.wf(),
        ensures
            match r {
                Some(line) => delivery(self@, event@) == Some(line@),
                None => delivery(self@, event@) is None,
            },
    {
        let path_names = split_names(event.path.as_str());
        self.line_for_names(event, &path_names)
    }

    /// As [`WatcherConfig::line_for`], for a caller that has split the path of
    /// the event already.
    pub(crate) fn line_for_names(&self, event: &CanonicalEvent, path_names: &Vec<String>) -> (r:
        Option<String>)
        requires
            self.wf(),
            path_names.deep_view() == names(event@.path),
        ensures
            match r {
                Some(line) => delivery(self@, event@) == Some(line@),
                None => delivery(self@, event@) is None,
            },
    {
        if !self.wants(event.kind) {
            return None;
        }
        let ignored = matches_any(&self.ignores, event.path.as_str());
        let matched = !ignored && matches_any(&self.patterns, event.path.as_str());
        self.line_given_names(event, path_names, matched, ignored)
    }

    /// The output line that tells this subscription of the event, if the
    /// subscription is to hear of it, given what its patterns said of the
    /// path of the event: whether an include pattern matched, and whether an
    /// ignore pattern did.
    pub fn line_given(&self, event: &CanonicalEvent, matched: bool, ignored: bool) -> (r: Option<
        String,
    >)
        requires
            self.wf(),
        ensures
            match r {
                Some(line) => delivery_given(self@, event@, matched, ignored) == Some(line@),
                None => delivery_given(self@, event@, matched, ignored) is None,
            },
    {
        let path_names = split_names(event.path.as_str());
        self.line_given_names(event, &path_names, matched, ignored)
    }

    fn line_given_names(
        &self,
        event: &CanonicalEvent,
        path_names: &Vec<String>,
        matched: bool,
        ignored: bool,
    ) -> (r: Option<String>)
        requires
            self.wf(),
            path_names.deep_view() == names(event@.path),
        ensures
            match r {
                Some(line) => delivery_given(self@, event@, matched, ignored) == Some(line@),
                None => delivery_given(self@, event@, matched, ignored) is None,
            },
    {
        if !self.wants(event.kind) {
            return None;
        }
        if !self.verdict_names(path_names, matched, ignored) {
            return None;
        }
        if !names_start_with(path_names, &self.cwd_names) {
            return None;
        }
        let rel = join_tail(path_names, self.cwd_names.len());
        Some(event_line(self.uid, event.kind, rel.as_str()))
    }
}

/// The texts of compiled patterns, in order.
fn pattern_texts(patterns: &Vec<glob::Pattern>) -> (r: Vec<String>)
    ensures
        r.deep_view() == glob_texts(patterns@),
{
    let mut r: Vec<String> = Vec::new();
    let mut i: usize = 0;
    while i < patterns.len()
        invariant
            i <= patterns.len(),
            r.len() == i,
            forall|j: int| 0 <= j < i ==> (#[trigger] r[j])@ == glob_text(patterns[j]),
        decreases patterns.len() - i,
    {
        r.push(pattern_str(&patterns[i]).to_owned());
        i += 1;
    }
    assert(r.deep_view() =~= glob_texts(patterns@));
    r
}

} // verus!
