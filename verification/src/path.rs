//! Paths as sequences of names.
//!
//! A path is a text whose names are separated by `/`. Empty names and the
//! name `.` carry no meaning and are skipped, so `/a//b/./c/` and `/a/b/c`
//! have the same names. Containment and relative paths are defined on names,
//! never on raw text: `/a/bc` is not inside `/a/b`.

use vstd::prelude::*;

verus! {

/// Length of the leading run of `s` that holds no separator.
pub open spec fn head_len(s: Seq<char>) -> nat
    decreases s.len(),
{
    if s.len() == 0 || s[0] == '/' {
        0
    } else {
        1 + head_len(s.skip(1))
    }
}

/// Whether a run between separators counts as a name.
pub open spec fn keeps_name(run: Seq<char>) -> bool {
    run.len() > 0 && run != seq!['.']
}

/// The names of a path, in order.
pub open spec fn names(s: Seq<char>) -> Seq<Seq<char>>
    decreases s.len(),
{
    if s.len() == 0 {
        Seq::empty()
    } else {
        let k = head_len(s) as int;
        let rest = if k < s.len() {
            names(s.skip(k + 1))
        } else {
            Seq::empty()
        };
        if keeps_name(s.take(k)) {
            seq![s.take(k)] + rest
        } else {
            rest
        }
    }
}

/// The given names with one separator between neighbours.
pub open spec fn join_names(ns: Seq<Seq<char>>) -> Seq<char>
    decreases ns.len(),
{
    if ns.len() == 0 {
        Seq::empty()
    } else if ns.len() == 1 {
        ns[0]
    } else {
        join_names(ns.drop_last()) + seq!['/'] + ns.last()
    }
}

/// Whether `path` is `base` itself or lies below it.
pub open spec fn is_within(path: Seq<char>, base: Seq<char>) -> bool {
    names(base).is_prefix_of(names(path))
}

/// Whether one of the two paths lies within the other.
pub open spec fn overlaps(a: Seq<char>, b: Seq<char>) -> bool {
    is_within(a, b) || is_within(b, a)
}

/// The names of `path` that follow those of `base`, joined.
pub open spec fn relative(path: Seq<char>, base: Seq<char>) -> Seq<char> {
    join_names(names(path).skip(names(base).len() as int))
}

/// Whether the text begins at the root.
pub open spec fn is_absolute(s: Seq<char>) -> bool {
    s.len() > 0 && s[0] == '/'
}

/// The absolute text that holds exactly the given names.
pub open spec fn rooted(ns: Seq<Seq<char>>) -> Seq<char> {
    seq!['/'] + join_names(ns)
}

/// Whether the text is the plainest way to write an absolute path: it begins
/// at the root, writes each name once with single separators, ends without a
/// separator and does not step upwards with `..`.
pub open spec fn is_canonical(s: Seq<char>) -> bool {
    s == rooted(names(s)) && !names(s).contains(seq!['.', '.'])
}

/// `head_len` stops at the first separator, or at the end if there is none.
pub proof fn lemma_head_len(s: Seq<char>, k: int)
    requires
        0 <= k <= s.len(),
        forall|j: int| 0 <= j < k ==> s[j] != '/',
        k == s.len() || s[k] == '/',
    ensures
        head_len(s) == k,
    decreases k,
{
    if k > 0 {
        let t = s.skip(1);
        assert forall|j: int| 0 <= j < k - 1 implies t[j] != '/' by {
            assert(t[j] == s[j + 1]);
        }
        lemma_head_len(t, k - 1);
    }
}

/// The names of a text whose first separator stands at `k`.
pub proof fn lemma_names_at_separator(s: Seq<char>, k: int)
    requires
        0 <= k < s.len(),
        forall|j: int| 0 <= j < k ==> s[j] != '/',
        s[k] == '/',
    ensures
        names(s) == if keeps_name(s.take(k)) {
            seq![s.take(k)] + names(s.skip(k + 1))
        } else {
            names(s.skip(k + 1))
        },
{
    lemma_head_len(s, k);
}

/// The names of a text without any separator.
pub proof fn lemma_names_of_run(s: Seq<char>)
    requires
        forall|j: int| 0 <= j < s.len() ==> s[j] != '/',
    ensures
        names(s) == if keeps_name(s) {
            seq![s]
        } else {
            Seq::<Seq<char>>::empty()
        },
{
    if s.len() > 0 {
        lemma_head_len(s, s.len() as int);
        assert(s.take(s.len() as int) =~= s);
        assert(seq![s] + Seq::<Seq<char>>::empty() =~= seq![s]);
    }
}

/// Splits a path into its names.
pub fn split_names(s: &str) -> (out: Vec<String>)
    ensures
        out.deep_view() == names(s@),
{
    let n = s.unicode_len();
    let mut out: Vec<String> = Vec::new();
    let mut start: usize = 0;
    let mut i: usize = 0;
    let mut lone_dot = false;
    assert(s@.skip(0) =~= s@);
    assert(out.deep_view() =~= Seq::<Seq<char>>::empty());
    assert(s@.subrange(0, 0).len() != seq!['.'].len());
    for c in it: s.chars()
        invariant
            it.seq() == s@,
            n == s@.len(),
            i == it.index(),
            start <= i,
            forall|j: int| start <= j < i ==> s@[j] != '/',
            lone_dot == (s@.subrange(start as int, i as int) == seq!['.']),
            out.deep_view() + names(s@.skip(start as int)) == names(s@),
    {
        let ghost tail = s@.skip(start as int);
        let ghost run = s@.subrange(start as int, i as int);
        if c == '/' {
            proof {
                assert forall|j: int| 0 <= j < i - start implies tail[j] != '/' by {
                    assert(tail[j] == s@[start + j]);
                }
                lemma_names_at_separator(tail, i - start);
                assert(tail.take(i - start) =~= run);
                assert(tail.skip(i - start + 1) =~= s@.skip(i + 1));
            }
            if i > start && !lone_dot {
                let ghost before = out.deep_view();
                let name = s.substring_char(start, i);
                out.push(name.to_owned());
                assert(out.deep_view() =~= before.push(run));
                assert(before.push(run) + names(s@.skip(i + 1)) =~= before + (seq![run] + names(
                    s@.skip(i + 1),
                )));
            }
            start = i + 1;
            lone_dot = false;
            assert(s@.subrange(start as int, i + 1) =~= Seq::<char>::empty());
        } else {
            lone_dot = i == start && c == '.';
            proof {
                let next = s@.subrange(start as int, i + 1);
                assert(next.len() == i + 1 - start);
                assert(next[i - start] == c);
                if i == start && c == '.' {
                    assert(next =~= seq!['.']);
                } else if i == start {
                    assert(next[0] != '.');
                }
            }
        }
        i += 1;
    }
    let ghost tail = s@.skip(start as int);
    proof {
        assert forall|j: int| 0 <= j < tail.len() implies tail[j] != '/' by {
            assert(tail[j] == s@[start + j]);
        }
        lemma_names_of_run(tail);
        assert(tail =~= s@.subrange(start as int, i as int));
    }
    if i > start && !lone_dot {
        let ghost before = out.deep_view();
        let name = s.substring_char(start, i);
        out.push(name.to_owned());
        assert(out.deep_view() =~= before.push(tail));
        assert(before.push(tail) =~= before + seq![tail]);
    } else {
        assert(out.deep_view() + Seq::<Seq<char>>::empty() =~= out.deep_view());
    }
    out
}

/// The text that stands for `pattern` when it is read from the directory
/// `cwd`: an absolute pattern stands for itself, any other is appended to
/// `cwd`, after a separator unless `cwd` ends with one.
pub open spec fn joined(cwd: Seq<char>, pattern: Seq<char>) -> Seq<char> {
    if is_absolute(pattern) {
        pattern
    } else if cwd.len() > 0 && cwd.last() == '/' {
        cwd + pattern
    } else {
        cwd + seq!['/'] + pattern
    }
}

/// Whether the text begins with exactly two separators. Some systems read
/// such a path in a way of their own, so the two are kept as they are.
pub open spec fn has_double_root(s: Seq<char>) -> bool {
    s.len() >= 2 && s[0] == '/' && s[1] == '/' && (s.len() == 2 || s[2] != '/')
}

/// The same names written from the root with single separators. A separator
/// at the end of the text is kept, and so are exactly two at its start.
pub open spec fn tidy(s: Seq<char>) -> Seq<char> {
    let lead = if has_double_root(s) {
        seq!['/']
    } else {
        Seq::empty()
    };
    let trail = if s.len() > 0 && s.last() == '/' && names(s).len() > 0 {
        seq!['/']
    } else {
        Seq::empty()
    };
    lead + rooted(names(s)) + trail
}

/// The absolute text of a pattern that a subscription rooted at `cwd` gave.
pub open spec fn resolve(cwd: Seq<char>, pattern: Seq<char>) -> Seq<char> {
    tidy(joined(cwd, pattern))
}

/// Whether the text can stand as one name of a path.
pub open spec fn is_name(n: Seq<char>) -> bool {
    keeps_name(n) && forall|j: int| 0 <= j < n.len() ==> n[j] != '/'
}

/// `head_len` lies within the text, no separator stands before it, and one
/// stands at it unless it is the end.
pub proof fn lemma_head_len_bounds(s: Seq<char>)
    ensures
        0 <= head_len(s) <= s.len(),
        forall|j: int| 0 <= j < head_len(s) ==> s[j] != '/',
        head_len(s) < s.len() ==> s[head_len(s) as int] == '/',
    decreases s.len(),
{
    if !(s.len() == 0 || s[0] == '/') {
        let t = s.skip(1);
        lemma_head_len_bounds(t);
        assert forall|j: int| 0 <= j < head_len(s) implies s[j] != '/' by {
            if j > 0 {
                assert(s[j] == t[j - 1]);
            }
        }
        if head_len(s) < s.len() {
            assert(s[head_len(s) as int] == t[head_len(t) as int]);
        }
    }
}

/// Every name of a path can stand as a name: it is not empty, not `.`, and
/// holds no separator.
pub proof fn lemma_names_are_names(s: Seq<char>)
    ensures
        forall|i: int| 0 <= i < names(s).len() ==> is_name(#[trigger] names(s)[i]),
    decreases s.len(),
{
    if s.len() > 0 {
        lemma_head_len_bounds(s);
        let k = head_len(s) as int;
        let head = s.take(k);
        let rest = if k < s.len() {
            names(s.skip(k + 1))
        } else {
            Seq::empty()
        };
        if k < s.len() {
            lemma_names_are_names(s.skip(k + 1));
        }
        assert forall|i: int| 0 <= i < names(s).len() implies is_name(#[trigger] names(s)[i]) by {
            if keeps_name(head) {
                if i == 0 {
                    assert(names(s)[0] == head);
                    assert forall|j: int| 0 <= j < head.len() implies head[j] != '/' by {
                        assert(head[j] == s[j]);
                    }
                } else {
                    assert(names(s)[i] == rest[i - 1]);
                }
            }
        }
    }
}

/// The names of two texts joined by a separator are the names of the first
/// followed by the names of the second.
pub proof fn lemma_names_concat(a: Seq<char>, b: Seq<char>)
    ensures
        names(a + seq!['/'] + b) == names(a) + names(b),
    decreases a.len(),
{
    let w = a + seq!['/'] + b;
    lemma_head_len_bounds(a);
    let k = head_len(a) as int;
    assert(w[k] == '/') by {
        if k < a.len() {
            assert(w[k] == a[k]);
        }
    }
    assert forall|j: int| 0 <= j < k implies w[j] != '/' by {
        assert(w[j] == a[j]);
    }
    lemma_names_at_separator(w, k);
    assert(w.take(k) =~= a.take(k));
    if k < a.len() {
        let tail = a.skip(k + 1);
        assert(w.skip(k + 1) =~= tail + seq!['/'] + b);
        lemma_names_concat(tail, b);
        lemma_names_at_separator(a, k);
        assert((seq![a.take(k)] + names(tail)) + names(b) =~= seq![a.take(k)] + (names(tail)
            + names(b)));
    } else {
        assert(w.skip(k + 1) =~= b);
        assert(a.take(k) =~= a);
        lemma_names_of_run(a);
        assert(Seq::<Seq<char>>::empty() + names(b) =~= names(b));
    }
}

/// Joining names and splitting the text again gives the names back.
pub proof fn lemma_names_of_join(ns: Seq<Seq<char>>)
    requires
        forall|i: int| 0 <= i < ns.len() ==> is_name(#[trigger] ns[i]),
    ensures
        names(join_names(ns)) == ns,
    decreases ns.len(),
{
    if ns.len() == 0 {
        assert(names(join_names(ns)) =~= ns);
    } else if ns.len() == 1 {
        lemma_names_of_run(ns[0]);
        assert(seq![ns[0]] =~= ns);
    } else {
        let front = ns.drop_last();
        assert forall|i: int| 0 <= i < front.len() implies is_name(#[trigger] front[i]) by {
            assert(front[i] == ns[i]);
        }
        lemma_names_of_join(front);
        lemma_names_concat(join_names(front), ns.last());
        lemma_names_of_run(ns.last());
        assert(front + seq![ns.last()] =~= ns);
    }
}

/// A separator in front of a text or behind it adds no name.
pub proof fn lemma_names_of_padded(s: Seq<char>)
    ensures
        names(seq!['/'] + s) == names(s),
        names(s + seq!['/']) == names(s),
{
    let none = Seq::<char>::empty();
    lemma_names_concat(none, s);
    lemma_names_concat(s, none);
    assert(none + seq!['/'] + s =~= seq!['/'] + s);
    assert(s + seq!['/'] + none =~= s + seq!['/']);
    assert(names(none) + names(s) =~= names(s));
    assert(names(s) + names(none) =~= names(s));
}

/// Tidying a text keeps its names.
pub proof fn lemma_names_of_tidy(s: Seq<char>)
    ensures
        names(tidy(s)) == names(s),
{
    let ns = names(s);
    let none = Seq::<char>::empty();
    lemma_names_are_names(s);
    lemma_names_of_join(ns);
    lemma_names_of_padded(join_names(ns));
    lemma_names_of_padded(rooted(ns));
    lemma_names_of_padded(rooted(ns) + seq!['/']);
    assert(none + rooted(ns) + none =~= rooted(ns));
    assert(none + rooted(ns) + seq!['/'] =~= rooted(ns) + seq!['/']);
    assert(seq!['/'] + rooted(ns) + none =~= seq!['/'] + rooted(ns));
    assert(seq!['/'] + rooted(ns) + seq!['/'] =~= seq!['/'] + (rooted(ns) + seq!['/']));
}

/// Every path lies within itself.
pub proof fn lemma_within_itself(p: Seq<char>)
    ensures
        is_within(p, p),
        overlaps(p, p),
{
    assert(names(p).subrange(0, names(p).len() as int) =~= names(p));
}

/// What lies within a path lies within everything that path lies within.
pub proof fn lemma_within_transitive(a: Seq<char>, b: Seq<char>, c: Seq<char>)
    requires
        is_within(a, b),
        is_within(b, c),
    ensures
        is_within(a, c),
{
    let na = names(a);
    let nb = names(b);
    let nc = names(c);
    assert(nc =~= na.subrange(0, nc.len() as int)) by {
        assert forall|i: int| 0 <= i < nc.len() implies nc[i] == na[i] by {
            assert(nc[i] == nb.subrange(0, nc.len() as int)[i]);
            assert(nb[i] == na.subrange(0, nb.len() as int)[i]);
        }
    }
}

/// Two paths that hold the same path overlap.
pub proof fn lemma_holders_overlap(p: Seq<char>, a: Seq<char>, b: Seq<char>)
    requires
        is_within(p, a),
        is_within(p, b),
    ensures
        overlaps(a, b),
{
    let np = names(p);
    let na = names(a);
    let nb = names(b);
    if na.len() <= nb.len() {
        assert(na =~= nb.subrange(0, na.len() as int)) by {
            assert forall|i: int| 0 <= i < na.len() implies na[i] == nb[i] by {
                assert(na[i] == np.subrange(0, na.len() as int)[i]);
                assert(nb[i] == np.subrange(0, nb.len() as int)[i]);
            }
        }
    } else {
        assert(nb =~= na.subrange(0, nb.len() as int)) by {
            assert forall|i: int| 0 <= i < nb.len() implies nb[i] == na[i] by {
                assert(na[i] == np.subrange(0, na.len() as int)[i]);
                assert(nb[i] == np.subrange(0, nb.len() as int)[i]);
            }
        }
    }
}

/// Joins the names from index `from` on.
pub(crate) fn join_tail(names: &Vec<String>, from: usize) -> (r: String)
    requires
        from <= names.len(),
    ensures
        r@ == join_names(names.deep_view().skip(from as int)),
{
    let ghost all = names.deep_view();
    let mut r = String::new();
    let mut i: usize = from;
    assert(all.subrange(from as int, from as int) =~= Seq::<Seq<char>>::empty());
    while i < names.len()
        invariant
            from <= i <= names.len(),
            all == names.deep_view(),
            r@ == join_names(all.subrange(from as int, i as int)),
        decreases names.len() - i,
    {
        let ghost before = all.subrange(from as int, i as int);
        let ghost after = all.subrange(from as int, i + 1);
        proof {
            reveal_strlit("/");
            assert(after.drop_last() =~= before);
            assert(after.last() == names[i as int]@);
            assert("/"@ =~= seq!['/']);
        }
        if i > from {
            r.append("/");
        }
        r.append(names[i].as_str());
        proof {
            if i == from {
                assert(after.len() == 1);
                assert(r@ =~= after[0]);
            }
        }
        i += 1;
    }
    assert(all.subrange(from as int, names.len() as int) =~= all.skip(from as int));
    r
}

/// Whether the names of `base` open the names of `path`.
pub fn names_start_with(path: &Vec<String>, base: &Vec<String>) -> (r: bool)
    ensures
        r == base.deep_view().is_prefix_of(path.deep_view()),
{
    if base.len() > path.len() {
        return false;
    }
    let mut i: usize = 0;
    while i < base.len()
        invariant
            i <= base.len() <= path.len(),
            forall|j: int| 0 <= j < i ==> base.deep_view()[j] == path.deep_view()[j],
        decreases base.len() - i,
    {
        if base[i] != path[i] {
            assert(base.deep_view()[i as int] != path.deep_view().subrange(
                0,
                base.deep_view().len() as int,
            )[i as int]);
            return false;
        }
        i += 1;
    }
    assert(base.deep_view() =~= path.deep_view().subrange(0, base.deep_view().len() as int));
    true
}

/// Whether `path` is `base` itself or lies below it.
pub fn path_is_within(path: &str, base: &str) -> (r: bool)
    ensures
        r == is_within(path@, base@),
{
    let path_names = split_names(path);
    let base_names = split_names(base);
    names_start_with(&path_names, &base_names)
}

/// The path of `path` as seen from `base`, if `path` lies within `base`.
pub fn relative_to(path: &str, base: &str) -> (r: Option<String>)
    ensures
        r.is_some() == is_within(path@, base@),
        r matches Some(t) ==> t@ == relative(path@, base@),
{
    let path_names = split_names(path);
    let base_names = split_names(base);
    if names_start_with(&path_names, &base_names) {
        Some(join_tail(&path_names, base_names.len()))
    } else {
        None
    }
}

/// Whether the text begins at the root.
pub fn starts_at_root(s: &str) -> (r: bool)
    ensures
        r == is_absolute(s@),
{
    !s.is_empty() && s.get_char(0) == '/'
}

/// Whether the text is a canonical absolute path.
pub fn check_canonical(s: &str) -> (r: bool)
    ensures
        r == is_canonical(s@),
{
    let parts = split_names(s);
    let mut text = String::from_str("/");
    let tail = join_tail(&parts, 0);
    text.append(tail.as_str());
    proof {
        reveal_strlit("/");
        reveal_strlit("..");
        assert("/"@ =~= seq!['/']);
        assert(".."@ =~= seq!['.', '.']);
        assert(parts.deep_view().skip(0) =~= parts.deep_view());
    }
    if text != s.to_owned() {
        return false;
    }
    let up = String::from_str("..");
    let mut i: usize = 0;
    while i < parts.len()
        invariant
            i <= parts.len(),
            up@ == seq!['.', '.'],
            parts.deep_view() == names(s@),
            forall|j: int| 0 <= j < i ==> parts.deep_view()[j] != seq!['.', '.'],
        decreases parts.len() - i,
    {
        if parts[i] == up {
            assert(names(s@)[i as int] == seq!['.', '.']);
            return false;
        }
        i += 1;
    }
    true
}

/// Resolves a pattern that a subscription rooted at `cwd` gave.
pub fn resolve_pattern(cwd: &str, pattern: &str) -> (r: String)
    ensures
        r@ == resolve(cwd@, pattern@),
{
    proof {
        reveal_strlit("/");
        assert("/"@ =~= seq!['/']);
    }
    let full = if starts_at_root(pattern) {
        pattern.to_owned()
    } else {
        let mut t = cwd.to_owned();
        let m = cwd.unicode_len();
        if !(m > 0 && cwd.get_char(m - 1) == '/') {
            t.append("/");
        }
        t.append(pattern);
        t
    };
    let text = full.as_str();
    let n = text.unicode_len();
    let parts = split_names(text);
    let tail = join_tail(&parts, 0);
    assert(parts.deep_view().skip(0) =~= parts.deep_view());
    let mut r = String::new();
    if n >= 2 && text.get_char(0) == '/' && text.get_char(1) == '/' && (n == 2 || text.get_char(2)
        != '/') {
        r.append("/");
    }
    r.append("/");
    r.append(tail.as_str());
    if n > 0 && parts.len() > 0 && text.get_char(n - 1) == '/' {
        r.append("/");
    }
    assert(r@ =~= tidy(text@));
    r
}

} // verus!
