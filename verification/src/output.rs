//! The text of the output stream: one line per delivered event, and a mark
//! that closes each batch that delivered anything.

use crate::event::EventType;
use vstd::prelude::*;

verus! {

/// The character of a decimal digit.
pub open spec fn digit(d: nat) -> char {
    if d == 0 {
        '0'
    } else if d == 1 {
        '1'
    } else if d == 2 {
        '2'
    } else if d == 3 {
        '3'
    } else if d == 4 {
        '4'
    } else if d == 5 {
        '5'
    } else if d == 6 {
        '6'
    } else if d == 7 {
        '7'
    } else if d == 8 {
        '8'
    } else {
        '9'
    }
}

/// A number in decimal, without sign or leading zeros.
pub open spec fn decimal(n: nat) -> Seq<char>
    decreases n,
{
    if n < 10 {
        seq![digit(n)]
    } else {
        decimal(n / 10).push(digit(n % 10))
    }
}

/// The line that tells subscription `uid` of an event of kind `kind` at
/// `relative_path`: the three, separated by colons.
pub open spec fn line_text(uid: usize, kind: EventType, relative_path: Seq<char>) -> Seq<char> {
    decimal(uid as nat) + seq![':'] + kind.spec_name() + seq![':'] + relative_path
}

/// The line that closes a batch: `<flush>`.
pub open spec fn flush_mark() -> Seq<char> {
    seq!['<', 'f', 'l', 'u', 's', 'h', '>']
}

fn digit_str(d: usize) -> (r: &'static str)
    requires
        d < 10,
    ensures
        r@ == seq![digit(d as nat)],
{
    proof {
        reveal_strlit("0");
        reveal_strlit("1");
        reveal_strlit("2");
        reveal_strlit("3");
        reveal_strlit("4");
        reveal_strlit("5");
        reveal_strlit("6");
        reveal_strlit("7");
        reveal_strlit("8");
        reveal_strlit("9");
    }
    let r = if d == 0 {
        "0"
    } else if d == 1 {
        "1"
    } else if d == 2 {
        "2"
    } else if d == 3 {
        "3"
    } else if d == 4 {
        "4"
    } else if d == 5 {
        "5"
    } else if d == 6 {
        "6"
    } else if d == 7 {
        "7"
    } else if d == 8 {
        "8"
    } else {
        "9"
    };
    assert(r@ =~= seq![digit(d as nat)]);
    r
}

/// Writes a number in decimal.
pub fn decimal_string(n: usize) -> (r: String)
    ensures
        r@ == decimal(n as nat),
    decreases n,
{
    if n < 10 {
        String::from_str(digit_str(n))
    } else {
        let mut r = decimal_string(n / 10);
        r.append(digit_str(n % 10));
        assert(r@ =~= decimal((n / 10) as nat).push(digit((n % 10) as nat)));
        r
    }
}

/// Writes the line for one delivered event.
pub fn event_line(uid: usize, kind: EventType, relative_path: &str) -> (r: String)
    ensures
        r@ == line_text(uid, kind, relative_path@),
{
    proof {
        reveal_strlit(":");
        assert(":"@ =~= seq![':']);
    }
    let mut r = decimal_string(uid);
    r.append(":");
    r.append(kind.name());
    r.append(":");
    r.append(relative_path);
    r
}

/// Writes the line that closes a batch.
pub fn flush_line() -> (r: String)
    ensures
        r@ == flush_mark(),
{
    proof {
        reveal_strlit("<flush>");
        assert("<flush>"@ =~= flush_mark());
    }
    String::from_str("<flush>")
}

/// An event line is never mistaken for the mark that closes a batch: the
/// kind and the two colons alone are longer than the mark.
pub proof fn lemma_line_is_not_flush_mark(uid: usize, kind: EventType, relative_path: Seq<char>)
    ensures
        line_text(uid, kind, relative_path) != flush_mark(),
{
    assert(kind.spec_name().len() == 6);
    assert(line_text(uid, kind, relative_path).len() >= 8);
    assert(flush_mark().len() == 7);
}

} // verus!
