//! The session's command language: one command per input line.

use vstd::prelude::*;
use crate::text::{chars_of, split_chars, split_spec, string_of, string_views, views};

verus! {

/// One session command.
#[derive(Debug)]
pub enum Command {
    /// `next [n]`: move forward (by one where no count is given).
    Next(usize),
    /// `prev [n]`: move back.
    Prev(usize),
    /// `filter f1,f2,...`: set the function filters.
    Filter(Vec<String>),
    /// `oids o1,o2,...`: add oid filters.
    Oids(Vec<String>),
    /// `oids clear`: drop the oid filters.
    OidsClear,
    /// `traceback`: replace the oid filters by their lineage.
    Traceback,
    /// `dump`: show every transaction of the view.
    Dump,
    /// `bisect start`.
    BisectStart,
    /// `bisect end`.
    BisectEnd,
    /// `good`: the transaction under judgment looks right.
    Good,
    /// `bad`: the transaction under judgment looks wrong.
    Bad,
    /// `next` or `prev` with a count that is not a number.
    InvalidArgument,
    /// Anything else.
    Unknown,
}

pub enum CommandView {
    Next(usize),
    Prev(usize),
    Filter(Seq<Seq<char>>),
    Oids(Seq<Seq<char>>),
    OidsClear,
    Traceback,
    Dump,
    BisectStart,
    BisectEnd,
    Good,
    Bad,
    InvalidArgument,
    Unknown,
}

impl View for Command {
    type V = CommandView;

    open spec fn view(&self) -> CommandView {
        match self {
            Command::Next(n) => CommandView::Next(*n),
            Command::Prev(n) => CommandView::Prev(*n),
            Command::Filter(f) => CommandView::Filter(string_views(f@)),
            Command::Oids(o) => CommandView::Oids(string_views(o@)),
            Command::OidsClear => CommandView::OidsClear,
            Command::Traceback => CommandView::Traceback,
            Command::Dump => CommandView::Dump,
            Command::BisectStart => CommandView::BisectStart,
            Command::BisectEnd => CommandView::BisectEnd,
            Command::Good => CommandView::Good,
            Command::Bad => CommandView::Bad,
            Command::InvalidArgument => CommandView::InvalidArgument,
            Command::Unknown => CommandView::Unknown,
        }
    }
}

pub open spec fn is_digit(c: char) -> bool {
    '0' <= c <= '9'
}

/// The number that a run of decimal digits spells.
pub open spec fn digits_value(s: Seq<char>) -> int
    decreases s.len(),
{
    if s.len() == 0 {
        0
    } else {
        digits_value(s.drop_last()) * 10 + ((s.last() as u32) as int - ('0' as u32) as int)
    }
}

/// `s` without a leading `+`.
pub open spec fn unsigned_part(s: Seq<char>) -> Seq<char> {
    if s.len() > 0 && s[0] == '+' {
        s.skip(1)
    } else {
        s
    }
}

/// Every character of `d` is a decimal digit.
pub open spec fn all_digits(d: Seq<char>) -> bool {
    forall|i: int| 0 <= i < d.len() ==> is_digit(#[trigger] d[i])
}

/// A jump count as `usize::from_str` reads it: an optional `+`, then one or
/// more decimal digits whose value fits in `usize`.
pub open spec fn jump_of(s: Seq<char>) -> Option<usize> {
    let d = unsigned_part(s);
    if d.len() > 0 && all_digits(d) && digits_value(d) <= usize::MAX {
        Some(digits_value(d) as usize)
    } else {
        None
    }
}

/// What an input line means, its line terminator removed.
pub open spec fn command_of(line: Seq<char>) -> CommandView {
    let w = split_spec(line, ' ');
    if line == "traceback"@ {
        CommandView::Traceback
    } else if line == "dump"@ {
        CommandView::Dump
    } else if line == "oids clear"@ {
        CommandView::OidsClear
    } else if line == "bisect end"@ {
        CommandView::BisectEnd
    } else if line == "bisect start"@ {
        CommandView::BisectStart
    } else if line == "good"@ {
        CommandView::Good
    } else if line == "bad"@ {
        CommandView::Bad
    } else if w[0] == "oids"@ && w.len() > 1 {
        CommandView::Oids(split_spec(w[1], ','))
    } else if w[0] == "filter"@ && w.len() > 1 {
        CommandView::Filter(split_spec(w[1], ','))
    } else if w[0] == "next"@ || w[0] == "prev"@ {
        let jump = if w.len() > 1 {
            jump_of(w[1])
        } else {
            Some(1usize)
        };
        match jump {
            Some(n) => if w[0] == "next"@ {
                CommandView::Next(n)
            } else {
                CommandView::Prev(n)
            },
            None => CommandView::InvalidArgument,
        }
    } else {
        CommandView::Unknown
    }
}

proof fn lemma_digits_grow(s: Seq<char>, k: int)
    requires
        0 <= k <= s.len(),
        all_digits(s),
    ensures
        digits_value(s) >= digits_value(s.take(k)),
        digits_value(s.take(k)) >= 0,
    decreases s.len() - k,
{
    if k < s.len() {
        lemma_digits_grow(s, k + 1);
        assert(s.take(k + 1).drop_last() =~= s.take(k));
    } else {
        assert(s.take(k) =~= s);
        lemma_digits_nonneg(s);
    }
}

proof fn lemma_digits_nonneg(s: Seq<char>)
    requires
        all_digits(s),
    ensures
        digits_value(s) >= 0,
    decreases s.len(),
{
    if s.len() > 0 {
        lemma_digits_nonneg(s.drop_last());
        assert(is_digit(s[s.len() - 1]));
    }
}

fn chars_eq(a: &Vec<char>, b: &Vec<char>) -> (r: bool)
    ensures
        r == (a@ == b@),
{
    if a.len() != b.len() {
        return false;
    }
    let mut i: usize = 0;
    while i < a.len()
        invariant
            a.len() == b.len(),
            i <= a.len(),
            forall|k: int| 0 <= k < i ==> a@[k] == b@[k],
        decreases a.len() - i,
    {
        if a[i] != b[i] {
            return false;
        }
        i += 1;
    }
    assert(a@ =~= b@);
    true
}

/// Reads a jump count as `usize::from_str` does.
pub fn parse_jump(s: &Vec<char>) -> (r: Option<usize>)
    ensures
        r == jump_of(s@),
{
    let start: usize = if s.len() > 0 && s[0] == '+' {
        1
    } else {
        0
    };
    let ghost d = unsigned_part(s@);
    assert(d =~= s@.skip(start as int));
    if start >= s.len() {
        return None;
    }
    let mut v: usize = 0;
    let mut i: usize = start;
    while i < s.len()
        invariant
            start <= i <= s.len(),
            d == unsigned_part(s@),
            d =~= s@.skip(start as int),
            forall|k: int| 0 <= k < i - start ==> is_digit(#[trigger] d[k]),
            v == digits_value(d.take(i - start)),
        decreases s.len() - i,
    {
        let c = s[i];
        assert(d[i - start] == c);
        if !('0' <= c && c <= '9') {
            assert(!is_digit(d[i - start]));
            assert(!all_digits(d));
            return None;
        }
        let dg: usize = ((c as u32) - ('0' as u32)) as usize;
        assert(d.take(i - start + 1).drop_last() =~= d.take(i - start));
        assert(d.take(i - start + 1).last() == c);
        assert(digits_value(d.take(i - start + 1)) == v * 10 + dg);
        if v > (usize::MAX - dg) / 10 {
            proof {
                assert(v * 10 + dg > usize::MAX) by (nonlinear_arith)
                    requires
                        v > (usize::MAX - dg) / 10,
                        dg <= 9,
                ;
                if all_digits(d) {
                    lemma_digits_grow(d, i - start + 1);
                }
            }
            return None;
        }
        assert(v * 10 + dg <= usize::MAX) by (nonlinear_arith)
            requires
                v <= (usize::MAX - dg) / 10,
                dg <= 9,
        ;
        v = v * 10 + dg;
        i += 1;
    }
    assert(d.take(d.len() as int) =~= d);
    Some(v)
}

/// The strings of a list of character runs.
pub fn strings_of(parts: &Vec<Vec<char>>) -> (r: Vec<String>)
    ensures
        string_views(r@) == views(parts@),
{
    let mut r: Vec<String> = Vec::new();
    let mut i: usize = 0;
    while i < parts.len()
        invariant
            i <= parts.len(),
            string_views(r@) == views(parts@).take(i as int),
        decreases parts.len() - i,
    {
        let c = parts[i].clone();
        assert(c@ =~= parts@[i as int]@);
        let ghost before = r@;
        let t = string_of(c);
        r.push(t);
        assert(string_views(r@) =~= string_views(before).push(t@));
        assert(string_views(r@) =~= views(parts@).take(i + 1));
        i += 1;
    }
    assert(views(parts@).take(parts.len() as int) =~= views(parts@));
    r
}

/// Reads one input line, its line terminator removed.
pub fn parse_command(line: &str) -> (r: Command)
    ensures
        r@ == command_of(line@),
{
    let l = chars_of(line);
    let w = split_chars(&l, ' ');
    proof {
        crate::text::lemma_split_nonempty(line@, ' ');
    }
    if chars_eq(&l, &chars_of("traceback")) {
        Command::Traceback
    } else if chars_eq(&l, &chars_of("dump")) {
        Command::Dump
    } else if chars_eq(&l, &chars_of("oids clear")) {
        Command::OidsClear
    } else if chars_eq(&l, &chars_of("bisect end")) {
        Command::BisectEnd
    } else if chars_eq(&l, &chars_of("bisect start")) {
        Command::BisectStart
    } else if chars_eq(&l, &chars_of("good")) {
        Command::Good
    } else if chars_eq(&l, &chars_of("bad")) {
        Command::Bad
    } else if chars_eq(&w[0], &chars_of("oids")) && w.len() > 1 {
        Command::Oids(strings_of(&split_chars(&w[1], ',')))
    } else if chars_eq(&w[0], &chars_of("filter")) && w.len() > 1 {
        Command::Filter(strings_of(&split_chars(&w[1], ',')))
    } else {
        let is_next = chars_eq(&w[0], &chars_of("next"));
        if is_next || chars_eq(&w[0], &chars_of("prev")) {
            let jump = if w.len() > 1 {
                parse_jump(&w[1])
            } else {
                Some(1)
            };
            match jump {
                Some(n) => if is_next {
                    Command::Next(n)
                } else {
                    Command::Prev(n)
                },
                None => Command::InvalidArgument,
            }
        } else {
            Command::Unknown
        }
    }
}

} // verus!
