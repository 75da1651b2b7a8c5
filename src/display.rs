//! What a transaction shows: the log lines that the function filters keep,
//! and its structured record printed back.

use vstd::prelude::*;
use crate::model::{LineView, LogLine, TransactionLog};
use crate::record::{pretty, pretty_of};
use crate::text::{chars_of, contains_chars, is_substring, string_views};

verus! {

/// A line is shown when no function filter is set, or when some filter
/// occurs in its function tag or its context tag.
pub open spec fn line_visible(l: LineView, filters: Seq<Seq<char>>) -> bool {
    filters.len() == 0 || exists|k: int|
        0 <= k < filters.len() && (is_substring(#[trigger] filters[k], l.function) || is_substring(
            filters[k],
            l.context,
        ))
}

/// The positions, in order, of the first `n` lines that are shown.
pub open spec fn visible_upto(lines: Seq<LineView>, filters: Seq<Seq<char>>, n: int) -> Seq<int>
    decreases n,
{
    if n <= 0 {
        Seq::empty()
    } else if line_visible(lines[n - 1], filters) {
        visible_upto(lines, filters, n - 1).push(n - 1)
    } else {
        visible_upto(lines, filters, n - 1)
    }
}

/// The positions of the shown lines.
pub open spec fn visible_lines(lines: Seq<LineView>, filters: Seq<Seq<char>>) -> Seq<int> {
    visible_upto(lines, filters, lines.len() as int)
}

/// A transaction as it is to be displayed.
pub struct Rendering {
    /// Positions of the log lines to show, in order.
    pub lines: Vec<usize>,
    /// The structured record, pretty-printed; `None` where there is none.
    pub record: Option<String>,
}

/// Whether a log line passes the function filters.
pub fn line_passes(line: &LogLine, filters: &Vec<String>) -> (r: bool)
    ensures
        r == line_visible(line@, string_views(filters@)),
{
    if filters.len() == 0 {
        return true;
    }
    let function = chars_of(line.function.as_str());
    let context = chars_of(line.context.as_str());
    let ghost fv = string_views(filters@);
    let mut k: usize = 0;
    while k < filters.len()
        invariant
            fv == string_views(filters@),
            k <= filters.len(),
            function@ == line.function@,
            context@ == line.context@,
            forall|m: int|
                0 <= m < k ==> !(is_substring(#[trigger] fv[m], line@.function) || is_substring(
                    fv[m],
                    line@.context,
                )),
        decreases filters.len() - k,
    {
        let f = chars_of(filters[k].as_str());
        assert(f@ == fv[k as int]);
        if contains_chars(&function, &f) || contains_chars(&context, &f) {
            assert(is_substring(fv[k as int], line@.function) || is_substring(fv[k as int], line@.context));
            return true;
        }
        k += 1;
    }
    false
}

impl TransactionLog {
    /// What this transaction shows under the function filters: the
    /// positions of the log lines they keep, and the record printed back.
    pub fn show(&self, function_filters: &Vec<String>) -> (r: Rendering)
        ensures
            r.lines@.map_values(|i: usize| i as int) == visible_lines(
                self@.lines,
                string_views(function_filters@),
            ),
            self.raw_transaction is None ==> r.record is None,
            self.raw_transaction matches Some(v) ==> (r.record matches Some(s) && s@ == pretty_of(v)),
    {
        let ghost lines = self@.lines;
        let ghost fv = string_views(function_filters@);
        let mut shown: Vec<usize> = Vec::new();
        let mut i: usize = 0;
        while i < self.contents.len()
            invariant
                lines == self@.lines,
                fv == string_views(function_filters@),
                i <= self.contents.len(),
                shown@.map_values(|x: usize| x as int) == visible_upto(lines, fv, i as int),
            decreases self.contents.len() - i,
        {
            let ghost before = shown@;
            if line_passes(&self.contents[i], function_filters) {
                shown.push(i);
                assert(shown@.map_values(|x: usize| x as int) =~= before.map_values(
                    |x: usize| x as int,
                ).push(i as int));
            }
            i += 1;
        }
        let record = match &self.raw_transaction {
            Some(v) => match pretty(v) {
                Ok(s) => Some(s),
                Err(_) => None,
            },
            None => None,
        };
        Rendering { lines: shown, record }
    }
}

} // verus!
