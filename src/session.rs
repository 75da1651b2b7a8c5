//! The interactive session: the full transaction list, the oid and function
//! filters, the filtered view, the cursor and the bisection bounds, and the
//! commands that move between its states.

use vstd::prelude::*;
use crate::lineage::{lineage, traceback};
use crate::model::{OpView, TransactionLog, TransactionOp, TxView, tx_views};
use crate::command::{Command, CommandView};
use crate::text::{contains_string, string_views};

verus! {

/// The bounds of a bisection over the filtered view: `lo` is known good (or
/// the first index), `hi` known bad (or the last index), and `mid` is the
/// index under judgment.
#[derive(Debug, Clone, Copy, PartialEq, Eq, Structural)]
pub struct Bisection {
    pub lo: usize,
    pub mid: usize,
    pub hi: usize,
}

/// A command that cannot be carried out where it was issued.
#[derive(Debug, Clone, Copy, PartialEq, Eq, Structural)]
pub enum SessionError {
    /// A jump count that is not a number.
    InvalidCommandArgument,
    /// A judgment outside bisection, or navigation inside it.
    InvalidModeCommand,
    /// A judgment once the bounds are adjacent: the search is over and `hi`
    /// is the first bad transaction.
    BisectionFinished,
}

/// What the display is to do after a command.
#[derive(Debug, Clone, Copy, PartialEq, Eq, Structural)]
pub enum Reply {
    /// Show the current transaction.
    Show,
    /// Show every transaction of the filtered view, in place of the current
    /// one.
    Dump,
    /// The command was refused; nothing changed.
    Rejected(SessionError),
    /// The input was not understood; nothing changed.
    Ignored,
}

/// The session as a mathematical value.
pub struct SessionView {
    pub txs: Seq<TxView>,
    pub view: Seq<int>,
    pub cursor: int,
    pub function_filters: Seq<Seq<char>>,
    pub oid_filters: Seq<Seq<char>>,
    pub bisect: Option<Bisection>,
}

/// Some present oid field of `op` is one of `filters`.
pub open spec fn op_matches(op: OpView, filters: Seq<Seq<char>>) -> bool {
    ||| (op.oid.len() > 0 && filters.contains(op.oid))
    ||| (op.new_oid.len() > 0 && filters.contains(op.new_oid))
    ||| (op.old_oid.len() > 0 && filters.contains(op.old_oid))
    ||| (op.src_oid.len() > 0 && filters.contains(op.src_oid))
    ||| (op.dst_oid.len() > 0 && filters.contains(op.dst_oid))
}

/// A transaction stays in the view when no oid filter is set, or when one of
/// its operations names a filtered oid.
pub open spec fn retained(tx: TxView, filters: Seq<Seq<char>>) -> bool {
    filters.len() == 0 || exists|j: int| 0 <= j < tx.ops.len() && op_matches(#[trigger] tx.ops[j], filters)
}

/// The positions, in order, of the retained transactions among the first `n`.
pub open spec fn view_upto(txs: Seq<TxView>, filters: Seq<Seq<char>>, n: int) -> Seq<int>
    decreases n,
{
    if n <= 0 {
        Seq::empty()
    } else if retained(txs[n - 1], filters) {
        view_upto(txs, filters, n - 1).push(n - 1)
    } else {
        view_upto(txs, filters, n - 1)
    }
}

/// The filtered view: the positions of the retained transactions.
pub open spec fn filtered_view(txs: Seq<TxView>, filters: Seq<Seq<char>>) -> Seq<int> {
    view_upto(txs, filters, txs.len() as int)
}

/// The last index of a view of `n` elements; 0 for an empty one.
pub open spec fn last_index(n: int) -> int {
    if n > 0 {
        n - 1
    } else {
        0
    }
}

/// The bounds that a bisection over `n` elements starts from.
pub open spec fn start_bounds(n: int) -> Bisection {
    Bisection { lo: 0, mid: (last_index(n) / 2) as usize, hi: last_index(n) as usize }
}

/// The bounds after one judgment of the transaction at `mid`.
pub open spec fn judge(b: Bisection, good: bool) -> Bisection {
    let lo = if good {
        b.mid
    } else {
        b.lo
    };
    let hi = if good {
        b.hi
    } else {
        b.mid
    };
    Bisection { lo, mid: ((lo + hi) / 2) as usize, hi }
}

/// The bounds are at least two apart, so `mid` lies strictly between them
/// and can still be judged.
pub open spec fn is_open(b: Bisection) -> bool {
    b.hi - b.lo >= 2
}

/// What one `good` or `bad` command does to the bounds: a judgment while
/// the search is open, nothing once it is over.
pub open spec fn judge_step(b: Bisection, good: bool) -> Bisection {
    if is_open(b) {
        judge(b, good)
    } else {
        b
    }
}

pub open spec fn min(a: int, b: int) -> int {
    if a <= b {
        a
    } else {
        b
    }
}

impl SessionView {
    /// The invariant of every session.
    pub open spec fn wf(self) -> bool {
        &&& self.view == filtered_view(self.txs, self.oid_filters)
        &&& 0 <= self.cursor <= last_index(self.view.len() as int)
        &&& match self.bisect {
            Some(b) => {
                &&& b.lo <= b.mid <= b.hi <= last_index(self.view.len() as int)
                &&& b.mid == (b.lo + b.hi) / 2
            },
            None => true,
        }
    }

    pub open spec fn with_cursor(self, cursor: int) -> SessionView {
        SessionView { cursor, ..self }
    }

    pub open spec fn with_bisect(self, bisect: Option<Bisection>, cursor: int) -> SessionView {
        SessionView { bisect, cursor, ..self }
    }

    /// A session over `txs` as it starts: no filters, browsing, on the last
    /// transaction.
    pub open spec fn fresh(txs: Seq<TxView>) -> SessionView {
        let view = filtered_view(txs, Seq::empty());
        SessionView {
            txs,
            view,
            cursor: last_index(view.len() as int),
            function_filters: Seq::empty(),
            oid_filters: Seq::empty(),
            bisect: None,
        }
    }

    /// The session after the oid filters become `oids`: the view is
    /// recomputed and the cursor goes to its last element; while bisecting,
    /// the bisection also restarts over the new view.
    pub open spec fn refiltered(self, oids: Seq<Seq<char>>) -> SessionView {
        let view = filtered_view(self.txs, oids);
        let n = view.len() as int;
        SessionView {
            view,
            oid_filters: oids,
            cursor: last_index(n),
            bisect: if self.bisect is Some {
                Some(start_bounds(n))
            } else {
                None
            },
            ..self
        }
    }

    pub open spec fn stepped_next(self, jump: usize) -> SessionView {
        self.with_cursor(min(self.cursor + jump, last_index(self.view.len() as int)))
    }

    pub open spec fn stepped_prev(self, jump: usize) -> SessionView {
        self.with_cursor(if self.cursor >= jump {
            self.cursor - jump
        } else {
            0
        })
    }

    pub open spec fn bisect_started(self) -> SessionView {
        let b = start_bounds(self.view.len() as int);
        self.with_bisect(Some(b), b.mid as int)
    }

    pub open spec fn bisect_ended(self) -> SessionView {
        self.with_bisect(None, last_index(self.view.len() as int))
    }

    pub open spec fn judged(self, good: bool) -> SessionView {
        let b = judge(self.bisect->0, good);
        self.with_bisect(Some(b), b.mid as int)
    }

    /// The session and the reply after a `good` (or `bad`) command: refused
    /// outside bisection and once the search is over, else a judgment.
    pub open spec fn judgment(self, good: bool) -> (SessionView, Reply) {
        match self.bisect {
            None => (self, Reply::Rejected(SessionError::InvalidModeCommand)),
            Some(b) => if is_open(b) {
                (self.judged(good), Reply::Show)
            } else {
                (self, Reply::Rejected(SessionError::BisectionFinished))
            },
        }
    }
}

proof fn lemma_view_bounds(txs: Seq<TxView>, filters: Seq<Seq<char>>, n: int)
    requires
        0 <= n <= txs.len(),
    ensures
        view_upto(txs, filters, n).len() <= n,
        forall|k: int|
            0 <= k < view_upto(txs, filters, n).len() ==> 0 <= #[trigger] view_upto(txs, filters, n)[k]
                < n,
    decreases n,
{
    if n > 0 {
        lemma_view_bounds(txs, filters, n - 1);
    }
}

fn op_matches_exec(op: &TransactionOp, filters: &Vec<String>) -> (r: bool)
    ensures
        r == op_matches(op@, string_views(filters@)),
{
    (!op.oid.as_str().is_empty() && contains_string(filters, &op.oid)) || (
    !op.new_oid.as_str().is_empty() && contains_string(filters, &op.new_oid)) || (
    !op.old_oid.as_str().is_empty() && contains_string(filters, &op.old_oid)) || (
    !op.src_oid.as_str().is_empty() && contains_string(filters, &op.src_oid)) || (
    !op.dst_oid.as_str().is_empty() && contains_string(filters, &op.dst_oid))
}

/// Whether a transaction stays in the view under the oid filters.
pub fn is_retained(tx: &TransactionLog, filters: &Vec<String>) -> (r: bool)
    ensures
        r == retained(tx@, string_views(filters@)),
{
    if filters.len() == 0 {
        return true;
    }
    let mut j: usize = 0;
    while j < tx.transaction.len()
        invariant
            j <= tx.transaction.len(),
            filters.len() > 0,
            forall|m: int| 0 <= m < j ==> !op_matches(#[trigger] tx@.ops[m], string_views(filters@)),
        decreases tx.transaction.len() - j,
    {
        if op_matches_exec(&tx.transaction[j], filters) {
            assert(op_matches(tx@.ops[j as int], string_views(filters@)));
            return true;
        }
        j += 1;
    }
    false
}

/// The filtered view of `txs` under the oid filters.
pub fn filter_view(txs: &Vec<TransactionLog>, filters: &Vec<String>) -> (r: Vec<usize>)
    ensures
        r@.map_values(|i: usize| i as int) == filtered_view(tx_views(txs@), string_views(filters@)),
{
    let ghost tv = tx_views(txs@);
    let ghost fv = string_views(filters@);
    let mut r: Vec<usize> = Vec::new();
    let mut i: usize = 0;
    while i < txs.len()
        invariant
            tv == tx_views(txs@),
            fv == string_views(filters@),
            i <= txs.len(),
            r@.map_values(|x: usize| x as int) == view_upto(tv, fv, i as int),
        decreases txs.len() - i,
    {
        let ghost before = r@;
        if is_retained(&txs[i], filters) {
            r.push(i);
            assert(r@.map_values(|x: usize| x as int) =~= before.map_values(|x: usize| x as int).push(
                i as int,
            ));
        }
        i += 1;
    }
    r
}

/// An exploration session over one parsed log.
pub struct Session {
    transactions: Vec<TransactionLog>,
    view: Vec<usize>,
    cursor: usize,
    function_filters: Vec<String>,
    oid_filters: Vec<String>,
    bisect: Option<Bisection>,
}

impl View for Session {
    type V = SessionView;

    closed spec fn view(&self) -> SessionView {
        SessionView {
            txs: tx_views(self.transactions@),
            view: self.view@.map_values(|i: usize| i as int),
            cursor: self.cursor as int,
            function_filters: string_views(self.function_filters@),
            oid_filters: string_views(self.oid_filters@),
            bisect: self.bisect,
        }
    }
}

impl Session {
    /// The session's invariant: its model is well formed.
    pub open spec fn inv(&self) -> bool {
        self@.wf()
    }

    /// Every position in the view is a transaction.
    proof fn lemma_view_in_range(&self)
        requires
            self.inv(),
        ensures
            self.view.len() <= self.transactions.len(),
            forall|k: int| 0 <= k < self.view.len() ==> #[trigger] self.view@[k] < self.transactions.len(),
    {
        lemma_view_bounds(self@.txs, self@.oid_filters, self@.txs.len() as int);
        assert forall|k: int| 0 <= k < self.view.len() implies #[trigger] self.view@[k] < self.transactions.len() by {
            assert(self@.view[k] == self.view@[k] as int);
        }
    }

    /// A session over a parsed log: no filters, browsing, on the last
    /// transaction.
    pub fn new(transactions: Vec<TransactionLog>) -> (r: Session)
        ensures
            r.inv(),
            r@ == SessionView::fresh(tx_views(transactions@)),
    {
        let oid_filters: Vec<String> = Vec::new();
        let view = filter_view(&transactions, &oid_filters);
        let cursor: usize = if view.len() > 0 {
            view.len() - 1
        } else {
            0
        };
        let r = Session {
            transactions,
            view,
            cursor,
            function_filters: Vec::new(),
            oid_filters,
            bisect: None,
        };
        assert(string_views(r.oid_filters@) =~= Seq::<Seq<char>>::empty());
        assert(string_views(r.function_filters@) =~= Seq::<Seq<char>>::empty());
        r
    }

    /// The bounds that a bisection over the current view starts from.
    fn start_bounds_exec(&self) -> (b: Bisection)
        ensures
            b == start_bounds(self.view.len() as int),
    {
        let hi: usize = if self.view.len() > 0 {
            self.view.len() - 1
        } else {
            0
        };
        Bisection { lo: 0, mid: hi / 2, hi }
    }

    /// Recomputes the view from the oid filters; the cursor goes to the
    /// view's last element and, while bisecting, the bisection restarts.
    fn reapply_filters(&mut self)
        ensures
            final(self).inv(),
            final(self)@ == old(self)@.refiltered(old(self)@.oid_filters),
    {
        self.view = filter_view(&self.transactions, &self.oid_filters);
        let b = self.start_bounds_exec();
        if self.bisect.is_some() {
            self.bisect = Some(b);
        }
        self.cursor = b.hi;
    }

    /// Adds oids to the oid filters and recomputes the view.
    pub fn add_oids(&mut self, oids: Vec<String>)
        requires
            old(self).inv(),
        ensures
            final(self).inv(),
            final(self)@ == old(self)@.refiltered(old(self)@.oid_filters + string_views(oids@)),
    {
        let mut oids = oids;
        let ghost added = string_views(oids@);
        let ghost before = self.oid_filters@;
        self.oid_filters.append(&mut oids);
        assert(string_views(self.oid_filters@) =~= string_views(before) + added);
        self.reapply_filters();
    }

    /// Drops every oid filter and recomputes the view.
    pub fn clear_oids(&mut self)
        requires
            old(self).inv(),
        ensures
            final(self).inv(),
            final(self)@ == old(self)@.refiltered(Seq::empty()),
    {
        self.oid_filters = Vec::new();
        assert(string_views(self.oid_filters@) =~= Seq::<Seq<char>>::empty());
        self.reapply_filters();
    }

    /// Replaces the oid filters by their lineage and recomputes the view.
    pub fn traceback(&mut self)
        requires
            old(self).inv(),
        ensures
            final(self).inv(),
            final(self)@ == old(self)@.refiltered(final(self)@.oid_filters),
            final(self)@.oid_filters.no_duplicates(),
            final(self)@.oid_filters.to_set() == lineage(old(self)@.txs, old(self)@.oid_filters.to_set()),
    {
        let traced = traceback(&self.oid_filters, &self.transactions);
        self.oid_filters = traced;
        self.reapply_filters();
    }

    /// Replaces the function filters; the view and the bisection stay.
    pub fn set_function_filters(&mut self, filters: Vec<String>)
        requires
            old(self).inv(),
        ensures
            final(self).inv(),
            final(self)@ == (SessionView { function_filters: string_views(filters@), ..old(self)@ }),
    {
        self.function_filters = filters;
    }

    /// Moves the cursor `jump` places forward, stopping at the last element.
    /// Refused while bisecting.
    pub fn next(&mut self, jump: usize) -> (r: Reply)
        requires
            old(self).inv(),
        ensures
            final(self).inv(),
            old(self)@.bisect is Some ==> r == Reply::Rejected(SessionError::InvalidModeCommand)
                && final(self)@ == old(self)@,
            old(self)@.bisect is None ==> r == Reply::Show && final(self)@ == old(self)@.stepped_next(
                jump,
            ),
    {
        if self.bisect.is_some() {
            return Reply::Rejected(SessionError::InvalidModeCommand);
        }
        let n = self.view.len();
        if n > 0 {
            let room = n - 1 - self.cursor;
            if jump >= room {
                self.cursor = n - 1;
            } else {
                self.cursor = self.cursor + jump;
            }
        }
        Reply::Show
    }

    /// Moves the cursor `jump` places back, stopping at the first element.
    /// Refused while bisecting.
    pub fn prev(&mut self, jump: usize) -> (r: Reply)
        requires
            old(self).inv(),
        ensures
            final(self).inv(),
            old(self)@.bisect is Some ==> r == Reply::Rejected(SessionError::InvalidModeCommand)
                && final(self)@ == old(self)@,
            old(self)@.bisect is None ==> r == Reply::Show && final(self)@ == old(self)@.stepped_prev(
                jump,
            ),
    {
        if self.bisect.is_some() {
            return Reply::Rejected(SessionError::InvalidModeCommand);
        }
        if jump >= self.cursor {
            self.cursor = 0;
        } else {
            self.cursor = self.cursor - jump;
        }
        Reply::Show
    }

    /// Starts (or restarts) a bisection over the whole view, on its midpoint.
    pub fn bisect_start(&mut self)
        requires
            old(self).inv(),
        ensures
            final(self).inv(),
            final(self)@ == old(self)@.bisect_started(),
    {
        let b = self.start_bounds_exec();
        self.bisect = Some(b);
        self.cursor = b.mid;
    }

    /// Leaves bisection; the cursor goes to the view's last element.
    pub fn bisect_end(&mut self)
        requires
            old(self).inv(),
        ensures
            final(self).inv(),
            final(self)@ == old(self)@.bisect_ended(),
    {
        let b = self.start_bounds_exec();
        self.bisect = None;
        self.cursor = b.hi;
    }

    /// Judges the transaction at the midpoint: good moves `lo` up to it,
    /// bad moves `hi` down to it, and the cursor goes to the new midpoint.
    /// Refused outside bisection, and once the bounds are adjacent.
    pub fn judge(&mut self, good: bool) -> (r: Reply)
        requires
            old(self).inv(),
        ensures
            final(self).inv(),
            (final(self)@, r) == old(self)@.judgment(good),
    {
        match self.bisect {
            None => Reply::Rejected(SessionError::InvalidModeCommand),
            Some(b) => {
                if b.hi - b.lo < 2 {
                    return Reply::Rejected(SessionError::BisectionFinished);
                }
                let lo = if good {
                    b.mid
                } else {
                    b.lo
                };
                let hi = if good {
                    b.hi
                } else {
                    b.mid
                };
                let mid = lo + (hi - lo) / 2;
                self.bisect = Some(Bisection { lo, mid, hi });
                self.cursor = mid;
                Reply::Show
            },
        }
    }
    /// The whole transaction list.
    pub fn transactions(&self) -> (r: &Vec<TransactionLog>)
        ensures
            tx_views(r@) == self@.txs,
    {
        &self.transactions
    }

    /// The filtered view: positions in the transaction list.
    pub fn view_positions(&self) -> (r: &Vec<usize>)
        ensures
            r@.map_values(|i: usize| i as int) == self@.view,
    {
        &self.view
    }

    /// The index into the view of the current transaction.
    pub fn cursor(&self) -> (r: usize)
        ensures
            r == self@.cursor,
    {
        self.cursor
    }

    /// The bisection bounds, while bisecting.
    pub fn bisection(&self) -> (r: Option<Bisection>)
        ensures
            r == self@.bisect,
    {
        self.bisect
    }

    pub fn function_filters(&self) -> (r: &Vec<String>)
        ensures
            string_views(r@) == self@.function_filters,
    {
        &self.function_filters
    }

    pub fn oid_filters(&self) -> (r: &Vec<String>)
        ensures
            string_views(r@) == self@.oid_filters,
    {
        &self.oid_filters
    }

    /// The transaction under the cursor; `None` for an empty view.
    pub fn current(&self) -> (r: Option<&TransactionLog>)
        requires
            self.inv(),
        ensures
            self@.view.len() == 0 <==> r is None,
            r matches Some(t) ==> t@ == self@.txs[self@.view[self@.cursor]],
    {
        proof {
            self.lemma_view_in_range();
        }
        if self.view.len() == 0 {
            None
        } else {
            let i = self.view[self.cursor];
            assert(self@.view[self@.cursor] == i as int);
            Some(&self.transactions[i])
        }
    }

    /// Carries out one command.
    pub fn apply(&mut self, cmd: Command) -> (r: Reply)
        requires
            old(self).inv(),
        ensures
            final(self).inv(),
            match cmd@ {
                CommandView::Next(n) => if old(self)@.bisect is Some {
                    r == Reply::Rejected(SessionError::InvalidModeCommand) && final(self)@ == old(
                        self,
                    )@
                } else {
                    r == Reply::Show && final(self)@ == old(self)@.stepped_next(n)
                },
                CommandView::Prev(n) => if old(self)@.bisect is Some {
                    r == Reply::Rejected(SessionError::InvalidModeCommand) && final(self)@ == old(
                        self,
                    )@
                } else {
                    r == Reply::Show && final(self)@ == old(self)@.stepped_prev(n)
                },
                CommandView::Filter(f) => r == Reply::Show && final(self)@ == (SessionView {
                    function_filters: f,
                    ..old(self)@
                }),
                CommandView::Oids(o) => r == Reply::Show && final(self)@ == old(self)@.refiltered(
                    old(self)@.oid_filters + o,
                ),
                CommandView::OidsClear => r == Reply::Show && final(self)@ == old(
                    self,
                )@.refiltered(Seq::empty()),
                CommandView::Traceback => {
                    &&& r == Reply::Show
                    &&& final(self)@ == old(self)@.refiltered(final(self)@.oid_filters)
                    &&& final(self)@.oid_filters.no_duplicates()
                    &&& final(self)@.oid_filters.to_set() == lineage(
                        old(self)@.txs,
                        old(self)@.oid_filters.to_set(),
                    )
                },
                CommandView::Dump => r == Reply::Dump && final(self)@ == old(self)@,
                CommandView::BisectStart => r == Reply::Show && final(self)@ == old(
                    self,
                )@.bisect_started(),
                CommandView::BisectEnd => r == Reply::Show && final(self)@ == old(
                    self,
                )@.bisect_ended(),
                CommandView::Good => (final(self)@, r) == old(self)@.judgment(true),
                CommandView::Bad => (final(self)@, r) == old(self)@.judgment(false),
                CommandView::InvalidArgument => r == Reply::Rejected(
                    SessionError::InvalidCommandArgument,
                ) && final(self)@ == old(self)@,
                CommandView::Unknown => r == Reply::Ignored && final(self)@ == old(self)@,
            },
    {
        match cmd {
            Command::Next(n) => self.next(n),
            Command::Prev(n) => self.prev(n),
            Command::Filter(f) => {
                self.set_function_filters(f);
                Reply::Show
            },
            Command::Oids(o) => {
                self.add_oids(o);
                Reply::Show
            },
            Command::OidsClear => {
                self.clear_oids();
                Reply::Show
            },
            Command::Traceback => {
                self.traceback();
                Reply::Show
            },
            Command::Dump => Reply::Dump,
            Command::BisectStart => {
                self.bisect_start();
                Reply::Show
            },
            Command::BisectEnd => {
                self.bisect_end();
                Reply::Show
            },
            Command::Good => self.judge(true),
            Command::Bad => self.judge(false),
            Command::InvalidArgument => Reply::Rejected(SessionError::InvalidCommandArgument),
            Command::Unknown => Reply::Ignored,
        }
    }
}

/// The bounds after a run of `good` (true) and `bad` (false) commands, first
/// to last.
pub open spec fn judge_all(b: Bisection, js: Seq<bool>) -> Bisection
    decreases js.len(),
{
    if js.len() == 0 {
        b
    } else {
        judge_step(judge_all(b, js.drop_last()), js.last())
    }
}

proof fn lemma_judge_all_ordered(b: Bisection, js: Seq<bool>)
    requires
        b.lo <= b.mid <= b.hi,
        b.mid == (b.lo + b.hi) / 2,
    ensures
        b.lo <= judge_all(b, js).lo,
        judge_all(b, js).lo <= judge_all(b, js).mid <= judge_all(b, js).hi <= b.hi,
        judge_all(b, js).mid == (judge_all(b, js).lo + judge_all(b, js).hi) / 2,
    decreases js.len(),
{
    if js.len() > 0 {
        lemma_judge_all_ordered(b, js.drop_last());
    }
}

/// However a bisection over a view of `n` transactions is judged,
/// `lo <= mid <= hi` holds and the bounds stay within the view.
pub proof fn lemma_bisection_ordered(n: nat, js: Seq<bool>)
    requires
        n <= usize::MAX,
    ensures
        judge_all(start_bounds(n as int), js).lo <= judge_all(start_bounds(n as int), js).mid
            <= judge_all(start_bounds(n as int), js).hi <= last_index(n as int),
{
    lemma_judge_all_ordered(start_bounds(n as int), js);
}

proof fn lemma_judgments_kept(b0: Bisection, js: Seq<bool>)
    requires
        b0.lo <= b0.mid <= b0.hi,
        b0.mid == (b0.lo + b0.hi) / 2,
    ensures
        forall|k: int|
            0 <= k < js.len() && is_open(judge_all(b0, #[trigger] js.take(k))) && !js[k] ==> {
                &&& judge_all(b0, js.take(k)).mid >= judge_all(b0, js).hi
                &&& judge_all(b0, js.take(k)).mid > judge_all(b0, js).lo
            },
        forall|k: int|
            0 <= k < js.len() && is_open(judge_all(b0, #[trigger] js.take(k))) && js[k] ==> {
                &&& judge_all(b0, js.take(k)).mid <= judge_all(b0, js).lo
                &&& judge_all(b0, js.take(k)).mid < judge_all(b0, js).hi
            },
    decreases js.len(),
{
    if js.len() > 0 {
        let p = js.drop_last();
        lemma_judgments_kept(b0, p);
        lemma_judge_all_ordered(b0, p);
        let last = js.len() - 1;
        assert(js.take(last) =~= p);
        let bp = judge_all(b0, p);
        let b = judge_all(b0, js);
        assert(b == judge_step(bp, js.last()));
        assert forall|k: int|
            0 <= k < js.len() && is_open(judge_all(b0, #[trigger] js.take(k))) && !js[k] implies {
            &&& judge_all(b0, js.take(k)).mid >= b.hi
            &&& judge_all(b0, js.take(k)).mid > b.lo
        } by {
            if k < last {
                assert(p.take(k) =~= js.take(k));
                assert(p[k] == js[k]);
            }
        }
        assert forall|k: int|
            0 <= k < js.len() && is_open(judge_all(b0, #[trigger] js.take(k))) && js[k] implies {
            &&& judge_all(b0, js.take(k)).mid <= b.lo
            &&& judge_all(b0, js.take(k)).mid < b.hi
        } by {
            if k < last {
                assert(p.take(k) =~= js.take(k));
                assert(p[k] == js[k]);
            }
        }
    }
}

/// Over any run of `good` and `bad` commands from the start of a
/// bisection, no transaction judged bad ever becomes `lo`, and none judged
/// good ever becomes `hi`. A command is a judgment of the midpoint when the
/// bounds are open; once they are adjacent it is refused and judges nothing.
pub proof fn lemma_bisection_judgments(n: nat, js: Seq<bool>)
    requires
        n <= usize::MAX,
    ensures
        forall|k: int|
            0 <= k < js.len() && is_open(judge_all(start_bounds(n as int), #[trigger] js.take(k)))
                && !js[k] ==> judge_all(start_bounds(n as int), js.take(k)).mid != judge_all(
                start_bounds(n as int),
                js,
            ).lo,
        forall|k: int|
            0 <= k < js.len() && is_open(judge_all(start_bounds(n as int), #[trigger] js.take(k)))
                && js[k] ==> judge_all(start_bounds(n as int), js.take(k)).mid != judge_all(
                start_bounds(n as int),
                js,
            ).hi,
{
    lemma_judgments_kept(start_bounds(n as int), js);
}

/// A `good` or `bad` command while bisecting moves the bounds by exactly one
/// `judge_step`, so a session's bounds follow `judge_all` over its commands
/// since the bisection last (re)started.
pub proof fn lemma_command_is_judge_step(s: SessionView, good: bool)
    requires
        s.bisect is Some,
    ensures
        s.judgment(good).0.bisect == Some(judge_step(s.bisect->0, good)),
{
}

/// Changing the oid filters while bisecting restarts the bisection over the
/// whole new view: `lo` is 0 and `hi` its last index, and the cursor goes to
/// that last index.
pub proof fn lemma_refilter_restarts_bisection(s: SessionView, oids: Seq<Seq<char>>)
    requires
        s.txs.len() <= usize::MAX,
        s.bisect is Some,
        filtered_view(s.txs, oids).len() > 0,
    ensures
        s.refiltered(oids).bisect matches Some(b) && b.lo == 0 && b.hi == filtered_view(
            s.txs,
            oids,
        ).len() - 1 && s.refiltered(oids).cursor == b.hi,
{
    lemma_view_bounds(s.txs, oids, s.txs.len() as int);
}

} // verus!
