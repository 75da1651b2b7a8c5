//! The log parser: free-text lines and structured records, cut into
//! transactions at each boundary marker.

use vstd::prelude::*;
use crate::model::{LineView, LogLine, OpView, TransactionLog, TransactionOp, TxView, tx_views};
use crate::record::{items, items_of, json_of, member, member_of, read_json, str_of, text_value, u64_of, unsigned_value};
use crate::stamp::{read_stamp, stamp_of, STAMP_LAYOUT};
use crate::text::{chars_of, contains_chars, is_substring, join_from, join_spec, lemma_split_nonempty, split_chars, split_spec, string_of, views};

verus! {

/// The substring that marks a line as the start of a new transaction.
pub const BOUNDARY: &'static str = "dump_transaction";

/// Why a log could not be parsed.
#[derive(Debug, Clone, Copy, PartialEq, Eq, Structural)]
pub enum ParseError {
    /// The structured record of the transaction with this id is not valid
    /// JSON.
    MalformedTransactionRecord { transaction: usize },
}

/// The parser's state after a prefix of the lines.
pub struct ScanState {
    pub done: Seq<TxView>,
    pub cur: TxView,
    pub capturing: bool,
    pub buffer: Seq<char>,
    pub failed: Option<nat>,
}

pub open spec fn empty_tx(id: nat) -> TxView {
    TxView { id, ops: Seq::empty(), raw: None, lines: Seq::empty() }
}

/// The string member `key` of `e`, or empty where there is none.
pub open spec fn text_field(e: serde_json::Value, key: Seq<char>) -> Seq<char> {
    match member_of(e, key) {
        Some(m) => match str_of(m) {
            Some(s) => s,
            None => Seq::empty(),
        },
        None => Seq::empty(),
    }
}

/// The unsigned member `key` of `e`, or zero where there is none.
pub open spec fn count_field(e: serde_json::Value, key: Seq<char>) -> usize {
    match member_of(e, key) {
        Some(m) => match u64_of(m) {
            Some(n) => n as usize,
            None => 0,
        },
        None => 0,
    }
}

/// The operation that a member of a record's operation list stands for.
pub open spec fn op_of(e: serde_json::Value) -> OpView {
    OpView {
        op_name: text_field(e, "op_name"@),
        oid: text_field(e, "oid"@),
        src_oid: text_field(e, "src_oid"@),
        dst_oid: text_field(e, "dst_oid"@),
        new_oid: text_field(e, "new_oid"@),
        old_oid: text_field(e, "old_oid"@),
        offset: count_field(e, "offset"@),
        length: count_field(e, "length"@),
        src_offset: count_field(e, "src_offset"@),
        dst_offset: count_field(e, "dst_offset"@),
        len: count_field(e, "len"@),
    }
}

/// The operations of a record: one for each element of its `ops` array,
/// none where it has no such array.
pub open spec fn ops_of(v: serde_json::Value) -> Seq<OpView> {
    match member_of(v, "ops"@) {
        Some(a) => match items_of(a) {
            Some(es) => es.map_values(|e: serde_json::Value| op_of(e)),
            None => Seq::empty(),
        },
        None => Seq::empty(),
    }
}

/// The `k`-th space-separated token, or empty where there is none.
pub open spec fn token(p: Seq<Seq<char>>, k: int) -> Seq<char> {
    if k < p.len() {
        p[k]
    } else {
        Seq::empty()
    }
}

/// The log line that a text line stands for: one whose first token is a
/// timestamp, then four positional tags, then the message.
pub open spec fn line_of(line: Seq<char>) -> Option<LineView> {
    let p = split_spec(line, ' ');
    match stamp_of(token(p, 0), STAMP_LAYOUT@) {
        Some(d) => Some(
            LineView {
                date: d,
                idk: token(p, 1),
                log_level: token(p, 2),
                context: token(p, 3),
                function: token(p, 4),
                log: if p.len() > 5 {
                    join_spec(p.skip(5), ' ')
                } else {
                    Seq::empty()
                },
            },
        ),
        None => None,
    }
}

pub open spec fn initial_scan() -> ScanState {
    ScanState {
        done: Seq::empty(),
        cur: empty_tx(0),
        capturing: false,
        buffer: Seq::empty(),
        failed: None,
    }
}

/// The boundary rule: a marker line closes the current transaction.
pub open spec fn at_boundary(st: ScanState, line: Seq<char>) -> ScanState {
    if is_substring(BOUNDARY@, line) {
        ScanState {
            done: st.done.push(st.cur),
            cur: empty_tx(st.done.len() + 1),
            capturing: st.capturing,
            buffer: st.buffer,
            failed: st.failed,
        }
    } else {
        st
    }
}

/// A closing brace ends the captured record.
pub open spec fn close_record(st: ScanState) -> ScanState {
    let text = st.buffer + seq!['}', '\n'];
    match json_of(text) {
        Some(v) => ScanState {
            done: st.done,
            cur: TxView { id: st.cur.id, ops: st.cur.ops + ops_of(v), raw: Some(v), lines: st.cur.lines },
            capturing: false,
            buffer: text,
            failed: None,
        },
        None => ScanState {
            done: st.done,
            cur: st.cur,
            capturing: false,
            buffer: text,
            failed: Some(st.cur.id),
        },
    }
}

/// What one line does to the parser's state.
pub open spec fn step(st: ScanState, line: Seq<char>) -> ScanState {
    if st.failed is Some {
        st
    } else {
        let s = at_boundary(st, line);
        if line == seq!['{'] {
            ScanState {
                done: s.done,
                cur: s.cur,
                capturing: true,
                buffer: seq!['{', '\n'],
                failed: s.failed,
            }
        } else if s.capturing && line == seq!['}'] {
            close_record(s)
        } else if s.capturing {
            ScanState {
                done: s.done,
                cur: s.cur,
                capturing: true,
                buffer: s.buffer + line.push('\n'),
                failed: s.failed,
            }
        } else {
            match line_of(line) {
                Some(l) => ScanState {
                    done: s.done,
                    cur: TxView { id: s.cur.id, ops: s.cur.ops, raw: s.cur.raw, lines: s.cur.lines.push(l) },
                    capturing: false,
                    buffer: s.buffer,
                    failed: s.failed,
                },
                None => s,
            }
        }
    }
}

/// The parser's state after all of `lines`, one step per line.
pub open spec fn scan(lines: Seq<Seq<char>>) -> ScanState
    decreases lines.len(),
{
    if lines.len() == 0 {
        initial_scan()
    } else {
        step(scan(lines.drop_last()), lines.last())
    }
}

/// The transactions of a log text, or the id of the transaction whose record
/// is malformed.
pub open spec fn parse_spec(text: Seq<char>) -> Result<Seq<TxView>, nat> {
    let st = scan(split_spec(text, '\n'));
    match st.failed {
        Some(id) => Err(id),
        None => Ok(st.done.push(st.cur)),
    }
}

fn read_text_field(e: &serde_json::Value, key: &str) -> (r: String)
    ensures
        r@ == text_field(*e, key@),
{
    match member(e, key) {
        Some(m) => match text_value(m) {
            Some(t) => t.to_owned(),
            None => String::new(),
        },
        None => String::new(),
    }
}

fn read_count_field(e: &serde_json::Value, key: &str) -> (r: usize)
    ensures
        r == count_field(*e, key@),
{
    match member(e, key) {
        Some(m) => match unsigned_value(m) {
            Some(n) => n as usize,
            None => 0,
        },
        None => 0,
    }
}

/// The operation that one element of a record's operation list stands for.
pub fn read_op(e: &serde_json::Value) -> (r: TransactionOp)
    ensures
        r@ == op_of(*e),
{
    TransactionOp {
        op_name: read_text_field(e, "op_name"),
        oid: read_text_field(e, "oid"),
        src_oid: read_text_field(e, "src_oid"),
        dst_oid: read_text_field(e, "dst_oid"),
        new_oid: read_text_field(e, "new_oid"),
        old_oid: read_text_field(e, "old_oid"),
        offset: read_count_field(e, "offset"),
        length: read_count_field(e, "length"),
        src_offset: read_count_field(e, "src_offset"),
        dst_offset: read_count_field(e, "dst_offset"),
        len: read_count_field(e, "len"),
    }
}

/// Appends the operations of record `v` to `out`.
pub fn read_ops(v: &serde_json::Value, out: &mut Vec<TransactionOp>)
    ensures
        final(out)@.map_values(|o: TransactionOp| o@) == old(out)@.map_values(
            |o: TransactionOp| o@,
        ) + ops_of(*v),
{
    let ghost start = out@.map_values(|o: TransactionOp| o@);
    match member(v, "ops") {
        Some(a) => match items(a) {
            Some(es) => {
                let ghost want = es@.map_values(|e: serde_json::Value| op_of(e));
                let mut i: usize = 0;
                while i < es.len()
                    invariant
                        i <= es.len(),
                        want == es@.map_values(|e: serde_json::Value| op_of(e)),
                        out@.map_values(|o: TransactionOp| o@) == start + want.take(i as int),
                    decreases es.len() - i,
                {
                    let op = read_op(&es[i]);
                    let ghost before = out@;
                    out.push(op);
                    assert(out@.map_values(|o: TransactionOp| o@) =~= before.map_values(
                        |o: TransactionOp| o@,
                    ).push(op@));
                    assert(want.take(i + 1) =~= want.take(i as int).push(op_of(es@[i as int])));
                    assert(out@.map_values(|o: TransactionOp| o@) =~= start + want.take(i + 1));
                    i += 1;
                }
                assert(want.take(es.len() as int) =~= want);
            },
            None => {
                assert(start + Seq::<OpView>::empty() =~= start);
            },
        },
        None => {
            assert(start + Seq::<OpView>::empty() =~= start);
        },
    }
}

fn token_string(p: &Vec<Vec<char>>, k: usize) -> (r: String)
    ensures
        r@ == token(views(p@), k as int),
{
    if k < p.len() {
        let c = p[k].clone();
        assert(c@ =~= p@[k as int]@);
        string_of(c)
    } else {
        String::new()
    }
}

/// The log line that a text line stands for, if its first token is a
/// timestamp.
pub fn read_log_line(line: &Vec<char>) -> (r: Option<LogLine>)
    ensures
        match r {
            Some(l) => line_of(line@) == Some(l@),
            None => line_of(line@) is None,
        },
{
    let p = split_chars(line, ' ');
    proof {
        lemma_split_nonempty(line@, ' ');
    }
    let first = token_string(&p, 0);
    match read_stamp(first.as_str(), STAMP_LAYOUT) {
        Some(d) => {
            let log = if p.len() > 5 {
                string_of(join_from(&p, 5, ' '))
            } else {
                String::new()
            };
            Some(
                LogLine {
                    date: d,
                    idk: token_string(&p, 1),
                    log_level: token_string(&p, 2),
                    context: token_string(&p, 3),
                    function: token_string(&p, 4),
                    log,
                },
            )
        },
        None => None,
    }
}

/// The number of lines that hold the boundary marker.
pub open spec fn boundary_count(lines: Seq<Seq<char>>) -> nat
    decreases lines.len(),
{
    if lines.len() == 0 {
        0
    } else {
        boundary_count(lines.drop_last()) + if is_substring(BOUNDARY@, lines.last()) {
            1nat
        } else {
            0nat
        }
    }
}

/// Once a record has failed to parse, later lines change nothing.
proof fn lemma_failure_sticks(lines: Seq<Seq<char>>, n: int)
    requires
        0 <= n <= lines.len(),
        scan(lines.take(n)).failed is Some,
    ensures
        scan(lines) == scan(lines.take(n)),
    decreases lines.len() - n,
{
    if n < lines.len() {
        assert(lines.take(n + 1).drop_last() =~= lines.take(n));
        lemma_failure_sticks(lines, n + 1);
    } else {
        assert(lines.take(n) =~= lines);
    }
}

proof fn lemma_scan_shape(lines: Seq<Seq<char>>)
    ensures
        scan(lines).failed is None ==> {
            &&& scan(lines).done.len() == boundary_count(lines)
            &&& scan(lines).cur.id == scan(lines).done.len()
            &&& forall|k: int|
                0 <= k < scan(lines).done.len() ==> #[trigger] scan(lines).done[k].id == k
        },
    decreases lines.len(),
{
    if lines.len() > 0 {
        lemma_scan_shape(lines.drop_last());
    }
}

/// A log that parses yields one transaction for each line that holds the
/// boundary marker, plus the leading sentinel, and each transaction's id is
/// its position.
pub proof fn lemma_one_transaction_per_boundary(text: Seq<char>)
    requires
        parse_spec(text) is Ok,
    ensures
        parse_spec(text)->Ok_0.len() == 1 + boundary_count(split_spec(text, '\n')),
        forall|k: int|
            0 <= k < parse_spec(text)->Ok_0.len() ==> #[trigger] parse_spec(text)->Ok_0[k].id == k,
{
    let lines = split_spec(text, '\n');
    lemma_scan_shape(lines);
    let t = parse_spec(text)->Ok_0;
    assert forall|k: int| 0 <= k < t.len() implies #[trigger] t[k].id == k by {
        if k < scan(lines).done.len() {
            assert(t[k] == scan(lines).done[k]);
        }
    }
}

/// Every line that opens a record comes after some boundary line.
pub open spec fn records_after_boundary(lines: Seq<Seq<char>>) -> bool {
    forall|k: int|
        0 <= k < lines.len() && #[trigger] lines[k] == seq!['{'] ==> exists|j: int|
            0 <= j < k && is_substring(BOUNDARY@, #[trigger] lines[j])
}

proof fn lemma_sentinel_bare_scan(lines: Seq<Seq<char>>)
    requires
        records_after_boundary(lines),
        scan(lines).failed is None,
    ensures
        scan(lines).done.len() == 0 ==> {
            &&& scan(lines).cur.ops.len() == 0
            &&& scan(lines).cur.raw is None
            &&& !scan(lines).capturing
            &&& forall|j: int| 0 <= j < lines.len() ==> !is_substring(BOUNDARY@, #[trigger] lines[j])
        },
        scan(lines).done.len() > 0 ==> scan(lines).done[0].ops.len() == 0 && scan(
            lines,
        ).done[0].raw is None,
    decreases lines.len(),
{
    if lines.len() > 0 {
        let p = lines.drop_last();
        assert forall|k: int|
            0 <= k < p.len() && #[trigger] p[k] == seq!['{'] implies exists|j: int|
            0 <= j < k && is_substring(BOUNDARY@, #[trigger] p[j]) by {
            assert(lines[k] == seq!['{']);
            let j = choose|j: int| 0 <= j < k && is_substring(BOUNDARY@, #[trigger] lines[j]);
            assert(p[j] == lines[j]);
        }
        lemma_sentinel_bare_scan(p);
        let st = scan(p);
        let l = lines.last();
        if st.done.len() == 0 && !is_substring(BOUNDARY@, l) {
            if l == seq!['{'] {
                let k = lines.len() - 1;
                assert(lines[k] == seq!['{']);
                let j = choose|j: int| 0 <= j < k && is_substring(BOUNDARY@, #[trigger] lines[j]);
                assert(p[j] == lines[j]);
            }
            assert forall|j: int| 0 <= j < lines.len() implies !is_substring(
                BOUNDARY@,
                #[trigger] lines[j],
            ) by {
                if j < p.len() {
                    assert(p[j] == lines[j]);
                }
            }
        }
    }
}

/// Where no record is opened before the first boundary line, the leading
/// sentinel transaction holds no record and no operations.
pub proof fn lemma_sentinel_has_no_record(text: Seq<char>)
    requires
        parse_spec(text) is Ok,
        records_after_boundary(split_spec(text, '\n')),
    ensures
        parse_spec(text)->Ok_0[0].ops.len() == 0,
        parse_spec(text)->Ok_0[0].raw is None,
{
    lemma_sentinel_bare_scan(split_spec(text, '\n'));
}

fn append_line(buffer: &mut Vec<char>, line: &Vec<char>)
    ensures
        final(buffer)@ == old(buffer)@ + line@.push('\n'),
{
    let ghost start = buffer@;
    let mut j: usize = 0;
    while j < line.len()
        invariant
            j <= line.len(),
            buffer@ == start + line@.take(j as int),
        decreases line.len() - j,
    {
        buffer.push(line[j]);
        assert(line@.take(j + 1) =~= line@.take(j as int).push(line[j as int]));
        j += 1;
    }
    buffer.push('\n');
    assert(line@.take(line.len() as int) =~= line@);
    assert(buffer@ =~= start + line@.push('\n'));
}

/// Parses a whole log into its transactions. Fails only where a structured
/// record is not valid JSON, naming that record's transaction.
pub fn parse_log(text: &str) -> (r: Result<Vec<TransactionLog>, ParseError>)
    ensures
        match r {
            Ok(t) => parse_spec(text@) == Ok::<Seq<TxView>, nat>(tx_views(t@)),
            Err(ParseError::MalformedTransactionRecord { transaction }) => parse_spec(text@) == Err::<
                Seq<TxView>,
                nat,
            >(transaction as nat),
        },
{
    let chars = chars_of(text);
    let lines = split_chars(&chars, '\n');
    let marker = chars_of(BOUNDARY);
    let ghost ls = views(lines@);
    let mut done: Vec<TransactionLog> = Vec::new();
    let mut cur = TransactionLog {
        id: 0,
        transaction: Vec::new(),
        raw_transaction: None,
        contents: Vec::new(),
    };
    let mut capturing = false;
    let mut buffer: Vec<char> = Vec::new();
    let mut i: usize = 0;
    proof {
        assert(ls.take(0) =~= Seq::<Seq<char>>::empty());
        assert(tx_views(done@) =~= Seq::<TxView>::empty());
        assert(cur@.ops =~= Seq::<OpView>::empty());
        assert(cur@.lines =~= Seq::<LineView>::empty());
    }
    while i < lines.len()
        invariant
            ls == views(lines@),
            ls == split_spec(text@, '\n'),
            i <= lines.len(),
            marker@ == BOUNDARY@,
            scan(ls.take(i as int)).failed is None,
            tx_views(done@) == scan(ls.take(i as int)).done,
            cur@ == scan(ls.take(i as int)).cur,
            capturing == scan(ls.take(i as int)).capturing,
            buffer@ == scan(ls.take(i as int)).buffer,
            cur.id == done.len(),
        decreases lines.len() - i,
    {
        let line = &lines[i];
        let ghost st = scan(ls.take(i as int));
        proof {
            assert(ls.take(i + 1).drop_last() =~= ls.take(i as int));
            assert(ls.take(i + 1).last() == line@);
        }
        let ghost s = at_boundary(st, line@);
        if contains_chars(line, &marker) {
            let ghost before = done@;
            done.push(cur);
            cur = TransactionLog {
                id: done.len(),
                transaction: Vec::new(),
                raw_transaction: None,
                contents: Vec::new(),
            };
            proof {
                assert(tx_views(done@) =~= tx_views(before).push(st.cur));
                assert(cur@.ops =~= Seq::<OpView>::empty());
                assert(cur@.lines =~= Seq::<LineView>::empty());
            }
        }
        assert(tx_views(done@) == s.done && cur@ == s.cur);
        if line.len() == 1 && line[0] == '{' {
            assert(line@ =~= seq!['{']);
            capturing = true;
            buffer = vec!['{', '\n'];
            assert(buffer@ =~= seq!['{', '\n']);
        } else if capturing && line.len() == 1 && line[0] == '}' {
            assert(line@ =~= seq!['}']);
            buffer.push('}');
            buffer.push('\n');
            let ghost text_seq = s.buffer + seq!['}', '\n'];
            assert(buffer@ =~= text_seq);
            let block = string_of(buffer.clone());
            match read_json(block.as_str()) {
                Ok(v) => {
                    read_ops(&v, &mut cur.transaction);
                    cur.raw_transaction = Some(v);
                    capturing = false;
                },
                Err(_) => {
                    proof {
                        lemma_failure_sticks(ls, i + 1);
                        assert(ls.take(lines.len() as int) =~= ls);
                    }
                    return Err(ParseError::MalformedTransactionRecord { transaction: cur.id });
                },
            }
        } else if capturing {
            assert(line@ != seq!['{']);
            append_line(&mut buffer, line);
        } else {
            assert(line@ != seq!['{']);
            match read_log_line(line) {
                Some(l) => {
                    let ghost before = cur.contents@;
                    cur.contents.push(l);
                    assert(cur.contents@.map_values(|x: LogLine| x@) =~= before.map_values(
                        |x: LogLine| x@,
                    ).push(l@));
                },
                None => {},
            }
        }
        i += 1;
    }
    proof {
        assert(ls.take(lines.len() as int) =~= ls);
    }
    let ghost before = done@;
    let ghost last = cur@;
    done.push(cur);
    assert(tx_views(done@) =~= tx_views(before).push(last));
    Ok(done)
}

} // verus!
