//! The parsed log: log lines, operations and transactions, with their views.

use vstd::prelude::*;

verus! {

/// A log line's timestamp: the instant in milliseconds since the Unix epoch
/// (UTC) and the offset from UTC, in seconds, that the line was written with.
#[derive(Debug, Clone, Copy, PartialEq, Eq, Structural)]
pub struct LogTimestamp {
    pub utc_millis: i64,
    pub offset_seconds: i32,
}

/// One free-text diagnostic entry.
#[derive(Debug)]
pub struct LogLine {
    pub date: LogTimestamp,
    pub idk: String,
    pub log_level: String,
    pub context: String,
    pub function: String,
    pub log: String,
}

pub struct LineView {
    pub date: LogTimestamp,
    pub idk: Seq<char>,
    pub log_level: Seq<char>,
    pub context: Seq<char>,
    pub function: Seq<char>,
    pub log: Seq<char>,
}

impl View for LogLine {
    type V = LineView;

    open spec fn view(&self) -> LineView {
        LineView {
            date: self.date,
            idk: self.idk@,
            log_level: self.log_level@,
            context: self.context@,
            function: self.function@,
            log: self.log@,
        }
    }
}

/// One structured action of a transaction. An absent oid field is the empty
/// string; an absent numeric field is zero.
#[derive(Debug)]
pub struct TransactionOp {
    pub op_name: String,
    pub oid: String,
    pub src_oid: String,
    pub dst_oid: String,
    pub new_oid: String,
    pub old_oid: String,
    pub offset: usize,
    pub length: usize,
    pub src_offset: usize,
    pub dst_offset: usize,
    pub len: usize,
}

pub struct OpView {
    pub op_name: Seq<char>,
    pub oid: Seq<char>,
    pub src_oid: Seq<char>,
    pub dst_oid: Seq<char>,
    pub new_oid: Seq<char>,
    pub old_oid: Seq<char>,
    pub offset: usize,
    pub length: usize,
    pub src_offset: usize,
    pub dst_offset: usize,
    pub len: usize,
}

impl View for TransactionOp {
    type V = OpView;

    open spec fn view(&self) -> OpView {
        OpView {
            op_name: self.op_name@,
            oid: self.oid@,
            src_oid: self.src_oid@,
            dst_oid: self.dst_oid@,
            new_oid: self.new_oid@,
            old_oid: self.old_oid@,
            offset: self.offset,
            length: self.length,
            src_offset: self.src_offset,
            dst_offset: self.dst_offset,
            len: self.len,
        }
    }
}

/// One transaction: its position in the log (the sentinel that holds what
/// precedes the first boundary is 0), its structured record if one was
/// seen, the operations projected from it, and the log lines that came with
/// it.
#[derive(Debug)]
pub struct TransactionLog {
    pub id: usize,
    pub transaction: Vec<TransactionOp>,
    pub raw_transaction: Option<serde_json::Value>,
    pub contents: Vec<LogLine>,
}

pub struct TxView {
    pub id: nat,
    pub ops: Seq<OpView>,
    pub raw: Option<serde_json::Value>,
    pub lines: Seq<LineView>,
}

impl View for TransactionLog {
    type V = TxView;

    open spec fn view(&self) -> TxView {
        TxView {
            id: self.id as nat,
            ops: self.transaction@.map_values(|o: TransactionOp| o@),
            raw: self.raw_transaction,
            lines: self.contents@.map_values(|l: LogLine| l@),
        }
    }
}

/// The views of a list of transactions.
pub open spec fn tx_views(t: Seq<TransactionLog>) -> Seq<TxView> {
    t.map_values(|x: TransactionLog| x@)
}

} // verus!
