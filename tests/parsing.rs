use txlog_explorer::model::TransactionLog;
use txlog_explorer::parse::{parse_log, ParseError};

fn sample_log() -> String {
    let lines = [
        "2024-01-01T10:00:00.000+00:00 1 INFO boot startup engine starting",
        "not a log line at all",
        "2024-01-01T10:00:01.000+00:00 2 DEBUG txn submit dump_transaction",
        "{",
        "  \"ops\": [",
        "    {\"op_name\": \"clone\", \"src_oid\": \"A\", \"dst_oid\": \"B\", \"src_offset\": 4, \"len\": 8}",
        "  ]",
        "}",
        "2024-01-01T10:00:02.000+00:00 3 INFO alloc_ctx alloc_extent got extent",
        "2024-01-01T10:00:03.000+00:00 4 DEBUG txn submit dump_transaction",
        "{",
        "  \"ops\": [",
        "    {\"op_name\": \"rename\", \"old_oid\": \"B\", \"new_oid\": \"C\"},",
        "    {\"op_name\": \"write\", \"oid\": \"C\", \"offset\": 10, \"length\": 20}",
        "  ]",
        "}",
        "2024-01-01T10:00:04.000+00:00 5 DEBUG txn submit dump_transaction",
        "{",
        "  \"ops\": []",
        "}",
        "",
    ];
    lines.join("\n")
}

fn parsed(text: &str) -> Vec<TransactionLog> {
    match parse_log(text) {
        Ok(t) => t,
        Err(e) => panic!("unexpected parse failure: {:?}", e),
    }
}

#[test]
fn one_transaction_per_boundary_plus_sentinel() {
    let t = parsed(&sample_log());
    assert_eq!(t.len(), 4);
    for (i, tx) in t.iter().enumerate() {
        assert_eq!(tx.id, i);
    }
    assert!(t[0].transaction.is_empty());
    assert!(t[0].raw_transaction.is_none());
}

#[test]
fn empty_text_gives_only_the_sentinel() {
    let t = parsed("");
    assert_eq!(t.len(), 1);
    assert_eq!(t[0].id, 0);
    assert!(t[0].contents.is_empty());
}

#[test]
fn log_lines_go_to_the_open_transaction() {
    let t = parsed(&sample_log());
    assert_eq!(t[0].contents.len(), 1);
    assert_eq!(t[0].contents[0].function, "startup");
    // the marker line is itself a log line of the transaction it opens
    assert_eq!(t[1].contents.len(), 2);
    assert_eq!(t[1].contents[0].log, "dump_transaction");
    assert_eq!(t[1].contents[1].context, "alloc_ctx");
    assert_eq!(t[1].contents[1].function, "alloc_extent");
    assert_eq!(t[3].contents.len(), 1);
}

#[test]
fn log_line_fields_are_positional() {
    let t = parsed("2024-01-01T12:00:00.123+02:00 77 WARN ctx fn_name the rest  of it");
    let l = &t[0].contents[0];
    assert_eq!(l.idk, "77");
    assert_eq!(l.log_level, "WARN");
    assert_eq!(l.context, "ctx");
    assert_eq!(l.function, "fn_name");
    assert_eq!(l.log, "the rest  of it");
    assert_eq!(l.date.utc_millis, 1704103200123);
    assert_eq!(l.date.offset_seconds, 7200);
}

#[test]
fn short_log_line_reads_missing_tags_as_empty() {
    let t = parsed("2024-01-01T10:00:00.000+00:00 9 INFO");
    let l = &t[0].contents[0];
    assert_eq!(l.idk, "9");
    assert_eq!(l.log_level, "INFO");
    assert_eq!(l.context, "");
    assert_eq!(l.function, "");
    assert_eq!(l.log, "");
}

#[test]
fn lines_without_timestamp_are_dropped() {
    let t = parsed("hello world\n2024-13-01T10:00:00.000+00:00 1 INFO c f m\n\n2024-01-01 1 INFO c f m");
    assert_eq!(t.len(), 1);
    assert!(t[0].contents.is_empty());
}

#[test]
fn operations_are_projected_with_defaults() {
    let t = parsed(&sample_log());
    let op = &t[1].transaction[0];
    assert_eq!(op.op_name, "clone");
    assert_eq!(op.src_oid, "A");
    assert_eq!(op.dst_oid, "B");
    assert_eq!(op.oid, "");
    assert_eq!(op.old_oid, "");
    assert_eq!(op.new_oid, "");
    assert_eq!(op.src_offset, 4);
    assert_eq!(op.len, 8);
    assert_eq!(op.offset, 0);
    assert_eq!(op.length, 0);
    assert_eq!(op.dst_offset, 0);
    assert_eq!(t[2].transaction.len(), 2);
    assert_eq!(t[2].transaction[0].old_oid, "B");
    assert_eq!(t[2].transaction[0].new_oid, "C");
    assert_eq!(t[2].transaction[1].oid, "C");
    assert_eq!(t[2].transaction[1].offset, 10);
    assert_eq!(t[2].transaction[1].length, 20);
    assert!(t[3].transaction.is_empty());
    assert!(t[3].raw_transaction.is_some());
}

#[test]
fn record_without_ops_array_has_no_operations() {
    let text = "x dump_transaction\n{\n\"ops\": 3,\n\"other\": [1]\n}\ny dump_transaction\n{\n}";
    let t = parsed(text);
    assert_eq!(t.len(), 3);
    assert!(t[1].transaction.is_empty());
    assert!(t[1].raw_transaction.is_some());
    assert!(t[2].transaction.is_empty());
}

#[test]
fn wrongly_typed_fields_read_as_absent() {
    let text = "{\n\"ops\": [{\"oid\": 5, \"offset\": \"x\", \"len\": -1}, 7]\n}";
    let t = parsed(text);
    assert_eq!(t[0].transaction.len(), 2);
    assert_eq!(t[0].transaction[0].oid, "");
    assert_eq!(t[0].transaction[0].offset, 0);
    assert_eq!(t[0].transaction[0].len, 0);
    assert_eq!(t[0].transaction[1].op_name, "");
}

#[test]
fn malformed_record_fails_the_parse() {
    let text = "a dump_transaction\n{\n\"ops\": [\n}\nb dump_transaction";
    assert_eq!(parse_log(text).unwrap_err(), ParseError::MalformedTransactionRecord { transaction: 1 });
}

#[test]
fn record_lines_are_not_log_lines() {
    let text = "{\n2024-01-01T10:00:00.000+00:00 1 INFO c f m\n}";
    // the captured text is not JSON
    assert!(parse_log(text).is_err());
    let ok = "{\n\"k\": \"2024-01-01T10:00:00.000+00:00 1 INFO c f m\"\n}";
    let t = parsed(ok);
    assert!(t[0].contents.is_empty());
}

#[test]
fn closing_brace_outside_a_record_is_dropped() {
    let t = parsed("}\n2024-01-01T10:00:00.000+00:00 1 INFO c f m");
    assert_eq!(t[0].contents.len(), 1);
}
