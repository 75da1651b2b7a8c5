use txlog_explorer::lineage::traceback;
use txlog_explorer::model::{TransactionLog, TransactionOp};

fn op(src: &str, dst: &str, old: &str, new: &str, oid: &str) -> TransactionOp {
    TransactionOp {
        op_name: String::new(),
        oid: oid.to_string(),
        src_oid: src.to_string(),
        dst_oid: dst.to_string(),
        new_oid: new.to_string(),
        old_oid: old.to_string(),
        offset: 0,
        length: 0,
        src_offset: 0,
        dst_offset: 0,
        len: 0,
    }
}

fn tx(id: usize, ops: Vec<TransactionOp>) -> TransactionLog {
    TransactionLog { id, transaction: ops, raw_transaction: None, contents: Vec::new() }
}

fn sorted(mut v: Vec<String>) -> Vec<String> {
    v.sort();
    v
}

fn strings(v: &[&str]) -> Vec<String> {
    v.iter().map(|s| s.to_string()).collect()
}

#[test]
fn trace_follows_renames_and_clones_both_ways() {
    let txs = vec![
        tx(0, vec![]),
        tx(1, vec![op("A", "B", "", "", "")]),
        tx(2, vec![op("", "", "B", "C", ""), op("", "", "", "", "Z")]),
        tx(3, vec![op("Q", "R", "", "", "")]),
    ];
    assert_eq!(sorted(traceback(&strings(&["C"]), &txs)), strings(&["A", "B", "C"]));
    assert_eq!(sorted(traceback(&strings(&["A"]), &txs)), strings(&["A", "B", "C"]));
    assert_eq!(sorted(traceback(&strings(&["R"]), &txs)), strings(&["Q", "R"]));
}

#[test]
fn trace_keeps_seeds_that_no_operation_names() {
    let txs = vec![tx(0, vec![op("A", "B", "", "", "")])];
    assert_eq!(sorted(traceback(&strings(&["nowhere", "nowhere"]), &txs)), strings(&["nowhere"]));
    assert!(traceback(&Vec::new(), &txs).is_empty());
}

#[test]
fn trace_ignores_unary_oids_and_half_pairs() {
    let txs = vec![tx(0, vec![op("A", "", "", "", "A"), op("", "", "", "B", ""), op("", "", "A", "", "")])];
    assert_eq!(traceback(&strings(&["A"]), &txs), strings(&["A"]));
}

#[test]
fn trace_terminates_on_a_two_cycle() {
    let txs = vec![
        tx(0, vec![op("A", "B", "", "", "")]),
        tx(1, vec![op("B", "A", "", "", "")]),
        tx(2, vec![op("", "", "A", "B", ""), op("", "", "B", "A", "")]),
    ];
    assert_eq!(sorted(traceback(&strings(&["A"]), &txs)), strings(&["A", "B"]));
    assert_eq!(sorted(traceback(&strings(&["B"]), &txs)), strings(&["A", "B"]));
}

#[test]
fn trace_result_is_closed_under_edges() {
    let txs = vec![
        tx(0, vec![op("A", "B", "", "", ""), op("", "", "C", "D", "")]),
        tx(1, vec![op("B", "C", "", "", ""), op("E", "F", "", "", "")]),
    ];
    let r = traceback(&strings(&["D"]), &txs);
    for t in &txs {
        for o in &t.transaction {
            for (a, b) in [(&o.src_oid, &o.dst_oid), (&o.old_oid, &o.new_oid)] {
                if !a.is_empty() && !b.is_empty() {
                    assert_eq!(r.contains(a), r.contains(b));
                }
            }
        }
    }
    assert_eq!(sorted(r), strings(&["A", "B", "C", "D"]));
}
