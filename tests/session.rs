use txlog_explorer::command::{parse_command, Command};
use txlog_explorer::parse::parse_log;
use txlog_explorer::session::{Bisection, Reply, Session, SessionError};

fn three_transactions() -> String {
    [
        "2024-01-01T10:00:00.000+00:00 1 DEBUG txn submit dump_transaction",
        "2024-01-01T10:00:00.500+00:00 2 INFO alloc_ctx reserve picked a slot",
        "2024-01-01T10:00:00.600+00:00 3 INFO io write_block wrote",
        "2024-01-01T10:00:00.700+00:00 4 INFO io do_alloc_bits allocated",
        "{",
        "  \"ops\": [ {\"op_name\": \"clone\", \"src_oid\": \"X\", \"dst_oid\": \"W\"} ]",
        "}",
        "2024-01-01T10:00:01.000+00:00 5 DEBUG txn submit dump_transaction",
        "{",
        "  \"ops\": [ {\"op_name\": \"rename\", \"old_oid\": \"X\", \"new_oid\": \"Y\"} ]",
        "}",
        "2024-01-01T10:00:02.000+00:00 6 DEBUG txn submit dump_transaction",
        "{",
        "  \"ops\": [ {\"op_name\": \"write\", \"oid\": \"Q\"} ]",
        "}",
    ]
    .join("\n")
}

/// A session over the three transactions, with the empty sentinel filtered
/// out so that the view holds exactly three elements.
fn three_view_session() -> Session {
    let mut s = Session::new(parse_log(&three_transactions()).unwrap());
    assert_eq!(s.apply(parse_command("oids X,Q")), Reply::Show);
    assert_eq!(s.view_positions(), &vec![1, 2, 3]);
    s
}

fn run(s: &mut Session, line: &str) -> Reply {
    s.apply(parse_command(line))
}

fn current_id(s: &Session) -> usize {
    s.current().unwrap().id
}

#[test]
fn new_session_starts_on_the_last_transaction() {
    let s = Session::new(parse_log(&three_transactions()).unwrap());
    assert_eq!(s.view_positions(), &vec![0, 1, 2, 3]);
    assert_eq!(s.cursor(), 3);
    assert_eq!(s.bisection(), None);
    assert!(s.oid_filters().is_empty());
    assert!(s.function_filters().is_empty());
    assert_eq!(current_id(&s), 3);
}

#[test]
fn next_five_clamps_to_the_last_index() {
    let mut s = three_view_session();
    assert_eq!(run(&mut s, "prev 2"), Reply::Show);
    assert_eq!(s.cursor(), 0);
    assert_eq!(run(&mut s, "next"), Reply::Show);
    assert_eq!(s.cursor(), 1);
    assert_eq!(run(&mut s, "next 5"), Reply::Show);
    assert_eq!(s.cursor(), 2);
    assert_eq!(current_id(&s), 3);
}

#[test]
fn prev_clamps_to_the_first_index() {
    let mut s = three_view_session();
    assert_eq!(run(&mut s, "prev 100"), Reply::Show);
    assert_eq!(s.cursor(), 0);
    assert_eq!(run(&mut s, "next 18446744073709551615"), Reply::Show);
    assert_eq!(s.cursor(), 2);
}

#[test]
fn non_numeric_jump_changes_nothing() {
    let mut s = three_view_session();
    assert_eq!(run(&mut s, "prev x1"), Reply::Rejected(SessionError::InvalidCommandArgument));
    assert_eq!(s.cursor(), 2);
}

#[test]
fn function_filter_keeps_matching_lines() {
    let mut s = Session::new(parse_log(&three_transactions()).unwrap());
    assert_eq!(run(&mut s, "prev 2"), Reply::Show);
    assert_eq!(current_id(&s), 1);
    assert_eq!(run(&mut s, "filter alloc"), Reply::Show);
    assert_eq!(s.function_filters(), &vec!["alloc".to_string()]);
    let tx = s.current().unwrap();
    let shown = tx.show(s.function_filters());
    assert_eq!(shown.lines, vec![1, 3]);
    for &i in &shown.lines {
        let l = &tx.contents[i];
        assert!(l.function.contains("alloc") || l.context.contains("alloc"));
    }
    // the function filter leaves the view and the cursor alone
    assert_eq!(s.view_positions(), &vec![0, 1, 2, 3]);
    assert_eq!(s.cursor(), 1);
}

#[test]
fn no_function_filter_shows_every_line() {
    let s = Session::new(parse_log(&three_transactions()).unwrap());
    let t = &s.transactions()[1];
    assert_eq!(t.show(&Vec::new()).lines, vec![0, 1, 2, 3]);
    let several = vec!["write".to_string(), "txn".to_string()];
    assert_eq!(t.show(&several).lines, vec![0, 2]);
}

#[test]
fn show_prints_the_record_back() {
    let s = Session::new(parse_log(&three_transactions()).unwrap());
    let t = &s.transactions()[2];
    let shown = t.show(&Vec::new());
    let expected = serde_json::to_string_pretty(t.raw_transaction.as_ref().unwrap()).unwrap();
    assert_eq!(shown.record, Some(expected.clone()));
    assert!(expected.contains("\"old_oid\": \"X\""));
    assert_eq!(s.transactions()[0].show(&Vec::new()).record, None);
}

#[test]
fn traceback_follows_rename_to_new_oid() {
    let mut s = Session::new(parse_log(&three_transactions()).unwrap());
    let x_log = "{\n\"ops\": [{\"old_oid\": \"X\", \"new_oid\": \"Y\"}]\n}";
    let mut s2 = Session::new(parse_log(x_log).unwrap());
    assert_eq!(run(&mut s2, "oids X"), Reply::Show);
    assert_eq!(run(&mut s2, "traceback"), Reply::Show);
    let mut got = s2.oid_filters().clone();
    got.sort();
    assert_eq!(got, vec!["X".to_string(), "Y".to_string()]);
    // on the larger log the clone to W joins in too
    assert_eq!(run(&mut s, "oids X"), Reply::Show);
    assert_eq!(s.view_positions(), &vec![1, 2]);
    assert_eq!(run(&mut s, "traceback"), Reply::Show);
    let mut got = s.oid_filters().clone();
    got.sort();
    assert_eq!(got, vec!["W".to_string(), "X".to_string(), "Y".to_string()]);
    assert_eq!(s.view_positions(), &vec![1, 2]);
    assert_eq!(s.cursor(), 1);
}

#[test]
fn oids_clear_restores_the_whole_log() {
    let mut s = three_view_session();
    assert_eq!(run(&mut s, "oids clear"), Reply::Show);
    assert!(s.oid_filters().is_empty());
    assert_eq!(s.view_positions(), &vec![0, 1, 2, 3]);
    assert_eq!(s.cursor(), 3);
}

#[test]
fn oid_filter_matching_nothing_empties_the_view() {
    let mut s = Session::new(parse_log(&three_transactions()).unwrap());
    assert_eq!(run(&mut s, "oids nothing"), Reply::Show);
    assert!(s.view_positions().is_empty());
    assert_eq!(s.cursor(), 0);
    assert!(s.current().is_none());
    assert_eq!(run(&mut s, "next 3"), Reply::Show);
    assert_eq!(s.cursor(), 0);
}

#[test]
fn bisection_narrows_to_the_first_bad() {
    let mut s = Session::new(parse_log(&three_transactions()).unwrap());
    assert_eq!(run(&mut s, "bisect start"), Reply::Show);
    assert_eq!(s.bisection(), Some(Bisection { lo: 0, mid: 1, hi: 3 }));
    assert_eq!(s.cursor(), 1);
    assert_eq!(run(&mut s, "good"), Reply::Show);
    assert_eq!(s.bisection(), Some(Bisection { lo: 1, mid: 2, hi: 3 }));
    assert_eq!(s.cursor(), 2);
    assert_eq!(run(&mut s, "bad"), Reply::Show);
    assert_eq!(s.bisection(), Some(Bisection { lo: 1, mid: 1, hi: 2 }));
    assert_eq!(s.cursor(), 1);
    let b = s.bisection().unwrap();
    assert!(b.lo <= b.mid && b.mid <= b.hi);
    assert_eq!(run(&mut s, "bad"), Reply::Rejected(SessionError::BisectionFinished));
    assert_eq!(run(&mut s, "bisect end"), Reply::Show);
    assert_eq!(s.bisection(), None);
    assert_eq!(s.cursor(), 3);
}

#[test]
fn judged_bounds_never_swap_sides() {
    let mut s = Session::new(parse_log(&"a dump_transaction\n".repeat(20)).unwrap());
    assert_eq!(s.view_positions().len(), 21);
    run(&mut s, "bisect start");
    let mut good_marks = Vec::new();
    let mut bad_marks = Vec::new();
    for verdict in ["bad", "good", "good", "bad", "good", "bad", "bad"] {
        let b = s.bisection().unwrap();
        if b.hi - b.lo < 2 {
            assert_eq!(run(&mut s, verdict), Reply::Rejected(SessionError::BisectionFinished));
            assert_eq!(s.bisection(), Some(b));
            continue;
        }
        if verdict == "good" {
            good_marks.push(b.mid);
        } else {
            bad_marks.push(b.mid);
        }
        assert_eq!(run(&mut s, verdict), Reply::Show);
        let b = s.bisection().unwrap();
        assert!(b.lo <= b.mid && b.mid <= b.hi && b.hi <= 20);
        assert!(!bad_marks.contains(&b.lo));
        assert!(!good_marks.contains(&b.hi));
    }
}

#[test]
fn judgments_after_the_search_ends_are_refused() {
    let mut s = Session::new(parse_log("a dump_transaction").unwrap());
    assert_eq!(s.view_positions().len(), 2);
    run(&mut s, "bisect start");
    assert_eq!(s.bisection(), Some(Bisection { lo: 0, mid: 0, hi: 1 }));
    assert_eq!(run(&mut s, "bad"), Reply::Rejected(SessionError::BisectionFinished));
    assert_eq!(run(&mut s, "good"), Reply::Rejected(SessionError::BisectionFinished));
    assert_eq!(s.bisection(), Some(Bisection { lo: 0, mid: 0, hi: 1 }));
    assert_eq!(s.cursor(), 0);
    let mut one = Session::new(parse_log("").unwrap());
    run(&mut one, "bisect start");
    assert_eq!(run(&mut one, "good"), Reply::Rejected(SessionError::BisectionFinished));
    assert_eq!(one.bisection(), Some(Bisection { lo: 0, mid: 0, hi: 0 }));
}

#[test]
fn judgments_outside_bisection_are_refused() {
    let mut s = three_view_session();
    assert_eq!(run(&mut s, "good"), Reply::Rejected(SessionError::InvalidModeCommand));
    assert_eq!(run(&mut s, "bad"), Reply::Rejected(SessionError::InvalidModeCommand));
    assert_eq!(s.cursor(), 2);
    assert_eq!(s.bisection(), None);
}

#[test]
fn navigation_inside_bisection_is_refused() {
    let mut s = three_view_session();
    run(&mut s, "bisect start");
    assert_eq!(run(&mut s, "next"), Reply::Rejected(SessionError::InvalidModeCommand));
    assert_eq!(run(&mut s, "prev 1"), Reply::Rejected(SessionError::InvalidModeCommand));
    assert_eq!(s.cursor(), 1);
}

#[test]
fn oid_filter_while_bisecting_restarts_bisection() {
    let mut s = Session::new(parse_log(&three_transactions()).unwrap());
    run(&mut s, "bisect start");
    run(&mut s, "good");
    assert_eq!(s.bisection(), Some(Bisection { lo: 1, mid: 2, hi: 3 }));
    assert_eq!(run(&mut s, "oids X"), Reply::Show);
    assert_eq!(s.view_positions(), &vec![1, 2]);
    assert_eq!(s.bisection(), Some(Bisection { lo: 0, mid: 0, hi: 1 }));
    assert_eq!(s.cursor(), 1);
    assert_eq!(run(&mut s, "oids clear"), Reply::Show);
    assert_eq!(s.bisection(), Some(Bisection { lo: 0, mid: 1, hi: 3 }));
    assert_eq!(s.cursor(), 3);
    assert_eq!(run(&mut s, "traceback"), Reply::Show);
    assert_eq!(s.bisection(), Some(Bisection { lo: 0, mid: 1, hi: 3 }));
}

#[test]
fn oids_clear_while_bisecting_puts_cursor_last() {
    let mut s = three_view_session();
    run(&mut s, "bisect start");
    assert_eq!(s.cursor(), 1);
    assert_eq!(run(&mut s, "oids clear"), Reply::Show);
    assert_eq!(s.view_positions().len(), 4);
    assert_eq!(s.cursor(), 3);
    assert_eq!(s.bisection(), Some(Bisection { lo: 0, mid: 1, hi: 3 }));
    // the next judgment moves the cursor back onto the midpoint
    assert_eq!(run(&mut s, "good"), Reply::Show);
    assert_eq!(s.cursor(), 2);
}

#[test]
fn function_filter_while_bisecting_keeps_bounds() {
    let mut s = Session::new(parse_log(&three_transactions()).unwrap());
    run(&mut s, "bisect start");
    run(&mut s, "good");
    run(&mut s, "filter io");
    assert_eq!(s.bisection(), Some(Bisection { lo: 1, mid: 2, hi: 3 }));
    assert_eq!(s.cursor(), 2);
}

#[test]
fn dump_and_unknown_leave_state_alone() {
    let mut s = three_view_session();
    run(&mut s, "prev");
    assert_eq!(run(&mut s, "dump"), Reply::Dump);
    assert_eq!(run(&mut s, "hello there"), Reply::Ignored);
    assert_eq!(run(&mut s, "oids"), Reply::Ignored);
    assert_eq!(s.cursor(), 1);
}

#[test]
fn commands_are_read_from_lines() {
    assert!(matches!(parse_command("next"), Command::Next(1)));
    assert!(matches!(parse_command("next 5"), Command::Next(5)));
    assert!(matches!(parse_command("next +7"), Command::Next(7)));
    assert!(matches!(parse_command("prev 0"), Command::Prev(0)));
    assert!(matches!(parse_command("next -1"), Command::InvalidArgument));
    assert!(matches!(parse_command("next "), Command::InvalidArgument));
    assert!(matches!(parse_command("next 18446744073709551616"), Command::InvalidArgument));
    assert!(matches!(parse_command("traceback"), Command::Traceback));
    assert!(matches!(parse_command("dump"), Command::Dump));
    assert!(matches!(parse_command("oids clear"), Command::OidsClear));
    assert!(matches!(parse_command("bisect start"), Command::BisectStart));
    assert!(matches!(parse_command("bisect end"), Command::BisectEnd));
    assert!(matches!(parse_command("good"), Command::Good));
    assert!(matches!(parse_command("bad"), Command::Bad));
    assert!(matches!(parse_command("bisect"), Command::Unknown));
    assert!(matches!(parse_command(""), Command::Unknown));
    match parse_command("oids a,b,,c") {
        Command::Oids(o) => assert_eq!(o, vec!["a", "b", "", "c"]),
        other => panic!("{:?}", other),
    }
    match parse_command("filter alloc,io extra") {
        Command::Filter(f) => assert_eq!(f, vec!["alloc", "io"]),
        other => panic!("{:?}", other),
    }
}
