//! Scenario tests for the event historian: recording, deduplication,
//! suppression, ignore, amend, grouped args, and tidy.
use hyper_scripter::historian::{Event, EventData, EventType, Historian};

fn exec_event(sid: i64, t: i64, content: &str, args: &str) -> Event {
    Event {
        script_id: sid,
        time: t,
        cmd: String::from("hs run"),
        data: EventData::Exec { content: String::from(content), args: String::from(args) },
    }
}

fn done_event(sid: i64, t: i64, code: i32, main: i64) -> Event {
    Event {
        script_id: sid,
        time: t,
        cmd: String::from("hs run"),
        data: EventData::ExecDone { code, main_event_id: main },
    }
}

#[test]
fn dedup_exec_content() {
    let mut h = Historian::new();
    let e1 = h.record(exec_event(1, 10, "X", "1")).unwrap();
    let e2 = h.record(exec_event(1, 20, "X", "2")).unwrap();
    let rows = h.all_rows();
    let r1 = rows.iter().find(|r| r.id == e1).unwrap();
    let r2 = rows.iter().find(|r| r.id == e2).unwrap();
    assert_eq!(r1.content.as_deref(), Some("X"));
    assert!(r2.content.is_none());
    assert_eq!(r2.args.as_deref(), Some("2"));
}

#[test]
fn dedup_only_against_newest_content() {
    let mut h = Historian::new();
    h.record(exec_event(1, 10, "X", "1")).unwrap();
    let e2 = h.record(exec_event(1, 20, "Y", "2")).unwrap();
    let e3 = h.record(exec_event(1, 30, "X", "3")).unwrap();
    let rows = h.all_rows();
    let r2 = rows.iter().find(|r| r.id == e2).unwrap();
    let r3 = rows.iter().find(|r| r.id == e3).unwrap();
    assert_eq!(r2.content.as_deref(), Some("Y"));
    // the newest stored content is "Y", so "X" is stored again
    assert_eq!(r3.content.as_deref(), Some("X"));
}

#[test]
fn exec_done_suppressed_after_ignore() {
    let mut h = Historian::new();
    let e1 = h.record(exec_event(1, 10, "X", "1")).unwrap();
    h.ignore_args_by_id(e1).unwrap();
    let before = h.all_rows().len();
    let r = h.record(done_event(1, 11, 0, e1)).unwrap();
    assert_eq!(r, 0);
    assert_eq!(h.all_rows().len(), before);
}

#[test]
fn exec_done_links_and_records() {
    let mut h = Historian::new();
    let e1 = h.record(exec_event(1, 10, "X", "1")).unwrap();
    let d = h.record(done_event(1, 11, 3, e1)).unwrap();
    let rows = h.all_rows();
    let done = rows.iter().find(|r| r.id == d).unwrap();
    assert_eq!(done.main_event_id, e1);
    assert_eq!(done.ty, EventType::ExecDone);
    assert_eq!(done.content.as_deref(), Some("3"));
    // every done event points at an existing execution
    assert!(rows.iter().any(|r| r.ty == EventType::Exec && r.id == done.main_event_id));
}

#[test]
fn exec_done_without_exec_fails() {
    let mut h = Historian::new();
    assert!(h.record(done_event(1, 11, 0, 77)).is_err());
}

#[test]
fn last_time_of_is_max_non_ignored() {
    let mut h = Historian::new();
    h.record(exec_event(1, 10, "a", "1")).unwrap();
    let e2 = h.record(exec_event(1, 30, "b", "2")).unwrap();
    h.record(exec_event(1, 20, "c", "3")).unwrap();
    assert_eq!(h.last_time_of(1, EventType::Exec), Some(30));
    // ignoring the newest moves the answer to the next time
    h.ignore_args_by_id(e2).unwrap();
    assert_eq!(h.last_time_of(1, EventType::Exec), Some(20));
    assert_eq!(h.last_time_of(2, EventType::Exec), None);
}

#[test]
fn last_args_skips_ignored() {
    let mut h = Historian::new();
    h.record(exec_event(1, 10, "a", "old")).unwrap();
    let e2 = h.record(exec_event(1, 20, "b", "new")).unwrap();
    assert_eq!(h.last_args(1).as_deref(), Some("new"));
    let res = h.ignore_args_by_id(e2).unwrap();
    // the newest execution was ignored, so the refreshed times come back
    let ir = res.unwrap();
    assert_eq!(ir.script_id, 1);
    assert_eq!(ir.exec_time, Some(10));
    assert_eq!(h.last_args(1).as_deref(), Some("old"));
}

#[test]
fn ignore_then_amend_restores() {
    let mut h = Historian::new();
    let e1 = h.record(exec_event(1, 10, "a", "x")).unwrap();
    h.ignore_args_by_id(e1).unwrap();
    assert_eq!(h.last_args(1), None);
    h.amend_args_by_id(e1, String::from("fixed"));
    let row = h.all_rows().iter().find(|r| r.id == e1).unwrap().clone();
    assert!(!row.ignored);
    assert_eq!(row.args.as_deref(), Some("fixed"));
    assert_eq!(h.last_args(1).as_deref(), Some("fixed"));
}

#[test]
fn ignore_zero_is_noop() {
    let mut h = Historian::new();
    h.record(exec_event(1, 10, "a", "x")).unwrap();
    let before = h.all_rows().clone();
    let r = h.ignore_args_by_id(0).unwrap();
    assert!(r.is_none());
    assert_eq!(h.all_rows().len(), before.len());
    assert!(!h.all_rows()[0].ignored);
}

#[test]
fn grouped_args_newest_first_distinct() {
    let mut h = Historian::new();
    h.record(exec_event(1, 10, "a", "x")).unwrap();
    h.record(exec_event(1, 20, "b", "y")).unwrap();
    h.record(exec_event(1, 30, "c", "x")).unwrap();
    let groups = h.grouped_args(1);
    assert_eq!(groups.len(), 2);
    assert_eq!(groups[0].args, "x");
    assert_eq!(groups[0].time, 30);
    assert_eq!(groups[1].args, "y");
    assert_eq!(groups[1].time, 20);
}

#[test]
fn last_args_list_paginates() {
    let mut h = Historian::new();
    h.record(exec_event(1, 10, "a", "x")).unwrap();
    h.record(exec_event(1, 20, "b", "y")).unwrap();
    h.record(exec_event(1, 30, "c", "z")).unwrap();
    let l = h.last_args_list(1, 2, 0);
    assert_eq!(l, vec![String::from("z"), String::from("y")]);
    let l2 = h.last_args_list(1, 2, 2);
    assert_eq!(l2, vec![String::from("x")]);
    let l3 = h.last_args_list(1, 5, 9);
    assert!(l3.is_empty());
}

#[test]
fn ignore_args_by_number_hits_all_equal_args() {
    let mut h = Historian::new();
    let e1 = h.record(exec_event(1, 10, "a", "x")).unwrap();
    h.record(exec_event(1, 20, "b", "y")).unwrap();
    let e3 = h.record(exec_event(1, 30, "c", "x")).unwrap();
    // group 1 is args "x": both executions with args "x" get ignored
    let r = h.ignore_args(1, 1).unwrap();
    assert!(r.is_some());
    let rows = h.all_rows();
    assert!(rows.iter().find(|r| r.id == e1).unwrap().ignored);
    assert!(rows.iter().find(|r| r.id == e3).unwrap().ignored);
    assert_eq!(h.last_args(1).as_deref(), Some("y"));
}

#[test]
fn ignore_args_range_from_newest() {
    let mut h = Historian::new();
    let e1 = h.record(exec_event(1, 10, "a", "x")).unwrap();
    let e2 = h.record(exec_event(1, 20, "b", "y")).unwrap();
    let e3 = h.record(exec_event(1, 30, "c", "z")).unwrap();
    // rank 1 is the newest group; no lower bound ignores everything older too
    let r = h.ignore_args_range(1, 1, None).unwrap();
    assert!(r.is_some());
    let rows = h.all_rows();
    assert!(rows.iter().find(|r| r.id == e1).unwrap().ignored);
    assert!(rows.iter().find(|r| r.id == e2).unwrap().ignored);
    assert!(rows.iter().find(|r| r.id == e3).unwrap().ignored);
    assert_eq!(h.last_args(1), None);
}

#[test]
fn ignore_args_range_bounded() {
    let mut h = Historian::new();
    let e1 = h.record(exec_event(1, 10, "a", "x")).unwrap();
    let e2 = h.record(exec_event(1, 20, "b", "y")).unwrap();
    let e3 = h.record(exec_event(1, 30, "c", "z")).unwrap();
    // ignore from rank 2 back to just after rank 3: only the middle one
    let r = h.ignore_args_range(1, 2, Some(3)).unwrap();
    assert!(r.is_none());
    let rows = h.all_rows();
    assert!(!rows.iter().find(|r| r.id == e1).unwrap().ignored);
    assert!(rows.iter().find(|r| r.id == e2).unwrap().ignored);
    assert!(!rows.iter().find(|r| r.id == e3).unwrap().ignored);
}

#[test]
fn tidy_keeps_newest_per_args() {
    let mut h = Historian::new();
    h.record(exec_event(1, 1, "a", "x")).unwrap();
    h.record(exec_event(1, 2, "b", "y")).unwrap();
    h.record(exec_event(1, 3, "c", "x")).unwrap();
    h.tidy(1);
    let rows = h.all_rows();
    assert_eq!(rows.len(), 2);
    let times: Vec<i64> = rows.iter().map(|r| r.time).collect();
    assert_eq!(times, vec![2, 3]);
}

#[test]
fn tidy_cascades_done_events() {
    let mut h = Historian::new();
    let e1 = h.record(exec_event(1, 1, "a", "x")).unwrap();
    let d1 = h.record(done_event(1, 2, 0, e1)).unwrap();
    let e2 = h.record(exec_event(1, 3, "b", "x")).unwrap();
    let d2 = h.record(done_event(1, 4, 0, e2)).unwrap();
    h.tidy(1);
    let rows = h.all_rows();
    // the older execution and its done event are gone; the newest pair stays
    assert!(rows.iter().find(|r| r.id == e1).is_none());
    assert!(rows.iter().find(|r| r.id == d1).is_none());
    assert!(rows.iter().find(|r| r.id == e2).is_some());
    assert!(rows.iter().find(|r| r.id == d2).is_some());
}

#[test]
fn tidy_leaves_other_scripts_alone() {
    let mut h = Historian::new();
    h.record(exec_event(1, 1, "a", "x")).unwrap();
    h.record(exec_event(2, 2, "b", "x")).unwrap();
    h.record(exec_event(2, 3, "c", "x")).unwrap();
    h.tidy(2);
    let rows = h.all_rows();
    assert_eq!(rows.iter().filter(|r| r.script_id == 1).count(), 1);
    assert_eq!(rows.iter().filter(|r| r.script_id == 2).count(), 1);
}

#[test]
fn remove_deletes_a_scripts_events() {
    let mut h = Historian::new();
    h.record(exec_event(1, 1, "a", "x")).unwrap();
    h.record(exec_event(2, 2, "b", "y")).unwrap();
    h.remove(1);
    let rows = h.all_rows();
    assert_eq!(rows.len(), 1);
    assert_eq!(rows[0].script_id, 2);
}
