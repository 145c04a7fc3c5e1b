//! Tests for the script repository: upsert, filter, recency, rename, and the
//! persistence round trip.
use hyper_scripter::error::Error;
use hyper_scripter::query::{do_script_query, do_script_query_strict, ScriptQuery};
use hyper_scripter::script::ScriptInfo;
use hyper_scripter::script_name::{string_into_script_name, ScriptName};
use hyper_scripter::script_repo::{ScriptRepo, Visibility};
use hyper_scripter::tag::{TagSelector, TagSelectorGroup, TagSet};

fn name_of(s: &str) -> ScriptName {
    string_into_script_name(String::from(s)).unwrap()
}

fn add_script(repo: &mut ScriptRepo, name: &str, tags: &[&str], created: i64) -> usize {
    let n = name_of(name);
    let mut set = TagSet::new();
    for t in tags {
        set.insert(hyper_scripter::tag::Tag::from_str(t).unwrap());
    }
    let info = ScriptInfo::builder(0, n.clone(), String::from("sh"), set).build(created);
    let (k, _) = repo.upsert(&n, info);
    k
}

#[test]
fn upsert_assigns_ids_and_finds() {
    let mut repo = ScriptRepo::new_empty();
    let k1 = add_script(&mut repo, "alpha", &[], 1);
    let k2 = add_script(&mut repo, "beta", &[], 2);
    assert_ne!(repo.entry_at(k1).id, repo.entry_at(k2).id);
    // upserting an existing name returns the same entry
    let k1b = add_script(&mut repo, "alpha", &[], 9);
    assert_eq!(k1, k1b);
    assert_eq!(repo.count(), 2);
    assert!(repo.get_mut(&name_of("alpha"), Visibility::Normal).is_some());
    assert!(repo.get_mut(&name_of("missing"), Visibility::Normal).is_none());
}

#[test]
fn filter_by_tag_hides_and_bang_sees_through() {
    let mut repo = ScriptRepo::new_empty();
    add_script(&mut repo, "seen", &["keep"], 1);
    add_script(&mut repo, "gone", &["hide"], 2);
    let mut g = TagSelectorGroup::new();
    g.push(TagSelector::from_str("all,^hide").unwrap());
    repo.filter_by_tag(&g);
    assert!(repo.get_mut(&name_of("seen"), Visibility::Normal).is_some());
    assert!(repo.get_mut(&name_of("gone"), Visibility::Normal).is_none());
    assert!(repo.get_mut(&name_of("gone"), Visibility::All).is_some());
    // a bang query resolves to the hidden script
    let q = ScriptQuery::from_str("=gone!").unwrap();
    assert!(do_script_query(&q, &repo).unwrap().is_some());
    let q2 = ScriptQuery::from_str("=gone").unwrap();
    assert!(do_script_query(&q2, &repo).unwrap().is_none());
    assert!(matches!(do_script_query_strict(&q2, &repo), Err(Error::NotFound(_))));
}

#[test]
fn previous_n_resolution() {
    let mut repo = ScriptRepo::new_empty();
    let ka = add_script(&mut repo, "aware", &[], 0);
    let kb = add_script(&mut repo, "bold", &[], 0);
    let kc = add_script(&mut repo, "calm", &[], 0);
    repo.exec_script(ka, String::from("a"), &vec![], 1, String::from("hs"));
    repo.exec_script(kb, String::from("b"), &vec![], 2, String::from("hs"));
    repo.exec_script(kc, String::from("c"), &vec![], 3, String::from("hs"));

    let q2 = ScriptQuery::from_str("^2").unwrap();
    let got = do_script_query(&q2, &repo).unwrap().unwrap();
    assert_eq!(got, kb);
    let q1 = ScriptQuery::from_str("^1").unwrap();
    assert_eq!(do_script_query(&q1, &repo).unwrap().unwrap(), kc);
    let dash = ScriptQuery::from_str("-").unwrap();
    assert_eq!(do_script_query(&dash, &repo).unwrap().unwrap(), kc);
    let q4 = ScriptQuery::from_str("^4").unwrap();
    assert!(do_script_query(&q4, &repo).unwrap().is_none());
    assert!(do_script_query_strict(&q4, &repo).is_err());
}

#[test]
fn rehydrate_from_stored_rows() {
    let mut repo = ScriptRepo::new_empty();
    let name = name_of("foo");
    let k = add_script(&mut repo, "foo", &["util"], 10);
    repo.write_script(k, 20, String::from("hs edit"));
    let run_id = repo.exec_script(
        k,
        String::from("echo hi"),
        &vec![String::from("x")],
        30,
        String::from("hs run"),
    );
    repo.exec_done_script(k, 0, run_id, 31, String::from("hs run")).unwrap();

    let rows = repo.export_scripts();
    let events = repo.export_events().clone();
    let ne = repo.next_event_id();
    let ns = repo.next_script_id();
    let id = repo.entry_at(k).id;

    let repo2 = ScriptRepo::open(rows, events, ne, ns);
    let k2 = repo2.get_mut(&name, Visibility::All).unwrap();
    let e = repo2.entry_at(k2);
    assert_eq!(e.id, id);
    assert_eq!(e.name.key(), "foo");
    assert_eq!(e.ty, "sh");
    assert!(e.tags.contains_name("util"));
    assert_eq!(e.created_time.time, 10);
    assert_eq!(e.read_time.time, 20);
    assert_eq!(e.write_time.time, 20);
    assert_eq!(e.exec_time.unwrap().time, 30);
    assert_eq!(e.exec_done_time.unwrap().time, 31);
}

#[test]
fn exec_records_run_and_done() {
    let mut repo = ScriptRepo::new_empty();
    let k = add_script(&mut repo, "job", &[], 0);
    let run_id = repo.exec_script(
        k,
        String::from("body"),
        &vec![String::from("a"), String::from("b")],
        5,
        String::from("hs"),
    );
    let events = repo.export_events();
    let exec = events.iter().find(|r| r.id == run_id).unwrap();
    assert_eq!(exec.args.as_deref(), Some("[\"a\",\"b\"]"));
    assert_eq!(exec.time, 5);
    let done_id = repo.exec_done_script(k, 7, run_id, 6, String::from("hs")).unwrap();
    assert!(done_id > 0);
    let events = repo.export_events();
    let done = events.iter().find(|r| r.id == done_id).unwrap();
    assert_eq!(done.main_event_id, run_id);
    assert_eq!(done.content.as_deref(), Some("7"));
    // a run id of another script is refused
    let other = add_script(&mut repo, "other", &[], 0);
    assert!(repo.exec_done_script(other, 0, run_id, 8, String::from("hs")).is_err());
}

#[test]
fn mv_renames_and_rejects_collisions() {
    let mut repo = ScriptRepo::new_empty();
    let k = add_script(&mut repo, "old", &[], 0);
    add_script(&mut repo, "taken", &[], 0);
    let err = repo.mv(k, Some(name_of("taken")), None, None, 5, String::from("hs mv"));
    assert!(matches!(err, Err(Error::ScriptExist(_))));
    repo.mv(
        k,
        Some(name_of("fresh")),
        Some(String::from("rb")),
        Some(TagSelector::from_str("+extra").unwrap()),
        5,
        String::from("hs mv"),
    )
        .unwrap();
    let k2 = repo.get_mut(&name_of("fresh"), Visibility::Normal).unwrap();
    let e = repo.entry_at(k2);
    assert_eq!(e.ty, "rb");
    assert!(e.tags.contains_name("extra"));
    assert_eq!(e.write_time.time, 5);
    assert!(repo.get_mut(&name_of("old"), Visibility::All).is_none());
}

#[test]
fn remove_keeps_history() {
    let mut repo = ScriptRepo::new_empty();
    let k = add_script(&mut repo, "temp", &[], 0);
    repo.exec_script(k, String::from("x"), &vec![], 1, String::from("hs"));
    let events_before = repo.export_events().len();
    repo.remove(&name_of("temp"));
    assert!(repo.get_mut(&name_of("temp"), Visibility::All).is_none());
    assert_eq!(repo.export_events().len(), events_before);
}

#[test]
fn miss_marks_and_recency_uses_it() {
    let mut repo = ScriptRepo::new_empty();
    let ka = add_script(&mut repo, "quiet", &[], 0);
    let kb = add_script(&mut repo, "busy", &[], 0);
    repo.exec_script(kb, String::from("x"), &vec![], 5, String::from("hs"));
    repo.miss_script(ka, 9, String::from("hs"));
    // the missed script is now the most recently active
    let order = repo.sorted_by_recency();
    assert_eq!(order[0], ka);
    assert_eq!(order[1], kb);
}

#[test]
fn remove_touches_only_the_named_entry() {
    let mut repo = ScriptRepo::new_empty();
    add_script(&mut repo, "keepme", &[], 0);
    let k = add_script(&mut repo, "temp", &[], 0);
    let _ = k;
    repo.remove(&name_of("missing"));
    assert_eq!(repo.count(), 2);
    repo.remove(&name_of("temp"));
    assert_eq!(repo.count(), 1);
    assert!(repo.get_mut(&name_of("keepme"), Visibility::Normal).is_some());
}

#[test]
fn exported_tags_round_trip_through_text() {
    let mut repo = ScriptRepo::new_empty();
    add_script(&mut repo, "multi", &["alpha", "beta"], 0);
    let rows = repo.export_scripts();
    assert!(rows[0].tags == "alpha,beta" || rows[0].tags == "beta,alpha");
    let repo2 = ScriptRepo::open(rows, Vec::new(), 1, repo.next_script_id());
    let k = repo2.get_mut(&name_of("multi"), Visibility::All).unwrap();
    assert!(repo2.entry_at(k).tags.contains_name("alpha"));
    assert!(repo2.entry_at(k).tags.contains_name("beta"));
    assert_eq!(repo2.entry_at(k).tags.count(), 2);
}
