//! Tests for names, queries, fuzzy matching, globs and argument planning.
use hyper_scripter::error::{handle_fs_err, handle_fs_res, Error, IoErrKind};
use hyper_scripter::fuzzy::{fuzz, fuzz_arr, is_prefix, score_of, FuzzItem, FuzzResult};
use hyper_scripter::list::{time_str, Grouping};
use hyper_scripter::query::{
    after_edit_action, edit_or_create, glob_to_regex, next_run_step, parse_prev, plan_run_args,
    AfterAction, DirQuery, EditQuery, EditTagArgs, ListQuery, RunStep, ScriptOrDirQuery,
    ScriptQuery, ScriptQueryInner,
};
use hyper_scripter::query::do_script_query;
use hyper_scripter::script::{ScriptInfo, ScriptTime};
use hyper_scripter::script_name::{string_into_script_name, ScriptName};
use hyper_scripter::script_repo::ScriptRepo;
use hyper_scripter::tag::{Tag, TagSelector, TagSelectorGroup, TagSet};
use hyper_scripter::util::{change_name_only, to_display_args};

fn items(keys: &[&str]) -> Vec<FuzzItem> {
    keys.iter().map(|k| FuzzItem { key: String::from(*k), last_time: 0 }).collect()
}

#[test]
fn script_names_parse_and_print() {
    let n = string_into_script_name(String::from("aaa/bbb")).unwrap();
    assert_eq!(n.key(), "aaa/bbb");
    assert!(!n.is_anonymous());
    assert_eq!(n.namespaces(), vec![String::from("aaa")]);
    assert_eq!(n.to_file_path(Some("sh")), "aaa/bbb.sh");

    let a = string_into_script_name(String::from(".42")).unwrap();
    assert!(a.is_anonymous());
    assert_eq!(a.key(), ".42");
    assert_eq!(a.to_file_path(Some("rb")), ".anonymous/42.rb");
    assert!(a.namespaces().is_empty());

    assert!(string_into_script_name(String::from("-dash")).is_err());
    assert!(string_into_script_name(String::from("a b")).is_err());
    assert!(string_into_script_name(String::from("a..b")).is_err());
    assert!(string_into_script_name(String::from(".4x")).is_err());
    assert!(string_into_script_name(String::from("")).is_err());
    assert!(string_into_script_name(String::from("a//b")).is_err());
    assert!(string_into_script_name(String::from("a/")).is_err());
}

#[test]
fn name_ordering_named_before_anonymous() {
    let named = string_into_script_name(String::from("zzz")).unwrap();
    let anon = string_into_script_name(String::from(".1")).unwrap();
    assert!(named.lt(&anon));
    assert!(!anon.lt(&named));
    let a = string_into_script_name(String::from("abc")).unwrap();
    let b = string_into_script_name(String::from("abd")).unwrap();
    assert!(a.lt(&b));
}

#[test]
fn script_query_grammar() {
    let q = ScriptQuery::from_str("=exact/name").unwrap();
    assert!(matches!(q.inner, ScriptQueryInner::Exact(_)));
    assert!(!q.bang);

    let q = ScriptQuery::from_str("-").unwrap();
    assert!(matches!(q.inner, ScriptQueryInner::Prev(1)));

    let q = ScriptQuery::from_str("^^^").unwrap();
    assert!(matches!(q.inner, ScriptQueryInner::Prev(3)));

    let q = ScriptQuery::from_str("^12").unwrap();
    assert!(matches!(q.inner, ScriptQueryInner::Prev(12)));

    let q = ScriptQuery::from_str("fuzzy!").unwrap();
    assert!(q.bang);
    assert!(matches!(q.inner, ScriptQueryInner::Fuzz(_)));

    let q = ScriptQuery::from_str("!").unwrap();
    assert!(q.bang);
    assert!(matches!(q.inner, ScriptQueryInner::Prev(1)));

    assert!(matches!(ScriptQuery::from_str("^0"), Err(Error::Format(_, _))));
    assert!(matches!(ScriptQuery::from_str("^x"), Err(Error::Format(_, _))));
    assert!(ScriptQuery::from_str("bad name").is_err());
}

#[test]
fn parse_prev_counts_carets() {
    assert_eq!(parse_prev("^^^^").unwrap(), 4);
    assert_eq!(parse_prev("^7").unwrap(), 7);
    assert!(parse_prev("^0").is_err());
    assert!(parse_prev("^1x").is_err());
}

#[test]
fn fuzzy_single_candidate_confidence() {
    // the query occurs contiguously: a confident answer
    let one = items(&["build/site"]);
    assert!(matches!(fuzz("site", &one, "/"), Some(FuzzResult::High(0))));
    // scattered occurrence: a low-confidence answer
    let one = items(&["bright"]);
    assert!(matches!(fuzz("bgt", &one, "/"), Some(FuzzResult::Low(0))));
    // no occurrence: no answer
    let one = items(&["bright"]);
    assert!(fuzz("zz", &one, "/").is_none());
}

#[test]
fn fuzzy_prefix_ambiguity() {
    let keys = items(&["aaa", "aaa/bbb", "aaa/ccc"]);
    match fuzz("aa", &keys, "/") {
        Some(FuzzResult::Multi { ans, others, still_others }) => {
            assert_eq!(ans, 0);
            assert_eq!(others, vec![1, 2]);
            assert!(still_others.is_empty());
        },
        other => panic!("expected a multi match, got {:?}", other),
    }
}

#[test]
fn fuzzy_recency_breaks_ties() {
    // equal scores without a prefix relation stay unresolved
    let keys = vec![
        FuzzItem { key: String::from("abc"), last_time: 1 },
        FuzzItem { key: String::from("abd"), last_time: 9 },
    ];
    assert_eq!(score_of("ab", "abc"), score_of("ab", "abd"));
    assert!(fuzz("ab", &keys, "/").is_none());
    // with a prefix relation, the more recently active candidate is the winner
    let keys = vec![
        FuzzItem { key: String::from("aa"), last_time: 9 },
        FuzzItem { key: String::from("aa/b"), last_time: 1 },
    ];
    match fuzz("aa", &keys, "/") {
        Some(FuzzResult::Multi { ans, others, still_others }) => {
            assert_eq!(ans, 0);
            assert_eq!(others, vec![1]);
            assert!(still_others.is_empty());
        },
        other => panic!("expected a multi match, got {:?}", other),
    }
}

#[test]
fn prefix_helper() {
    assert!(is_prefix("a", "a", "/"));
    assert!(is_prefix("a", "a/b", "/"));
    assert!(!is_prefix("a", "ab", "/"));
    assert!(!is_prefix("a/b", "a", "/"));
}

#[test]
fn glob_queries_translate_and_match() {
    assert_eq!(glob_to_regex("a.b*"), "^a\\.b.*$");
    let q = ListQuery::from_str("util/*").unwrap();
    assert!(q.is_match("util/sync"));
    assert!(!q.is_match("tool/sync"));
    let q2 = ListQuery::from_str("*.tmp").unwrap();
    assert!(q2.is_match("x.tmp"));
    assert!(!q2.is_match("xytmp"));
    // an unbalanced group survives translation but fails to compile
    assert!(matches!(ListQuery::from_str("a(*"), Err(Error::Format(_, _))));
    // text without a star parses as an ordinary query
    assert!(matches!(ListQuery::from_str("plain"), Ok(ListQuery::Query(_))));
}

#[test]
fn dir_query_joins_leaf() {
    let n = string_into_script_name(String::from("aa/bb/cc")).unwrap();
    assert_eq!(DirQuery::Root.join(&n).unwrap(), "cc");
    let d = DirQuery::NonRoot(String::from("new/dir"));
    assert_eq!(d.join(&n).unwrap(), "new/dir/cc");
    let anon = string_into_script_name(String::from(".3")).unwrap();
    assert!(DirQuery::Root.join(&anon).is_err());
}

#[test]
fn script_or_dir_query_forms() {
    assert!(matches!(
        ScriptOrDirQuery::from_str("/"),
        Ok(ScriptOrDirQuery::Dir(DirQuery::Root))
    ));
    match ScriptOrDirQuery::from_str("some/dir/") {
        Ok(ScriptOrDirQuery::Dir(DirQuery::NonRoot(d))) => assert_eq!(d, "some/dir"),
        other => panic!("expected a directory, got {:?}", other),
    }
    assert!(matches!(
        ScriptOrDirQuery::from_str("plain"),
        Ok(ScriptOrDirQuery::Script(ScriptName::Named(_)))
    ));
}

#[test]
fn display_args_escape_only_when_needed() {
    assert_eq!(to_display_args(String::from("plain")).unwrap(), "plain");
    assert_eq!(to_display_args(String::from("has space")).unwrap(), "\"has space\"");
    assert_eq!(to_display_args(String::from("tab\there")).unwrap(), "\"tab\\there\"");
}

#[test]
fn change_name_only_replaces_leaf() {
    assert_eq!(change_name_only("a/b/c", "x"), "a/b/x");
    assert_eq!(change_name_only("solo", "x"), "x");
}

#[test]
fn plan_run_args_merges_previous() {
    let merged = plan_run_args(
        vec![String::from("y")],
        true,
        false,
        Some(String::from("[\"x\"]")),
    )
        .unwrap();
    assert_eq!(merged, vec![String::from("x"), String::from("y")]);

    let plain = plan_run_args(vec![String::from("y")], false, false, None).unwrap();
    assert_eq!(plain, vec![String::from("y")]);

    assert!(matches!(
        plan_run_args(vec![], true, true, None),
        Err(Error::NoPreviousArgs)
    ));
    assert!(matches!(
        plan_run_args(vec![], true, false, Some(String::from("not json"))),
        Err(Error::Format(_, _))
    ));
}

#[test]
fn edit_or_create_flows() {
    let mut repo = ScriptRepo::new_empty();
    let tags = || EditTagArgs {
        content: TagSelector::from_str("fresh").unwrap(),
        explicit_tag: false,
        explicit_select: false,
    };
    // creating a new named script
    let q = ScriptQuery::from_str("=newbie").unwrap();
    let (k, created) = edit_or_create(
        &mut repo,
        EditQuery::Query(q),
        None,
        tags(),
        String::from("sh"),
        1,
    )
        .unwrap();
    assert!(created);
    assert!(repo.entry_at(k).tags.contains_name("fresh"));
    // editing it again resolves instead of creating
    let q = ScriptQuery::from_str("=newbie").unwrap();
    let (k2, created2) = edit_or_create(
        &mut repo,
        EditQuery::Query(q),
        None,
        tags(),
        String::from("sh"),
        2,
    )
        .unwrap();
    assert_eq!(k, k2);
    assert!(!created2);
    // a typed create over an existing name collides
    let q = ScriptQuery::from_str("=newbie").unwrap();
    let err = edit_or_create(
        &mut repo,
        EditQuery::Query(q),
        Some(String::from("rb")),
        tags(),
        String::from("sh"),
        3,
    );
    assert!(matches!(err, Err(Error::ScriptExist(_))));
    // a fresh anonymous script takes the next number
    let (ka, createda) = edit_or_create(
        &mut repo,
        EditQuery::NewAnonimous,
        None,
        tags(),
        String::from("sh"),
        4,
    )
        .unwrap();
    assert!(createda);
    assert!(repo.entry_at(ka).name.is_anonymous());
    assert_eq!(repo.entry_at(ka).name.key(), ".1");
    // a redundant selector option is refused
    let err = edit_or_create(
        &mut repo,
        EditQuery::NewAnonimous,
        None,
        EditTagArgs {
            content: TagSelector::from_str("t").unwrap(),
            explicit_tag: false,
            explicit_select: true,
        },
        String::from("sh"),
        5,
    );
    assert!(matches!(err, Err(Error::Redundant(_))));
}

#[test]
fn edit_existing_bang_finds_hidden() {
    let mut repo = ScriptRepo::new_empty();
    let name = string_into_script_name(String::from("test")).unwrap();
    let mut set = TagSet::new();
    set.insert(Tag::from_str("hide").unwrap());
    let info = ScriptInfo::builder(0, name.clone(), String::from("sh"), set).build(1);
    repo.upsert(&name, info);
    let mut g = TagSelectorGroup::new();
    g.push(TagSelector::from_str("all,^hide").unwrap());
    repo.filter_by_tag(&g);

    let tags = || EditTagArgs {
        content: TagSelector::from_str("gg").unwrap(),
        explicit_tag: false,
        explicit_select: false,
    };
    // without the bang the hidden script is unreachable, and creating under
    // the same name is refused
    let q = ScriptQuery::from_str("=test").unwrap();
    let r = edit_or_create(&mut repo, EditQuery::Query(q), None, tags(), String::from("sh"), 2);
    assert!(r.is_err());
    // with the bang the hidden script is found, tags untouched
    let q = ScriptQuery::from_str("=test!").unwrap();
    let (k, created) = edit_or_create(
        &mut repo,
        EditQuery::Query(q),
        None,
        tags(),
        String::from("sh"),
        3,
    )
        .unwrap();
    assert!(!created);
    assert!(repo.entry_at(k).tags.contains_name("hide"));
    assert!(!repo.entry_at(k).tags.contains_name("gg"));
}

#[test]
fn grouping_names() {
    assert_eq!(Grouping::from_name("none"), Grouping::Flat);
    assert!(Grouping::from_name("none").is_none());
    assert!(!Grouping::from_name("tree").is_none());
}

#[test]
fn ambiguous_fuzzy_reports_candidates() {
    let mut repo = ScriptRepo::new_empty();
    for n in ["aaa", "aaa/bbb", "aaa/ccc"] {
        let name = string_into_script_name(String::from(n)).unwrap();
        let info = ScriptInfo::builder(0, name.clone(), String::from("sh"), TagSet::new()).build(1);
        repo.upsert(&name, info);
    }
    let q = ScriptQuery::from_str("aa").unwrap();
    match do_script_query(&q, &repo) {
        Err(Error::Ambiguous(names)) => {
            assert_eq!(names.len(), 3);
            assert_eq!(names[0], "aaa");
        },
        other => panic!("expected ambiguity, got {:?}", other),
    }
}

#[test]
fn fs_errors_map_by_kind() {
    let p = vec![String::from("/tmp/x")];
    assert!(matches!(
        handle_fs_err(p.clone(), IoErrKind::PermissionDenied),
        Error::PermissionDenied(_)
    ));
    assert!(matches!(handle_fs_err(p.clone(), IoErrKind::NotFound), Error::PathNotFound(_)));
    assert!(matches!(handle_fs_err(p.clone(), IoErrKind::Other), Error::GeneralFS(_)));
    let ok: Result<u32, IoErrKind> = Ok(7);
    assert_eq!(handle_fs_res(p.clone(), ok).unwrap(), 7);
    let bad: Result<u32, IoErrKind> = Err(IoErrKind::NotFound);
    assert!(handle_fs_res(p, bad).is_err());
}

#[test]
fn time_strings() {
    assert_eq!(time_str(&None), "Never");
    assert_eq!(time_str(&Some(ScriptTime { time: 1234, changed: false })), "1234");
    assert_eq!(time_str(&Some(ScriptTime { time: -5, changed: false })), "-5");
}

#[test]
fn fuzz_arr_orders_completion_candidates() {
    // the winner first, then its prefixed continuations newest first, then
    // the unrelated close matches newest first
    let keys = vec![
        FuzzItem { key: String::from("aaa/bbb"), last_time: 1 },
        FuzzItem { key: String::from("aaa"), last_time: 9 },
        FuzzItem { key: String::from("aaa/ccc"), last_time: 5 },
        FuzzItem { key: String::from("xaxa"), last_time: 3 },
    ];
    let order = fuzz_arr("aa", &keys, "/");
    assert_eq!(order, vec![1, 2, 0, 3]);
    // a single plain answer comes back alone, and no match comes back empty
    let one = vec![FuzzItem { key: String::from("build"), last_time: 0 }];
    assert_eq!(fuzz_arr("uil", &one, "/"), vec![0]);
    assert!(fuzz_arr("zz", &one, "/").is_empty());
}

#[test]
fn whitespace_is_refused_everywhere_in_names() {
    assert!(string_into_script_name(String::from("a\tb")).is_err());
    assert!(string_into_script_name(String::from("a\nb")).is_err());
    assert!(string_into_script_name(String::from("plain_ok")).is_ok());
}

#[test]
fn tags_follow_the_name_rules() {
    assert!(Tag::from_str("a\tb").is_err());
    assert!(Tag::from_str("a/b").is_err());
    assert!(Tag::from_str("a..b").is_err());
    assert!(Tag::from_str("a.b").is_ok());
}

#[test]
fn run_steps_count_rounds_and_failures() {
    assert_eq!(next_run_step(3, 0, 0), RunStep::Launch);
    assert_eq!(next_run_step(3, 2, 1), RunStep::Launch);
    assert_eq!(next_run_step(3, 3, 0), RunStep::Finish { ok: true });
    assert_eq!(next_run_step(3, 3, 2), RunStep::Finish { ok: false });
    assert_eq!(next_run_step(0, 0, 0), RunStep::Finish { ok: true });
}

#[test]
fn after_edit_decides_by_freshness_and_change() {
    assert_eq!(after_edit_action(true, 10, 10), AfterAction::EmptyCreate);
    assert_eq!(after_edit_action(true, 10, 9), AfterAction::EmptyCreate);
    assert_eq!(after_edit_action(false, 10, 10), AfterAction::Nothing);
    assert_eq!(after_edit_action(true, 10, 11), AfterAction::RecordWrite);
    assert_eq!(after_edit_action(false, 10, 11), AfterAction::RecordWrite);
}

#[test]
fn selector_errors_carry_the_tag_code_and_text() {
    match TagSelector::from_str("a,^-bad,c") {
        Err(Error::Format(code, text)) => {
            assert_eq!(code, hyper_scripter::error::FormatCode::Tag);
            assert_eq!(text, "-bad");
        },
        other => panic!("expected a tag format error, got {:?}", other),
    }
}
