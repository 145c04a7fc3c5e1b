//! Tests for the tag selector algebra.
use hyper_scripter::error::Error;
use hyper_scripter::tag::{Tag, TagSelector, TagSelectorGroup, TagSet};

fn set_of(names: &[&str]) -> TagSet {
    let mut s = TagSet::new();
    for n in names {
        s.insert(Tag::from_str(n).unwrap());
    }
    s
}

fn group_of(selectors: &[&str]) -> TagSelectorGroup {
    let mut g = TagSelectorGroup::new();
    for s in selectors {
        g.push(TagSelector::from_str(s).unwrap());
    }
    g
}

#[test]
fn all_matches_every_nonempty_set() {
    let g = group_of(&["all"]);
    assert!(g.select(&set_of(&["a"])));
    assert!(g.select(&set_of(&["x", "y", "z"])));
}

#[test]
fn deny_all_matches_none() {
    let g = group_of(&["^all"]);
    assert!(!g.select(&set_of(&["a"])));
    assert!(!g.select(&set_of(&[])));
}

#[test]
fn two_tag_selector_matches_either() {
    let g = group_of(&["a,b"]);
    assert!(g.select(&set_of(&["a"])));
    assert!(g.select(&set_of(&["b", "c"])));
    assert!(!g.select(&set_of(&["c"])));
    assert!(!g.select(&set_of(&[])));
}

#[test]
fn later_control_wins_on_conflict() {
    let g = group_of(&["a,^a"]);
    assert!(!g.select(&set_of(&["a"])));
    let g2 = group_of(&["^a,a"]);
    assert!(g2.select(&set_of(&["a"])));
}

#[test]
fn append_selector_joins_the_group() {
    // "all" admits everything, the appended deny hides tag b
    let g = group_of(&["all", "+^b"]);
    assert!(g.select(&set_of(&["a"])));
    assert!(!g.select(&set_of(&["b"])));
    // a non-append selector replaces the group
    let g2 = group_of(&["^all", "a"]);
    assert!(g2.select(&set_of(&["a"])));
}

#[test]
fn mandatory_selector_must_pass() {
    let g = group_of(&["all", "+b!"]);
    assert!(g.select(&set_of(&["a", "b"])));
    assert!(!g.select(&set_of(&["a"])));
}

#[test]
fn selector_parsing_flags() {
    let s = TagSelector::from_str("+a,^b!").unwrap();
    assert!(s.append);
    assert!(s.mandatory);
    assert_eq!(s.tags.len(), 2);
    assert!(s.tags[0].allow);
    assert!(!s.tags[1].allow);
    assert_eq!(s.tags[1].tag.as_str(), "b");
}

#[test]
fn empty_tag_is_a_format_error() {
    assert!(matches!(Tag::from_str(""), Err(Error::Format(_, _))));
    assert!(matches!(TagSelector::from_str("a,,b"), Err(Error::Format(_, _))));
    assert!(matches!(TagSelector::from_str("+"), Err(Error::Format(_, _))));
}

#[test]
fn illegal_tag_character_is_a_format_error() {
    assert!(Tag::from_str("a b").is_err());
    assert!(Tag::from_str("-x").is_err());
    assert!(Tag::from_str("a!").is_err());
    assert!(Tag::from_str("ok-tag_1").is_ok());
}

#[test]
fn fill_allowed_map_inserts_and_removes() {
    let mut set = set_of(&["a", "b"]);
    // deny b, allow c; the reserved word is skipped on allow
    TagSelector::from_str("^b,c,all").unwrap().fill_allowed_map(&mut set);
    assert!(set.contains_name("a"));
    assert!(!set.contains_name("b"));
    assert!(set.contains_name("c"));
    assert!(!set.contains_name("all"));
    // a deny-all clears everything gathered so far
    let mut set2 = set_of(&["a", "b"]);
    TagSelector::from_str("^all,z").unwrap().fill_allowed_map(&mut set2);
    assert!(!set2.contains_name("a"));
    assert!(!set2.contains_name("b"));
    assert!(set2.contains_name("z"));
    assert_eq!(set2.count(), 1);
}

#[test]
fn into_allowed_iter_starts_empty() {
    let s = TagSelector::from_str("util,hide").unwrap();
    let set = s.into_allowed_iter();
    assert_eq!(set.count(), 2);
    assert!(set.contains_name("util"));
    assert!(set.contains_name("hide"));
}

#[test]
fn tag_set_keeps_names_once() {
    let mut set = TagSet::new();
    set.insert(Tag::from_str("a").unwrap());
    set.insert(Tag::from_str("a").unwrap());
    assert_eq!(set.count(), 1);
    set.remove("a");
    assert_eq!(set.count(), 0);
    assert!(!set.contains_name("a"));
}
