use rlist::entry::Entry;
use rlist::errors::{ConflictColumn, RlistError};
use rlist::rlist::RList;

fn add_simple(list: &mut RList, name: &str, url: &str, topics: &[&str]) -> Entry {
    list.add(
        name.to_string(),
        url.to_string(),
        None,
        topics.iter().map(|t| t.to_string()).collect(),
    )
    .expect("add should succeed")
}

fn topic_names(list: &RList, entry_name: &str) -> Vec<String> {
    let all = list.dump_all();
    for e in all {
        if e.name == entry_name {
            return e.topics;
        }
    }
    panic!("entry {} not found", entry_name);
}

#[test]
fn add_returns_entry_with_fields() {
    let mut list = RList::new();
    let e = list
        .add(
            "foo".to_string(),
            "http://x".to_string(),
            Some("ada".to_string()),
            vec!["tech".to_string()],
        )
        .unwrap();
    assert_eq!(e.name, "foo");
    assert_eq!(e.url, "http://x");
    assert_eq!(e.author.as_deref(), Some("ada"));
    assert_eq!(e.topics, vec!["tech".to_string()]);
    assert!(e.added.len() >= 19);
}

#[test]
fn add_conflicting_name_fails_and_keeps_store() {
    let mut list = RList::new();
    add_simple(&mut list, "foo", "http://x", &[]);
    let r = list.add("foo".to_string(), "http://y".to_string(), None, vec![]);
    assert_eq!(
        r.unwrap_err(),
        RlistError::Conflict { column: ConflictColumn::Name }
    );
    assert_eq!(list.dump_all().len(), 1);
}

#[test]
fn add_conflicting_url_fails_and_keeps_store() {
    let mut list = RList::new();
    add_simple(&mut list, "foo", "http://x", &[]);
    let r = list.add("bar".to_string(), "http://x".to_string(), None, vec![]);
    assert_eq!(
        r.unwrap_err(),
        RlistError::Conflict { column: ConflictColumn::Url }
    );
    assert_eq!(list.dump_all().len(), 1);
}

#[test]
fn topic_creation_is_idempotent() {
    let mut list = RList::new();
    add_simple(&mut list, "a", "u:a", &["tech"]);
    add_simple(&mut list, "b", "u:b", &["tech"]);
    assert_eq!(list.store.topics.len(), 1);
    assert_eq!(list.store.links.len(), 2);
}

#[test]
fn duplicate_topics_in_one_add_link_once() {
    let mut list = RList::new();
    add_simple(&mut list, "a", "u:a", &["tech", "tech"]);
    assert_eq!(list.store.topics.len(), 1);
    assert_eq!(list.store.links.len(), 1);
}

#[test]
fn remove_by_name_returns_entry_with_topics() {
    let mut list = RList::new();
    add_simple(&mut list, "a", "u:a", &["t1", "t2"]);
    let removed = list.remove_by_name("a".to_string()).unwrap();
    assert_eq!(removed.name, "a");
    assert_eq!(removed.topics, vec!["t1".to_string(), "t2".to_string()]);
    assert_eq!(list.dump_all().len(), 0);
}

#[test]
fn remove_by_name_missing_is_not_found() {
    let mut list = RList::new();
    assert_eq!(
        list.remove_by_name("nope".to_string()).unwrap_err(),
        RlistError::NotFound
    );
}

#[test]
fn removing_entry_cascades_to_links() {
    let mut list = RList::new();
    add_simple(&mut list, "a", "u:a", &["t1", "t2"]);
    add_simple(&mut list, "b", "u:b", &["t1"]);
    list.remove_by_name("a".to_string()).unwrap();
    // no orphan link rows: every remaining link references a live entry
    assert_eq!(list.store.links.len(), 1);
    for l in &list.store.links {
        assert!(list.store.entries.iter().any(|e| e.entry_id == l.entry_id));
        assert!(list.store.topics.iter().any(|t| t.topic_id == l.topic_id));
    }
}

#[test]
fn example_scenario_add_query_remove() {
    let mut list = RList::new();
    list.add(
        "foo".to_string(),
        "http://x".to_string(),
        None,
        vec!["tech".to_string()],
    )
    .unwrap();
    let found = list.query(
        None,
        Some(vec!["tech".to_string()]),
        None,
        None,
        None,
        false,
        None,
        None,
        false,
    );
    assert_eq!(found.len(), 1);
    assert_eq!(found[0].name, "foo");
    list.remove_by_name("foo".to_string()).unwrap();
    let rest = list.query(None, None, None, None, None, false, None, None, false);
    assert_eq!(rest.len(), 0);
    // the topic row survives the removal of its last entry
    assert!(list.store.topics.iter().any(|t| t.name == "tech"));
}

#[test]
fn edit_topics_replaces_the_whole_set() {
    let mut list = RList::new();
    add_simple(&mut list, "e", "u:e", &["a", "b"]);
    let edited = list
        .edit(
            "e".to_string(),
            None,
            None,
            None,
            Some(vec!["c".to_string()]),
            None,
            false,
            None,
        )
        .unwrap();
    assert_eq!(edited.topics, vec!["c".to_string()]);
    assert_eq!(topic_names(&list, "e"), vec!["c".to_string()]);
}

#[test]
fn edit_add_topics_appends() {
    let mut list = RList::new();
    add_simple(&mut list, "e", "u:e", &["a", "b"]);
    let edited = list
        .edit(
            "e".to_string(),
            None,
            None,
            None,
            None,
            Some(vec!["c".to_string()]),
            false,
            None,
        )
        .unwrap();
    assert_eq!(
        edited.topics,
        vec!["a".to_string(), "b".to_string(), "c".to_string()]
    );
}

#[test]
fn edit_remove_topics_unlinks_only_those() {
    let mut list = RList::new();
    add_simple(&mut list, "e", "u:e", &["a", "b"]);
    let edited = list
        .edit(
            "e".to_string(),
            None,
            None,
            None,
            None,
            None,
            false,
            Some(vec!["a".to_string()]),
        )
        .unwrap();
    assert_eq!(edited.topics, vec!["b".to_string()]);
}

#[test]
fn edit_topics_takes_precedence_over_add_topics() {
    let mut list = RList::new();
    add_simple(&mut list, "e", "u:e", &["a", "b"]);
    let edited = list
        .edit(
            "e".to_string(),
            None,
            None,
            None,
            Some(vec!["c".to_string()]),
            Some(vec!["d".to_string()]),
            false,
            None,
        )
        .unwrap();
    assert_eq!(edited.topics, vec!["c".to_string()]);
}

#[test]
fn edit_clear_topics_clears() {
    let mut list = RList::new();
    add_simple(&mut list, "e", "u:e", &["a", "b"]);
    let edited = list
        .edit("e".to_string(), None, None, None, None, None, true, None)
        .unwrap();
    assert!(edited.topics.is_empty());
}

#[test]
fn edit_with_no_options_is_invalid() {
    let mut list = RList::new();
    add_simple(&mut list, "e", "u:e", &[]);
    let r = list.edit("e".to_string(), None, None, None, None, None, false, None);
    assert_eq!(r.unwrap_err(), RlistError::InvalidArgument);
}

#[test]
fn edit_missing_entry_is_not_found() {
    let mut list = RList::new();
    let r = list.edit(
        "ghost".to_string(),
        Some("new".to_string()),
        None,
        None,
        None,
        None,
        false,
        None,
    );
    assert_eq!(r.unwrap_err(), RlistError::NotFound);
}

#[test]
fn edit_renames_and_updates_fields() {
    let mut list = RList::new();
    add_simple(&mut list, "old", "u:old", &[]);
    let edited = list
        .edit(
            "old".to_string(),
            Some("new".to_string()),
            Some("auth".to_string()),
            Some("u:new".to_string()),
            None,
            None,
            false,
            None,
        )
        .unwrap();
    assert_eq!(edited.name, "new");
    assert_eq!(edited.url, "u:new");
    assert_eq!(edited.author.as_deref(), Some("auth"));
    assert_eq!(list.dump_all()[0].name, "new");
}

#[test]
fn edit_rename_onto_taken_name_fails() {
    let mut list = RList::new();
    add_simple(&mut list, "a", "u:a", &[]);
    add_simple(&mut list, "b", "u:b", &[]);
    let r = list.edit(
        "a".to_string(),
        Some("b".to_string()),
        None,
        None,
        None,
        None,
        false,
        None,
    );
    assert_eq!(r.unwrap_err(), RlistError::Infrastructure);
    // the store is unchanged
    let names: Vec<String> = list.dump_all().into_iter().map(|e| e.name).collect();
    assert_eq!(names, vec!["a".to_string(), "b".to_string()]);
}

#[test]
fn remove_by_topic_removes_all_linked_entries() {
    let mut list = RList::new();
    add_simple(&mut list, "a", "u:a", &["x", "keep"]);
    add_simple(&mut list, "b", "u:b", &["x"]);
    add_simple(&mut list, "c", "u:c", &["keep"]);
    let removed = list.remove_by_topic("x".to_string()).unwrap();
    let removed_names: Vec<String> = removed.into_iter().map(|e| e.name).collect();
    assert_eq!(removed_names, vec!["a".to_string(), "b".to_string()]);
    let left: Vec<String> = list.dump_all().into_iter().map(|e| e.name).collect();
    assert_eq!(left, vec!["c".to_string()]);
}

#[test]
fn remove_by_topic_missing_topic_is_not_found() {
    let mut list = RList::new();
    add_simple(&mut list, "a", "u:a", &["x"]);
    assert_eq!(
        list.remove_by_topic("ghost".to_string()).unwrap_err(),
        RlistError::NotFound
    );
    assert_eq!(list.dump_all().len(), 1);
}

#[test]
fn remove_by_topics_accumulates_in_order() {
    let mut list = RList::new();
    add_simple(&mut list, "a", "u:a", &["x"]);
    add_simple(&mut list, "b", "u:b", &["y"]);
    let removed = list
        .remove_by_topics(vec!["y".to_string(), "x".to_string()])
        .unwrap();
    let names: Vec<String> = removed.into_iter().map(|e| e.name).collect();
    assert_eq!(names, vec!["b".to_string(), "a".to_string()]);
}

#[test]
fn import_skips_conflicts_and_counts() {
    let mut list = RList::new();
    add_simple(&mut list, "a", "u:a", &[]);
    let batch = vec![
        Entry::new("a".to_string(), "u:other".to_string(), None, vec![], None),
        Entry::new(
            "fresh".to_string(),
            "u:fresh".to_string(),
            None,
            vec!["t".to_string()],
            None,
        ),
        Entry::new("also".to_string(), "u:a".to_string(), None, vec![], None),
    ];
    let count = list.import(batch);
    assert_eq!(count, 1);
    let names: Vec<String> = list.dump_all().into_iter().map(|e| e.name).collect();
    assert_eq!(names, vec!["a".to_string(), "fresh".to_string()]);
    assert_eq!(topic_names(&list, "fresh"), vec!["t".to_string()]);
}

#[test]
fn export_import_round_trip_preserves_content() {
    let mut list = RList::new();
    list.add(
        "one".to_string(),
        "u:1".to_string(),
        Some("ada".to_string()),
        vec!["t1".to_string(), "t2".to_string()],
    )
    .unwrap();
    list.add("two".to_string(), "u:2".to_string(), None, vec!["t2".to_string()])
        .unwrap();
    list.add("three".to_string(), "u:3".to_string(), None, vec![]).unwrap();
    let exported = list.dump_all();
    let mut fresh = RList::new();
    let count = fresh.import(exported);
    assert_eq!(count, 3);
    let a = list.dump_all();
    let b = fresh.dump_all();
    assert_eq!(a.len(), b.len());
    for (x, y) in a.iter().zip(b.iter()) {
        assert_eq!(x.name, y.name);
        assert_eq!(x.url, y.url);
        assert_eq!(x.author, y.author);
        assert_eq!(x.topics, y.topics);
    }
}
