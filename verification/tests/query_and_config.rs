use rlist::config::{Config, ConfigContent};
use rlist::errors::RlistError;
use rlist::rlist::{OrderBy, RList};
use rlist::store::{EntryRow, LinkRow, Store, TopicRow};
use rlist::utils::{opt_from_sql, ToSQL};

fn sample_list() -> RList {
    let mut list = RList::new();
    list.add(
        "alpha".to_string(),
        "http://a".to_string(),
        Some("Zed".to_string()),
        vec!["t1".to_string(), "t2".to_string(), "t3".to_string()],
    )
    .unwrap();
    list.add(
        "beta".to_string(),
        "http://b".to_string(),
        None,
        vec!["t2".to_string()],
    )
    .unwrap();
    list.add(
        "gamma".to_string(),
        "ftp://c".to_string(),
        Some("Alice".to_string()),
        vec![],
    )
    .unwrap();
    list
}

fn names(v: Vec<rlist::entry::Entry>) -> Vec<String> {
    v.into_iter().map(|e| e.name).collect()
}

#[test]
fn query_without_filters_returns_everything_in_row_order() {
    let list = sample_list();
    let r = list.query(None, None, None, None, None, false, None, None, false);
    assert_eq!(names(r), vec!["alpha", "beta", "gamma"]);
}

#[test]
fn query_name_substring_is_case_sensitive_containment() {
    let list = sample_list();
    let r = list.query(
        Some("a".to_string()),
        None,
        None,
        None,
        None,
        false,
        None,
        None,
        false,
    );
    assert_eq!(names(r), vec!["alpha", "beta", "gamma"]);
    let r = list.query(
        Some("alp".to_string()),
        None,
        None,
        None,
        None,
        false,
        None,
        None,
        false,
    );
    assert_eq!(names(r), vec!["alpha"]);
    let r = list.query(
        Some("ALP".to_string()),
        None,
        None,
        None,
        None,
        false,
        None,
        None,
        false,
    );
    assert!(names(r).is_empty());
}

#[test]
fn query_url_substring_filters() {
    let list = sample_list();
    let r = list.query(
        None,
        None,
        None,
        Some("http".to_string()),
        None,
        false,
        None,
        None,
        false,
    );
    assert_eq!(names(r), vec!["alpha", "beta"]);
}

#[test]
fn query_author_substring_sees_missing_author_as_null_text() {
    let list = sample_list();
    let r = list.query(
        None,
        None,
        Some("lic".to_string()),
        None,
        None,
        false,
        None,
        None,
        false,
    );
    assert_eq!(names(r), vec!["gamma"]);
    // a missing author is stored as the text NULL and matches like that text
    let r = list.query(
        None,
        None,
        Some("NULL".to_string()),
        None,
        None,
        false,
        None,
        None,
        false,
    );
    assert_eq!(names(r), vec!["beta"]);
}

#[test]
fn query_date_window_compares_text() {
    let list = sample_list();
    let all = list.query(
        None,
        None,
        None,
        None,
        None,
        false,
        Some("0000-01-01 00:00:00".to_string()),
        Some("9999-12-31 23:59:59".to_string()),
        false,
    );
    assert_eq!(all.len(), 3);
    let none = list.query(
        None,
        None,
        None,
        None,
        None,
        false,
        Some("9999-12-31 23:59:59".to_string()),
        None,
        false,
    );
    assert!(none.is_empty());
    let none = list.query(
        None,
        None,
        None,
        None,
        None,
        false,
        None,
        Some("0000-01-01 00:00:00".to_string()),
        false,
    );
    assert!(none.is_empty());
}

#[test]
fn query_topics_and_mode_needs_all() {
    let list = sample_list();
    let r = list.query(
        None,
        Some(vec!["t1".to_string(), "t2".to_string()]),
        None,
        None,
        None,
        false,
        None,
        None,
        false,
    );
    assert_eq!(names(r), vec!["alpha"]);
    let r = list.query(
        None,
        Some(vec!["t1".to_string(), "t4".to_string()]),
        None,
        None,
        None,
        false,
        None,
        None,
        false,
    );
    assert!(names(r).is_empty());
}

#[test]
fn query_topics_or_mode_needs_one() {
    let list = sample_list();
    let r = list.query(
        None,
        Some(vec!["t1".to_string(), "t4".to_string()]),
        None,
        None,
        None,
        false,
        None,
        None,
        true,
    );
    assert_eq!(names(r), vec!["alpha"]);
    let r = list.query(
        None,
        Some(vec!["t2".to_string()]),
        None,
        None,
        None,
        false,
        None,
        None,
        true,
    );
    assert_eq!(names(r), vec!["alpha", "beta"]);
}

#[test]
fn query_sorts_by_name_in_both_directions() {
    let list = sample_list();
    let asc = list.query(None, None, None, None, Some(OrderBy::Name), false, None, None, false);
    assert_eq!(names(asc), vec!["alpha", "beta", "gamma"]);
    let desc = list.query(None, None, None, None, Some(OrderBy::Name), true, None, None, false);
    assert_eq!(names(desc), vec!["gamma", "beta", "alpha"]);
}

#[test]
fn query_sorts_by_url() {
    let list = sample_list();
    let asc = list.query(None, None, None, None, Some(OrderBy::Url), false, None, None, false);
    assert_eq!(names(asc), vec!["gamma", "alpha", "beta"]);
}

#[test]
fn query_sorts_missing_author_as_null_text() {
    let list = sample_list();
    let asc = list.query(None, None, None, None, Some(OrderBy::Author), false, None, None, false);
    // Alice < NULL < Zed in text order
    assert_eq!(names(asc), vec!["gamma", "beta", "alpha"]);
}

#[test]
fn query_with_empty_topic_list_applies_no_topic_filter_in_either_mode() {
    let list = sample_list();
    let r = list.query(None, Some(vec![]), None, None, None, false, None, None, false);
    assert_eq!(r.len(), 3);
    let r = list.query(None, Some(vec![]), None, None, None, false, None, None, true);
    assert_eq!(r.len(), 3);
}

#[test]
fn query_empty_substring_matches_everything() {
    let list = sample_list();
    let r = list.query(
        Some("".to_string()),
        None,
        None,
        None,
        None,
        false,
        None,
        None,
        false,
    );
    assert_eq!(r.len(), 3);
}

#[test]
fn import_of_nothing_counts_nothing() {
    let mut list = RList::new();
    assert_eq!(list.import(vec![]), 0);
    assert!(list.dump_all().is_empty());
}

#[test]
fn order_by_reads_names_without_regard_to_case() {
    assert_eq!(OrderBy::from_str("name").unwrap(), OrderBy::Name);
    assert_eq!(OrderBy::from_str("URL").unwrap(), OrderBy::Url);
    assert_eq!(OrderBy::from_str("Author").unwrap(), OrderBy::Author);
    assert_eq!(OrderBy::from_str("aDDed").unwrap(), OrderBy::Added);
    assert_eq!(
        OrderBy::from_str("sideways").unwrap_err(),
        RlistError::InvalidArgument
    );
    assert_eq!(OrderBy::Added.to_string(), "added");
}

#[test]
fn sql_option_codec_round_trips() {
    assert_eq!(Some("ada").to_sql(), "ada");
    assert_eq!(None::<&str>.to_sql(), "NULL");
    assert_eq!(opt_from_sql("ada".to_string()), Some("ada".to_string()));
    assert_eq!(opt_from_sql("NULL".to_string()), None);
}

#[test]
fn entry_new_defaults_missing_added_to_empty() {
    let e = rlist::entry::Entry::new(
        "n".to_string(),
        "u".to_string(),
        None,
        vec![],
        None,
    );
    assert_eq!(e.added, "");
    let e = rlist::entry::Entry::new(
        "n".to_string(),
        "u".to_string(),
        None,
        vec![],
        Some("2024-01-01 00:00:00".to_string()),
    );
    assert_eq!(e.added, "2024-01-01 00:00:00");
}

#[test]
fn config_keeps_valid_format_and_rejects_invalid() {
    let c = Config::new_from_content(
        ConfigContent {
            db_file: None,
            datetime_format: Some("%d.%m.%Y".to_string()),
        },
        "/default/rlist.sqlite".to_string(),
    )
    .unwrap();
    assert_eq!(c.datetime_format, "%d.%m.%Y");
    assert_eq!(c.db_file, "/default/rlist.sqlite");
    let c = Config::new_from_content(
        ConfigContent {
            db_file: None,
            datetime_format: Some("%".to_string()),
        },
        "/default/rlist.sqlite".to_string(),
    )
    .unwrap();
    assert_eq!(c.datetime_format, "%Y-%m-%d %H:%M:%S");
}

#[test]
fn config_refuses_relative_db_file() {
    let r = Config::new_from_content(
        ConfigContent {
            db_file: Some("relative/path.sqlite".to_string()),
            datetime_format: None,
        },
        "/default/rlist.sqlite".to_string(),
    );
    assert_eq!(r.unwrap_err(), RlistError::InvalidArgument);
    let c = Config::new_from_content(
        ConfigContent {
            db_file: Some("/absolute/path.sqlite".to_string()),
            datetime_format: None,
        },
        "/default/rlist.sqlite".to_string(),
    )
    .unwrap();
    assert_eq!(c.db_file, "/absolute/path.sqlite");
}

#[test]
fn config_default_uses_given_location() {
    let c = Config::maybe_default("/home/someone/rlist/rlist.sqlite".to_string());
    assert_eq!(c.db_file, "/home/someone/rlist/rlist.sqlite");
    assert_eq!(c.datetime_format, "%Y-%m-%d %H:%M:%S");
}

#[test]
fn from_rows_accepts_consistent_rows() {
    let entries = vec![EntryRow {
        entry_id: 3,
        name: "a".to_string(),
        url: "u:a".to_string(),
        author: None,
        added: "2024-01-01 00:00:00".to_string(),
    }];
    let topics = vec![TopicRow { topic_id: 7, name: "t".to_string() }];
    let links = vec![LinkRow { entry_id: 3, topic_id: 7 }];
    let store = Store::from_rows(entries, topics, links).unwrap();
    let list = RList::from_store(store);
    let all = list.dump_all();
    assert_eq!(all.len(), 1);
    assert_eq!(all[0].topics, vec!["t".to_string()]);
    // fresh ids start above the loaded ones
    let mut list = list;
    let e = list.add("b".to_string(), "u:b".to_string(), None, vec![]).unwrap();
    assert_eq!(e.name, "b");
    assert!(list.store.entries.iter().any(|r| r.entry_id == 4));
}

#[test]
fn from_rows_refuses_duplicate_names_and_dangling_links() {
    let dup = Store::from_rows(
        vec![
            EntryRow {
                entry_id: 1,
                name: "a".to_string(),
                url: "u:1".to_string(),
                author: None,
                added: "".to_string(),
            },
            EntryRow {
                entry_id: 2,
                name: "a".to_string(),
                url: "u:2".to_string(),
                author: None,
                added: "".to_string(),
            },
        ],
        vec![],
        vec![],
    );
    assert_eq!(dup.unwrap_err(), RlistError::Infrastructure);
    let dangling = Store::from_rows(
        vec![],
        vec![],
        vec![LinkRow { entry_id: 1, topic_id: 1 }],
    );
    assert_eq!(dangling.unwrap_err(), RlistError::Infrastructure);
}
