use cliphist_query::config::{Config, State};
use cliphist_query::listing::{load_listing, parse_listing, HistoryError};
use cliphist_query::rank::{rank, select_top, MatchResult};
use cliphist_query::store::HistoryStore;
use cliphist_query::text::make_title;

fn newest_first(contents: &[&str]) -> HistoryStore {
    let raw: Vec<(Option<String>, String)> = contents
        .iter()
        .enumerate()
        .map(|(i, c)| (Some(i.to_string()), c.to_string()))
        .collect();
    HistoryStore::from_newest_first(&raw)
}

fn contents(store: &HistoryStore) -> Vec<String> {
    (0..store.len()).map(|i| store.entry(i).content.clone()).collect()
}

fn ids(results: &[MatchResult]) -> Vec<usize> {
    results.iter().map(|m| m.id).collect()
}

#[test]
fn dedup_keeps_most_recent_occurrence() {
    let store = newest_first(&["b", "a", "b", "c"]);
    assert_eq!(contents(&store), vec!["b", "a", "c"]);
    let got: Vec<usize> = (0..store.len()).map(|i| store.entry(i).id).collect();
    assert_eq!(got, vec![0, 1, 2]);
    assert_eq!(store.entry(2).external_key, Some("3".to_string()));
}

#[test]
fn dedup_of_empty_history() {
    let store = newest_first(&[]);
    assert_eq!(store.len(), 0);
    assert!(rank("", &store, 10, "").is_empty());
}

#[test]
fn log_is_reversed_then_deduplicated() {
    let raw: Vec<Vec<u8>> = ["c", "b", "a", "b"].iter().map(|s| s.as_bytes().to_vec()).collect();
    let store = HistoryStore::from_log(&raw);
    assert_eq!(contents(&store), vec!["b", "a", "c"]);
    assert_eq!(store.entry(0).external_key, None);
}

#[test]
fn log_drops_payloads_that_are_not_utf8() {
    let raw: Vec<Vec<u8>> = vec![b"old".to_vec(), vec![0xff, 0xfe], "caf\u{e9}".as_bytes().to_vec()];
    let store = HistoryStore::from_log(&raw);
    assert_eq!(contents(&store), vec!["caf\u{e9}", "old"]);
    assert_eq!(store.resolve(0).unwrap(), "caf\u{e9}");
}

#[test]
fn listing_splits_at_first_tab_and_skips_other_lines() {
    let recs = parse_listing(&b"12\thello\n11\ta\tb\nno tab here\n\n10\t\n".to_vec());
    assert_eq!(
        recs,
        vec![
            (Some("12".to_string()), "hello".to_string()),
            (Some("11".to_string()), "a\tb".to_string()),
            (Some("10".to_string()), "".to_string()),
        ]
    );
}

#[test]
fn listing_without_trailing_newline() {
    let recs = parse_listing(&b"5\tx\n4\ty".to_vec());
    assert_eq!(
        recs,
        vec![
            (Some("5".to_string()), "x".to_string()),
            (Some("4".to_string()), "y".to_string()),
        ]
    );
    assert!(parse_listing(&Vec::new()).is_empty());
}

#[test]
fn load_listing_reports_exit_code() {
    assert_eq!(load_listing(false, Some(3), &b"1\ta".to_vec()).err(), Some(HistoryError::CommandExit(3)));
    assert_eq!(load_listing(false, None, &Vec::new()).err(), Some(HistoryError::CommandExit(1)));
}

#[test]
fn load_listing_deduplicates() {
    let store = load_listing(true, Some(0), &b"3\tb\n2\ta\n1\tb\n0\tc\n".to_vec()).ok().unwrap();
    assert_eq!(contents(&store), vec!["b", "a", "c"]);
    assert_eq!(store.entry(1).external_key, Some("2".to_string()));
}

#[test]
fn prefix_gates_queries() {
    let store = newest_first(&["alpha", "beta"]);
    assert!(rank("alpha", &store, 10, ":c").is_empty());
    assert!(rank(":", &store, 10, ":c").is_empty());
    let hits = rank(":calpha", &store, 10, ":c");
    assert_eq!(ids(&hits), vec![0]);
}

#[test]
fn empty_query_lists_most_recent() {
    let store = newest_first(&["b", "a", "c"]);
    let r = rank("", &store, 2, "");
    assert_eq!(ids(&r), vec![0, 1]);
    let titles: Vec<String> = r.iter().map(|m| m.title.clone()).collect();
    assert_eq!(titles, vec!["b", "a"]);
    assert_eq!(ids(&rank("", &store, 10, "")), vec![0, 1, 2]);
    assert_eq!(ids(&rank(">", &store, 1, ">")), vec![0]);
}

#[test]
fn ranking_is_deterministic() {
    let store = newest_first(&["foo bar", "foobar", "xfoo", "nothing", "f o o"]);
    let a = ids(&rank("foo", &store, 10, ""));
    let b = ids(&rank("foo", &store, 10, ""));
    assert_eq!(a, b);
    assert!(!a.contains(&3));
}

#[test]
fn equal_scores_keep_recency_order() {
    let store = newest_first(&["foo1", "foo2", "foo3"]);
    assert_eq!(ids(&rank("foo", &store, 10, "")), vec![0, 1, 2]);
}

#[test]
fn limit_truncates_results() {
    let store = newest_first(&["abc", "abd", "abe", "xyz"]);
    assert_eq!(rank("ab", &store, 2, "").len(), 2);
    assert!(rank("ab", &store, 0, "").is_empty());
    assert!(rank("", &store, 0, "").is_empty());
    assert_eq!(rank("ab", &store, 100, "").len(), 3);
}

#[test]
fn titles_are_single_line() {
    assert_eq!(make_title("line1\nline2"), "line1 line2");
    assert_eq!(make_title("  padded \n"), "padded");
    assert_eq!(make_title(""), "");
}

#[test]
fn titles_are_cut_at_one_hundred_characters() {
    let long: String = "x".repeat(150);
    assert_eq!(make_title(&long), "x".repeat(100));
    let wide: String = "é".repeat(120);
    assert_eq!(make_title(&wide).chars().count(), 100);
}

#[test]
fn ranked_titles_follow_contents() {
    let store = newest_first(&["first\nsecond"]);
    let r = rank("sec", &store, 5, "");
    assert_eq!(r.len(), 1);
    assert_eq!(r[0].title, "first second");
}

#[test]
fn ranked_ids_resolve() {
    let store = newest_first(&["one", "two", "three"]);
    for m in rank("o", &store, 10, "") {
        let c = store.resolve(m.id).unwrap();
        assert!(c.contains('o'));
        assert_eq!(c, &store.entry(m.id).content);
    }
    assert!(store.resolve(3).is_none());
}

#[test]
fn fuzzy_subsequence_required() {
    let store = newest_first(&["axbycz", "abc", "zyx"]);
    let hits = ids(&rank("abc", &store, 10, ""));
    assert_eq!(hits.len(), 2);
    assert!(hits.contains(&0) && hits.contains(&1));
    assert!(rank("qq", &store, 10, "").is_empty());
}

#[test]
fn smart_case_matching() {
    let store = newest_first(&["hello", "HELLO"]);
    assert_eq!(ids(&rank("HEL", &store, 10, "")), vec![1]);
    assert_eq!(rank("hel", &store, 10, "").len(), 2);
}

#[test]
fn select_top_orders_by_score_then_position() {
    let scores = vec![Some(3), None, Some(5), Some(3), Some(0), Some(-2)];
    assert_eq!(select_top(&scores, 2), vec![2, 0]);
    assert_eq!(select_top(&scores, 10), vec![2, 0, 3]);
    assert!(select_top(&scores, 0).is_empty());
}

#[test]
fn decode_request_uses_key() {
    let store = newest_first(&["a", "b"]);
    assert_eq!(store.decode_request(1), Some("1\t ".to_string()));
    assert_eq!(store.decode_request(2), None);
    let log = HistoryStore::from_log(&vec![b"a".to_vec()]);
    assert_eq!(log.decode_request(0), None);
}

#[test]
fn state_follows_config() {
    let config = Config::default();
    assert_eq!(config.max_entries, 10);
    assert_eq!(config.cliphist_path, "cliphist");
    assert_eq!(config.prefix, "");
    let state = State::init(config, true, Some(0), &b"9\tfoo\n8\tbar\n".to_vec()).ok().unwrap();
    assert_eq!(ids(&state.get_matches("")), vec![0, 1]);
    assert_eq!(state.handler(1), Some("8\t ".to_string()));
    assert_eq!(State::init(Config::default(), false, Some(2), &Vec::new()).err(), Some(HistoryError::CommandExit(2)));
}

fn keyed(store: &HistoryStore) -> Vec<(usize, String, String)> {
    (0..store.len())
        .map(|i| {
            let e = store.entry(i);
            (e.id, e.external_key.clone().unwrap(), e.content.clone())
        })
        .collect()
}

#[test]
fn load_keeps_key_of_most_recent_occurrence() {
    let store = load_listing(true, Some(0), &b"1\tb\n2\ta\n3\tb\n4\tc\n".to_vec()).ok().unwrap();
    assert_eq!(
        keyed(&store),
        vec![
            (0, "1".to_string(), "b".to_string()),
            (1, "2".to_string(), "a".to_string()),
            (2, "4".to_string(), "c".to_string()),
        ]
    );
}

#[test]
fn load_splits_first_tab_and_skips_untabbed_lines() {
    let store = load_listing(true, Some(0), &b"7\ta\tb\nnotab\n3\tc".to_vec()).ok().unwrap();
    assert_eq!(
        keyed(&store),
        vec![(0, "7".to_string(), "a\tb".to_string()), (1, "3".to_string(), "c".to_string())]
    );
}

#[test]
fn load_drops_lines_that_are_not_utf8() {
    let mut out = b"5\tfirst\n4\t".to_vec();
    out.extend_from_slice(&[0xff, 0xfe]);
    out.extend_from_slice(b"\n3\tthird\n");
    let store = load_listing(true, Some(0), &out).ok().unwrap();
    assert_eq!(
        keyed(&store),
        vec![(0, "5".to_string(), "first".to_string()), (1, "3".to_string(), "third".to_string())]
    );
}

#[test]
fn selected_match_has_decode_request() {
    let state = State::init(Config::default(), true, Some(0), &b"9\tabc\n8\txyz\n".to_vec()).ok().unwrap();
    let r = state.get_matches("xz");
    assert_eq!(ids(&r), vec![1]);
    assert_eq!(state.handler(r[0].id), Some("8\t ".to_string()));
    assert!(state.get_matches("qq").is_empty());
}
