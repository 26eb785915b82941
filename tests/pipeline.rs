use cantina_feed::model::{bucket_of, classify, AssetGroup, Bucket, Item, Reward, Timeframe};
use cantina_feed::ordering::{sort_bounties, sort_contests, stable_sort_desc};
use cantina_feed::report::{item_report, render_report, severities_line};
use cantina_feed::text::contains;
use cantina_feed::time::{decimal, Instant};

fn item(id: &str, kind: &str, start: &str, end: Option<&str>) -> Item {
    Item {
        id: id.to_string(),
        name: format!("name-{}", id),
        kind: kind.to_string(),
        timeframe: Timeframe { start: start.to_string(), end: end.map(|e| e.to_string()) },
        status: "live".to_string(),
        currency_code: "USDC".to_string(),
        total_reward_pot: "1000".to_string(),
        total_findings: 0,
        asset_groups: Vec::new(),
    }
}

fn ids(v: &[Item]) -> Vec<String> {
    v.iter().map(|i| i.id.clone()).collect()
}

const NOW: Instant = Instant { secs: 1_717_200_000, nanos: 0 };

#[test]
fn classify_splits_by_kind_and_drops_others() {
    let items = vec![
        item("a", "public_bounty", "2024-01-01T00:00:00Z", None),
        item("b", "PRIVATE_CONTEST", "2024-01-01T00:00:00Z", None),
        item("c", "grant", "2024-01-01T00:00:00Z", None),
        item("d", "Bounty-contest", "2024-01-01T00:00:00Z", None),
        item("e", "public_contest", "2024-01-01T00:00:00Z", None),
        item("f", "", "2024-01-01T00:00:00Z", None),
    ];
    let (b, c) = classify(items);
    assert_eq!(ids(&b), vec!["a", "d"]);
    assert_eq!(ids(&c), vec!["b", "e"]);
}

#[test]
fn bucket_of_folds_case() {
    assert_eq!(bucket_of(&item("x", "Public_BOUNTY", "", None)), Bucket::Bounty);
    assert_eq!(bucket_of(&item("x", "ConTest", "", None)), Bucket::Contest);
    assert_eq!(bucket_of(&item("x", "audit", "", None)), Bucket::Unclassified);
}

#[test]
fn bounties_newest_first_ties_stable() {
    let items = vec![
        item("old", "bounty", "2023-01-01T00:00:00Z", None),
        item("new1", "bounty", "2024-03-01T00:00:00Z", None),
        item("mid", "bounty", "2023-06-01T00:00:00Z", None),
        item("new2", "bounty", "2024-03-01T00:00:00Z", None),
    ];
    let r = sort_bounties(items, NOW);
    assert_eq!(ids(&r), vec!["new1", "new2", "mid", "old"]);
}

#[test]
fn malformed_start_sorts_as_now() {
    let items = vec![
        item("past", "bounty", "2024-05-31T00:00:00Z", None),
        item("bad", "bounty", "yesterday", None),
        item("future", "bounty", "2024-06-02T00:00:00Z", None),
    ];
    let r = sort_bounties(items, NOW);
    assert_eq!(ids(&r), vec!["future", "bad", "past"]);
}

#[test]
fn contests_longest_first_open_ended_last() {
    let items = vec![
        item("open", "contest", "2024-01-01T00:00:00Z", None),
        item("short", "contest", "2024-01-01T00:00:00Z", Some("2024-01-02T00:00:00Z")),
        item("long", "contest", "2024-01-01T00:00:00Z", Some("2024-02-01T00:00:00Z")),
        item("short2", "contest", "2024-03-01T00:00:00Z", Some("2024-03-02T00:00:00Z")),
        item("open2", "contest", "2024-05-01T00:00:00Z", None),
    ];
    let r = sort_contests(items, NOW);
    assert_eq!(ids(&r), vec!["long", "short", "short2", "open", "open2"]);
}

#[test]
fn stable_sort_keeps_equal_keys_in_order() {
    let r = stable_sort_desc(vec!['a', 'b', 'c', 'd', 'e'], vec![1, 3, 1, 3, 2]);
    assert_eq!(r, vec!['b', 'd', 'e', 'a', 'c']);
    let empty: Vec<u8> = stable_sort_desc(Vec::new(), Vec::new());
    assert!(empty.is_empty());
}

#[test]
fn severities_line_joins_or_says_none() {
    assert_eq!(severities_line(&Vec::new()), "None");
    assert_eq!(severities_line(&vec!["high".to_string()]), "high");
    assert_eq!(
        severities_line(&vec!["critical".to_string(), "high".to_string(), "low".to_string()]),
        "critical, high, low"
    );
}

#[test]
fn item_block_with_end_and_time_left() {
    let mut it = item("c9", "contest", "2024-05-01T00:00:00Z", Some("2024-06-02T00:00:00Z"));
    it.total_findings = 42;
    it.asset_groups = vec![AssetGroup {
        out_of_scope: false,
        rewards: vec![
            Reward { severity: "medium".to_string(), max_reward: Some("10".to_string()) },
            Reward { severity: "critical".to_string(), max_reward: Some("99".to_string()) },
        ],
    }];
    let text = item_report(&it, "competitions", Some("1 days 0h 0m left".to_string()));
    assert_eq!(
        text,
        "Name: name-c9\nKind: contest\nStart: 2024-05-01T00:00:00Z\nEnd:   2024-06-02T00:00:00Z\n\
         Time Left: 1 days 0h 0m left\nURL: https://cantina.xyz/competitions/c9\nStatus: live\n\
         Currency: USDC\nTotal Reward Pot: 1000\nAccepted Severities: critical, medium\n\
         Total Findings: 42\n---\n"
    );
}

#[test]
fn empty_report_has_both_headers() {
    assert_eq!(
        render_report(Vec::new(), NOW),
        "=== BOUNTIES (0)\n\n\n=== COMPETITIONS (0)\n\n"
    );
}

#[test]
fn substring_search_and_decimal() {
    assert!(contains("private_bounty", "bounty"));
    assert!(contains("abc", ""));
    assert!(!contains("", "a"));
    assert!(!contains("bount", "bounty"));
    assert!(contains("ébounty", "bounty"));
    assert_eq!(decimal(0), "0");
    assert_eq!(decimal(7), "7");
    assert_eq!(decimal(1_000_203), "1000203");
    assert_eq!(decimal(u64::MAX), "18446744073709551615");
}
