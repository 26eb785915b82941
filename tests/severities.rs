use cantina_feed::model::{AssetGroup, Reward};
use cantina_feed::severity::{accepted_severities, is_nonzero_reward, reward_pays};

fn reward(severity: &str, max_reward: Option<&str>) -> Reward {
    Reward { severity: severity.to_string(), max_reward: max_reward.map(|m| m.to_string()) }
}

fn group(out_of_scope: bool, rewards: Vec<Reward>) -> AssetGroup {
    AssetGroup { out_of_scope, rewards }
}

#[test]
fn no_groups_no_severities() {
    let groups: Vec<AssetGroup> = Vec::new();
    assert_eq!(accepted_severities(&groups), Vec::<String>::new());
}

#[test]
fn zero_reward_is_not_accepted() {
    let groups = vec![group(false, vec![reward("high", Some("0"))])];
    assert_eq!(accepted_severities(&groups), Vec::<String>::new());
}

#[test]
fn repeated_severity_listed_once() {
    let groups = vec![group(
        false,
        vec![reward("high", Some("100")), reward("high", Some("50"))],
    )];
    assert_eq!(accepted_severities(&groups), vec!["high".to_string()]);
}

#[test]
fn out_of_scope_group_contributes_nothing() {
    let groups = vec![group(true, vec![reward("critical", Some("1000"))])];
    assert_eq!(accepted_severities(&groups), Vec::<String>::new());
}

#[test]
fn severities_come_sorted_across_groups() {
    let groups = vec![
        group(false, vec![reward("medium", Some("10")), reward("critical", Some("5"))]),
        group(true, vec![reward("informational", Some("1"))]),
        group(false, vec![reward("high", Some("7")), reward("critical", Some("9"))]),
    ];
    assert_eq!(
        accepted_severities(&groups),
        vec!["critical".to_string(), "high".to_string(), "medium".to_string()]
    );
}

#[test]
fn zero_variants_and_missing_rewards() {
    let groups = vec![group(
        false,
        vec![
            reward("a", Some("0.00")),
            reward("b", Some("")),
            reward("c", None),
            reward("d", Some("   ")),
            reward("e", Some(" 0 ")),
            reward("f", Some("0.0")),
            reward("g", Some("00")),
        ],
    )];
    assert_eq!(accepted_severities(&groups), vec!["f".to_string(), "g".to_string()]);
}

#[test]
fn padded_nonzero_reward_counts() {
    let groups = vec![group(false, vec![reward("low", Some("  250 "))])];
    assert_eq!(accepted_severities(&groups), vec!["low".to_string()]);
}

#[test]
fn nonzero_reward_text() {
    assert!(!is_nonzero_reward(""));
    assert!(!is_nonzero_reward("0"));
    assert!(!is_nonzero_reward("0.00"));
    assert!(is_nonzero_reward("0.0"));
    assert!(is_nonzero_reward("100"));
    assert!(!reward_pays(&reward("x", Some("\u{3000}0\t"))));
    assert!(reward_pays(&reward("x", Some("\u{a0}5\u{2009}"))));
    assert!(!reward_pays(&reward("x", None)));
}
