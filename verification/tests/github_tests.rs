use sidecar::github::{
    classify_age, needs_refresh, plan_valid_tokens, summarize_issues, tokens_from_oauth, IssueRecord,
    OAuthGrant, RelativeAge, StoredTokens, TokenPlan,
};

#[test]
fn needs_refresh_false_well_before_expiry() {
    assert!(!needs_refresh(1_000_000, 500_000));
}

#[test]
fn needs_refresh_true_after_expiry() {
    assert!(needs_refresh(1_000_000, 1_000_001));
}

#[test]
fn needs_refresh_true_within_margin() {
    assert!(needs_refresh(1_000_000, 999_970));
}

#[test]
fn needs_refresh_false_just_outside_margin() {
    assert!(!needs_refresh(1_000_000, 999_939));
}

#[test]
fn classify_age_older_than_usual() {
    assert_eq!(classify_age(20, 10), RelativeAge::OlderThanUsual);
}

#[test]
fn classify_age_newer_than_usual() {
    assert_eq!(classify_age(2, 10), RelativeAge::NewerThanUsual);
}

#[test]
fn classify_age_typical() {
    assert_eq!(classify_age(10, 10), RelativeAge::Typical);
}

#[test]
fn classify_age_boundary_is_not_older() {
    assert_eq!(classify_age(15, 10), RelativeAge::Typical);
}

#[test]
fn classify_age_empty_set_is_typical() {
    assert_eq!(classify_age(5, 0), RelativeAge::Typical);
}

#[test]
fn needs_refresh_exact_margin_and_extremes() {
    assert!(needs_refresh(1_000_000, 999_940));
    assert!(needs_refresh(i64::MIN + 10, i64::MIN));
    assert!(!needs_refresh(i64::MAX, 0));
}

#[test]
fn classify_age_lower_boundary_and_negative_median() {
    assert_eq!(classify_age(5, 10), RelativeAge::Typical);
    assert_eq!(classify_age(4, 10), RelativeAge::NewerThanUsual);
    assert_eq!(classify_age(i64::MAX, i64::MAX), RelativeAge::Typical);
    assert_eq!(classify_age(-1, -10), RelativeAge::OlderThanUsual);
}

fn issue(number: u64, created_days_ago: i64, is_pull_request: bool) -> IssueRecord {
    let now = 100 * 86400;
    IssueRecord {
        number,
        title: format!("issue {number}"),
        html_url: format!("https://github.com/o/r/issues/{number}"),
        created_at: now - created_days_ago * 86400 - 5,
        updated_at: now - 3600,
        comments: number as u32,
        is_pull_request,
    }
}

#[test]
fn summary_skips_pull_requests_and_uses_sorted_median() {
    let now = 100 * 86400;
    let issues = vec![issue(1, 30, false), issue(2, 1, false), issue(3, 50, true), issue(4, 10, false)];
    let summary = summarize_issues(issues, now);
    assert_eq!(summary.median_age_days, 10);
    assert_eq!(summary.issues.len(), 3);
    assert_eq!(summary.issues[0].number, 1);
    assert_eq!(summary.issues[0].age_days, 30);
    assert_eq!(summary.issues[0].days_since_update, 0);
    assert_eq!(summary.issues[0].relative_to_median, RelativeAge::OlderThanUsual);
    assert_eq!(summary.issues[1].relative_to_median, RelativeAge::NewerThanUsual);
    assert_eq!(summary.issues[2].relative_to_median, RelativeAge::Typical);
    assert_eq!(summary.issues[2].title, "issue 4");
}

#[test]
fn summary_of_nothing_has_zero_median() {
    let summary = summarize_issues(vec![issue(3, 50, true)], 100 * 86400);
    assert_eq!(summary.median_age_days, 0);
    assert!(summary.issues.is_empty());
}

#[test]
fn median_of_even_count_is_upper_middle() {
    let now = 100 * 86400;
    let issues = vec![issue(1, 8, false), issue(2, 2, false), issue(3, 4, false), issue(4, 6, false)];
    assert_eq!(summarize_issues(issues, now).median_age_days, 6);
}

#[test]
fn ages_round_toward_zero_for_future_dates() {
    let now = 100 * 86400;
    let mut rec = issue(1, 0, false);
    rec.created_at = now + 86400 + 10;
    let summary = summarize_issues(vec![rec], now);
    assert_eq!(summary.issues[0].age_days, -1);
}

#[test]
fn tokens_from_grant_compute_expiries() {
    let grant = OAuthGrant {
        access_token: "access-abc".to_string(),
        expires_in: Some(28800),
        refresh_token: Some("refresh-xyz".to_string()),
        refresh_token_expires_in: Some(15_897_600),
    };
    let t = tokens_from_oauth(&grant, "rodlunt".to_string(), 1_700_000_000);
    assert_eq!(t.login, "rodlunt");
    assert_eq!(t.access_token, "access-abc");
    assert_eq!(t.access_expires_at, 1_700_028_800);
    assert_eq!(t.refresh_token, Some("refresh-xyz".to_string()));
    assert_eq!(t.refresh_expires_at, Some(1_715_897_600));

    let bare = OAuthGrant {
        access_token: "x".to_string(),
        expires_in: None,
        refresh_token: None,
        refresh_token_expires_in: None,
    };
    let t = tokens_from_oauth(&bare, "u".to_string(), 5);
    assert_eq!(t.access_expires_at, i64::MAX);
    assert_eq!(t.refresh_token, None);
    assert_eq!(t.refresh_expires_at, None);
}

fn stored(expires: i64, refresh: Option<&str>) -> StoredTokens {
    StoredTokens {
        login: "rodlunt".to_string(),
        access_token: "access-abc".to_string(),
        access_expires_at: expires,
        refresh_token: refresh.map(|s| s.to_string()),
        refresh_expires_at: None,
    }
}

#[test]
fn token_plan_cases() {
    match plan_valid_tokens(None, 0) {
        TokenPlan::Fail(m) => assert_eq!(m, "not authenticated"),
        _ => panic!("expected failure"),
    }
    match plan_valid_tokens(Some(stored(1_000_000, None)), 500_000) {
        TokenPlan::Use(t) => assert_eq!(t.access_expires_at, 1_000_000),
        _ => panic!("expected use"),
    }
    match plan_valid_tokens(Some(stored(1_000_000, Some("r"))), 999_970) {
        TokenPlan::Refresh { login, refresh_token } => {
            assert_eq!(login, "rodlunt");
            assert_eq!(refresh_token, "r");
        }
        _ => panic!("expected refresh"),
    }
    match plan_valid_tokens(Some(stored(1_000_000, None)), 1_000_001) {
        TokenPlan::Fail(m) => assert_eq!(m, "no refresh token stored"),
        _ => panic!("expected failure"),
    }
}
