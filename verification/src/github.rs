//! The decisions behind the GitHub panel: when a stored access token must be
//! refreshed, how stored tokens are computed from an OAuth grant, and how the
//! open issues of a repository are summarised against their median age.
use vstd::prelude::*;
use vstd::relations::{sorted_by, total_ordering};

verus! {

/// Seconds of safety margin before an access token's expiry at which it is
/// already treated as expired.
pub const REFRESH_MARGIN_SECS: i64 = 60;

/// Seconds in a day, the unit issue ages are reported in.
pub const SECS_PER_DAY: i64 = 86400;

// ---------------------------------------------------------------------------
// Tokens
// ---------------------------------------------------------------------------

/// The tokens kept in the OS keychain for the signed-in user.
pub struct StoredTokens {
    pub login: String,
    pub access_token: String,
    pub access_expires_at: i64,
    pub refresh_token: Option<String>,
    pub refresh_expires_at: Option<i64>,
}

/// The parts of an OAuth token grant that the stored tokens are made from.
pub struct OAuthGrant {
    pub access_token: String,
    /// Seconds until the access token expires, when the grant says.
    pub expires_in: Option<u64>,
    pub refresh_token: Option<String>,
    /// Seconds until the refresh token expires, when the grant says.
    pub refresh_token_expires_in: Option<u64>,
}

/// Whether a token expiring at `access_expires_at` must be refreshed at time
/// `now`: it has expired or expires within the safety margin.
pub open spec fn refresh_due(access_expires_at: int, now: int) -> bool {
    now + REFRESH_MARGIN_SECS >= access_expires_at
}

/// A token expired (or expiring within a minute) needs a refresh before use.
pub fn needs_refresh(access_expires_at: i64, now: i64) -> (r: bool)
    ensures
        r == refresh_due(access_expires_at as int, now as int),
{
    // `access_expires_at - 60`, saturating at the bottom of the range
    let threshold = if access_expires_at < i64::MIN + REFRESH_MARGIN_SECS {
        i64::MIN
    } else {
        access_expires_at - REFRESH_MARGIN_SECS
    };
    now >= threshold
}

/// The instant `secs` seconds after `now`, the seconds reinterpreted as an
/// `i64` as `secs as i64` does.
pub open spec fn expiry_after(now: i64, secs: u64) -> int {
    now + (secs as i64)
}

/// Whether every expiry computed from `grant` at `now` fits an `i64`.
pub open spec fn grant_fits(grant: OAuthGrant, now: i64) -> bool {
    &&& (grant.expires_in matches Some(s) ==> i64::MIN <= expiry_after(now, s) <= i64::MAX)
    &&& (grant.refresh_token_expires_in matches Some(s) ==> i64::MIN <= expiry_after(now, s)
        <= i64::MAX)
}

/// The tokens stored for `login` after receiving `grant` at time `now`: an
/// access token without a stated lifetime never expires (`i64::MAX`).
pub open spec fn tokens_spec(grant: OAuthGrant, login: Seq<char>, now: i64, r: StoredTokens) -> bool {
    &&& r.login@ == login
    &&& r.access_token@ == grant.access_token@
    &&& r.access_expires_at == match grant.expires_in {
        Some(s) => expiry_after(now, s),
        None => i64::MAX as int,
    }
    &&& match (r.refresh_token, grant.refresh_token) {
        (Some(a), Some(b)) => a@ == b@,
        (None, None) => true,
        _ => false,
    }
    &&& match (r.refresh_expires_at, grant.refresh_token_expires_in) {
        (Some(a), Some(s)) => a == expiry_after(now, s),
        (None, None) => true,
        _ => false,
    }
}

fn expiry(now: i64, secs: u64) -> (r: i64)
    requires
        i64::MIN <= expiry_after(now, secs) <= i64::MAX,
    ensures
        r == expiry_after(now, secs),
{
    let delta = #[verifier::truncate] (secs as i64);
    now + delta
}

/// The tokens to store for `login` from an OAuth grant received at `now`.
pub fn tokens_from_oauth(grant: &OAuthGrant, login: String, now: i64) -> (r: StoredTokens)
    requires
        grant_fits(*grant, now),
    ensures
        tokens_spec(*grant, login@, now, r),
{
    let access_expires_at = match grant.expires_in {
        Some(s) => expiry(now, s),
        None => i64::MAX,
    };
    let refresh_token = match &grant.refresh_token {
        Some(t) => Some(t.clone()),
        None => None,
    };
    let refresh_expires_at = match grant.refresh_token_expires_in {
        Some(s) => Some(expiry(now, s)),
        None => None,
    };
    StoredTokens {
        login,
        access_token: grant.access_token.clone(),
        access_expires_at,
        refresh_token,
        refresh_expires_at,
    }
}

/// What to do to obtain usable tokens.
pub enum TokenPlan {
    /// The stored tokens are still good: use them.
    Use(StoredTokens),
    /// The access token is (nearly) expired: exchange this refresh token,
    /// then store the new tokens for the same login.
    Refresh { login: String, refresh_token: String },
    /// Nothing usable: fail with this message.
    Fail(String),
}

/// The plan for obtaining usable tokens from what the keychain holds at `now`.
pub fn plan_valid_tokens(stored: Option<StoredTokens>, now: i64) -> (r: TokenPlan)
    ensures
        match stored {
            None => r matches TokenPlan::Fail(m) && m@ == "not authenticated"@,
            Some(t) => if !refresh_due(t.access_expires_at as int, now as int) {
                r == TokenPlan::Use(t)
            } else {
                match t.refresh_token {
                    Some(rt) => r matches TokenPlan::Refresh { login, refresh_token } && login@
                        == t.login@ && refresh_token@ == rt@,
                    None => r matches TokenPlan::Fail(m) && m@ == "no refresh token stored"@,
                }
            },
        },
{
    match stored {
        None => TokenPlan::Fail("not authenticated".to_string()),
        Some(t) => {
            if !needs_refresh(t.access_expires_at, now) {
                TokenPlan::Use(t)
            } else {
                match t.refresh_token {
                    Some(rt) => TokenPlan::Refresh { login: t.login, refresh_token: rt },
                    None => TokenPlan::Fail("no refresh token stored".to_string()),
                }
            }
        },
    }
}

/// What the device-flow sign-in shows the user.
pub struct DeviceLoginInfo {
    pub user_code: String,
    pub verification_uri: String,
    pub expires_in: u64,
}

// ---------------------------------------------------------------------------
// Issues
// ---------------------------------------------------------------------------

/// An issue's age relative to the fetched set's median.
#[derive(PartialEq, Eq, Structural, Debug, Clone, Copy)]
pub enum RelativeAge {
    OlderThanUsual,
    NewerThanUsual,
    Typical,
}

/// The classification of `age_days` against `median_age_days`: older than
/// usual beyond one and a half times the median, newer than usual below half
/// of it, typical otherwise and whenever the median is zero.
pub open spec fn relative_age(age_days: int, median_age_days: int) -> RelativeAge {
    if median_age_days == 0 {
        RelativeAge::Typical
    } else if 2 * age_days > 3 * median_age_days {
        RelativeAge::OlderThanUsual
    } else if 2 * age_days < median_age_days {
        RelativeAge::NewerThanUsual
    } else {
        RelativeAge::Typical
    }
}

/// An issue's age relative to the fetched set's median, as a comparison a
/// reader can act on rather than a bare open/closed state.
pub fn classify_age(age_days: i64, median_age_days: i64) -> (r: RelativeAge)
    ensures
        r == relative_age(age_days as int, median_age_days as int),
{
    let age = age_days as i128;
    let median = median_age_days as i128;
    if median == 0 {
        RelativeAge::Typical
    } else if 2 * age > 3 * median {
        RelativeAge::OlderThanUsual
    } else if 2 * age < median {
        RelativeAge::NewerThanUsual
    } else {
        RelativeAge::Typical
    }
}

/// An issue (or pull request) as the GitHub issues listing returns it.
pub struct IssueRecord {
    pub number: u64,
    pub title: String,
    pub html_url: String,
    /// Creation time, in seconds since the Unix epoch.
    pub created_at: i64,
    /// Last update time, in seconds since the Unix epoch.
    pub updated_at: i64,
    pub comments: u32,
    /// The listing also returns pull requests; these carry this mark.
    pub is_pull_request: bool,
}

/// One row of the Issues panel.
pub struct IssueSummary {
    pub number: u64,
    pub title: String,
    pub html_url: String,
    pub age_days: i64,
    pub days_since_update: i64,
    pub comments: u32,
    pub relative_to_median: RelativeAge,
}

/// The Issues panel: its rows and the median age they are compared with.
pub struct IssuesSummary {
    pub issues: Vec<IssueSummary>,
    pub median_age_days: i64,
}

/// A single issue as the detail view shows it.
pub struct IssueDetail {
    pub number: u64,
    pub title: String,
    pub html_url: String,
    /// Raw markdown, shown as preformatted text.
    pub body: Option<String>,
    pub author: String,
    pub created_at: i64,
    pub updated_at: i64,
    pub comments: u32,
    pub labels: Vec<String>,
}

/// `a / b` rounded toward zero, as Rust's integer division does.
pub open spec fn div_toward_zero(a: int, b: int) -> int {
    if a >= 0 {
        a / b
    } else {
        -((-a) / b)
    }
}

/// Whole days from `t` to `now` (rounded toward zero).
pub open spec fn days_between(now: int, t: int) -> int {
    div_toward_zero(now - t, SECS_PER_DAY as int)
}

pub open spec fn is_issue(r: IssueRecord) -> bool {
    !r.is_pull_request
}

/// `is_issue` as a predicate value.
pub open spec fn issue_filter() -> spec_fn(IssueRecord) -> bool {
    |r: IssueRecord| is_issue(r)
}

/// The records that are issues rather than pull requests, in order.
pub open spec fn issues_only(rs: Seq<IssueRecord>) -> Seq<IssueRecord> {
    rs.filter(issue_filter())
}

/// The age in days of each issue in `rs` at `now`.
pub open spec fn issue_ages(rs: Seq<IssueRecord>, now: i64) -> Seq<i64> {
    issues_only(rs).map_values(|r: IssueRecord| days_between(now as int, r.created_at as int) as i64)
}

/// The order ages are sorted in.
pub open spec fn age_leq() -> spec_fn(i64, i64) -> bool {
    |a: i64, b: i64| a <= b
}

/// The median of `ages`: the element at index `len / 2` once sorted, or 0
/// when there is none.
pub open spec fn median_of(ages: Seq<i64>) -> i64 {
    if ages.len() == 0 {
        0
    } else {
        ages.sort_by(age_leq())[(ages.len() / 2) as int]
    }
}

/// Whether every issue's day counts at `now` are computed without overflow.
pub open spec fn ages_fit(rs: Seq<IssueRecord>, now: i64) -> bool {
    forall|i: int|
        0 <= i < rs.len() && is_issue(#[trigger] rs[i]) ==> {
            &&& i64::MIN <= now - rs[i].created_at <= i64::MAX
            &&& i64::MIN <= now - rs[i].updated_at <= i64::MAX
        }
}

/// The panel row for issue `r` at `now`, against `median`.
pub open spec fn summary_matches(s: IssueSummary, r: IssueRecord, now: i64, median: i64) -> bool {
    &&& s.number == r.number
    &&& s.title@ == r.title@
    &&& s.html_url@ == r.html_url@
    &&& s.age_days == days_between(now as int, r.created_at as int)
    &&& s.days_since_update == days_between(now as int, r.updated_at as int)
    &&& s.comments == r.comments
    &&& s.relative_to_median == relative_age(s.age_days as int, median as int)
}

proof fn lemma_issues_only_step(rs: Seq<IssueRecord>, i: int)
    requires
        0 <= i < rs.len(),
    ensures
        issues_only(rs.take(i + 1)) == if is_issue(rs[i]) {
            issues_only(rs.take(i)).push(rs[i])
        } else {
            issues_only(rs.take(i))
        },
{
    let pre = rs.take(i);
    pre.lemma_filter_push(rs[i], issue_filter());
    assert(rs.take(i + 1) =~= pre.push(rs[i]));
}

proof fn lemma_age_leq_total()
    ensures
        total_ordering(age_leq()),
{
}

fn days_since(now: i64, t: i64) -> (r: i64)
    requires
        i64::MIN <= now - t <= i64::MAX,
    ensures
        r == days_between(now as int, t as int),
{
    let d = now - t;
    if d >= 0 {
        d / SECS_PER_DAY
    } else {
        let pos = (-(d as i128)) / (SECS_PER_DAY as i128);
        -(pos as i64)
    }
}

/// `ages` in ascending order.
fn sorted_ages(ages: &Vec<i64>) -> (r: Vec<i64>)
    ensures
        sorted_by(r@, age_leq()),
        r@.to_multiset() == ages@.to_multiset(),
        r@.len() == ages@.len(),
{
    broadcast use vstd::seq_lib::group_to_multiset_ensures;

    let mut r: Vec<i64> = Vec::new();
    for i in 0..ages.len()
        invariant
            sorted_by(r@, age_leq()),
            r@.to_multiset() == ages@.take(i as int).to_multiset(),
            r@.len() == i,
    {
        let x = ages[i];
        let mut pos: usize = 0;
        while pos < r.len() && r[pos] <= x
            invariant
                pos <= r.len(),
                forall|k: int| 0 <= k < pos ==> r@[k] <= x,
            decreases r.len() - pos,
        {
            pos = pos + 1;
        }
        let ghost before = r@;
        r.insert(pos, x);
        proof {
            vstd::seq_lib::to_multiset_insert(before, pos as int, x);
            assert(ages@.take(i + 1) =~= ages@.take(i as int).push(x));
            vstd::seq_lib::to_multiset_build(ages@.take(i as int), x);
            assert forall|a: int, b: int| 0 <= a < b < r@.len() implies #[trigger] (age_leq())(
                r@[a],
                r@[b],
            ) by {
                if b < pos {
                    assert((age_leq())(before[a], before[b]));
                } else if b == pos {
                } else if a < pos {
                    assert(r@[b] == before[b - 1]);
                    if pos < before.len() {
                        assert((age_leq())(before[pos as int], before[b - 1]) || pos == b - 1);
                    }
                } else if a == pos {
                    assert(r@[b] == before[b - 1]);
                    assert((age_leq())(before[pos as int], before[b - 1]) || pos == b - 1);
                } else {
                    assert((age_leq())(before[a - 1], before[b - 1]));
                }
            }
        }
    }
    assert(ages@.take(ages.len() as int) =~= ages@);
    r
}

/// The median of `ages`, per `median_of`.
fn median_age(ages: &Vec<i64>) -> (r: i64)
    ensures
        r == median_of(ages@),
{
    if ages.len() == 0 {
        return 0;
    }
    let sorted = sorted_ages(ages);
    proof {
        lemma_age_leq_total();
        ages@.lemma_sort_by_ensures(age_leq());
        vstd::seq_lib::lemma_sorted_unique(sorted@, ages@.sort_by(age_leq()), age_leq());
    }
    sorted[ages.len() / 2]
}

/// The Issues panel for `issues` at time `now`: pull requests are left out,
/// each issue's age is compared with the median age of the remaining issues.
pub fn summarize_issues(issues: Vec<IssueRecord>, now: i64) -> (r: IssuesSummary)
    requires
        ages_fit(issues@, now),
    ensures
        r.median_age_days == median_of(issue_ages(issues@, now)),
        r.issues@.len() == issues_only(issues@).len(),
        forall|i: int|
            0 <= i < r.issues@.len() ==> summary_matches(
                #[trigger] r.issues@[i],
                issues_only(issues@)[i],
                now,
                r.median_age_days,
            ),
{
    broadcast use vstd::seq_lib::group_filter_ensures;

    let mut ages: Vec<i64> = Vec::new();
    for i in 0..issues.len()
        invariant
            ages_fit(issues@, now),
            ages@ == issue_ages(issues@.take(i as int), now),
    {
        proof {
            lemma_issues_only_step(issues@, i as int);
        }
        if !issues[i].is_pull_request {
            let a = days_since(now, issues[i].created_at);
            ages.push(a);
        }
        assert(ages@ =~= issue_ages(issues@.take(i + 1), now));
    }
    assert(issues@.take(issues.len() as int) =~= issues@);
    let median = median_age(&ages);
    let mut rows: Vec<IssueSummary> = Vec::new();
    for i in 0..issues.len()
        invariant
            ages_fit(issues@, now),
            median == median_of(issue_ages(issues@, now)),
            rows@.len() == issues_only(issues@.take(i as int)).len(),
            forall|k: int|
                0 <= k < rows@.len() ==> summary_matches(
                    #[trigger] rows@[k],
                    issues_only(issues@.take(i as int))[k],
                    now,
                    median,
                ),
    {
        proof {
            lemma_issues_only_step(issues@, i as int);
        }
        let rec = &issues[i];
        if !rec.is_pull_request {
            let age_days = days_since(now, rec.created_at);
            let row = IssueSummary {
                number: rec.number,
                title: rec.title.clone(),
                html_url: rec.html_url.clone(),
                age_days,
                days_since_update: days_since(now, rec.updated_at),
                comments: rec.comments,
                relative_to_median: classify_age(age_days, median),
            };
            rows.push(row);
        }
    }
    IssuesSummary { issues: rows, median_age_days: median }
}

/// Once a token is due for refresh it stays due as time goes on.
pub proof fn law_refresh_due_stays_due(access_expires_at: int, now: int, later: int)
    requires
        refresh_due(access_expires_at, now),
        now <= later,
    ensures
        refresh_due(access_expires_at, later),
{
}

/// The order of the age classes, newest first.
pub open spec fn age_rank(a: RelativeAge) -> int {
    match a {
        RelativeAge::NewerThanUsual => 0,
        RelativeAge::Typical => 1,
        RelativeAge::OlderThanUsual => 2,
    }
}

/// Against a positive median, an older issue is never classed newer than a
/// younger one.
pub proof fn law_classification_monotone(age: int, older_age: int, median: int)
    requires
        median > 0,
        age <= older_age,
    ensures
        age_rank(relative_age(age, median)) <= age_rank(relative_age(older_age, median)),
{
}

/// Exactly one and a half times a positive median is still typical: the
/// threshold is strictly greater.
pub proof fn law_exact_boundary_is_typical(age: int, median: int)
    requires
        median > 0,
        2 * age == 3 * median,
    ensures
        relative_age(age, median) == RelativeAge::Typical,
{
}

/// The age classes against a positive median `m`: an age beyond one and a
/// half times `m` (2a > 3m) is older than usual, one below half of `m`
/// (2a < m) is newer than usual, and every age from half of `m` to one and a
/// half times `m`, both ends included, is typical. Against a zero median
/// every age is typical.
pub proof fn law_age_classes_follow_thresholds(age: int, median: int)
    ensures
        median > 0 ==> (relative_age(age, median) == RelativeAge::OlderThanUsual <==> 2 * age > 3
            * median),
        median > 0 ==> (relative_age(age, median) == RelativeAge::NewerThanUsual <==> 2 * age
            < median),
        median > 0 ==> (relative_age(age, median) == RelativeAge::Typical <==> median <= 2 * age
            <= 3 * median),
        median == 0 ==> relative_age(age, median) == RelativeAge::Typical,
{
}

/// Each row of the Issues panel is its issue: the rows are the records that
/// are not pull requests, in order, and the k-th row carries the number,
/// title, link and comment count of the k-th such record; every record that
/// is not a pull request has a row carrying its number and comment count, and
/// no row comes from a pull request.
pub proof fn law_rows_carry_their_issue(
    rows: Seq<IssueSummary>,
    rs: Seq<IssueRecord>,
    now: i64,
    median: i64,
)
    requires
        rows.len() == issues_only(rs).len(),
        forall|k: int|
            0 <= k < rows.len() ==> summary_matches(#[trigger] rows[k], issues_only(rs)[k], now, median),
    ensures
        forall|k: int|
            0 <= k < rows.len() ==> {
                &&& !issues_only(rs)[k].is_pull_request
                &&& rs.contains(issues_only(rs)[k])
                &&& (#[trigger] rows[k]).comments == issues_only(rs)[k].comments
                &&& rows[k].number == issues_only(rs)[k].number
                &&& rows[k].title@ == issues_only(rs)[k].title@
                &&& rows[k].html_url@ == issues_only(rs)[k].html_url@
            },
        forall|j: int|
            0 <= j < rs.len() && !(#[trigger] rs[j]).is_pull_request ==> exists|k: int|
                0 <= k < rows.len() && rows[k].number == rs[j].number && rows[k].comments
                    == rs[j].comments,
{
    broadcast use vstd::seq_lib::group_filter_ensures;

    assert forall|k: int| 0 <= k < rows.len() implies {
        &&& !issues_only(rs)[k].is_pull_request
        &&& rs.contains(issues_only(rs)[k])
        &&& (#[trigger] rows[k]).comments == issues_only(rs)[k].comments
        &&& rows[k].number == issues_only(rs)[k].number
        &&& rows[k].title@ == issues_only(rs)[k].title@
        &&& rows[k].html_url@ == issues_only(rs)[k].html_url@
    } by {
        assert(summary_matches(rows[k], issues_only(rs)[k], now, median));
        assert(issue_filter()(issues_only(rs)[k]));
        lemma_kept_record_is_a_record(rs, k);
    }
    assert forall|j: int| 0 <= j < rs.len() && !(#[trigger] rs[j]).is_pull_request implies exists|
        k: int,
    | 0 <= k < rows.len() && rows[k].number == rs[j].number && rows[k].comments == rs[j].comments by {
        assert(rs.contains(rs[j]));
        assert(issue_filter()(rs[j]));
        assert(issues_only(rs).contains(rs[j]));
        let k = choose|k: int| 0 <= k < issues_only(rs).len() && issues_only(rs)[k] == rs[j];
        assert(summary_matches(rows[k], issues_only(rs)[k], now, median));
    }
}

proof fn lemma_kept_record_is_a_record(rs: Seq<IssueRecord>, k: int)
    requires
        0 <= k < issues_only(rs).len(),
    ensures
        rs.contains(issues_only(rs)[k]),
    decreases rs.len(),
{
    reveal(Seq::filter);
    if rs.len() > 0 {
        let init = rs.drop_last();
        let x = issues_only(rs)[k];
        if k < issues_only(init).len() {
            assert(x == issues_only(init)[k]);
            lemma_kept_record_is_a_record(init, k);
            let j = choose|j: int| 0 <= j < init.len() && init[j] == x;
            assert(rs[j] == init[j]);
        } else {
            assert(x == rs[rs.len() - 1]);
        }
    }
}

/// The median of a non-empty list of ages is one of the ages.
pub proof fn law_median_is_an_age(ages: Seq<i64>)
    requires
        ages.len() > 0,
    ensures
        ages.contains(median_of(ages)),
{
    broadcast use vstd::seq_lib::group_to_multiset_ensures;

    lemma_age_leq_total();
    ages.lemma_sort_by_ensures(age_leq());
    let sorted = ages.sort_by(age_leq());
    vstd::seq_lib::to_multiset_len(ages);
    vstd::seq_lib::to_multiset_len(sorted);
    let m = sorted[(ages.len() / 2) as int];
    assert(sorted.contains(m));
    assert(sorted.to_multiset().count(m) > 0);
}

} // verus!
