use sidecar::git::{build_graph, parse_github_owner_repo, parse_merge_pr, CommitInfo, RefInfo};

#[test]
fn parses_ssh_url() {
    assert_eq!(
        parse_github_owner_repo("git@github.com:rodlunt/sidecar.git"),
        Some(("rodlunt".to_string(), "sidecar".to_string()))
    );
}

#[test]
fn parses_https_url() {
    assert_eq!(
        parse_github_owner_repo("https://github.com/rodlunt/sidecar.git"),
        Some(("rodlunt".to_string(), "sidecar".to_string()))
    );
}

#[test]
fn parses_https_url_without_git_suffix() {
    assert_eq!(
        parse_github_owner_repo("https://github.com/rodlunt/sidecar"),
        Some(("rodlunt".to_string(), "sidecar".to_string()))
    );
}

#[test]
fn rejects_non_github_url() {
    assert_eq!(parse_github_owner_repo("https://gitlab.com/rodlunt/sidecar.git"), None);
}

#[test]
fn parses_real_github_merge_message() {
    let message = "Merge pull request #4 from rodlunt/feat/git-graph-panel\n\nfeat: add git commit graph panel\n";
    assert_eq!(
        parse_merge_pr(message),
        Some((4, "feat: add git commit graph panel".to_string()))
    );
}

#[test]
fn rejects_non_merge_commit_message() {
    assert_eq!(parse_merge_pr("fix(ci): declare pnpm version via packageManager field"), None);
}

#[test]
fn rejects_hand_written_merge_message() {
    assert_eq!(parse_merge_pr("Merge branch 'main' into feature-x"), None);
}

#[test]
fn rejects_merge_with_no_title_line() {
    assert_eq!(parse_merge_pr("Merge pull request #4 from rodlunt/feat/x\n"), None);
}

/// A linear history "first" <- "second" <- "third", as the walk yields it
/// (newest first), limited to `limit` commits.
fn chain(limit: usize) -> Vec<CommitInfo> {
    let ids = ["c3", "c2", "c1"];
    let messages = ["third", "second", "first"];
    let mut out = Vec::new();
    for i in 0..3usize.min(limit) {
        let parent_ids = if i + 1 < 3 { vec![ids[i + 1].to_string()] } else { vec![] };
        out.push(CommitInfo {
            id: ids[i].to_string(),
            parent_ids,
            message: Some(messages[i].to_string()),
            summary: Some(messages[i].to_string()),
            author: Some("Test".to_string()),
            time: 1_700_000_000 - i as i64,
        });
    }
    out
}

#[test]
fn full_history_has_no_truncated_parents() {
    let data = build_graph(chain(100), vec![], false);
    assert_eq!(data.commits.len(), 3);
    assert!(data.commits.iter().all(|c| c.truncated_parents.is_empty()));
}

#[test]
fn limited_fetch_marks_boundary_as_truncated() {
    let data = build_graph(chain(2), vec![], false);
    assert_eq!(data.commits.len(), 2);
    let boundary = data.commits.last().unwrap();
    assert!(boundary.parents.is_empty());
    assert_eq!(boundary.truncated_parents.len(), 1);
}

#[test]
fn parses_http_and_ssh_scheme_urls() {
    assert_eq!(
        parse_github_owner_repo("http://github.com/a/b"),
        Some(("a".to_string(), "b".to_string()))
    );
    assert_eq!(
        parse_github_owner_repo("ssh://git@github.com/a/b.git"),
        Some(("a".to_string(), "b".to_string()))
    );
}

#[test]
fn url_is_trimmed_and_every_git_suffix_removed() {
    assert_eq!(
        parse_github_owner_repo("  https://github.com/o/r.git.git \n"),
        Some(("o".to_string(), "r".to_string()))
    );
}

#[test]
fn repo_keeps_later_slashes() {
    assert_eq!(
        parse_github_owner_repo("https://github.com/o/r/extra"),
        Some(("o".to_string(), "r/extra".to_string()))
    );
}

#[test]
fn rejects_empty_owner_or_repo() {
    assert_eq!(parse_github_owner_repo("https://github.com//r"), None);
    assert_eq!(parse_github_owner_repo("https://github.com/o/"), None);
    assert_eq!(parse_github_owner_repo("https://github.com/o"), None);
    assert_eq!(parse_github_owner_repo("https://github.com/.git"), None);
}

#[test]
fn merge_title_is_first_nonblank_line_trimmed() {
    assert_eq!(
        parse_merge_pr("Merge pull request #12 from a/b\r\n   \n\t  Title here  \r\nmore"),
        Some((12, "Title here".to_string()))
    );
}

#[test]
fn merge_number_must_be_canonical() {
    assert_eq!(parse_merge_pr("Merge pull request #04 from a/b\n\nt"), None);
    assert_eq!(parse_merge_pr("Merge pull request #+4 from a/b\n\nt"), None);
    assert_eq!(parse_merge_pr("Merge pull request #4from a/b\n\nt"), None);
    assert_eq!(parse_merge_pr("Merge pull request #0 from a/b\n\nt"), Some((0, "t".to_string())));
}

#[test]
fn merge_number_limits() {
    assert_eq!(
        parse_merge_pr("Merge pull request #18446744073709551615 from a/b\n\nt"),
        Some((u64::MAX, "t".to_string()))
    );
    assert_eq!(parse_merge_pr("Merge pull request #18446744073709551616 from a/b\n\nt"), None);
}

#[test]
fn merge_first_line_is_trimmed() {
    assert_eq!(
        parse_merge_pr("  Merge pull request #7 from x  \nTitle"),
        Some((7, "Title".to_string()))
    );
    assert_eq!(parse_merge_pr("Merge pull request #7 from\nTitle"), None);
    assert_eq!(parse_merge_pr(""), None);
}

#[test]
fn graph_labels_refs_and_prs() {
    let commits = vec![
        CommitInfo {
            id: "m".to_string(),
            parent_ids: vec!["a".to_string(), "b".to_string()],
            message: Some("Merge pull request #9 from x/y\n\nAdd things\n".to_string()),
            summary: Some("Merge pull request #9 from x/y".to_string()),
            author: None,
            time: 5,
        },
        CommitInfo {
            id: "a".to_string(),
            parent_ids: vec![],
            message: None,
            summary: None,
            author: Some("Ann".to_string()),
            time: 4,
        },
    ];
    let refs = vec![
        RefInfo { target: Some("m".to_string()), shorthand: Some("main".to_string()), name: None },
        RefInfo { target: None, shorthand: Some("HEAD".to_string()), name: None },
        RefInfo { target: Some("m".to_string()), shorthand: None, name: Some("refs/tags/v1".to_string()) },
        RefInfo { target: Some("m".to_string()), shorthand: None, name: None },
        RefInfo { target: Some("a".to_string()), shorthand: Some("old".to_string()), name: None },
    ];
    let data = build_graph(commits, refs, true);
    assert!(data.is_shallow);
    let m = &data.commits[0];
    assert_eq!(m.parents, vec!["a".to_string()]);
    assert_eq!(m.truncated_parents, vec!["b".to_string()]);
    assert_eq!(m.refs, vec!["main".to_string(), "refs/tags/v1".to_string()]);
    assert_eq!(m.pr_number, Some(9));
    assert_eq!(m.pr_title, Some("Add things".to_string()));
    assert_eq!(m.author, "unknown");
    let a = &data.commits[1];
    assert_eq!(a.refs, vec!["old".to_string()]);
    assert_eq!(a.summary, "");
    assert_eq!(a.author, "Ann");
    assert_eq!(a.pr_number, None);
    assert_eq!(a.date, 4);
}
