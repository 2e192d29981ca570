//! Commit-graph assembly and the two message/URL recognisers used by the
//! git panel: GitHub's regular-merge commit message and a GitHub remote URL.
use vstd::prelude::*;

use crate::text;

verus! {

// ---------------------------------------------------------------------------
// GitHub remote URLs
// ---------------------------------------------------------------------------

/// What follows one of the recognised GitHub remote prefixes in `t`, trying
/// `git@github.com:`, `https://github.com/`, `http://github.com/` and
/// `ssh://git@github.com/` in that order.
pub open spec fn github_path(t: Seq<char>) -> Option<Seq<char>> {
    if text::occurs_at(t, 0, "git@github.com:"@) {
        Some(t.skip("git@github.com:"@.len() as int))
    } else if text::occurs_at(t, 0, "https://github.com/"@) {
        Some(t.skip("https://github.com/"@.len() as int))
    } else if text::occurs_at(t, 0, "http://github.com/"@) {
        Some(t.skip("http://github.com/"@.len() as int))
    } else if text::occurs_at(t, 0, "ssh://git@github.com/"@) {
        Some(t.skip("ssh://git@github.com/"@.len() as int))
    } else {
        None
    }
}

/// `s` with every trailing copy of `p` removed, as `str::trim_end_matches` does.
pub open spec fn strip_all_suffix(s: Seq<char>, p: Seq<char>) -> Seq<char>
    decreases s.len(),
{
    if p.len() > 0 && text::ends_with(s, p) {
        strip_all_suffix(s.take(s.len() - p.len()), p)
    } else {
        s
    }
}

/// `(owner, repo)` split at the first `/` of `path`, both non-empty.
pub open spec fn split_owner_repo(path: Seq<char>) -> Option<(Seq<char>, Seq<char>)> {
    let i = text::find_from(path, '/', 0);
    if 0 < i && i + 1 < path.len() {
        Some((path.take(i), path.skip(i + 1)))
    } else {
        None
    }
}

/// The `(owner, repo)` named by a GitHub remote URL: the URL is trimmed,
/// loses every trailing `.git`, must start with a recognised GitHub prefix,
/// and the rest splits at its first `/` into two non-empty parts.
pub open spec fn owner_repo_of(url: Seq<char>) -> Option<(Seq<char>, Seq<char>)> {
    match github_path(strip_all_suffix(text::trim(url), ".git"@)) {
        Some(path) => split_owner_repo(path),
        None => None,
    }
}

/// What is left of `t` after `p`, when `t` starts with `p`.
fn after_prefix(t: &Vec<char>, p: &str) -> (r: Option<Vec<char>>)
    ensures
        r matches Some(rest) ==> text::occurs_at(t@, 0, p@) && rest@ == t@.skip(p@.len() as int),
        r is None ==> !text::occurs_at(t@, 0, p@),
{
    let pc = text::chars_of(p);
    let found = text::occurs_within(t, 0, t.len(), &pc);
    assert(t@.subrange(0, t@.len() as int) =~= t@);
    if found {
        let rest = text::sub_chars(t, pc.len(), t.len());
        assert(rest@ =~= t@.skip(p@.len() as int));
        Some(rest)
    } else {
        None
    }
}

/// Parses `git@github.com:owner/repo.git` and `https://github.com/owner/repo.git`
/// (with or without a trailing `.git`, also `http://` and `ssh://git@`) into
/// `(owner, repo)`.
pub fn parse_github_owner_repo(url: &str) -> (r: Option<(String, String)>)
    ensures
        match r {
            Some((owner, repo)) => owner_repo_of(url@) == Some((owner@, repo@)),
            None => owner_repo_of(url@) is None,
        },
{
    let cs = text::chars_of(url);
    let (a, mut b) = text::trim_bounds(&cs, 0, cs.len());
    assert(cs@.subrange(0, cs@.len() as int) =~= cs@);
    let git = text::chars_of(".git");
    proof {
        reveal_strlit(".git");
    }
    while b - a >= git.len() && text::occurs_within(&cs, b - git.len(), b, &git)
        invariant
            a <= b <= cs.len(),
            git@ == ".git"@,
            git@.len() == 4,
            strip_all_suffix(text::trim(url@), ".git"@) == strip_all_suffix(
                cs@.subrange(a as int, b as int),
                ".git"@,
            ),
        decreases b - a,
    {
        let ghost s = cs@.subrange(a as int, b as int);
        assert(cs@.subrange(0, b as int).subrange(b - 4, b as int) =~= s.subrange(
            s.len() - 4,
            s.len() as int,
        ));
        assert(s.take(s.len() - 4) =~= cs@.subrange(a as int, b - 4));
        b = b - git.len();
    }
    let t = text::sub_chars(&cs, a, b);
    proof {
        let s = cs@.subrange(a as int, b as int);
        if s.len() >= 4 {
            assert(cs@.subrange(0, b as int).subrange(b - 4, b as int) =~= s.subrange(
                s.len() - 4,
                s.len() as int,
            ));
        }
        assert(strip_all_suffix(s, ".git"@) == s);
    }
    let path = match after_prefix(&t, "git@github.com:") {
        Some(rest) => rest,
        None => match after_prefix(&t, "https://github.com/") {
            Some(rest) => rest,
            None => match after_prefix(&t, "http://github.com/") {
                Some(rest) => rest,
                None => match after_prefix(&t, "ssh://git@github.com/") {
                    Some(rest) => rest,
                    None => {
                        return None;
                    },
                },
            },
        },
    };
    let i = text::find_char(&path, '/', 0);
    proof {
        text::lemma_find_from(path@, '/', 0);
    }
    if i == 0 || i >= path.len() || path.len() - i < 2 {
        return None;
    }
    let owner = text::string_of_range(&path, 0, i);
    let repo = text::string_of_range(&path, i + 1, path.len());
    assert(owner@ =~= path@.take(i as int));
    assert(repo@ =~= path@.skip(i + 1));
    Some((owner, repo))
}

/// The recognised GitHub remote prefixes, numbered in the order they are tried.
pub open spec fn github_prefix(k: int) -> Seq<char> {
    if k == 0 {
        "git@github.com:"@
    } else if k == 1 {
        "https://github.com/"@
    } else if k == 2 {
        "http://github.com/"@
    } else {
        "ssh://git@github.com/"@
    }
}

/// A GitHub remote URL for `owner/repo` under prefix `k`, with or without a
/// trailing `.git`.
pub open spec fn github_remote_url(k: int, owner: Seq<char>, repo: Seq<char>, git_suffix: bool) -> Seq<char> {
    github_prefix(k) + owner + seq!['/'] + repo + if git_suffix {
        ".git"@
    } else {
        Seq::<char>::empty()
    }
}

proof fn lemma_not_ending_with_git(owner: Seq<char>, repo: Seq<char>, pre: Seq<char>)
    requires
        repo.len() > 0,
        !text::ends_with(repo, ".git"@),
    ensures
        !text::ends_with(pre + owner + seq!['/'] + repo, ".git"@),
{
    reveal_strlit(".git");
    assert(".git"@ =~= seq!['.', 'g', 'i', 't']);
    let core = pre + owner + seq!['/'] + repo;
    let g = ".git"@;
    if text::ends_with(core, g) {
        if repo.len() >= 4 {
            assert(repo.subrange(repo.len() - 4, repo.len() as int) =~= core.subrange(
                core.len() - 4,
                core.len() as int,
            ));
        } else {
            let slash_at = core.len() - 1 - repo.len();
            assert(core[slash_at] == '/');
            assert(core.subrange(core.len() - 4, core.len() as int)[slash_at - (core.len() - 4)]
                == '/');
        }
    }
}

/// Whatever URL is recognised, the owner and the repository are non-empty and
/// the owner holds no `/`.
pub proof fn law_remote_parts_nonempty(url: Seq<char>)
    requires
        owner_repo_of(url) is Some,
    ensures
        match owner_repo_of(url) {
            Some((owner, repo)) => {
                &&& owner.len() > 0
                &&& repo.len() > 0
                &&& forall|i: int| 0 <= i < owner.len() ==> owner[i] != '/'
            },
            None => false,
        },
{
    let path = github_path(strip_all_suffix(text::trim(url), ".git"@))->0;
    text::lemma_find_from(path, '/', 0);
}

/// A GitHub remote URL, ssh or https, with or without a trailing `.git`,
/// gives back the owner and repository it was made from (an owner without
/// `/`, a repository that neither ends in whitespace nor in `.git`).
pub proof fn law_remote_url_round_trip(k: int, owner: Seq<char>, repo: Seq<char>, git_suffix: bool)
    requires
        0 <= k < 4,
        owner.len() > 0,
        forall|i: int| 0 <= i < owner.len() ==> owner[i] != '/',
        repo.len() > 0,
        !text::is_space(repo.last()),
        !text::ends_with(repo, ".git"@),
    ensures
        owner_repo_of(github_remote_url(k, owner, repo, git_suffix)) == Some((owner, repo)),
{
    reveal_strlit("git@github.com:");
    reveal_strlit("https://github.com/");
    reveal_strlit("http://github.com/");
    reveal_strlit("ssh://git@github.com/");
    reveal_strlit(".git");
    let p = github_prefix(k);
    let path = owner + seq!['/'] + repo;
    let core = p + path;
    assert(core =~= p + owner + seq!['/'] + repo);
    let url = github_remote_url(k, owner, repo, git_suffix);
    let g = ".git"@;
    // the URL has no surrounding whitespace
    assert(url[0] == p[0]);
    if git_suffix {
        assert(url.last() == 't');
    } else {
        assert(url =~= core);
        assert(url.last() == repo.last());
    }
    text::lemma_trim_fixed(url);
    // exactly one `.git` comes off
    lemma_not_ending_with_git(owner, repo, p);
    assert(g =~= seq!['.', 'g', 'i', 't']);
    assert(strip_all_suffix(core, g) == core);
    if git_suffix {
        assert(url =~= core + g);
        assert(url.subrange(url.len() - 4, url.len() as int) =~= g);
        assert(text::ends_with(url, g));
        assert(url.take(url.len() - 4) =~= core);
        assert(strip_all_suffix(url, g) == strip_all_suffix(core, g));
    }
    assert(strip_all_suffix(url, g) == core);
    // the prefix is recognised, and no earlier one matches
    assert(core.subrange(0, p.len() as int) =~= p);
    assert(core.skip(p.len() as int) =~= path);
    if k >= 1 {
        assert(core.subrange(0, "git@github.com:"@.len() as int)[0] != "git@github.com:"@[0]);
    }
    if k >= 2 {
        assert(core.subrange(0, "https://github.com/"@.len() as int)[4] != "https://github.com/"@[4]);
    }
    if k >= 3 {
        assert(core.subrange(0, "http://github.com/"@.len() as int)[0] != "http://github.com/"@[0]);
    }
    assert(github_path(core) == Some(path));
    // the first `/` of the path ends the owner
    assert forall|i: int| 0 <= i < owner.len() implies path[i] != '/' by {
        assert(path[i] == owner[i]);
    }
    text::lemma_find_from_exact(path, '/', 0, owner.len() as int);
    assert(path.take(owner.len() as int) =~= owner);
    assert(path.skip(owner.len() + 1int) =~= repo);
}

// ---------------------------------------------------------------------------
// GitHub regular-merge commit messages
// ---------------------------------------------------------------------------

/// The pull request number on a merge message's (trimmed) first line: the line
/// must start with `Merge pull request #`, followed by the number's canonical
/// decimal numeral (fitting a `u64`) and then ` from `.
pub open spec fn pr_number_in(first: Seq<char>) -> Option<u64> {
    let p = "Merge pull request #"@;
    if text::occurs_at(first, 0, p) {
        let rest = first.skip(p.len() as int);
        let k = text::leading_digits(rest) as int;
        let ds = rest.take(k);
        if k >= 1 && (k == 1 || ds[0] != '0') && text::digits_value(ds) <= u64::MAX && text::occurs_at(
            rest,
            k,
            " from "@,
        ) {
            Some(text::digits_value(ds) as u64)
        } else {
            None
        }
    } else {
        None
    }
}

/// The first line at or after index `start` of `s` (lines end at `\n`) whose
/// trim is non-empty, trimmed.
pub open spec fn first_nonblank_line_from(s: Seq<char>, start: int) -> Option<Seq<char>>
    decreases s.len() - start,
{
    if start < 0 || start > s.len() {
        None
    } else {
        let e = text::find_from(s, '\n', start);
        let t = text::trim(s.subrange(start, e));
        if t.len() > 0 {
            Some(t)
        } else if e >= s.len() {
            None
        } else {
            proof {
                text::lemma_find_from(s, '\n', start);
            }
            first_nonblank_line_from(s, e + 1)
        }
    }
}

/// GitHub's regular-merge message shape: the trimmed first line carries
/// `Merge pull request #N from ...`, and the title is the first later line
/// that is not blank, trimmed.
pub open spec fn merge_pr_of(m: Seq<char>) -> Option<(u64, Seq<char>)> {
    let e = text::find_from(m, '\n', 0);
    match pr_number_in(text::trim(m.subrange(0, e))) {
        Some(n) => if e < m.len() {
            match first_nonblank_line_from(m, e + 1) {
                Some(t) => Some((n, t)),
                None => None,
            }
        } else {
            None
        },
        None => None,
    }
}

/// Only a merge line is recognised: whenever a message yields a pull request,
/// its trimmed first line starts with `Merge pull request #`, and the title
/// is not blank.
pub proof fn law_merge_needs_merge_line(m: Seq<char>)
    requires
        merge_pr_of(m) is Some,
    ensures
        text::occurs_at(text::trim(m.subrange(0, text::find_from(m, '\n', 0))), 0, "Merge pull request #"@),
        match merge_pr_of(m) {
            Some((_, title)) => title.len() > 0,
            None => false,
        },
{
    let e = text::find_from(m, '\n', 0);
    lemma_first_nonblank_is_nonblank(m, e + 1);
}

proof fn lemma_first_nonblank_is_nonblank(s: Seq<char>, start: int)
    ensures
        first_nonblank_line_from(s, start) matches Some(t) ==> t.len() > 0,
    decreases s.len() - start,
{
    if 0 <= start <= s.len() {
        let e = text::find_from(s, '\n', start);
        text::lemma_find_from(s, '\n', start);
        if text::trim(s.subrange(start, e)).len() == 0 && e < s.len() {
            lemma_first_nonblank_is_nonblank(s, e + 1);
        }
    }
}

/// The message of a GitHub regular merge of pull request `n` from `branch`:
/// the merge line, a blank line, the title line, then any body.
pub open spec fn github_merge_message(n: u64, branch: Seq<char>, title: Seq<char>, body: Seq<char>) -> Seq<char> {
    "Merge pull request #"@ + text::decimal(n as nat) + " from "@ + branch + seq!['\n', '\n']
        + title + seq!['\n'] + body
}

/// A GitHub regular-merge message gives back its pull request number and
/// title (a branch name and a title on one line each, neither ending in
/// whitespace, the title not starting with it either).
pub proof fn law_merge_message_round_trip(n: u64, branch: Seq<char>, title: Seq<char>, body: Seq<char>)
    requires
        branch.len() > 0,
        !text::is_space(branch.last()),
        forall|i: int| 0 <= i < branch.len() ==> branch[i] != '\n',
        title.len() > 0,
        !text::is_space(title[0]),
        !text::is_space(title.last()),
        forall|i: int| 0 <= i < title.len() ==> title[i] != '\n',
    ensures
        merge_pr_of(github_merge_message(n, branch, title, body)) == Some((n, title)),
{
    reveal_strlit("Merge pull request #");
    reveal_strlit(" from ");
    let p = "Merge pull request #"@;
    let fr = " from "@;
    let d = text::decimal(n as nat);
    text::lemma_decimal(n as nat);
    let first = p + d + fr + branch;
    let m = github_merge_message(n, branch, title, body);
    assert(m =~= first + seq!['\n', '\n'] + title + seq!['\n'] + body);
    let f = first.len() as int;
    // the first line is the merge line
    assert forall|k: int| 0 <= k < f implies m[k] != '\n' by {
        assert(m[k] == first[k]);
        if k < p.len() {
            assert(first[k] == p[k]);
        } else if k < p.len() + d.len() {
            assert(first[k] == d[k - p.len()]);
            assert(text::is_digit(d[k - p.len()]));
        } else if k < p.len() + d.len() + fr.len() {
            assert(first[k] == fr[k - p.len() - d.len()]);
        } else {
            assert(first[k] == branch[k - p.len() - d.len() - fr.len()]);
        }
    }
    text::lemma_find_from_exact(m, '\n', 0, f);
    assert(m.subrange(0, f) =~= first);
    assert(first[0] == 'M');
    assert(first.last() == branch.last());
    text::lemma_trim_fixed(first);
    // the number
    assert(first.subrange(0, p.len() as int) =~= p);
    let rest = first.skip(p.len() as int);
    assert(rest =~= d + (fr + branch));
    text::lemma_leading_digits_concat(d, fr + branch);
    assert(rest.take(d.len() as int) =~= d);
    if n == 0 {
        assert(d.len() == 1);
    }
    assert(rest.subrange(d.len() as int, (d.len() + fr.len()) as int) =~= fr);
    assert(pr_number_in(first) == Some(n));
    // the blank line, then the title
    let s1 = f + 1;
    text::lemma_find_from_exact(m, '\n', s1, s1);
    assert(m.subrange(s1, s1) =~= Seq::<char>::empty());
    assert(text::trim(Seq::<char>::empty()) =~= Seq::<char>::empty());
    let s2 = f + 2;
    assert forall|k: int| s2 <= k < s2 + title.len() implies m[k] != '\n' by {
        assert(m[k] == title[k - s2]);
    }
    text::lemma_find_from_exact(m, '\n', s2, s2 + title.len());
    assert(m.subrange(s2, s2 + title.len()) =~= title);
    text::lemma_trim_fixed(title);
    assert(first_nonblank_line_from(m, s2) == Some(title));
    assert(first_nonblank_line_from(m, s1) == Some(title));
}

/// The length of the run of digits that starts `s` and, when it fits in a
/// `u64`, the value of that numeral.
fn leading_numeral(s: &Vec<char>) -> (r: (usize, Option<u64>))
    ensures
        r.0 == text::leading_digits(s@),
        match r.1 {
            Some(v) => text::digits_value(s@.take(r.0 as int)) == v,
            None => text::digits_value(s@.take(r.0 as int)) > u64::MAX,
        },
{
    proof {
        text::lemma_leading_digits_bound(s@);
        assert(s@.take(0) =~= Seq::<char>::empty());
    }
    let mut j: usize = 0;
    let mut v: u64 = 0;
    let mut fits = true;
    while j < s.len() && text::char_is_digit(s[j])
        invariant
            j <= s.len(),
            forall|i: int| 0 <= i < j ==> text::is_digit(#[trigger] s@[i]),
            fits ==> v == text::digits_value(s@.take(j as int)),
            !fits ==> text::digits_value(s@.take(j as int)) > u64::MAX,
        decreases s.len() - j,
    {
        let d = (s[j] as u32 - 48) as u64;
        proof {
            assert(s@.take(j + 1) =~= s@.take(j as int).push(s@[j as int]));
            text::lemma_digits_value_push(s@.take(j as int), s@[j as int]);
        }
        if fits {
            match v.checked_mul(10) {
                Some(t) => match t.checked_add(d) {
                    Some(nv) => {
                        v = nv;
                    },
                    None => {
                        fits = false;
                    },
                },
                None => {
                    fits = false;
                },
            }
        }
        j = j + 1;
    }
    assert(j == text::leading_digits(s@)) by {
        let k = text::leading_digits(s@);
        if k < j {
            assert(text::is_digit(s@[k as int]));
        }
        if j < k {
            assert(text::is_digit(s@[j as int]));
        }
    }
    if fits {
        (j, Some(v))
    } else {
        (j, None)
    }
}

/// The PR number on a trimmed first line, per `pr_number_in`.
fn pr_number(first: &Vec<char>) -> (r: Option<u64>)
    ensures
        r == pr_number_in(first@),
{
    let p = text::chars_of("Merge pull request #");
    assert(first@.subrange(0, first@.len() as int) =~= first@);
    if !text::occurs_within(first, 0, first.len(), &p) {
        return None;
    }
    let start = p.len();
    let rest = text::sub_chars(first, start, first.len());
    assert(rest@ =~= first@.skip(start as int));
    let (k, value) = leading_numeral(&rest);
    proof {
        text::lemma_leading_digits_bound(rest@);
    }
    let n = match value {
        Some(n) => n,
        None => {
            return None;
        },
    };
    if k == 0 {
        return None;
    }
    assert(rest@.take(k as int)[0] == rest@[0]);
    if k > 1 && rest[0] == '0' {
        return None;
    }
    let from = text::chars_of(" from ");
    assert(rest@.subrange(0, rest@.len() as int) =~= rest@);
    if text::occurs_within(&rest, k, rest.len(), &from) {
        Some(n)
    } else {
        None
    }
}

/// The first non-blank line of `cs` at or after `start`, trimmed.
fn first_nonblank_line(cs: &Vec<char>, start: usize) -> (r: Option<String>)
    requires
        start <= cs.len(),
    ensures
        match r {
            Some(t) => first_nonblank_line_from(cs@, start as int) == Some(t@),
            None => first_nonblank_line_from(cs@, start as int) is None,
        },
{
    let mut pos = start;
    loop
        invariant
            pos <= cs.len(),
            first_nonblank_line_from(cs@, start as int) == first_nonblank_line_from(
                cs@,
                pos as int,
            ),
        decreases cs.len() - pos,
    {
        let e = text::find_char(cs, '\n', pos);
        proof {
            text::lemma_find_from(cs@, '\n', pos as int);
        }
        let (a, b) = text::trim_bounds(cs, pos, e);
        if a < b {
            return Some(text::string_of_range(cs, a, b));
        }
        if e >= cs.len() {
            return None;
        }
        pos = e + 1;
    }
}

/// Recognises GitHub's standard regular-merge commit message shape:
/// "Merge pull request #N from <branch>" as the first line, with the PR
/// title as the first non-empty line after it. Returns `None` for anything
/// else (a non-merge commit, a squash/rebase merge, or a hand-written merge
/// message).
pub fn parse_merge_pr(message: &str) -> (r: Option<(u64, String)>)
    ensures
        match r {
            Some((n, title)) => merge_pr_of(message@) == Some((n, title@)),
            None => merge_pr_of(message@) is None,
        },
{
    let cs = text::chars_of(message);
    let e = text::find_char(&cs, '\n', 0);
    proof {
        text::lemma_find_from(cs@, '\n', 0);
    }
    let (a, b) = text::trim_bounds(&cs, 0, e);
    let first = text::sub_chars(&cs, a, b);
    let n = match pr_number(&first) {
        Some(n) => n,
        None => {
            return None;
        },
    };
    if e >= cs.len() {
        return None;
    }
    match first_nonblank_line(&cs, e + 1) {
        Some(title) => Some((n, title)),
        None => None,
    }
}


// ---------------------------------------------------------------------------
// Commit graph
// ---------------------------------------------------------------------------

/// A walked commit, as read from the repository.
pub struct CommitInfo {
    /// The commit id (hex).
    pub id: String,
    /// The ids of its parents, in order.
    pub parent_ids: Vec<String>,
    /// The full message, when it is valid UTF-8.
    pub message: Option<String>,
    /// The summary line, when there is one.
    pub summary: Option<String>,
    /// The author's name, when it is valid UTF-8.
    pub author: Option<String>,
    /// Commit time, in seconds since the Unix epoch.
    pub time: i64,
}

/// A reference (branch, tag, `HEAD`), as read from the repository.
pub struct RefInfo {
    /// The id of the commit it points at, for a direct reference.
    pub target: Option<String>,
    /// Its short name (`main` for `refs/heads/main`), when readable.
    pub shorthand: Option<String>,
    /// Its full name, when readable.
    pub name: Option<String>,
}

/// One commit of the graph panel.
pub struct GraphCommit {
    pub id: String,
    pub summary: String,
    pub author: String,
    pub date: i64,
    /// Parent commit ids that are present in this graph's commit set.
    pub parents: Vec<String>,
    /// Parent ids referenced by this commit that were not walked (shallow
    /// clone boundary, or truncated by the walk's limit).
    pub truncated_parents: Vec<String>,
    pub refs: Vec<String>,
    /// Present only for a recognised GitHub regular-merge commit.
    pub pr_number: Option<u64>,
    pub pr_title: Option<String>,
}

/// The graph panel's data.
pub struct GraphData {
    pub commits: Vec<GraphCommit>,
    pub is_shallow: bool,
}

/// The texts of a list of strings.
pub open spec fn texts(v: Seq<String>) -> Seq<Seq<char>> {
    v.map_values(|s: String| s@)
}

/// Whether a commit with id `id` is among the walked commits `cs`.
pub open spec fn walked(cs: Seq<CommitInfo>, id: Seq<char>) -> bool {
    exists|j: int| 0 <= j < cs.len() && (#[trigger] cs[j]).id@ == id
}

/// The ids among `ps` that were walked (`inside`) or not (`!inside`), in order.
pub open spec fn parents_where(ps: Seq<String>, cs: Seq<CommitInfo>, inside: bool) -> Seq<
    Seq<char>,
>
    decreases ps.len(),
{
    if ps.len() == 0 {
        Seq::empty()
    } else {
        let rest = parents_where(ps.drop_last(), cs, inside);
        if walked(cs, ps.last()@) == inside {
            rest.push(ps.last()@)
        } else {
            rest
        }
    }
}

/// The name a reference is shown under: its short name, else its full name,
/// else nothing.
pub open spec fn ref_label(r: RefInfo) -> Seq<char> {
    match r.shorthand {
        Some(s) => s@,
        None => match r.name {
            Some(n) => n@,
            None => Seq::empty(),
        },
    }
}

/// The non-empty labels of the references in `refs` that point at `id`, in order.
pub open spec fn labels_at(refs: Seq<RefInfo>, id: Seq<char>) -> Seq<Seq<char>>
    decreases refs.len(),
{
    if refs.len() == 0 {
        Seq::empty()
    } else {
        let rest = labels_at(refs.drop_last(), id);
        let r = refs.last();
        if (r.target matches Some(t) && t@ == id) && ref_label(r).len() > 0 {
            rest.push(ref_label(r))
        } else {
            rest
        }
    }
}

/// Whether commit `i` is the first in `cs` with its id (labels go to that one).
pub open spec fn first_of_its_id(cs: Seq<CommitInfo>, i: int) -> bool {
    forall|j: int| 0 <= j < i ==> (#[trigger] cs[j]).id@ != cs[i].id@
}

/// The commit message, or nothing when it is not readable.
pub open spec fn message_text(c: CommitInfo) -> Seq<char> {
    match c.message {
        Some(m) => m@,
        None => Seq::empty(),
    }
}

/// `g` is the graph entry of commit `i` of the walk `cs`, labelled from `refs`.
pub open spec fn graph_commit_of(g: GraphCommit, cs: Seq<CommitInfo>, i: int, refs: Seq<RefInfo>) -> bool {
    let c = cs[i];
    &&& g.id@ == c.id@
    &&& g.summary@ == match c.summary {
        Some(s) => s@,
        None => Seq::empty(),
    }
    &&& g.author@ == match c.author {
        Some(a) => a@,
        None => "unknown"@,
    }
    &&& g.date == c.time
    &&& texts(g.parents@) == parents_where(c.parent_ids@, cs, true)
    &&& texts(g.truncated_parents@) == parents_where(c.parent_ids@, cs, false)
    &&& texts(g.refs@) == if first_of_its_id(cs, i) {
        labels_at(refs, c.id@)
    } else {
        Seq::empty()
    }
    &&& match merge_pr_of(message_text(c)) {
        Some((n, t)) => g.pr_number == Some(n) && (g.pr_title matches Some(pt) && pt@ == t),
        None => g.pr_number is None && g.pr_title is None,
    }
}

/// Whether `id` is the id of one of `cs`.
fn is_walked(cs: &Vec<CommitInfo>, id: &String) -> (r: bool)
    ensures
        r == walked(cs@, id@),
{
    for j in 0..cs.len()
        invariant
            forall|k: int| 0 <= k < j ==> (#[trigger] cs@[k]).id@ != id@,
    {
        if cs[j].id == *id {
            return true;
        }
    }
    false
}

/// The parents of `c` that were walked, and those that were not.
fn split_parents(cs: &Vec<CommitInfo>, c: &CommitInfo) -> (r: (Vec<String>, Vec<String>))
    ensures
        texts(r.0@) == parents_where(c.parent_ids@, cs@, true),
        texts(r.1@) == parents_where(c.parent_ids@, cs@, false),
{
    let mut inside: Vec<String> = Vec::new();
    let mut outside: Vec<String> = Vec::new();
    for k in 0..c.parent_ids.len()
        invariant
            texts(inside@) == parents_where(c.parent_ids@.take(k as int), cs@, true),
            texts(outside@) == parents_where(c.parent_ids@.take(k as int), cs@, false),
    {
        let ghost pre = c.parent_ids@.take(k as int);
        assert(c.parent_ids@.take(k + 1).drop_last() =~= pre);
        let p = &c.parent_ids[k];
        if is_walked(cs, p) {
            inside.push(p.clone());
        } else {
            outside.push(p.clone());
        }
        assert(texts(inside@) =~= parents_where(c.parent_ids@.take(k + 1), cs@, true));
        assert(texts(outside@) =~= parents_where(c.parent_ids@.take(k + 1), cs@, false));
    }
    assert(c.parent_ids@.take(c.parent_ids.len() as int) =~= c.parent_ids@);
    (inside, outside)
}

/// The label a reference is shown under, per `ref_label`.
fn label_of(r: &RefInfo) -> (l: String)
    ensures
        l@ == ref_label(*r),
{
    match &r.shorthand {
        Some(s) => s.clone(),
        None => match &r.name {
            Some(n) => n.clone(),
            None => String::new(),
        },
    }
}

/// The labels of the references that point at `id`.
fn labels_for(refs: &Vec<RefInfo>, id: &String) -> (r: Vec<String>)
    ensures
        texts(r@) == labels_at(refs@, id@),
{
    let mut out: Vec<String> = Vec::new();
    for k in 0..refs.len()
        invariant
            texts(out@) == labels_at(refs@.take(k as int), id@),
    {
        assert(refs@.take(k + 1).drop_last() =~= refs@.take(k as int));
        let r = &refs[k];
        let points_here = match &r.target {
            Some(t) => *t == *id,
            None => false,
        };
        if points_here {
            let l = label_of(r);
            if !l.as_str().is_empty() {
                out.push(l);
            }
        }
        assert(texts(out@) =~= labels_at(refs@.take(k + 1), id@));
    }
    assert(refs@.take(refs.len() as int) =~= refs@);
    out
}

/// Whether some commit before index `i` has the id of commit `i`.
fn seen_before(cs: &Vec<CommitInfo>, i: usize) -> (r: bool)
    requires
        i < cs.len(),
    ensures
        r == !first_of_its_id(cs@, i as int),
{
    for j in 0..i
        invariant
            i < cs.len(),
            forall|k: int| 0 <= k < j ==> (#[trigger] cs@[k]).id@ != cs@[i as int].id@,
    {
        if cs[j].id == cs[i].id {
            return true;
        }
    }
    false
}

/// Assembles the commit graph from the walked commits (newest first, as the
/// walk yields them) and the repository's references: parents outside the
/// walk are marked truncated, references label the commit they point at, and
/// GitHub regular-merge commits carry their pull request number and title.
pub fn build_graph(commits: Vec<CommitInfo>, refs: Vec<RefInfo>, is_shallow: bool) -> (r: GraphData)
    ensures
        r.is_shallow == is_shallow,
        r.commits@.len() == commits@.len(),
        forall|i: int|
            0 <= i < commits@.len() ==> graph_commit_of(
                #[trigger] r.commits@[i],
                commits@,
                i,
                refs@,
            ),
{
    let mut out: Vec<GraphCommit> = Vec::new();
    for i in 0..commits.len()
        invariant
            out@.len() == i,
            forall|k: int|
                0 <= k < i ==> graph_commit_of(#[trigger] out@[k], commits@, k, refs@),
    {
        let c = &commits[i];
        let (parents, truncated_parents) = split_parents(&commits, c);
        let labels = if seen_before(&commits, i) {
            Vec::new()
        } else {
            labels_for(&refs, &c.id)
        };
        let message = match &c.message {
            Some(m) => m.clone(),
            None => String::new(),
        };
        let (pr_number, pr_title) = match parse_merge_pr(message.as_str()) {
            Some((n, t)) => (Some(n), Some(t)),
            None => (None, None),
        };
        let summary = match &c.summary {
            Some(s) => s.clone(),
            None => String::new(),
        };
        let author = match &c.author {
            Some(a) => a.clone(),
            None => "unknown".to_string(),
        };
        let g = GraphCommit {
            id: c.id.clone(),
            summary,
            author,
            date: c.time,
            parents,
            truncated_parents,
            refs: labels,
            pr_number,
            pr_title,
        };
        assert(texts(g.refs@) =~= if first_of_its_id(commits@, i as int) {
            labels_at(refs@, c.id@)
        } else {
            Seq::empty()
        });
        out.push(g);
    }
    GraphData { commits: out, is_shallow }
}

/// Every parent of a commit is listed exactly once: among `parents` when it
/// was walked, among `truncated_parents` when it was not.
pub proof fn law_parents_partitioned(ps: Seq<String>, cs: Seq<CommitInfo>)
    ensures
        parents_where(ps, cs, true).len() + parents_where(ps, cs, false).len() == ps.len(),
        forall|x: Seq<char>| parents_where(ps, cs, true).contains(x) ==> walked(cs, x),
        forall|x: Seq<char>| parents_where(ps, cs, false).contains(x) ==> !walked(cs, x),
    decreases ps.len(),
{
    if ps.len() > 0 {
        law_parents_partitioned(ps.drop_last(), cs);
        let a = parents_where(ps.drop_last(), cs, true);
        let b = parents_where(ps.drop_last(), cs, false);
        assert forall|x: Seq<char>| parents_where(ps, cs, true).contains(x) implies walked(cs, x) by {
            if walked(cs, ps.last()@) {
                let i = choose|i: int| 0 <= i < a.push(ps.last()@).len() && a.push(ps.last()@)[i] == x;
                if i < a.len() {
                    assert(a.contains(x));
                }
            } else {
                assert(a.contains(x));
            }
        }
        assert forall|x: Seq<char>| parents_where(ps, cs, false).contains(x) implies !walked(cs, x) by {
            if !walked(cs, ps.last()@) {
                let i = choose|i: int| 0 <= i < b.push(ps.last()@).len() && b.push(ps.last()@)[i] == x;
                if i < b.len() {
                    assert(b.contains(x));
                }
            } else {
                assert(b.contains(x));
            }
        }
    }
}

/// A graph entry keeps git's parent order. Its walked parents are the
/// commit's parent ids that were walked, in their original order: when the
/// first parent was walked it is listed first, and when every parent was
/// walked the entry lists exactly the commit's parent ids, first parent
/// first.
pub proof fn law_walked_parents_keep_parent_order(
    g: GraphCommit,
    cs: Seq<CommitInfo>,
    i: int,
    refs: Seq<RefInfo>,
)
    requires
        0 <= i < cs.len(),
        graph_commit_of(g, cs, i, refs),
    ensures
        cs[i].parent_ids@.len() > 0 && walked(cs, cs[i].parent_ids@[0]@) ==> g.parents@.len() > 0
            && g.parents@[0]@ == cs[i].parent_ids@[0]@,
        (forall|k: int|
            0 <= k < cs[i].parent_ids@.len() ==> walked(cs, (#[trigger] cs[i].parent_ids@[k])@))
            ==> texts(g.parents@) == texts(cs[i].parent_ids@),
{
    let ps = cs[i].parent_ids@;
    if ps.len() > 0 && walked(cs, ps[0]@) {
        lemma_first_parent_first(ps, cs);
        assert(texts(g.parents@)[0] == g.parents@[0]@);
    }
    if forall|k: int| 0 <= k < ps.len() ==> walked(cs, (#[trigger] ps[k])@) {
        lemma_all_walked_parents(ps, cs);
    }
}

proof fn lemma_first_parent_first(ps: Seq<String>, cs: Seq<CommitInfo>)
    requires
        ps.len() > 0,
        walked(cs, ps[0]@),
    ensures
        parents_where(ps, cs, true).len() > 0,
        parents_where(ps, cs, true)[0] == ps[0]@,
    decreases ps.len(),
{
    let rest = parents_where(ps.drop_last(), cs, true);
    if ps.len() > 1 {
        assert(ps.drop_last()[0] == ps[0]);
        lemma_first_parent_first(ps.drop_last(), cs);
        assert(rest.push(ps.last()@)[0] == rest[0]);
    } else {
        assert(ps.last() == ps[0]);
        assert(rest.len() == 0);
        assert(rest.push(ps.last()@)[0] == ps[0]@);
    }
}

proof fn lemma_all_walked_parents(ps: Seq<String>, cs: Seq<CommitInfo>)
    requires
        forall|k: int| 0 <= k < ps.len() ==> walked(cs, (#[trigger] ps[k])@),
    ensures
        parents_where(ps, cs, true) == texts(ps),
    decreases ps.len(),
{
    if ps.len() > 0 {
        let init = ps.drop_last();
        assert forall|k: int| 0 <= k < init.len() implies walked(cs, (#[trigger] init[k])@) by {
            assert(init[k] == ps[k]);
        }
        lemma_all_walked_parents(init, cs);
        assert(walked(cs, ps[ps.len() - 1]@));
        assert(texts(ps) =~= texts(init).push(ps.last()@));
    }
}

/// A commit all of whose parents were walked has no truncated parent; so a
/// history walked in full reports none.
pub proof fn law_walked_parents_not_truncated(ps: Seq<String>, cs: Seq<CommitInfo>)
    requires
        forall|k: int| 0 <= k < ps.len() ==> walked(cs, (#[trigger] ps[k])@),
    ensures
        parents_where(ps, cs, false).len() == 0,
    decreases ps.len(),
{
    if ps.len() > 0 {
        assert(walked(cs, ps[ps.len() - 1]@));
        law_walked_parents_not_truncated(ps.drop_last(), cs);
    }
}

} // verus!
