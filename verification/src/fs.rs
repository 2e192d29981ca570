//! The file tree and file preview: which directory entries are listed and in
//! what order, whether a path lies inside the open workspace, and how a file's
//! bytes are classified for the preview panel.
use vstd::prelude::*;
use vstd::utf8::{valid_utf8, decode_utf8};

use crate::text;

verus! {

// ---------------------------------------------------------------------------
// Directory listing
// ---------------------------------------------------------------------------

/// One entry of a directory listing.
pub struct FileEntry {
    pub name: String,
    pub path: String,
    pub is_dir: bool,
}

/// The Unicode lower-case mapping of `s`, as `str::to_lowercase` computes it.
pub uninterp spec fn lowercase(s: Seq<char>) -> Seq<char>;

/// Lower-cases `s`.
///
/// Calls `str::to_lowercase`; the contract claims only that the result is the
/// function `lowercase` of the input's characters (the Unicode case tables are
/// left unstated).
#[verifier::external_body]
fn to_lowercase(s: &str) -> (r: String)
    ensures
        r@ == lowercase(s@),
{
    s.to_lowercase()
}

/// Whether every character of `s` is ASCII.
pub open spec fn all_ascii(s: Seq<char>) -> bool {
    forall|i: int| 0 <= i < s.len() ==> (#[trigger] s[i] as u32) < 128
}

/// `c` lower-cased as ASCII: `A`-`Z` become `a`-`z`, every other character
/// stays (what `char::to_ascii_lowercase` does).
pub open spec fn ascii_lower_char(c: char) -> char {
    if 'A' <= c && c <= 'Z' {
        ((c as u32) + 32) as char
    } else {
        c
    }
}

/// The key a name is sorted by: its lower-casing. For an ASCII name that is
/// the ASCII lower-casing of each character (Unicode lower-casing agrees with
/// it there); for any other name it is what `str::to_lowercase` gives.
pub open spec fn name_key(s: Seq<char>) -> Seq<char> {
    if all_ascii(s) {
        s.map_values(|c: char| ascii_lower_char(c))
    } else {
        lowercase(s)
    }
}

/// Whether `a` comes strictly before `b` in lexicographic order of code
/// points (the order of `str`'s comparison, which compares UTF-8 bytes).
pub open spec fn lex_lt(a: Seq<char>, b: Seq<char>) -> bool
    decreases a.len(),
{
    if a.len() == 0 {
        b.len() > 0
    } else if b.len() == 0 {
        false
    } else if a[0] != b[0] {
        (a[0] as u32) < (b[0] as u32)
    } else {
        lex_lt(a.drop_first(), b.drop_first())
    }
}

/// Whether an entry is hidden (its name starts with `.`).
pub open spec fn is_hidden(e: FileEntry) -> bool {
    e.name@.len() > 0 && e.name@[0] == '.'
}

/// `!is_hidden` as a predicate value.
pub open spec fn shown() -> spec_fn(FileEntry) -> bool {
    |e: FileEntry| !is_hidden(e)
}

/// Whether `a` is listed strictly before `b`: directories before files, then
/// by lower-cased name (`name_key`).
pub open spec fn listed_before(a: FileEntry, b: FileEntry) -> bool {
    ||| (a.is_dir && !b.is_dir)
    ||| (a.is_dir == b.is_dir && lex_lt(name_key(a.name@), name_key(b.name@)))
}

/// Whether `a` and `b` rank equally in the listing order.
pub open spec fn same_rank(a: FileEntry, b: FileEntry) -> bool {
    a.is_dir == b.is_dir && name_key(a.name@) == name_key(b.name@)
}

/// Whether `order` lists each index below `n` exactly once.
pub open spec fn is_permutation(order: Seq<int>, n: nat) -> bool {
    &&& order.len() == n
    &&& forall|k: int| 0 <= k < n ==> 0 <= #[trigger] order[k] < n
    &&& forall|k: int, l: int| 0 <= k < l < n ==> order[k] != order[l]
}

/// `out` is `entries` in listing order, stable: `out[k]` is `entries[order[k]]`,
/// no entry is listed after one it comes before, and entries of equal rank
/// keep their relative order.
pub open spec fn listed_in_order(out: Seq<FileEntry>, entries: Seq<FileEntry>, order: Seq<int>) -> bool {
    &&& is_permutation(order, entries.len())
    &&& out.len() == entries.len()
    &&& forall|k: int| 0 <= k < out.len() ==> #[trigger] out[k] == entries[order[k]]
    &&& forall|i: int, j: int|
        0 <= i < j < out.len() ==> !listed_before(#[trigger] out[j], #[trigger] out[i]) && (
        same_rank(out[i], out[j]) ==> order[i] < order[j])
}

proof fn lemma_lex_irreflexive(a: Seq<char>)
    ensures
        !lex_lt(a, a),
    decreases a.len(),
{
    if a.len() > 0 {
        lemma_lex_irreflexive(a.drop_first());
    }
}

proof fn lemma_lex_transitive(a: Seq<char>, b: Seq<char>, c: Seq<char>)
    requires
        lex_lt(a, b),
        lex_lt(b, c),
    ensures
        lex_lt(a, c),
    decreases a.len(),
{
    if a.len() > 0 && b.len() > 0 && c.len() > 0 && a[0] == b[0] && b[0] == c[0] {
        lemma_lex_transitive(a.drop_first(), b.drop_first(), c.drop_first());
    }
}

proof fn lemma_listed_before_transitive(a: FileEntry, b: FileEntry, c: FileEntry)
    requires
        listed_before(a, b),
        listed_before(b, c),
    ensures
        listed_before(a, c),
{
    if a.is_dir == b.is_dir && b.is_dir == c.is_dir {
        lemma_lex_transitive(name_key(a.name@), name_key(b.name@), name_key(c.name@));
    }
}

proof fn lemma_listed_before_irreflexive(a: FileEntry, b: FileEntry)
    requires
        same_rank(a, b),
    ensures
        !listed_before(a, b),
        !listed_before(b, a),
{
    lemma_lex_irreflexive(name_key(a.name@));
}

/// Positions `a < b` of the index list `ord` respect the listing order.
spec fn pair_in_order(vis: Seq<FileEntry>, ord: Seq<usize>, a: int, b: int) -> bool {
    !listed_before(vis[ord[b] as int], vis[ord[a] as int]) && (same_rank(
        vis[ord[a] as int],
        vis[ord[b] as int],
    ) ==> ord[a] < ord[b])
}

/// Whether `a` comes strictly before `b` in lexicographic code point order.
fn chars_lex_lt(a: &Vec<char>, b: &Vec<char>) -> (r: bool)
    ensures
        r == lex_lt(a@, b@),
{
    let mut i: usize = 0;
    assert(a@.skip(0) =~= a@);
    assert(b@.skip(0) =~= b@);
    loop
        invariant
            i <= a.len(),
            i <= b.len(),
            lex_lt(a@, b@) == lex_lt(a@.skip(i as int), b@.skip(i as int)),
        decreases a.len() - i,
    {
        if i == a.len() {
            return i < b.len();
        }
        if i == b.len() {
            return false;
        }
        if a[i] != b[i] {
            return (a[i] as u32) < (b[i] as u32);
        }
        assert(a@.skip(i as int).drop_first() =~= a@.skip(i + 1));
        assert(b@.skip(i as int).drop_first() =~= b@.skip(i + 1));
        i = i + 1;
    }
}

/// The sort key of the name `s`, whose characters are `cs`: lower-cased
/// character by character when the name is ASCII, by `str::to_lowercase`
/// otherwise.
fn sort_key(s: &str, cs: &Vec<char>) -> (r: Vec<char>)
    requires
        cs@ == s@,
    ensures
        r@ == name_key(s@),
{
    let mut ascii = true;
    let mut lowered: Vec<char> = Vec::new();
    for i in 0..cs.len()
        invariant
            cs@ == s@,
            ascii == all_ascii(cs@.take(i as int)),
            ascii ==> lowered@ == cs@.take(i as int).map_values(|c: char| ascii_lower_char(c)),
    {
        let c = cs[i];
        let code = c as u32;
        if code >= 128 {
            ascii = false;
        } else if ascii {
            let l = if 65 <= code && code <= 90 {
                ((code + 32) as u8) as char
            } else {
                c
            };
            lowered.push(l);
        }
        proof {
            let t = cs@.take(i + 1);
            assert(t.drop_last() =~= cs@.take(i as int));
            assert(t[i as int] == c);
            if all_ascii(t) {
                assert forall|k: int| 0 <= k < i implies (#[trigger] cs@.take(i as int)[k] as u32) < 128 by {
                    assert(cs@.take(i as int)[k] == t[k]);
                }
            }
            if all_ascii(cs@.take(i as int)) && code < 128 {
                assert forall|k: int| 0 <= k < t.len() implies (#[trigger] t[k] as u32) < 128 by {
                    if k < i {
                        assert(t[k] == cs@.take(i as int)[k]);
                    }
                }
            }
            if ascii {
                assert(lowered@ =~= t.map_values(|c: char| ascii_lower_char(c)));
            }
        }
    }
    assert(cs@.take(cs.len() as int) =~= cs@);
    if ascii {
        lowered
    } else {
        let lower = to_lowercase(s);
        text::chars_of(lower.as_str())
    }
}

/// The entries that are not hidden, each with its lower-cased name.
fn shown_entries(entries: &Vec<FileEntry>) -> (r: (Vec<FileEntry>, Vec<Vec<char>>))
    ensures
        r.0@ == entries@.filter(shown()),
        r.1@.len() == r.0@.len(),
        forall|k: int| 0 <= k < r.1@.len() ==> (#[trigger] r.1@[k])@ == name_key(r.0@[k].name@),
{
    let mut kept: Vec<FileEntry> = Vec::new();
    let mut keys: Vec<Vec<char>> = Vec::new();
    for i in 0..entries.len()
        invariant
            kept@ == entries@.take(i as int).filter(shown()),
            keys@.len() == kept@.len(),
            forall|k: int| 0 <= k < keys@.len() ==> (#[trigger] keys@[k])@ == name_key(kept@[k].name@),
    {
        let e = &entries[i];
        proof {
            assert(entries@.take(i + 1) =~= entries@.take(i as int).push(*e));
            entries@.take(i as int).lemma_filter_push(*e, shown());
        }
        let name = text::chars_of(e.name.as_str());
        let hidden = name.len() > 0 && name[0] == '.';
        if !hidden {
            let key = sort_key(e.name.as_str(), &name);
            kept.push(FileEntry { name: e.name.clone(), path: e.path.clone(), is_dir: e.is_dir });
            keys.push(key);
        }
    }
    assert(entries@.take(entries.len() as int) =~= entries@);
    (kept, keys)
}

/// Keeps the entries that are not hidden and puts them in listing order:
/// directories first, then by lower-cased name, entries of equal rank in
/// their input order.
pub fn arrange_entries(entries: Vec<FileEntry>) -> (r: Vec<FileEntry>)
    ensures
        exists|order: Seq<int>| listed_in_order(r@, entries@.filter(shown()), order),
{
    let (kept, keys) = shown_entries(&entries);
    let ghost vis = kept@;
    // insertion sort of the indices of `kept`, stable
    let mut order: Vec<usize> = Vec::new();
    for i in 0..kept.len()
        invariant
            vis == kept@,
            keys@.len() == kept@.len(),
            forall|k: int| 0 <= k < keys@.len() ==> (#[trigger] keys@[k])@ == name_key(kept@[k].name@),
            order@.len() == i,
            forall|k: int| 0 <= k < i ==> #[trigger] order@[k] < i,
            forall|k: int, l: int| 0 <= k < l < i ==> order@[k] != order@[l],
            forall|a: int, b: int| 0 <= a < b < i ==> #[trigger] pair_in_order(vis, order@, a, b),
    {
        let mut pos: usize = 0;
        loop
            invariant
                vis == kept@,
                keys@.len() == kept@.len(),
                forall|k: int| 0 <= k < keys@.len() ==> (#[trigger] keys@[k])@ == name_key(kept@[k].name@),
                i < kept.len(),
                order@.len() == i,
                forall|k: int| 0 <= k < i ==> #[trigger] order@[k] < i,
                pos <= i,
                forall|k: int| 0 <= k < pos ==> !listed_before(vis[i as int], #[trigger] vis[order@[k] as int]),
            ensures
                pos <= i,
                forall|k: int| 0 <= k < pos ==> !listed_before(vis[i as int], #[trigger] vis[order@[k] as int]),
                pos < i ==> listed_before(vis[i as int], vis[order@[pos as int] as int]),
            decreases i - pos,
        {
            if pos == order.len() {
                break;
            }
            let j = order[pos];
            let x_before = if kept[i].is_dir != kept[j].is_dir {
                kept[i].is_dir
            } else {
                chars_lex_lt(&keys[i], &keys[j])
            };
            if x_before {
                break;
            }
            pos = pos + 1;
        }
        let ghost old_order = order@;
        order.insert(pos, i);
        proof {
            assert forall|a: int, b: int| 0 <= a < b < i + 1 implies #[trigger] pair_in_order(
                vis,
                order@,
                a,
                b,
            ) by {
                let x = vis[i as int];
                if b < pos {
                    assert(pair_in_order(vis, old_order, a, b));
                } else if b == pos {
                    assert(order@[b] == i);
                    assert(order@[a] == old_order[a]);
                    assert(!listed_before(x, vis[old_order[a] as int]));
                } else if a < pos {
                    assert(order@[a] == old_order[a] && order@[b] == old_order[b - 1]);
                    assert(pair_in_order(vis, old_order, a, b - 1));
                } else if a == pos {
                    let y = vis[old_order[b - 1] as int];
                    let z = vis[old_order[pos as int] as int];
                    assert(order@[a] == i);
                    assert(order@[b] == old_order[b - 1]);
                    assert(listed_before(x, z));
                    if pos < b - 1 {
                        assert(pair_in_order(vis, old_order, pos as int, b - 1));
                        assert(!listed_before(y, z));
                        if listed_before(y, x) {
                            lemma_listed_before_transitive(y, x, z);
                        }
                        if same_rank(x, y) {
                            assert(listed_before(y, z));
                        }
                    } else {
                        assert(y == z);
                        lemma_listed_before_irreflexive(y, y);
                        if listed_before(y, x) {
                            lemma_listed_before_transitive(y, x, z);
                        }
                        if same_rank(x, y) {
                            lemma_listed_before_irreflexive(x, y);
                        }
                    }
                } else {
                    assert(order@[a] == old_order[a - 1] && order@[b] == old_order[b - 1]);
                    assert(pair_in_order(vis, old_order, a - 1, b - 1));
                }
            }
        }
    }
    let mut out: Vec<FileEntry> = Vec::new();
    for k in 0..order.len()
        invariant
            vis == kept@,
            order@.len() == kept@.len(),
            forall|m: int| 0 <= m < order@.len() ==> #[trigger] order@[m] < kept@.len(),
            out@.len() == k,
            forall|m: int| 0 <= m < k ==> #[trigger] out@[m] == vis[order@[m] as int],
            forall|a: int, b: int| 0 <= a < b < order@.len() ==> order@[a] != order@[b],
            forall|a: int, b: int|
                0 <= a < b < order@.len() ==> #[trigger] pair_in_order(vis, order@, a, b),
    {
        let e = &kept[order[k]];
        out.push(FileEntry { name: e.name.clone(), path: e.path.clone(), is_dir: e.is_dir });
    }
    let ghost ord = order@.map_values(|x: usize| x as int);
    proof {
        assert forall|a: int, b: int| 0 <= a < b < out@.len() implies !listed_before(
            #[trigger] out@[b],
            #[trigger] out@[a],
        ) && (same_rank(out@[a], out@[b]) ==> ord[a] < ord[b]) by {
            assert(pair_in_order(vis, order@, a, b));
        }
        assert forall|k: int| 0 <= k < out@.len() implies #[trigger] out@[k] == vis[ord[k]] by {}
    }
    assert(listed_in_order(out@, vis, ord));
    out
}

// ---------------------------------------------------------------------------
// Workspace root and path containment
// ---------------------------------------------------------------------------

/// The folder opened via "Open folder" (its canonical path, as bytes), against
/// which every preview request is checked.
pub struct WorkspaceRootState {
    root: Option<Vec<u8>>,
}

impl WorkspaceRootState {
    /// The opened folder, if any.
    pub closed spec fn root_spec(&self) -> Option<Seq<u8>> {
        match self.root {
            Some(r) => Some(r@),
            None => None,
        }
    }

    /// No folder open yet.
    pub fn new() -> (r: Self)
        ensures
            r.root_spec() is None,
    {
        WorkspaceRootState { root: None }
    }

    /// Records `canonical_root` as the open folder, replacing any earlier one.
    pub fn open(&mut self, canonical_root: Vec<u8>)
        ensures
            final(self).root_spec() == Some(canonical_root@),
    {
        self.root = Some(canonical_root);
    }

    /// The open folder, or the error a preview request gets when none is open.
    pub fn require_root(&self) -> (r: Result<Vec<u8>, String>)
        ensures
            match self.root_spec() {
                Some(root) => r matches Ok(v) && v@ == root,
                None => r matches Err(m) && m@ == "no workspace folder is open"@,
            },
    {
        match &self.root {
            Some(r) => Ok(r.clone()),
            None => Err("no workspace folder is open".to_string()),
        }
    }
}

/// The first index at or after `from` where `p` holds `b`, or `p.len()`.
pub open spec fn find_byte_from(p: Seq<u8>, b: u8, from: int) -> int
    decreases p.len() - from,
{
    if from < 0 || from >= p.len() {
        p.len() as int
    } else if p[from] == b {
        from
    } else {
        find_byte_from(p, b, from + 1)
    }
}

/// `/` and `.` as bytes.
pub open spec fn slash() -> u8 {
    0x2F
}

pub open spec fn dot() -> u8 {
    0x2E
}

/// Whether a `/`-separated segment names a component: empty segments and `.`
/// are normalised away.
pub open spec fn is_named_segment(seg: Seq<u8>) -> bool {
    seg.len() > 0 && seg != seq![dot()]
}

pub proof fn lemma_find_byte_from(p: Seq<u8>, b: u8, from: int)
    requires
        0 <= from <= p.len(),
    ensures
        from <= find_byte_from(p, b, from) <= p.len(),
    decreases p.len() - from,
{
    if from < p.len() && p[from] != b {
        lemma_find_byte_from(p, b, from + 1);
    }
}

/// The named components of the segments of `p` from index `start` on.
pub open spec fn named_segments_from(p: Seq<u8>, start: int) -> Seq<Seq<u8>>
    decreases p.len() - start,
{
    if start < 0 || start > p.len() {
        Seq::empty()
    } else {
        let e = find_byte_from(p, slash(), start);
        let seg = p.subrange(start, e);
        let rest = if e < p.len() {
            proof {
                lemma_find_byte_from(p, slash(), start);
            }
            named_segments_from(p, e + 1)
        } else {
            Seq::empty()
        };
        if is_named_segment(seg) {
            seq![seg] + rest
        } else {
            rest
        }
    }
}

/// The components of a Unix path, as `Path::components` yields them: a
/// leading `/` is the root component (written `/`), a leading `.` segment of
/// a relative path is kept (written `.`), every other `.` and every empty
/// segment is dropped, and the rest (`..` included) are kept as they are.
pub open spec fn path_components(p: Seq<u8>) -> Seq<Seq<u8>> {
    if p.len() > 0 && p[0] == slash() {
        seq![seq![slash()]] + named_segments_from(p, 1)
    } else if p.subrange(0, find_byte_from(p, slash(), 0)) == seq![dot()] {
        seq![seq![dot()]] + named_segments_from(p, 0)
    } else {
        named_segments_from(p, 0)
    }
}

/// Whether the path `p` starts with the path `base`, whole components only,
/// as `Path::starts_with` decides it.
pub open spec fn path_starts_with(p: Seq<u8>, base: Seq<u8>) -> bool {
    let a = path_components(base);
    let b = path_components(p);
    a.len() <= b.len() && b.take(a.len() as int) == a
}

/// The byte texts of a list of byte strings.
pub open spec fn byte_texts(v: Seq<Vec<u8>>) -> Seq<Seq<u8>> {
    v.map_values(|x: Vec<u8>| x@)
}

fn find_byte(p: &Vec<u8>, b: u8, from: usize) -> (r: usize)
    requires
        from <= p.len(),
    ensures
        r == find_byte_from(p@, b, from as int),
        from <= r <= p.len(),
{
    let mut i = from;
    while i < p.len() && p[i] != b
        invariant
            from <= i <= p.len(),
            find_byte_from(p@, b, from as int) == find_byte_from(p@, b, i as int),
        decreases p.len() - i,
    {
        i = i + 1;
    }
    i
}

fn sub_bytes(p: &Vec<u8>, lo: usize, hi: usize) -> (r: Vec<u8>)
    requires
        lo <= hi <= p.len(),
    ensures
        r@ == p@.subrange(lo as int, hi as int),
{
    let mut r: Vec<u8> = Vec::new();
    let mut i = lo;
    while i < hi
        invariant
            lo <= i <= hi <= p.len(),
            r@ == p@.subrange(lo as int, i as int),
        decreases hi - i,
    {
        r.push(p[i]);
        i = i + 1;
        assert(r@ =~= p@.subrange(lo as int, i as int));
    }
    r
}

fn bytes_equal(a: &Vec<u8>, b: &Vec<u8>) -> (r: bool)
    ensures
        r == (a@ == b@),
{
    if a.len() != b.len() {
        return false;
    }
    for i in 0..a.len()
        invariant
            a.len() == b.len(),
            forall|k: int| 0 <= k < i ==> a@[k] == b@[k],
    {
        if a[i] != b[i] {
            return false;
        }
    }
    assert(a@ =~= b@);
    true
}

/// Appends the named segments of `p` from `start` on to `out`.
fn push_named_segments(p: &Vec<u8>, start: usize, out: &mut Vec<Vec<u8>>)
    requires
        start <= p.len(),
    ensures
        byte_texts(final(out)@) == byte_texts(old(out)@) + named_segments_from(p@, start as int),
{
    let ghost first = byte_texts(out@);
    let mut pos = start;
    loop
        invariant
            pos <= p.len(),
            first == byte_texts(old(out)@),
            first + named_segments_from(p@, start as int) == byte_texts(out@)
                + named_segments_from(p@, pos as int),
        decreases p.len() - pos,
    {
        let e = find_byte(p, 0x2F, pos);
        let seg = sub_bytes(p, pos, e);
        let named = seg.len() > 0 && !(seg.len() == 1 && seg[0] == 0x2E);
        assert(named == is_named_segment(seg@)) by {
            if seg@.len() == 1 && seg@[0] == dot() {
                assert(seg@ =~= seq![dot()]);
            }
        }
        let ghost before = byte_texts(out@);
        let ghost rest = if e < p.len() {
            named_segments_from(p@, e + 1)
        } else {
            Seq::<Seq<u8>>::empty()
        };
        assert(named_segments_from(p@, pos as int) == if is_named_segment(seg@) {
            seq![seg@] + rest
        } else {
            rest
        });
        if named {
            out.push(seg);
            assert(byte_texts(out@) =~= before.push(p@.subrange(pos as int, e as int)));
            assert(before + (seq![p@.subrange(pos as int, e as int)] + rest) =~= byte_texts(out@)
                + rest);
        }
        if e >= p.len() {
            assert(byte_texts(out@) + rest =~= byte_texts(out@));
            return;
        }
        pos = e + 1;
    }
}

/// The components of `p`, per `path_components`.
fn components(p: &Vec<u8>) -> (r: Vec<Vec<u8>>)
    ensures
        byte_texts(r@) == path_components(p@),
{
    let mut out: Vec<Vec<u8>> = Vec::new();
    if p.len() > 0 && p[0] == 0x2F {
        let mut root: Vec<u8> = Vec::new();
        root.push(0x2F);
        out.push(root);
        assert(byte_texts(out@) =~= seq![seq![slash()]]);
        push_named_segments(p, 1, &mut out);
    } else {
        let e = find_byte(p, 0x2F, 0);
        if e == 1 && p[0] == 0x2E {
            let mut cur: Vec<u8> = Vec::new();
            cur.push(0x2E);
            out.push(cur);
            assert(p@.subrange(0, e as int) =~= seq![dot()]);
            assert(byte_texts(out@) =~= seq![seq![dot()]]);
        } else {
            assert(p@.subrange(0, e as int) != seq![dot()]) by {
                if p@.subrange(0, e as int) == seq![dot()] {
                    assert(p@.subrange(0, e as int).len() == 1);
                    assert(p@.subrange(0, e as int)[0] == p@[0]);
                }
            }
            assert(byte_texts(out@) =~= Seq::<Seq<u8>>::empty());
        }
        push_named_segments(p, 0, &mut out);
    }
    out
}

/// Whether `path` lies inside `base`, comparing whole components as
/// `Path::starts_with` does. Both are expected canonical (symlink- and
/// `..`-free); canonicalising is the caller's I/O.
pub fn path_starts_with_base(path: &Vec<u8>, base: &Vec<u8>) -> (r: bool)
    ensures
        r == path_starts_with(path@, base@),
{
    let a = components(base);
    let b = components(path);
    if a.len() > b.len() {
        return false;
    }
    let mut i: usize = 0;
    while i < a.len()
        invariant
            a.len() <= b.len(),
            i <= a.len(),
            byte_texts(a@) == path_components(base@),
            byte_texts(b@) == path_components(path@),
            forall|k: int| 0 <= k < i ==> a@[k]@ == b@[k]@,
        decreases a.len() - i,
    {
        if !bytes_equal(&a[i], &b[i]) {
            assert(byte_texts(b@).take(a@.len() as int)[i as int] != byte_texts(a@)[i as int]);
            return false;
        }
        i = i + 1;
    }
    assert(byte_texts(b@).take(a@.len() as int) =~= byte_texts(a@));
    true
}

/// The error for a path outside the open workspace.
pub open spec fn outside_workspace_message() -> Seq<char> {
    "path is outside the open workspace"@
}

/// Accepts `canonical_path` when it lies inside `canonical_root`, and
/// otherwise gives the error the preview shows.
pub fn check_within_root(canonical_path: Vec<u8>, canonical_root: &Vec<u8>) -> (r: Result<
    Vec<u8>,
    String,
>)
    ensures
        path_starts_with(canonical_path@, canonical_root@) ==> (r matches Ok(p) && p@
            == canonical_path@),
        !path_starts_with(canonical_path@, canonical_root@) ==> (r matches Err(m) && m@
            == outside_workspace_message()),
{
    if path_starts_with_base(&canonical_path, canonical_root) {
        Ok(canonical_path)
    } else {
        Err("path is outside the open workspace".to_string())
    }
}

// ---------------------------------------------------------------------------
// File preview
// ---------------------------------------------------------------------------

/// How much of a file's start is inspected for a NUL byte before a full UTF-8
/// decode.
pub const SNIFF_LEN: usize = 8192;

/// Files larger than this are not read for preview.
pub const MAX_PREVIEW_BYTES: u64 = 5 * 1024 * 1024;

/// A file's contents for the preview panel, or a marker that it isn't text
/// or wasn't sensible to read in full.
pub enum FileContent {
    Text { content: String },
    Binary,
    TooLarge { size: u64 },
}

/// The preview verdict for a file of `size` bytes, before reading it: too
/// large beyond the limit, otherwise none yet.
pub fn size_verdict(size: u64) -> (r: Option<FileContent>)
    ensures
        size > MAX_PREVIEW_BYTES ==> (r matches Some(FileContent::TooLarge { size: s }) && s
            == size),
        size <= MAX_PREVIEW_BYTES ==> r is None,
{
    if size > MAX_PREVIEW_BYTES {
        Some(FileContent::TooLarge { size })
    } else {
        None
    }
}

/// Decodes `bytes` as UTF-8.
///
/// Calls `String::from_utf8`; the contract claims that it succeeds exactly on
/// well-formed UTF-8 (as vstd's `valid_utf8` defines it) and then holds the
/// decoded characters.
#[verifier::external_body]
fn string_from_utf8(bytes: Vec<u8>) -> (r: Option<String>)
    ensures
        r is Some <==> valid_utf8(bytes@),
        r matches Some(s) ==> s@ == decode_utf8(bytes@),
{
    match String::from_utf8(bytes) {
        Ok(s) => Some(s),
        Err(_) => None,
    }
}

/// Whether a NUL byte occurs among the first `SNIFF_LEN` bytes.
pub open spec fn nul_in_sniff(bytes: Seq<u8>) -> bool {
    exists|i: int| 0 <= i < bytes.len() && i < SNIFF_LEN && bytes[i] == 0
}

/// The preview of a file's bytes: too large beyond `MAX_PREVIEW_BYTES` (so
/// text is never handed out of a read that outgrew the limit), otherwise
/// binary when a NUL byte occurs in its first `SNIFF_LEN` bytes or it is not
/// valid UTF-8, and its decoded text when neither holds.
pub fn classify_file_bytes(bytes: Vec<u8>) -> (r: FileContent)
    ensures
        bytes.len() > MAX_PREVIEW_BYTES ==> (r matches FileContent::TooLarge { size } && size
            == bytes.len()),
        bytes.len() <= MAX_PREVIEW_BYTES && nul_in_sniff(bytes@) ==> r is Binary,
        bytes.len() <= MAX_PREVIEW_BYTES && !nul_in_sniff(bytes@) && !valid_utf8(bytes@) ==> r is Binary,
        bytes.len() <= MAX_PREVIEW_BYTES && !nul_in_sniff(bytes@) && valid_utf8(bytes@) ==> (r matches FileContent::Text { content }
            && content@ == decode_utf8(bytes@)),
        r is Text ==> bytes.len() <= MAX_PREVIEW_BYTES,
{
    let size = bytes.len() as u64;
    if size > MAX_PREVIEW_BYTES {
        return FileContent::TooLarge { size };
    }
    let sniff_len = if bytes.len() < SNIFF_LEN {
        bytes.len()
    } else {
        SNIFF_LEN
    };
    let mut i: usize = 0;
    while i < sniff_len
        invariant
            sniff_len <= bytes.len(),
            sniff_len <= SNIFF_LEN,
            sniff_len == bytes.len() || sniff_len == SNIFF_LEN,
            i <= sniff_len,
            bytes.len() <= MAX_PREVIEW_BYTES,
            forall|k: int| 0 <= k < i ==> bytes@[k] != 0,
        decreases sniff_len - i,
    {
        if bytes[i] == 0 {
            return FileContent::Binary;
        }
        i = i + 1;
    }
    match string_from_utf8(bytes) {
        Some(content) => FileContent::Text { content },
        None => FileContent::Binary,
    }
}

// ---------------------------------------------------------------------------
// Change notifications
// ---------------------------------------------------------------------------

/// Change notifications are coalesced into at most one per this many
/// nanoseconds (200 ms).
pub const DEBOUNCE_NANOS: u128 = 200_000_000;

/// Whether a change event at `now` (nanoseconds on a monotonic clock) may
/// produce a "changed" signal, given when the last one went out (`None`
/// before the first).
pub open spec fn debounce_allows(last_emit: Option<u128>, now: u128) -> bool {
    match last_emit {
        None => true,
        Some(last) => now >= last + DEBOUNCE_NANOS,
    }
}

/// Whether a filesystem event at `now_nanos` produces a new "changed" signal,
/// given when the last one went out: the first always does, later ones only
/// once `DEBOUNCE_NANOS` have passed since the last.
pub fn should_emit_change(last_emit_nanos: Option<u128>, now_nanos: u128) -> (r: bool)
    ensures
        r == debounce_allows(last_emit_nanos, now_nanos),
{
    match last_emit_nanos {
        None => true,
        Some(last) => now_nanos >= last && now_nanos - last >= DEBOUNCE_NANOS,
    }
}

/// The watcher loop run over `events`, each the time of a filesystem event
/// and whether the watcher reported it without error: the time of the last
/// "changed" signal and the times of all of them, in order. Errors are
/// skipped; an event emits when `should_emit_change` allows it.
pub open spec fn debounce_run(events: Seq<(u128, bool)>) -> (Option<u128>, Seq<u128>)
    decreases events.len(),
{
    if events.len() == 0 {
        (None, Seq::empty())
    } else {
        let before = debounce_run(events.drop_last());
        let (now, ok) = events.last();
        if ok && debounce_allows(before.0, now) {
            (Some(now), before.1.push(now))
        } else {
            before
        }
    }
}

/// Whether the events arrive in time order.
pub open spec fn in_time_order(events: Seq<(u128, bool)>) -> bool {
    forall|i: int, j: int| 0 <= i <= j < events.len() ==> events[i].0 <= events[j].0
}

/// Whether consecutive signal times are at least `DEBOUNCE_NANOS` apart.
pub open spec fn spaced(emits: Seq<u128>) -> bool {
    forall|k: int| 0 <= k < emits.len() - 1 ==> emits[k] + DEBOUNCE_NANOS <= #[trigger] emits[k + 1]
}

/// Whether every signal went out at the time of an event reported without
/// error.
pub open spec fn from_ok_events(events: Seq<(u128, bool)>, emits: Seq<u128>) -> bool {
    forall|k: int|
        0 <= k < emits.len() ==> exists|j: int|
            0 <= j < events.len() && events[j].1 && events[j].0 == #[trigger] emits[k]
}

/// Whether every event reported without error arrived at or less than
/// `DEBOUNCE_NANOS` after some signal.
pub open spec fn covered(events: Seq<(u128, bool)>, emits: Seq<u128>) -> bool {
    forall|j: int|
        0 <= j < events.len() && (#[trigger] events[j]).1 ==> exists|k: int|
            0 <= k < emits.len() && #[trigger] emits[k] <= events[j].0 < emits[k] + DEBOUNCE_NANOS
}

/// Change notifications are debounced. Over events that arrive in time
/// order: consecutive signals are at least `DEBOUNCE_NANOS` apart; every
/// signal goes out at the time of an event reported without error; and every
/// such event is covered, arriving at or less than `DEBOUNCE_NANOS` after a
/// signal that went out no later than it (an event is dropped only within
/// the window of an earlier signal).
pub proof fn law_change_signals_are_debounced(events: Seq<(u128, bool)>)
    requires
        in_time_order(events),
    ensures
        spaced(debounce_run(events).1),
        from_ok_events(events, debounce_run(events).1),
        covered(events, debounce_run(events).1),
{
    lemma_run_shape(events);
    lemma_run_spaced(events);
    lemma_run_covered(events);
}

proof fn lemma_time_order_init(events: Seq<(u128, bool)>)
    requires
        in_time_order(events),
        events.len() > 0,
    ensures
        in_time_order(events.drop_last()),
{
    let init = events.drop_last();
    assert forall|i: int, j: int| 0 <= i <= j < init.len() implies init[i].0 <= init[j].0 by {
        assert(init[i] == events[i] && init[j] == events[j]);
    }
}

proof fn lemma_run_last(events: Seq<(u128, bool)>)
    ensures
        debounce_run(events).0 is None <==> debounce_run(events).1.len() == 0,
        debounce_run(events).1.len() > 0 ==> debounce_run(events).0 == Some(
            debounce_run(events).1.last(),
        ),
    decreases events.len(),
{
    if events.len() > 0 {
        lemma_run_last(events.drop_last());
    }
}

proof fn lemma_run_shape(events: Seq<(u128, bool)>)
    ensures
        debounce_run(events).0 is None <==> debounce_run(events).1.len() == 0,
        debounce_run(events).1.len() > 0 ==> debounce_run(events).0 == Some(
            debounce_run(events).1.last(),
        ),
        from_ok_events(events, debounce_run(events).1),
    decreases events.len(),
{
    if events.len() > 0 {
        let init = events.drop_last();
        lemma_run_shape(init);
        let emits0 = debounce_run(init).1;
        let emits = debounce_run(events).1;
        let n = events.len() - 1;
        assert(events[n] == events.last());
        assert forall|k: int| 0 <= k < emits.len() implies exists|j: int|
            0 <= j < events.len() && events[j].1 && events[j].0 == #[trigger] emits[k] by {
            if k < emits0.len() {
                let j = choose|j: int|
                    0 <= j < init.len() && init[j].1 && init[j].0 == #[trigger] emits0[k];
                assert(events[j] == init[j]);
                assert(emits[k] == emits0[k]);
            } else {
                assert(events[n].0 == emits[k]);
            }
        }
    }
}

/// The last signal before the final event went out no later than it.
proof fn lemma_last_emit_not_later(events: Seq<(u128, bool)>)
    requires
        in_time_order(events),
        events.len() > 0,
    ensures
        debounce_run(events.drop_last()).0 matches Some(last) ==> last <= events.last().0,
{
    let init = events.drop_last();
    lemma_run_shape(init);
    let emits0 = debounce_run(init).1;
    if emits0.len() > 0 {
        let k0 = emits0.len() - 1;
        assert(from_ok_events(init, emits0));
        let j0 = choose|j: int| 0 <= j < init.len() && init[j].1 && init[j].0 == #[trigger] emits0[k0];
        assert(init[j0] == events[j0]);
        assert(events[events.len() - 1] == events.last());
    }
}

proof fn lemma_run_spaced(events: Seq<(u128, bool)>)
    requires
        in_time_order(events),
    ensures
        spaced(debounce_run(events).1),
    decreases events.len(),
{
    if events.len() > 0 {
        let init = events.drop_last();
        lemma_time_order_init(events);
        lemma_run_spaced(init);
        lemma_run_last(init);
        let (last0, emits0) = debounce_run(init);
        let emits = debounce_run(events).1;
        let (now, ok) = events.last();
        if ok && debounce_allows(last0, now) {
            assert forall|k: int| 0 <= k < emits.len() - 1 implies emits[k] + DEBOUNCE_NANOS
                <= #[trigger] emits[k + 1] by {
                if k + 1 < emits0.len() {
                    assert(emits[k] == emits0[k] && emits[k + 1] == emits0[k + 1]);
                } else {
                    assert(emits[k] == emits0.last());
                }
            }
        }
    }
}

proof fn lemma_run_covered(events: Seq<(u128, bool)>)
    requires
        in_time_order(events),
    ensures
        covered(events, debounce_run(events).1),
    decreases events.len(),
{
    if events.len() > 0 {
        let init = events.drop_last();
        lemma_time_order_init(events);
        lemma_run_covered(init);
        lemma_run_last(init);
        lemma_last_emit_not_later(events);
        let (last0, emits0) = debounce_run(init);
        let emits = debounce_run(events).1;
        let n = events.len() - 1;
        let (now, ok) = events.last();
        assert(events[n] == events.last());
        assert forall|j: int| 0 <= j < events.len() && (#[trigger] events[j]).1 implies exists|
            k: int,
        | 0 <= k < emits.len() && #[trigger] emits[k] <= events[j].0 < emits[k] + DEBOUNCE_NANOS by {
            if j < n {
                assert(init[j] == events[j]);
                let k = choose|k: int|
                    0 <= k < emits0.len() && #[trigger] emits0[k] <= init[j].0 < emits0[k]
                        + DEBOUNCE_NANOS;
                assert(emits[k] == emits0[k]);
            } else if ok && debounce_allows(last0, now) {
                assert(emits[emits0.len() as int] == now);
            } else {
                let k = emits0.len() - 1;
                assert(emits[k] == emits0.last());
            }
        }
    }
}

/// Names are ordered as `str` orders them: a key comes strictly before every
/// key that extends it (a proper prefix is listed first, so the empty key
/// comes before every non-empty one), and otherwise the first character
/// where two keys differ decides, by code point.
pub proof fn law_name_order_is_str_order(k: Seq<char>, s: Seq<char>, a: Seq<char>, b: Seq<char>, i: int)
    ensures
        s.len() > 0 ==> lex_lt(k, k + s) && !lex_lt(k + s, k),
        s.len() > 0 ==> lex_lt(Seq::empty(), s),
        0 <= i < a.len() && i < b.len() && a.take(i) == b.take(i) && a[i] != b[i] ==> (lex_lt(a, b)
            <==> (a[i] as u32) < (b[i] as u32)),
{
    if s.len() > 0 {
        lemma_prefix_first(k, s);
    }
    if 0 <= i < a.len() && i < b.len() && a.take(i) == b.take(i) && a[i] != b[i] {
        lemma_first_difference(a, b, i);
    }
}

proof fn lemma_prefix_first(k: Seq<char>, s: Seq<char>)
    requires
        s.len() > 0,
    ensures
        lex_lt(k, k + s),
        !lex_lt(k + s, k),
    decreases k.len(),
{
    if k.len() > 0 {
        assert((k + s)[0] == k[0]);
        assert((k + s).drop_first() =~= k.drop_first() + s);
        lemma_prefix_first(k.drop_first(), s);
    }
}

proof fn lemma_first_difference(a: Seq<char>, b: Seq<char>, i: int)
    requires
        0 <= i < a.len(),
        i < b.len(),
        a.take(i) == b.take(i),
        a[i] != b[i],
    ensures
        lex_lt(a, b) <==> (a[i] as u32) < (b[i] as u32),
    decreases i,
{
    if i > 0 {
        assert(a[0] == a.take(i)[0] && b[0] == b.take(i)[0]);
        assert(a.drop_first().take(i - 1) =~= a.take(i).drop_first());
        assert(b.drop_first().take(i - 1) =~= b.take(i).drop_first());
        lemma_first_difference(a.drop_first(), b.drop_first(), i - 1);
    }
}

/// Two entries of the same kind whose sort keys differ only in that one
/// extends the other: the shorter is listed first.
pub proof fn law_prefix_name_listed_first(a: FileEntry, b: FileEntry, s: Seq<char>)
    requires
        a.is_dir == b.is_dir,
        s.len() > 0,
        name_key(b.name@) == name_key(a.name@) + s,
    ensures
        listed_before(a, b),
        !listed_before(b, a),
{
    lemma_prefix_first(name_key(a.name@), s);
}

/// A name is sorted by its lower-casing: for an ASCII name the key has the
/// same length, each letter `A`-`Z` becomes the letter 32 code points higher
/// (`a`-`z`), and every other character is kept. So ASCII names compare by
/// their lower-cased code points (`_` before `a`, `Z` after `_`).
pub proof fn law_ascii_key_is_lower_case(name: Seq<char>)
    requires
        forall|i: int| 0 <= i < name.len() ==> (#[trigger] name[i] as u32) < 128,
    ensures
        name_key(name).len() == name.len(),
        forall|i: int|
            0 <= i < name.len() && 65 <= (name[i] as u32) <= 90 ==> (#[trigger] name_key(name)[i]
                as u32) == (name[i] as u32) + 32,
        forall|i: int|
            0 <= i < name.len() && !(65 <= (name[i] as u32) <= 90) ==> #[trigger] name_key(name)[i]
                == name[i],
{
    assert(all_ascii(name));
}

/// The open folder itself passes the containment check.
pub proof fn law_root_is_within_itself(root: Seq<u8>)
    ensures
        path_starts_with(root, root),
{
    assert(path_components(root).take(path_components(root).len() as int) =~= path_components(
        root,
    ));
}

/// Containment is transitive: a path inside a folder that is inside the
/// root is inside the root.
pub proof fn law_within_is_transitive(p: Seq<u8>, mid: Seq<u8>, root: Seq<u8>)
    requires
        path_starts_with(p, mid),
        path_starts_with(mid, root),
    ensures
        path_starts_with(p, root),
{
    let a = path_components(root);
    let b = path_components(mid);
    let c = path_components(p);
    assert forall|i: int| 0 <= i < a.len() implies c[i] == a[i] by {
        assert(c.take(b.len() as int)[i] == b[i]);
        assert(b.take(a.len() as int)[i] == a[i]);
    }
    assert(c.take(a.len() as int) =~= a);
}

} // verus!
