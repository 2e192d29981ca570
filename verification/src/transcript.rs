//! Terminal transcripts: where the settings file and each session's
//! transcript live, the default of the "save transcript" toggle, and when a
//! chunk of terminal output is written.
use vstd::prelude::*;

use std::sync::atomic::AtomicBool;
use std::sync::Arc;
use std::time::{Duration, SystemTime};

use crate::text;

verus! {

/// Shared, mutable "should we be writing a transcript right now" flag. A
/// clone of the `Arc` goes to the terminal's reader thread, so toggling the
/// setting takes effect mid-session.
pub struct TranscriptState {
    pub enabled: Arc<AtomicBool>,
}

impl TranscriptState {
    /// A state whose flag starts as `enabled`.
    pub fn new(enabled: bool) -> Self {
        TranscriptState { enabled: Arc::new(AtomicBool::new(enabled)) }
    }
}

impl Default for TranscriptState {
    /// Fails open to "on": the managed default matches the default-on
    /// behaviour even if the persisted setting was never loaded.
    fn default() -> Self {
        TranscriptState::new(default_transcript_enabled())
    }
}

/// The persisted settings.
pub struct Settings {
    pub transcript_enabled: bool,
}

/// Transcript saving is on unless the user turned it off.
pub fn default_transcript_enabled() -> (r: bool)
    ensures
        r,
{
    true
}

impl Default for Settings {
    fn default() -> (r: Self)
        ensures
            r.transcript_enabled,
    {
        Settings { transcript_enabled: default_transcript_enabled() }
    }
}

/// The toggle's state from the settings read at start-up: whatever was
/// persisted, or on when nothing could be read or parsed.
pub fn transcript_enabled_from(parsed: Option<Settings>) -> (r: bool)
    ensures
        r == match parsed {
            Some(s) => s.transcript_enabled,
            None => true,
        },
{
    match parsed {
        Some(s) => s.transcript_enabled,
        None => {
            let s = Settings::default();
            s.transcript_enabled
        },
    }
}

// ---------------------------------------------------------------------------
// Paths (as the bytes of a Unix path)
// ---------------------------------------------------------------------------

/// `dir` joined with the relative path `name`, as `Path::join` does on Unix: a
/// `/` goes between them unless `dir` is empty or already ends with one.
pub open spec fn join_path(dir: Seq<u8>, name: Seq<u8>) -> Seq<u8> {
    if dir.len() == 0 || dir.last() == 0x2F {
        dir + name
    } else {
        dir + seq![0x2Fu8] + name
    }
}

/// The bytes of an ASCII text.
pub open spec fn ascii(s: Seq<char>) -> Seq<u8> {
    s.map_values(|c: char| (c as u32) as u8)
}

/// The settings file's name.
pub open spec fn settings_file() -> Seq<u8> {
    ascii("settings.json"@)
}

/// The directory, inside the app data directory, that holds transcripts.
pub open spec fn transcripts_dir() -> Seq<u8> {
    ascii("transcripts"@)
}

/// The file name of the transcript of a session started `millis`
/// milliseconds after the Unix epoch.
pub open spec fn transcript_file_name(millis: nat) -> Seq<u8> {
    ascii("session-"@) + ascii(text::decimal(millis)) + ascii(".log"@)
}

/// Where the settings live in `app_data_dir`.
pub open spec fn settings_path_of(app_data_dir: Seq<u8>) -> Seq<u8> {
    join_path(app_data_dir, settings_file())
}

/// Where the transcript of a session started at `millis` lives.
pub open spec fn transcript_path_of(app_data_dir: Seq<u8>, millis: nat) -> Seq<u8> {
    join_path(join_path(app_data_dir, transcripts_dir()), transcript_file_name(millis))
}

/// The ASCII bytes of `s`.
fn ascii_bytes(s: &str) -> (r: Vec<u8>)
    ensures
        r@ == ascii(s@),
{
    let cs = text::chars_of(s);
    let mut r: Vec<u8> = Vec::new();
    for i in 0..cs.len()
        invariant
            cs@ == s@,
            r@ == ascii(cs@.take(i as int)),
    {
        r.push((cs[i] as u32) as u8);
        assert(r@ =~= ascii(cs@.take(i + 1)));
    }
    assert(cs@.take(cs.len() as int) =~= cs@);
    r
}

fn append_bytes(dst: &mut Vec<u8>, src: &Vec<u8>)
    ensures
        final(dst)@ == old(dst)@ + src@,
{
    for i in 0..src.len()
        invariant
            dst@ == old(dst)@ + src@.take(i as int),
    {
        dst.push(src[i]);
        assert(dst@ =~= old(dst)@ + src@.take(i + 1));
    }
    assert(src@.take(src.len() as int) =~= src@);
}

/// `dir` joined with the relative path `name`.
fn join(dir: &Vec<u8>, name: &Vec<u8>) -> (r: Vec<u8>)
    ensures
        r@ == join_path(dir@, name@),
{
    let mut r: Vec<u8> = Vec::new();
    append_bytes(&mut r, dir);
    if dir.len() > 0 && dir[dir.len() - 1] != 0x2F {
        r.push(0x2F);
    }
    append_bytes(&mut r, name);
    assert(r@ =~= join_path(dir@, name@));
    r
}

/// Where the settings file lives in `app_data_dir`.
pub fn settings_path(app_data_dir: &Vec<u8>) -> (r: Vec<u8>)
    ensures
        r@ == settings_path_of(app_data_dir@),
{
    join(app_data_dir, &ascii_bytes("settings.json"))
}

/// The transcript path of a session started `millis` milliseconds after the
/// Unix epoch.
pub fn transcript_path_at(app_data_dir: &Vec<u8>, millis: u128) -> (r: Vec<u8>)
    ensures
        r@ == transcript_path_of(app_data_dir@, millis as nat),
{
    let dir = join(app_data_dir, &ascii_bytes("transcripts"));
    let mut file = ascii_bytes("session-");
    let digits = text::decimal_chars(millis);
    let mut num: Vec<u8> = Vec::new();
    for i in 0..digits.len()
        invariant
            num@ == ascii(digits@.take(i as int)),
    {
        num.push((digits[i] as u32) as u8);
        assert(num@ =~= ascii(digits@.take(i + 1)));
    }
    assert(digits@.take(digits.len() as int) =~= digits@);
    append_bytes(&mut file, &num);
    append_bytes(&mut file, &ascii_bytes(".log"));
    join(&dir, &file)
}

/// The system clock's time type, carried through opaquely.
#[verifier::external_type_specification]
#[verifier::external_body]
pub struct ExSystemTime(std::time::SystemTime);

/// Reads the system clock with `SystemTime::now()`; nothing is claimed of the
/// value.
#[verifier::external_body]
fn system_now() -> SystemTime {
    SystemTime::now()
}

/// How long after the Unix epoch `t` lies, by `SystemTime::duration_since`,
/// or `None` when `t` is earlier; nothing is claimed of the value.
#[verifier::external_body]
fn since_epoch(t: SystemTime) -> Option<Duration> {
    match t.duration_since(std::time::UNIX_EPOCH) {
        Ok(d) => Some(d),
        Err(_) => None,
    }
}

/// The whole milliseconds of `d`, by `Duration::as_millis`; vstd gives
/// `Duration` no view, so nothing is claimed of the value.
#[verifier::external_body]
fn duration_millis(d: Duration) -> u128 {
    d.as_millis()
}

/// A timestamped, per-session transcript path, so relaunching never clobbers
/// the previous session's transcript (0 stands for a clock before the epoch).
pub fn session_transcript_path(app_data_dir: &Vec<u8>) -> (r: Vec<u8>)
    ensures
        exists|millis: nat| r@ == transcript_path_of(app_data_dir@, millis),
{
    let millis = match since_epoch(system_now()) {
        Some(d) => duration_millis(d),
        None => 0,
    };
    transcript_path_at(app_data_dir, millis)
}

// ---------------------------------------------------------------------------
// Writing
// ---------------------------------------------------------------------------

/// What the terminal's reader does with a chunk of output for the transcript.
#[derive(PartialEq, Eq, Structural, Debug, Clone, Copy)]
pub enum TranscriptStep {
    /// Saving is off: the chunk is not written.
    Skip,
    /// First write of the session: create the directory, open the file for
    /// appending, then append the chunk.
    OpenThenAppend,
    /// Append the chunk to the already open file.
    Append,
}

/// The step for a chunk of output while saving is `enabled` and the transcript
/// file is (`file_open`) or is not yet open.
pub open spec fn transcript_action(enabled: bool, file_open: bool) -> TranscriptStep {
    if !enabled {
        TranscriptStep::Skip
    } else if !file_open {
        TranscriptStep::OpenThenAppend
    } else {
        TranscriptStep::Append
    }
}

/// What a transcript file holds: nothing while it does not exist.
pub open spec fn file_contents(file: Option<Seq<u8>>) -> Seq<u8> {
    match file {
        Some(bytes) => bytes,
        None => Seq::empty(),
    }
}

/// The transcript file after the writer carries out `step` for `chunk`
/// (`None` while no file has been created). Opening creates the file in
/// append mode, so both writing steps add the chunk at its end.
pub open spec fn apply_write(file: Option<Seq<u8>>, step: TranscriptStep, chunk: Seq<u8>) -> Option<
    Seq<u8>,
> {
    match step {
        TranscriptStep::Skip => file,
        TranscriptStep::OpenThenAppend => Some(file_contents(file) + chunk),
        TranscriptStep::Append => Some(file_contents(file) + chunk),
    }
}

/// The step for a chunk of output, given whether saving is on and whether the
/// transcript file is already open. The file is opened lazily, so a session
/// that never saves leaves no file, and one toggled back on keeps appending
/// to the same file.
pub fn transcript_step(enabled: bool, file_open: bool) -> (r: TranscriptStep)
    ensures
        r == transcript_action(enabled, file_open),
        !enabled ==> r == TranscriptStep::Skip,
        enabled && !file_open ==> r == TranscriptStep::OpenThenAppend,
        enabled && file_open ==> r == TranscriptStep::Append,
{
    if !enabled {
        TranscriptStep::Skip
    } else if !file_open {
        TranscriptStep::OpenThenAppend
    } else {
        TranscriptStep::Append
    }
}

proof fn lemma_join_cancel(dir: Seq<u8>, x: Seq<u8>, y: Seq<u8>)
    requires
        join_path(dir, x) == join_path(dir, y),
    ensures
        x == y,
{
    let jx = join_path(dir, x);
    let jy = join_path(dir, y);
    let k = jx.len() - x.len();
    assert(jx.skip(k) =~= x);
    assert(jy.skip(k) =~= y);
}

proof fn lemma_ascii_digits(d: Seq<char>)
    requires
        forall|i: int| 0 <= i < d.len() ==> text::is_digit(#[trigger] d[i]),
    ensures
        forall|i: int| 0 <= i < d.len() ==> (#[trigger] ascii(d)[i]) as u32 == d[i] as u32,
{
    assert forall|i: int| 0 <= i < d.len() implies (#[trigger] ascii(d)[i]) as u32 == d[i] as u32 by {
        let c = d[i];
        assert(48 <= c as u32 <= 57);
        assert(ascii(d)[i] == (c as u32) as u8);
    }
}

/// Sessions started at different milliseconds get different transcript files,
/// so a relaunch never reuses the previous session's file.
pub proof fn law_transcript_paths_distinct(app_data_dir: Seq<u8>, a: nat, b: nat)
    requires
        a != b,
    ensures
        transcript_path_of(app_data_dir, a) != transcript_path_of(app_data_dir, b),
{
    if transcript_path_of(app_data_dir, a) == transcript_path_of(app_data_dir, b) {
        let dir = join_path(app_data_dir, transcripts_dir());
        lemma_join_cancel(dir, transcript_file_name(a), transcript_file_name(b));
        let pre = ascii("session-"@);
        let suf = ascii(".log"@);
        let da = text::decimal(a);
        let db = text::decimal(b);
        let na = transcript_file_name(a);
        let nb = transcript_file_name(b);
        assert(na.len() == nb.len());
        assert(ascii(da).len() == ascii(db).len());
        assert(na.subrange(pre.len() as int, (pre.len() + ascii(da).len()) as int) =~= ascii(da));
        assert(nb.subrange(pre.len() as int, (pre.len() + ascii(db).len()) as int) =~= ascii(db));
        text::lemma_decimal(a);
        text::lemma_decimal(b);
        lemma_ascii_digits(da);
        lemma_ascii_digits(db);
        assert(ascii(da) == ascii(db));
        assert forall|i: int| 0 <= i < da.len() implies (#[trigger] da[i]) as u32 == db[i] as u32 by {
            assert(ascii(da)[i] == ascii(db)[i]);
        }
        text::lemma_digits_value_same(da, db);
    }
}

/// A transcript's file name holds no `/`, so the transcript sits directly in
/// the `transcripts` directory of the app data directory.
pub proof fn law_transcript_in_transcripts_dir(millis: nat)
    ensures
        forall|i: int|
            0 <= i < transcript_file_name(millis).len() ==> #[trigger] transcript_file_name(
                millis,
            )[i] != 0x2F,
{
    reveal_strlit("session-");
    reveal_strlit(".log");
    let d = text::decimal(millis);
    text::lemma_decimal(millis);
    lemma_ascii_digits(d);
    let pre = ascii("session-"@);
    let suf = ascii(".log"@);
    let n = transcript_file_name(millis);
    assert forall|i: int| 0 <= i < n.len() implies #[trigger] n[i] != 0x2F by {
        if i < pre.len() {
            assert(n[i] == pre[i]);
            assert(pre[i] == (("session-"@[i]) as u32) as u8);
        } else if i < pre.len() + d.len() {
            assert(n[i] == ascii(d)[i - pre.len()]);
        } else {
            assert(n[i] == suf[i - pre.len() - d.len()]);
            assert(suf[i - pre.len() - d.len()] == ((".log"@[i - pre.len() - d.len()]) as u32) as u8);
        }
    }
}

} // verus!
