//! The terminal session's decisions: how the shell command is set up for a
//! folder, and what the output reader does with each read.
use vstd::prelude::*;

use crate::transcript::{apply_write, transcript_action, transcript_step, TranscriptStep};

verus! {

/// The shell used when `SHELL` is not set.
pub open spec fn fallback_shell() -> Seq<char> {
    "/bin/bash"@
}

/// The environment variable that names the open folder inside the terminal.
pub open spec fn repo_env_var() -> Seq<char> {
    "SIDECAR_REPO"@
}

/// How to start the terminal's shell: the program, the directory it starts
/// in (inherited when absent) and the extra environment it gets.
pub struct CommandPlan {
    pub program: String,
    pub cwd: Option<String>,
    pub env: Vec<(String, String)>,
}

/// The shell to run: `SHELL` when it is set, `/bin/bash` otherwise.
pub fn shell_or_default(shell_var: Option<String>) -> (r: String)
    ensures
        match shell_var {
            Some(s) => r@ == s@,
            None => r@ == fallback_shell(),
        },
{
    match shell_var {
        Some(s) => s,
        None => "/bin/bash".to_string(),
    }
}

/// Builds the shell command for a terminal session. When `cwd` is given, the
/// shell starts there, and `SIDECAR_REPO` names it in the environment; with no
/// folder open the shell inherits the process's directory and environment.
pub fn configure_command(shell: String, cwd: Option<&str>) -> (r: CommandPlan)
    ensures
        r.program@ == shell@,
        match cwd {
            Some(dir) => {
                &&& r.cwd matches Some(c) && c@ == dir@
                &&& r.env@.len() == 1
                &&& r.env@[0].0@ == repo_env_var()
                &&& r.env@[0].1@ == dir@
            },
            None => r.cwd is None && r.env@.len() == 0,
        },
{
    let mut env: Vec<(String, String)> = Vec::new();
    let dir = match cwd {
        Some(dir) => {
            env.push(("SIDECAR_REPO".to_string(), dir.to_string()));
            Some(dir.to_string())
        },
        None => None,
    };
    CommandPlan { program: shell, cwd: dir, env }
}

/// What the output reader does after one read from the terminal.
#[derive(PartialEq, Eq, Structural, Debug, Clone, Copy)]
pub enum ReaderStep {
    /// Forward the first `n` bytes read to the terminal pane, then read again.
    Forward(usize),
    /// Stop reading.
    Stop,
}

/// Whether a read that returned `read` (`Some(n)` for `n` bytes, `None` for
/// an error) delivers output: it returned bytes and its session is still the
/// live one.
pub open spec fn delivers(read: Option<usize>, is_current: bool) -> bool {
    read matches Some(n) && n > 0 && is_current
}

/// The reader's decision after a read: the step for the terminal pane and the
/// step for the transcript. Delivered bytes are forwarded and, while saving is
/// on, written to the transcript; anything else stops the reader and writes
/// nothing.
pub open spec fn reader_outcome(
    read: Option<usize>,
    is_current: bool,
    saving_on: bool,
    file_open: bool,
) -> (ReaderStep, TranscriptStep) {
    match read {
        Some(n) => if delivers(read, is_current) {
            (ReaderStep::Forward(n), transcript_action(saving_on, file_open))
        } else {
            (ReaderStep::Stop, TranscriptStep::Skip)
        },
        None => (ReaderStep::Stop, TranscriptStep::Skip),
    }
}

/// The reader's step after a read that returned `read` (`Some(n)` for `n`
/// bytes, `None` for an error), where `is_current` tells whether its session
/// is still the live one, `saving_on` is the transcript flag as read now and
/// `file_open` whether this session's transcript file is open. End of
/// output, an error, or a session that has been replaced all stop the
/// reader, so a stale reader never emits into a newer session; bytes that are
/// forwarded are also the bytes the transcript step writes.
pub fn reader_step(read: Option<usize>, is_current: bool, saving_on: bool, file_open: bool) -> (r: (
    ReaderStep,
    TranscriptStep,
))
    ensures
        r == reader_outcome(read, is_current, saving_on, file_open),
        delivers(read, is_current) ==> r.0 == ReaderStep::Forward(read->0),
        !delivers(read, is_current) ==> r == (ReaderStep::Stop, TranscriptStep::Skip),
        !saving_on ==> r.1 == TranscriptStep::Skip,
{
    match read {
        Some(n) => if n > 0 && is_current {
            (ReaderStep::Forward(n), transcript_step(saving_on, file_open))
        } else {
            (ReaderStep::Stop, TranscriptStep::Skip)
        },
        None => (ReaderStep::Stop, TranscriptStep::Skip),
    }
}

// ---------------------------------------------------------------------------
// A session's output, read by read
// ---------------------------------------------------------------------------

/// One pass of the reader loop: what the read returned, the buffer it filled,
/// whether the session was still the live one, and the transcript flag.
pub struct ReadEvent {
    pub read: Option<usize>,
    pub buffer: Seq<u8>,
    pub is_current: bool,
    pub saving_on: bool,
}

/// The bytes a read delivered: the first `n` of the buffer.
pub open spec fn chunk(e: ReadEvent) -> Seq<u8> {
    match e.read {
        Some(n) => e.buffer.take(n as int),
        None => Seq::empty(),
    }
}

/// The reader loop run over `events`: the bytes forwarded to the pane, the
/// session's transcript file (`None` while none was created) and whether the
/// reader is still running. Each pass takes `reader_step`'s decision, with the
/// file counted open once it exists, and hands the same bytes to the pane and
/// to the transcript writer.
pub open spec fn reader_run(events: Seq<ReadEvent>) -> (Seq<u8>, Option<Seq<u8>>, bool)
    decreases events.len(),
{
    if events.len() == 0 {
        (Seq::empty(), None, true)
    } else {
        let before = reader_run(events.drop_last());
        let e = events.last();
        if !before.2 {
            before
        } else {
            let (step, write) = reader_outcome(e.read, e.is_current, e.saving_on, before.1 is Some);
            match step {
                ReaderStep::Forward(n) => (
                    before.0 + chunk(e),
                    apply_write(before.1, write, chunk(e)),
                    true,
                ),
                ReaderStep::Stop => (before.0, before.1, false),
            }
        }
    }
}

/// All delivered bytes of `events`, in order.
pub open spec fn all_chunks(events: Seq<ReadEvent>) -> Seq<u8>
    decreases events.len(),
{
    if events.len() == 0 {
        Seq::empty()
    } else {
        all_chunks(events.drop_last()) + chunk(events.last())
    }
}

/// The delivered bytes of the reads made while saving was on, in order.
pub open spec fn saved_chunks(events: Seq<ReadEvent>) -> Seq<u8>
    decreases events.len(),
{
    if events.len() == 0 {
        Seq::empty()
    } else {
        saved_chunks(events.drop_last()) + if events.last().saving_on {
            chunk(events.last())
        } else {
            Seq::empty()
        }
    }
}

/// Whether saving was on for any of `events`.
pub open spec fn ever_saving(events: Seq<ReadEvent>) -> bool {
    exists|i: int| 0 <= i < events.len() && (#[trigger] events[i]).saving_on
}

/// The transcript is the terminal output read while saving was on. Over a
/// session whose first `live` reads deliver output and whose next read (if
/// any) does not: the pane gets every delivered chunk, in order; the
/// transcript file exists exactly when saving was on for one of those reads
/// and holds, in order, the chunks read while it was on (turning the flag off
/// skips chunks, turning it back on appends to the same file); when saving
/// stayed on throughout, the transcript is exactly what the pane got; and
/// the reader stops at the first read that delivers nothing.
pub proof fn law_transcript_is_saved_output(events: Seq<ReadEvent>, live: int)
    requires
        0 <= live <= events.len(),
        forall|i: int| 0 <= i < live ==> delivers(#[trigger] events[i].read, events[i].is_current),
        live < events.len() ==> !delivers(events[live].read, events[live].is_current),
    ensures
        reader_run(events).0 == all_chunks(events.take(live)),
        reader_run(events).1 == if ever_saving(events.take(live)) {
            Some(saved_chunks(events.take(live)))
        } else {
            None
        },
        (forall|i: int| 0 <= i < live ==> (#[trigger] events[i]).saving_on) && live > 0
            ==> reader_run(events).1 == Some(reader_run(events).0),
        reader_run(events).2 == (live == events.len()),
{
    lemma_run_prefix(events, live);
    if (forall|i: int| 0 <= i < live ==> (#[trigger] events[i]).saving_on) && live > 0 {
        lemma_saved_all(events.take(live));
    }
}

proof fn lemma_run_prefix(events: Seq<ReadEvent>, live: int)
    requires
        0 <= live <= events.len(),
        forall|i: int| 0 <= i < live ==> delivers(#[trigger] events[i].read, events[i].is_current),
        live < events.len() ==> !delivers(events[live].read, events[live].is_current),
    ensures
        reader_run(events).0 == all_chunks(events.take(live)),
        reader_run(events).1 == if ever_saving(events.take(live)) {
            Some(saved_chunks(events.take(live)))
        } else {
            None
        },
        reader_run(events).2 == (live == events.len()),
    decreases events.len(),
{
    if events.len() == 0 {
        assert(events.take(live) =~= Seq::<ReadEvent>::empty());
    } else {
        let n = events.len() - 1;
        let init = events.drop_last();
        let live0 = if live == events.len() {
            n
        } else {
            live
        };
        assert forall|i: int| 0 <= i < live0 implies delivers(
            #[trigger] init[i].read,
            init[i].is_current,
        ) by {
            assert(init[i] == events[i]);
        }
        if live0 < init.len() {
            assert(init[live0] == events[live0]);
        }
        lemma_run_prefix(init, live0);
        assert(init.take(live0) =~= events.take(live0));
        if live == events.len() {
            let all = events.take(live);
            assert(all =~= events);
            assert(all.drop_last() =~= init);
            let e = events.last();
            assert(delivers(e.read, e.is_current));
            assert(all.last() == e);
            if e.saving_on {
                assert(all[n] == e);
                assert(ever_saving(all));
                if !ever_saving(init) {
                    lemma_saved_none(init);
                    assert(saved_chunks(init) + chunk(e) =~= chunk(e));
                }
            } else {
                assert(saved_chunks(all) =~= saved_chunks(init));
                assert(ever_saving(all) == ever_saving(init)) by {
                    if ever_saving(all) {
                        let i = choose|i: int| 0 <= i < all.len() && (#[trigger] all[i]).saving_on;
                        assert(i < n);
                        assert(init[i] == all[i]);
                    }
                    if ever_saving(init) {
                        let i = choose|i: int| 0 <= i < init.len() && (#[trigger] init[i]).saving_on;
                        assert(all[i] == init[i]);
                    }
                }
            }
        } else {
            assert(live == live0);
        }
    }
}

proof fn lemma_saved_none(events: Seq<ReadEvent>)
    requires
        !ever_saving(events),
    ensures
        saved_chunks(events) == Seq::<u8>::empty(),
    decreases events.len(),
{
    if events.len() > 0 {
        let init = events.drop_last();
        if ever_saving(init) {
            let i = choose|i: int| 0 <= i < init.len() && (#[trigger] init[i]).saving_on;
            assert(events[i] == init[i]);
        }
        lemma_saved_none(init);
        assert(!events[events.len() - 1].saving_on);
        assert(saved_chunks(events) =~= Seq::<u8>::empty());
    }
}

proof fn lemma_saved_all(events: Seq<ReadEvent>)
    requires
        forall|i: int| 0 <= i < events.len() ==> (#[trigger] events[i]).saving_on,
    ensures
        saved_chunks(events) == all_chunks(events),
    decreases events.len(),
{
    if events.len() > 0 {
        let init = events.drop_last();
        assert forall|i: int| 0 <= i < init.len() implies (#[trigger] init[i]).saving_on by {
            assert(init[i] == events[i]);
        }
        lemma_saved_all(init);
        assert(events.last() == events[events.len() - 1]);
    }
}

} // verus!
