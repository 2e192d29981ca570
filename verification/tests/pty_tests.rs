use sidecar::pty::{configure_command, reader_step, shell_or_default, ReaderStep};
use sidecar::transcript::TranscriptStep;

#[test]
fn no_cwd_leaves_command_directory_unset() {
    let cmd = configure_command("/bin/bash".to_string(), None);
    assert_eq!(cmd.cwd, None);
    assert!(cmd.env.is_empty());
}

#[test]
fn cwd_sets_directory_and_exports_env_var() {
    let cmd = configure_command("/bin/bash".to_string(), Some("/tmp/some-repo"));
    assert_eq!(cmd.cwd, Some("/tmp/some-repo".to_string()));
    assert!(cmd.env.contains(&("SIDECAR_REPO".to_string(), "/tmp/some-repo".to_string())));
    assert_eq!(cmd.program, "/bin/bash");
}

#[test]
fn shell_falls_back_to_bash() {
    assert_eq!(shell_or_default(None), "/bin/bash");
    assert_eq!(shell_or_default(Some("/bin/zsh".to_string())), "/bin/zsh");
}

#[test]
fn reader_stops_on_end_error_or_stale_session() {
    assert_eq!(reader_step(Some(5), true, true, true), (ReaderStep::Forward(5), TranscriptStep::Append));
    assert_eq!(reader_step(Some(0), true, true, true), (ReaderStep::Stop, TranscriptStep::Skip));
    assert_eq!(reader_step(Some(5), false, true, true), (ReaderStep::Stop, TranscriptStep::Skip));
    assert_eq!(reader_step(None, true, true, false), (ReaderStep::Stop, TranscriptStep::Skip));
}

#[test]
fn forwarded_output_goes_to_the_transcript_while_saving_is_on() {
    assert_eq!(
        reader_step(Some(3), true, true, false),
        (ReaderStep::Forward(3), TranscriptStep::OpenThenAppend)
    );
    assert_eq!(reader_step(Some(3), true, true, true), (ReaderStep::Forward(3), TranscriptStep::Append));
    assert_eq!(reader_step(Some(3), true, false, true), (ReaderStep::Forward(3), TranscriptStep::Skip));
    assert_eq!(reader_step(Some(3), true, false, false), (ReaderStep::Forward(3), TranscriptStep::Skip));
}

/// The reader loop as the app runs it, over reads of (bytes, saving flag),
/// with the pane and the transcript file in memory.
fn run_session(reads: &[(&[u8], bool)]) -> (Vec<u8>, Option<Vec<u8>>) {
    let mut pane = Vec::new();
    let mut file: Option<Vec<u8>> = None;
    for &(bytes, saving) in reads {
        let (step, write) = reader_step(Some(bytes.len()), true, saving, file.is_some());
        match step {
            ReaderStep::Forward(n) => {
                let chunk = &bytes[..n];
                match write {
                    TranscriptStep::Skip => {}
                    TranscriptStep::OpenThenAppend => file = Some(chunk.to_vec()),
                    TranscriptStep::Append => file.as_mut().unwrap().extend_from_slice(chunk),
                }
                pane.extend_from_slice(chunk);
            }
            ReaderStep::Stop => break,
        }
    }
    (pane, file)
}

#[test]
fn transcript_follows_the_toggle_within_one_session() {
    let (pane, file) = run_session(&[
        (b"$ ls\n", true),
        (b"a b\n", false),
        (b"$ pwd\n", true),
        (b"", true),
        (b"late", true),
    ]);
    assert_eq!(pane, b"$ ls\na b\n$ pwd\n".to_vec());
    assert_eq!(file, Some(b"$ ls\n$ pwd\n".to_vec()));
}

#[test]
fn transcript_matches_the_pane_when_saving_stays_on() {
    let (pane, file) = run_session(&[(b"one ", true), (b"two", true)]);
    assert_eq!(file, Some(pane));
}

#[test]
fn no_transcript_file_when_saving_stays_off() {
    let (pane, file) = run_session(&[(b"quiet", false)]);
    assert_eq!(pane, b"quiet".to_vec());
    assert_eq!(file, None);
}
