use std::path::{Path, PathBuf};
use std::sync::atomic::Ordering;

use sidecar::transcript::{
    default_transcript_enabled, session_transcript_path, settings_path, transcript_enabled_from,
    transcript_path_at, transcript_step, Settings, TranscriptState, TranscriptStep,
};

/// A transcript writer driven by the library's decisions, writing to memory.
struct MemoryWriter {
    file: Option<Vec<u8>>,
}

impl MemoryWriter {
    fn maybe_write(&mut self, enabled: bool, bytes: &[u8]) {
        match transcript_step(enabled, self.file.is_some()) {
            TranscriptStep::Skip => {}
            TranscriptStep::OpenThenAppend => {
                let mut f = Vec::new();
                f.extend_from_slice(bytes);
                self.file = Some(f);
            }
            TranscriptStep::Append => self.file.as_mut().unwrap().extend_from_slice(bytes),
        }
    }
}

#[test]
fn writes_bytes_to_file_when_enabled() {
    let mut writer = MemoryWriter { file: None };
    writer.maybe_write(true, b"hello ");
    writer.maybe_write(true, b"world");
    assert_eq!(String::from_utf8(writer.file.unwrap()).unwrap(), "hello world");
}

#[test]
fn suppresses_writes_when_disabled() {
    let mut writer = MemoryWriter { file: None };
    writer.maybe_write(false, b"should not appear");
    assert!(writer.file.is_none(), "transcript file should not be created while disabled");
}

#[test]
fn resumes_writing_to_same_file_after_being_reenabled() {
    let mut writer = MemoryWriter { file: None };
    writer.maybe_write(true, b"before-off ");
    writer.maybe_write(false, b"during-off ");
    writer.maybe_write(true, b"after-on");
    assert_eq!(String::from_utf8(writer.file.unwrap()).unwrap(), "before-off after-on");
}

#[test]
fn defaults_transcript_enabled_true_when_no_settings_file() {
    assert!(transcript_enabled_from(None));
    assert!(default_transcript_enabled());
    assert!(Settings::default().transcript_enabled);
}

#[test]
fn corrupt_settings_file_falls_back_to_enabled_default() {
    // An unparsable settings file yields no settings.
    assert!(transcript_enabled_from(None));
    assert!(!transcript_enabled_from(Some(Settings { transcript_enabled: false })));
    assert!(transcript_enabled_from(Some(Settings { transcript_enabled: true })));
}

fn path_of(bytes: Vec<u8>) -> PathBuf {
    PathBuf::from(String::from_utf8(bytes).unwrap())
}

#[test]
fn session_transcript_paths_are_unique_and_under_transcripts_dir() {
    let dir = "/tmp/sidecar-transcript-test-path-shape";
    let a = path_of(session_transcript_path(&dir.as_bytes().to_vec()));
    let start = std::time::Instant::now();
    while start.elapsed() < std::time::Duration::from_millis(2) {}
    let b = path_of(session_transcript_path(&dir.as_bytes().to_vec()));

    assert_ne!(a, b, "relaunching should not reuse the previous filename");
    assert_eq!(a.parent().unwrap(), Path::new(dir).join("transcripts"));
}

#[test]
fn paths_join_like_std() {
    assert_eq!(path_of(settings_path(&b"/data/app".to_vec())), PathBuf::from("/data/app/settings.json"));
    assert_eq!(path_of(settings_path(&b"/data/app/".to_vec())), PathBuf::from("/data/app/settings.json"));
    assert_eq!(
        String::from_utf8(transcript_path_at(&b"/d".to_vec(), 1234)).unwrap(),
        "/d/transcripts/session-1234.log"
    );
    assert_eq!(
        String::from_utf8(transcript_path_at(&b"".to_vec(), 0)).unwrap(),
        "transcripts/session-0.log"
    );
    assert_eq!(
        Path::new("/x").join("transcripts").join("session-7.log"),
        path_of(transcript_path_at(&b"/x".to_vec(), 7))
    );
}

#[test]
fn transcript_state_holds_initial_flag() {
    assert!(TranscriptState::new(true).enabled.load(Ordering::Relaxed));
    assert!(!TranscriptState::new(false).enabled.load(Ordering::Relaxed));
}

#[test]
fn transcript_state_defaults_to_on() {
    assert!(TranscriptState::default().enabled.load(Ordering::Relaxed));
}
