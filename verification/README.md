# sidecar (verified core)

The decision logic of the sidecar desktop companion (terminal, file tree,
git commit graph, GitHub Issues panel), written in Verus and proved against
its contracts.

- `src/text.rs`: whitespace, trimming, line and prefix handling, decimal
  numerals over `Seq<char>`, with the executable helpers the parsers use.
- `src/git.rs`: recognising GitHub remote URLs and regular-merge commit
  messages, and assembling the commit graph (walked and truncated parents,
  reference labels, pull request numbers).
- `src/github.rs`: token refresh decisions, stored tokens from an OAuth
  grant, and the Issues panel summary (median age, relative age classes).
- `src/fs.rs`: directory listing order, workspace containment of paths
  (component-wise, as `Path::starts_with`), file preview classification
  with its size bound, and the debouncing of change notifications.
- `src/transcript.rs`: settings and transcript file locations, the default
  of the transcript toggle, and when output is written.
- `src/pty.rs`: the shell command plan for a folder and the output reader's
  steps, which decide for each read what reaches the pane and the transcript.
- `app/`: the Tauri commands and everything that touches the filesystem,
  the keychain, the network, git repositories or pseudo-terminals; it hands
  plain values to the library and takes plain values back.
- `tests/`: executable tests of the library.
