//! The verified core of the sidecar desktop companion: parsing of git and
//! GitHub data, the commit graph, the Issues panel summary, token refresh
//! decisions, file listing and preview rules, workspace containment, and
//! terminal transcript and session decisions.
pub mod fs;
pub mod git;
pub mod github;
pub mod pty;
pub mod text;
pub mod transcript;
