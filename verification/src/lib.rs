//! Verified core of a split-proxy controller: the text, path, rule and
//! bookkeeping logic that decides what the desktop shell writes, runs and shows.

pub mod text;
pub mod shell;
pub mod paths;
pub mod json;
pub mod traffic;
pub mod detect;
pub mod login;
pub mod status;
pub mod apps;
pub mod logs;
