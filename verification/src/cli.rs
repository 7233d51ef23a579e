//! Command-line argument data and the decisions derived from it.
//!
//! The surrounding application parses its arguments into [`Cli`] and asks it
//! which action the flags select.

use vstd::prelude::*;
use vstd::string::*;
use crate::text::{lower_of, lowercase, str_eq};

verus! {

/// The actions that take no version argument.
#[derive(Clone, Copy, Debug, PartialEq, Eq, Structural)]
pub enum StandaloneAction {
    MatchServer,
    Update,
}

/// The parsed command line.
pub struct Cli {
    /// Version to download.
    pub target_version: Option<String>,
    /// List available versions from the mirror.
    pub list: Option<String>,
    /// List installed versions.
    pub installed: Option<String>,
    /// Remove installed versions.
    pub prune: Option<String>,
    /// Download the version matching the currently connected cluster.
    pub match_server: bool,
    /// Update the tool itself.
    pub update: bool,
    /// Allow insecure TLS connections.
    pub insecure: bool,
    /// Make the operation more talkative.
    pub verbose: bool,
    /// Shell to generate a completion script for.
    pub completion: Option<String>,
}

impl Cli {
    /// The standalone action the flags select, the server match taking
    /// precedence over the self-update.
    pub fn standalone_action(&self) -> (r: Option<StandaloneAction>)
        ensures
            r == (if self.match_server {
                Some(StandaloneAction::MatchServer)
            } else if self.update {
                Some(StandaloneAction::Update)
            } else {
                None::<StandaloneAction>
            }),
    {
        match (self.match_server, self.update) {
            (true, _) => Some(StandaloneAction::MatchServer),
            (_, true) => Some(StandaloneAction::Update),
            _ => None,
        }
    }
}

/// Accepts a completion shell name: only `bash`, in any letter case.
pub fn parse_completion_shell(s: &str) -> (r: Result<String, String>)
    ensures
        lower_of(s@) == "bash"@ ==> (r matches Ok(v) && v@ == lower_of(s@)),
        lower_of(s@) != "bash"@ ==> (r matches Err(e) && e@ == "unsupported shell: "@ + s@
            + " (only 'bash' is supported)"@),
{
    let lower = lowercase(s);
    if str_eq(lower.as_str(), "bash") {
        Ok(lower)
    } else {
        let mut e = String::from_str("unsupported shell: ");
        e.append(s);
        e.append(" (only 'bash' is supported)");
        Err(e)
    }
}

} // verus!
