//! What the command line asks for.
use vstd::prelude::*;

verus! {

#[derive(Clone, Copy, Debug, PartialEq, Eq, Structural)]
pub enum ReportFormatArg {
    Text,
    Markdown,
    Html,
    Pdf,
}

/// Check and update dependencies across package managers.
#[derive(Debug)]
pub struct Cli {
    pub command: Option<Commands>,
    /// Only check these specific package managers (cargo, docker, github-actions, npm, pyproject, requirements)
    pub only: Option<Vec<String>>,
    /// Filter to specific dependency names
    pub filter: Option<Vec<String>>,
}

#[derive(Debug)]
pub enum Commands {
    /// Check for available dependency updates (default)
    Check,
    /// Interactively select and apply dependency updates
    Update {
        /// Update all without prompting
        all: bool,
    },
    /// List detected dependency files and their dependencies
    List,
    /// Generate upgrade intelligence reports
    Report {
        /// Output formats (text, markdown, html, pdf)
        format: Vec<ReportFormatArg>,
        /// Output path: file stem (default) or directory
        output: String,
        /// Open the generated report in your default browser/app
        open: bool,
    },
}

impl Cli {
    /// The command to run: `check` where none is named.
    pub fn into_command(self) -> (r: Commands)
        ensures
            r == match self.command {
                Some(command) => command,
                None => Commands::Check,
            },
    {
        match self.command {
            Some(command) => command,
            None => Commands::Check,
        }
    }
}

} // verus!
