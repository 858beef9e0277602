//! What the library knows of SDKMAN: its listings, its commands, and what to
//! do with a command under the modes of a run.

use crate::reconcile::{Action, ActionSpec};
use vstd::prelude::*;
use vstd::string::StringExecFns;

pub mod candidate;

verus! {

/// The command line that carries out `action`.
pub open spec fn command_of(action: ActionSpec) -> Seq<char> {
    match action {
        ActionSpec::Uninstall { candidate, version } => "sdk uninstall "@ + candidate + " "@
            + version,
        ActionSpec::Install { candidate, version } => "sdk install "@ + candidate + " "@ + version,
        ActionSpec::SetDefault { candidate, version } => "sdk default "@ + candidate + " "@
            + version,
    }
}

/// What becomes of the command of an action.
#[derive(Clone, Copy, Debug, PartialEq, Eq)]
pub enum Disposition {
    /// It is carried out.
    Run,
    /// It is only shown.
    DryRun,
    /// It is shown and left out, being an uninstall where none are wanted.
    Skip,
}

/// The modes of a run.
#[derive(Debug)]
pub struct SdkMan {
    /// Show the commands without carrying any out.
    pub dry_run: bool,
    /// Carry out no uninstall.
    pub no_uninstall: bool,
}

/// How an action ended.
#[derive(Clone, Debug, PartialEq, Eq)]
pub enum Outcome {
    /// The command succeeded.
    Succeeded,
    /// The command failed; what it printed.
    Failed(String),
    /// The command was only shown.
    DryRun,
    /// The command was left out.
    Skipped,
}

/// An outcome as the contracts see it.
pub enum OutcomeSpec {
    Succeeded,
    Failed(Seq<char>),
    DryRun,
    Skipped,
}

impl View for Outcome {
    type V = OutcomeSpec;

    open spec fn view(&self) -> OutcomeSpec {
        match self {
            Outcome::Succeeded => OutcomeSpec::Succeeded,
            Outcome::Failed(detail) => OutcomeSpec::Failed(detail@),
            Outcome::DryRun => OutcomeSpec::DryRun,
            Outcome::Skipped => OutcomeSpec::Skipped,
        }
    }
}

/// The label under which an outcome is shown.
pub open spec fn label_of(outcome: OutcomeSpec) -> Seq<char> {
    match outcome {
        OutcomeSpec::Succeeded => "OK"@,
        OutcomeSpec::Failed(detail) => "Error: "@ + detail,
        OutcomeSpec::DryRun => "DRY-RUN"@,
        OutcomeSpec::Skipped => "NO-UNINSTALL"@,
    }
}

/// The outcome of a command that was carried out: success, or an error with
/// what the command wrote to its output and to its error stream.
pub open spec fn outcome_of(success: bool, stdout: Seq<char>, stderr: Seq<char>) -> OutcomeSpec {
    if success {
        OutcomeSpec::Succeeded
    } else {
        OutcomeSpec::Failed(stdout + " "@ + stderr)
    }
}

impl SdkMan {
    /// What becomes of the command of `action` under these modes. An uninstall
    /// is left out where none are wanted, whether or not the run is dry; in a
    /// dry run every other command is only shown.
    pub open spec fn disposition_of(&self, action: ActionSpec) -> Disposition {
        if action is Uninstall && self.no_uninstall {
            Disposition::Skip
        } else if self.dry_run {
            Disposition::DryRun
        } else {
            Disposition::Run
        }
    }

    /// What to do with the command of `action`.
    pub fn disposition(&self, action: &Action) -> (what: Disposition)
        ensures
            what == self.disposition_of(action@),
    {
        let uninstall = match action {
            Action::Uninstall { .. } => true,
            _ => false,
        };
        if uninstall && self.no_uninstall {
            Disposition::Skip
        } else if self.dry_run {
            Disposition::DryRun
        } else {
            Disposition::Run
        }
    }

    /// The command line that carries out `action`.
    pub fn command(action: &Action) -> (line: String)
        ensures
            line@ == command_of(action@),
    {
        match action {
            Action::Uninstall { candidate, version } => {
                let mut line = String::from_str("sdk uninstall ");
                line.append(candidate.as_str());
                line.append(" ");
                line.append(version.as_str());
                line
            },
            Action::Install { candidate, version } => {
                let mut line = String::from_str("sdk install ");
                line.append(candidate.as_str());
                line.append(" ");
                line.append(version.as_str());
                line
            },
            Action::SetDefault { candidate, version } => {
                let mut line = String::from_str("sdk default ");
                line.append(candidate.as_str());
                line.append(" ");
                line.append(version.as_str());
                line
            },
        }
    }

    /// The command line that lists the versions of `candidate`.
    pub fn list_command(candidate: &str) -> (line: String)
        ensures
            line@ == "sdk list "@ + candidate@,
    {
        let mut line = String::from_str("sdk list ");
        line.append(candidate);
        line
    }

    /// The directory that holds the installed versions of `candidate`, below
    /// the directory `root` of SDKMAN.
    pub fn candidate_dir(root: &str, candidate: &str) -> (path: String)
        ensures
            path@ == root@ + "/candidates/"@ + candidate@,
    {
        let mut path = String::from_str(root);
        path.append("/candidates/");
        path.append(candidate);
        path
    }

    /// The outcome of a command that was carried out.
    pub fn finished(success: bool, stdout: &str, stderr: &str) -> (outcome: Outcome)
        ensures
            outcome@ == outcome_of(success, stdout@, stderr@),
    {
        if success {
            Outcome::Succeeded
        } else {
            let mut detail = String::from_str(stdout);
            detail.append(" ");
            detail.append(stderr);
            Outcome::Failed(detail)
        }
    }
}

impl Outcome {
    /// The label under which the outcome is shown.
    pub fn label(&self) -> (text: String)
        ensures
            text@ == label_of(self@),
    {
        match self {
            Outcome::Succeeded => String::from_str("OK"),
            Outcome::Failed(detail) => {
                let mut text = String::from_str("Error: ");
                text.append(detail.as_str());
                text
            },
            Outcome::DryRun => String::from_str("DRY-RUN"),
            Outcome::Skipped => String::from_str("NO-UNINSTALL"),
        }
    }
}

} // verus!
