use vstd::prelude::*;

verus! {

use crate::context::ShowContext;
use crate::files::RecurseHaystacks;
use crate::matching::{AcceptSet, InterfaceMode, MatchMode};
use crate::needle::Needle;

// The run-wide configuration, assembled once by the surrounding application
// and read-only afterwards.

/// How matches are reported.
#[derive(Debug, PartialEq, Eq, Structural)]
pub enum OutputStyle {
    /// Only the exit status.
    JustExitCode,
    /// Only the files with a match.
    ShowFilesWithLf,
    /// Only the files with a match, NUL-terminated.
    ShowFilesWithNull,
    /// Every file with its match count.
    ShowCountsPerFile,
    /// Only the matching tokens.
    ShowOnlyMatching,
    /// The matching lines, with optional context.
    ShowLinesAndContext,
}

impl OutputStyle {
    /// The output style selected by grep-compatible flags, in order of
    /// precedence: quiet beats file listing, file listing beats counting,
    /// counting beats match-only output; with none of them set, whole lines
    /// are shown.
    pub fn from_flags(
        quiet: bool,
        files_with_matches: bool,
        null: bool,
        count: bool,
        only_matching: bool,
    ) -> (r: OutputStyle)
        ensures
            r == if quiet {
                OutputStyle::JustExitCode
            } else if files_with_matches && null {
                OutputStyle::ShowFilesWithNull
            } else if files_with_matches {
                OutputStyle::ShowFilesWithLf
            } else if count {
                OutputStyle::ShowCountsPerFile
            } else if only_matching {
                OutputStyle::ShowOnlyMatching
            } else {
                OutputStyle::ShowLinesAndContext
            },
    {
        if quiet {
            OutputStyle::JustExitCode
        } else if files_with_matches && null {
            OutputStyle::ShowFilesWithNull
        } else if files_with_matches {
            OutputStyle::ShowFilesWithLf
        } else if count {
            OutputStyle::ShowCountsPerFile
        } else if only_matching {
            OutputStyle::ShowOnlyMatching
        } else {
            OutputStyle::ShowLinesAndContext
        }
    }
}

/// Everything one run needs to know.
#[derive(Debug)]
pub struct Parameters {
    // Matching control:
    pub accept: AcceptSet,
    pub interface_mode: InterfaceMode,
    pub match_mode: MatchMode,
    // General output control:
    pub output_style: OutputStyle,
    // Output line prefix control:
    pub hide_filename: bool,
    pub show_lineno: bool,
    // Context line control:
    pub show_context: ShowContext,
    // File and directory selection:
    pub recursive: RecurseHaystacks,
    // Other options:
    pub line_buffered: bool,
    // Positional arguments:
    pub needles: Vec<Needle>,
    pub haystack_filenames: Vec<String>,
}

} // verus!
