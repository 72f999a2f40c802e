//! The options of a run, and the rules they must meet.

use vstd::prelude::*;
use vstd::string::StringExecFns;

verus! {

/// Generate m3u playlists for multi-disc ROM collections
#[derive(Debug, Clone)]
pub struct Cli {
    /// Directory to search for ROM media files
    pub target: String,
    /// Where to write m3u files (default: alongside ROMs)
    pub destination: Option<String>,
    /// Use relative paths in m3u files (default: absolute)
    pub relative: bool,
    /// Create subdirectories in DESTINATION mirroring TARGET's top-level folders
    pub children: bool,
    /// Use disc-style grouping for floppy formats too
    pub force: bool,
    /// Suppress progress output, only show errors
    pub quiet: bool,
    /// Show detailed information about each file processed
    pub verbose: bool,
}

/// What is wrong with the options, if anything, given what the file system
/// says of the target. The first fault found is reported: `--children`
/// without a destination, a target that does not exist, a target that is no
/// directory.
pub open spec fn validation_error(cli: Cli, target_exists: bool, target_is_dir: bool) -> Option<
    Seq<char>,
> {
    if cli.children && cli.destination is None {
        Some("the --children flag requires a DESTINATION"@)
    } else if !target_exists {
        Some("target directory does not exist: "@ + cli.target@)
    } else if !target_is_dir {
        Some("target is not a directory: "@ + cli.target@)
    } else {
        None
    }
}

impl Cli {
    /// Checks the options. `target_exists` and `target_is_dir` say what the
    /// caller found at the target path.
    pub fn validate(&self, target_exists: bool, target_is_dir: bool) -> (res: Result<(), String>)
        ensures
            match res {
                Ok(_) => validation_error(*self, target_exists, target_is_dir) is None,
                Err(message) => validation_error(*self, target_exists, target_is_dir) == Some(
                    message@,
                ),
            },
    {
        if self.children && self.destination.is_none() {
            return Err(String::from_str("the --children flag requires a DESTINATION"));
        }
        if !target_exists {
            let mut message = String::from_str("target directory does not exist: ");
            message.append(self.target.as_str());
            return Err(message);
        }
        if !target_is_dir {
            let mut message = String::from_str("target is not a directory: ");
            message.append(self.target.as_str());
            return Err(message);
        }
        Ok(())
    }

    /// Whether progress and results are reported: not in quiet mode.
    pub fn reports_progress(&self) -> (res: bool)
        ensures
            res == !self.quiet,
    {
        !self.quiet
    }

    /// Whether details are reported: in verbose mode, unless quiet.
    pub fn reports_details(&self) -> (res: bool)
        ensures
            res == (self.verbose && !self.quiet),
    {
        self.verbose && !self.quiet
    }
}

} // verus!
