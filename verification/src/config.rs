//! What a run is told on the command line.

use vstd::prelude::*;

verus! {

/// Where the output goes when no place is named.
pub const DEFAULT_OUTPUT_PATH: &'static str = ".";

/// The folder that holds the output when none is named.
pub const DEFAULT_OUTPUT_FOLDER: &'static str = "kindle-notes";

/// What is said when the export is not named.
pub const MISSING_FILE_NAME: &'static str = "Didn't get a file name";

/// The settings of one run.
#[derive(Debug, PartialEq, Eq)]
pub struct Config {
    /// The export to read.
    pub filename: String,
    /// The directory under which the output folder is made.
    pub output_path: String,
    /// The name of the folder that receives one document per book.
    pub output_folder: String,
}

impl Config {
    /// Reads the settings from the arguments of a program: after the
    /// program's own name come the export, the output path and the output
    /// folder. The export must be named; the other two have defaults.
    pub fn new(args: &[String]) -> (config: Result<Config, &'static str>)
        ensures
            config is Err <==> args@.len() < 2,
            config matches Err(message) ==> message@ == MISSING_FILE_NAME@,
            config matches Ok(c) ==> {
                &&& c.filename@ == args@[1]@
                &&& c.output_path@ == if args@.len() > 2 {
                    args@[2]@
                } else {
                    DEFAULT_OUTPUT_PATH@
                }
                &&& c.output_folder@ == if args@.len() > 3 {
                    args@[3]@
                } else {
                    DEFAULT_OUTPUT_FOLDER@
                }
            },
    {
        if args.len() < 2 {
            return Err(MISSING_FILE_NAME);
        }
        let filename = args[1].clone();
        let output_path = if args.len() > 2 {
            args[2].clone()
        } else {
            DEFAULT_OUTPUT_PATH.to_owned()
        };
        let output_folder = if args.len() > 3 {
            args[3].clone()
        } else {
            DEFAULT_OUTPUT_FOLDER.to_owned()
        };
        Ok(Config { filename, output_path, output_folder })
    }
}

} // verus!
