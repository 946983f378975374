//! The process exit codes.
//!
//! - `SUCCESS` (0): the run completed; also used when output is cut short by
//!   a closed pipe, which is not an error
//! - `ERROR` (1): the run failed (invalid settings, missing path, file
//!   system error, ...)
//! - `CLAP_ERROR` (2): the command line was rejected; the argument parser
//!   exits with this code itself
//! - `INTERRUPTED` (130): the process was interrupted by SIGINT (Ctrl-C)

use vstd::prelude::*;

verus! {

pub const SUCCESS: i32 = 0;

pub const ERROR: i32 = 1;

pub const CLAP_ERROR: i32 = 2;

pub const INTERRUPTED: i32 = 130;

} // verus!
