//! The options of one run.

use vstd::prelude::*;

verus! {

/// What the user asked for. The options stay the same for a whole run: every
/// timestamp of every chunk is rewritten under the same `Args`.
#[derive(Clone, Debug)]
pub struct Args {
    /// Where the text comes from; standard input if `None`.
    pub file: Option<String>,
    /// Leave the rewritten dates unmarked.
    pub no_highlight: bool,
    /// Show dates in UTC instead of the zone of the machine.
    pub utc: bool,
    /// Show dates in RFC 3339 form.
    pub rfc3339: bool,
}

impl Default for Args {
    /// Standard input, highlighted, local zone, `YYYY-MM-DD HH:MM:SS`.
    fn default() -> (r: Args)
        ensures
            r.file is None,
            !r.no_highlight,
            !r.utc,
            !r.rfc3339,
    {
        Args { file: None, no_highlight: false, utc: false, rfc3339: false }
    }
}

} // verus!
