//! What a run may print while it works.
//!
//! Two separate questions: `--quiet` silences everything the progress
//! display writes, while a non-terminal stderr only rules out animation; a
//! log still wants the warnings.

use vstd::prelude::*;
use crate::text::str_eq;

verus! {

/// Whether an environment switch is set: present, not empty, and neither
/// `0` nor `false`.
pub open spec fn flag_set(v: Option<Seq<char>>) -> bool {
    match v {
        Some(s) => s.len() > 0 && s != "0"@ && s != "false"@,
        None => false,
    }
}

/// Whether an environment switch is set, from the value the environment
/// holds for it.
pub fn env_flag(v: Option<&str>) -> (r: bool)
    ensures
        r == flag_set(
            match v {
                Some(s) => Some(s@),
                None => None,
            },
        ),
{
    match v {
        Some(s) => !s.is_empty() && !str_eq(s, "0") && !str_eq(s, "false"),
        None => false,
    }
}

/// What this run may print.
#[derive(Debug, Clone, Copy, PartialEq, Eq, Structural)]
pub struct Ui {
    pub silenced: bool,
    pub animated: bool,
}

/// Decide once, at startup, what this run may print: `quiet` or the
/// no-progress switch silence everything; animation also needs a terminal
/// and no CI switch.
pub fn init(quiet: bool, no_progress: Option<&str>, ci: Option<&str>, terminal: bool) -> (r: Ui)
    ensures
        r.silenced == (quiet || flag_set(
            match no_progress {
                Some(s) => Some(s@),
                None => None,
            },
        )),
        r.animated == (!r.silenced && !flag_set(
            match ci {
                Some(s) => Some(s@),
                None => None,
            },
        ) && terminal),
{
    let silenced = quiet || env_flag(no_progress);
    let animated = !silenced && !env_flag(ci) && terminal;
    Ui { silenced, animated }
}

impl Ui {
    /// Whether everything the progress display writes is silenced.
    pub fn quiet(&self) -> (r: bool)
        ensures
            r == self.silenced,
    {
        self.silenced
    }

    /// Whether progress may be animated.
    pub fn enabled(&self) -> (r: bool)
        ensures
            r == self.animated,
    {
        self.animated
    }
}

} // verus!
