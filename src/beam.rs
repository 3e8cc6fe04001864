use vstd::prelude::*;

use crate::text::str_eq;

verus! {

/// The kind of antigen capture of a BEAM library.
#[derive(Clone, Copy, Debug, PartialEq, Eq, Structural, Hash)]
pub enum BeamMode {
    BeamAB,
    BeamT,
}

impl BeamMode {
    /// The name of the mode in configuration files.
    pub fn name(&self) -> (r: &'static str)
        ensures
            r@ == match *self {
                BeamMode::BeamAB => "beam_ab"@,
                BeamMode::BeamT => "beam_t"@,
            },
    {
        match self {
            BeamMode::BeamAB => "beam_ab",
            BeamMode::BeamT => "beam_t",
        }
    }

    /// The mode with this name; only `beam_ab` and `beam_t` are modes.
    pub fn from_name(s: &str) -> (r: Option<BeamMode>)
        ensures
            r == if s@ == "beam_ab"@ {
                Some(BeamMode::BeamAB)
            } else if s@ == "beam_t"@ {
                Some(BeamMode::BeamT)
            } else {
                None
            },
    {
        if str_eq(s, "beam_ab") {
            Some(BeamMode::BeamAB)
        } else if str_eq(s, "beam_t") {
            Some(BeamMode::BeamT)
        } else {
            None
        }
    }
}

} // verus!
