//! Value models of the input controls.
//!
//! The host interface draws the controls; the library only keeps each
//! control's value together with the validity signal that drives its
//! styling. A date entry judges its own text by the date grammar; a plain
//! entry is told its validity by the caller; a switch is just a boolean
//! state.

use crate::text::{parse_date, spec_parse};
use vstd::prelude::*;

verus! {

/// A text entry paired with the validity flag its styling follows.
pub struct ErrorField {
    pub value: String,
    pub valid: bool,
}

impl ErrorField {
    /// Pairs an entry text with the validity its caller judged.
    pub fn new(value: String, valid: bool) -> (r: Self)
        ensures
            r.value@ == value@,
            r.valid == valid,
    {
        Self { value, valid }
    }
}

/// A two-state toggle control's state.
pub struct Switch {
    pub state: bool,
}

impl Switch {
    /// A toggle in the given state.
    pub fn new(state: bool) -> (r: Self)
        ensures
            r.state == state,
    {
        Self { state }
    }
}

/// A date entry that judges its own text by the date grammar.
pub struct Datefield {
    pub value: String,
    pub valid: bool,
}

impl Datefield {
    /// Takes an entry text and records whether it parses as a date.
    pub fn new(value: String) -> (r: Self)
        ensures
            r.value@ == value@,
            r.valid == (spec_parse(value@) is Some),
    {
        let valid: bool = parse_date(value.as_str()).is_some();
        Self { value, valid }
    }
}

} // verus!
