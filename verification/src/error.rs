//! The errors the binding compiler can report. All of them are found
//! while compiling a binding set; the runtime matching path never
//! fails.

use vstd::prelude::*;
use crate::chord::Chord;

verus! {

/// A compile-time error, carrying the offending character or chord.
#[derive(Debug)]
pub enum Error {
    /// A character that is not whitespace, not part of a recognized
    /// keyword, and not a bare symbol or dash.
    UnexpectedChar(char),
    /// A dash where a key was expected: a leading or a doubled dash.
    UnexpectedDash,
    /// A chord with a key label that is neither "Ctrl" nor a symbol.
    InvalidKey(Chord),
    /// A chord that is a lone "Ctrl".
    CtrlAlone(Chord),
    /// A two-key chord whose first key is not "Ctrl".
    ModKeyNotCtrl(Chord),
    /// A two-key chord with "Ctrl" in both positions.
    CtrlRepeated(Chord),
    /// A chord of a length other than one or two.
    BadChordShape(Chord),
    /// A well-shaped Ctrl-chord whose symbol has no entry in the
    /// control-code table.
    UnknownKeyCode(Chord),
    /// More distinct chords across all bindings than the engine
    /// supports.
    TooManyChords,
}

/// The mathematical shadow of [`Error`]: the same variants over views,
/// so that contracts can pin down which error comes back.
pub enum ErrorModel {
    UnexpectedChar(char),
    UnexpectedDash,
    InvalidKey(Seq<Seq<char>>),
    CtrlAlone(Seq<Seq<char>>),
    ModKeyNotCtrl(Seq<Seq<char>>),
    CtrlRepeated(Seq<Seq<char>>),
    BadChordShape(Seq<Seq<char>>),
    UnknownKeyCode(Seq<Seq<char>>),
    TooManyChords,
}

/// The model of a concrete error value.
pub open spec fn err_model(e: Error) -> ErrorModel {
    match e {
        Error::UnexpectedChar(c) => ErrorModel::UnexpectedChar(c),
        Error::UnexpectedDash => ErrorModel::UnexpectedDash,
        Error::InvalidKey(c) => ErrorModel::InvalidKey(c@),
        Error::CtrlAlone(c) => ErrorModel::CtrlAlone(c@),
        Error::ModKeyNotCtrl(c) => ErrorModel::ModKeyNotCtrl(c@),
        Error::CtrlRepeated(c) => ErrorModel::CtrlRepeated(c@),
        Error::BadChordShape(c) => ErrorModel::BadChordShape(c@),
        Error::UnknownKeyCode(c) => ErrorModel::UnknownKeyCode(c@),
        Error::TooManyChords => ErrorModel::TooManyChords,
    }
}

impl Error {
    /// A short, human-readable description of the error.
    pub fn message(&self) -> (r: &'static str)
        ensures
            r@ == match *self {
                Error::UnexpectedChar(_) => "unexpected char"@,
                Error::UnexpectedDash => "unexpected DASH token"@,
                Error::InvalidKey(_) => "invalid chord: invalid key"@,
                Error::CtrlAlone(_) => "invalid chord: Ctrl is not a cord"@,
                Error::ModKeyNotCtrl(_) => "invalid chord: Ctrl is the only supported mod key"@,
                Error::CtrlRepeated(_) => "invalid chord: Ctrl cannot be repeated"@,
                Error::BadChordShape(_) => "invalid chord"@,
                Error::UnknownKeyCode(_) => "unknown key code for chord"@,
                Error::TooManyChords => "too many distinct chords"@,
            },
    {
        match self {
            Error::UnexpectedChar(_) => "unexpected char",
            Error::UnexpectedDash => "unexpected DASH token",
            Error::InvalidKey(_) => "invalid chord: invalid key",
            Error::CtrlAlone(_) => "invalid chord: Ctrl is not a cord",
            Error::ModKeyNotCtrl(_) => "invalid chord: Ctrl is the only supported mod key",
            Error::CtrlRepeated(_) => "invalid chord: Ctrl cannot be repeated",
            Error::BadChordShape(_) => "invalid chord",
            Error::UnknownKeyCode(_) => "unknown key code for chord",
            Error::TooManyChords => "too many distinct chords",
        }
    }
}

} // verus!
