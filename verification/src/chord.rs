//! The chord model: which chords are well formed, and which raw byte a
//! terminal emits for each of them.
//!
//! Exactly two shapes are valid: a bare symbol, or `Ctrl-<symbol>`,
//! where a symbol is a lowercase letter, a digit, or the word "Space".
//! A Ctrl-combination resolves through a fixed control-code table;
//! several textual chords intentionally alias to the same byte.

use vstd::prelude::*;
use vstd::string::StrSliceExecFns;
use vstd::string::StringExecFns;
use crate::error::Error;
use crate::error::ErrorModel;
use crate::error::err_model;

verus! {

/// A list of keys that must be held down all together, as text labels.
#[derive(Debug, Clone)]
pub struct Chord(pub Vec<String>);

impl View for Chord {
    type V = Seq<Seq<char>>;

    open spec fn view(&self) -> Seq<Seq<char>> {
        self.0.deep_view()
    }
}

impl DeepView for Chord {
    type V = Seq<Seq<char>>;

    open spec fn deep_view(&self) -> Seq<Seq<char>> {
        self.view()
    }
}

impl PartialEq for Chord {
    fn eq(&self, other: &Chord) -> (r: bool) {
        if self.0.len() != other.0.len() {
            proof {
                assert(self@.len() == self.0@.len());
                assert(other@.len() == other.0@.len());
            }
            return false;
        }
        let mut i: usize = 0;
        while i < self.0.len()
            invariant
                i <= self.0@.len(),
                self.0@.len() == other.0@.len(),
                forall|j: int| 0 <= j < i ==> self.0@[j]@ == #[trigger] other.0@[j]@,
            decreases self.0@.len() - i,
        {
            if self.0[i] != other.0[i] {
                proof {
                    assert(self@[i as int] != other@[i as int]);
                }
                return false;
            }
            i = i + 1;
        }
        proof {
            assert(self@ =~= other@);
        }
        true
    }
}

impl vstd::std_specs::cmp::PartialEqSpecImpl for Chord {
    open spec fn obeys_eq_spec() -> bool {
        true
    }

    open spec fn eq_spec(&self, other: &Chord) -> bool {
        self@ == other@
    }
}

/// The label "Ctrl", the only modifier key.
pub open spec fn is_ctrl_label(k: Seq<char>) -> bool {
    k == "Ctrl"@
}

/// A character that may stand alone as a key: a lowercase letter or a
/// digit.
pub open spec fn is_sym_char(c: char) -> bool {
    ('a' as u32 <= c as u32 && c as u32 <= 'z' as u32) || ('0' as u32 <= c as u32 && c as u32
        <= '9' as u32)
}

/// A symbol label: the word "Space" or one symbol character.
pub open spec fn is_sym_label(k: Seq<char>) -> bool {
    k == "Space"@ || (k.len() == 1 && is_sym_char(k[0]))
}

/// Any valid key label.
pub open spec fn is_key_label(k: Seq<char>) -> bool {
    is_ctrl_label(k) || is_sym_label(k)
}

/// The two valid chord shapes: one symbol, or "Ctrl" then a symbol.
pub open spec fn valid_chord(c: Seq<Seq<char>>) -> bool {
    &&& forall|i: int| 0 <= i < c.len() ==> is_key_label(#[trigger] c[i])
    &&& ((c.len() == 1 && !is_ctrl_label(c[0])) || (c.len() == 2 && is_ctrl_label(c[0])
        && !is_ctrl_label(c[1])))
}

/// Which error `check_valid` reports for an invalid chord: an invalid
/// key label is found first, then the shape is judged.
pub open spec fn chord_error_model(c: Seq<Seq<char>>) -> ErrorModel {
    if exists|i: int| 0 <= i < c.len() && !is_key_label(#[trigger] c[i]) {
        ErrorModel::InvalidKey(c)
    } else if c.len() == 1 {
        ErrorModel::CtrlAlone(c)
    } else if c.len() == 2 {
        if !is_ctrl_label(c[0]) {
            ErrorModel::ModKeyNotCtrl(c)
        } else {
            ErrorModel::CtrlRepeated(c)
        }
    } else {
        ErrorModel::BadChordShape(c)
    }
}

/// The byte a bare symbol produces: 0x20 for "Space", otherwise the
/// character's own code point truncated to a byte.
pub open spec fn sym_code(k: Seq<char>) -> u8 {
    if k == "Space"@ {
        32u8
    } else {
        (k[0] as u32) as u8
    }
}

/// The fixed control-code table, keyed by the symbol pressed together
/// with Ctrl. Several symbols alias to the same byte, matching what a
/// terminal actually emits.
pub open spec fn ctrl_code(k: Seq<char>) -> Option<u8> {
    if k == "Space"@ {
        Some(0u8)
    } else if k == "a"@ {
        Some(1u8)
    } else if k == "b"@ {
        Some(2u8)
    } else if k == "c"@ {
        Some(3u8)
    } else if k == "d"@ {
        Some(4u8)
    } else if k == "e"@ {
        Some(5u8)
    } else if k == "f"@ {
        Some(6u8)
    } else if k == "g"@ {
        Some(7u8)
    } else if k == "h"@ {
        Some(8u8)
    } else if k == "i"@ {
        Some(9u8)
    } else if k == "j"@ {
        Some(10u8)
    } else if k == "k"@ {
        Some(11u8)
    } else if k == "l"@ {
        Some(12u8)
    } else if k == "m"@ {
        Some(13u8)
    } else if k == "n"@ {
        Some(14u8)
    } else if k == "o"@ {
        Some(15u8)
    } else if k == "p"@ {
        Some(16u8)
    } else if k == "q"@ {
        Some(17u8)
    } else if k == "r"@ {
        Some(18u8)
    } else if k == "s"@ {
        Some(19u8)
    } else if k == "t"@ {
        Some(20u8)
    } else if k == "u"@ {
        Some(21u8)
    } else if k == "v"@ {
        Some(22u8)
    } else if k == "w"@ {
        Some(23u8)
    } else if k == "y"@ {
        Some(24u8)
    } else if k == "x"@ {
        Some(25u8)
    } else if k == "z"@ {
        Some(26u8)
    } else if k == "@"@ {
        Some(0u8)
    } else if k == "2"@ {
        Some(0u8)
    } else if k == "["@ {
        Some(27u8)
    } else if k == "3"@ {
        Some(27u8)
    } else if k == "\\"@ {
        Some(28u8)
    } else if k == "4"@ {
        Some(28u8)
    } else if k == "]"@ {
        Some(29u8)
    } else if k == "5"@ {
        Some(29u8)
    } else if k == "^"@ {
        Some(30u8)
    } else if k == "6"@ {
        Some(30u8)
    } else if k == "_"@ {
        Some(31u8)
    } else if k == "7"@ {
        Some(31u8)
    } else if k == "?"@ {
        Some(127u8)
    } else if k == "8"@ {
        Some(127u8)
    } else if k == "0"@ {
        Some(127u8)
    } else {
        None
    }
}

/// The byte a chord produces when pressed, defined for every chord the
/// engine can compile: a valid shape whose Ctrl-symbol, if any, has a
/// control-code entry.
pub open spec fn key_code_spec(c: Seq<Seq<char>>) -> Option<u8> {
    if !valid_chord(c) {
        None
    } else if c.len() == 1 {
        Some(sym_code(c[0]))
    } else {
        ctrl_code(c[1])
    }
}

/// Which error `key_code` reports when no byte can be resolved.
pub open spec fn key_code_error_model(c: Seq<Seq<char>>) -> ErrorModel {
    if !valid_chord(c) {
        chord_error_model(c)
    } else {
        ErrorModel::UnknownKeyCode(c)
    }
}

impl Chord {
    /// An equal chord, key for key.
    pub fn duplicate(&self) -> (r: Chord)
        ensures
            r@ == self@,
    {
        let mut keys: Vec<String> = Vec::new();
        let mut i: usize = 0;
        while i < self.0.len()
            invariant
                i <= self.0@.len(),
                keys@.len() == i,
                forall|j: int| 0 <= j < i ==> keys@[j] == #[trigger] self.0@[j],
            decreases self.0@.len() - i,
        {
            keys.push(self.0[i].clone());
            i = i + 1;
        }
        let r = Chord(keys);
        proof {
            assert(r@ =~= self@);
        }
        r
    }

    /// Whether the label is the modifier key "Ctrl".
    pub fn is_ctrl(key: &String) -> (r: bool)
        ensures
            r == is_ctrl_label(key@),
    {
        *key == String::from_str("Ctrl")
    }

    /// Whether the label is a symbol: "Space", a lowercase letter or a
    /// digit.
    pub fn is_sym(key: &String) -> (r: bool)
        ensures
            r == is_sym_label(key@),
    {
        if *key == String::from_str("Space") {
            return true;
        }
        if key.as_str().unicode_len() != 1 {
            return false;
        }
        let c = key.as_str().get_char(0);
        let u = c as u32;
        (97 <= u && u <= 122) || (48 <= u && u <= 57)
    }

    /// Whether the label is any valid key.
    pub fn is_key(key: &String) -> (r: bool)
        ensures
            r == is_key_label(key@),
    {
        Self::is_ctrl(key) || Self::is_sym(key)
    }

    /// Accepts exactly the two valid chord shapes, `sym` and
    /// `Ctrl-sym`, and says which rule an invalid chord breaks.
    pub fn check_valid(&self) -> (r: Result<(), Error>)
        ensures
            r is Ok <==> valid_chord(self@),
            r is Err ==> err_model(r->Err_0) == chord_error_model(self@),
    {
        let mut i: usize = 0;
        while i < self.0.len()
            invariant
                i <= self.0@.len(),
                forall|j: int| 0 <= j < i ==> is_key_label(#[trigger] self@[j]),
            decreases self.0@.len() - i,
        {
            if !Self::is_key(&self.0[i]) {
                proof {
                    assert(!is_key_label(self@[i as int]));
                }
                return Err(Error::InvalidKey(self.duplicate()));
            }
            i = i + 1;
        }
        if self.0.len() == 1 {
            if Self::is_ctrl(&self.0[0]) {
                return Err(Error::CtrlAlone(self.duplicate()));
            }
        } else if self.0.len() == 2 {
            if !Self::is_ctrl(&self.0[0]) {
                return Err(Error::ModKeyNotCtrl(self.duplicate()));
            }
            if Self::is_ctrl(&self.0[1]) {
                return Err(Error::CtrlRepeated(self.duplicate()));
            }
        } else {
            return Err(Error::BadChordShape(self.duplicate()));
        }
        Ok(())
    }

    /// The control-code table as executable lookup over the symbol
    /// pressed together with Ctrl.
    fn ctrl_code_of(key: &String) -> (r: Option<u8>)
        ensures
            r == ctrl_code(key@),
    {
        if *key == String::from_str("Space") {
            Some(0)
        } else if *key == String::from_str("a") {
            Some(1)
        } else if *key == String::from_str("b") {
            Some(2)
        } else if *key == String::from_str("c") {
            Some(3)
        } else if *key == String::from_str("d") {
            Some(4)
        } else if *key == String::from_str("e") {
            Some(5)
        } else if *key == String::from_str("f") {
            Some(6)
        } else if *key == String::from_str("g") {
            Some(7)
        } else if *key == String::from_str("h") {
            Some(8)
        } else if *key == String::from_str("i") {
            Some(9)
        } else if *key == String::from_str("j") {
            Some(10)
        } else if *key == String::from_str("k") {
            Some(11)
        } else if *key == String::from_str("l") {
            Some(12)
        } else if *key == String::from_str("m") {
            Some(13)
        } else if *key == String::from_str("n") {
            Some(14)
        } else if *key == String::from_str("o") {
            Some(15)
        } else if *key == String::from_str("p") {
            Some(16)
        } else if *key == String::from_str("q") {
            Some(17)
        } else if *key == String::from_str("r") {
            Some(18)
        } else if *key == String::from_str("s") {
            Some(19)
        } else if *key == String::from_str("t") {
            Some(20)
        } else if *key == String::from_str("u") {
            Some(21)
        } else if *key == String::from_str("v") {
            Some(22)
        } else if *key == String::from_str("w") {
            Some(23)
        } else if *key == String::from_str("y") {
            Some(24)
        } else if *key == String::from_str("x") {
            Some(25)
        } else if *key == String::from_str("z") {
            Some(26)
        } else if *key == String::from_str("@") {
            Some(0)
        } else if *key == String::from_str("2") {
            Some(0)
        } else if *key == String::from_str("[") {
            Some(27)
        } else if *key == String::from_str("3") {
            Some(27)
        } else if *key == String::from_str("\\") {
            Some(28)
        } else if *key == String::from_str("4") {
            Some(28)
        } else if *key == String::from_str("]") {
            Some(29)
        } else if *key == String::from_str("5") {
            Some(29)
        } else if *key == String::from_str("^") {
            Some(30)
        } else if *key == String::from_str("6") {
            Some(30)
        } else if *key == String::from_str("_") {
            Some(31)
        } else if *key == String::from_str("7") {
            Some(31)
        } else if *key == String::from_str("?") {
            Some(127)
        } else if *key == String::from_str("8") {
            Some(127)
        } else if *key == String::from_str("0") {
            Some(127)
        } else {
            None
        }
    }

    /// The byte this chord generates when pressed: validates the chord
    /// and resolves it through the symbol code or the control-code
    /// table.
    pub fn key_code(&self) -> (r: Result<u8, Error>)
        ensures
            match r {
                Ok(b) => key_code_spec(self@) == Some(b),
                Err(e) => key_code_spec(self@) is None && err_model(e) == key_code_error_model(
                    self@,
                ),
            },
    {
        match self.check_valid() {
            Ok(_) => {},
            Err(e) => {
                return Err(e);
            },
        }
        if self.0.len() == 1 {
            let key = &self.0[0];
            if *key == String::from_str("Space") {
                return Ok(32);
            }
            proof {
                assert(is_sym_label(self@[0]));
                assert(self@[0].len() == 1);
            }
            let c = key.as_str().get_char(0);
            let u = c as u32;
            return Ok(#[verifier::truncate] (u as u8));
        }
        match Self::ctrl_code_of(&self.0[1]) {
            Some(code) => Ok(code),
            None => Err(Error::UnknownKeyCode(self.duplicate())),
        }
    }
}

/// Law: chord validation and key-code resolution fit together. A chord
/// of valid shape resolves to a byte — deterministically, the
/// resolution being a function — whenever it is a bare symbol or its
/// Ctrl-symbol has a control-code entry; and a chord outside the two
/// valid shapes never resolves and never passes validation.
pub proof fn lemma_key_code_total_on_valid(c: Seq<Seq<char>>)
    ensures
        valid_chord(c) && (c.len() == 1 || ctrl_code(c[1]) is Some) ==> key_code_spec(c) is Some,
        !valid_chord(c) ==> key_code_spec(c) is None,
{
}

} // verus!
