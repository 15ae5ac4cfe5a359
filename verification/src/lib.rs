//! A small engine that maps keybinding descriptions ("Ctrl-a",
//! "Ctrl-Space Ctrl-d") onto named actions and scans a raw byte stream,
//! one byte at a time, firing an action exactly when a configured key
//! sequence has just been completed.
//!
//! The pipeline is: a lexer turns a binding string into `Key`/`Dash`
//! tokens, a parser groups the tokens into chords (keys pressed
//! together) and sequences (chords pressed one after another), the
//! chord model resolves each chord to the byte a terminal emits for it,
//! and the bindings engine compiles everything into two trie automata
//! (bytes to chord atoms, chord atoms to actions) that are advanced
//! online by [`bindings::Bindings::transition`].

pub mod bindings;
pub mod chord;
pub mod error;
pub mod lexer;
pub mod parser;
pub mod trie;
