//! The bindings engine: compiles (binding string, action) pairs into
//! two cooperating trie automata and scans a raw byte stream online.
//!
//! The inner automaton recognizes chords from raw bytes and yields a
//! dense chord atom; the outer automaton recognizes sequences of chord
//! atoms and yields the bound action. Compilation is one-shot and
//! fallible; the runtime path never fails and is O(1) per byte.

use vstd::prelude::*;
use crate::chord::Chord;
use crate::chord::key_code_spec;
use crate::chord::key_code_error_model;
use crate::error::Error;
use crate::error::ErrorModel;
use crate::error::err_model;
use crate::lexer::Lexer;
use crate::lexer::tokenize_spec;
use crate::parser::parse;
use crate::parser::parse_spec;
use crate::trie::ByteTab;
use crate::trie::Trie;
use crate::trie::TrieCursor;

verus! {

/// An effect the caller should perform in response to a completed
/// binding.
#[derive(Eq, PartialEq, Structural, Debug, Copy, Clone)]
pub enum Action {
    /// Detach the current session.
    Detach,
}

/// A dense small integer standing for one distinct chord, so that the
/// sequence automaton works over a bounded alphabet instead of nested
/// chord structures.
#[derive(Eq, PartialEq, Structural, Debug, Copy, Clone)]
pub struct ChordAtom(pub u8);

/// The state the compiler threads through a binding set: the distinct
/// chords seen so far in first-seen order (the atom of a chord is its
/// position), and the two key maps the tries are built to hold.
pub struct CompileState {
    /// Distinct chords in order of first appearance.
    pub atoms: Seq<Seq<Seq<char>>>,
    /// Single-byte path of each chord's key code, to its atom.
    pub chord_keys: Map<Seq<u32>, ChordAtom>,
    /// Atom path of each binding, to its action.
    pub seq_keys: Map<Seq<u32>, Action>,
}

/// The position of chord `c` in `atoms`, counting from the front.
pub open spec fn atom_index(atoms: Seq<Seq<Seq<char>>>, c: Seq<Seq<char>>) -> int
    decreases atoms.len(),
{
    if atoms.len() == 0 {
        0
    } else if atoms[0] == c {
        0
    } else {
        1 + atom_index(atoms.drop_first(), c)
    }
}

/// The first position where `c` occurs is `atom_index`.
proof fn lemma_atom_index_first(atoms: Seq<Seq<Seq<char>>>, c: Seq<Seq<char>>, i: int)
    requires
        0 <= i < atoms.len(),
        atoms[i] == c,
        forall|j: int| 0 <= j < i ==> atoms[j] != c,
    ensures
        atom_index(atoms, c) == i,
    decreases i,
{
    if atoms[0] == c {
        assert(i == 0);
    } else {
        assert(atoms.drop_first()[i - 1] == c);
        lemma_atom_index_first(atoms.drop_first(), c, i - 1);
    }
}

/// One chord folded into the compile state: resolve its key code (this
/// also validates it), find or allocate its atom — at most 255 distinct
/// chords may exist — and record the byte-to-atom key.
pub open spec fn add_chord(st: CompileState, c: Seq<Seq<char>>) -> Result<
    (CompileState, ChordAtom),
    ErrorModel,
> {
    if key_code_spec(c) is None {
        Err(key_code_error_model(c))
    } else {
        let code = key_code_spec(c)->Some_0;
        if st.atoms.contains(c) {
            let a = ChordAtom(atom_index(st.atoms, c) as u8);
            Ok(
                (
                    CompileState { chord_keys: st.chord_keys.insert(seq![code as u32], a), ..st },
                    a,
                ),
            )
        } else if st.atoms.len() >= 255 {
            Err(ErrorModel::TooManyChords)
        } else {
            let a = ChordAtom(st.atoms.len() as u8);
            Ok(
                (
                    CompileState {
                        atoms: st.atoms.push(c),
                        chord_keys: st.chord_keys.insert(seq![code as u32], a),
                        ..st
                    },
                    a,
                ),
            )
        }
    }
}

/// The chords of one binding folded into the state, gathering the atom
/// path of the binding.
pub open spec fn add_seq_chords(
    st: CompileState,
    chords: Seq<Seq<Seq<char>>>,
    path: Seq<u32>,
) -> Result<(CompileState, Seq<u32>), ErrorModel>
    decreases chords.len(),
{
    if chords.len() == 0 {
        Ok((st, path))
    } else {
        match add_chord(st, chords[0]) {
            Ok((st2, a)) => add_seq_chords(st2, chords.drop_first(), path.push(a.0 as u32)),
            Err(e) => Err(e),
        }
    }
}

/// One whole binding folded into the state: lex, parse, fold the
/// chords, and record the atom-path-to-action key.
pub open spec fn add_binding(st: CompileState, src: Seq<char>, action: Action) -> Result<
    CompileState,
    ErrorModel,
> {
    match tokenize_spec(src) {
        Err(e) => Err(e),
        Ok(toks) => match parse_spec(toks) {
            Err(e) => Err(e),
            Ok(chords) => match add_seq_chords(st, chords, Seq::empty()) {
                Err(e) => Err(e),
                Ok((st2, path)) => Ok(
                    CompileState { seq_keys: st2.seq_keys.insert(path, action), ..st2 },
                ),
            },
        },
    }
}

/// A binding set folded left to right; the first error aborts the
/// whole compilation.
pub open spec fn compile_rec(st: CompileState, bs: Seq<(Seq<char>, Action)>) -> Result<
    CompileState,
    ErrorModel,
>
    decreases bs.len(),
{
    if bs.len() == 0 {
        Ok(st)
    } else {
        match add_binding(st, bs[0].0, bs[0].1) {
            Ok(st2) => compile_rec(st2, bs.drop_first()),
            Err(e) => Err(e),
        }
    }
}

/// The compile state with nothing seen yet.
pub open spec fn empty_state() -> CompileState {
    CompileState { atoms: Seq::empty(), chord_keys: Map::empty(), seq_keys: Map::empty() }
}

/// What compiling a whole binding set yields.
pub open spec fn compile_spec(bs: Seq<(Seq<char>, Action)>) -> Result<CompileState, ErrorModel> {
    compile_rec(empty_state(), bs)
}

/// The views of a binding list.
pub open spec fn bindings_model(bs: Seq<(&str, Action)>) -> Seq<(Seq<char>, Action)> {
    bs.map_values(|p: (&str, Action)| (p.0@, p.1))
}

/// A trie holds exactly the keys of a map.
pub open spec fn trie_matches<V>(t: Trie<V, ByteTab>, m: Map<Seq<u32>, V>) -> bool {
    forall|s: Seq<u32>| #[trigger] t.lookup(s) == (if m.contains_key(s) {
        Some(m[s])
    } else {
        None::<V>
    })
}

/// The matching engine: the two tries, immutable once built, and the
/// two cursors that carry the match state across calls.
pub struct Bindings {
    /// Raw input bytes to chord atoms. Bytes rather than characters,
    /// because the engine scans raw terminal input that need not be
    /// UTF-8.
    pub chords: Trie<ChordAtom, ByteTab>,
    /// The current match state in the chords trie.
    pub chords_cursor: TrieCursor,
    /// Chord atom paths to the bound actions.
    pub sequences: Trie<Action, ByteTab>,
    /// The current match state in the sequences trie.
    pub sequences_cursor: TrieCursor,
}

impl Bindings {
    /// Both tries and both cursors are well formed.
    pub open spec fn wf(self) -> bool {
        &&& self.chords.wf()
        &&& self.sequences.wf()
        &&& self.chords.cursor_wf(self.chords_cursor)
        &&& self.sequences.cursor_wf(self.sequences_cursor)
    }

    /// What one input byte does to the cursors and what it emits:
    /// advance the chords cursor; on a completed chord feed its atom to
    /// the sequences cursor, resetting the chords cursor; a completed
    /// sequence emits its action and resets, a failed one resets
    /// silently; a failed chord resets both cursors, and a chord still
    /// in progress leaves everything untouched.
    pub open spec fn step_spec(self, byte: u8) -> (TrieCursor, TrieCursor, Option<Action>) {
        let cc = self.chords.advance_spec(self.chords_cursor, byte as u32);
        match self.chords.cursor_value(cc) {
            Some(atom) => {
                let sc = self.sequences.advance_spec(self.sequences_cursor, atom.0 as u32);
                match sc {
                    TrieCursor::Match { idx, is_partial } => if is_partial {
                        (TrieCursor::Start, sc, None::<Action>)
                    } else {
                        (TrieCursor::Start, TrieCursor::Start, self.sequences.cursor_value(sc))
                    },
                    _ => (TrieCursor::Start, TrieCursor::Start, None::<Action>),
                }
            },
            None => {
                if cc is NoMatch {
                    (TrieCursor::Start, TrieCursor::Start, None::<Action>)
                } else {
                    (cc, self.sequences_cursor, None::<Action>)
                }
            },
        }
    }

    /// Compiles a binding-to-action mapping into a matching engine,
    /// building the two tries exactly as the compile fold
    /// [`compile_spec`] describes, or failing with its first error.
    pub fn new<'a>(bindings: &Vec<(&'a str, Action)>) -> (r: Result<Bindings, Error>)
        ensures
            match r {
                Ok(b) => {
                    &&& compile_spec(bindings_model(bindings@)) is Ok
                    &&& b.wf()
                    &&& b.chords_cursor == TrieCursor::Start
                    &&& b.sequences_cursor == TrieCursor::Start
                    &&& trie_matches(
                        b.chords,
                        compile_spec(bindings_model(bindings@))->Ok_0.chord_keys,
                    )
                    &&& trie_matches(
                        b.sequences,
                        compile_spec(bindings_model(bindings@))->Ok_0.seq_keys,
                    )
                },
                Err(e) => compile_spec(bindings_model(bindings@)) == Err::<
                    CompileState,
                    ErrorModel,
                >(err_model(e)),
            },
    {
        let ghost bs = bindings_model(bindings@);
        let mut chords: Trie<ChordAtom, ByteTab> = Trie::new();
        let mut sequences: Trie<Action, ByteTab> = Trie::new();
        let mut atom_tab: Vec<Chord> = Vec::new();
        let tokenizer = Lexer::new();
        let ghost mut st = empty_state();
        let mut bi: usize = 0;
        proof {
            assert(bs.skip(0) =~= bs);
            assert(atom_tab.deep_view() =~= st.atoms);
        }
        while bi < bindings.len()
            invariant
                bi <= bindings@.len(),
                bs == bindings_model(bindings@),
                tokenizer.wf(),
                chords.wf(),
                sequences.wf(),
                atom_tab.deep_view() == st.atoms,
                st.atoms.len() <= 255,
                trie_matches(chords, st.chord_keys),
                trie_matches(sequences, st.seq_keys),
                compile_spec(bs) == compile_rec(st, bs.skip(bi as int)),
            decreases bindings@.len() - bi,
        {
            let pair = &bindings[bi];
            let src: &str = pair.0;
            let action: Action = pair.1;
            let ghost rest = bs.skip(bi as int);
            proof {
                assert(rest[0] == bs[bi as int]);
                assert(bs[bi as int] == (src@, action));
                assert(rest.drop_first() =~= bs.skip(bi as int + 1));
            }
            let tokens = match tokenizer.tokenize(src) {
                Ok(t) => t,
                Err(e) => {
                    return Err(e);
                },
            };
            let parsed = match parse(tokens) {
                Ok(s) => s,
                Err(e) => {
                    return Err(e);
                },
            };
            let ghost chords_m = parsed@;
            let mut path: Vec<u32> = Vec::new();
            let mut ci: usize = 0;
            proof {
                assert(chords_m.skip(0) =~= chords_m);
            }
            while ci < parsed.0.len()
                invariant
                    ci <= parsed.0@.len(),
                    bs == bindings_model(bindings@),
                    chords_m == parsed@,
                    chords.wf(),
                    sequences.wf(),
                    atom_tab.deep_view() == st.atoms,
                    st.atoms.len() <= 255,
                    forall|k: int| 0 <= k < path@.len() ==> #[trigger] path@[k] < 256,
                    trie_matches(chords, st.chord_keys),
                    trie_matches(sequences, st.seq_keys),
                    compile_spec(bs) == (match add_seq_chords(
                        st,
                        chords_m.skip(ci as int),
                        path@,
                    ) {
                        Ok((st2, p)) => compile_rec(
                            CompileState { seq_keys: st2.seq_keys.insert(p, action), ..st2 },
                            bs.skip(bi as int + 1),
                        ),
                        Err(e) => Err::<CompileState, ErrorModel>(e),
                    }),
                decreases parsed.0@.len() - ci,
            {
                let chord = &parsed.0[ci];
                let ghost c = chord@;
                let ghost crest = chords_m.skip(ci as int);
                proof {
                    assert(crest[0] == chords_m[ci as int]);
                    assert(chords_m[ci as int] == c);
                    assert(crest.drop_first() =~= chords_m.skip(ci as int + 1));
                }
                let code = match chord.key_code() {
                    Ok(b) => b,
                    Err(e) => {
                        proof {
                            assert(add_chord(st, c) == Err::<(CompileState, ChordAtom), ErrorModel>(
                                err_model(e),
                            ));
                            assert(add_seq_chords(st, crest, path@) == Err::<
                                (CompileState, Seq<u32>),
                                ErrorModel,
                            >(err_model(e)));
                        }
                        return Err(e);
                    },
                };
                // look the chord's atom up, by structural equality
                let mut found: Option<u8> = None;
                let mut ai: usize = 0;
                while ai < atom_tab.len() && found.is_none()
                    invariant
                        ai <= atom_tab@.len(),
                        atom_tab@.len() <= 255,
                        atom_tab.deep_view() == st.atoms,
                        match found {
                            Some(a) => st.atoms.contains(c) && a as int == atom_index(st.atoms, c),
                            None => forall|j: int| 0 <= j < ai ==> #[trigger] st.atoms[j] != c,
                        },
                        chords_m == parsed@,
                        c == chord@,
                        c == parsed.0@[ci as int]@,
                        ci < parsed.0@.len(),
                    decreases atom_tab@.len() - ai,
                {
                    let hit = atom_tab[ai] == *chord;
                    proof {
                        assert(st.atoms[ai as int] == atom_tab@[ai as int]@);
                    }
                    if hit {
                        proof {
                            assert(st.atoms[ai as int] == c);
                            assert(st.atoms.contains(c));
                            lemma_atom_index_first(st.atoms, c, ai as int);
                        }
                        found = Some(ai as u8);
                    }
                    ai = ai + 1;
                }
                let atom: ChordAtom = match found {
                    Some(a) => {
                        proof {
                            assert(st.atoms.contains(c));
                        }
                        ChordAtom(a)
                    },
                    None => {
                        proof {
                            assert(forall|j: int| 0 <= j < st.atoms.len()
                                ==> #[trigger] st.atoms[j] != c);
                            assert(!st.atoms.contains(c));
                        }
                        if atom_tab.len() >= 255 {
                            proof {
                                assert(add_chord(st, c) == Err::<
                                    (CompileState, ChordAtom),
                                    ErrorModel,
                                >(ErrorModel::TooManyChords));
                                assert(add_seq_chords(st, crest, path@) == Err::<
                                    (CompileState, Seq<u32>),
                                    ErrorModel,
                                >(ErrorModel::TooManyChords));
                            }
                            return Err(Error::TooManyChords);
                        }
                        let a = ChordAtom(atom_tab.len() as u8);
                        let ghost atoms0 = atom_tab.deep_view();
                        atom_tab.push(chord.duplicate());
                        proof {
                            assert(atom_tab.deep_view() =~= atoms0.push(c));
                        }
                        a
                    },
                };
                let ghost st0 = st;
                proof {
                    st = (add_chord(st0, c)->Ok_0).0;
                }
                let mut key: Vec<u32> = Vec::new();
                key.push(code as u32);
                proof {
                    assert(key@ =~= seq![code as u32]);
                }
                chords.insert(&key, atom);
                proof {
                    assert(add_chord(st0, c) == Ok::<(CompileState, ChordAtom), ErrorModel>(
                        (st, atom),
                    ));
                    assert forall|s: Seq<u32>| #[trigger] chords.lookup(s) == (
                    if st.chord_keys.contains_key(s) {
                        Some(st.chord_keys[s])
                    } else {
                        None::<ChordAtom>
                    }) by {
                        if s != key@ {
                            assert(chords.lookup(s) == (if st0.chord_keys.contains_key(s) {
                                Some(st0.chord_keys[s])
                            } else {
                                None::<ChordAtom>
                            }));
                        }
                    }
                }
                let ghost path0 = path@;
                path.push(atom.0 as u32);
                proof {
                    assert(path@ =~= path0.push(atom.0 as u32));
                }
                ci = ci + 1;
            }
            proof {
                assert(chords_m.skip(chords_m.len() as int) =~= Seq::<Seq<Seq<char>>>::empty());
                assert(add_seq_chords(st, chords_m.skip(chords_m.len() as int), path@) == Ok::<
                    (CompileState, Seq<u32>),
                    ErrorModel,
                >((st, path@)));
            }
            let ghost st0 = st;
            proof {
                st = CompileState { seq_keys: st0.seq_keys.insert(path@, action), ..st0 };
            }
            sequences.insert(&path, action);
            proof {
                assert forall|s: Seq<u32>| #[trigger] sequences.lookup(s) == (
                if st.seq_keys.contains_key(s) {
                    Some(st.seq_keys[s])
                } else {
                    None::<Action>
                }) by {
                    if s != path@ {
                        assert(sequences.lookup(s) == (if st0.seq_keys.contains_key(s) {
                            Some(st0.seq_keys[s])
                        } else {
                            None::<Action>
                        }));
                    }
                }
            }
            bi = bi + 1;
        }
        proof {
            assert(bs.skip(bs.len() as int) =~= Seq::<(Seq<char>, Action)>::empty());
        }
        Ok(
            Bindings {
                chords,
                chords_cursor: TrieCursor::Start,
                sequences,
                sequences_cursor: TrieCursor::Start,
            },
        )
    }

    /// Scans one byte of input, updating the match state exactly as
    /// [`Bindings::step_spec`] describes and emitting the action of a
    /// sequence that has just been completed.
    pub fn transition(&mut self, byte: u8) -> (r: Option<Action>)
        requires
            old(self).wf(),
        ensures
            final(self).wf(),
            final(self).chords == old(self).chords,
            final(self).sequences == old(self).sequences,
            final(self).chords_cursor == old(self).step_spec(byte).0,
            final(self).sequences_cursor == old(self).step_spec(byte).1,
            r == old(self).step_spec(byte).2,
    {
        self.chords_cursor = self.chords.advance(self.chords_cursor, byte as u32);
        match self.chords.get(self.chords_cursor) {
            Some(chord_atom) => {
                self.chords_cursor = TrieCursor::Start;
                self.sequences_cursor = self.sequences.advance(
                    self.sequences_cursor,
                    chord_atom.0 as u32,
                );
                match self.sequences_cursor {
                    TrieCursor::Match { is_partial, .. } => {
                        if is_partial {
                            None
                        } else {
                            let cursor = self.sequences_cursor;
                            self.sequences_cursor = TrieCursor::Start;
                            self.sequences.get(cursor)
                        }
                    },
                    _ => {
                        self.sequences_cursor = TrieCursor::Start;
                        None
                    },
                }
            },
            None => {
                if let TrieCursor::NoMatch = self.chords_cursor {
                    self.sequences_cursor = TrieCursor::Start;
                    self.chords_cursor = TrieCursor::Start;
                }
                None
            },
        }
    }
}

/// The engine run over a whole byte sequence: the final state and what
/// each byte emitted.
pub open spec fn run_spec(b: Bindings, bytes: Seq<u8>) -> (Bindings, Seq<Option<Action>>)
    decreases bytes.len(),
{
    if bytes.len() == 0 {
        (b, Seq::empty())
    } else {
        let step = b.step_spec(bytes[0]);
        let b2 = Bindings { chords_cursor: step.0, sequences_cursor: step.1, ..b };
        let rest = run_spec(b2, bytes.drop_first());
        (rest.0, seq![step.2] + rest.1)
    }
}

/// Every byte yields exactly one emission slot.
pub proof fn lemma_run_spec_len(b: Bindings, bytes: Seq<u8>)
    ensures
        run_spec(b, bytes).1.len() == bytes.len(),
    decreases bytes.len(),
{
    if bytes.len() > 0 {
        let step = b.step_spec(bytes[0]);
        let b2 = Bindings { chords_cursor: step.0, sequences_cursor: step.1, ..b };
        lemma_run_spec_len(b2, bytes.drop_first());
    }
}

/// Whether a byte could begin some configured chord.
pub open spec fn begins_chord(b: Bindings, byte: u8) -> bool {
    exists|k: Seq<u32>| (#[trigger] b.chords.lookup(k)) is Some && k.len() > 0 && k[0]
        == byte as u32
}

/// A byte that begins no chord has no transition out of the root.
proof fn lemma_no_begin_no_edge(b: Bindings, byte: u8)
    requires
        b.wf(),
        !begins_chord(b, byte),
    ensures
        b.chords.child(0, byte as u32) is None,
{
    if b.chords.child(0, byte as u32) is Some {
        let s = seq![byte as u32];
        let cn = b.chords.child(0, byte as u32)->Some_0;
        assert(s[0] == byte as u32);
        assert(s.subrange(1, 1) =~= Seq::<u32>::empty());
        assert(b.chords.node_at(cn, Seq::<u32>::empty()) == Some(cn));
        assert(b.chords.node_at(0, s) == Some(cn));
        b.chords.lemma_reachable_iff_prefix(s);
        let k = choose|k: Seq<u32>| (#[trigger] b.chords.lookup(k)) is Some && s.is_prefix_of(k);
        assert(k[0] == s[0]);
        assert(begins_chord(b, byte));
    }
}

/// Law: idempotence of failure. Once matching has failed outright and
/// no partial chord is pending — both cursors stand at `Start` — a
/// byte sequence none of whose bytes can begin any configured chord
/// never emits an action, and leaves the engine back at `Start`, ready
/// for a fresh valid prefix.
pub proof fn lemma_failure_is_stable(b: Bindings, bytes: Seq<u8>)
    requires
        b.wf(),
        b.chords_cursor == TrieCursor::Start,
        b.sequences_cursor == TrieCursor::Start,
        forall|i: int| 0 <= i < bytes.len() ==> !begins_chord(b, #[trigger] bytes[i]),
    ensures
        run_spec(b, bytes).0 == b,
        forall|i: int| 0 <= i < bytes.len() ==> (#[trigger] run_spec(b, bytes).1[i]) is None,
    decreases bytes.len(),
{
    if bytes.len() > 0 {
        lemma_no_begin_no_edge(b, bytes[0]);
        let step = b.step_spec(bytes[0]);
        assert(b.chords.advance_spec(b.chords_cursor, bytes[0] as u32) == TrieCursor::NoMatch);
        assert(step == (TrieCursor::Start, TrieCursor::Start, None::<Action>));
        let b2 = Bindings { chords_cursor: step.0, sequences_cursor: step.1, ..b };
        assert(b2 == b);
        assert forall|i: int| 0 <= i < bytes.drop_first().len() implies !begins_chord(
            b,
            #[trigger] bytes.drop_first()[i],
        ) by {
            assert(bytes.drop_first()[i] == bytes[i + 1]);
        }
        lemma_failure_is_stable(b, bytes.drop_first());
        lemma_run_spec_len(b, bytes.drop_first());
        assert forall|i: int| 0 <= i < bytes.len() implies (#[trigger] run_spec(
            b,
            bytes,
        ).1[i]) is None by {
            if i > 0 {
                assert(run_spec(b, bytes).1[i] == run_spec(b, bytes.drop_first()).1[i - 1]);
            }
        }
    }
}

} // verus!
