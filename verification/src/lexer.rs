//! The lexer for the keybinding language: turns a source string into
//! `Key` and `Dash` tokens.
//!
//! The two reserved words "Ctrl" and "Space" are recognized through a
//! small trie over their characters; any other lowercase letter or
//! digit is a one-character key of its own, a dash separates keys
//! inside a chord, and whitespace may stand anywhere.

use vstd::prelude::*;
use vstd::string::StrSliceExecFns;
use vstd::string::StringExecFns;
use crate::chord::is_sym_char;
use crate::error::Error;
use crate::error::ErrorModel;
use crate::error::err_model;
use crate::trie::CharTab;
use crate::trie::Trie;
use crate::trie::TrieCursor;

verus! {

/// One token of the keybinding language.
#[derive(Debug, PartialEq, Eq)]
pub enum Token {
    /// A key label: a reserved word or a single symbol.
    Key(String),
    /// The dash that joins keys into a chord.
    Dash,
}

/// The mathematical shadow of [`Token`], over character sequences.
pub enum TokenModel {
    Key(Seq<char>),
    Dash,
}

/// The model of a concrete token.
pub open spec fn token_model(t: Token) -> TokenModel {
    match t {
        Token::Key(s) => TokenModel::Key(s@),
        Token::Dash => TokenModel::Dash,
    }
}

/// The models of a token list.
pub open spec fn tokens_model(ts: Seq<Token>) -> Seq<TokenModel> {
    ts.map_values(|t: Token| token_model(t))
}

/// The characters the lexer skips: Unicode whitespace.
pub open spec fn is_space_char(c: char) -> bool {
    ||| c == ' '
    ||| c == '\t'
    ||| c == '\n'
    ||| c == '\u{0b}'
    ||| c == '\u{0c}'
    ||| c == '\r'
    ||| c == '\u{85}'
    ||| c == '\u{a0}'
    ||| c == '\u{1680}'
    ||| ('\u{2000}' as u32 <= c as u32 && c as u32 <= '\u{200a}' as u32)
    ||| c == '\u{2028}'
    ||| c == '\u{2029}'
    ||| c == '\u{202f}'
    ||| c == '\u{205f}'
    ||| c == '\u{3000}'
}

/// Executable test for [`is_space_char`].
pub fn is_space(c: char) -> (r: bool)
    ensures
        r == is_space_char(c),
{
    let u = c as u32;
    c == ' ' || c == '\t' || c == '\n' || c == '\u{0b}' || c == '\u{0c}' || c == '\r' || c
        == '\u{85}' || c == '\u{a0}' || c == '\u{1680}' || (0x2000 <= u && u <= 0x200a) || c
        == '\u{2028}' || c == '\u{2029}' || c == '\u{202f}' || c == '\u{205f}' || c == '\u{3000}'
}

/// A buffer that has just completed a reserved word.
pub open spec fn kw_complete(b: Seq<char>) -> bool {
    b == "Ctrl"@ || b == "Space"@
}

/// A buffer that is a prefix of some reserved word and so may still
/// grow into one.
pub open spec fn kw_viable(b: Seq<char>) -> bool {
    b.is_prefix_of("Ctrl"@) || b.is_prefix_of("Space"@)
}

/// The token a single buffered character replays to, if any: a dash or
/// a one-character key.
pub open spec fn replay_char(c: char) -> Option<TokenModel> {
    if c == '-' {
        Some(TokenModel::Dash)
    } else if is_sym_char(c) {
        Some(TokenModel::Key(seq![c]))
    } else {
        None
    }
}

/// Replays a whole buffer character by character, failing at the first
/// character that is neither a dash nor a symbol.
pub open spec fn replay_all(b: Seq<char>) -> Result<Seq<TokenModel>, ErrorModel>
    decreases b.len(),
{
    if b.len() == 0 {
        Ok(Seq::empty())
    } else {
        match replay_char(b[0]) {
            Some(t) => match replay_all(b.drop_first()) {
                Ok(ts) => Ok(seq![t] + ts),
                Err(e) => Err(e),
            },
            None => Err(ErrorModel::UnexpectedChar(b[0])),
        }
    }
}

/// The lexer as a state machine over the remaining input, the buffered
/// characters and the tokens already emitted: whitespace is skipped; a
/// buffer that completes a reserved word becomes one `Key` token; one
/// that may still grow into a reserved word keeps buffering; any other
/// buffer is replayed character by character. A buffer still pending at
/// the end of the input is dropped.
pub open spec fn lex_spec(rest: Seq<char>, buf: Seq<char>, acc: Seq<TokenModel>) -> Result<
    Seq<TokenModel>,
    ErrorModel,
>
    decreases rest.len(),
{
    if rest.len() == 0 {
        Ok(acc)
    } else {
        let c = rest[0];
        let rest2 = rest.drop_first();
        if is_space_char(c) {
            lex_spec(rest2, buf, acc)
        } else {
            let b2 = buf.push(c);
            if kw_complete(b2) {
                lex_spec(rest2, Seq::empty(), acc.push(TokenModel::Key(b2)))
            } else if kw_viable(b2) {
                lex_spec(rest2, b2, acc)
            } else {
                match replay_all(b2) {
                    Ok(ts) => lex_spec(rest2, Seq::empty(), acc + ts),
                    Err(e) => Err(e),
                }
            }
        }
    }
}

/// What tokenizing a whole source string yields.
pub open spec fn tokenize_spec(src: Seq<char>) -> Result<Seq<TokenModel>, ErrorModel> {
    lex_spec(src, Seq::empty(), Seq::empty())
}

/// Characters as trie symbols.
pub open spec fn syms(s: Seq<char>) -> Seq<u32> {
    s.map_values(|c: char| c as u32)
}

/// Equal symbol sequences come from equal character sequences: the
/// cast is injective.
pub proof fn lemma_syms_eq(a: Seq<char>, b: Seq<char>)
    ensures
        (syms(a) == syms(b)) <==> (a == b),
{
    if syms(a) == syms(b) {
        assert(syms(a).len() == a.len());
        assert(syms(b).len() == b.len());
        assert forall|i: int| 0 <= i < a.len() implies a[i] == b[i] by {
            assert(syms(a)[i] == syms(b)[i]);
            assert(a[i] as u32 == b[i] as u32);
            vstd::utf8::char_u32_cast(a[i], a[i] as u32);
            vstd::utf8::char_u32_cast(b[i], b[i] as u32);
        }
        assert(a =~= b);
    }
}

/// Prefixes carry over the cast in both directions.
pub proof fn lemma_syms_prefix(a: Seq<char>, b: Seq<char>)
    ensures
        syms(a).is_prefix_of(syms(b)) <==> a.is_prefix_of(b),
{
    if syms(a).is_prefix_of(syms(b)) {
        assert(syms(a).len() == a.len() && syms(b).len() == b.len());
        assert forall|i: int| 0 <= i < a.len() implies a[i] == b[i] by {
            assert(syms(a)[i] == syms(b).subrange(0, syms(a).len() as int)[i]);
            assert(syms(b).subrange(0, syms(a).len() as int)[i] == syms(b)[i]);
            assert(a[i] as u32 == b[i] as u32);
            vstd::utf8::char_u32_cast(a[i], a[i] as u32);
            vstd::utf8::char_u32_cast(b[i], b[i] as u32);
        }
        assert(a =~= b.subrange(0, a.len() as int));
    }
    if a.is_prefix_of(b) {
        assert(syms(a) =~= syms(b).subrange(0, syms(a).len() as int));
    }
}

/// The characters of a string slice as trie symbols.
fn str_syms(s: &str) -> (r: Vec<u32>)
    ensures
        r@ == syms(s@),
{
    let n = s.unicode_len();
    let mut out: Vec<u32> = Vec::new();
    let mut i: usize = 0;
    while i < n
        invariant
            i <= n,
            n == s@.len(),
            out@.len() == i,
            forall|j: int| 0 <= j < i ==> out@[j] == s@[j] as u32,
        decreases n - i,
    {
        let c = s.get_char(i);
        out.push(c as u32);
        i = i + 1;
    }
    proof {
        assert(out@ =~= syms(s@));
    }
    out
}

/// Relies on String::push: appends exactly the given character to the
/// end of the string.
#[verifier::external_body]
fn push_char(s: &mut String, c: char)
    ensures
        final(s)@ == old(s)@.push(c),
{
    s.push(c);
}

/// A string of exactly one character.
fn char_string(c: char) -> (r: String)
    ensures
        r@ == seq![c],
{
    let mut s = String::new();
    push_char(&mut s, c);
    proof {
        assert(s@ =~= seq![c]);
    }
    s
}

/// The lexer: a trie over the characters of the reserved words, kept
/// across calls.
pub struct Lexer {
    pub words_trie: Trie<(), CharTab>,
}

impl Lexer {
    /// The word trie holds exactly the two reserved words.
    pub open spec fn wf(self) -> bool {
        &&& self.words_trie.wf()
        &&& forall|s: Seq<u32>| (#[trigger] self.words_trie.lookup(s)) is Some <==> (s == syms(
            "Ctrl"@,
        ) || s == syms("Space"@))
    }

    /// Builds the lexer by inserting the reserved words into a fresh
    /// trie.
    pub fn new() -> (r: Self)
        ensures
            r.wf(),
    {
        let mut words_trie: Trie<(), CharTab> = Trie::new();
        let ctrl = str_syms("Ctrl");
        words_trie.insert(&ctrl, ());
        let space = str_syms("Space");
        words_trie.insert(&space, ());
        proof {
            assert(syms("Ctrl"@).len() == 4 && syms("Space"@).len() == 5) by {
                reveal_strlit("Ctrl");
                reveal_strlit("Space");
            }
        }
        Lexer { words_trie }
    }

    /// Tokenizes a source string, yielding exactly what the lexing
    /// state machine [`tokenize_spec`] yields.
    pub fn tokenize(&self, src: &str) -> (r: Result<Vec<Token>, Error>)
        requires
            self.wf(),
        ensures
            match r {
                Ok(toks) => tokenize_spec(src@) == Ok::<Seq<TokenModel>, ErrorModel>(
                    tokens_model(toks@),
                ),
                Err(e) => tokenize_spec(src@) == Err::<Seq<TokenModel>, ErrorModel>(err_model(e)),
            },
    {
        let n = src.unicode_len();
        let mut tokens: Vec<Token> = Vec::new();
        let mut word_chars: Vec<char> = Vec::new();
        let mut cursor = TrieCursor::Start;
        let mut i: usize = 0;
        proof {
            assert(src@.skip(0) =~= src@);
            assert(tokens_model(tokens@) =~= Seq::<TokenModel>::empty());
        }
        while i < n
            invariant
                self.wf(),
                n == src@.len(),
                i <= n,
                tokenize_spec(src@) == lex_spec(
                    src@.skip(i as int),
                    word_chars@,
                    tokens_model(tokens@),
                ),
                self.words_trie.cursor_wf(cursor),
                !(cursor is NoMatch),
                cursor is Start <==> word_chars@.len() == 0,
                word_chars@.len() > 0 ==> self.words_trie.node_at(0, syms(word_chars@)) == Some(
                    Trie::<(), CharTab>::cursor_node(cursor),
                ),
                word_chars@.len() > 0 ==> kw_viable(word_chars@) && !kw_complete(word_chars@),
            decreases n - i,
        {
            let ghost buf = word_chars@;
            let ghost rest = src@.skip(i as int);
            let c = src.get_char(i);
            proof {
                assert(rest[0] == src@[i as int]);
                assert(rest.drop_first() =~= src@.skip(i as int + 1));
            }
            if is_space(c) {
                proof {
                    assert(rest.len() > 0);
                    assert(lex_spec(rest, buf, tokens_model(tokens@)) == lex_spec(
                        rest.drop_first(),
                        buf,
                        tokens_model(tokens@),
                    ));
                }
                i = i + 1;
                continue ;
            }
            let ghost b2 = buf.push(c);
            let new_cursor = self.words_trie.advance(cursor, c as u32);
            word_chars.push(c);
            proof {
                assert(syms(b2) =~= syms(buf).push(c as u32));
                assert(self.words_trie.node_at(0, syms(buf)) == Some(
                    Trie::<(), CharTab>::cursor_node(cursor),
                )) by {
                    if buf.len() == 0 {
                        assert(syms(buf) =~= Seq::<u32>::empty());
                    }
                }
                self.words_trie.lemma_node_at_snoc(0, syms(buf), c as u32);
                self.words_trie.lemma_reachable_iff_prefix(syms(b2));
                assert(syms(b2).len() > 0);
                // a live node means the buffer is a prefix of a keyword
                if self.words_trie.node_at(0, syms(b2)) is Some {
                    let k = choose|k: Seq<u32>|
                        (#[trigger] self.words_trie.lookup(k)) is Some && syms(b2).is_prefix_of(k);
                    if k == syms("Ctrl"@) {
                        lemma_syms_prefix(b2, "Ctrl"@);
                    } else {
                        lemma_syms_prefix(b2, "Space"@);
                    }
                    assert(kw_viable(b2));
                }
                if kw_viable(b2) {
                    assert(self.words_trie.lookup(syms("Ctrl"@)) is Some);
                    assert(self.words_trie.lookup(syms("Space"@)) is Some);
                    if b2.is_prefix_of("Ctrl"@) {
                        lemma_syms_prefix(b2, "Ctrl"@);
                        assert(syms(b2).is_prefix_of(syms("Ctrl"@)));
                    } else {
                        lemma_syms_prefix(b2, "Space"@);
                        assert(syms(b2).is_prefix_of(syms("Space"@)));
                    }
                    assert(self.words_trie.node_at(0, syms(b2)) is Some);
                }
                // a value at the node means the buffer is a whole keyword
                lemma_syms_eq(b2, "Ctrl"@);
                lemma_syms_eq(b2, "Space"@);
                assert(self.words_trie.lookup(syms(b2)) is Some <==> kw_complete(b2));
            }
            match new_cursor {
                TrieCursor::Match { idx: _, is_partial } => {
                    if is_partial {
                        cursor = new_cursor;
                        proof {
                            assert(kw_viable(b2) && !kw_complete(b2));
                            assert(lex_spec(rest, buf, tokens_model(tokens@)) == lex_spec(
                                rest.drop_first(),
                                b2,
                                tokens_model(tokens@),
                            ));
                        }
                    } else {
                        // a reserved word is complete; which one, the
                        // length says
                        proof {
                            assert(kw_complete(b2));
                            assert(b2.len() == word_chars@.len());
                            assert("Ctrl"@.len() == 4 && "Space"@.len() == 5) by {
                                reveal_strlit("Ctrl");
                                reveal_strlit("Space");
                            }
                        }
                        let word: String = if word_chars.len() == 4 {
                            String::from_str("Ctrl")
                        } else {
                            String::from_str("Space")
                        };
                        proof {
                            assert(word@ == b2);
                        }
                        let ghost toks0 = tokens@;
                        tokens.push(Token::Key(word));
                        cursor = TrieCursor::Start;
                        word_chars.clear();
                        proof {
                            assert(tokens_model(tokens@) =~= tokens_model(toks0).push(
                                TokenModel::Key(b2),
                            ));
                            assert(lex_spec(rest, buf, tokens_model(toks0)) == lex_spec(
                                rest.drop_first(),
                                Seq::<char>::empty(),
                                tokens_model(toks0).push(TokenModel::Key(b2)),
                            ));
                        }
                    }
                },
                _ => {
                    proof {
                        assert(new_cursor is NoMatch);
                        assert(!kw_viable(b2));
                    }
                    cursor = TrieCursor::Start;
                    let mut j: usize = 0;
                    proof {
                        assert(b2.skip(0) =~= b2);
                        assert(rest.len() > 0 && !is_space_char(rest[0]) && !kw_complete(b2)
                            && !kw_viable(b2));
                        assert(lex_spec(rest, buf, tokens_model(tokens@)) == (match replay_all(b2) {
                            Ok(ts) => lex_spec(
                                rest.drop_first(),
                                Seq::<char>::empty(),
                                tokens_model(tokens@) + ts,
                            ),
                            Err(e) => Err::<Seq<TokenModel>, ErrorModel>(e),
                        }));
                    }
                    while j < word_chars.len()
                        invariant
                            j <= word_chars@.len(),
                            word_chars@ == b2,
                            tokenize_spec(src@) == (match replay_all(b2.skip(j as int)) {
                                Ok(ts) => lex_spec(
                                    src@.skip(i as int + 1),
                                    Seq::<char>::empty(),
                                    tokens_model(tokens@) + ts,
                                ),
                                Err(e) => Err::<Seq<TokenModel>, ErrorModel>(e),
                            }),
                        decreases word_chars@.len() - j,
                    {
                        let wc = word_chars[j];
                        let ghost tail = b2.skip(j as int);
                        proof {
                            assert(tail[0] == b2[j as int]);
                            assert(tail.drop_first() =~= b2.skip(j as int + 1));
                        }
                        let u = wc as u32;
                        let ghost toks0 = tokens@;
                        if wc == '-' {
                            tokens.push(Token::Dash);
                            proof {
                                let tm = TokenModel::Dash;
                                let acc_prev = tokens_model(toks0);
                                assert(tokens_model(tokens@) =~= acc_prev.push(tm));
                                assert(replay_char(b2[j as int]) == Some(tm));
                                match replay_all(tail.drop_first()) {
                                    Ok(ts2) => {
                                        assert(replay_all(tail) == Ok::<
                                            Seq<TokenModel>,
                                            ErrorModel,
                                        >(seq![tm] + ts2));
                                        assert(acc_prev + (seq![tm] + ts2) =~= tokens_model(
                                            tokens@,
                                        ) + ts2);
                                        assert(replay_all(b2.skip(j as int + 1)) == Ok::<
                                            Seq<TokenModel>,
                                            ErrorModel,
                                        >(ts2));
                                    },
                                    Err(e2) => {
                                        assert(replay_all(tail) == Err::<
                                            Seq<TokenModel>,
                                            ErrorModel,
                                        >(e2));
                                        assert(replay_all(b2.skip(j as int + 1)) == Err::<
                                            Seq<TokenModel>,
                                            ErrorModel,
                                        >(e2));
                                    },
                                }
                            }
                        } else if (97 <= u && u <= 122) || (48 <= u && u <= 57) {
                            let t = Token::Key(char_string(wc));
                            tokens.push(t);
                            proof {
                                let tm = TokenModel::Key(seq![b2[j as int]]);
                                let acc_prev = tokens_model(toks0);
                                assert(tokens_model(tokens@) =~= acc_prev.push(tm));
                                assert(replay_char(b2[j as int]) == Some(tm));
                                match replay_all(tail.drop_first()) {
                                    Ok(ts2) => {
                                        assert(replay_all(tail) == Ok::<
                                            Seq<TokenModel>,
                                            ErrorModel,
                                        >(seq![tm] + ts2));
                                        assert(acc_prev + (seq![tm] + ts2) =~= tokens_model(
                                            tokens@,
                                        ) + ts2);
                                        assert(replay_all(b2.skip(j as int + 1)) == Ok::<
                                            Seq<TokenModel>,
                                            ErrorModel,
                                        >(ts2));
                                    },
                                    Err(e2) => {
                                        assert(replay_all(tail) == Err::<
                                            Seq<TokenModel>,
                                            ErrorModel,
                                        >(e2));
                                        assert(replay_all(b2.skip(j as int + 1)) == Err::<
                                            Seq<TokenModel>,
                                            ErrorModel,
                                        >(e2));
                                    },
                                }
                            }
                        } else {
                            proof {
                                assert(replay_char(b2[j as int]) is None);
                                assert(replay_all(b2.skip(j as int)) == Err::<
                                    Seq<TokenModel>,
                                    ErrorModel,
                                >(ErrorModel::UnexpectedChar(b2[j as int])));
                            }
                            return Err(Error::UnexpectedChar(wc));
                        }
                        j = j + 1;
                    }
                    proof {
                        assert(b2.skip(b2.len() as int) =~= Seq::<char>::empty());
                        assert(replay_all(Seq::<char>::empty()) == Ok::<
                            Seq<TokenModel>,
                            ErrorModel,
                        >(Seq::<TokenModel>::empty()));
                        assert(tokens_model(tokens@) + Seq::<TokenModel>::empty() =~= tokens_model(
                            tokens@,
                        ));
                    }
                    word_chars.clear();
                },
            }
            i = i + 1;
        }
        proof {
            assert(src@.skip(n as int) =~= Seq::<char>::empty());
        }
        Ok(tokens)
    }
}

} // verus!
