//! The parser for the keybinding language: groups a token stream into
//! chords using dash adjacency, yielding a sequence of chords.
//!
//! A dash is only valid right after a key and says that the next key
//! joins the current chord; a key right after another key starts a new
//! chord; a leading or doubled dash is a parse error.

use vstd::prelude::*;
use crate::chord::Chord;
use crate::chord::is_sym_char;
use crate::error::Error;
use crate::error::ErrorModel;
use crate::error::err_model;
use crate::lexer::Token;
use crate::lexer::TokenModel;
use crate::lexer::token_model;
use crate::lexer::tokens_model;
use crate::lexer::tokenize_spec;
use crate::lexer::is_space_char;
use crate::lexer::kw_complete;
use crate::lexer::kw_viable;
use crate::lexer::replay_all;
use crate::lexer::replay_char;
use crate::lexer::lex_spec;

verus! {

/// A list of chords that must be pressed one after another: the unit a
/// binding maps to an action.
#[derive(Debug, PartialEq)]
pub struct Sequence(pub Vec<Chord>);

impl View for Sequence {
    type V = Seq<Seq<Seq<char>>>;

    open spec fn view(&self) -> Seq<Seq<Seq<char>>> {
        self.0.deep_view()
    }
}

/// The parser as a state machine over the remaining tokens, the chords
/// already finished, the keys of the chord being built, and whether the
/// last token was a dash (initially true, so the first token must be a
/// key). At the end of input a non-empty pending chord is finished.
pub open spec fn parse_rec(
    toks: Seq<TokenModel>,
    chords: Seq<Seq<Seq<char>>>,
    keys: Seq<Seq<char>>,
    saw_dash: bool,
) -> Result<Seq<Seq<Seq<char>>>, ErrorModel>
    decreases toks.len(),
{
    if toks.len() == 0 {
        Ok(
            if keys.len() > 0 {
                chords.push(keys)
            } else {
                chords
            },
        )
    } else {
        match toks[0] {
            TokenModel::Key(k) => if saw_dash {
                parse_rec(toks.drop_first(), chords, keys.push(k), false)
            } else {
                parse_rec(toks.drop_first(), chords.push(keys), seq![k], false)
            },
            TokenModel::Dash => if saw_dash {
                Err(ErrorModel::UnexpectedDash)
            } else {
                parse_rec(toks.drop_first(), chords, keys, true)
            },
        }
    }
}

/// What parsing a whole token stream yields.
pub open spec fn parse_spec(toks: Seq<TokenModel>) -> Result<Seq<Seq<Seq<char>>>, ErrorModel> {
    parse_rec(toks, Seq::empty(), Seq::empty(), true)
}

/// Groups a token stream into a sequence of chords, yielding exactly
/// what the grouping state machine [`parse_spec`] yields.
pub fn parse(tokens: Vec<Token>) -> (r: Result<Sequence, Error>)
    ensures
        match r {
            Ok(s) => parse_spec(tokens_model(tokens@)) == Ok::<Seq<Seq<Seq<char>>>, ErrorModel>(
                s@,
            ),
            Err(e) => parse_spec(tokens_model(tokens@)) == Err::<Seq<Seq<Seq<char>>>, ErrorModel>(
                err_model(e),
            ),
        },
{
    let ghost all = tokens_model(tokens@);
    let mut chords: Vec<Chord> = Vec::new();
    let mut keys: Vec<String> = Vec::new();
    let mut saw_dash = true;
    let mut idx: usize = 0;
    proof {
        assert(all.skip(0) =~= all);
        assert(chords.deep_view() =~= Seq::<Seq<Seq<char>>>::empty());
        assert(keys.deep_view() =~= Seq::<Seq<char>>::empty());
    }
    while idx < tokens.len()
        invariant
            idx <= tokens@.len(),
            all == tokens_model(tokens@),
            parse_spec(all) == parse_rec(
                all.skip(idx as int),
                chords.deep_view(),
                keys.deep_view(),
                saw_dash,
            ),
        decreases tokens@.len() - idx,
    {
        let ghost rest = all.skip(idx as int);
        proof {
            assert(rest[0] == all[idx as int]);
            assert(all[idx as int] == token_model(tokens@[idx as int]));
            assert(rest.drop_first() =~= all.skip(idx as int + 1));
        }
        let t = &tokens[idx];
        match t {
            Token::Key(key) => {
                if saw_dash {
                    let ghost keys0 = keys.deep_view();
                    keys.push(key.clone());
                    saw_dash = false;
                    proof {
                        assert(keys.deep_view() =~= keys0.push(key@));
                    }
                } else {
                    let done = keys;
                    keys = Vec::new();
                    keys.push(key.clone());
                    let ghost chords0 = chords.deep_view();
                    chords.push(Chord(done));
                    proof {
                        assert(chords.deep_view() =~= chords0.push(
                            chords@[chords@.len() - 1].view(),
                        ));
                        assert(keys.deep_view() =~= seq![key@]);
                    }
                }
            },
            Token::Dash => {
                if saw_dash {
                    return Err(Error::UnexpectedDash);
                } else {
                    saw_dash = true;
                }
            },
        }
        idx = idx + 1;
    }
    proof {
        assert(all.skip(all.len() as int) =~= Seq::<TokenModel>::empty());
    }
    if keys.len() > 0 {
        let ghost chords0 = chords.deep_view();
        chords.push(Chord(keys));
        proof {
            assert(chords.deep_view() =~= chords0.push(chords@[chords@.len() - 1].view()));
        }
        return Ok(Sequence(chords));
    }
    Ok(Sequence(chords))
}

/// The tokens of a string of bare symbols: one `Key` per character.
pub open spec fn single_key_tokens(src: Seq<char>) -> Seq<TokenModel> {
    src.map_values(|c: char| TokenModel::Key(seq![c]))
}

/// The chords of a string of bare symbols: one one-key chord per
/// character.
pub open spec fn single_chords(src: Seq<char>) -> Seq<Seq<Seq<char>>> {
    src.map_values(|c: char| seq![seq![c]])
}

/// Tokenizing a string of bare symbols yields one key token per
/// character, whatever has been emitted before.
proof fn lemma_lex_all_syms(rest: Seq<char>, acc: Seq<TokenModel>)
    requires
        forall|i: int| 0 <= i < rest.len() ==> is_sym_char(#[trigger] rest[i]),
    ensures
        lex_spec(rest, Seq::empty(), acc) == Ok::<Seq<TokenModel>, ErrorModel>(
            acc + single_key_tokens(rest),
        ),
    decreases rest.len(),
{
    reveal_strlit("Ctrl");
    reveal_strlit("Space");
    if rest.len() == 0 {
        assert(acc + single_key_tokens(rest) =~= acc);
    } else {
        let c = rest[0];
        let b2 = Seq::<char>::empty().push(c);
        assert(!is_space_char(c));
        assert(!kw_complete(b2)) by {
            assert(b2.len() == 1);
        }
        assert(!kw_viable(b2)) by {
            if b2.is_prefix_of("Ctrl"@) {
                assert(b2[0] == "Ctrl"@.subrange(0, 1)[0]);
                assert(c == 'C');
            }
            if b2.is_prefix_of("Space"@) {
                assert(b2[0] == "Space"@.subrange(0, 1)[0]);
                assert(c == 'S');
            }
        }
        let tm = TokenModel::Key(seq![c]);
        assert(b2[0] == c);
        assert(replay_char(c) == Some(tm));
        assert(b2.drop_first() =~= Seq::<char>::empty());
        assert(replay_all(Seq::<char>::empty()) == Ok::<Seq<TokenModel>, ErrorModel>(
            Seq::empty(),
        ));
        assert(replay_all(b2) == Ok::<Seq<TokenModel>, ErrorModel>(seq![tm] + Seq::empty()));
        assert(seq![tm] + Seq::<TokenModel>::empty() =~= seq![tm]);
        lemma_lex_all_syms(rest.drop_first(), acc + seq![tm]);
        assert((acc + seq![tm]) + single_key_tokens(rest.drop_first()) =~= acc + single_key_tokens(
            rest,
        )) by {
            assert(single_key_tokens(rest.drop_first()) =~= single_key_tokens(rest).drop_first());
        }
    }
}

/// Parsing key tokens with a chord already pending finishes that chord
/// and then one one-key chord per remaining token.
proof fn lemma_parse_singles(rest: Seq<char>, chords: Seq<Seq<Seq<char>>>, keys: Seq<Seq<char>>)
    requires
        keys.len() > 0,
    ensures
        parse_rec(single_key_tokens(rest), chords, keys, false) == Ok::<
            Seq<Seq<Seq<char>>>,
            ErrorModel,
        >(chords.push(keys) + single_chords(rest)),
    decreases rest.len(),
{
    if rest.len() == 0 {
        assert(chords.push(keys) + single_chords(rest) =~= chords.push(keys));
    } else {
        let c = rest[0];
        let toks = single_key_tokens(rest);
        assert(toks[0] == TokenModel::Key(seq![c]));
        assert(toks.drop_first() =~= single_key_tokens(rest.drop_first()));
        lemma_parse_singles(rest.drop_first(), chords.push(keys), seq![seq![c]]);
        assert(chords.push(keys).push(seq![seq![c]]) + single_chords(rest.drop_first())
            =~= chords.push(keys) + single_chords(rest)) by {
            assert(single_chords(rest.drop_first()) =~= single_chords(rest).drop_first());
        }
    }
}

/// Law: round trip. Tokenizing and then parsing a binding string whose
/// chords are all single symbols reproduces those symbols, in order, as
/// one-chord sequences.
pub proof fn lemma_single_symbol_round_trip(src: Seq<char>)
    requires
        forall|i: int| 0 <= i < src.len() ==> is_sym_char(#[trigger] src[i]),
    ensures
        tokenize_spec(src) == Ok::<Seq<TokenModel>, ErrorModel>(single_key_tokens(src)),
        parse_spec(single_key_tokens(src)) == Ok::<Seq<Seq<Seq<char>>>, ErrorModel>(
            single_chords(src),
        ),
{
    lemma_lex_all_syms(src, Seq::empty());
    assert(Seq::<TokenModel>::empty() + single_key_tokens(src) =~= single_key_tokens(src));
    let toks = single_key_tokens(src);
    if src.len() == 0 {
        assert(single_chords(src) =~= Seq::<Seq<Seq<char>>>::empty());
    } else {
        let c = src[0];
        assert(toks[0] == TokenModel::Key(seq![c]));
        assert(toks.drop_first() =~= single_key_tokens(src.drop_first()));
        lemma_parse_singles(src.drop_first(), Seq::empty(), seq![seq![c]]);
        assert(Seq::<Seq<Seq<char>>>::empty().push(seq![seq![c]]) + single_chords(
            src.drop_first(),
        ) =~= single_chords(src)) by {
            assert(single_chords(src.drop_first()) =~= single_chords(src).drop_first());
        }
        assert(Seq::<Seq<char>>::empty().push(seq![c]) =~= seq![seq![c]]);
    }
}

} // verus!
