use vstd::prelude::*;

use crate::errors::CodecError;
use crate::lz77::Token;

verus! {

/// Number of symbols that encode one token. Decoding consumes symbols in
/// groups of exactly this many, in production order.
pub const TOKEN_WIDTH: usize = 3;

/// The three symbols of one token: an offset field, a length field, and a
/// literal byte field. A literal is the `(0, 0, byte)` sentinel; a match is
/// `(offset, length, 0)` with both numeric fields at least 1, so the two
/// shapes cannot be confused.
pub open spec fn syms_of_token(t: Token) -> Seq<u16> {
    match t {
        Token::Literal(b) => seq![0u16, 0u16, b as u16],
        Token::Match { offset, length } => seq![offset, length, 0u16],
    }
}

/// The flat symbol sequence of a token sequence.
pub open spec fn spec_symbols(ts: Seq<Token>) -> Seq<u16>
    decreases ts.len(),
{
    if ts.len() == 0 {
        Seq::empty()
    } else {
        spec_symbols(ts.drop_last()) + syms_of_token(ts.last())
    }
}

/// A token can be recovered from its symbols only if its numeric fields obey
/// the sentinel rule: a match carries a nonzero offset and length.
pub open spec fn token_encodable(t: Token) -> bool {
    match t {
        Token::Literal(_) => true,
        Token::Match { offset, length } => offset >= 1 && length >= 1,
    }
}

/// Read one token back from a group of three symbols. `None` is a group that
/// no token produces.
pub open spec fn token_of_syms(a: u16, b: u16, c: u16) -> Option<Token> {
    if a == 0 && b == 0 && c <= 255 {
        Some(Token::Literal(c as u8))
    } else if a >= 1 && b >= 1 && c == 0 {
        Some(Token::Match { offset: a, length: b })
    } else {
        None
    }
}

/// Parse a symbol sequence back into tokens, three symbols at a time.
/// `None` covers both a length that is not a multiple of three and a group
/// that no token produces.
pub open spec fn spec_parse_tokens(syms: Seq<u16>) -> Option<Seq<Token>>
    decreases syms.len(),
{
    if syms.len() % 3 != 0 {
        None
    } else if syms.len() == 0 {
        Some(Seq::empty())
    } else {
        match token_of_syms(syms[0], syms[1], syms[2]) {
            Some(t) => match spec_parse_tokens(syms.skip(3)) {
                Some(ts) => Some(seq![t] + ts),
                None => None,
            },
            None => None,
        }
    }
}

/// `o` with `pre` prepended to its contents, when it has any.
pub open spec fn opt_prepend_tokens(pre: Seq<Token>, o: Option<Seq<Token>>) -> Option<
    Seq<Token>,
> {
    match o {
        Some(rest) => Some(pre + rest),
        None => None,
    }
}

/// `spec_symbols` taken from the front: the first token's symbols, then the
/// rest.
pub proof fn lemma_symbols_first(ts: Seq<Token>)
    requires
        ts.len() >= 1,
    ensures
        spec_symbols(ts) == syms_of_token(ts[0]) + spec_symbols(ts.drop_first()),
    decreases ts.len(),
{
    if ts.len() == 1 {
        assert(ts.drop_last() =~= Seq::<Token>::empty());
        assert(ts.drop_first() =~= Seq::<Token>::empty());
        assert(spec_symbols(ts) =~= syms_of_token(ts[0]) + spec_symbols(ts.drop_first()));
    } else {
        lemma_symbols_first(ts.drop_last());
        assert(ts.drop_last()[0] == ts[0]);
        assert(ts.drop_last().drop_first() =~= ts.drop_first().drop_last());
        assert(ts.drop_first().last() == ts.last());
        assert(spec_symbols(ts) == spec_symbols(ts.drop_last()) + syms_of_token(ts.last()));
        assert(spec_symbols(ts.drop_first()) == spec_symbols(ts.drop_first().drop_last())
            + syms_of_token(ts.last()));
        assert(spec_symbols(ts) =~= syms_of_token(ts[0]) + spec_symbols(ts.drop_first()));
    }
}

/// The token codec is lossless: parsing the symbols of an encodable token
/// sequence gives the sequence back.
pub proof fn lemma_parse_symbols_round_trip(ts: Seq<Token>)
    requires
        forall|k: int| 0 <= k < ts.len() ==> token_encodable(#[trigger] ts[k]),
    ensures
        spec_parse_tokens(spec_symbols(ts)) == Some(ts),
    decreases ts.len(),
{
    if ts.len() == 0 {
        assert(spec_symbols(ts).len() == 0);
    } else {
        lemma_symbols_first(ts);
        let syms = spec_symbols(ts);
        let rest = spec_symbols(ts.drop_first());
        assert(syms == syms_of_token(ts[0]) + rest);
        lemma_symbols_len(ts.drop_first());
        assert(syms.len() == 3 + rest.len());
        assert(syms.len() % 3 == 0) by {
            lemma_symbols_len(ts);
        }
        assert(syms[0] == syms_of_token(ts[0])[0]);
        assert(syms[1] == syms_of_token(ts[0])[1]);
        assert(syms[2] == syms_of_token(ts[0])[2]);
        assert(token_of_syms(syms[0], syms[1], syms[2]) == Some(ts[0]));
        assert(syms.skip(3) =~= rest);
        assert forall|k: int| 0 <= k < ts.drop_first().len() implies token_encodable(
            #[trigger] ts.drop_first()[k],
        ) by {
            assert(ts.drop_first()[k] == ts[k + 1]);
        }
        lemma_parse_symbols_round_trip(ts.drop_first());
        assert(seq![ts[0]] + ts.drop_first() =~= ts);
    }
}

/// The symbol sequence of `ts` has exactly three symbols per token.
pub proof fn lemma_symbols_len(ts: Seq<Token>)
    ensures
        spec_symbols(ts).len() == 3 * ts.len(),
    decreases ts.len(),
{
    if ts.len() > 0 {
        lemma_symbols_len(ts.drop_last());
    }
}

/// Flatten tokens into their symbol sequence.
#[verifier::loop_isolation(false)]
pub fn tokens_to_symbols(tokens: &Vec<Token>) -> (syms: Vec<u16>)
    ensures
        syms@ == spec_symbols(tokens@),
{
    let mut syms: Vec<u16> = Vec::new();
    let mut k: usize = 0;
    while k < tokens.len()
        invariant
            k <= tokens.len(),
            syms@ == spec_symbols(tokens@.take(k as int)),
        decreases tokens.len() - k,
    {
        proof {
            assert(tokens@.take(k + 1).drop_last() =~= tokens@.take(k as int));
            assert(tokens@.take(k + 1).last() == tokens@[k as int]);
        }
        match tokens[k] {
            Token::Literal(b) => {
                syms.push(0);
                syms.push(0);
                syms.push(b as u16);
            },
            Token::Match { offset, length } => {
                syms.push(offset);
                syms.push(length);
                syms.push(0);
            },
        }
        proof {
            assert(syms@ =~= spec_symbols(tokens@.take(k + 1)));
        }
        k += 1;
    }
    proof {
        assert(tokens@.take(tokens@.len() as int) =~= tokens@);
    }
    syms
}

/// Recover the token sequence from a flat symbol sequence.
///
/// Fails with `TokenMisalignment` when the symbol count is not a multiple of
/// the token width, and with `CorruptStream` when a group of three symbols
/// is one that no token produces.
#[verifier::loop_isolation(false)]
pub fn symbols_to_tokens(syms: &Vec<u16>) -> (r: Result<Vec<Token>, CodecError>)
    ensures
        match r {
            Ok(ts) => spec_parse_tokens(syms@) == Some(ts@),
            Err(e) => {
                &&& spec_parse_tokens(syms@) is None
                &&& e == (if syms@.len() % 3 != 0 {
                    CodecError::TokenMisalignment
                } else {
                    CodecError::CorruptStream
                })
            },
        },
{
    if syms.len() % TOKEN_WIDTH != 0 {
        return Err(CodecError::TokenMisalignment);
    }
    let mut tokens: Vec<Token> = Vec::new();
    let mut i: usize = 0;
    proof {
        assert(syms@.skip(0) =~= syms@);
        if spec_parse_tokens(syms@) is Some {
            assert(Seq::<Token>::empty() + spec_parse_tokens(syms@)->Some_0 =~= spec_parse_tokens(
                syms@,
            )->Some_0);
        }
    }
    while i < syms.len()
        invariant
            i <= syms.len(),
            i % 3 == 0,
            syms.len() % 3 == 0,
            spec_parse_tokens(syms@) == opt_prepend_tokens(
                tokens@,
                spec_parse_tokens(syms@.skip(i as int)),
            ),
        decreases syms.len() - i,
    {
        let ghost tail = syms@.skip(i as int);
        proof {
            assert(tail.len() % 3 == 0);
            assert(tail.len() >= 3);
            assert(tail[0] == syms@[i as int]);
            assert(tail[1] == syms@[i + 1]);
            assert(tail[2] == syms@[i + 2]);
            assert(tail.skip(3) =~= syms@.skip(i + 3));
        }
        let a = syms[i];
        let b = syms[i + 1];
        let c = syms[i + 2];
        let t: Token;
        if a == 0 && b == 0 && c <= 255 {
            t = Token::Literal(c as u8);
        } else if a >= 1 && b >= 1 && c == 0 {
            t = Token::Match { offset: a, length: b };
        } else {
            return Err(CodecError::CorruptStream);
        }
        let ghost prev = tokens@;
        tokens.push(t);
        proof {
            assert(token_of_syms(tail[0], tail[1], tail[2]) == Some(t));
            if spec_parse_tokens(syms@.skip(i + 3)) is Some {
                let rest = spec_parse_tokens(syms@.skip(i + 3))->Some_0;
                assert(prev + (seq![t] + rest) =~= tokens@ + rest);
            }
        }
        i += 3;
    }
    proof {
        assert(syms@.skip(syms@.len() as int) =~= Seq::<u16>::empty());
        assert(tokens@ + Seq::<Token>::empty() =~= tokens@);
    }
    Ok(tokens)
}

} // verus!
