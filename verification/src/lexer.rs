//! The lexer: finds the operators in a source text. Every other byte is a
//! comment.

use vstd::prelude::*;
use crate::ast::{OP_RIGHT, OP_LEFT, OP_PLUS, OP_MINUS, OP_OUTPUT, OP_INPUT, OP_OPEN, OP_CLOSE, is_op, ops_only, depth};

verus! {

/// One of the eight operators, or the end of the text.
#[derive(Clone, Copy, Debug, PartialEq, Eq, Structural)]
pub enum Token {
    Right,
    Left,
    Plus,
    Minus,
    Output,
    Input,
    Open,
    Close,
    End,
}

/// The operator that a byte stands for, or `None` for a byte of a
/// comment.
pub open spec fn token_of(b: u8) -> Option<Token> {
    if b == OP_RIGHT {
        Some(Token::Right)
    } else if b == OP_LEFT {
        Some(Token::Left)
    } else if b == OP_PLUS {
        Some(Token::Plus)
    } else if b == OP_MINUS {
        Some(Token::Minus)
    } else if b == OP_OUTPUT {
        Some(Token::Output)
    } else if b == OP_INPUT {
        Some(Token::Input)
    } else if b == OP_OPEN {
        Some(Token::Open)
    } else if b == OP_CLOSE {
        Some(Token::Close)
    } else {
        None
    }
}

/// The token `tok` at position `pos` is the first at or after `from`: the
/// bytes from `from` up to `pos` are comments, and `pos` holds the
/// operator `tok`, or is the end of the text where `tok` is `End`.
pub open spec fn first_token(s: Seq<u8>, from: int, tok: Token, pos: int) -> bool {
    &&& from <= pos <= s.len()
    &&& forall|j: int| from <= j < pos ==> !is_op(#[trigger] s[j])
    &&& if pos == s.len() {
        tok == Token::End
    } else {
        token_of(s[pos]) == Some(tok)
    }
}

/// Gives the operator that a byte stands for.
pub fn classify(b: u8) -> (r: Option<Token>)
    ensures
        r == token_of(b),
        r is Some <==> is_op(b),
        r != Some(Token::End),
{
    if b == OP_RIGHT {
        Some(Token::Right)
    } else if b == OP_LEFT {
        Some(Token::Left)
    } else if b == OP_PLUS {
        Some(Token::Plus)
    } else if b == OP_MINUS {
        Some(Token::Minus)
    } else if b == OP_OUTPUT {
        Some(Token::Output)
    } else if b == OP_INPUT {
        Some(Token::Input)
    } else if b == OP_OPEN {
        Some(Token::Open)
    } else if b == OP_CLOSE {
        Some(Token::Close)
    } else {
        None
    }
}

/// Gives the first token of `src` at or after position `from`, and where
/// it stands.
pub fn next_token(src: &[u8], from: usize) -> (r: (Token, usize))
    requires
        from <= src@.len(),
    ensures
        first_token(src@, from as int, r.0, r.1 as int),
{
    let mut pos: usize = from;
    while pos < src.len()
        invariant
            from <= pos <= src@.len(),
            forall|j: int| from <= j < pos ==> !is_op(#[trigger] src@[j]),
        decreases src.len() - pos,
    {
        match classify(src[pos]) {
            Some(tok) => {
                return (tok, pos);
            },
            None => {},
        }
        pos += 1;
    }
    (Token::End, pos)
}

/// Comments neither open nor close a bracket and add no operator.
pub proof fn lemma_comments(s: Seq<u8>, from: int, pos: int)
    requires
        0 <= from <= pos <= s.len(),
        forall|j: int| from <= j < pos ==> !is_op(#[trigger] s[j]),
    ensures
        depth(s.take(pos)) == depth(s.take(from)),
        ops_only(s.take(pos)) == ops_only(s.take(from)),
    decreases pos - from,
{
    if from < pos {
        lemma_comments(s, from, pos - 1);
        assert(s.take(pos).drop_last() =~= s.take(pos - 1));
        assert(!is_op(s[pos - 1]));
    }
}

} // verus!
