//! The parser: one scan of the source text, left to right. Every byte
//! that is not an operator is a comment.

use vstd::prelude::*;
use vstd::string::StringSliceAdditionalSpecFns;
use crate::lexer::{Token, next_token, lemma_comments};
use crate::ast::{
    Node, OP_OPEN, OP_CLOSE, is_op, ops_only, depth, never_negative, balanced, node_text, nodes_text, single_steps,
    lemma_nodes_push, lemma_balanced_projection,
};

verus! {

/// Why a text is not a program. Positions count bytes from the start of
/// the text.
#[derive(Clone, Copy, Debug, PartialEq, Eq, Structural)]
pub enum ParseError {
    /// The `]` at `position` closes a loop that was never opened.
    UnmatchedClose { position: usize },
    /// The `[` at `position` opens a loop that is never closed.
    UnmatchedOpen { position: usize },
}

/// The `]` at `p` is the first bracket of `s` without a partner: up to it
/// no beginning of `s` closes more than it has opened, and every bracket
/// before it is matched.
pub open spec fn first_unmatched_close(s: Seq<u8>, p: int) -> bool {
    &&& 0 <= p < s.len()
    &&& s[p] == OP_CLOSE
    &&& depth(s.take(p)) == 0
    &&& never_negative(s.take(p))
}

/// No `]` of `s` lacks a partner, and the `[` at `p` is the first bracket
/// without one: all before it is matched, and the loop it opens is still
/// open at every later point of the text.
pub open spec fn first_unmatched_open(s: Seq<u8>, p: int) -> bool {
    &&& never_negative(s)
    &&& 0 <= p < s.len()
    &&& s[p] == OP_OPEN
    &&& depth(s.take(p)) == 0
    &&& forall|j: int| p < j <= s.len() ==> depth(#[trigger] s.take(j)) >= 1
}

/// What parsing the text `s` has to give.
pub open spec fn parses_to(s: Seq<u8>, r: Result<Vec<Node>, ParseError>) -> bool {
    match r {
        Ok(nodes) => {
            &&& balanced(s)
            &&& nodes_text(nodes@) == ops_only(s)
            &&& single_steps(nodes@)
        },
        Err(ParseError::UnmatchedClose { position }) => first_unmatched_close(s, position as int),
        Err(ParseError::UnmatchedOpen { position }) => first_unmatched_open(s, position as int),
    }
}

/// A loop whose `]` has not been read yet: where its `[` stands, and the
/// nodes that were collected before it at the level outside.
pub struct Frame {
    pub open: usize,
    pub outer: Vec<Node>,
}

/// The text of all that lies outside the innermost open loop.
pub open spec fn frames_text(frames: Seq<Frame>) -> Seq<u8>
    decreases frames.len(),
{
    if frames.len() == 0 {
        Seq::empty()
    } else {
        frames_text(frames.drop_last()) + nodes_text(frames.last().outer@) + seq![OP_OPEN]
    }
}

/// The frame at level `k` fits the first `i` bytes of `s`.
pub open spec fn frame_ok(s: Seq<u8>, f: Frame, k: int, i: int) -> bool {
    &&& f.open < i
    &&& s[f.open as int] == OP_OPEN
    &&& depth(s.take(f.open as int)) == k
    &&& single_steps(f.outer@)
    &&& forall|j: int| f.open < j <= i ==> depth(#[trigger] s.take(j)) >= k + 1
}

proof fn lemma_take_step(s: Seq<u8>, i: int)
    requires
        0 <= i < s.len(),
    ensures
        s.take(i + 1).drop_last() == s.take(i),
        s.take(i + 1).last() == s[i],
        depth(s.take(i + 1)) == depth(s.take(i)) + if s[i] == OP_OPEN {
            1int
        } else if s[i] == OP_CLOSE {
            -1int
        } else {
            0int
        },
        ops_only(s.take(i + 1)) == if is_op(s[i]) {
            ops_only(s.take(i)).push(s[i])
        } else {
            ops_only(s.take(i))
        },
{
    assert(s.take(i + 1).drop_last() =~= s.take(i));
}

proof fn lemma_never_negative_take(s: Seq<u8>, i: int)
    requires
        0 <= i <= s.len(),
        forall|j: int| 0 <= j <= i ==> depth(#[trigger] s.take(j)) >= 0,
    ensures
        never_negative(s.take(i)),
{
    assert forall|j: int| 0 <= j <= s.take(i).len() implies depth(#[trigger] s.take(i).take(j)) >= 0 by {
        assert(s.take(i).take(j) =~= s.take(j));
    }
}

proof fn lemma_frame_skip(s: Seq<u8>, f: Frame, k: int, i: int, pos: int)
    requires
        0 <= i <= pos <= s.len(),
        frame_ok(s, f, k, i),
        depth(s.take(i)) >= k + 1,
        forall|j: int| i <= j < pos ==> !is_op(#[trigger] s[j]),
    ensures
        frame_ok(s, f, k, pos),
{
    assert forall|j: int| f.open < j <= pos implies depth(#[trigger] s.take(j)) >= k + 1 by {
        if j > i {
            lemma_comments(s, i, j);
        }
    }
}

/// Parses a text given as bytes.
pub fn parse_bytes(src: &[u8]) -> (r: Result<Vec<Node>, ParseError>)
    ensures
        parses_to(src@, r),
        r is Ok <==> balanced(src@),
        r is Ok <==> balanced(ops_only(src@)),
{
    proof {
        lemma_balanced_projection(src@);
    }
    let mut stack: Vec<Frame> = Vec::new();
    let mut cur: Vec<Node> = Vec::new();
    let mut i: usize = 0;
    proof {
        assert(src@.take(0) =~= Seq::<u8>::empty());
    }
    while i < src.len()
        invariant
            i <= src.len(),
            forall|j: int| 0 <= j <= i ==> depth(#[trigger] src@.take(j)) >= 0,
            depth(src@.take(i as int)) == stack@.len(),
            frames_text(stack@) + nodes_text(cur@) == ops_only(src@.take(i as int)),
            single_steps(cur@),
            forall|k: int| 0 <= k < stack@.len() ==> frame_ok(src@, #[trigger] stack@[k], k, i as int),
        decreases src.len() - i,
    {
        let (tok, pos) = next_token(src, i);
        proof {
            lemma_comments(src@, i as int, pos as int);
            assert forall|j: int| 0 <= j <= pos implies depth(#[trigger] src@.take(j)) >= 0 by {
                if j > i {
                    lemma_comments(src@, i as int, j);
                }
            }
            assert forall|k: int| 0 <= k < stack@.len() implies frame_ok(src@, #[trigger] stack@[k], k, pos as int) by {
                lemma_frame_skip(src@, stack@[k], k, i as int, pos as int);
            }
        }
        if pos == src.len() {
            i = pos;
        } else {
            let ghost b = src@[pos as int];
            let ghost frames = stack@;
            let ghost nodes = cur@;
            let ghost text = ops_only(src@.take(pos as int));
            proof {
                lemma_take_step(src@, pos as int);
            }
            match tok {
                Token::Open => {
                    stack.push(Frame { open: pos, outer: cur });
                    cur = Vec::new();
                    proof {
                        assert(stack@.drop_last() =~= frames);
                        assert(frames_text(stack@) + nodes_text(cur@) =~= text.push(b));
                        assert forall|k: int| 0 <= k < stack@.len() implies frame_ok(
                            src@,
                            #[trigger] stack@[k],
                            k,
                            pos as int + 1,
                        ) by {
                            if k < frames.len() {
                                assert(frame_ok(src@, frames[k], k, pos as int));
                            }
                        }
                    }
                },
                Token::Close => {
                    if stack.len() == 0 {
                        proof {
                            lemma_never_negative_take(src@, pos as int);
                            assert(depth(src@.take(pos as int + 1)) < 0);
                            lemma_balanced_projection(src@);
                        }
                        return Err(ParseError::UnmatchedClose { position: pos });
                    }
                    let frame = stack.pop().unwrap();
                    let ghost before = frame.outer@;
                    let mut outer = frame.outer;
                    outer.push(Node::Loop { body: cur });
                    cur = outer;
                    proof {
                        assert(frame_ok(src@, frames[frames.len() - 1], frames.len() - 1, pos as int));
                        lemma_nodes_push(before, cur@.last());
                        assert(cur@ =~= before.push(cur@.last()));
                        assert(node_text(cur@.last()) == seq![OP_OPEN] + nodes_text(nodes) + seq![OP_CLOSE]);
                        assert(frames_text(frames) == frames_text(stack@) + nodes_text(before) + seq![OP_OPEN]);
                        assert(frames_text(stack@) + nodes_text(cur@) =~= text.push(b));
                        assert forall|k: int| 0 <= k < stack@.len() implies frame_ok(
                            src@,
                            #[trigger] stack@[k],
                            k,
                            pos as int + 1,
                        ) by {
                            assert(frame_ok(src@, frames[k], k, pos as int));
                        }
                    }
                },
                _ => {
                    let node = match tok {
                        Token::Right => Node::PointerMove { count: 1 },
                        Token::Left => Node::PointerMove { count: -1 },
                        Token::Plus => Node::CellDelta { amount: 1 },
                        Token::Minus => Node::CellDelta { amount: -1 },
                        Token::Output => Node::Output,
                        _ => Node::Input,
                    };
                    proof {
                        assert(node_text(node) =~= seq![b]);
                        lemma_nodes_push(nodes, node);
                    }
                    cur.push(node);
                    proof {
                        assert(frames_text(stack@) + nodes_text(cur@) =~= text.push(b));
                        assert forall|k: int| 0 <= k < stack@.len() implies frame_ok(
                            src@,
                            #[trigger] stack@[k],
                            k,
                            pos as int + 1,
                        ) by {
                            assert(frame_ok(src@, frames[k], k, pos as int));
                        }
                    }
                },
            }
            i = pos + 1;
        }
    }
    proof {
        assert(src@.take(i as int) =~= src@);
    }
    if stack.len() == 0 {
        proof {
            assert(frames_text(stack@) + nodes_text(cur@) =~= nodes_text(cur@));
        }
        Ok(cur)
    } else {
        let position = stack[0].open;
        proof {
            assert(frame_ok(src@, stack@[0], 0, i as int));
        }
        Err(ParseError::UnmatchedOpen { position })
    }
}

/// Parses a source text. The result is `Ok` exactly when the brackets of
/// the text are balanced; the tree then stands for the operators of the
/// text, one node for each operator outside the brackets themselves. An
/// error names the first bracket that has no partner.
pub fn parse(source: &str) -> (r: Result<Vec<Node>, ParseError>)
    ensures
        parses_to(source.spec_bytes(), r),
        r is Ok <==> balanced(source.spec_bytes()),
        r is Ok <==> balanced(ops_only(source.spec_bytes())),
{
    proof {
        lemma_balanced_projection(source.spec_bytes());
    }
    parse_bytes(source.as_bytes())
}

} // verus!
