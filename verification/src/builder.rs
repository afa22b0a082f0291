//! Builder: serializes a rewritten token sequence into the output text.
//!
//! Every token kind maps to a fixed text: whitespace markers to the space,
//! three-space indent unit and newline, punctuation and operators to their
//! characters, literals to their payload. A raw string token reaching the
//! builder is an internal-consistency error and is reported rather than
//! silently dropped.

use vstd::prelude::*;

use crate::tokenizer::Token;
use crate::tokenizer::TokenView;
use crate::tokenizer::push_char;
use crate::tokenizer::toks_view;

verus! {

/// Why building failed.
#[derive(Clone, Copy, Debug, PartialEq, Eq, Structural)]
pub enum RenderError {
    /// A token kind with no text mapping reached the builder.
    UnsupportedToken,
}

/// Tokens the builder can map to text.
pub open spec fn renderable(t: TokenView) -> bool {
    !(t is Str)
}

/// The text of one renderable token.
pub open spec fn token_text(t: TokenView) -> Seq<char> {
    match t {
        TokenView::NewLine => seq!['\n'],
        TokenView::Space => seq![' '],
        TokenView::Tab => seq![' ', ' ', ' '],
        TokenView::Comma => seq![','],
        TokenView::Semicolon => seq![';'],
        TokenView::OpenBrace => seq!['{'],
        TokenView::ClosedBrace => seq!['}'],
        TokenView::OpenParen => seq!['('],
        TokenView::ClosedParen => seq![')'],
        TokenView::Operator(c) => seq![c],
        TokenView::Literal(s) => s,
        TokenView::Str(_) => Seq::empty(),
    }
}

/// What building from token `i` onward must produce: the concatenation of
/// every token's text, or an error on the first token without one.
pub open spec fn render_from(ts: Seq<TokenView>, i: nat) -> Result<Seq<char>, RenderError>
    decreases ts.len() - i,
    when i <= ts.len()
{
    if i >= ts.len() {
        Ok(Seq::empty())
    } else if !renderable(ts[i as int]) {
        Err(RenderError::UnsupportedToken)
    } else {
        match render_from(ts, i + 1) {
            Ok(rest) => Ok(token_text(ts[i as int]) + rest),
            Err(e) => Err(e),
        }
    }
}

/// What building a whole token sequence must produce.
pub open spec fn render_spec(ts: Seq<TokenView>) -> Result<Seq<char>, RenderError> {
    render_from(ts, 0)
}

/// Prepends already-built text to the build result of the rest.
pub open spec fn render_cat(p: Seq<char>, r: Result<Seq<char>, RenderError>) -> Result<
    Seq<char>,
    RenderError,
> {
    match r {
        Ok(rest) => Ok(p + rest),
        Err(e) => Err(e),
    }
}

/// Building token `i`'s text and then the rest is the same as handing the
/// text to the already-built prefix first.
proof fn lemma_render_cat_shift(p: Seq<char>, ts: Seq<TokenView>, i: nat)
    requires
        i < ts.len(),
        renderable(ts[i as int]),
    ensures
        render_cat(p, render_from(ts, i)) == render_cat(
            p + token_text(ts[i as int]),
            render_from(ts, i + 1),
        ),
{
    match render_from(ts, i + 1) {
        Ok(rest) => {
            assert(p + (token_text(ts[i as int]) + rest) =~= (p + token_text(ts[i as int]))
                + rest);
        },
        Err(_) => {},
    }
}

/// A sequence with no string tokens renders without error.
pub proof fn lemma_render_total(ts: Seq<TokenView>, i: nat)
    requires
        i <= ts.len(),
        forall|k: int| 0 <= k < ts.len() ==> renderable(#[trigger] ts[k]),
    ensures
        render_from(ts, i) is Ok,
    decreases ts.len() - i,
{
    if i < ts.len() {
        lemma_render_total(ts, i + 1);
    }
}

/// The builder: turns a finished token sequence into the output text.
pub struct Builder<'b> {
    tokens: &'b Vec<Token>,
}

impl<'b> Builder<'b> {
    /// The token-level view of the sequence being built.
    pub closed spec fn toks(&self) -> Seq<TokenView> {
        toks_view(self.tokens@)
    }

    pub fn new(tokens: &'b Vec<Token>) -> (r: Self)
        ensures
            r.toks() == toks_view(tokens@),
    {
        Self { tokens }
    }

    /// Serializes the token sequence, or reports the internal-consistency
    /// error if a token kind without a text mapping is present.
    pub fn build(&self) -> (r: Result<String, RenderError>)
        ensures
            match r {
                Ok(text) => render_spec(self.toks()) == Ok::<Seq<char>, RenderError>(text@),
                Err(e) => render_spec(self.toks()) == Err::<Seq<char>, RenderError>(e),
            },
    {
        let ghost ts = self.toks();
        let mut output_str = String::new();
        let mut i: usize = 0;
        proof {
            assert(render_cat(output_str@, render_from(ts, 0)) == render_from(ts, 0)) by {
                match render_from(ts, 0) {
                    Ok(rest) => {
                        assert(output_str@ + rest =~= rest);
                    },
                    Err(_) => {},
                }
            }
        }
        while i < self.tokens.len()
            invariant
                i <= self.tokens.len(),
                ts == self.toks(),
                render_from(ts, 0) == render_cat(output_str@, render_from(ts, i as nat)),
            decreases self.tokens.len() - i,
        {
            let ghost pre = output_str@;
            proof {
                assert(ts[i as int] == self.tokens@[i as int]@);
            }
            match &self.tokens[i] {
                Token::String(_) => {
                    return Err(RenderError::UnsupportedToken);
                },
                Token::NewLine => {
                    output_str.append("\n");
                    proof {
                        reveal_strlit("\n");
                        assert("\n"@ =~= seq!['\n']);
                    }
                },
                Token::Space => {
                    output_str.append(" ");
                    proof {
                        reveal_strlit(" ");
                        assert(" "@ =~= seq![' ']);
                    }
                },
                Token::Tab => {
                    output_str.append("   ");
                    proof {
                        reveal_strlit("   ");
                        assert("   "@ =~= seq![' ', ' ', ' ']);
                    }
                },
                Token::Comma => {
                    output_str.append(",");
                    proof {
                        reveal_strlit(",");
                        assert(","@ =~= seq![',']);
                    }
                },
                Token::Semicolon => {
                    output_str.append(";");
                    proof {
                        reveal_strlit(";");
                        assert(";"@ =~= seq![';']);
                    }
                },
                Token::OpenBrace => {
                    output_str.append("{");
                    proof {
                        reveal_strlit("{");
                        assert("{"@ =~= seq!['{']);
                    }
                },
                Token::ClosedBrace => {
                    output_str.append("}");
                    proof {
                        reveal_strlit("}");
                        assert("}"@ =~= seq!['}']);
                    }
                },
                Token::OpenParen => {
                    output_str.append("(");
                    proof {
                        reveal_strlit("(");
                        assert("("@ =~= seq!['(']);
                    }
                },
                Token::ClosedParen => {
                    output_str.append(")");
                    proof {
                        reveal_strlit(")");
                        assert(")"@ =~= seq![')']);
                    }
                },
                Token::Operator(c) => {
                    push_char(&mut output_str, *c);
                    proof {
                        assert(pre.push(*c) =~= pre + seq![*c]);
                    }
                },
                Token::Literal(s) => {
                    output_str.append(s.as_str());
                },
            }
            proof {
                assert(output_str@ == pre + token_text(ts[i as int]));
                lemma_render_cat_shift(pre, ts, i as nat);
            }
            i = i + 1;
        }
        proof {
            assert(render_from(ts, i as nat) == Ok::<Seq<char>, RenderError>(Seq::empty()));
            assert(output_str@ + Seq::<char>::empty() =~= output_str@);
        }
        Ok(output_str)
    }
}

} // verus!
