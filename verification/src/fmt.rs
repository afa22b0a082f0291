//! Layout engine: rewrites a token stream into one with canonical spacing,
//! newlines and indentation.
//!
//! The engine makes a single left-to-right pass over the scanned tokens and
//! appends to a fresh output stream (never splicing into the stream it is
//! reading). Operators and literals get one space on each side unless the
//! preceding output is whitespace or an opening parenthesis; an opening brace
//! starts an indented line; a closing brace starts its own line and must
//! match an opening one; commas and closing parentheses drop a space before
//! and gain one after; a semicolon ends its line. A running column counter,
//! measured in tokens on the current output line, forces a break with one
//! extra indent level once a line exceeds the column budget.

use vstd::prelude::*;

use crate::builder::Builder;
use crate::builder::RenderError;
use crate::builder::render_spec;
use crate::builder::renderable;
use crate::tokenizer::LexError;
use crate::tokenizer::Scanner;
use crate::tokenizer::Token;
use crate::tokenizer::TokenView;
use crate::tokenizer::lex_spec;
use crate::tokenizer::toks_view;

verus! {

/// The column budget: a forced wrap triggers once the current output line
/// holds more than this many tokens.
pub const MAX_COL: usize = 14;

/// Why layout failed.
#[derive(Clone, Copy, Debug, PartialEq, Eq, Structural)]
pub enum LayoutError {
    /// A closing brace appeared while the nesting depth was already zero.
    UnbalancedBraces,
    /// A token kind the layout rules do not cover (a raw string token).
    UnsupportedToken,
}

/// How many tokens stand on the line currently being laid out: those after
/// the last newline in the output.
pub open spec fn line_len(s: Seq<TokenView>) -> nat
    decreases s.len(),
{
    if s.len() == 0 {
        0
    } else if s.last() is NewLine {
        0
    } else {
        line_len(s.drop_last()) + 1
    }
}

/// A line never holds more tokens than the whole output.
pub proof fn lemma_line_len_le(s: Seq<TokenView>)
    ensures
        line_len(s) <= s.len(),
    decreases s.len(),
{
    if s.len() > 0 && !(s.last() is NewLine) {
        lemma_line_len_le(s.drop_last());
    }
}

/// `n` indentation tabs.
pub open spec fn tabs(n: nat) -> Seq<TokenView> {
    Seq::new(n, |i: int| TokenView::Tab)
}

/// Drops a single trailing space: the rule before `(`, `)`, `,` and `;`.
pub open spec fn strip_space(s: Seq<TokenView>) -> Seq<TokenView> {
    if s.len() > 0 && s.last() is Space {
        s.drop_last()
    } else {
        s
    }
}

/// Output tokens a following operator or literal sits flush against.
pub open spec fn flush_left(t: TokenView) -> bool {
    t is Space || t is Tab || t is NewLine || t is OpenParen
}

/// Space placement around operators and literals: one space after, and one
/// before unless the output is empty or ends in whitespace or `(`.
pub open spec fn space_out_spec(s: Seq<TokenView>, t: TokenView) -> Seq<TokenView> {
    if s.len() == 0 || flush_left(s.last()) {
        s + seq![t, TokenView::Space]
    } else {
        s + seq![TokenView::Space, t, TokenView::Space]
    }
}

/// The overflow pre-check: once the current line exceeds the column budget,
/// break it and indent one level deeper than the ambient depth.
pub open spec fn wrap_spec(s: Seq<TokenView>, depth: nat) -> Seq<TokenView> {
    if line_len(s) > MAX_COL as nat {
        s.push(TokenView::NewLine) + tabs(depth + 1)
    } else {
        s
    }
}

/// One layout step: the wrap pre-check, then the per-kind rewriting rule.
/// A string token is not covered by the rules, and a closing brace at depth
/// zero has no opener to match.
pub open spec fn layout_step(out: Seq<TokenView>, depth: nat, t: TokenView) -> Result<
    (Seq<TokenView>, nat),
    LayoutError,
> {
    match t {
        TokenView::Str(_) => Err(LayoutError::UnsupportedToken),
        TokenView::ClosedBrace => {
            if depth == 0 {
                Err(LayoutError::UnbalancedBraces)
            } else {
                let base = wrap_spec(out, depth);
                Ok(
                    (
                        base.push(TokenView::NewLine).push(TokenView::ClosedBrace) + tabs(
                            (depth - 1) as nat,
                        ),
                        (depth - 1) as nat,
                    ),
                )
            }
        },
        _ => {
            let base = wrap_spec(out, depth);
            match t {
                TokenView::Operator(_) => Ok((space_out_spec(base, t), depth)),
                TokenView::Literal(_) => Ok((space_out_spec(base, t), depth)),
                TokenView::OpenBrace => Ok(
                    (
                        base.push(TokenView::OpenBrace).push(TokenView::NewLine) + tabs(depth + 1),
                        depth + 1,
                    ),
                ),
                TokenView::OpenParen => Ok((strip_space(base).push(TokenView::OpenParen), depth)),
                TokenView::ClosedParen => Ok(
                    (strip_space(base).push(TokenView::ClosedParen).push(TokenView::Space), depth),
                ),
                TokenView::Comma => Ok(
                    (strip_space(base).push(TokenView::Comma).push(TokenView::Space), depth),
                ),
                TokenView::Semicolon => Ok(
                    (
                        strip_space(base).push(TokenView::Semicolon).push(TokenView::NewLine)
                            + tabs(depth),
                        depth,
                    ),
                ),
                _ => Ok((base.push(t), depth)),
            }
        },
    }
}

/// Running the layout rules from token `i` onward, with `out` already built
/// and `depth` open braces.
pub open spec fn layout_from(
    ts: Seq<TokenView>,
    i: nat,
    out: Seq<TokenView>,
    depth: nat,
) -> Result<Seq<TokenView>, LayoutError>
    decreases ts.len() - i,
    when i <= ts.len()
{
    if i >= ts.len() {
        Ok(out)
    } else {
        match layout_step(out, depth, ts[i as int]) {
            Ok(next) => layout_from(ts, i + 1, next.0, next.1),
            Err(e) => Err(e),
        }
    }
}

/// What laying out a whole token stream must produce.
pub open spec fn layout_spec(ts: Seq<TokenView>) -> Result<Seq<TokenView>, LayoutError> {
    layout_from(ts, 0, Seq::empty(), 0)
}

/// The layout engine's state: the input stream, the output stream built so
/// far, the cursor, the brace-nesting depth, and the running column counter.
pub struct Formatter {
    tokens: Vec<Token>,
    out: Vec<Token>,
    current: usize,
    depth: usize,
    col: usize,
}

impl Formatter {
    /// The token-level view of the input stream.
    pub closed spec fn input(&self) -> Seq<TokenView> {
        toks_view(self.tokens@)
    }

    /// The token-level view of the output stream built so far.
    pub closed spec fn laid(&self) -> Seq<TokenView> {
        toks_view(self.out@)
    }

    /// How many input tokens have been processed.
    pub closed spec fn cur(&self) -> nat {
        self.current as nat
    }

    /// The current brace-nesting depth.
    pub closed spec fn dep(&self) -> nat {
        self.depth as nat
    }

    /// The state is exactly a run of the layout rules over the processed
    /// prefix of the input: the column counter measures the current output
    /// line, the depth never exceeds the cursor, and finishing the remaining
    /// tokens from this state yields what the whole stream lays out to.
    pub closed spec fn wf(&self) -> bool {
        &&& self.current <= self.tokens@.len()
        &&& self.depth <= self.current
        &&& self.col == line_len(self.laid())
        &&& layout_spec(self.input()) == layout_from(
            self.input(),
            self.cur(),
            self.laid(),
            self.depth as nat,
        )
    }

    /// Scans `source` and readies a formatter over its tokens.
    pub fn new(source: &String) -> (r: Result<Formatter, LexError>)
        ensures
            match r {
                Ok(f) => f.wf() && f.cur() == 0 && lex_spec(source@) == Ok::<
                    Seq<TokenView>,
                    LexError,
                >(f.input()),
                Err(e) => lex_spec(source@) == Err::<Seq<TokenView>, LexError>(e),
            },
    {
        let mut scanner = Scanner::new(source);
        match scanner.scan_source() {
            Ok(tokens) => Ok(Self::from_tokens(tokens)),
            Err(e) => Err(e),
        }
    }

    /// Readies a formatter over an already-scanned token stream.
    pub fn from_tokens(tokens: Vec<Token>) -> (r: Formatter)
        ensures
            r.wf(),
            r.cur() == 0,
            r.dep() == 0,
            r.laid() == Seq::<TokenView>::empty(),
            r.input() == toks_view(tokens@),
    {
        let f = Formatter { tokens, out: Vec::new(), current: 0, depth: 0, col: 0 };
        proof {
            assert(f.laid() =~= Seq::<TokenView>::empty());
        }
        f
    }

    /// Whether every input token has been processed.
    pub fn is_at_end(&self) -> (r: bool)
        ensures
            r == (self.cur() == self.input().len()),
    {
        self.current == self.tokens.len()
    }

    /// The output stream built so far; after the last [`Self::update_tokens`]
    /// it is the whole laid-out stream.
    pub fn output_tokens(&self) -> (r: &Vec<Token>)
        ensures
            toks_view(r@) == self.laid(),
    {
        &self.out
    }

    /// Appends one token to the output, keeping the column counter honest.
    fn push_out(&mut self, t: Token)
        requires
            old(self).col == line_len(old(self).laid()),
        ensures
            final(self).out@ == old(self).out@.push(t),
            final(self).laid() == old(self).laid().push(t@),
            final(self).col == line_len(final(self).laid()),
            final(self).tokens == old(self).tokens,
            final(self).current == old(self).current,
            final(self).depth == old(self).depth,
    {
        let is_newline = match &t {
            Token::NewLine => true,
            _ => false,
        };
        proof {
            lemma_line_len_le(self.laid());
        }
        self.out.push(t);
        let n = self.out.len();
        proof {
            assert(self.laid() =~= old(self).laid().push(self.out@.last()@));
            assert(self.laid().drop_last() =~= old(self).laid());
            assert(self.col < n);
        }
        if is_newline {
            self.col = 0;
        } else {
            self.col = self.col + 1;
        }
    }

    /// Appends a newline and resets the column counter.
    fn new_line(&mut self)
        requires
            old(self).col == line_len(old(self).laid()),
        ensures
            final(self).laid() == old(self).laid().push(TokenView::NewLine),
            final(self).col == line_len(final(self).laid()),
            final(self).tokens == old(self).tokens,
            final(self).current == old(self).current,
            final(self).depth == old(self).depth,
    {
        self.push_out(Token::NewLine);
    }

    /// Appends one indentation tab per open nesting level.
    fn add_intendation(&mut self)
        requires
            old(self).col == line_len(old(self).laid()),
        ensures
            final(self).laid() == old(self).laid() + tabs(old(self).depth as nat),
            final(self).col == line_len(final(self).laid()),
            final(self).tokens == old(self).tokens,
            final(self).current == old(self).current,
            final(self).depth == old(self).depth,
    {
        let ghost base = self.laid();
        let mut j: usize = 0;
        proof {
            assert(base + tabs(0) =~= base);
        }
        while j < self.depth
            invariant
                j <= self.depth,
                self.col == line_len(self.laid()),
                self.laid() == base + tabs(j as nat),
                self.tokens == old(self).tokens,
                self.current == old(self).current,
                self.depth == old(self).depth,
            decreases self.depth - j,
        {
            self.push_out(Token::Tab);
            proof {
                assert((base + tabs(j as nat)).push(TokenView::Tab) =~= base + tabs(j as nat + 1));
            }
            j = j + 1;
        }
    }

    /// Removes a single trailing space from the output, if there is one.
    fn strip_trailing_space(&mut self)
        requires
            old(self).col == line_len(old(self).laid()),
        ensures
            final(self).laid() == strip_space(old(self).laid()),
            final(self).col == line_len(final(self).laid()),
            final(self).tokens == old(self).tokens,
            final(self).current == old(self).current,
            final(self).depth == old(self).depth,
    {
        let n = self.out.len();
        if n > 0 {
            let last_is_space = match &self.out[n - 1] {
                Token::Space => true,
                _ => false,
            };
            if last_is_space {
                proof {
                    assert(self.laid().last() == self.out@.last()@);
                }
                let _ = self.out.pop();
                self.col = self.col - 1;
                proof {
                    assert(self.laid() =~= old(self).laid().drop_last());
                }
            } else {
                proof {
                    assert(self.laid().last() == self.out@.last()@);
                    assert(strip_space(self.laid()) == self.laid());
                }
            }
        }
    }

    /// Applies the spacing rule for an operator or literal.
    fn space_out(&mut self, t: Token)
        requires
            old(self).col == line_len(old(self).laid()),
        ensures
            final(self).laid() == space_out_spec(old(self).laid(), t@),
            final(self).col == line_len(final(self).laid()),
            final(self).tokens == old(self).tokens,
            final(self).current == old(self).current,
            final(self).depth == old(self).depth,
    {
        let ghost base = self.laid();
        let n = self.out.len();
        let flush = if n == 0 {
            true
        } else {
            match &self.out[n - 1] {
                Token::Space => true,
                Token::Tab => true,
                Token::NewLine => true,
                Token::OpenParen => true,
                _ => false,
            }
        };
        proof {
            if n > 0 {
                assert(base.last() == self.out@.last()@);
            }
        }
        if flush {
            let ghost tv = t@;
            self.push_out(t);
            self.push_out(Token::Space);
            proof {
                assert(base.push(tv).push(TokenView::Space) =~= base + seq![tv, TokenView::Space]);
            }
        } else {
            let ghost tv = t@;
            self.push_out(Token::Space);
            self.push_out(t);
            self.push_out(Token::Space);
            proof {
                assert(base.push(TokenView::Space).push(tv).push(TokenView::Space) =~= base + seq![
                    TokenView::Space,
                    tv,
                    TokenView::Space,
                ]);
            }
        }
    }

    /// Processes the input token under the cursor: the wrap pre-check, then
    /// the rule for its kind, appending to the output stream — exactly one
    /// [`layout_step`] on the output and depth. Past the end of the input
    /// this is a no-op, and once the whole input is processed the output
    /// stream is exactly what [`layout_spec`] demands of it.
    pub fn update_tokens(&mut self) -> (r: Result<(), LayoutError>)
        requires
            old(self).wf(),
        ensures
            final(self).wf(),
            final(self).input() == old(self).input(),
            match r {
                Ok(()) => {
                    &&& final(self).cur() == if old(self).cur() < old(self).input().len() {
                        old(self).cur() + 1
                    } else {
                        old(self).cur()
                    }
                    &&& old(self).cur() < old(self).input().len() ==> layout_step(
                        old(self).laid(),
                        old(self).dep(),
                        old(self).input()[old(self).cur() as int],
                    ) == Ok::<(Seq<TokenView>, nat), LayoutError>(
                        (final(self).laid(), final(self).dep()),
                    )
                    &&& old(self).cur() == old(self).input().len() ==> *final(self) == *old(self)
                },
                Err(e) => layout_spec(old(self).input()) == Err::<Seq<TokenView>, LayoutError>(e)
                    && *final(self) == *old(self),
            },
            final(self).cur() == final(self).input().len() ==> layout_spec(final(self).input())
                == Ok::<Seq<TokenView>, LayoutError>(final(self).laid()),
    {
        if self.is_at_end() {
            proof {
                assert(layout_from(self.input(), self.cur(), self.laid(), self.depth as nat)
                    == Ok::<Seq<TokenView>, LayoutError>(self.laid()));
            }
            return Ok(());
        }
        let n = self.tokens.len();
        proof {
            assert(self.current < n);
        }
        let ghost pre_out = self.laid();
        let ghost pre_depth = self.depth as nat;
        let ghost i = self.cur();
        let t = self.tokens[self.current].duplicate();
        proof {
            assert(self.input()[i as int] == self.tokens@[i as int]@);
        }
        // Reject before mutating anything, so an error leaves the state as it was.
        let is_string = match &t {
            Token::String(_) => true,
            _ => false,
        };
        if is_string {
            return Err(LayoutError::UnsupportedToken);
        }
        let is_closed_brace = match &t {
            Token::ClosedBrace => true,
            _ => false,
        };
        if is_closed_brace && self.depth == 0 {
            return Err(LayoutError::UnbalancedBraces);
        }
        // The wrap pre-check, at one extra indent level.
        if self.col > MAX_COL {
            self.new_line();
            self.depth = self.depth + 1;
            self.add_intendation();
            self.depth = self.depth - 1;
        }
        let ghost base = wrap_spec(pre_out, pre_depth);
        proof {
            assert(self.laid() == base);
        }
        match t {
            Token::Operator(_) => {
                self.space_out(t);
            },
            Token::Literal(_) => {
                self.space_out(t);
            },
            Token::OpenBrace => {
                self.push_out(t);
                self.new_line();
                self.depth = self.depth + 1;
                self.add_intendation();
            },
            Token::ClosedBrace => {
                self.new_line();
                self.push_out(t);
                self.depth = self.depth - 1;
                self.add_intendation();
            },
            Token::OpenParen => {
                self.strip_trailing_space();
                self.push_out(t);
            },
            Token::ClosedParen => {
                self.strip_trailing_space();
                self.push_out(t);
                self.push_out(Token::Space);
            },
            Token::Comma => {
                self.strip_trailing_space();
                self.push_out(t);
                self.push_out(Token::Space);
            },
            Token::Semicolon => {
                self.strip_trailing_space();
                self.push_out(t);
                self.new_line();
                self.add_intendation();
            },
            Token::Space => {
                self.push_out(t);
            },
            Token::NewLine => {
                self.push_out(t);
            },
            Token::Tab => {
                self.push_out(t);
            },
            Token::String(_) => {
                proof {
                    assert(false);
                }
                return Err(LayoutError::UnsupportedToken);
            },
        }
        proof {
            assert(layout_step(pre_out, pre_depth, self.input()[i as int]) == Ok::<
                (Seq<TokenView>, nat),
                LayoutError,
            >((self.laid(), self.depth as nat)));
        }
        self.current = self.current + 1;
        proof {
            if self.current == self.tokens.len() {
                assert(layout_from(self.input(), self.cur(), self.laid(), self.depth as nat)
                    == Ok::<Seq<TokenView>, LayoutError>(self.laid()));
            }
        }
        Ok(())
    }

    /// Lays out the remaining input, then serializes the output stream: the
    /// result is exactly the text that the layout and build rules assign to
    /// the input stream, or the first layout error.
    pub fn format(&mut self) -> (r: Result<String, LayoutError>)
        requires
            old(self).wf(),
        ensures
            final(self).wf(),
            final(self).input() == old(self).input(),
            match r {
                Ok(text) => layout_spec(old(self).input()) is Ok && render_spec(
                    layout_spec(old(self).input())->Ok_0,
                ) == Ok::<Seq<char>, RenderError>(text@),
                Err(e) => layout_spec(old(self).input()) == Err::<Seq<TokenView>, LayoutError>(e),
            },
    {
        let ghost t0 = self.input();
        while !self.is_at_end()
            invariant
                self.wf(),
                self.input() == t0,
                t0 == old(self).input(),
            decreases self.input().len() - self.cur(),
        {
            match self.update_tokens() {
                Ok(()) => {},
                Err(e) => {
                    return Err(e);
                },
            }
        }
        proof {
            assert(layout_spec(t0) == Ok::<Seq<TokenView>, LayoutError>(self.laid()));
            lemma_layout_no_str(t0, 0, Seq::empty(), 0);
            crate::builder::lemma_render_total(self.laid(), 0);
        }
        let builder = Builder::new(&self.out);
        match builder.build() {
            Ok(text) => Ok(text),
            Err(_) => {
                proof {
                    assert(false);
                }
                Err(LayoutError::UnsupportedToken)
            },
        }
    }
}

/// Whatever the layout rules produce contains no string token: every step
/// either rejects one in the input or appends only renderable tokens.
pub proof fn lemma_layout_no_str(ts: Seq<TokenView>, i: nat, out: Seq<TokenView>, depth: nat)
    requires
        i <= ts.len(),
        forall|k: int| 0 <= k < out.len() ==> renderable(#[trigger] out[k]),
    ensures
        layout_from(ts, i, out, depth) matches Ok(laid) ==> forall|k: int|
            0 <= k < laid.len() ==> renderable(#[trigger] laid[k]),
    decreases ts.len() - i,
{
    if i < ts.len() {
        match layout_step(out, depth, ts[i as int]) {
            Ok(next) => {
                lemma_step_renderable(out, depth, ts[i as int]);
                lemma_layout_no_str(ts, i + 1, next.0, next.1);
            },
            Err(_) => {},
        }
    }
}

/// One layout step only ever appends renderable tokens.
proof fn lemma_step_renderable(out: Seq<TokenView>, depth: nat, t: TokenView)
    requires
        forall|k: int| 0 <= k < out.len() ==> renderable(#[trigger] out[k]),
    ensures
        layout_step(out, depth, t) matches Ok(next) ==> forall|k: int|
            0 <= k < next.0.len() ==> renderable(#[trigger] next.0[k]),
{
    let base = wrap_spec(out, depth);
    assert forall|k: int| 0 <= k < base.len() implies renderable(#[trigger] base[k]) by {
        if line_len(out) > MAX_COL as nat {
            if k < out.len() {
                assert(base[k] == out[k]);
            }
        }
    }
    match layout_step(out, depth, t) {
        Ok(next) => {
            assert forall|k: int| 0 <= k < next.0.len() implies renderable(
                #[trigger] next.0[k],
            ) by {
                let sb = strip_space(base);
                assert(forall|m: int| 0 <= m < sb.len() ==> sb[m] == base[m]);
            }
        },
        Err(_) => {},
    }
}

} // verus!
