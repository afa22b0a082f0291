//! Laws the formatter obeys, stated and proved over the same spec functions
//! that the pipeline's contracts use.
//!
//! The central results: formatting never adds, removes, reorders or alters
//! non-whitespace tokens; every closing brace in the output starts its own
//! line while an opening brace ends one; scanning a formatted text recovers
//! exactly the tokens of the original; and formatting is idempotent.

use vstd::prelude::*;

use crate::builder::RenderError;
use crate::builder::render_from;
use crate::builder::render_spec;
use crate::builder::renderable;
use crate::builder::token_text;
use crate::fmt::LayoutError;
use crate::fmt::layout_from;
use crate::fmt::line_len;
use crate::fmt::layout_spec;
use crate::fmt::layout_step;
use crate::fmt::space_out_spec;
use crate::fmt::strip_space;
use crate::fmt::tabs;
use crate::fmt::wrap_spec;
use crate::tokenizer::LexError;
use crate::tokenizer::TokenView;
use crate::tokenizer::is_operator_char;
use crate::tokenizer::is_word_char;
use crate::tokenizer::is_ws_char;
use crate::tokenizer::lemma_string_end_at;
use crate::tokenizer::lemma_string_end_bounds;
use crate::tokenizer::lemma_word_end_at;
use crate::tokenizer::lemma_word_end_bounds;
use crate::tokenizer::lex_cons;
use crate::tokenizer::lex_from;
use crate::tokenizer::lex_spec;
use crate::tokenizer::string_end;
use crate::tokenizer::structural_token;
use crate::tokenizer::word_end;

verus! {

/// Whitespace-class tokens: the ones layout inserts and removes at will.
pub open spec fn is_ws_token(t: TokenView) -> bool {
    t is Space || t is Tab || t is NewLine
}

/// The non-whitespace tokens of a stream, in order.
pub open spec fn nonws(s: Seq<TokenView>) -> Seq<TokenView> {
    s.filter(|t: TokenView| !is_ws_token(t))
}

proof fn lemma_nonws_empty()
    ensures
        nonws(Seq::<TokenView>::empty()) == Seq::<TokenView>::empty(),
{
    reveal_with_fuel(Seq::filter, 1);
}

proof fn lemma_nonws_push(s: Seq<TokenView>, t: TokenView)
    ensures
        nonws(s.push(t)) == if is_ws_token(t) {
            nonws(s)
        } else {
            nonws(s).push(t)
        },
{
    assert(s.push(t).drop_last() =~= s);
    reveal_with_fuel(Seq::filter, 1);
}

proof fn lemma_nonws_add(a: Seq<TokenView>, b: Seq<TokenView>)
    ensures
        nonws(a + b) == nonws(a) + nonws(b),
{
    Seq::<TokenView>::filter_distributes_over_add(a, b, |t: TokenView| !is_ws_token(t));
}

proof fn lemma_nonws_single(t: TokenView)
    ensures
        nonws(seq![t]) == if is_ws_token(t) {
            Seq::<TokenView>::empty()
        } else {
            seq![t]
        },
{
    lemma_nonws_empty();
    lemma_nonws_push(Seq::empty(), t);
    assert(Seq::<TokenView>::empty().push(t) =~= seq![t]);
}

proof fn lemma_nonws_tabs(n: nat)
    ensures
        nonws(tabs(n)) == Seq::<TokenView>::empty(),
    decreases n,
{
    if n == 0 {
        assert(tabs(0) =~= Seq::<TokenView>::empty());
        lemma_nonws_empty();
    } else {
        lemma_nonws_tabs((n - 1) as nat);
        assert(tabs((n - 1) as nat).push(TokenView::Tab) =~= tabs(n));
        lemma_nonws_push(tabs((n - 1) as nat), TokenView::Tab);
    }
}

proof fn lemma_nonws_strip(s: Seq<TokenView>)
    ensures
        nonws(strip_space(s)) == nonws(s),
{
    if s.len() > 0 && s.last() is Space {
        assert(s.drop_last().push(s.last()) =~= s);
        lemma_nonws_push(s.drop_last(), s.last());
    }
}

proof fn lemma_nonws_wrap(s: Seq<TokenView>, depth: nat)
    ensures
        nonws(wrap_spec(s, depth)) == nonws(s),
{
    if wrap_spec(s, depth) != s {
        lemma_nonws_push(s, TokenView::NewLine);
        lemma_nonws_add(s.push(TokenView::NewLine), tabs(depth + 1));
        lemma_nonws_tabs(depth + 1);
        assert(nonws(s) + Seq::<TokenView>::empty() =~= nonws(s));
    }
}

/// One layout step leaves the non-whitespace tokens alone, appending the
/// processed token exactly when it is itself not whitespace.
proof fn lemma_step_nonws(out: Seq<TokenView>, depth: nat, t: TokenView)
    ensures
        layout_step(out, depth, t) matches Ok(next) ==> nonws(next.0) == if is_ws_token(t) {
            nonws(out)
        } else {
            nonws(out).push(t)
        },
{
    let base = wrap_spec(out, depth);
    lemma_nonws_wrap(out, depth);
    lemma_nonws_strip(base);
    match layout_step(out, depth, t) {
        Ok(next) => {
            match t {
                TokenView::Operator(_) | TokenView::Literal(_) => {
                    if base.len() == 0 || crate::fmt::flush_left(base.last()) {
                        assert(base + seq![t, TokenView::Space] =~= base.push(t).push(
                            TokenView::Space,
                        ));
                        lemma_nonws_push(base, t);
                        lemma_nonws_push(base.push(t), TokenView::Space);
                    } else {
                        assert(base + seq![TokenView::Space, t, TokenView::Space] =~= base.push(
                            TokenView::Space,
                        ).push(t).push(TokenView::Space));
                        lemma_nonws_push(base, TokenView::Space);
                        lemma_nonws_push(base.push(TokenView::Space), t);
                        lemma_nonws_push(base.push(TokenView::Space).push(t), TokenView::Space);
                    }
                },
                TokenView::OpenBrace => {
                    lemma_nonws_push(base, TokenView::OpenBrace);
                    lemma_nonws_push(base.push(TokenView::OpenBrace), TokenView::NewLine);
                    lemma_nonws_add(
                        base.push(TokenView::OpenBrace).push(TokenView::NewLine),
                        tabs(depth + 1),
                    );
                    lemma_nonws_tabs(depth + 1);
                    assert(nonws(out).push(t) + Seq::<TokenView>::empty() =~= nonws(out).push(t));
                },
                TokenView::ClosedBrace => {
                    lemma_nonws_push(base, TokenView::NewLine);
                    lemma_nonws_push(base.push(TokenView::NewLine), TokenView::ClosedBrace);
                    lemma_nonws_add(
                        base.push(TokenView::NewLine).push(TokenView::ClosedBrace),
                        tabs((depth - 1) as nat),
                    );
                    lemma_nonws_tabs((depth - 1) as nat);
                    assert(nonws(out).push(t) + Seq::<TokenView>::empty() =~= nonws(out).push(t));
                },
                TokenView::OpenParen => {
                    lemma_nonws_push(strip_space(base), t);
                },
                TokenView::ClosedParen | TokenView::Comma => {
                    lemma_nonws_push(strip_space(base), t);
                    lemma_nonws_push(strip_space(base).push(t), TokenView::Space);
                },
                TokenView::Semicolon => {
                    lemma_nonws_push(strip_space(base), t);
                    lemma_nonws_push(strip_space(base).push(t), TokenView::NewLine);
                    lemma_nonws_add(
                        strip_space(base).push(t).push(TokenView::NewLine),
                        tabs(depth),
                    );
                    lemma_nonws_tabs(depth);
                    assert(nonws(out).push(t) + Seq::<TokenView>::empty() =~= nonws(out).push(t));
                },
                _ => {
                    lemma_nonws_push(base, t);
                },
            }
        },
        Err(_) => {},
    }
}

/// Layout preserves the non-whitespace tokens: whatever comes out is the
/// non-whitespace part of what was already out plus the remaining input's.
pub proof fn lemma_layout_nonws(ts: Seq<TokenView>, i: nat, out: Seq<TokenView>, depth: nat)
    requires
        i <= ts.len(),
    ensures
        layout_from(ts, i, out, depth) matches Ok(laid) ==> nonws(laid) == nonws(out) + nonws(
            ts.skip(i as int),
        ),
    decreases ts.len() - i,
{
    if i >= ts.len() {
        assert(ts.skip(i as int) =~= Seq::<TokenView>::empty());
        lemma_nonws_empty();
        assert(nonws(out) + Seq::<TokenView>::empty() =~= nonws(out));
    } else {
        match layout_step(out, depth, ts[i as int]) {
            Ok(next) => {
                lemma_step_nonws(out, depth, ts[i as int]);
                lemma_layout_nonws(ts, i + 1, next.0, next.1);
                assert(ts.skip(i as int) =~= seq![ts[i as int]] + ts.skip(i as int + 1));
                lemma_nonws_add(seq![ts[i as int]], ts.skip(i as int + 1));
                lemma_nonws_single(ts[i as int]);
                if is_ws_token(ts[i as int]) {
                    assert(Seq::<TokenView>::empty() + nonws(ts.skip(i as int + 1)) =~= nonws(
                        ts.skip(i as int + 1),
                    ));
                } else {
                    assert(nonws(out) + (seq![ts[i as int]] + nonws(ts.skip(i as int + 1))) =~= (
                    nonws(out).push(ts[i as int])) + nonws(ts.skip(i as int + 1)));
                }
            },
            Err(_) => {},
        }
    }
}

/// On a whitespace-free stream, `nonws` is the identity.
proof fn lemma_nonws_id(s: Seq<TokenView>)
    requires
        forall|k: int| 0 <= k < s.len() ==> !is_ws_token(#[trigger] s[k]),
    ensures
        nonws(s) == s,
    decreases s.len(),
{
    if s.len() == 0 {
        lemma_nonws_empty();
        assert(nonws(s) =~= s);
    } else {
        lemma_nonws_id(s.drop_last());
        lemma_nonws_push(s.drop_last(), s.last());
        assert(s.drop_last().push(s.last()) =~= s);
    }
}

/// Token preservation at the stream level: laying out a whitespace-free
/// token stream keeps exactly those tokens, in order — so in particular
/// their multiset is unchanged.
pub proof fn lemma_layout_preserves_tokens(ts: Seq<TokenView>, laid: Seq<TokenView>)
    requires
        layout_spec(ts) == Ok::<Seq<TokenView>, LayoutError>(laid),
        forall|k: int| 0 <= k < ts.len() ==> !is_ws_token(#[trigger] ts[k]),
    ensures
        nonws(laid) == ts,
        nonws(laid).to_multiset() == ts.to_multiset(),
{
    lemma_layout_nonws(ts, 0, Seq::empty(), 0);
    lemma_nonws_empty();
    assert(ts.skip(0) =~= ts);
    lemma_nonws_id(ts);
    assert(Seq::<TokenView>::empty() + ts =~= ts);
}

/// Each closing brace stands directly after a newline, and each opening
/// brace stands directly before one.
pub open spec fn brace_lines(s: Seq<TokenView>) -> bool {
    &&& forall|k: int|
        0 <= k < s.len() && (#[trigger] s[k]) is ClosedBrace ==> k >= 1 && s[k - 1] is NewLine
    &&& forall|k: int|
        0 <= k < s.len() && (#[trigger] s[k]) is OpenBrace ==> k + 1 < s.len() && s[k
            + 1] is NewLine
}

/// A sequence without braces.
pub open spec fn brace_free(u: Seq<TokenView>) -> bool {
    forall|m: int|
        0 <= m < u.len() ==> !((#[trigger] u[m]) is OpenBrace) && !(u[m] is ClosedBrace)
}

proof fn lemma_brace_append(s: Seq<TokenView>, u: Seq<TokenView>)
    requires
        brace_lines(s),
        brace_free(u),
    ensures
        brace_lines(s + u),
{
    let c = s + u;
    assert forall|k: int| 0 <= k < c.len() && (#[trigger] c[k]) is ClosedBrace implies k >= 1 && c[k
        - 1] is NewLine by {
        assert(k < s.len());
        assert(c[k - 1] == s[k - 1]);
    }
    assert forall|k: int| 0 <= k < c.len() && (#[trigger] c[k]) is OpenBrace implies k + 1 < c.len()
        && c[k + 1] is NewLine by {
        assert(k < s.len());
        assert(s[k] is OpenBrace);
        assert(c[k + 1] == s[k + 1]);
    }
}

proof fn lemma_brace_strip(s: Seq<TokenView>)
    requires
        brace_lines(s),
    ensures
        brace_lines(strip_space(s)),
{
    if s.len() > 0 && s.last() is Space {
        let d = s.drop_last();
        assert forall|k: int| 0 <= k < d.len() && (#[trigger] d[k]) is ClosedBrace implies k >= 1
            && d[k - 1] is NewLine by {
            assert(s[k] is ClosedBrace);
        }
        assert forall|k: int| 0 <= k < d.len() && (#[trigger] d[k]) is OpenBrace implies k + 1
            < d.len() && d[k + 1] is NewLine by {
            assert(s[k] is OpenBrace);
            assert(s[k + 1] is NewLine);
            assert(k + 1 != s.len() - 1);
        }
    }
}

/// One layout step keeps every brace on a line edge: a wrap, a spacing rule
/// or a passthrough appends no brace, an opening brace is appended with its
/// newline right behind it, a closing brace right after one.
proof fn lemma_step_brace(out: Seq<TokenView>, depth: nat, t: TokenView)
    requires
        brace_lines(out),
    ensures
        layout_step(out, depth, t) matches Ok(next) ==> brace_lines(next.0),
{
    let base = wrap_spec(out, depth);
    if line_len(out) > crate::fmt::MAX_COL as nat {
        assert(base =~= out + (seq![TokenView::NewLine] + tabs(depth + 1)));
        lemma_brace_append(out, seq![TokenView::NewLine] + tabs(depth + 1));
    }
    match layout_step(out, depth, t) {
        Ok(next) => {
            match t {
                TokenView::Operator(_) | TokenView::Literal(_) => {
                    lemma_brace_append(base, space_out_spec(base, t).skip(base.len() as int));
                    assert(base + space_out_spec(base, t).skip(base.len() as int) =~= space_out_spec(
                        base,
                        t,
                    ));
                },
                TokenView::OpenBrace => {
                    let c = base.push(TokenView::OpenBrace).push(TokenView::NewLine) + tabs(
                        depth + 1,
                    );
                    assert forall|k: int|
                        0 <= k < c.len() && (#[trigger] c[k]) is ClosedBrace implies k >= 1 && c[k
                        - 1] is NewLine by {
                        assert(k < base.len());
                        assert(c[k - 1] == base[k - 1]);
                    }
                    assert forall|k: int|
                        0 <= k < c.len() && (#[trigger] c[k]) is OpenBrace implies k + 1 < c.len()
                        && c[k + 1] is NewLine by {
                        if k < base.len() {
                            assert(base[k] is OpenBrace);
                            assert(c[k + 1] == base[k + 1]);
                        } else {
                            assert(k == base.len());
                            assert(c[k + 1] == TokenView::NewLine);
                        }
                    }
                },
                TokenView::ClosedBrace => {
                    let c = base.push(TokenView::NewLine).push(TokenView::ClosedBrace) + tabs(
                        (depth - 1) as nat,
                    );
                    assert forall|k: int|
                        0 <= k < c.len() && (#[trigger] c[k]) is ClosedBrace implies k >= 1 && c[k
                        - 1] is NewLine by {
                        if k < base.len() {
                            assert(base[k] is ClosedBrace);
                            assert(c[k - 1] == base[k - 1]);
                        } else {
                            assert(k == base.len() + 1);
                            assert(c[k - 1] == TokenView::NewLine);
                        }
                    }
                    assert forall|k: int|
                        0 <= k < c.len() && (#[trigger] c[k]) is OpenBrace implies k + 1 < c.len()
                        && c[k + 1] is NewLine by {
                        assert(k < base.len());
                        assert(base[k] is OpenBrace);
                        assert(c[k + 1] == base[k + 1]);
                    }
                },
                TokenView::OpenParen | TokenView::ClosedParen | TokenView::Comma
                    | TokenView::Semicolon => {
                    lemma_brace_strip(base);
                    let sb = strip_space(base);
                    lemma_brace_append(sb, next.0.skip(sb.len() as int));
                    assert(sb + next.0.skip(sb.len() as int) =~= next.0);
                },
                _ => {
                    lemma_brace_append(base, seq![t]);
                    assert(base + seq![t] =~= base.push(t));
                },
            }
        },
        Err(_) => {},
    }
}

proof fn lemma_layout_brace(ts: Seq<TokenView>, i: nat, out: Seq<TokenView>, depth: nat)
    requires
        i <= ts.len(),
        brace_lines(out),
    ensures
        layout_from(ts, i, out, depth) matches Ok(laid) ==> brace_lines(laid),
    decreases ts.len() - i,
{
    if i < ts.len() {
        match layout_step(out, depth, ts[i as int]) {
            Ok(next) => {
                lemma_step_brace(out, depth, ts[i as int]);
                lemma_layout_brace(ts, i + 1, next.0, next.1);
            },
            Err(_) => {},
        }
    }
}

/// No two space tokens stand side by side.
pub open spec fn no_adjacent_spaces(s: Seq<TokenView>) -> bool {
    forall|k: int| 0 <= k < s.len() - 1 ==> !((#[trigger] s[k]) is Space && s[k + 1] is Space)
}

/// Appending cannot create a double space when neither piece has one and the
/// seam is safe.
proof fn lemma_nospace_append(s: Seq<TokenView>, u: Seq<TokenView>)
    requires
        no_adjacent_spaces(s),
        no_adjacent_spaces(u),
        (s.len() > 0 && s.last() is Space) ==> !(u.len() > 0 && u[0] is Space),
    ensures
        no_adjacent_spaces(s + u),
{
    let c = s + u;
    assert forall|k: int| 0 <= k < c.len() - 1 implies !((#[trigger] c[k]) is Space && c[k
        + 1] is Space) by {
        if k + 1 < s.len() {
            assert(c[k] == s[k] && c[k + 1] == s[k + 1]);
        } else if k < s.len() {
            assert(c[k] == s[s.len() - 1] && c[k + 1] == u[0]);
        } else {
            assert(c[k] == u[k - s.len()] && c[k + 1] == u[k + 1 - s.len()]);
        }
    }
}

proof fn lemma_nospace_strip(s: Seq<TokenView>)
    requires
        no_adjacent_spaces(s),
    ensures
        no_adjacent_spaces(strip_space(s)),
{
    if s.len() > 0 && s.last() is Space {
        let d = s.drop_last();
        assert forall|k: int| 0 <= k < d.len() - 1 implies !((#[trigger] d[k]) is Space && d[k
            + 1] is Space) by {
            assert(d[k] == s[k] && d[k + 1] == s[k + 1]);
        }
    }
}

/// One layout step never places two spaces side by side, as long as the
/// processed token is itself no whitespace marker.
proof fn lemma_step_nospace(out: Seq<TokenView>, depth: nat, t: TokenView)
    requires
        no_adjacent_spaces(out),
        !is_ws_token(t),
    ensures
        layout_step(out, depth, t) matches Ok(next) ==> no_adjacent_spaces(next.0),
{
    let base = wrap_spec(out, depth);
    if line_len(out) > crate::fmt::MAX_COL as nat {
        assert(base =~= out + (seq![TokenView::NewLine] + tabs(depth + 1)));
        lemma_nospace_append(out, seq![TokenView::NewLine] + tabs(depth + 1));
    }
    lemma_nospace_strip(base);
    match layout_step(out, depth, t) {
        Ok(next) => {
            match t {
                TokenView::Operator(_) | TokenView::Literal(_) => {
                    if base.len() == 0 || crate::fmt::flush_left(base.last()) {
                        lemma_nospace_append(base, seq![t, TokenView::Space]);
                    } else {
                        lemma_nospace_append(
                            base,
                            seq![TokenView::Space, t, TokenView::Space],
                        );
                    }
                },
                TokenView::OpenBrace => {
                    assert(next.0 =~= base + (seq![TokenView::OpenBrace, TokenView::NewLine]
                        + tabs(depth + 1)));
                    lemma_nospace_append(
                        base,
                        seq![TokenView::OpenBrace, TokenView::NewLine] + tabs(depth + 1),
                    );
                },
                TokenView::ClosedBrace => {
                    assert(next.0 =~= base + (seq![TokenView::NewLine, TokenView::ClosedBrace]
                        + tabs((depth - 1) as nat)));
                    lemma_nospace_append(
                        base,
                        seq![TokenView::NewLine, TokenView::ClosedBrace] + tabs(
                            (depth - 1) as nat,
                        ),
                    );
                },
                TokenView::OpenParen => {
                    assert(next.0 =~= strip_space(base) + seq![t]);
                    lemma_nospace_append(strip_space(base), seq![t]);
                },
                TokenView::ClosedParen | TokenView::Comma => {
                    assert(next.0 =~= strip_space(base) + seq![t, TokenView::Space]);
                    lemma_nospace_append(strip_space(base), seq![t, TokenView::Space]);
                },
                TokenView::Semicolon => {
                    assert(next.0 =~= strip_space(base) + (seq![t, TokenView::NewLine] + tabs(
                        depth,
                    )));
                    lemma_nospace_append(
                        strip_space(base),
                        seq![t, TokenView::NewLine] + tabs(depth),
                    );
                },
                _ => {
                    assert(false);
                },
            }
        },
        Err(_) => {},
    }
}

proof fn lemma_layout_nospace(ts: Seq<TokenView>, i: nat, out: Seq<TokenView>, depth: nat)
    requires
        i <= ts.len(),
        no_adjacent_spaces(out),
        forall|k: int| 0 <= k < ts.len() ==> !is_ws_token(#[trigger] ts[k]),
    ensures
        layout_from(ts, i, out, depth) matches Ok(laid) ==> no_adjacent_spaces(laid),
    decreases ts.len() - i,
{
    if i < ts.len() {
        match layout_step(out, depth, ts[i as int]) {
            Ok(next) => {
                lemma_step_nospace(out, depth, ts[i as int]);
                lemma_layout_nospace(ts, i + 1, next.0, next.1);
            },
            Err(_) => {},
        }
    }
}

/// The sound half of the output-ordering guarantee: laying out a
/// whitespace-free stream — which is all the scanner ever produces — never
/// puts two space tokens side by side. (A space directly before a newline
/// does occur: a literal's trailing space survives the line break that a
/// closing brace or an overflow inserts after it.)
pub proof fn lemma_no_adjacent_spaces(ts: Seq<TokenView>, laid: Seq<TokenView>)
    requires
        layout_spec(ts) == Ok::<Seq<TokenView>, LayoutError>(laid),
        forall|k: int| 0 <= k < ts.len() ==> !is_ws_token(#[trigger] ts[k]),
    ensures
        no_adjacent_spaces(laid),
{
    lemma_layout_nospace(ts, 0, Seq::empty(), 0);
}

/// Payload facts that scanning guarantees and layout preserves: an operator
/// carries an operator character, a literal a nonempty run of word
/// characters.
pub open spec fn tok_payload_ok(t: TokenView) -> bool {
    match t {
        TokenView::Operator(c) => is_operator_char(c),
        TokenView::Literal(w) => w.len() > 0 && (forall|m: int|
            0 <= m < w.len() ==> is_word_char(#[trigger] w[m])),
        _ => true,
    }
}

/// What the scanner guarantees of each token it emits: sound payloads, a
/// nonempty string payload (it keeps the opening quote), and no whitespace
/// markers.
pub open spec fn lexed_token(t: TokenView) -> bool {
    &&& tok_payload_ok(t)
    &&& !is_ws_token(t)
    &&& (t matches TokenView::Str(p) ==> p.len() > 0)
}

/// Every character of a literal run is a word character.
proof fn lemma_word_end_chars(s: Seq<char>, a: nat)
    requires
        a <= s.len(),
    ensures
        forall|k: int| a <= k < word_end(s, a) ==> is_word_char(#[trigger] s[k]),
    decreases s.len() - a,
{
    if a < s.len() && is_word_char(s[a as int]) {
        lemma_word_end_chars(s, a + 1);
    }
}

/// Whatever the scanner accepts satisfies [`lexed_token`], token by token.
pub proof fn lemma_lex_wf(s: Seq<char>, i: nat)
    requires
        i <= s.len(),
    ensures
        lex_from(s, i) matches Ok(ts) ==> forall|k: int|
            0 <= k < ts.len() ==> lexed_token(#[trigger] ts[k]),
    decreases s.len() - i,
{
    if i < s.len() {
        let c = s[i as int];
        if is_ws_char(c) {
            lemma_lex_wf(s, i + 1);
        } else if c == '"' {
            let j = string_end(s, i + 1);
            lemma_string_end_bounds(s, i + 1);
            if j < s.len() {
                lemma_lex_wf(s, j + 1);
                lemma_cons_wf(TokenView::Str(s.subrange(i as int, j as int)), lex_from(s, j + 1));
            }
        } else if structural_token(c) is Some {
            lemma_lex_wf(s, i + 1);
            lemma_cons_wf(structural_token(c)->Some_0, lex_from(s, i + 1));
        } else if is_operator_char(c) {
            lemma_lex_wf(s, i + 1);
            lemma_cons_wf(TokenView::Operator(c), lex_from(s, i + 1));
        } else if is_word_char(c) {
            let j = word_end(s, i + 1);
            lemma_word_end_bounds(s, i + 1);
            lemma_word_end_chars(s, i + 1);
            lemma_lex_wf(s, j);
            let w = s.subrange(i as int, j as int);
            assert(forall|m: int| 0 <= m < w.len() ==> is_word_char(#[trigger] w[m]));
            lemma_cons_wf(TokenView::Literal(w), lex_from(s, j));
        }
    }
}

/// Prepending a well-formed token to well-formed tokens stays well-formed.
proof fn lemma_cons_wf(t: TokenView, r: Result<Seq<TokenView>, LexError>)
    requires
        lexed_token(t),
        r matches Ok(rest) ==> forall|k: int| 0 <= k < rest.len() ==> lexed_token(#[trigger] rest[k]),
    ensures
        lex_cons(t, r) matches Ok(ts) ==> forall|k: int|
            0 <= k < ts.len() ==> lexed_token(#[trigger] ts[k]),
{
    match r {
        Ok(rest) => {
            let ts = seq![t] + rest;
            assert forall|k: int| 0 <= k < ts.len() implies lexed_token(#[trigger] ts[k]) by {
                if k == 0 {
                    assert(ts[0] == t);
                } else {
                    assert(ts[k] == rest[k - 1]);
                }
            }
        },
        Err(_) => {},
    }
}

/// An unterminated string literal: when scanning meets an opening quote with
/// no closing quote anywhere before the end of the input, the whole scan
/// fails with `UnterminatedString`. It cannot panic or read out of bounds:
/// the scanner is verified against `lex_from`, whose every access lies
/// within the input.
pub proof fn lemma_unterminated_string(s: Seq<char>, i: nat)
    requires
        i < s.len(),
        s[i as int] == '"',
        forall|k: int| i < k < s.len() ==> s[k] != '"',
    ensures
        lex_from(s, i) == Err::<Seq<TokenView>, LexError>(LexError::UnterminatedString),
{
    lemma_string_end_at(s, i + 1, s.len());
}

/// Tokens whose text may directly follow a literal without merging into it:
/// their first character is not a word character.
pub open spec fn separator(t: TokenView) -> bool {
    t is Space || t is Comma || t is Semicolon || t is OpenParen || t is ClosedParen
}

/// A well-formed laid-out stream: every token renderable with a sound
/// payload, and every literal directly followed by a separator, so that
/// serializing and rescanning cannot merge adjacent tokens.
pub open spec fn stream_ok(s: Seq<TokenView>) -> bool {
    &&& forall|k: int|
        0 <= k < s.len() ==> tok_payload_ok(#[trigger] s[k]) && renderable(s[k])
    &&& forall|k: int|
        0 <= k < s.len() && (#[trigger] s[k]) is Literal ==> k + 1 < s.len() && separator(s[k + 1])
}

/// Appending renderable non-literal tokens keeps a stream well-formed.
proof fn lemma_stream_append(s: Seq<TokenView>, u: Seq<TokenView>)
    requires
        stream_ok(s),
        forall|m: int|
            0 <= m < u.len() ==> tok_payload_ok(#[trigger] u[m]) && renderable(u[m]) && !(
            u[m] is Literal),
    ensures
        stream_ok(s + u),
{
    let c = s + u;
    assert forall|k: int| 0 <= k < c.len() && (#[trigger] c[k]) is Literal implies k + 1 < c.len()
        && separator(c[k + 1]) by {
        assert(k < s.len());
        assert(s[k] is Literal);
        assert(c[k + 1] == s[k + 1]);
    }
}

/// Stripping a trailing space and then pushing a separator keeps a stream
/// well-formed: a literal that lost its space gains the separator instead.
proof fn lemma_stream_strip_push(base: Seq<TokenView>, t: TokenView)
    requires
        stream_ok(base),
        separator(t),
        tok_payload_ok(t),
        renderable(t),
        !(t is Literal),
    ensures
        stream_ok(strip_space(base).push(t)),
{
    let c = strip_space(base).push(t);
    assert forall|k: int| 0 <= k < c.len() && (#[trigger] c[k]) is Literal implies k + 1 < c.len()
        && separator(c[k + 1]) by {
        assert(k < strip_space(base).len());
        assert(base[k] is Literal);
        if k + 1 < strip_space(base).len() {
            assert(c[k + 1] == base[k + 1]);
        } else {
            assert(c[k + 1] == t);
        }
    }
}

/// One layout step keeps the output stream well-formed, given a sound input
/// token.
proof fn lemma_step_stream_ok(out: Seq<TokenView>, depth: nat, t: TokenView)
    requires
        stream_ok(out),
        tok_payload_ok(t),
    ensures
        layout_step(out, depth, t) matches Ok(next) ==> stream_ok(next.0),
{
    let base = wrap_spec(out, depth);
    if line_len(out) > crate::fmt::MAX_COL as nat {
        assert(base =~= out + (seq![TokenView::NewLine] + tabs(depth + 1)));
        lemma_stream_append(out, seq![TokenView::NewLine] + tabs(depth + 1));
    }
    match layout_step(out, depth, t) {
        Ok(next) => {
            match t {
                TokenView::Operator(_) | TokenView::Literal(_) => {
                    let c = space_out_spec(base, t);
                    assert forall|k: int|
                        0 <= k < c.len() && (#[trigger] c[k]) is Literal implies k + 1 < c.len()
                        && separator(c[k + 1]) by {
                        if k < base.len() {
                            assert(base[k] is Literal);
                            assert(c[k + 1] == base[k + 1]);
                        } else {
                            assert(c[k] == t);
                            assert(c[k + 1] == TokenView::Space);
                        }
                    }
                },
                TokenView::OpenBrace => {
                    assert(next.0 =~= base + (seq![TokenView::OpenBrace, TokenView::NewLine]
                        + tabs(depth + 1)));
                    lemma_stream_append(
                        base,
                        seq![TokenView::OpenBrace, TokenView::NewLine] + tabs(depth + 1),
                    );
                },
                TokenView::ClosedBrace => {
                    assert(next.0 =~= base + (seq![TokenView::NewLine, TokenView::ClosedBrace]
                        + tabs((depth - 1) as nat)));
                    lemma_stream_append(
                        base,
                        seq![TokenView::NewLine, TokenView::ClosedBrace] + tabs((depth - 1) as nat),
                    );
                },
                TokenView::OpenParen => {
                    lemma_stream_strip_push(base, t);
                },
                TokenView::ClosedParen | TokenView::Comma => {
                    lemma_stream_strip_push(base, t);
                    assert(strip_space(base).push(t).push(TokenView::Space) =~= strip_space(
                        base,
                    ).push(t) + seq![TokenView::Space]);
                    lemma_stream_append(strip_space(base).push(t), seq![TokenView::Space]);
                },
                TokenView::Semicolon => {
                    lemma_stream_strip_push(base, t);
                    assert(next.0 =~= strip_space(base).push(t) + (seq![TokenView::NewLine] + tabs(
                        depth,
                    )));
                    lemma_stream_append(
                        strip_space(base).push(t),
                        seq![TokenView::NewLine] + tabs(depth),
                    );
                },
                _ => {
                    assert(next.0 =~= base + seq![t]);
                    lemma_stream_append(base, seq![t]);
                },
            }
        },
        Err(_) => {},
    }
}

/// Layout turns any stream of sound tokens into a well-formed stream.
pub proof fn lemma_layout_stream_ok(ts: Seq<TokenView>, i: nat, out: Seq<TokenView>, depth: nat)
    requires
        i <= ts.len(),
        stream_ok(out),
        forall|k: int| 0 <= k < ts.len() ==> tok_payload_ok(#[trigger] ts[k]),
    ensures
        layout_from(ts, i, out, depth) matches Ok(laid) ==> stream_ok(laid),
    decreases ts.len() - i,
{
    if i < ts.len() {
        match layout_step(out, depth, ts[i as int]) {
            Ok(next) => {
                lemma_step_stream_ok(out, depth, ts[i as int]);
                lemma_layout_stream_ok(ts, i + 1, next.0, next.1);
            },
            Err(_) => {},
        }
    }
}

/// The concatenated text of the tokens from `i` onward.
pub open spec fn text_cat(s: Seq<TokenView>, i: nat) -> Seq<char>
    decreases s.len() - i,
    when i <= s.len()
{
    if i >= s.len() {
        Seq::empty()
    } else {
        token_text(s[i as int]) + text_cat(s, i + 1)
    }
}

/// On renderable tokens, building is exactly the concatenated text.
pub proof fn lemma_render_text_cat(s: Seq<TokenView>, i: nat)
    requires
        i <= s.len(),
        forall|k: int| 0 <= k < s.len() ==> renderable(#[trigger] s[k]),
    ensures
        render_from(s, i) == Ok::<Seq<char>, RenderError>(text_cat(s, i)),
    decreases s.len() - i,
{
    if i < s.len() {
        lemma_render_text_cat(s, i + 1);
    }
}

/// Reading one character of a token's text through the tail of the full text.
proof fn lemma_skip_char(full: Seq<char>, pos: nat, w: Seq<char>, rest: Seq<char>, m: int)
    requires
        pos <= full.len(),
        full.skip(pos as int) == w + rest,
        0 <= m < w.len(),
    ensures
        full[pos + m] == w[m],
{
    assert(full.skip(pos as int).len() == full.len() - pos);
    assert((w + rest).len() == w.len() + rest.len());
    assert(full.skip(pos as int)[m] == full[m + pos]);
    assert((w + rest)[m] == w[m]);
}

/// The round trip: scanning the serialized text of a well-formed stream
/// yields exactly its non-whitespace tokens.
pub proof fn lemma_rescan(s: Seq<TokenView>, i: nat, full: Seq<char>, pos: nat)
    requires
        stream_ok(s),
        i <= s.len(),
        pos <= full.len(),
        full.skip(pos as int) == text_cat(s, i),
    ensures
        lex_from(full, pos) == Ok::<Seq<TokenView>, LexError>(nonws(s.skip(i as int))),
    decreases s.len() - i,
{
    if i >= s.len() {
        assert(full.skip(pos as int).len() == 0);
        assert(pos == full.len());
        assert(s.skip(i as int) =~= Seq::<TokenView>::empty());
        lemma_nonws_empty();
    } else {
        let t = s[i as int];
        let w = token_text(t);
        let rest = text_cat(s, i + 1);
        assert(full.skip(pos as int) == w + rest);
        assert(full.skip(pos as int).len() == w.len() + rest.len());
        let pos2 = (pos + w.len()) as nat;
        assert(pos2 <= full.len());
        assert forall|m: int| 0 <= m < rest.len() implies full.skip(pos2 as int)[m] == rest[m] by {
            assert(full.skip(pos2 as int)[m] == full[m + pos2]);
            assert(full.skip(pos as int)[w.len() + m] == full[(w.len() + m) + pos]);
            assert((w + rest)[w.len() + m] == rest[m]);
        }
        assert(full.skip(pos2 as int).len() == rest.len());
        assert(full.skip(pos2 as int) =~= rest);
        assert(s.skip(i as int) =~= seq![t] + s.skip(i as int + 1));
        lemma_nonws_add(seq![t], s.skip(i as int + 1));
        lemma_nonws_single(t);
        assert(tok_payload_ok(t) && renderable(t));
        match t {
            TokenView::Space | TokenView::NewLine => {
                lemma_skip_char(full, pos, w, rest, 0);
                assert(full[pos as int] == w[0]);
                assert(is_ws_char(full[pos as int]));
                lemma_rescan(s, i + 1, full, pos2);
                assert(Seq::<TokenView>::empty() + nonws(s.skip(i as int + 1)) =~= nonws(
                    s.skip(i as int + 1),
                ));
            },
            TokenView::Tab => {
                lemma_skip_char(full, pos, w, rest, 0);
                lemma_skip_char(full, pos, w, rest, 1);
                lemma_skip_char(full, pos, w, rest, 2);
                assert(full[pos as int] == ' ' && full[pos as int + 1] == ' ' && full[pos as int
                    + 2] == ' ');
                assert(lex_from(full, pos) == lex_from(full, pos + 1));
                assert(lex_from(full, pos + 1) == lex_from(full, pos + 2));
                assert(lex_from(full, pos + 2) == lex_from(full, pos + 3));
                lemma_rescan(s, i + 1, full, pos2);
                assert(Seq::<TokenView>::empty() + nonws(s.skip(i as int + 1)) =~= nonws(
                    s.skip(i as int + 1),
                ));
            },
            TokenView::Comma | TokenView::Semicolon | TokenView::OpenBrace
                | TokenView::ClosedBrace | TokenView::OpenParen | TokenView::ClosedParen => {
                lemma_skip_char(full, pos, w, rest, 0);
                let c = full[pos as int];
                assert(c == w[0]);
                assert(!is_ws_char(c) && c != '"');
                assert(structural_token(c) == Some(t));
                lemma_rescan(s, i + 1, full, pos2);
                assert(lex_from(full, pos) == lex_cons(t, lex_from(full, pos2)));
                assert(seq![t] + nonws(s.skip(i as int + 1)) == nonws(s.skip(i as int)));
            },
            TokenView::Operator(op) => {
                lemma_skip_char(full, pos, w, rest, 0);
                let c = full[pos as int];
                assert(c == w[0]);
                assert(c == op);
                assert(is_operator_char(c));
                assert(!is_ws_char(c) && c != '"' && structural_token(c) is None);
                lemma_rescan(s, i + 1, full, pos2);
                assert(lex_from(full, pos) == lex_cons(t, lex_from(full, pos2)));
                assert(seq![t] + nonws(s.skip(i as int + 1)) == nonws(s.skip(i as int)));
            },
            TokenView::Literal(lit) => {
                lemma_skip_char(full, pos, w, rest, 0);
                let c = full[pos as int];
                assert(c == w[0]);
                assert(c == lit[0]);
                assert(is_word_char(c));
                assert(!is_ws_char(c) && c != '"' && structural_token(c) is None
                    && !is_operator_char(c));
                // The separator behind the literal stops the word run.
                assert(i + 1 < s.len() && separator(s[i as int + 1]));
                let nt = token_text(s[i as int + 1]);
                assert(rest == nt + text_cat(s, i + 2));
                assert(nt.len() >= 1);
                assert(!is_word_char(nt[0]));
                assert(pos2 < full.len());
                assert(full.skip(pos2 as int)[0] == full[0 + pos2 as int]);
                assert((nt + text_cat(s, i + 2))[0] == nt[0]);
                assert(full[pos2 as int] == nt[0]);
                assert forall|k: int| pos + 1 <= k < pos2 implies is_word_char(
                    #[trigger] full[k],
                ) by {
                    lemma_skip_char(full, pos, w, rest, k - pos);
                    assert(full[k] == w[k - pos]);
                }
                lemma_word_end_at(full, (pos + 1) as nat, pos2);
                assert(word_end(full, (pos + 1) as nat) == pos2);
                assert forall|m: int| 0 <= m < lit.len() implies full.subrange(
                    pos as int,
                    pos2 as int,
                )[m] == lit[m] by {
                    lemma_skip_char(full, pos, w, rest, m);
                }
                assert(full.subrange(pos as int, pos2 as int) =~= lit);
                lemma_rescan(s, i + 1, full, pos2);
                assert(lex_from(full, pos) == lex_cons(t, lex_from(full, pos2)));
                assert(seq![t] + nonws(s.skip(i as int + 1)) == nonws(s.skip(i as int)));
            },
            TokenView::Str(_) => {
                assert(false);
            },
        }
    }
}

/// Formatting relates `x` to `o`: scanning `x`, laying the tokens out and
/// serializing them succeeds and yields `o`. This is exactly the success
/// path of `Formatter::format`.
pub open spec fn formats_to(x: Seq<char>, o: Seq<char>) -> bool {
    match lex_spec(x) {
        Ok(ts) => match layout_spec(ts) {
            Ok(laid) => render_spec(laid) == Ok::<Seq<char>, RenderError>(o),
            Err(_) => false,
        },
        Err(_) => false,
    }
}

/// Token preservation: scanning a formatted text yields exactly the tokens
/// of the original — same sequence, hence the same multiset of
/// non-whitespace tokens (the scanner emits no whitespace markers at all).
pub proof fn lemma_token_preservation(x: Seq<char>, o: Seq<char>)
    requires
        formats_to(x, o),
    ensures
        lex_spec(o) == lex_spec(x),
        lex_spec(o)->Ok_0.to_multiset() == lex_spec(x)->Ok_0.to_multiset(),
{
    let ts = lex_spec(x)->Ok_0;
    let laid = layout_spec(ts)->Ok_0;
    lemma_lex_wf(x, 0);
    assert(stream_ok(Seq::<TokenView>::empty()));
    lemma_layout_stream_ok(ts, 0, Seq::empty(), 0);
    lemma_render_text_cat(laid, 0);
    assert(o.skip(0) =~= o);
    lemma_rescan(laid, 0, o, 0);
    lemma_layout_nonws(ts, 0, Seq::empty(), 0);
    lemma_nonws_empty();
    assert(ts.skip(0) =~= ts);
    lemma_nonws_id(ts);
    assert(Seq::<TokenView>::empty() + ts =~= ts);
    assert(laid.skip(0) =~= laid);
    assert(lex_spec(o) == Ok::<Seq<TokenView>, LexError>(ts));
}

/// Idempotence: formatting a formatted text returns it byte for byte.
pub proof fn lemma_format_idempotent(x: Seq<char>, o: Seq<char>)
    requires
        formats_to(x, o),
    ensures
        formats_to(o, o),
{
    lemma_token_preservation(x, o);
}

/// Opening braces minus closing braces among the first `i` tokens.
pub open spec fn running_depth(ts: Seq<TokenView>, i: nat) -> int
    decreases i,
{
    if i == 0 || i > ts.len() {
        0
    } else {
        running_depth(ts, (i - 1) as nat) + if ts[i - 1] is OpenBrace {
            1
        } else if ts[i - 1] is ClosedBrace {
            -1
        } else {
            0
        }
    }
}

/// Whether token `j` passes layout, entered at token `i` with `depth` open
/// braces: it is no string token, and a closing brace still has an opener.
pub open spec fn accept_at(ts: Seq<TokenView>, i: nat, depth: nat, j: int) -> bool {
    &&& !(ts[j] is Str)
    &&& (ts[j] is ClosedBrace ==> depth + running_depth(ts, j as nat) - running_depth(ts, i) > 0)
}

proof fn lemma_layout_from_success(ts: Seq<TokenView>, i: nat, out: Seq<TokenView>, depth: nat)
    requires
        i <= ts.len(),
    ensures
        layout_from(ts, i, out, depth) is Ok <==> (forall|j: int|
            i <= j < ts.len() ==> #[trigger] accept_at(ts, i, depth, j)),
    decreases ts.len() - i,
{
    if i < ts.len() {
        let t = ts[i as int];
        match layout_step(out, depth, t) {
            Ok(next) => {
                lemma_layout_from_success(ts, i + 1, next.0, next.1);
                assert(running_depth(ts, i + 1) == running_depth(ts, i) + next.1 - depth);
                assert forall|j: int|
                    (forall|m: int| i <= m < ts.len() ==> #[trigger] accept_at(ts, i, depth, m))
                        && i + 1 <= j < ts.len() implies #[trigger] accept_at(
                    ts,
                    i + 1,
                    next.1,
                    j,
                ) by {
                    assert(accept_at(ts, i, depth, j));
                }
                assert forall|j: int|
                    (forall|m: int|
                        i + 1 <= m < ts.len() ==> #[trigger] accept_at(ts, i + 1, next.1, m)) && i
                        <= j < ts.len() implies #[trigger] accept_at(ts, i, depth, j) by {
                    if j == i {
                        assert(!(t is Str));
                        if t is ClosedBrace {
                            assert(depth > 0);
                        }
                    } else {
                        assert(accept_at(ts, i + 1, next.1, j));
                    }
                }
            },
            Err(_) => {
                assert(!accept_at(ts, i, depth, i as int));
            },
        }
    }
}

/// When layout is owed success: laying out a stream succeeds exactly when it
/// holds no string token and no prefix of it closes more braces than it has
/// opened.
pub proof fn lemma_layout_success(ts: Seq<TokenView>)
    ensures
        layout_spec(ts) is Ok <==> (forall|j: int|
            0 <= j < ts.len() ==> !((#[trigger] ts[j]) is Str) && (ts[j] is ClosedBrace
                ==> running_depth(ts, j as nat) > 0)),
{
    lemma_layout_from_success(ts, 0, Seq::empty(), 0);
    assert forall|j: int| 0 <= j < ts.len() implies (accept_at(ts, 0, 0, j) <==> (!(
    (#[trigger] ts[j]) is Str) && (ts[j] is ClosedBrace ==> running_depth(ts, j as nat) > 0))) by {
        assert(running_depth(ts, 0) == 0);
    }
}

/// Balanced nesting: in the laid-out stream, every closing brace stands
/// directly after a newline — its line carries no indentation, so it is
/// rendered at an indentation lesser or equal to that of any line, in
/// particular the line after its opener — and every opening brace stands
/// directly before the newline that opens its block. Together with
/// [`lemma_layout_preserves_tokens`], the braces themselves are exactly the
/// input's, in order.
pub proof fn lemma_balanced_nesting(ts: Seq<TokenView>, laid: Seq<TokenView>)
    requires
        layout_spec(ts) == Ok::<Seq<TokenView>, LayoutError>(laid),
    ensures
        forall|k: int|
            0 <= k < laid.len() && (#[trigger] laid[k]) is ClosedBrace ==> k >= 1 && laid[k
                - 1] is NewLine,
        forall|k: int|
            0 <= k < laid.len() && (#[trigger] laid[k]) is OpenBrace ==> k + 1 < laid.len()
                && laid[k + 1] is NewLine,
{
    lemma_layout_brace(ts, 0, Seq::empty(), 0);
}

} // verus!

