//! Lexical scanning: raw text to a flat sequence of typed tokens.
//!
//! The scanner elides whitespace entirely; newlines, spaces and tabs in the
//! output stream exist only where the layout engine later inserts them. A NUL
//! character is skipped like whitespace, so NUL-terminated buffers are
//! accepted as-is. A string literal token's payload runs from the opening
//! quote up to, but not including, the closing one — so it is never empty. A
//! literal is a maximal run of ASCII letters and digits; any other
//! unclassified character is rejected explicitly.

use vstd::prelude::*;

verus! {

/// A lexical token: structural punctuation, operators, string and literal
/// spans, and the whitespace markers that the layout engine inserts.
///
/// A `String` or `Literal` payload is never empty when the token comes from
/// the scanner, and layout never alters a payload after creation.
#[derive(Debug, PartialEq)]
pub enum Token {
    NewLine,
    Space,
    Tab,
    Comma,
    Semicolon,
    String(String),
    Operator(char),
    Literal(String),
    OpenBrace,
    ClosedBrace,
    OpenParen,
    ClosedParen,
}

/// The mathematical shape of a token: payloads as character sequences.
pub enum TokenView {
    NewLine,
    Space,
    Tab,
    Comma,
    Semicolon,
    Str(Seq<char>),
    Operator(char),
    Literal(Seq<char>),
    OpenBrace,
    ClosedBrace,
    OpenParen,
    ClosedParen,
}

impl View for Token {
    type V = TokenView;

    open spec fn view(&self) -> TokenView {
        match self {
            Token::NewLine => TokenView::NewLine,
            Token::Space => TokenView::Space,
            Token::Tab => TokenView::Tab,
            Token::Comma => TokenView::Comma,
            Token::Semicolon => TokenView::Semicolon,
            Token::String(s) => TokenView::Str(s@),
            Token::Operator(c) => TokenView::Operator(*c),
            Token::Literal(s) => TokenView::Literal(s@),
            Token::OpenBrace => TokenView::OpenBrace,
            Token::ClosedBrace => TokenView::ClosedBrace,
            Token::OpenParen => TokenView::OpenParen,
            Token::ClosedParen => TokenView::ClosedParen,
        }
    }
}

impl Token {
    /// A copy of this token with the same view; string payloads are cloned.
    pub fn duplicate(&self) -> (r: Token)
        ensures
            r@ == self@,
    {
        match self {
            Token::NewLine => Token::NewLine,
            Token::Space => Token::Space,
            Token::Tab => Token::Tab,
            Token::Comma => Token::Comma,
            Token::Semicolon => Token::Semicolon,
            Token::String(s) => Token::String(s.clone()),
            Token::Operator(c) => Token::Operator(*c),
            Token::Literal(s) => Token::Literal(s.clone()),
            Token::OpenBrace => Token::OpenBrace,
            Token::ClosedBrace => Token::ClosedBrace,
            Token::OpenParen => Token::OpenParen,
            Token::ClosedParen => Token::ClosedParen,
        }
    }

    /// A readable rendering of the token for messages and test output.
    pub fn describe(&self) -> (r: String)
        ensures
            r@ == describe_spec(self@),
    {
        match self {
            Token::NewLine => "NewLine".to_owned(),
            Token::Space => "Space".to_owned(),
            Token::Tab => "Tab".to_owned(),
            Token::Comma => "Comma".to_owned(),
            Token::Semicolon => "Semicolon".to_owned(),
            Token::String(s) => {
                let mut r = "String: ".to_owned();
                r.append(s.as_str());
                r
            },
            Token::Operator(c) => {
                let mut r = "Operator: ".to_owned();
                push_char(&mut r, *c);
                proof {
                    assert("Operator: "@.push(*c) =~= "Operator: "@ + seq![*c]);
                }
                r
            },
            Token::Literal(s) => {
                let mut r = "Literal: ".to_owned();
                r.append(s.as_str());
                r
            },
            Token::OpenBrace => "OpenBrace".to_owned(),
            Token::ClosedBrace => "ClosedBrace".to_owned(),
            Token::OpenParen => "OpenParen".to_owned(),
            Token::ClosedParen => "ClosedParen".to_owned(),
        }
    }
}

/// Appends one character. Relies on `String::push`, which appends exactly
/// the given character to the end of the string.
#[verifier::external_body]
pub(crate) fn push_char(s: &mut String, c: char)
    ensures
        final(s)@ == old(s)@.push(c),
{
    s.push(c);
}

/// The name of a token's kind followed by its payload, if it has one.
pub open spec fn describe_spec(t: TokenView) -> Seq<char> {
    match t {
        TokenView::NewLine => "NewLine"@,
        TokenView::Space => "Space"@,
        TokenView::Tab => "Tab"@,
        TokenView::Comma => "Comma"@,
        TokenView::Semicolon => "Semicolon"@,
        TokenView::Str(s) => "String: "@ + s,
        TokenView::Operator(c) => "Operator: "@ + seq![c],
        TokenView::Literal(s) => "Literal: "@ + s,
        TokenView::OpenBrace => "OpenBrace"@,
        TokenView::ClosedBrace => "ClosedBrace"@,
        TokenView::OpenParen => "OpenParen"@,
        TokenView::ClosedParen => "ClosedParen"@,
    }
}

/// The token-level view of a token sequence.
pub open spec fn toks_view(ts: Seq<Token>) -> Seq<TokenView> {
    ts.map_values(|t: Token| t@)
}

/// Why scanning failed.
#[derive(Clone, Copy, Debug, PartialEq, Eq, Structural)]
pub enum LexError {
    /// A `"` was opened and the input ended before the closing `"`.
    UnterminatedString,
    /// The cursor would have to move past the end of the input. The
    /// scanner's length-based cursor checks are verified, so it never
    /// produces this; the variant stands for completeness of the taxonomy.
    UnexpectedEnd,
    /// A character that matches no token rule.
    UnsupportedCharacter,
}

/// Characters the scanner skips: whitespace, and NUL as inert padding.
pub open spec fn is_ws_char(c: char) -> bool {
    c == ' ' || c == '\t' || c == '\r' || c == '\n' || c == '\0'
}

/// The fixed operator alphabet.
pub open spec fn is_operator_char(c: char) -> bool {
    c == '+' || c == '-' || c == '*' || c == '=' || c == ':'
}

/// ASCII letters and digits: the characters a literal is made of.
pub open spec fn is_word_char(c: char) -> bool {
    (97 <= c as u32 && c as u32 <= 122)  // 'a' ..= 'z'
    || (65 <= c as u32 && c as u32 <= 90)  // 'A' ..= 'Z'
    || (48 <= c as u32 && c as u32 <= 57)  // '0' ..= '9'
}

/// Single-character structural tokens.
pub open spec fn structural_token(c: char) -> Option<TokenView> {
    if c == '{' {
        Some(TokenView::OpenBrace)
    } else if c == '}' {
        Some(TokenView::ClosedBrace)
    } else if c == '(' {
        Some(TokenView::OpenParen)
    } else if c == ')' {
        Some(TokenView::ClosedParen)
    } else if c == ',' {
        Some(TokenView::Comma)
    } else if c == ';' {
        Some(TokenView::Semicolon)
    } else {
        None
    }
}

/// Position of the first `"` at or after `i`, or the input length if none.
pub open spec fn string_end(s: Seq<char>, i: nat) -> nat
    decreases s.len() - i,
{
    if i >= s.len() {
        s.len()
    } else if s[i as int] == '"' {
        i
    } else {
        string_end(s, i + 1)
    }
}

/// Position of the first non-word character at or after `i`, or the length.
pub open spec fn word_end(s: Seq<char>, i: nat) -> nat
    decreases s.len() - i,
{
    if i >= s.len() {
        s.len()
    } else if !is_word_char(s[i as int]) {
        i
    } else {
        word_end(s, i + 1)
    }
}

pub proof fn lemma_string_end_bounds(s: Seq<char>, i: nat)
    requires
        i <= s.len(),
    ensures
        i <= string_end(s, i) <= s.len(),
    decreases s.len() - i,
{
    if i < s.len() && s[i as int] != '"' {
        lemma_string_end_bounds(s, i + 1);
    }
}

pub proof fn lemma_word_end_bounds(s: Seq<char>, i: nat)
    requires
        i <= s.len(),
    ensures
        i <= word_end(s, i) <= s.len(),
    decreases s.len() - i,
{
    if i < s.len() && is_word_char(s[i as int]) {
        lemma_word_end_bounds(s, i + 1);
    }
}

/// Prepends one token to a scan result, keeping an error as it is.
pub open spec fn lex_cons(t: TokenView, r: Result<Seq<TokenView>, LexError>) -> Result<
    Seq<TokenView>,
    LexError,
> {
    match r {
        Ok(ts) => Ok(seq![t] + ts),
        Err(e) => Err(e),
    }
}

/// Prepends already-scanned tokens to the scan result of the rest.
pub open spec fn lex_cat(ts: Seq<TokenView>, r: Result<Seq<TokenView>, LexError>) -> Result<
    Seq<TokenView>,
    LexError,
> {
    match r {
        Ok(rest) => Ok(ts + rest),
        Err(e) => Err(e),
    }
}

/// What scanning the input from position `i` onward must produce: whitespace
/// and NUL are skipped, `"` opens a string span that must close before the
/// end, structural characters and operators map to their token kinds, a word
/// character opens a maximal literal run, and anything else is unsupported.
pub open spec fn lex_from(s: Seq<char>, i: nat) -> Result<Seq<TokenView>, LexError>
    decreases s.len() - i,
    when i <= s.len()
    via lex_from_decreases
{
    if i >= s.len() {
        Ok(Seq::empty())
    } else {
        let c = s[i as int];
        if is_ws_char(c) {
            lex_from(s, i + 1)
        } else if c == '"' {
            let j = string_end(s, i + 1);
            if j >= s.len() {
                Err(LexError::UnterminatedString)
            } else {
                lex_cons(TokenView::Str(s.subrange(i as int, j as int)), lex_from(s, j + 1))
            }
        } else if structural_token(c) is Some {
            lex_cons(structural_token(c)->Some_0, lex_from(s, i + 1))
        } else if is_operator_char(c) {
            lex_cons(TokenView::Operator(c), lex_from(s, i + 1))
        } else if is_word_char(c) {
            let j = word_end(s, i + 1);
            lex_cons(TokenView::Literal(s.subrange(i as int, j as int)), lex_from(s, j))
        } else {
            Err(LexError::UnsupportedCharacter)
        }
    }
}

#[via_fn]
proof fn lex_from_decreases(s: Seq<char>, i: nat) {
    if i < s.len() {
        lemma_string_end_bounds(s, i + 1);
        lemma_word_end_bounds(s, i + 1);
    }
}

/// What scanning the whole input must produce.
pub open spec fn lex_spec(s: Seq<char>) -> Result<Seq<TokenView>, LexError> {
    lex_from(s, 0)
}

/// `string_end` lands on the first quote: a quote-free span followed by a
/// quote (or the input's end) pins it down.
pub proof fn lemma_string_end_at(s: Seq<char>, a: nat, j: nat)
    requires
        a <= j <= s.len(),
        forall|k: int| a <= k < j ==> s[k] != '"',
        j == s.len() || s[j as int] == '"',
    ensures
        string_end(s, a) == j,
    decreases j - a,
{
    if a < j {
        lemma_string_end_at(s, a + 1, j);
    }
}

/// `word_end` lands on the first non-word character.
pub proof fn lemma_word_end_at(s: Seq<char>, a: nat, j: nat)
    requires
        a <= j <= s.len(),
        forall|k: int| a <= k < j ==> is_word_char(s[k]),
        j == s.len() || !is_word_char(s[j as int]),
    ensures
        word_end(s, a) == j,
    decreases j - a,
{
    if a < j {
        lemma_word_end_at(s, a + 1, j);
    }
}

/// Viewing a token sequence commutes with appending one token.
pub proof fn lemma_toks_view_push(ts: Seq<Token>, t: Token)
    ensures
        toks_view(ts.push(t)) == toks_view(ts).push(t@),
{
    assert(toks_view(ts.push(t)) =~= toks_view(ts).push(t@));
}

/// Emitting one token and then the rest is the same as emitting it up front.
pub proof fn lemma_lex_cat_push(ts: Seq<TokenView>, t: TokenView, r: Result<Seq<TokenView>, LexError>)
    ensures
        lex_cat(ts, lex_cons(t, r)) == lex_cat(ts.push(t), r),
{
    match r {
        Ok(rest) => {
            assert(ts + (seq![t] + rest) =~= ts.push(t) + rest);
        },
        Err(_) => {},
    }
}

/// The scanner: a cursor over the source text, consuming it left to right in
/// one pass with single-character lookahead.
pub struct Scanner<'s> {
    source: &'s String,
    n: usize,
    current: usize,
}

impl<'s> Scanner<'s> {
    /// The characters being scanned.
    pub closed spec fn src(&self) -> Seq<char> {
        self.source@
    }

    /// The cursor position, in characters.
    pub closed spec fn cur(&self) -> nat {
        self.current as nat
    }

    /// The cursor never leaves the input and the cached length is honest.
    pub closed spec fn wf(&self) -> bool {
        &&& self.n == self.source@.len()
        &&& self.current <= self.n
    }

    pub fn new(source: &'s String) -> (r: Self)
        ensures
            r.wf(),
            r.src() == source@,
            r.cur() == 0,
    {
        Self { source, n: source.as_str().unicode_len(), current: 0 }
    }

    /// Length-based end-of-input check.
    fn is_at_end(&self) -> (r: bool)
        requires
            self.wf(),
        ensures
            r == (self.cur() == self.src().len()),
    {
        self.current == self.n
    }

    /// The character under the cursor, or NUL at the end of the input.
    fn peek(&self) -> (r: char)
        requires
            self.wf(),
        ensures
            self.cur() < self.src().len() ==> r == self.src()[self.cur() as int],
            self.cur() == self.src().len() ==> r == '\0',
    {
        if self.is_at_end() {
            '\0'
        } else {
            self.source.as_str().get_char(self.current)
        }
    }

    /// Steps over the character under the cursor and returns it.
    fn advance(&mut self) -> (r: char)
        requires
            old(self).wf(),
            old(self).cur() < old(self).src().len(),
        ensures
            final(self).wf(),
            final(self).src() == old(self).src(),
            final(self).cur() == old(self).cur() + 1,
            r == final(self).src()[old(self).cur() as int],
    {
        let c = self.source.as_str().get_char(self.current);
        self.current = self.current + 1;
        c
    }

    /// Whether `character` belongs to the fixed operator alphabet.
    fn is_operator(&self, character: char) -> (r: bool)
        ensures
            r == is_operator_char(character),
    {
        match character {
            '+' => true,
            '-' => true,
            '*' => true,
            '=' => true,
            ':' => true,
            _ => false,
        }
    }

    /// The keyword table: a reclassification hook with no reserved words yet.
    fn is_keyword(&self, value: &str) -> (r: Option<Token>)
        ensures
            r is None,
    {
        let _ = value;
        None
    }

    /// Steps over whitespace (and NUL padding) without emitting anything.
    fn skip_whitespace(&mut self)
        requires
            old(self).wf(),
        ensures
            final(self).wf(),
            final(self).src() == old(self).src(),
            final(self).cur() >= old(self).cur(),
            lex_from(final(self).src(), final(self).cur()) == lex_from(old(self).src(), old(self).cur()),
            final(self).cur() < final(self).src().len() ==> !is_ws_char(
                final(self).src()[final(self).cur() as int],
            ),
    {
        while !self.is_at_end() && is_ws(self.peek())
            invariant
                self.wf(),
                self.src() == old(self).src(),
                self.cur() >= old(self).cur(),
                lex_from(self.src(), self.cur()) == lex_from(old(self).src(), old(self).cur()),
            decreases self.src().len() - self.cur(),
        {
            proof {
                assert(lex_from(self.src(), self.cur()) == lex_from(self.src(), self.cur() + 1));
            }
            self.current = self.current + 1;
        }
    }
}

/// A sequence is the push of its last element onto the rest.
proof fn lemma_push_shape(pre: Seq<Token>, post: Seq<Token>)
    requires
        post.len() == pre.len() + 1,
        post.drop_last() == pre,
    ensures
        post == pre.push(post.last()),
{
    assert(post =~= pre.push(post.last()));
}

impl<'s> Scanner<'s> {
    /// Scans the whole remaining input and returns its tokens, or the first
    /// lexical error. The result is exactly what [`lex_from`] demands of the
    /// text from the cursor onward (the whole text, on a fresh scanner).
    pub fn scan_source(&mut self) -> (r: Result<Vec<Token>, LexError>)
        requires
            old(self).wf(),
        ensures
            final(self).wf(),
            final(self).src() == old(self).src(),
            match r {
                Ok(ts) => lex_from(old(self).src(), old(self).cur()) == Ok::<
                    Seq<TokenView>,
                    LexError,
                >(toks_view(ts@)),
                Err(e) => lex_from(old(self).src(), old(self).cur()) == Err::<
                    Seq<TokenView>,
                    LexError,
                >(e),
            },
    {
        let ghost s0 = self.src();
        let ghost c0 = self.cur();
        let mut tokens: Vec<Token> = Vec::new();
        proof {
            assert(toks_view(tokens@) =~= Seq::<TokenView>::empty());
            match lex_from(s0, c0) {
                Ok(rest) => {
                    assert(toks_view(tokens@) + rest =~= rest);
                },
                Err(_) => {},
            }
        }
        while !self.is_at_end()
            invariant
                self.wf(),
                self.src() == s0,
                s0 == old(self).src(),
                c0 == old(self).cur(),
                c0 <= s0.len(),
                lex_from(s0, c0) == lex_cat(toks_view(tokens@), lex_from(self.src(), self.cur())),
            decreases self.src().len() - self.cur(),
        {
            let ghost pre_toks = tokens@;
            let ghost pre_cur = self.cur();
            match self.scan_token(&mut tokens) {
                Ok(()) => {
                    proof {
                        if tokens@.len() == pre_toks.len() + 1 {
                            lemma_push_shape(pre_toks, tokens@);
                            let t = tokens@.last();
                            lemma_toks_view_push(pre_toks, t);
                            lemma_lex_cat_push(
                                toks_view(pre_toks),
                                t@,
                                lex_from(self.src(), self.cur()),
                            );
                        }
                    }
                },
                Err(e) => {
                    return Err(e);
                },
            }
        }
        proof {
            assert(lex_from(self.src(), self.cur()) == Ok::<Seq<TokenView>, LexError>(
                Seq::empty(),
            ));
            assert(toks_view(tokens@) + Seq::<TokenView>::empty() =~= toks_view(tokens@));
        }
        Ok(tokens)
    }

    /// Scans at most one token at the cursor, appending it to `tokens`:
    /// leading whitespace is skipped first, and trailing whitespace alone
    /// produces nothing.
    fn scan_token(&mut self, tokens: &mut Vec<Token>) -> (r: Result<(), LexError>)
        requires
            old(self).wf(),
            old(self).cur() < old(self).src().len(),
        ensures
            final(self).wf(),
            final(self).src() == old(self).src(),
            r is Ok ==> final(self).cur() > old(self).cur(),
            match r {
                Ok(()) => {
                    ||| (*final(tokens) == *old(tokens) && lex_from(old(self).src(), old(self).cur())
                        == lex_from(final(self).src(), final(self).cur()))
                    ||| (final(tokens)@.len() == old(tokens)@.len() + 1
                        && final(tokens)@.drop_last() == old(tokens)@
                        && lex_from(old(self).src(), old(self).cur()) == lex_cons(
                            final(tokens)@.last()@,
                            lex_from(final(self).src(), final(self).cur()),
                        ))
                },
                Err(e) => lex_from(old(self).src(), old(self).cur()) == Err::<
                    Seq<TokenView>,
                    LexError,
                >(e) && *final(tokens) == *old(tokens),
            },
    {
        self.skip_whitespace();
        if self.is_at_end() {
            return Ok(());
        }
        let ghost s = self.src();
        let ghost i = self.cur();
        let ghost pre_toks = tokens@;
        let c = self.peek();
        if c == '"' {
            self.skip_string(tokens)
        } else if c == '{' {
            let _ = self.advance();
            tokens.push(Token::OpenBrace);
            proof {
                assert(tokens@.drop_last() =~= pre_toks);
                assert(lex_from(s, i) == lex_cons(TokenView::OpenBrace, lex_from(s, i + 1)));
            }
            Ok(())
        } else if c == '}' {
            let _ = self.advance();
            tokens.push(Token::ClosedBrace);
            proof {
                assert(tokens@.drop_last() =~= pre_toks);
                assert(lex_from(s, i) == lex_cons(TokenView::ClosedBrace, lex_from(s, i + 1)));
            }
            Ok(())
        } else if c == '(' {
            let _ = self.advance();
            tokens.push(Token::OpenParen);
            proof {
                assert(tokens@.drop_last() =~= pre_toks);
                assert(lex_from(s, i) == lex_cons(TokenView::OpenParen, lex_from(s, i + 1)));
            }
            Ok(())
        } else if c == ')' {
            let _ = self.advance();
            tokens.push(Token::ClosedParen);
            proof {
                assert(tokens@.drop_last() =~= pre_toks);
                assert(lex_from(s, i) == lex_cons(TokenView::ClosedParen, lex_from(s, i + 1)));
            }
            Ok(())
        } else if c == ',' {
            let _ = self.advance();
            tokens.push(Token::Comma);
            proof {
                assert(tokens@.drop_last() =~= pre_toks);
                assert(lex_from(s, i) == lex_cons(TokenView::Comma, lex_from(s, i + 1)));
            }
            Ok(())
        } else if c == ';' {
            let _ = self.advance();
            tokens.push(Token::Semicolon);
            proof {
                assert(tokens@.drop_last() =~= pre_toks);
                assert(lex_from(s, i) == lex_cons(TokenView::Semicolon, lex_from(s, i + 1)));
            }
            Ok(())
        } else if self.is_operator(c) {
            let _ = self.advance();
            tokens.push(Token::Operator(c));
            proof {
                assert(tokens@.drop_last() =~= pre_toks);
                assert(lex_from(s, i) == lex_cons(TokenView::Operator(c), lex_from(s, i + 1)));
            }
            Ok(())
        } else if is_word(c) {
            self.tokenize_literal(tokens);
            Ok(())
        } else {
            proof {
                assert(lex_from(s, i) == Err::<Seq<TokenView>, LexError>(
                    LexError::UnsupportedCharacter,
                ));
            }
            Err(LexError::UnsupportedCharacter)
        }
    }

    /// Scans a string literal; the cursor sits on the opening quote. The
    /// token's payload runs from the opening quote up to, but not including,
    /// the closing one.
    fn skip_string(&mut self, tokens: &mut Vec<Token>) -> (r: Result<(), LexError>)
        requires
            old(self).wf(),
            old(self).cur() < old(self).src().len(),
            old(self).src()[old(self).cur() as int] == '"',
        ensures
            final(self).wf(),
            final(self).src() == old(self).src(),
            r is Ok ==> final(self).cur() > old(self).cur(),
            match r {
                Ok(()) => final(tokens)@.len() == old(tokens)@.len() + 1
                    && final(tokens)@.drop_last() == old(tokens)@
                    && lex_from(old(self).src(), old(self).cur()) == lex_cons(
                        final(tokens)@.last()@,
                        lex_from(final(self).src(), final(self).cur()),
                    ),
                Err(e) => lex_from(old(self).src(), old(self).cur()) == Err::<
                    Seq<TokenView>,
                    LexError,
                >(e) && *final(tokens) == *old(tokens),
            },
    {
        let ghost s = self.src();
        let ghost i = self.cur();
        let ghost pre_toks = tokens@;
        let start = self.current;
        let mut j = start + 1;
        while j < self.n && !(self.source.as_str().get_char(j) == '"')
            invariant
                self.wf(),
                self.src() == s,
                start + 1 <= j <= self.n,
                start == self.current,
                forall|k: int| start + 1 <= k < j ==> s[k] != '"',
            decreases self.n - j,
        {
            j = j + 1;
        }
        proof {
            lemma_string_end_at(s, (start + 1) as nat, j as nat);
        }
        if j == self.n {
            proof {
                assert(lex_from(s, i) == Err::<Seq<TokenView>, LexError>(
                    LexError::UnterminatedString,
                ));
            }
            return Err(LexError::UnterminatedString);
        }
        let value = self.source.as_str().substring_char(start, j).to_owned();
        tokens.push(Token::String(value));
        self.current = j + 1;
        proof {
            assert(tokens@.drop_last() =~= pre_toks);
            assert(lex_from(s, i) == lex_cons(
                TokenView::Str(s.subrange(i as int, j as int)),
                lex_from(s, (j + 1) as nat),
            ));
        }
        Ok(())
    }

    /// Scans a literal: a maximal run of word characters starting at the
    /// cursor, reclassified by the keyword table when it matches (it never
    /// does while the table is empty).
    fn tokenize_literal(&mut self, tokens: &mut Vec<Token>)
        requires
            old(self).wf(),
            old(self).cur() < old(self).src().len(),
            is_word_char(old(self).src()[old(self).cur() as int]),
        ensures
            final(self).wf(),
            final(self).src() == old(self).src(),
            final(self).cur() > old(self).cur(),
            final(tokens)@.len() == old(tokens)@.len() + 1,
            final(tokens)@.drop_last() == old(tokens)@,
            lex_from(old(self).src(), old(self).cur()) == lex_cons(
                final(tokens)@.last()@,
                lex_from(final(self).src(), final(self).cur()),
            ),
    {
        let ghost s = self.src();
        let ghost i = self.cur();
        let ghost pre_toks = tokens@;
        let start = self.current;
        let mut j = start + 1;
        while j < self.n && is_word(self.source.as_str().get_char(j))
            invariant
                self.wf(),
                self.src() == s,
                start + 1 <= j <= self.n,
                start == self.current,
                forall|k: int| start + 1 <= k < j ==> is_word_char(s[k]),
            decreases self.n - j,
        {
            j = j + 1;
        }
        proof {
            lemma_word_end_at(s, (start + 1) as nat, j as nat);
        }
        let value: &str = self.source.as_str().substring_char(start, j);
        let token = match self.is_keyword(value) {
            Some(keyword) => keyword,
            None => Token::Literal(value.to_owned()),
        };
        tokens.push(token);
        self.current = j;
        proof {
            assert(tokens@.drop_last() =~= pre_toks);
            assert(lex_from(s, i) == lex_cons(
                TokenView::Literal(s.subrange(i as int, j as int)),
                lex_from(s, j as nat),
            ));
        }
    }
}

/// Whether `c` is skipped by the scanner.
fn is_ws(c: char) -> (r: bool)
    ensures
        r == is_ws_char(c),
{
    c == ' ' || c == '\t' || c == '\r' || c == '\n' || c == '\0'
}

/// Whether `c` is an ASCII letter or digit.
fn is_word(c: char) -> (r: bool)
    ensures
        r == is_word_char(c),
{
    let u = c as u32;
    (97 <= u && u <= 122) || (65 <= u && u <= 90) || (48 <= u && u <= 57)
}

} // verus!
