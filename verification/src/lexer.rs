//! Lexical analysis: bytes to positioned tokens.
//!
//! The model of the lexer is [`lex_step`], a function from the source bytes
//! and a scan position to the next token or error and the position after it.
//! [`Lexer::next`] is proved to compute exactly that function.

use crate::error::{error_views, LspError, LspErrorView};
use crate::parser::TokenContext;
use crate::text::{ascii_text, is_ascii_bytes, lemma_ascii_decodes, string_from_utf8, utf8_failure_text};
use vstd::prelude::*;
use vstd::slice::{slice_subrange, slice_to_vec};
use vstd::std_specs::cmp::PartialEqSpecImpl;
use vstd::utf8::{decode_utf8, valid_utf8};

verus! {

/// What a token is. A number carries the decimal text of its literal.
#[derive(Debug)]
pub enum TokenType {
    Number(String),
    String(String),
    Ident(String),
    Hashtag,
    DelimitorLeft,
    DelimitorRight,
    EOF,
}

/// The mathematical value of a [`TokenType`].
pub enum TokenTypeView {
    Number(Seq<char>),
    String(Seq<char>),
    Ident(Seq<char>),
    Hashtag,
    DelimitorLeft,
    DelimitorRight,
    EOF,
}

impl View for TokenType {
    type V = TokenTypeView;

    open spec fn view(&self) -> TokenTypeView {
        match self {
            TokenType::Number(text) => TokenTypeView::Number(text@),
            TokenType::String(text) => TokenTypeView::String(text@),
            TokenType::Ident(text) => TokenTypeView::Ident(text@),
            TokenType::Hashtag => TokenTypeView::Hashtag,
            TokenType::DelimitorLeft => TokenTypeView::DelimitorLeft,
            TokenType::DelimitorRight => TokenTypeView::DelimitorRight,
            TokenType::EOF => TokenTypeView::EOF,
        }
    }
}

impl Clone for TokenType {
    fn clone(&self) -> (copy: TokenType)
        ensures
            copy@ == self@,
    {
        match self {
            TokenType::Number(text) => TokenType::Number(text.clone()),
            TokenType::String(text) => TokenType::String(text.clone()),
            TokenType::Ident(text) => TokenType::Ident(text.clone()),
            TokenType::Hashtag => TokenType::Hashtag,
            TokenType::DelimitorLeft => TokenType::DelimitorLeft,
            TokenType::DelimitorRight => TokenType::DelimitorRight,
            TokenType::EOF => TokenType::EOF,
        }
    }
}

impl PartialEq for TokenType {
    fn eq(&self, other: &TokenType) -> (equal: bool) {
        match (self, other) {
            (TokenType::Number(a), TokenType::Number(b)) => *a == *b,
            (TokenType::String(a), TokenType::String(b)) => *a == *b,
            (TokenType::Ident(a), TokenType::Ident(b)) => *a == *b,
            (TokenType::Hashtag, TokenType::Hashtag) => true,
            (TokenType::DelimitorLeft, TokenType::DelimitorLeft) => true,
            (TokenType::DelimitorRight, TokenType::DelimitorRight) => true,
            (TokenType::EOF, TokenType::EOF) => true,
            _ => false,
        }
    }
}

impl PartialEqSpecImpl for TokenType {
    open spec fn obeys_eq_spec() -> bool {
        true
    }

    open spec fn eq_spec(&self, other: &TokenType) -> bool {
        self@ == other@
    }
}

/// How a token kind is written in a message.
pub open spec fn kind_text(kind: TokenTypeView) -> Seq<char> {
    match kind {
        TokenTypeView::Number(text) => "Number("@ + text + ")"@,
        TokenTypeView::String(text) => "String(\""@ + text + "\")"@,
        TokenTypeView::Ident(text) => "Ident(\""@ + text + "\")"@,
        TokenTypeView::Hashtag => "Hashtag"@,
        TokenTypeView::DelimitorLeft => "DelimitorLeft"@,
        TokenTypeView::DelimitorRight => "DelimitorRight"@,
        TokenTypeView::EOF => "EOF"@,
    }
}

impl TokenType {
    /// The kind as it is written in messages.
    pub fn describe(&self) -> (text: String)
        ensures
            text@ == kind_text(self@),
    {
        match self {
            TokenType::Number(payload) => {
                let mut text = String::from_str("Number(");
                text.append(payload.as_str());
                text.append(")");
                text
            },
            TokenType::String(payload) => {
                let mut text = String::from_str("String(\"");
                text.append(payload.as_str());
                text.append("\")");
                text
            },
            TokenType::Ident(payload) => {
                let mut text = String::from_str("Ident(\"");
                text.append(payload.as_str());
                text.append("\")");
                text
            },
            TokenType::Hashtag => String::from_str("Hashtag"),
            TokenType::DelimitorLeft => String::from_str("DelimitorLeft"),
            TokenType::DelimitorRight => String::from_str("DelimitorRight"),
            TokenType::EOF => String::from_str("EOF"),
        }
    }
}

/// A token and the span of source bytes it was read from.
#[derive(Debug)]
pub struct Token {
    pub token_type: TokenType,
    pub line: usize,
    pub start: usize,
    pub end: usize,
}

/// The mathematical value of a [`Token`].
pub struct TokenView {
    pub token_type: TokenTypeView,
    pub line: usize,
    pub start: usize,
    pub end: usize,
}

impl TokenView {
    /// The span the token was read from.
    pub open spec fn ctx(self) -> TokenContext {
        TokenContext { line: self.line, start: self.start, end: self.end }
    }
}

impl View for Token {
    type V = TokenView;

    open spec fn view(&self) -> TokenView {
        TokenView {
            token_type: self.token_type@,
            line: self.line,
            start: self.start,
            end: self.end,
        }
    }
}

/// The views of a sequence of tokens, in order.
pub open spec fn token_views(tokens: Seq<Token>) -> Seq<TokenView> {
    tokens.map_values(|t: Token| t@)
}

/// The view of what one step of the lexer hands out.
pub open spec fn lexed_view(item: Result<Token, LspError>) -> Result<TokenView, LspErrorView> {
    match item {
        Ok(token) => Ok(token@),
        Err(error) => Err(error@),
    }
}

/// The character a source byte stands for.
pub open spec fn char_at(s: Seq<u8>, i: int) -> char {
    s[i] as char
}

/// Space, tab and newline separate tokens.
pub open spec fn is_blank(c: char) -> bool {
    c == ' ' || c == '\t' || c == '\n'
}

pub open spec fn is_digit(c: char) -> bool {
    '0' <= c <= '9'
}

pub open spec fn is_letter(c: char) -> bool {
    ('a' <= c <= 'z') || ('A' <= c <= 'Z')
}

/// The three kinds of byte run that make up the longer tokens.
#[derive(Clone, Copy, Debug, PartialEq, Eq, Structural)]
pub enum Run {
    /// Digits and decimal points.
    Number,
    /// Letters, digits and underscores.
    Ident,
    /// Everything up to the next double quote.
    Quoted,
}

impl Run {
    /// True when `c` may continue a run of this kind.
    pub open spec fn holds(self, c: char) -> bool {
        match self {
            Run::Number => is_digit(c) || c == '.',
            Run::Ident => is_letter(c) || is_digit(c) || c == '_',
            Run::Quoted => c != '"',
        }
    }

    /// Decides [`Run::holds`].
    pub fn admits(self, c: char) -> (yes: bool)
        ensures
            yes == self.holds(c),
    {
        match self {
            Run::Number => ('0' <= c && c <= '9') || c == '.',
            Run::Ident => ('a' <= c && c <= 'z') || ('A' <= c && c <= 'Z') || ('0' <= c && c
                <= '9') || c == '_',
            Run::Quoted => c != '"',
        }
    }
}

/// The first position at or after `from` whose byte does not continue the
/// run, or the end of the source.
pub open spec fn run_end(s: Seq<u8>, from: int, run: Run) -> int
    decreases s.len() - from,
{
    if 0 <= from < s.len() && run.holds(char_at(s, from)) {
        run_end(s, from + 1, run)
    } else {
        from
    }
}

/// Where the blanks and line comments that begin at `from` end. A comment
/// starts at `;` and runs up to the next newline.
pub open spec fn trivia_end(s: Seq<u8>, from: int, in_comment: bool) -> int
    decreases s.len() - from,
{
    if from < 0 || from >= s.len() {
        from
    } else if in_comment {
        trivia_end(s, from + 1, char_at(s, from) != '\n')
    } else if is_blank(char_at(s, from)) {
        trivia_end(s, from + 1, false)
    } else if char_at(s, from) == ';' {
        trivia_end(s, from + 1, true)
    } else {
        from
    }
}

/// The number of newline bytes in `s[from..to]`.
pub open spec fn newlines(s: Seq<u8>, from: int, to: int) -> int
    decreases to - from,
{
    if to <= from {
        0
    } else {
        newlines(s, from, to - 1) + if char_at(s, to - 1) == '\n' {
            1int
        } else {
            0int
        }
    }
}

/// The number of decimal points among `bytes`.
pub open spec fn dots(bytes: Seq<u8>) -> int
    decreases bytes.len(),
{
    if bytes.len() == 0 {
        0
    } else {
        dots(bytes.drop_last()) + if bytes.last() as char == '.' {
            1int
        } else {
            0int
        }
    }
}

/// The span on `line` from byte `start` to byte `end`.
pub open spec fn span(line: int, start: int, end: int) -> TokenContext {
    TokenContext { line: line as usize, start: start as usize, end: end as usize }
}

/// The token of the given kind read from `start..end` on `line`.
pub open spec fn token_at(kind: TokenTypeView, line: int, start: int, end: int) -> TokenView {
    TokenView { token_type: kind, line: line as usize, start: start as usize, end: end as usize }
}

/// What one step of the lexer yields, and where it leaves the scan.
pub struct LexStep {
    pub result: Result<TokenView, LspErrorView>,
    pub pos: int,
    pub line: int,
}

pub open spec fn malformed_number_message() -> Seq<char> {
    "Failed to parse number: invalid float literal"@
}

pub open spec fn undecodable_string_message(bytes: Seq<u8>) -> Seq<char> {
    "Failed to create string: "@ + utf8_failure_text(bytes)
}

pub open spec fn unterminated_string_message() -> Seq<char> {
    "Unterminated string"@
}

pub open spec fn unknown_character_message(c: char) -> Seq<char> {
    "Unknown character '"@ + seq![c] + "'"@
}

/// A number: the run of digits and decimal points that starts at `p`. The
/// run is a number when it holds at most one decimal point.
pub open spec fn lex_number(s: Seq<u8>, p: int, line: int) -> LexStep {
    let end = run_end(s, p, Run::Number);
    let literal = s.subrange(p, end);
    LexStep {
        result: if dots(literal) <= 1 {
            Ok(token_at(TokenTypeView::Number(ascii_text(literal)), line, p, end))
        } else {
            Err(LspErrorView { ctx: span(line, p, end), message: malformed_number_message() })
        },
        pos: end,
        line,
    }
}

/// An identifier: the run of letters, digits and underscores at `p`.
pub open spec fn lex_ident(s: Seq<u8>, p: int, line: int) -> LexStep {
    let end = run_end(s, p, Run::Ident);
    LexStep {
        result: Ok(token_at(TokenTypeView::Ident(ascii_text(s.subrange(p, end))), line, p, end)),
        pos: end,
        line,
    }
}

/// A string: the bytes between the quote at `p` and the next quote, decoded
/// as UTF-8. The span covers the bytes between the quotes, on the line
/// where the string begins; the newlines between the quotes count as lines
/// for what follows. A string whose bytes do not decode leaves the scan at
/// its closing quote.
pub open spec fn lex_string(s: Seq<u8>, p: int, line: int) -> LexStep {
    let start = p + 1;
    let end = run_end(s, start, Run::Quoted);
    let body = s.subrange(start, end);
    let after = line + newlines(s, start, end);
    if !valid_utf8(body) {
        LexStep {
            result: Err(
                LspErrorView { ctx: span(line, start, end), message: undecodable_string_message(body) },
            ),
            pos: end,
            line: after,
        }
    } else if end >= s.len() {
        LexStep {
            result: Err(
                LspErrorView { ctx: span(line, start, end), message: unterminated_string_message() },
            ),
            pos: end,
            line: after,
        }
    } else {
        LexStep {
            result: Ok(token_at(TokenTypeView::String(decode_utf8(body)), line, start, end)),
            pos: end + 1,
            line: after,
        }
    }
}

/// The token that starts at byte `p`, which is no blank and starts no
/// comment.
pub open spec fn lex_token(s: Seq<u8>, p: int, line: int) -> LexStep {
    let c = char_at(s, p);
    if c == '(' {
        LexStep { result: Ok(token_at(TokenTypeView::DelimitorLeft, line, p, p)), pos: p + 1, line }
    } else if c == ')' {
        LexStep { result: Ok(token_at(TokenTypeView::DelimitorRight, line, p, p)), pos: p + 1, line }
    } else if c == '#' {
        LexStep { result: Ok(token_at(TokenTypeView::Hashtag, line, p, p)), pos: p + 1, line }
    } else if is_digit(c) {
        lex_number(s, p, line)
    } else if is_letter(c) {
        lex_ident(s, p, line)
    } else if c == '"' {
        lex_string(s, p, line)
    } else {
        LexStep {
            result: Err(LspErrorView { ctx: span(line, p, p), message: unknown_character_message(c) }),
            pos: p + 1,
            line,
        }
    }
}

/// One step of the lexer from byte `pos` on line `line`: skip blanks and
/// comments, counting the newlines passed, then read one token. At the end
/// of the source the step yields `EOF` and stays where it is.
pub open spec fn lex_step(s: Seq<u8>, pos: int, line: int) -> LexStep {
    let p = trivia_end(s, pos, false);
    let l = line + newlines(s, pos, p);
    if p >= s.len() {
        LexStep { result: Ok(token_at(TokenTypeView::EOF, l, p, p)), pos: p, line: l }
    } else {
        lex_token(s, p, l)
    }
}

/// A run ends inside the source, after bytes that all continue it and
/// before a byte that does not.
pub proof fn lemma_run_end(s: Seq<u8>, from: int, run: Run)
    requires
        0 <= from <= s.len(),
    ensures
        from <= run_end(s, from, run) <= s.len(),
        forall|i: int| from <= i < run_end(s, from, run) ==> run.holds(char_at(s, i)),
        run_end(s, from, run) < s.len() ==> !run.holds(char_at(s, run_end(s, from, run))),
    decreases s.len() - from,
{
    if from < s.len() && run.holds(char_at(s, from)) {
        lemma_run_end(s, from + 1, run);
    }
}

/// The end of a run is the only position with the properties of
/// [`lemma_run_end`].
pub proof fn lemma_run_end_is(s: Seq<u8>, from: int, end: int, run: Run)
    requires
        0 <= from <= end <= s.len(),
        forall|i: int| from <= i < end ==> run.holds(char_at(s, i)),
        end < s.len() ==> !run.holds(char_at(s, end)),
    ensures
        run_end(s, from, run) == end,
    decreases end - from,
{
    if from < end {
        lemma_run_end_is(s, from + 1, end, run);
    }
}

/// Trivia ends inside the source, at or after where it began.
pub proof fn lemma_trivia_end_bounds(s: Seq<u8>, from: int, in_comment: bool)
    requires
        0 <= from <= s.len(),
    ensures
        from <= trivia_end(s, from, in_comment) <= s.len(),
    decreases s.len() - from,
{
    if from < s.len() {
        if in_comment {
            lemma_trivia_end_bounds(s, from + 1, char_at(s, from) != '\n');
        } else if is_blank(char_at(s, from)) {
            lemma_trivia_end_bounds(s, from + 1, false);
        } else if char_at(s, from) == ';' {
            lemma_trivia_end_bounds(s, from + 1, true);
        }
    }
}

/// A stretch of bytes holds no more newlines than bytes.
pub proof fn lemma_newlines_bounds(s: Seq<u8>, from: int, to: int)
    requires
        from <= to,
    ensures
        0 <= newlines(s, from, to) <= to - from,
    decreases to - from,
{
    if from < to {
        lemma_newlines_bounds(s, from, to - 1);
    }
}

/// The lexer: a cursor into the source bytes and the number of the line the
/// cursor is on.
pub struct Lexer<'lexer> {
    pos: usize,
    line: usize,
    input: &'lexer [u8],
}

impl<'lexer> Lexer<'lexer> {
    #[verifier::type_invariant]
    spec fn well_formed(self) -> bool {
        self.line <= self.pos <= self.input@.len()
    }

    /// The bytes being read.
    pub closed spec fn source(&self) -> Seq<u8> {
        self.input@
    }

    /// The byte offset of the cursor.
    pub closed spec fn offset(&self) -> int {
        self.pos as int
    }

    /// The zero-based number of the line the cursor is on: the number of
    /// newlines skipped so far.
    pub closed spec fn line_number(&self) -> int {
        self.line as int
    }

    /// A lexer at the start of `input`.
    pub fn new(input: &'lexer [u8]) -> (lexer: Lexer<'lexer>)
        ensures
            lexer.source() == input@,
            lexer.offset() == 0,
            lexer.line_number() == 0,
            lexer.source().len() <= usize::MAX,
    {
        proof {
            assert(input.len() == input@.len());
        }
        Lexer { pos: 0, line: 0, input }
    }

    /// The character under the cursor, if any.
    pub fn cur(&self) -> (c: Option<char>)
        ensures
            0 <= self.line_number() <= self.offset() <= self.source().len() <= usize::MAX,
            c == if self.offset() < self.source().len() {
                Some(char_at(self.source(), self.offset()))
            } else {
                None
            },
    {
        proof {
            use_type_invariant(self);
        }
        if self.pos < self.input.len() {
            Some(self.input[self.pos] as char)
        } else {
            None
        }
    }

    /// The character after the one under the cursor, if any.
    pub fn peek(&self) -> (c: Option<char>)
        ensures
            0 <= self.line_number() <= self.offset() <= self.source().len() <= usize::MAX,
            c == if self.offset() + 1 < self.source().len() {
                Some(char_at(self.source(), self.offset() + 1))
            } else {
                None
            },
    {
        proof {
            use_type_invariant(self);
        }
        let len = self.input.len();
        if len > 0 && self.pos < len - 1 {
            Some(self.input[self.pos + 1] as char)
        } else {
            None
        }
    }

    /// Moves the cursor one byte on. At the end of the source it stays: the
    /// cursor never leaves the source.
    fn advance(&mut self)
        ensures
            final(self).offset() == if old(self).offset() < old(self).source().len() {
                old(self).offset() + 1
            } else {
                old(self).offset()
            },
            final(self).line_number() == old(self).line_number(),
            final(self).source() == old(self).source(),
    {
        proof {
            use_type_invariant(&*self);
        }
        if self.pos < self.input.len() {
            self.pos += 1;
        }
    }

    /// The error that cites the bytes from `start` to the cursor on the
    /// current line.
    fn err(&self, message: String, start: usize) -> (error: LspError)
        ensures
            error@ == (LspErrorView {
                ctx: span(self.line_number(), start as int, self.offset()),
                message: message@,
            }),
    {
        LspError::with_context(TokenContext { line: self.line, start, end: self.pos }, message)
    }

    /// The token of one byte, or of none, at the cursor.
    fn create_token(&self, token_type: TokenType) -> (token: Result<Token, LspError>)
        ensures
            lexed_view(token) == Ok::<TokenView, LspErrorView>(
                token_at(token_type@, self.line_number(), self.offset(), self.offset()),
            ),
    {
        Ok(Token { token_type, line: self.line, start: self.pos, end: self.pos })
    }
}

/// Every step taken before the end of the source moves the scan forward and
/// leaves it inside the source.
pub proof fn lemma_lex_step_advances(s: Seq<u8>, pos: int, line: int)
    requires
        0 <= pos < s.len(),
    ensures
        pos < lex_step(s, pos, line).pos <= s.len(),
        line <= lex_step(s, pos, line).line <= line + (lex_step(s, pos, line).pos - pos),
{
    let p = trivia_end(s, pos, false);
    lemma_trivia_end_bounds(s, pos, false);
    lemma_newlines_bounds(s, pos, p);
    if p < s.len() {
        lemma_run_end(s, p, Run::Number);
        lemma_run_end(s, p, Run::Ident);
        lemma_run_end(s, p + 1, Run::Quoted);
        lemma_newlines_bounds(s, p + 1, run_end(s, p + 1, Run::Quoted));
    }
}

impl<'lexer> Lexer<'lexer> {
    /// Counts one more line. The cursor has already passed the newline.
    fn count_line(&mut self)
        requires
            old(self).line_number() < old(self).offset(),
        ensures
            final(self).line_number() == old(self).line_number() + 1,
            final(self).offset() == old(self).offset(),
            final(self).source() == old(self).source(),
    {
        proof {
            use_type_invariant(&*self);
        }
        self.line += 1;
    }

    /// Skips blanks and line comments, counting the newlines passed.
    fn skip_trivia(&mut self)
        ensures
            final(self).source() == old(self).source(),
            final(self).offset() == trivia_end(old(self).source(), old(self).offset(), false),
            final(self).line_number() == old(self).line_number() + newlines(
                old(self).source(),
                old(self).offset(),
                final(self).offset(),
            ),
    {
        let ghost s = self.source();
        let ghost from = self.offset();
        let ghost line = self.line_number();
        proof {
            use_type_invariant(&*self);
        }
        let mut in_comment = false;
        loop
            invariant_except_break
                self.source() == s,
                0 <= from <= self.offset() <= s.len(),
                trivia_end(s, from, false) == trivia_end(s, self.offset(), in_comment),
                self.line_number() == line + newlines(s, from, self.offset()),
            ensures
                self.source() == s,
                self.offset() == trivia_end(s, from, false),
                self.line_number() == line + newlines(s, from, self.offset()),
            decreases s.len() - self.offset(),
        {
            proof {
                use_type_invariant(&*self);
            }
            match self.cur() {
                None => {
                    break ;
                },
                Some(c) => {
                    if in_comment {
                        self.advance();
                        if c == '\n' {
                            in_comment = false;
                            self.count_line();
                        }
                    } else if c == ' ' || c == '\t' {
                        self.advance();
                    } else if c == '\n' {
                        self.advance();
                        self.count_line();
                    } else if c == ';' {
                        in_comment = true;
                        self.advance();
                    } else {
                        break ;
                    }
                },
            }
        }
    }

    /// Moves the cursor to the end of the run that starts under it.
    fn scan(&mut self, run: Run)
        ensures
            final(self).source() == old(self).source(),
            final(self).line_number() == old(self).line_number(),
            final(self).offset() == run_end(old(self).source(), old(self).offset(), run),
    {
        let ghost s = self.source();
        let ghost from = self.offset();
        let ghost line = self.line_number();
        proof {
            use_type_invariant(&*self);
        }
        loop
            invariant_except_break
                self.source() == s,
                self.line_number() == line,
                0 <= from <= self.offset() <= s.len(),
                forall|i: int| from <= i < self.offset() ==> run.holds(char_at(s, i)),
            ensures
                self.source() == s,
                self.line_number() == line,
                self.offset() == run_end(s, from, run),
            decreases s.len() - self.offset(),
        {
            let more = match self.cur() {
                Some(c) => run.admits(c),
                None => false,
            };
            if !more {
                proof {
                    lemma_run_end_is(s, from, self.offset(), run);
                }
                break ;
            }
            self.advance();
        }
    }

    /// A copy of the source bytes from `start` up to the cursor.
    fn bytes_from(&self, start: usize) -> (bytes: Vec<u8>)
        requires
            start <= self.offset(),
        ensures
            bytes@ == self.source().subrange(start as int, self.offset()),
    {
        proof {
            use_type_invariant(self);
        }
        slice_to_vec(slice_subrange(self.input, start, self.pos))
    }

    /// The text that the source bytes from `start` up to the cursor encode,
    /// or the error that says why they encode none.
    fn text_from(&self, start: usize) -> (text: Result<String, LspError>)
        requires
            start <= self.offset(),
        ensures
            ({
                let bytes = self.source().subrange(start as int, self.offset());
                match text {
                    Ok(decoded) => valid_utf8(bytes) && decoded@ == decode_utf8(bytes),
                    Err(error) => !valid_utf8(bytes) && error@ == (LspErrorView {
                        ctx: span(self.line_number(), start as int, self.offset()),
                        message: undecodable_string_message(bytes),
                    }),
                }
            }),
    {
        match string_from_utf8(self.bytes_from(start)) {
            Ok(decoded) => Ok(decoded),
            Err(why) => {
                let mut message = String::from_str("Failed to create string: ");
                message.append(why.as_str());
                Err(self.err(message, start))
            },
        }
    }

    /// Reads the number whose first digit is under the cursor.
    fn number(&mut self) -> (item: Result<Token, LspError>)
        requires
            old(self).offset() < old(self).source().len(),
        ensures
            final(self).source() == old(self).source(),
            ({
                let step = lex_number(old(self).source(), old(self).offset(), old(self).line_number());
                &&& lexed_view(item) == step.result
                &&& final(self).offset() == step.pos
                &&& final(self).line_number() == step.line
            }),
    {
        let ghost s = self.source();
        let start = self.pos;
        proof {
            use_type_invariant(&*self);
            lemma_run_end(s, start as int, Run::Number);
        }
        self.scan(Run::Number);
        let ghost literal = s.subrange(start as int, self.offset());
        proof {
            assert(is_ascii_bytes(literal)) by {
                assert forall|i: int| 0 <= i < literal.len() implies literal[i] < 128 by {
                    assert(Run::Number.holds(char_at(s, start + i)));
                }
            }
            lemma_ascii_decodes(literal);
        }
        let text = self.text_from(start)?;
        if self.points_from(start) <= 1 {
            Ok(Token { token_type: TokenType::Number(text), line: self.line, start, end: self.pos })
        } else {
            Err(self.err(String::from_str("Failed to parse number: invalid float literal"), start))
        }
    }

    /// Counts the decimal points among the source bytes from `start` up to
    /// the cursor.
    fn points_from(&self, start: usize) -> (points: usize)
        requires
            start <= self.offset(),
        ensures
            points == dots(self.source().subrange(start as int, self.offset())),
    {
        proof {
            use_type_invariant(self);
        }
        let ghost s = self.source();
        let mut points: usize = 0;
        let mut i: usize = start;
        while i < self.pos
            invariant
                s == self.source(),
                start <= i <= self.pos <= self.input@.len(),
                points == dots(s.subrange(start as int, i as int)),
                points <= i - start,
            decreases self.pos - i,
        {
            proof {
                assert(s.subrange(start as int, i + 1).drop_last() =~= s.subrange(
                    start as int,
                    i as int,
                ));
            }
            if self.input[i] as char == '.' {
                points += 1;
            }
            i += 1;
        }
        points
    }

    /// Reads the identifier whose first letter is under the cursor.
    fn ident(&mut self) -> (item: Result<Token, LspError>)
        requires
            old(self).offset() < old(self).source().len(),
        ensures
            final(self).source() == old(self).source(),
            ({
                let step = lex_ident(old(self).source(), old(self).offset(), old(self).line_number());
                &&& lexed_view(item) == step.result
                &&& final(self).offset() == step.pos
                &&& final(self).line_number() == step.line
            }),
    {
        let ghost s = self.source();
        let start = self.pos;
        proof {
            use_type_invariant(&*self);
            lemma_run_end(s, start as int, Run::Ident);
        }
        self.scan(Run::Ident);
        let ghost name = s.subrange(start as int, self.offset());
        proof {
            assert(is_ascii_bytes(name)) by {
                assert forall|i: int| 0 <= i < name.len() implies name[i] < 128 by {
                    assert(Run::Ident.holds(char_at(s, start + i)));
                }
            }
            lemma_ascii_decodes(name);
        }
        let text = self.text_from(start)?;
        Ok(Token { token_type: TokenType::Ident(text), line: self.line, start, end: self.pos })
    }

    /// Counts the newlines among the source bytes from `start` up to the
    /// cursor as lines.
    fn count_lines_from(&mut self, start: usize)
        requires
            old(self).line_number() <= start <= old(self).offset(),
        ensures
            final(self).source() == old(self).source(),
            final(self).offset() == old(self).offset(),
            final(self).line_number() == old(self).line_number() + newlines(
                old(self).source(),
                start as int,
                old(self).offset(),
            ),
    {
        proof {
            use_type_invariant(&*self);
        }
        let ghost s = self.source();
        let mut lines: usize = 0;
        let mut i: usize = start;
        while i < self.pos
            invariant
                s == self.source(),
                start <= i <= self.pos <= self.input@.len(),
                lines == newlines(s, start as int, i as int),
                lines <= i - start,
            decreases self.pos - i,
        {
            if self.input[i] as char == '\n' {
                lines += 1;
            }
            i += 1;
        }
        self.line += lines;
    }

    /// Reads the string whose opening quote is under the cursor.
    fn string(&mut self) -> (item: Result<Token, LspError>)
        requires
            old(self).offset() < old(self).source().len(),
        ensures
            final(self).source() == old(self).source(),
            ({
                let step = lex_string(old(self).source(), old(self).offset(), old(self).line_number());
                &&& lexed_view(item) == step.result
                &&& final(self).offset() == step.pos
                &&& final(self).line_number() == step.line
            }),
    {
        proof {
            use_type_invariant(&*self);
        }
        self.advance();
        let start = self.pos;
        proof {
            lemma_run_end(self.source(), start as int, Run::Quoted);
        }
        self.scan(Run::Quoted);
        let item = match self.text_from(start) {
            Err(error) => Err(error),
            Ok(text) => {
                if self.cur().is_none() {
                    Err(self.err(String::from_str("Unterminated string"), start))
                } else {
                    Ok(
                        Token {
                            token_type: TokenType::String(text),
                            line: self.line,
                            start,
                            end: self.pos,
                        },
                    )
                }
            },
        };
        self.count_lines_from(start);
        if item.is_ok() {
            self.advance();
        }
        item
    }

    /// Reads the next token: one step of [`lex_step`] from the cursor.
    fn next_token(&mut self) -> (item: Result<Token, LspError>)
        ensures
            final(self).source() == old(self).source(),
            ({
                let step = lex_step(old(self).source(), old(self).offset(), old(self).line_number());
                &&& lexed_view(item) == step.result
                &&& final(self).offset() == step.pos
                &&& final(self).line_number() == step.line
            }),
    {
        self.skip_trivia();
        let c = match self.cur() {
            Some(c) => c,
            None => {
                return self.create_token(TokenType::EOF);
            },
        };
        if c == '(' {
            let token = self.create_token(TokenType::DelimitorLeft);
            self.advance();
            token
        } else if c == ')' {
            let token = self.create_token(TokenType::DelimitorRight);
            self.advance();
            token
        } else if c == '#' {
            let token = self.create_token(TokenType::Hashtag);
            self.advance();
            token
        } else if '0' <= c && c <= '9' {
            self.number()
        } else if ('a' <= c && c <= 'z') || ('A' <= c && c <= 'Z') {
            self.ident()
        } else if c == '"' {
            self.string()
        } else {
            let mut message = String::from_str("Unknown character '");
            message.push(c);
            message.append("'");
            proof {
                assert(message@ =~= unknown_character_message(c));
            }
            let error = self.err(message, self.pos);
            self.advance();
            Err(error)
        }
    }

    /// Hands out the next token or lexical error, or `None` once the cursor
    /// has reached the end of the source. Blanks and comments before the
    /// token are skipped; when only those remain, the item is an `EOF`
    /// token.
    pub fn next(&mut self) -> (item: Option<Result<Token, LspError>>)
        ensures
            final(self).source() == old(self).source(),
            0 <= old(self).line_number() <= old(self).offset() <= old(self).source().len()
                <= usize::MAX,
            0 <= final(self).line_number() <= final(self).offset() <= final(self).source().len(),
            match item {
                None => {
                    &&& old(self).offset() >= old(self).source().len()
                    &&& final(self).offset() == old(self).offset()
                    &&& final(self).line_number() == old(self).line_number()
                },
                Some(lexed) => {
                    let step = lex_step(
                        old(self).source(),
                        old(self).offset(),
                        old(self).line_number(),
                    );
                    &&& old(self).offset() < old(self).source().len()
                    &&& lexed_view(lexed) == step.result
                    &&& final(self).offset() == step.pos
                    &&& final(self).line_number() == step.line
                },
            },
    {
        proof {
            use_type_invariant(&*self);
        }
        if self.pos >= self.input.len() {
            None
        } else {
            let item = self.next_token();
            proof {
                use_type_invariant(&*self);
            }
            Some(item)
        }
    }
}

/// Everything the lexer yields from byte `pos` on line `line` to the end of
/// the source: the tokens in order, and the errors in order.
pub open spec fn lex_all(s: Seq<u8>, pos: int, line: int) -> (Seq<TokenView>, Seq<LspErrorView>)
    decreases s.len() - pos,
{
    if pos < 0 || pos >= s.len() {
        (Seq::empty(), Seq::empty())
    } else {
        let step = lex_step(s, pos, line);
        proof {
            lemma_lex_step_advances(s, pos, line);
        }
        let rest = lex_all(s, step.pos, step.line);
        match step.result {
            Ok(token) => (seq![token] + rest.0, rest.1),
            Err(error) => (rest.0, seq![error] + rest.1),
        }
    }
}

/// Reads the whole of `input`: the tokens it holds, in order, and beside
/// them the lexical errors met on the way, in order. An error does not stop
/// the reading.
pub fn tokenize(input: &[u8]) -> (out: (Vec<Token>, Vec<LspError>))
    ensures
        token_views(out.0@) == lex_all(input@, 0, 0).0,
        error_views(out.1@) == lex_all(input@, 0, 0).1,
{
    let mut lexer = Lexer::new(input);
    let mut tokens: Vec<Token> = Vec::new();
    let mut errors: Vec<LspError> = Vec::new();
    loop
        invariant_except_break
            lexer.source() == input@,
            lex_all(input@, 0, 0).0 == token_views(tokens@) + lex_all(
                input@,
                lexer.offset(),
                lexer.line_number(),
            ).0,
            lex_all(input@, 0, 0).1 == error_views(errors@) + lex_all(
                input@,
                lexer.offset(),
                lexer.line_number(),
            ).1,
        ensures
            token_views(tokens@) == lex_all(input@, 0, 0).0,
            error_views(errors@) == lex_all(input@, 0, 0).1,
        decreases input@.len() - lexer.offset(),
    {
        let ghost pos = lexer.offset();
        let ghost line = lexer.line_number();
        let ghost seen_tokens = tokens@;
        let ghost seen_errors = errors@;
        proof {
            use_type_invariant(&lexer);
            if pos < input@.len() {
                lemma_lex_step_advances(input@, pos, line);
            }
        }
        match lexer.next() {
            None => {
                break ;
            },
            Some(Ok(token)) => {
                tokens.push(token);
                proof {
                    let rest = lex_all(input@, lexer.offset(), lexer.line_number());
                    assert(token_views(tokens@) =~= token_views(seen_tokens).push(token@));
                    assert(token_views(seen_tokens) + (seq![token@] + rest.0) =~= token_views(
                        tokens@,
                    ) + rest.0);
                }
            },
            Some(Err(error)) => {
                errors.push(error);
                proof {
                    let rest = lex_all(input@, lexer.offset(), lexer.line_number());
                    assert(error_views(errors@) =~= error_views(seen_errors).push(error@));
                    assert(error_views(seen_errors) + (seq![error@] + rest.1) =~= error_views(
                        errors@,
                    ) + rest.1);
                }
            },
        }
    }
    (tokens, errors)
}

} // verus!
