//! Syntax trees and the recursive-descent parser that builds them.
//!
//! The grammar:
//!
//! ```text
//! form     := atom | list | variable
//! atom     := Number | String | Identifier
//! list     := '(' form* ')'
//! variable := '#' '(' Identifier form ')'
//! ```
//!
//! The model of the parser is [`parse_form`], a function from the tokens and
//! a cursor to the next form or error and the cursor after it.
//! [`Parser::next`] is proved to compute exactly that function.

use crate::error::{error_views, LspError, LspErrorView};
use crate::lexer::{kind_text, token_views, Token, TokenType, TokenTypeView, TokenView};
use vstd::hash_map::StringHashMap;
use vstd::prelude::*;
use vstd::std_specs::convert::FromSpecImpl;

verus! {

/// A span of source text: the line it sits on and its byte offsets.
#[derive(Clone, Copy, Debug, PartialEq, Eq, Structural)]
pub struct TokenContext {
    pub line: usize,
    pub start: usize,
    pub end: usize,
}

impl TokenContext {
    /// The empty span at the start of the source, cited when there is no
    /// token to point at.
    pub open spec fn origin() -> TokenContext {
        TokenContext { line: 0, start: 0, end: 0 }
    }
}

impl Default for TokenContext {
    /// The empty span at the start of the source.
    fn default() -> (ctx: Self)
        ensures
            ctx == TokenContext::origin(),
    {
        TokenContext { line: 0, start: 0, end: 0 }
    }
}

impl<'a> From<&'a Token> for TokenContext {
    /// The span a token was read from.
    fn from(t: &'a Token) -> (ctx: Self) {
        TokenContext { line: t.line, start: t.start, end: t.end }
    }
}

impl<'a> FromSpecImpl<&'a Token> for TokenContext {
    open spec fn obeys_from_spec() -> bool {
        true
    }

    open spec fn from_spec(t: &'a Token) -> Self {
        t@.ctx()
    }
}

impl<'a> From<&'a TokenContext> for TokenContext {
    /// A copy of a span.
    fn from(ctx: &'a TokenContext) -> (copy: Self) {
        TokenContext { line: ctx.line, start: ctx.start, end: ctx.end }
    }
}

impl<'a> FromSpecImpl<&'a TokenContext> for TokenContext {
    open spec fn obeys_from_spec() -> bool {
        true
    }

    open spec fn from_spec(ctx: &'a TokenContext) -> Self {
        *ctx
    }
}

/// A syntax tree.
#[derive(Debug)]
pub enum Node {
    /// A number, held as the decimal text of its literal.
    Number { ctx: TokenContext, val: String },
    /// A string: the characters between the quotes.
    String { ctx: TokenContext, val: String },
    Ident { ctx: TokenContext, val: String },
    List(Vec<Node>),
    /// The definition of the variable `ident` as the expression `value`.
    Var { ctx: TokenContext, ident: String, value: Box<Node> },
    /// No node: what the parser yields at the end of the tokens.
    Null,
}

/// The mathematical value of a [`Node`].
pub enum NodeView {
    Number { ctx: TokenContext, val: Seq<char> },
    String { ctx: TokenContext, val: Seq<char> },
    Ident { ctx: TokenContext, val: Seq<char> },
    List(Seq<NodeView>),
    Var { ctx: TokenContext, ident: Seq<char>, value: Box<NodeView> },
    Null,
}

impl View for Node {
    type V = NodeView;

    open spec fn view(&self) -> NodeView {
        node_view(*self)
    }
}

/// The mathematical value of a node: the same tree over sequences.
pub open spec fn node_view(node: Node) -> NodeView
    decreases node,
{
    match node {
        Node::Number { ctx, val } => NodeView::Number { ctx, val: val@ },
        Node::String { ctx, val } => NodeView::String { ctx, val: val@ },
        Node::Ident { ctx, val } => NodeView::Ident { ctx, val: val@ },
        Node::List(children) => NodeView::List(node_views(children@)),
        Node::Var { ctx, ident, value } => NodeView::Var {
            ctx,
            ident: ident@,
            value: Box::new(node_view(*value)),
        },
        Node::Null => NodeView::Null,
    }
}

/// The views of a sequence of nodes, in order.
pub open spec fn node_views(nodes: Seq<Node>) -> Seq<NodeView>
    decreases nodes,
{
    if nodes.len() == 0 {
        Seq::empty()
    } else {
        node_views(nodes.drop_last()).push(node_view(nodes.last()))
    }
}

/// The views of a sequence of nodes are the views of its nodes, one for
/// one.
pub proof fn lemma_node_views(nodes: Seq<Node>)
    ensures
        node_views(nodes).len() == nodes.len(),
        forall|i: int| 0 <= i < nodes.len() ==> node_views(nodes)[i] == nodes[i]@,
    decreases nodes.len(),
{
    if nodes.len() > 0 {
        lemma_node_views(nodes.drop_last());
    }
}

impl Clone for Node {
    /// A deep copy.
    fn clone(&self) -> (copy: Node)
        ensures
            copy@ == self@,
        decreases self,
    {
        match self {
            Node::Number { ctx, val } => Node::Number { ctx: *ctx, val: val.clone() },
            Node::String { ctx, val } => Node::String { ctx: *ctx, val: val.clone() },
            Node::Ident { ctx, val } => Node::Ident { ctx: *ctx, val: val.clone() },
            Node::List(children) => {
                let mut copies: Vec<Node> = Vec::new();
                let mut i: usize = 0;
                while i < children.len()
                    invariant
                        decreases_to!(*self => *children),
                        i <= children.len(),
                        copies.len() == i,
                        forall|j: int| 0 <= j < i ==> copies[j]@ == children[j]@,
                    decreases children.len() - i,
                {
                    let child = children[i].clone();
                    copies.push(child);
                    i += 1;
                }
                proof {
                    lemma_node_views(children@);
                    lemma_node_views(copies@);
                    assert(node_views(copies@) =~= node_views(children@));
                }
                Node::List(copies)
            },
            Node::Var { ctx, ident, value } => Node::Var {
                ctx: *ctx,
                ident: ident.clone(),
                value: Box::new((**value).clone()),
            },
            Node::Null => Node::Null,
        }
    }
}

/// The variables of an evaluation session: each name with the expression it
/// is bound to.
pub struct Context {
    pub(crate) variables: StringHashMap<Node>,
    pub(crate) names: Ghost<Set<Seq<char>>>,
}

/// The token under the cursor, if the cursor is inside the tokens.
pub open spec fn token_under(ts: Seq<TokenView>, pos: int) -> Option<TokenView> {
    if 0 <= pos < ts.len() {
        Some(ts[pos])
    } else {
        None
    }
}

/// How the token under the cursor, or its absence, is written in a message.
pub open spec fn found_text(found: Option<TokenView>) -> Seq<char> {
    match found {
        Some(token) => kind_text(token.token_type),
        None => "None"@,
    }
}

/// The cursor one token on. The cursor never passes the end of the tokens.
pub open spec fn next_pos(ts: Seq<TokenView>, pos: int) -> int {
    if pos < ts.len() {
        pos + 1
    } else {
        pos
    }
}

/// What one step of the parser yields, and where it leaves the cursor.
pub struct ParseStep {
    pub result: Result<NodeView, LspErrorView>,
    pub pos: int,
}

/// What a run of forms yields, and where it leaves the cursor.
pub struct ParseItems {
    pub result: Result<Seq<NodeView>, LspErrorView>,
    pub pos: int,
}

pub open spec fn unexpected_form_message(kind: TokenTypeView) -> Seq<char> {
    "Unexpected "@ + kind_text(kind) + ", wanted Atom or List"@
}

pub open spec fn missing_token_message(wanted: TokenTypeView) -> Seq<char> {
    "Unexpected EOF in place of "@ + kind_text(wanted)
}

/// The message for a token of kind `found` where one of kind `wanted` had
/// to stand. The kind that was wanted is named first.
pub open spec fn wrong_token_message(wanted: TokenTypeView, found: TokenTypeView) -> Seq<char> {
    "Unexpected "@ + kind_text(wanted) + " in place of "@ + kind_text(found)
}

pub open spec fn wanted_identifier_message(found: Option<TokenView>) -> Seq<char> {
    "Unexpected "@ + found_text(found) + ", wanted an Identifier"@
}

pub open spec fn unclosed_list_message() -> Seq<char> {
    "Unexpected EOF, wanted List"@
}

/// A syntax error at the cursor: it cites the token under the cursor, or
/// the origin where there is none, and the cursor moves past that token.
pub open spec fn parse_error(ts: Seq<TokenView>, pos: int, message: Seq<char>) -> ParseStep {
    ParseStep {
        result: Err(
            LspErrorView {
                ctx: match token_under(ts, pos) {
                    Some(token) => token.ctx(),
                    None => TokenContext::origin(),
                },
                message,
            },
        ),
        pos: next_pos(ts, pos),
    }
}

/// Takes the token under the cursor, which has to be of the kind `wanted`.
/// Success is reported as the `Null` node.
pub open spec fn consume_spec(ts: Seq<TokenView>, pos: int, wanted: TokenTypeView) -> ParseStep {
    match token_under(ts, pos) {
        None => parse_error(ts, pos, missing_token_message(wanted)),
        Some(token) => if token.token_type == wanted {
            ParseStep { result: Ok(NodeView::Null), pos: pos + 1 }
        } else {
            parse_error(ts, pos, wrong_token_message(wanted, token.token_type))
        },
    }
}

/// The form that starts at the cursor. At the end of the tokens, and at an
/// `EOF` token, the form is `Null` and the cursor stays.
pub open spec fn parse_form(ts: Seq<TokenView>, pos: int) -> ParseStep
    decreases ts.len() - pos, 2int,
{
    match token_under(ts, pos) {
        None => ParseStep { result: Ok(NodeView::Null), pos },
        Some(token) => match token.token_type {
            TokenTypeView::EOF => ParseStep { result: Ok(NodeView::Null), pos },
            TokenTypeView::Hashtag => parse_variable(ts, pos),
            TokenTypeView::Number(text) => ParseStep {
                result: Ok(NodeView::Number { ctx: token.ctx(), val: text }),
                pos: pos + 1,
            },
            TokenTypeView::String(text) => ParseStep {
                result: Ok(NodeView::String { ctx: token.ctx(), val: text }),
                pos: pos + 1,
            },
            TokenTypeView::Ident(text) => ParseStep {
                result: Ok(NodeView::Ident { ctx: token.ctx(), val: text }),
                pos: pos + 1,
            },
            TokenTypeView::DelimitorLeft => parse_list(ts, pos),
            TokenTypeView::DelimitorRight => parse_error(
                ts,
                pos,
                unexpected_form_message(token.token_type),
            ),
        },
    }
}

/// The variable definition whose `#` is under the cursor: `#`, `(`, the
/// name, one form for the value, `)`. The node carries the span of the
/// name.
pub open spec fn parse_variable(ts: Seq<TokenView>, pos: int) -> ParseStep
    decreases ts.len() - pos, 1int,
{
    let opened = consume_spec(ts, pos + 1, TokenTypeView::DelimitorLeft);
    if opened.result is Err {
        opened
    } else {
        match token_under(ts, pos + 2) {
            Some(TokenView { token_type: TokenTypeView::Ident(name), line, start, end }) => {
                let value = parse_form(ts, pos + 3);
                match value.result {
                    Err(_) => value,
                    Ok(node) => {
                        let closed = consume_spec(ts, value.pos, TokenTypeView::DelimitorRight);
                        if closed.result is Err {
                            closed
                        } else {
                            ParseStep {
                                result: Ok(
                                    NodeView::Var {
                                        ctx: TokenContext { line, start, end },
                                        ident: name,
                                        value: Box::new(node),
                                    },
                                ),
                                pos: closed.pos,
                            }
                        }
                    },
                }
            },
            found => parse_error(ts, pos + 2, wanted_identifier_message(found)),
        }
    }
}

/// The list whose `(` is under the cursor: `(`, any number of forms, `)`.
pub open spec fn parse_list(ts: Seq<TokenView>, pos: int) -> ParseStep
    decreases ts.len() - pos, 1int,
{
    if pos + 1 >= ts.len() {
        ParseStep {
            result: Err(
                LspErrorView { ctx: TokenContext::origin(), message: unclosed_list_message() },
            ),
            pos: pos + 1,
        }
    } else {
        let items = parse_items(ts, pos + 1);
        match items.result {
            Err(error) => ParseStep { result: Err(error), pos: items.pos },
            Ok(children) => {
                let closed = consume_spec(ts, items.pos, TokenTypeView::DelimitorRight);
                if closed.result is Err {
                    closed
                } else {
                    ParseStep { result: Ok(NodeView::List(children)), pos: closed.pos }
                }
            },
        }
    }
}

pub open spec fn missing_atom_message() -> Seq<char> {
    "Unexpected EOF, wanted Atom"@
}

pub open spec fn wanted_atom_message(found: TokenTypeView) -> Seq<char> {
    "Wanted Atom or DelimitorLeft, got "@ + kind_text(found)
}

/// The atom under the cursor: a number, a string or an identifier. Where a
/// list opens instead, the list is taken, and one token behind it. Any
/// other token is an error at its place that the cursor moves past, and no
/// token at all is an error without a place.
pub open spec fn parse_atom(ts: Seq<TokenView>, pos: int) -> ParseStep {
    match token_under(ts, pos) {
        None => ParseStep {
            result: Err(
                LspErrorView { ctx: TokenContext::origin(), message: missing_atom_message() },
            ),
            pos,
        },
        Some(token) => match token.token_type {
            TokenTypeView::Number(_) => parse_form(ts, pos),
            TokenTypeView::String(_) => parse_form(ts, pos),
            TokenTypeView::Ident(_) => parse_form(ts, pos),
            TokenTypeView::DelimitorLeft => {
                let inner = parse_list(ts, pos);
                ParseStep { result: inner.result, pos: next_pos(ts, inner.pos) }
            },
            other => ParseStep {
                result: Err(LspErrorView { ctx: token.ctx(), message: wanted_atom_message(other) }),
                pos: pos + 1,
            },
        },
    }
}

/// True when the cursor is at the end of the tokens, at a `)` or at an
/// `EOF` token: where the forms of a list end.
pub open spec fn ends_items(ts: Seq<TokenView>, pos: int) -> bool {
    match token_under(ts, pos) {
        None => true,
        Some(token) => token.token_type is DelimitorRight || token.token_type is EOF,
    }
}

/// The forms from the cursor up to the end of the list they stand in. The
/// first error ends the run. Every form moves the cursor on (see
/// [`lemma_parse_form_advances`]), which is what the test on the cursor
/// relies on for the run to end.
pub open spec fn parse_items(ts: Seq<TokenView>, pos: int) -> ParseItems
    decreases ts.len() - pos, 3int,
{
    if ends_items(ts, pos) {
        ParseItems { result: Ok(Seq::empty()), pos }
    } else {
        let first = parse_form(ts, pos);
        match first.result {
            Err(error) => ParseItems { result: Err(error), pos: first.pos },
            Ok(node) => if pos < first.pos <= ts.len() {
                let rest = parse_items(ts, first.pos);
                match rest.result {
                    Err(_) => rest,
                    Ok(nodes) => ParseItems { result: Ok(seq![node] + nodes), pos: rest.pos },
                }
            } else {
                ParseItems { result: Ok(seq![node]), pos: first.pos }
            },
        }
    }
}

/// Taking a token leaves the cursor inside the tokens, and moves it on
/// unless it stood at their end.
pub proof fn lemma_consume_advances(ts: Seq<TokenView>, pos: int, wanted: TokenTypeView)
    requires
        0 <= pos <= ts.len(),
    ensures
        pos <= consume_spec(ts, pos, wanted).pos <= ts.len(),
        pos < ts.len() ==> consume_spec(ts, pos, wanted).pos == pos + 1,
        consume_spec(ts, pos, wanted).result is Ok ==> consume_spec(ts, pos, wanted).pos == pos + 1,
{
}

/// A form leaves the cursor inside the tokens. It moves the cursor on
/// unless it is the `Null` of the end of the tokens, and it is that `Null`
/// only there.
pub proof fn lemma_parse_form_advances(ts: Seq<TokenView>, pos: int)
    requires
        0 <= pos <= ts.len(),
    ensures
        pos <= parse_form(ts, pos).pos <= ts.len(),
        parse_form(ts, pos).result == Ok::<NodeView, LspErrorView>(NodeView::Null) <==> (pos
            >= ts.len() || ts[pos].token_type is EOF),
        parse_form(ts, pos).result != Ok::<NodeView, LspErrorView>(NodeView::Null) ==> pos
            < parse_form(ts, pos).pos,
    decreases ts.len() - pos, 2int,
{
    if pos < ts.len() {
        match ts[pos].token_type {
            TokenTypeView::Hashtag => {
                lemma_consume_advances(ts, pos + 1, TokenTypeView::DelimitorLeft);
                if consume_spec(ts, pos + 1, TokenTypeView::DelimitorLeft).result is Ok {
                    if pos + 2 < ts.len() && ts[pos + 2].token_type is Ident {
                        lemma_parse_form_advances(ts, pos + 3);
                        let value = parse_form(ts, pos + 3);
                        if value.result is Ok {
                            lemma_consume_advances(ts, value.pos, TokenTypeView::DelimitorRight);
                        }
                    }
                }
            },
            TokenTypeView::DelimitorLeft => {
                if pos + 1 < ts.len() {
                    lemma_parse_items_advances(ts, pos + 1);
                    let items = parse_items(ts, pos + 1);
                    if items.result is Ok {
                        lemma_consume_advances(ts, items.pos, TokenTypeView::DelimitorRight);
                    }
                }
            },
            _ => {},
        }
    }
}

/// A run of forms leaves the cursor inside the tokens, at or after where it
/// began, and where it succeeds it ends where the forms of a list end.
pub proof fn lemma_parse_items_advances(ts: Seq<TokenView>, pos: int)
    requires
        0 <= pos <= ts.len(),
    ensures
        pos <= parse_items(ts, pos).pos <= ts.len(),
        parse_items(ts, pos).result is Ok ==> ends_items(ts, parse_items(ts, pos).pos),
    decreases ts.len() - pos, 3int,
{
    if !ends_items(ts, pos) {
        lemma_parse_form_advances(ts, pos);
        let first = parse_form(ts, pos);
        if first.result is Ok {
            lemma_parse_items_advances(ts, first.pos);
        }
    }
}

/// The view of what one step of the parser hands out.
pub open spec fn parsed_view(item: Result<Node, LspError>) -> Result<NodeView, LspErrorView> {
    match item {
        Ok(node) => Ok(node@),
        Err(error) => Err(error@),
    }
}

/// A run of forms after the forms `before`.
pub open spec fn after_forms(before: Seq<NodeView>, items: ParseItems) -> ParseItems {
    ParseItems {
        result: match items.result {
            Ok(nodes) => Ok(before + nodes),
            Err(error) => Err(error),
        },
        pos: items.pos,
    }
}

/// The parser: a cursor into a sequence of tokens.
pub struct Parser<'parser> {
    pos: usize,
    tokens: &'parser [Token],
}

impl<'parser> Parser<'parser> {
    #[verifier::type_invariant]
    spec fn well_formed(self) -> bool {
        self.pos <= self.tokens@.len()
    }

    /// The tokens being parsed.
    pub closed spec fn stream(&self) -> Seq<TokenView> {
        token_views(self.tokens@)
    }

    /// The index of the token under the cursor.
    pub closed spec fn cursor(&self) -> int {
        self.pos as int
    }

    /// A parser at the first of `tokens`.
    pub fn new(tokens: &'parser [Token]) -> (parser: Parser<'parser>)
        ensures
            parser.stream() == token_views(tokens@),
            parser.cursor() == 0,
            parser.stream().len() <= usize::MAX,
    {
        proof {
            assert(tokens.len() == tokens@.len());
        }
        Parser { pos: 0, tokens }
    }

    /// The token under the cursor, if any.
    fn cur(&self) -> (token: Option<&'parser Token>)
        ensures
            match token {
                Some(t) => token_under(self.stream(), self.cursor()) == Some(t@),
                None => token_under(self.stream(), self.cursor()) is None,
            },
    {
        if self.pos < self.tokens.len() {
            Some(&self.tokens[self.pos])
        } else {
            None
        }
    }

    /// Moves the cursor one token on, unless it is at the end.
    fn advance(&mut self)
        ensures
            final(self).stream() == old(self).stream(),
            final(self).cursor() == next_pos(old(self).stream(), old(self).cursor()),
    {
        if self.pos < self.tokens.len() {
            self.pos += 1;
        }
    }

    /// Reports a syntax error at the cursor and moves past the token there.
    fn err(&mut self, msg: String) -> (r: Result<Node, LspError>)
        ensures
            final(self).stream() == old(self).stream(),
            parsed_view(r) == parse_error(old(self).stream(), old(self).cursor(), msg@).result,
            final(self).cursor() == parse_error(old(self).stream(), old(self).cursor(), msg@).pos,
    {
        let ctx = match self.cur() {
            Some(token) => TokenContext::from(token),
            None => TokenContext::default(),
        };
        self.advance();
        Err(LspError::with_context(ctx, msg))
    }

    /// Takes the token under the cursor, which has to be of the given kind.
    fn consume(&mut self, token_type: TokenType) -> (r: Result<Node, LspError>)
        ensures
            final(self).stream() == old(self).stream(),
            parsed_view(r) == consume_spec(old(self).stream(), old(self).cursor(), token_type@).result,
            final(self).cursor() == consume_spec(
                old(self).stream(),
                old(self).cursor(),
                token_type@,
            ).pos,
    {
        let token = match self.cur() {
            Some(token) => token,
            None => {
                let mut msg = String::from_str("Unexpected EOF in place of ");
                msg.append(token_type.describe().as_str());
                return self.err(msg);
            },
        };
        if token.token_type == token_type {
            proof {
                use_type_invariant(&*self);
            }
            self.advance();
            Ok(Node::Null)
        } else {
            let mut msg = String::from_str("Unexpected ");
            msg.append(token_type.describe().as_str());
            msg.append(" in place of ");
            msg.append(token.token_type.describe().as_str());
            self.err(msg)
        }
    }

    /// True when the forms of a list end at the cursor.
    fn at_items_end(&self) -> (yes: bool)
        ensures
            yes == ends_items(self.stream(), self.cursor()),
    {
        match self.cur() {
            None => true,
            Some(token) => match token.token_type {
                TokenType::DelimitorRight => true,
                TokenType::EOF => true,
                _ => false,
            },
        }
    }

    /// Parses the form that starts at the cursor.
    fn parse(&mut self) -> (r: Result<Node, LspError>)
        ensures
            final(self).stream() == old(self).stream(),
            parsed_view(r) == parse_form(old(self).stream(), old(self).cursor()).result,
            final(self).cursor() == parse_form(old(self).stream(), old(self).cursor()).pos,
        decreases old(self).stream().len() - old(self).cursor(), 3int,
    {
        let token = match self.cur() {
            Some(token) => token,
            None => {
                return Ok(Node::Null);
            },
        };
        match &token.token_type {
            TokenType::EOF => Ok(Node::Null),
            TokenType::Hashtag => self.variable(),
            TokenType::Number(_) | TokenType::String(_) | TokenType::Ident(_) => self.atom(),
            TokenType::DelimitorLeft => self.list(),
            TokenType::DelimitorRight => {
                let mut msg = String::from_str("Unexpected ");
                msg.append(token.token_type.describe().as_str());
                msg.append(", wanted Atom or List");
                self.err(msg)
            },
        }
    }

    /// Parses the variable definition whose `#` is under the cursor.
    fn variable(&mut self) -> (r: Result<Node, LspError>)
        requires
            token_under(old(self).stream(), old(self).cursor()) matches Some(token)
                && token.token_type is Hashtag,
        ensures
            final(self).stream() == old(self).stream(),
            parsed_view(r) == parse_variable(old(self).stream(), old(self).cursor()).result,
            final(self).cursor() == parse_variable(old(self).stream(), old(self).cursor()).pos,
        decreases old(self).stream().len() - old(self).cursor(), 1int,
    {
        self.consume(TokenType::Hashtag)?;
        self.consume(TokenType::DelimitorLeft)?;
        let (ctx, ident) = match self.cur() {
            Some(Token { token_type: TokenType::Ident(ident), line, start, end }) => (
                TokenContext { line: *line, start: *start, end: *end },
                ident.clone(),
            ),
            Some(token) => {
                let mut msg = String::from_str("Unexpected ");
                msg.append(token.token_type.describe().as_str());
                msg.append(", wanted an Identifier");
                return self.err(msg);
            },
            None => {
                let mut msg = String::from_str("Unexpected ");
                msg.append("None");
                msg.append(", wanted an Identifier");
                return self.err(msg);
            },
        };
        self.advance();
        let value = self.parse()?;
        self.consume(TokenType::DelimitorRight)?;
        Ok(Node::Var { ctx, ident, value: Box::new(value) })
    }

    /// Parses the list whose `(` is under the cursor.
    fn list(&mut self) -> (r: Result<Node, LspError>)
        requires
            token_under(old(self).stream(), old(self).cursor()) matches Some(token)
                && token.token_type is DelimitorLeft,
        ensures
            final(self).stream() == old(self).stream(),
            parsed_view(r) == parse_list(old(self).stream(), old(self).cursor()).result,
            final(self).cursor() == parse_list(old(self).stream(), old(self).cursor()).pos,
        decreases old(self).stream().len() - old(self).cursor(), 1int,
    {
        let ghost ts = self.stream();
        let ghost entry = self.cursor();
        self.consume(TokenType::DelimitorLeft)?;
        if self.cur().is_none() {
            return Err(
                LspError::with_context(
                    TokenContext::default(),
                    String::from_str("Unexpected EOF, wanted List"),
                ),
            );
        }
        let ghost start = self.cursor();
        let mut children: Vec<Node> = Vec::new();
        while !self.at_items_end()
            invariant
                self.stream() == ts,
                ts == old(self).stream(),
                entry == old(self).cursor(),
                0 <= entry,
                start == entry + 1,
                start <= self.cursor() <= ts.len(),
                parse_items(ts, start) == after_forms(
                    node_views(children@),
                    parse_items(ts, self.cursor()),
                ),
            decreases ts.len() - self.cursor(),
        {
            let ghost at = self.cursor();
            let ghost before = children@;
            proof {
                lemma_parse_form_advances(ts, at);
            }
            let child = match self.parse() {
                Ok(child) => child,
                Err(error) => {
                    return Err(error);
                },
            };
            children.push(child);
            proof {
                let rest = parse_items(ts, self.cursor());
                lemma_node_views(before);
                lemma_node_views(children@);
                assert(node_views(children@) =~= node_views(before).push(child@));
                if rest.result is Ok {
                    assert(node_views(before) + (seq![child@] + rest.result->Ok_0) =~= node_views(
                        children@,
                    ) + rest.result->Ok_0);
                }
            }
        }
        proof {
            assert(node_views(children@) + Seq::<NodeView>::empty() =~= node_views(children@));
        }
        self.consume(TokenType::DelimitorRight)?;
        Ok(Node::List(children))
    }

    /// Parses the number, string or identifier under the cursor.
    fn atom(&mut self) -> (r: Result<Node, LspError>)
        ensures
            final(self).stream() == old(self).stream(),
            parsed_view(r) == parse_atom(old(self).stream(), old(self).cursor()).result,
            final(self).cursor() == parse_atom(old(self).stream(), old(self).cursor()).pos,
        decreases old(self).stream().len() - old(self).cursor(), 2int,
    {
        proof {
            use_type_invariant(&*self);
        }
        let token = match self.cur() {
            Some(token) => token,
            None => {
                return Err(
                    LspError::with_context(
                        TokenContext::default(),
                        String::from_str("Unexpected EOF, wanted Atom"),
                    ),
                );
            },
        };
        let t = match &token.token_type {
            TokenType::Number(num) => Ok(
                Node::Number { val: num.clone(), ctx: TokenContext::from(token) },
            ),
            TokenType::String(text) => Ok(
                Node::String { val: text.clone(), ctx: TokenContext::from(token) },
            ),
            TokenType::Ident(name) => Ok(
                Node::Ident { val: name.clone(), ctx: TokenContext::from(token) },
            ),
            TokenType::DelimitorLeft => {
                proof {
                    lemma_parse_form_advances(self.stream(), self.cursor());
                }
                self.list()
            },
            _ => {
                let mut msg = String::from_str("Wanted Atom or DelimitorLeft, got ");
                msg.append(token.token_type.describe().as_str());
                Err(LspError::with_context(TokenContext::from(token), msg))
            },
        };
        self.advance();
        t
    }

    /// Hands out the next top-level form or syntax error, or `None` at the
    /// end of the tokens: at their end proper, or at an `EOF` token.
    ///
    /// After an error the cursor stands behind the offending token, so the
    /// next call goes on from there.
    pub fn next(&mut self) -> (item: Option<Result<Node, LspError>>)
        ensures
            final(self).stream() == old(self).stream(),
            0 <= old(self).cursor() <= old(self).stream().len() <= usize::MAX,
            0 <= final(self).cursor() <= final(self).stream().len(),
            final(self).cursor() == parse_form(old(self).stream(), old(self).cursor()).pos,
            match item {
                None => parse_form(old(self).stream(), old(self).cursor()).result == Ok::<
                    NodeView,
                    LspErrorView,
                >(NodeView::Null),
                Some(parsed) => {
                    &&& parsed_view(parsed) == parse_form(
                        old(self).stream(),
                        old(self).cursor(),
                    ).result
                    &&& parsed_view(parsed) != Ok::<NodeView, LspErrorView>(NodeView::Null)
                },
            },
    {
        proof {
            use_type_invariant(&*self);
            assert(self.tokens.len() == self.tokens@.len());
        }
        let ast = self.parse();
        proof {
            use_type_invariant(&*self);
        }
        match ast {
            Ok(Node::Null) => None,
            other => Some(other),
        }
    }
}

/// Everything the parser yields from the cursor on: the top-level forms in
/// order, and the syntax errors in order. The forms end at the end of the
/// tokens or at the first `EOF` token that stands where a form begins.
pub open spec fn parse_all(ts: Seq<TokenView>, pos: int) -> (Seq<NodeView>, Seq<LspErrorView>)
    decreases ts.len() - pos,
{
    if pos < 0 || pos > ts.len() {
        (Seq::empty(), Seq::empty())
    } else {
        let step = parse_form(ts, pos);
        proof {
            lemma_parse_form_advances(ts, pos);
        }
        match step.result {
            Ok(NodeView::Null) => (Seq::empty(), Seq::empty()),
            Ok(node) => {
                let rest = parse_all(ts, step.pos);
                (seq![node] + rest.0, rest.1)
            },
            Err(error) => {
                let rest = parse_all(ts, step.pos);
                (rest.0, seq![error] + rest.1)
            },
        }
    }
}

/// Parses the whole of `tokens`: the top-level forms they hold, in order,
/// and beside them the syntax errors met on the way, in order. An error
/// does not stop the parsing: it goes on behind the offending token.
pub fn parse_tokens(tokens: &[Token]) -> (out: (Vec<Node>, Vec<LspError>))
    ensures
        node_views(out.0@) == parse_all(token_views(tokens@), 0).0,
        error_views(out.1@) == parse_all(token_views(tokens@), 0).1,
{
    let ghost ts = token_views(tokens@);
    let mut parser = Parser::new(tokens);
    let mut nodes: Vec<Node> = Vec::new();
    let mut errors: Vec<LspError> = Vec::new();
    loop
        invariant_except_break
            parser.stream() == ts,
            0 <= parser.cursor() <= ts.len(),
            parse_all(ts, 0).0 == node_views(nodes@) + parse_all(ts, parser.cursor()).0,
            parse_all(ts, 0).1 == error_views(errors@) + parse_all(ts, parser.cursor()).1,
        ensures
            node_views(nodes@) == parse_all(ts, 0).0,
            error_views(errors@) == parse_all(ts, 0).1,
        decreases ts.len() - parser.cursor(),
    {
        let ghost pos = parser.cursor();
        let ghost seen_nodes = nodes@;
        let ghost seen_errors = errors@;
        proof {
            lemma_parse_form_advances(ts, pos);
        }
        match parser.next() {
            None => {
                break ;
            },
            Some(Ok(node)) => {
                nodes.push(node);
                proof {
                    let rest = parse_all(ts, parser.cursor());
                    lemma_node_views(seen_nodes);
                    lemma_node_views(nodes@);
                    assert(node_views(nodes@) =~= node_views(seen_nodes).push(node@));
                    assert(node_views(seen_nodes) + (seq![node@] + rest.0) =~= node_views(nodes@)
                        + rest.0);
                }
            },
            Some(Err(error)) => {
                errors.push(error);
                proof {
                    let rest = parse_all(ts, parser.cursor());
                    assert(error_views(errors@) =~= error_views(seen_errors).push(error@));
                    assert(error_views(seen_errors) + (seq![error@] + rest.1) =~= error_views(
                        errors@,
                    ) + rest.1);
                }
            },
        }
    }
    (nodes, errors)
}

} // verus!
