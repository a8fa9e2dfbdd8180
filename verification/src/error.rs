//! The error value shared by the lexer, the parser and the evaluator.

use crate::parser::TokenContext;
use vstd::prelude::*;

verus! {

/// The mathematical value of an [`LspError`]: the span it cites and its
/// message as a sequence of characters.
pub struct LspErrorView {
    pub ctx: TokenContext,
    pub message: Seq<char>,
}

/// An error together with the span of source text it is about.
#[derive(Debug)]
pub struct LspError {
    ctx: TokenContext,
    message: String,
}

impl View for LspError {
    type V = LspErrorView;

    closed spec fn view(&self) -> LspErrorView {
        LspErrorView { ctx: self.ctx, message: self.message@ }
    }
}

impl LspError {
    /// Builds the error that cites `ctx` and says `message`.
    pub fn with_context(ctx: TokenContext, message: String) -> (error: Self)
        ensures
            error@ == (LspErrorView { ctx, message: message@ }),
    {
        Self { ctx, message }
    }

    /// The span of source text the error cites.
    pub fn context(&self) -> (ctx: TokenContext)
        ensures
            ctx == self@.ctx,
    {
        self.ctx
    }

    /// What the error says.
    pub fn message(&self) -> (message: &str)
        ensures
            message@ == self@.message,
    {
        self.message.as_str()
    }
}

/// The views of a sequence of errors, in order.
pub open spec fn error_views(errors: Seq<LspError>) -> Seq<LspErrorView> {
    errors.map_values(|e: LspError| e@)
}

} // verus!
