//! One run over one source: lexing, parsing and evaluation in a row, with
//! the errors of all three stages collected rather than ending the run.

use crate::error::{error_views, LspError, LspErrorView};
use crate::eval::{defined_names, eval_all, text_views};
use crate::lexer::{lex_all, tokenize};
use crate::parser::{node_views, parse_all, parse_tokens, Context, NodeView};
use vstd::prelude::*;

verus! {

/// What a run over `source` yields: the rendered texts of the top-level
/// forms that have a value, in source order; and the errors, those of the
/// lexer first, then those of the parser, then those of the evaluator.
pub open spec fn run_spec(source: Seq<u8>) -> (Seq<Seq<char>>, Seq<LspErrorView>) {
    let lexed = lex_all(source, 0, 0);
    let parsed = parse_all(lexed.0, 0);
    let evaluated = eval_all(
        Map::<Seq<char>, NodeView>::empty(),
        parsed.0,
        0,
        defined_names(NodeView::List(parsed.0)),
    );
    (evaluated.texts, lexed.1 + parsed.1 + evaluated.errors)
}

/// Runs `source` through the three stages, in a fresh context.
pub fn run(source: &[u8]) -> (out: (Vec<String>, Vec<LspError>))
    ensures
        text_views(out.0@) == run_spec(source@).0,
        error_views(out.1@) == run_spec(source@).1,
{
    let (tokens, mut errors) = tokenize(source);
    let (nodes, mut syntax_errors) = parse_tokens(tokens.as_slice());
    let mut context = Context::default();
    proof {
        let forms = NodeView::List(node_views(nodes@));
        assert(context.scope(forms) =~= defined_names(forms));
    }
    let (texts, mut eval_errors) = context.eval_nodes(nodes.as_slice());
    let ghost lexical = errors@;
    let ghost syntactic = syntax_errors@;
    let ghost semantic = eval_errors@;
    errors.append(&mut syntax_errors);
    errors.append(&mut eval_errors);
    proof {
        assert(errors@ =~= lexical + syntactic + semantic);
        assert(error_views(errors@) =~= error_views(lexical) + error_views(syntactic)
            + error_views(semantic));
    }
    (texts, errors)
}

} // verus!
