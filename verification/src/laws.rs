//! Laws that hold of the stages together, each proved from their models.

use crate::error::LspErrorView;
use crate::eval::{
    circular_message, covers, defined_names, eval_all, eval_items, eval_node,
    lemma_child_defines_less, lemma_entering_leaves_less, undefined_message, Bindings, EvalStep,
    Names,
};
use crate::lexer::{
    char_at, dots, is_digit, lemma_run_end, lemma_run_end_is, lemma_trivia_end_bounds, lex_step,
    token_at, trivia_end, Run, TokenTypeView, TokenView,
};
use crate::parser::{
    ends_items, lemma_parse_form_advances, parse_all, parse_form, parse_items,
    NodeView, TokenContext,
};
use crate::text::ascii_text;
use vstd::prelude::*;
use vstd::utf8::decode_utf8;

verus! {

/// A numeric literal: digits and at most one decimal point, starting with a
/// digit.
pub open spec fn is_number_literal(s: Seq<u8>) -> bool {
    &&& s.len() > 0
    &&& is_digit(char_at(s, 0))
    &&& forall|i: int| 0 <= i < s.len() ==> Run::Number.holds(char_at(s, i))
    &&& dots(s) <= 1
}

/// A numeric literal renders as it was written: lexing it yields one number
/// token that carries the literal's text, parsing that token yields a
/// number node with the same text, and evaluating that node, under any
/// bindings, renders that text.
pub proof fn lemma_number_round_trip(s: Seq<u8>, env: Bindings, active: Names, names: Names)
    requires
        is_number_literal(s),
    ensures
        ({
            let token = token_at(TokenTypeView::Number(ascii_text(s)), 0, 0, s.len() as int);
            let node = NodeView::Number { ctx: token.ctx(), val: ascii_text(s) };
            &&& lex_step(s, 0, 0).result == Ok::<TokenView, LspErrorView>(token)
            &&& lex_step(s, 0, 0).pos == s.len()
            &&& parse_form(seq![token], 0).result == Ok::<NodeView, LspErrorView>(node)
            &&& eval_node(env, node, active, names).result == Ok::<
                Option<Seq<char>>,
                LspErrorView,
            >(Some(ascii_text(s)))
        }),
{
    lemma_run_end_is(s, 0, s.len() as int, Run::Number);
    assert(s.subrange(0, s.len() as int) =~= s);
}

/// Every token and every lexical error cites a span of the source that
/// lies between the place where the step began and the place where it
/// ended. A number and an identifier carry the text of the bytes of their
/// span, a string the text that those bytes encode, and the other tokens
/// have an empty span.
pub proof fn lemma_lexed_span_is_in_source(s: Seq<u8>, pos: int, line: int)
    requires
        0 <= pos <= s.len() <= usize::MAX,
    ensures
        pos <= lex_step(s, pos, line).pos <= s.len(),
        match lex_step(s, pos, line).result {
            Ok(token) => {
                &&& pos <= token.start <= token.end <= lex_step(s, pos, line).pos
                &&& match token.token_type {
                    TokenTypeView::Number(text) => text == ascii_text(
                        s.subrange(token.start as int, token.end as int),
                    ),
                    TokenTypeView::Ident(text) => text == ascii_text(
                        s.subrange(token.start as int, token.end as int),
                    ),
                    TokenTypeView::String(text) => text == decode_utf8(
                        s.subrange(token.start as int, token.end as int),
                    ),
                    _ => token.start == token.end,
                }
            },
            Err(error) => pos <= error.ctx.start <= error.ctx.end <= lex_step(s, pos, line).pos,
        },
{
    let p = trivia_end(s, pos, false);
    lemma_trivia_end_bounds(s, pos, false);
    if p < s.len() {
        lemma_run_end(s, p, Run::Number);
        lemma_run_end(s, p, Run::Ident);
        lemma_run_end(s, p + 1, Run::Quoted);
    }
}

/// True of what the grammar can produce: atoms, lists of forms, and
/// definitions whose value is a form.
pub open spec fn is_form(node: NodeView) -> bool
    decreases node,
{
    match node {
        NodeView::Number { .. } => true,
        NodeView::String { .. } => true,
        NodeView::Ident { .. } => true,
        NodeView::List(children) => forall|i: int|
            0 <= i < children.len() ==> is_form(#[trigger] children[i]),
        NodeView::Var { value, .. } => is_form(*value),
        NodeView::Null => false,
    }
}

/// The token kinds that spell a form.
pub open spec fn spelling(node: NodeView) -> Seq<TokenTypeView>
    decreases node, 0nat,
{
    match node {
        NodeView::Number { val, .. } => seq![TokenTypeView::Number(val)],
        NodeView::String { val, .. } => seq![TokenTypeView::String(val)],
        NodeView::Ident { val, .. } => seq![TokenTypeView::Ident(val)],
        NodeView::List(children) => seq![TokenTypeView::DelimitorLeft] + spellings(children, 0)
            + seq![TokenTypeView::DelimitorRight],
        NodeView::Var { ident, value, .. } => seq![
            TokenTypeView::Hashtag,
            TokenTypeView::DelimitorLeft,
            TokenTypeView::Ident(ident),
        ] + spelling(*value) + seq![TokenTypeView::DelimitorRight],
        NodeView::Null => Seq::empty(),
    }
}

/// The token kinds that spell the forms `nodes[from..]`, one after the
/// other.
pub open spec fn spellings(nodes: Seq<NodeView>, from: int) -> Seq<TokenTypeView>
    decreases nodes, nodes.len() - from,
{
    if from < 0 || from >= nodes.len() {
        Seq::empty()
    } else {
        spelling(nodes[from]) + spellings(nodes, from + 1)
    }
}

/// True when the tokens from `pos` on are of the given kinds.
pub open spec fn spelled_at(ts: Seq<TokenView>, pos: int, kinds: Seq<TokenTypeView>) -> bool {
    &&& 0 <= pos
    &&& pos + kinds.len() <= ts.len()
    &&& forall|k: int| 0 <= k < kinds.len() ==> (#[trigger] ts[pos + k]).token_type == kinds[k]
}

/// The spelling of a form is not empty, and begins with a token that can
/// begin a form.
pub proof fn lemma_spelling_begins(node: NodeView)
    requires
        is_form(node),
    ensures
        spelling(node).len() >= 1,
        !(spelling(node)[0] is DelimitorRight),
        !(spelling(node)[0] is EOF),
{
}

/// Dropping the first of a sequence of forms drops its spelling.
pub proof fn lemma_spellings_shift(first: NodeView, rest: Seq<NodeView>, from: int)
    requires
        0 <= from,
    ensures
        spellings(seq![first] + rest, from + 1) == spellings(rest, from),
    decreases rest.len() - from,
{
    let all = seq![first] + rest;
    if from < rest.len() {
        assert(all[from + 1] == rest[from]);
        lemma_spellings_shift(first, rest, from + 1);
    }
}

/// Where the tokens from the cursor on spell a form, the parser yields a
/// form with that spelling and leaves the cursor behind its last token:
/// it consumes the tokens of the form, all of them and no others.
pub proof fn lemma_parse_spelled_form(ts: Seq<TokenView>, pos: int, node: NodeView)
    requires
        is_form(node),
        spelled_at(ts, pos, spelling(node)),
    ensures
        parse_form(ts, pos).pos == pos + spelling(node).len(),
        parse_form(ts, pos).result matches Ok(parsed) && is_form(parsed) && spelling(parsed)
            == spelling(node),
    decreases node, 0nat,
{
    let kinds = spelling(node);
    assert(ts[pos + 0].token_type == kinds[0]);
    match node {
        NodeView::List(children) => {
            let inner = spellings(children, 0);
            let last = 1 + inner.len() as int;
            assert(ts[pos + last].token_type == kinds[last]);
            assert(spelled_at(ts, pos + 1, inner)) by {
                assert forall|k: int| 0 <= k < inner.len() implies (#[trigger] ts[pos + 1
                    + k]).token_type == inner[k] by {
                    assert(ts[pos + (1 + k)].token_type == kinds[1 + k]);
                }
            }
            lemma_parse_spelled_items(ts, pos + 1, children, 0);
        },
        NodeView::Var { ctx, ident, value } => {
            let inner = spelling(*value);
            assert(ts[pos + 1].token_type == kinds[1]);
            assert(ts[pos + 2].token_type == kinds[2]);
            let last = 3 + inner.len() as int;
            assert(ts[pos + last].token_type == kinds[last]);
            assert(spelled_at(ts, pos + 3, inner)) by {
                assert forall|k: int| 0 <= k < inner.len() implies (#[trigger] ts[pos + 3
                    + k]).token_type == inner[k] by {
                    assert(ts[pos + (3 + k)].token_type == kinds[3 + k]);
                }
            }
            lemma_parse_spelled_form(ts, pos + 3, *value);
        },
        _ => {},
    }
}

/// Where the tokens from the cursor on spell the forms `nodes[from..]`, and
/// the forms of a list end behind them, the parser yields forms with that
/// spelling and leaves the cursor behind the last of their tokens.
pub proof fn lemma_parse_spelled_items(
    ts: Seq<TokenView>,
    pos: int,
    nodes: Seq<NodeView>,
    from: int,
)
    requires
        0 <= from <= nodes.len(),
        forall|i: int| from <= i < nodes.len() ==> is_form(#[trigger] nodes[i]),
        spelled_at(ts, pos, spellings(nodes, from)),
        ends_items(ts, pos + spellings(nodes, from).len()),
    ensures
        parse_items(ts, pos).pos == pos + spellings(nodes, from).len(),
        parse_items(ts, pos).result matches Ok(parsed) && spellings(parsed, 0) == spellings(
            nodes,
            from,
        ) && (forall|i: int| 0 <= i < parsed.len() ==> is_form(#[trigger] parsed[i])),
    decreases nodes, nodes.len() - from,
{
    let kinds = spellings(nodes, from);
    if from < nodes.len() {
        let head = spelling(nodes[from]);
        let tail = spellings(nodes, from + 1);
        assert(is_form(nodes[from]));
        lemma_spelling_begins(nodes[from]);
        assert(ts[pos + 0].token_type == kinds[0]);
        assert(spelled_at(ts, pos, head)) by {
            assert forall|k: int| 0 <= k < head.len() implies (#[trigger] ts[pos
                + k]).token_type == head[k] by {
                assert(kinds[k] == head[k]);
            }
        }
        lemma_parse_spelled_form(ts, pos, nodes[from]);
        let first = parse_form(ts, pos);
        let parsed_first = first.result->Ok_0;
        assert(spelled_at(ts, first.pos, tail)) by {
            assert forall|k: int| 0 <= k < tail.len() implies (#[trigger] ts[first.pos
                + k]).token_type == tail[k] by {
                let at = head.len() as int + k;
                assert(ts[pos + at].token_type == kinds[at]);
            }
        }
        lemma_parse_spelled_items(ts, first.pos, nodes, from + 1);
        let rest = parse_items(ts, first.pos);
        let parsed_rest = rest.result->Ok_0;
        let parsed = seq![parsed_first] + parsed_rest;
        lemma_spellings_shift(parsed_first, parsed_rest, 0);
        assert(parsed[0] == parsed_first);
        assert forall|i: int| 0 <= i < parsed.len() implies is_form(#[trigger] parsed[i]) by {
            if i > 0 {
                assert(parsed[i] == parsed_rest[i - 1]);
            }
        }
    }
}

/// Tokens that spell one run of kinds and then another spell the two in a
/// row.
pub proof fn lemma_spelled_in_a_row(
    ts: Seq<TokenView>,
    pos: int,
    first: Seq<TokenTypeView>,
    second: Seq<TokenTypeView>,
)
    requires
        spelled_at(ts, pos, first),
        spelled_at(ts, pos + first.len(), second),
    ensures
        spelled_at(ts, pos, first + second),
{
    let both = first + second;
    assert forall|k: int| 0 <= k < both.len() implies (#[trigger] ts[pos + k]).token_type
        == both[k] by {
        if k >= first.len() {
            let rest = k - first.len();
            assert(ts[pos + first.len() + rest].token_type == second[rest]);
        }
    }
}

/// Whatever form the parser yields, the tokens it consumed spell it: the
/// cursor moves over the tokens of the form, all of them and no others.
/// And the form is one that the grammar can produce.
pub proof fn lemma_parsed_form_is_spelled(ts: Seq<TokenView>, pos: int)
    requires
        0 <= pos <= ts.len(),
        parse_form(ts, pos).result is Ok,
        parse_form(ts, pos).result != Ok::<NodeView, LspErrorView>(NodeView::Null),
    ensures
        ({
            let step = parse_form(ts, pos);
            let node = step.result->Ok_0;
            &&& is_form(node)
            &&& spelled_at(ts, pos, spelling(node))
            &&& step.pos == pos + spelling(node).len()
        }),
    decreases ts.len() - pos, 2int,
{
    lemma_parse_form_advances(ts, pos);
    let token = ts[pos];
    let node = parse_form(ts, pos).result->Ok_0;
    match token.token_type {
        TokenTypeView::Hashtag => {
            let value = parse_form(ts, pos + 3);
            lemma_parse_form_advances(ts, pos + 3);
            lemma_parsed_form_is_spelled(ts, pos + 3);
            let head = seq![
                TokenTypeView::Hashtag,
                TokenTypeView::DelimitorLeft,
                ts[pos + 2].token_type,
            ];
            let inner = spelling(value.result->Ok_0);
            let close = seq![TokenTypeView::DelimitorRight];
            assert(spelled_at(ts, pos, head)) by {
                assert forall|k: int| 0 <= k < head.len() implies (#[trigger] ts[pos
                    + k]).token_type == head[k] by {
                    if k == 0 {
                    } else if k == 1 {
                    } else {
                    }
                }
            }
            assert(spelled_at(ts, value.pos, close)) by {
                assert(ts[value.pos + 0].token_type == close[0]);
            }
            lemma_spelled_in_a_row(ts, pos, head, inner);
            lemma_spelled_in_a_row(ts, pos, head + inner, close);
        },
        TokenTypeView::DelimitorLeft => {
            let items = parse_items(ts, pos + 1);
            lemma_parsed_items_are_spelled(ts, pos + 1);
            let open = seq![TokenTypeView::DelimitorLeft];
            let inner = spellings(items.result->Ok_0, 0);
            let close = seq![TokenTypeView::DelimitorRight];
            assert(spelled_at(ts, pos, open)) by {
                assert(ts[pos + 0].token_type == open[0]);
            }
            assert(spelled_at(ts, items.pos, close)) by {
                assert(ts[items.pos + 0].token_type == close[0]);
            }
            lemma_spelled_in_a_row(ts, pos, open, inner);
            lemma_spelled_in_a_row(ts, pos, open + inner, close);
        },
        _ => {
            assert(ts[pos + 0].token_type == spelling(node)[0]);
        },
    }
}

/// Whatever forms a run yields, the tokens it consumed spell them.
pub proof fn lemma_parsed_items_are_spelled(ts: Seq<TokenView>, pos: int)
    requires
        0 <= pos <= ts.len(),
        parse_items(ts, pos).result is Ok,
    ensures
        ({
            let items = parse_items(ts, pos);
            let nodes = items.result->Ok_0;
            &&& forall|i: int| 0 <= i < nodes.len() ==> is_form(#[trigger] nodes[i])
            &&& spelled_at(ts, pos, spellings(nodes, 0))
            &&& items.pos == pos + spellings(nodes, 0).len()
        }),
    decreases ts.len() - pos, 3int,
{
    if !ends_items(ts, pos) {
        lemma_parse_form_advances(ts, pos);
        let first = parse_form(ts, pos);
        let node = first.result->Ok_0;
        lemma_parsed_form_is_spelled(ts, pos);
        lemma_parsed_items_are_spelled(ts, first.pos);
        let rest = parse_items(ts, first.pos).result->Ok_0;
        let nodes = seq![node] + rest;
        lemma_spellings_shift(node, rest, 0);
        assert(nodes[0] == node);
        lemma_spelled_in_a_row(ts, pos, spelling(node), spellings(rest, 0));
        assert forall|i: int| 0 <= i < nodes.len() implies is_form(#[trigger] nodes[i]) by {
            if i > 0 {
                assert(nodes[i] == rest[i - 1]);
            }
        }
    }
}

/// A syntax error does not end the parsing. Where the form at the cursor
/// fails and the tokens behind the failure spell a form, the next form the
/// parser yields has that spelling, and the run over all the tokens holds
/// both the error and that form.
pub proof fn lemma_parse_recovers(ts: Seq<TokenView>, pos: int, node: NodeView)
    requires
        0 <= pos <= ts.len(),
        parse_form(ts, pos).result is Err,
        is_form(node),
        spelled_at(ts, parse_form(ts, pos).pos, spelling(node)),
    ensures
        ({
            let failed = parse_form(ts, pos);
            let resumed = parse_form(ts, failed.pos);
            let all = parse_all(ts, pos);
            &&& resumed.result matches Ok(parsed) && spelling(parsed) == spelling(node)
            &&& resumed.pos == failed.pos + spelling(node).len()
            &&& all.1.len() > 0 && all.1[0] == failed.result->Err_0
            &&& all.0.len() > 0 && all.0[0] == resumed.result->Ok_0
        }),
{
    let failed = parse_form(ts, pos);
    lemma_parse_form_advances(ts, pos);
    lemma_parse_spelled_form(ts, failed.pos, node);
    lemma_parse_form_advances(ts, failed.pos);
    let resumed = parse_form(ts, failed.pos);
    let after = parse_all(ts, failed.pos);
    let beyond = parse_all(ts, resumed.pos);
    assert(after.0 == seq![resumed.result->Ok_0] + beyond.0);
    assert(parse_all(ts, pos).1 == seq![failed.result->Err_0] + after.1);
    assert(parse_all(ts, pos).0 == after.0);
}

/// True of the error that refuses a name bound in a circle.
pub open spec fn names_a_circle(error: LspErrorView) -> bool {
    exists|name: Seq<char>| error.message == #[trigger] circular_message(name)
}

/// A definition binds its name to the expression, unevaluated, and has no
/// value. After it, the name evaluates the bound expression, whatever the
/// span of the place where it is used.
pub proof fn lemma_defined_resolves(
    env: Bindings,
    ctx: TokenContext,
    name: Seq<char>,
    value: NodeView,
    site: TokenContext,
    names: Names,
)
    requires
        names.finite(),
        names.contains(name),
    ensures
        ({
            let defined = eval_node(
                env,
                NodeView::Var { ctx, ident: name, value: Box::new(value) },
                Set::empty(),
                names,
            );
            &&& defined.result == Ok::<Option<Seq<char>>, LspErrorView>(None)
            &&& defined.env == env.insert(name, value)
            &&& eval_node(defined.env, NodeView::Ident { ctx: site, val: name }, Set::empty(), names)
                == eval_node(defined.env, value, Set::<Seq<char>>::empty().insert(name), names)
        }),
{
}

/// An evaluation that meets no circle does not depend on the names that
/// are being resolved around it: with fewer of them it yields the same.
pub proof fn lemma_fewer_active(
    env: Bindings,
    node: NodeView,
    fewer: Names,
    more: Names,
    names: Names,
)
    requires
        fewer.subset_of(more),
        !(eval_node(env, node, more, names).result matches Err(error) && names_a_circle(error)),
    ensures
        eval_node(env, node, fewer, names) == eval_node(env, node, more, names),
    decreases names.difference(fewer).len(), node, 0nat,
{
    match node {
        NodeView::Ident { ctx, val } => {
            if env.contains_key(val) {
                if more.contains(val) || !names.contains(val) || !names.finite() {
                    assert(names_a_circle(LspErrorView { ctx, message: circular_message(val) }));
                } else {
                    lemma_entering_leaves_less(names, fewer, val);
                    lemma_fewer_active(env, env[val], fewer.insert(val), more.insert(val), names);
                }
            }
        },
        NodeView::List(children) => {
            lemma_fewer_active_items(env, children, 0, fewer, more, names);
        },
        _ => {},
    }
}

/// The children of a list that meet no circle do not depend on the names
/// that are being resolved around them.
pub proof fn lemma_fewer_active_items(
    env: Bindings,
    items: Seq<NodeView>,
    from: int,
    fewer: Names,
    more: Names,
    names: Names,
)
    requires
        fewer.subset_of(more),
        !(eval_items(env, items, from, more, names).result matches Err(error) && names_a_circle(
            error,
        )),
    ensures
        eval_items(env, items, from, fewer, names) == eval_items(env, items, from, more, names),
    decreases names.difference(fewer).len(), items, items.len() - from,
{
    if 0 <= from < items.len() {
        let first = eval_node(env, items[from], more, names);
        lemma_fewer_active(env, items[from], fewer, more, names);
        if first.result is Ok {
            lemma_fewer_active_items(first.env, items, from + 1, fewer, more, names);
        }
    }
}

/// The set of names under which an evaluation is taken does not matter, as
/// long as it covers the bindings and the node: any two such sets give the
/// same result and the same bindings. And they cover the bindings
/// afterwards.
pub proof fn lemma_names_do_not_matter(
    env: Bindings,
    node: NodeView,
    active: Names,
    first: Names,
    second: Names,
)
    requires
        covers(first, env, node),
        covers(second, env, node),
    ensures
        eval_node(env, node, active, first) == eval_node(env, node, active, second),
        covers(first, eval_node(env, node, active, first).env, node),
        covers(second, eval_node(env, node, active, first).env, node),
    decreases first.difference(active).len(), node, 0nat,
{
    match node {
        NodeView::Ident { ctx, val } => {
            if env.contains_key(val) && !active.contains(val) {
                lemma_entering_leaves_less(first, active, val);
                lemma_names_do_not_matter(env, env[val], active.insert(val), first, second);
            }
        },
        NodeView::List(children) => {
            lemma_names_do_not_matter_among(env, children, 0, active, first, second);
        },
        NodeView::Var { ctx, ident, value } => {
            assert(defined_names(node).contains(ident));
            assert(defined_names(*value).subset_of(defined_names(node)));
        },
        _ => {},
    }
}

/// The set of names under which the children of a list are evaluated does
/// not matter, as long as it covers the bindings and the list.
pub proof fn lemma_names_do_not_matter_among(
    env: Bindings,
    items: Seq<NodeView>,
    from: int,
    active: Names,
    first: Names,
    second: Names,
)
    requires
        0 <= from,
        covers(first, env, NodeView::List(items)),
        covers(second, env, NodeView::List(items)),
    ensures
        eval_items(env, items, from, active, first) == eval_items(env, items, from, active, second),
        covers(first, eval_items(env, items, from, active, first).env, NodeView::List(items)),
        covers(second, eval_items(env, items, from, active, first).env, NodeView::List(items)),
    decreases first.difference(active).len(), items, items.len() - from,
{
    if from < items.len() {
        lemma_child_defines_less(items, 0, from);
        lemma_names_do_not_matter(env, items[from], active, first, second);
        let step = eval_node(env, items[from], active, first);
        if step.result is Ok {
            lemma_names_do_not_matter_among(step.env, items, from + 1, active, first, second);
        }
    }
}

/// A bound identifier evaluates as the expression it is bound to: unless
/// its resolution meets a circle, it returns what that expression returns
/// under the same bindings, and leaves the bindings that the expression
/// leaves. This holds under any sets of names that cover the two
/// evaluations, so of what [`crate::parser::Context::eval`] returns for the
/// identifier and for the expression.
pub proof fn lemma_bound_evaluates_as_its_expression(
    env: Bindings,
    site: TokenContext,
    name: Seq<char>,
    names: Names,
    other_names: Names,
)
    requires
        env.contains_key(name),
        covers(names, env, NodeView::Ident { ctx: site, val: name }),
        covers(other_names, env, env[name]),
        !(eval_node(env, NodeView::Ident { ctx: site, val: name }, Set::empty(), names).result
            matches Err(error) && names_a_circle(error)),
    ensures
        eval_node(env, NodeView::Ident { ctx: site, val: name }, Set::empty(), names) == eval_node(
            env,
            env[name],
            Set::empty(),
            other_names,
        ),
{
    let entered = Set::<Seq<char>>::empty().insert(name);
    lemma_fewer_active(env, env[name], Set::empty(), entered, names);
    lemma_names_do_not_matter(env, env[name], Set::empty(), names, other_names);
}

/// True when each name of `chain` is bound to the next as an identifier,
/// and the last to the string `text`.
pub open spec fn is_chain(env: Bindings, chain: Seq<Seq<char>>, text: Seq<char>) -> bool {
    &&& chain.len() >= 1
    &&& forall|i: int| 0 <= i < chain.len() ==> env.contains_key(#[trigger] chain[i])
    &&& forall|i: int|
        0 <= i < chain.len() - 1 ==> (env[#[trigger] chain[i]] matches NodeView::Ident { val, .. }
            && val == chain[i + 1])
    &&& env[chain.last()] matches NodeView::String { val, .. } && val == text
}

/// Resolution goes through a chain of any length: where distinct names are
/// bound each to the next and the last to a string, the first renders that
/// string, and the bindings stay as they are.
pub proof fn lemma_chain_resolves(
    env: Bindings,
    chain: Seq<Seq<char>>,
    text: Seq<char>,
    site: TokenContext,
    active: Names,
    names: Names,
)
    requires
        is_chain(env, chain, text),
        names.finite(),
        forall|i: int| 0 <= i < chain.len() ==> names.contains(#[trigger] chain[i]),
        forall|i: int| 0 <= i < chain.len() ==> !active.contains(#[trigger] chain[i]),
        forall|i: int, j: int| 0 <= i < j < chain.len() ==> chain[i] != chain[j],
    ensures
        eval_node(env, NodeView::Ident { ctx: site, val: chain[0] }, active, names) == (EvalStep {
            result: Ok(Some(text)),
            env,
        }),
    decreases chain.len(),
{
    let head = chain[0];
    assert(env.contains_key(head) && names.contains(head) && !active.contains(head));
    assert(eval_node(env, NodeView::Ident { ctx: site, val: head }, active, names) == eval_node(
        env,
        env[head],
        active.insert(head),
        names,
    ));
    if chain.len() == 1 {
        assert(chain.last() == head);
        assert(env[head] is String);
    } else {
        assert(env[head] matches NodeView::Ident { val, .. } && val == chain[1int]);
        let rest = chain.drop_first();
        let entered = active.insert(chain[0]);
        assert forall|i: int| 0 <= i < rest.len() implies env.contains_key(#[trigger] rest[i])
            && names.contains(rest[i]) && !entered.contains(rest[i]) by {
            assert(rest[i] == chain[i + 1]);
        }
        assert forall|i: int| 0 <= i < rest.len() - 1 implies (env[#[trigger] rest[i]] matches NodeView::Ident {
            val,
            ..
        } && val == rest[i + 1]) by {
            assert(rest[i] == chain[i + 1]);
            assert(rest[i + 1] == chain[i + 2]);
        }
        assert(rest.last() == chain.last());
        assert(rest[0] == chain[1]);
        let next_site = env[head]->Ident_ctx;
        lemma_chain_resolves(env, rest, text, next_site, entered, names);
        assert(env[head] == (NodeView::Ident { ctx: next_site, val: rest[0] }));
    }
}

/// A name that was never bound fails with an error that cites the span of
/// the identifier itself, and the bindings stay as they are.
pub proof fn lemma_unbound_fails(
    env: Bindings,
    site: TokenContext,
    name: Seq<char>,
    active: Names,
    names: Names,
)
    requires
        !env.contains_key(name),
    ensures
        eval_node(env, NodeView::Ident { ctx: site, val: name }, active, names) == (EvalStep {
            result: Err(LspErrorView { ctx: site, message: undefined_message(name) }),
            env,
        }),
{
}

/// True when no definition stands anywhere in the node.
pub open spec fn defines_nothing(node: NodeView) -> bool
    decreases node,
{
    match node {
        NodeView::List(children) => forall|i: int|
            0 <= i < children.len() ==> defines_nothing(#[trigger] children[i]),
        NodeView::Var { .. } => false,
        _ => true,
    }
}

/// True when no definition stands in any bound expression.
pub open spec fn binds_no_definitions(env: Bindings) -> bool {
    forall|name: Seq<char>| env.contains_key(name) ==> defines_nothing(#[trigger] env[name])
}

/// Evaluation changes the bindings only through definitions: a node that
/// holds none, under bindings whose expressions hold none, leaves the
/// bindings as they are.
pub proof fn lemma_pure_keeps_bindings(env: Bindings, node: NodeView, active: Names, names: Names)
    requires
        defines_nothing(node),
        binds_no_definitions(env),
    ensures
        eval_node(env, node, active, names).env == env,
    decreases names.difference(active).len(), node, 0nat,
{
    match node {
        NodeView::Ident { ctx, val } => {
            if env.contains_key(val) && !active.contains(val) && names.contains(val)
                && names.finite() {
                lemma_entering_leaves_less(names, active, val);
                lemma_pure_keeps_bindings(env, env[val], active.insert(val), names);
            }
        },
        NodeView::List(children) => {
            lemma_pure_items_keep_bindings(env, children, 0, active, names);
        },
        _ => {},
    }
}

/// The children of a list that hold no definition leave the bindings as
/// they are.
pub proof fn lemma_pure_items_keep_bindings(
    env: Bindings,
    items: Seq<NodeView>,
    from: int,
    active: Names,
    names: Names,
)
    requires
        0 <= from,
        forall|i: int| 0 <= i < items.len() ==> defines_nothing(#[trigger] items[i]),
        binds_no_definitions(env),
    ensures
        eval_items(env, items, from, active, names).env == env,
    decreases names.difference(active).len(), items, items.len() - from,
{
    if from < items.len() {
        lemma_pure_keeps_bindings(env, items[from], active, names);
        lemma_pure_items_keep_bindings(env, items, from + 1, active, names);
    }
}

/// Evaluation is repeatable: a node whose evaluation left the bindings as
/// they were evaluates to the same result again.
pub proof fn lemma_eval_repeats(env: Bindings, node: NodeView, active: Names, names: Names)
    requires
        eval_node(env, node, active, names).env == env,
    ensures
        eval_node(eval_node(env, node, active, names).env, node, active, names) == eval_node(
            env,
            node,
            active,
            names,
        ),
{
}

/// A list without definitions renders the same text however often it is
/// evaluated, under bindings whose expressions hold no definitions.
pub proof fn lemma_list_idempotent(env: Bindings, children: Seq<NodeView>, names: Names)
    requires
        defines_nothing(NodeView::List(children)),
        binds_no_definitions(env),
    ensures
        ({
            let once = eval_node(env, NodeView::List(children), Set::empty(), names);
            let twice = eval_node(once.env, NodeView::List(children), Set::empty(), names);
            twice == once
        }),
{
    lemma_pure_keeps_bindings(env, NodeView::List(children), Set::empty(), names);
}

/// A form that fails does not end the evaluation: the forms after it are
/// evaluated under the bindings that the failed form left, and the error is
/// the first of the run.
pub proof fn lemma_eval_continues(env: Bindings, nodes: Seq<NodeView>, from: int, names: Names)
    requires
        0 <= from < nodes.len(),
        eval_node(env, nodes[from], Set::empty(), names).result is Err,
    ensures
        ({
            let failed = eval_node(env, nodes[from], Set::empty(), names);
            let rest = eval_all(failed.env, nodes, from + 1, names);
            let all = eval_all(env, nodes, from, names);
            &&& all.texts == rest.texts
            &&& all.errors == seq![failed.result->Err_0] + rest.errors
            &&& all.env == rest.env
        }),
{
}

} // verus!
