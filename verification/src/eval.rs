//! Evaluation of syntax trees against an environment of bindings.
//!
//! The model of the evaluator is [`eval_node`], a function from the
//! bindings and a tree to the rendered text, or the error, and the bindings
//! afterwards. [`Context::eval`] is proved to compute exactly that function.
//!
//! An identifier evaluates the expression it is bound to, however long the
//! chain of bindings. Only a name that is looked up again while it is still
//! being resolved is refused, as a definition in a circle.

use crate::error::{error_views, LspError, LspErrorView};
use crate::parser::{lemma_node_views, node_views, Context, Node, NodeView};
use vstd::hash_map::StringHashMap;
use vstd::prelude::*;

verus! {

/// The bindings of an evaluation session as a map.
pub type Bindings = Map<Seq<char>, NodeView>;

/// A set of names.
pub type Names = Set<Seq<char>>;

/// The names that the definitions inside a node bind.
pub open spec fn defined_names(node: NodeView) -> Set<Seq<char>>
    decreases node, 0nat,
{
    match node {
        NodeView::List(children) => defined_among(children, 0),
        NodeView::Var { ident, value, .. } => defined_names(*value).insert(ident),
        _ => Set::empty(),
    }
}

/// The names that the definitions inside `items[from..]` bind.
pub open spec fn defined_among(items: Seq<NodeView>, from: int) -> Set<Seq<char>>
    decreases items, items.len() - from,
{
    if from < 0 || from >= items.len() {
        Set::empty()
    } else {
        defined_names(items[from]).union(defined_among(items, from + 1))
    }
}

/// A node defines finitely many names.
pub proof fn lemma_defined_names_finite(node: NodeView)
    ensures
        defined_names(node).finite(),
    decreases node, 0nat,
{
    match node {
        NodeView::List(children) => {
            lemma_defined_among_finite(children, 0);
        },
        NodeView::Var { ident, value, .. } => {
            lemma_defined_names_finite(*value);
        },
        _ => {},
    }
}

/// The nodes of a sequence define finitely many names.
pub proof fn lemma_defined_among_finite(items: Seq<NodeView>, from: int)
    ensures
        defined_among(items, from).finite(),
    decreases items, items.len() - from,
{
    if 0 <= from < items.len() {
        lemma_defined_names_finite(items[from]);
        lemma_defined_among_finite(items, from + 1);
    }
}

/// What a child of a list defines, the list defines.
pub proof fn lemma_child_defines_less(items: Seq<NodeView>, from: int, i: int)
    requires
        0 <= from <= i < items.len(),
    ensures
        defined_names(items[i]).subset_of(defined_among(items, from)),
    decreases i - from,
{
    if from < i {
        lemma_child_defines_less(items, from + 1, i);
    }
}

/// True when `names` is a finite set that holds every name that `env`
/// binds and every name that a definition inside `node`, or inside an
/// expression bound in `env`, can bind.
pub open spec fn covers(names: Set<Seq<char>>, env: Map<Seq<char>, NodeView>, node: NodeView) -> bool {
    &&& names.finite()
    &&& defined_names(node).subset_of(names)
    &&& forall|name: Seq<char>| #[trigger]
        env.contains_key(name) ==> names.contains(name) && defined_names(env[name]).subset_of(
            names,
        )
}

impl Context {
    #[verifier::type_invariant]
    closed spec fn well_formed(self) -> bool {
        &&& self.names@.finite()
        &&& forall|name: Seq<char>| #[trigger]
            self.variables@.contains_key(name) ==> self.names@.contains(name) && defined_names(
                self.variables@[name]@,
            ).subset_of(self.names@)
    }

    /// The bindings as a map from names to expressions.
    pub closed spec fn bindings(&self) -> Map<Seq<char>, NodeView> {
        self.variables@.map_values(|n: Node| n@)
    }

    /// A finite set of names that holds every name the context binds or
    /// has seen defined.
    pub closed spec fn known_names(&self) -> Set<Seq<char>> {
        self.names@
    }

    /// The names that an evaluation of `node` can meet: those the context
    /// knows and those that `node` defines.
    pub open spec fn scope(&self, node: NodeView) -> Set<Seq<char>> {
        self.known_names().union(defined_names(node))
    }
}

impl Default for Context {
    /// A context without variables.
    fn default() -> (context: Self)
        ensures
            context.bindings() == Map::<Seq<char>, NodeView>::empty(),
            context.known_names() == Set::<Seq<char>>::empty(),
    {
        let context = Context { variables: StringHashMap::new(), names: Ghost(Set::empty()) };
        assert(context.bindings() =~= Map::<Seq<char>, NodeView>::empty());
        context
    }
}

/// What the evaluation of one node yields: the rendered text, if the node
/// has a value, or the error; and the bindings afterwards.
pub struct EvalStep {
    pub result: Result<Option<Seq<char>>, LspErrorView>,
    pub env: Bindings,
}

/// What the evaluation of the children of a list yields: the rendered texts
/// of those that have a value, in order, or the first error; and the
/// bindings afterwards.
pub struct EvalItems {
    pub result: Result<Seq<Seq<char>>, LspErrorView>,
    pub env: Bindings,
}

pub open spec fn undefined_message(name: Seq<char>) -> Seq<char> {
    "undefined identifier: "@ + name
}

pub open spec fn circular_message(name: Seq<char>) -> Seq<char> {
    "circular definition: "@ + name
}

/// The text that stands for the `Null` node.
pub open spec fn nil_text() -> Seq<char> {
    "<nil>"@
}

/// The parts in order, with `sep` between each two.
pub open spec fn join(parts: Seq<Seq<char>>, sep: Seq<char>) -> Seq<char>
    decreases parts.len(),
{
    if parts.len() == 0 {
        Seq::empty()
    } else if parts.len() == 1 {
        parts[0]
    } else {
        join(parts.drop_last(), sep) + sep + parts.last()
    }
}

/// How a list renders: its parts between parentheses, separated by a comma
/// and a space.
pub open spec fn list_text(parts: Seq<Seq<char>>) -> Seq<char> {
    "("@ + join(parts, ", "@) + ")"@
}

/// The evaluation of `node` under the bindings `env`, while the names in
/// `active` are being resolved.
///
/// - A number and a string render as their text; `Null` as `<nil>`.
/// - An identifier evaluates the expression it is bound to. Unbound, it is
///   an error that cites the identifier's own span. So it is when its name
///   is being resolved already.
/// - A list evaluates its children from left to right and renders those
///   that have a value. The first error ends it.
/// - A definition binds the name to the expression, unevaluated, and has
///   no value.
///
/// `names` is what makes the resolution end: a finite set that holds every
/// name an evaluation can meet (see [`covers`]). Every bound name is in
/// such a set, and which such set is taken makes no difference to the
/// result.
pub open spec fn eval_node(env: Bindings, node: NodeView, active: Names, names: Names) -> EvalStep
    decreases names.difference(active).len(), node, 0nat,
{
    match node {
        NodeView::Number { ctx, val } => EvalStep { result: Ok(Some(val)), env },
        NodeView::String { ctx, val } => EvalStep { result: Ok(Some(val)), env },
        NodeView::Ident { ctx, val } => if !env.contains_key(val) {
            EvalStep { result: Err(LspErrorView { ctx, message: undefined_message(val) }), env }
        } else if active.contains(val) || !names.contains(val) || !names.finite() {
            EvalStep { result: Err(LspErrorView { ctx, message: circular_message(val) }), env }
        } else {
            proof {
                lemma_entering_leaves_less(names, active, val);
            }
            eval_node(env, env[val], active.insert(val), names)
        },
        NodeView::List(children) => {
            let items = eval_items(env, children, 0, active, names);
            EvalStep {
                result: match items.result {
                    Ok(parts) => Ok(Some(list_text(parts))),
                    Err(error) => Err(error),
                },
                env: items.env,
            }
        },
        NodeView::Var { ctx, ident, value } => EvalStep {
            result: Ok(None),
            env: env.insert(ident, *value),
        },
        NodeView::Null => EvalStep { result: Ok(Some(nil_text())), env },
    }
}

/// The evaluation of the children `items[from..]` of a list, from left to
/// right, each under the bindings its predecessors left.
pub open spec fn eval_items(
    env: Bindings,
    items: Seq<NodeView>,
    from: int,
    active: Names,
    names: Names,
) -> EvalItems
    decreases names.difference(active).len(), items, items.len() - from,
{
    if from < 0 || from >= items.len() {
        EvalItems { result: Ok(Seq::empty()), env }
    } else {
        let first = eval_node(env, items[from], active, names);
        match first.result {
            Err(error) => EvalItems { result: Err(error), env: first.env },
            Ok(value) => {
                let rest = eval_items(first.env, items, from + 1, active, names);
                EvalItems {
                    result: match rest.result {
                        Ok(parts) => Ok(
                            match value {
                                Some(text) => seq![text] + parts,
                                None => parts,
                            },
                        ),
                        Err(error) => Err(error),
                    },
                    env: rest.env,
                }
            },
        }
    }
}

/// Entering a name that is not being resolved leaves fewer names to enter.
pub proof fn lemma_entering_leaves_less(names: Names, active: Names, name: Seq<char>)
    requires
        names.finite(),
        names.contains(name),
        !active.contains(name),
    ensures
        names.difference(active.insert(name)).len() < names.difference(active).len(),
{
    let before = names.difference(active);
    assert(names.difference(active.insert(name)) =~= before.remove(name));
    vstd::set::axiom_set_difference_finite(names, active);
    vstd::set::axiom_set_remove_len(before, name);
}

/// The children that follow, after children that rendered as `before`.
pub open spec fn after_parts(before: Seq<Seq<char>>, items: EvalItems) -> EvalItems {
    EvalItems {
        result: match items.result {
            Ok(parts) => Ok(before + parts),
            Err(error) => Err(error),
        },
        env: items.env,
    }
}

/// The view of what an evaluation hands out.
pub open spec fn evaluated_view(item: Result<Option<String>, LspError>) -> Result<
    Option<Seq<char>>,
    LspErrorView,
> {
    match item {
        Ok(Some(text)) => Ok(Some(text@)),
        Ok(None) => Ok(None),
        Err(error) => Err(error@),
    }
}

/// The views of a sequence of strings, in order.
pub open spec fn text_views(texts: Seq<String>) -> Seq<Seq<char>> {
    texts.map_values(|t: String| t@)
}

/// The names that a sequence of strings holds.
pub open spec fn name_set(names: Seq<String>) -> Names {
    Set::new(|name: Seq<char>| exists|i: int| 0 <= i < names.len() && (#[trigger] names[i])@ == name)
}

/// True when `name` is among `names`.
fn holds_name(names: &Vec<String>, name: &String) -> (found: bool)
    ensures
        found == name_set(names@).contains(name@),
{
    let mut i: usize = 0;
    while i < names.len()
        invariant
            i <= names.len(),
            forall|j: int| 0 <= j < i ==> (#[trigger] names[j])@ != name@,
        decreases names.len() - i,
    {
        if names[i] == *name {
            return true;
        }
        i += 1;
    }
    false
}

impl Context {
    /// The expression that `ident` is bound to, if any.
    pub fn get_var(&self, ident: &str) -> (node: Option<&Node>)
        ensures
            match node {
                Some(bound) => self.bindings().contains_key(ident@) && bound@
                    == self.bindings()[ident@],
                None => !self.bindings().contains_key(ident@),
            },
    {
        self.variables.get(ident)
    }

    /// Evaluates `ast`.
    ///
    /// The result is the rendered text, `None` for a definition, or the
    /// first error. A definition changes the bindings; so does a list that
    /// holds one, also when a later child of the list fails.
    ///
    /// The set of names under which the model is taken covers the bindings
    /// and `ast`, which the last clause says for the caller to use.
    pub fn eval(&mut self, ast: &Node) -> (r: Result<Option<String>, LspError>)
        ensures
            evaluated_view(r) == eval_node(
                old(self).bindings(),
                ast@,
                Set::empty(),
                old(self).scope(ast@),
            ).result,
            final(self).bindings() == eval_node(
                old(self).bindings(),
                ast@,
                Set::empty(),
                old(self).scope(ast@),
            ).env,
            covers(old(self).scope(ast@), old(self).bindings(), ast@),
            final(self).known_names() == old(self).scope(ast@),
    {
        proof {
            use_type_invariant(&*self);
            lemma_defined_names_finite(ast@);
        }
        let ghost scope = self.scope(ast@);
        self.names = Ghost(scope);
        let mut active: Vec<String> = Vec::new();
        proof {
            assert(name_set(active@) =~= Set::<Seq<char>>::empty());
        }
        self.eval_in(ast, &mut active)
    }

    /// Evaluates `ast` while the names in `active` are being resolved.
    fn eval_in(&mut self, ast: &Node, active: &mut Vec<String>) -> (r: Result<
        Option<String>,
        LspError,
    >)
        requires
            defined_names(ast@).subset_of(old(self).known_names()),
        ensures
            evaluated_view(r) == eval_node(
                old(self).bindings(),
                ast@,
                name_set(old(active)@),
                old(self).known_names(),
            ).result,
            final(self).bindings() == eval_node(
                old(self).bindings(),
                ast@,
                name_set(old(active)@),
                old(self).known_names(),
            ).env,
            final(self).known_names() == old(self).known_names(),
            final(active)@ == old(active)@,
        decreases old(self).known_names().difference(name_set(old(active)@)).len(), ast,
    {
        proof {
            use_type_invariant(&*self);
        }
        let ghost names = self.known_names();
        let ghost entered = name_set(active@);
        match ast {
            Node::Number { val, .. } => Ok(Some(val.clone())),
            Node::Ident { ctx, val } => {
                let bound = match self.get_var(val.as_str()) {
                    Some(node) => node.clone(),
                    None => {
                        let mut message = String::from_str("undefined identifier: ");
                        message.append(val.as_str());
                        return Err(LspError::with_context(*ctx, message));
                    },
                };
                if holds_name(active, val) {
                    let mut message = String::from_str("circular definition: ");
                    message.append(val.as_str());
                    return Err(LspError::with_context(*ctx, message));
                }
                let ghost outer = active@;
                active.push(val.clone());
                proof {
                    assert(name_set(active@) =~= entered.insert(val@)) by {
                        assert forall|name: Seq<char>| entered.insert(val@).contains(
                            name,
                        ) implies name_set(active@).contains(name) by {
                            if name == val@ {
                                assert(active@[outer.len() as int]@ == name);
                            } else {
                                let i = choose|i: int|
                                    0 <= i < outer.len() && (#[trigger] outer[i])@ == name;
                                assert(active@[i]@ == name);
                            }
                        }
                        assert forall|name: Seq<char>| name_set(active@).contains(
                            name,
                        ) implies entered.insert(val@).contains(name) by {
                            let i = choose|i: int|
                                0 <= i < active@.len() && (#[trigger] active@[i])@ == name;
                            if i < outer.len() {
                                assert(outer[i]@ == name);
                            }
                        }
                    }
                    lemma_entering_leaves_less(names, entered, val@);
                }
                let r = self.eval_in(&bound, active);
                active.pop();
                proof {
                    assert(active@ =~= outer);
                }
                r
            },
            Node::String { val, .. } => Ok(Some(val.clone())),
            Node::List(children) => {
                let ghost env = self.bindings();
                let ghost items = node_views(children@);
                let ghost mut parts: Seq<Seq<char>> = Seq::empty();
                let mut buf = String::from_str("(");
                let mut first = true;
                let mut i: usize = 0;
                proof {
                    lemma_node_views(children@);
                    assert(buf@ =~= "("@ + join(parts, ", "@));
                }
                while i < children.len()
                    invariant
                        decreases_to!(*ast => *children),
                        items == node_views(children@),
                        items.len() == children@.len(),
                        i <= children.len(),
                        first == (parts.len() == 0),
                        buf@ == "("@ + join(parts, ", "@),
                        eval_items(env, items, 0, entered, names) == after_parts(
                            parts,
                            eval_items(self.bindings(), items, i as int, entered, names),
                        ),
                        env == old(self).bindings(),
                        names == old(self).known_names(),
                        names == self.known_names(),
                        entered == name_set(old(active)@),
                        active@ == old(active)@,
                        ast@ == NodeView::List(items),
                        defined_names(ast@).subset_of(names),
                    decreases children.len() - i,
                {
                    let ghost before = parts;
                    proof {
                        lemma_node_views(children@);
                        lemma_child_defines_less(items, 0, i as int);
                    }
                    match self.eval_in(&children[i], active) {
                        Err(error) => {
                            return Err(error);
                        },
                        Ok(Some(text)) => {
                            if !first {
                                buf.append(", ");
                            }
                            buf.append(text.as_str());
                            first = false;
                            proof {
                                parts = before.push(text@);
                                assert(parts.drop_last() =~= before);
                                assert(buf@ =~= "("@ + join(parts, ", "@));
                                let rest = eval_items(
                                    self.bindings(),
                                    items,
                                    i + 1,
                                    entered,
                                    names,
                                );
                                if rest.result is Ok {
                                    assert(before + (seq![text@] + rest.result->Ok_0) =~= parts
                                        + rest.result->Ok_0);
                                }
                            }
                        },
                        Ok(None) => {},
                    }
                    i += 1;
                }
                buf.append(")");
                proof {
                    assert(parts + Seq::<Seq<char>>::empty() =~= parts);
                }
                Ok(Some(buf))
            },
            Node::Var { ident, value, .. } => {
                let ghost env = self.bindings();
                let stored = (**value).clone();
                proof {
                    assert(defined_names(ast@).contains(ident@));
                    assert(defined_names(value@).subset_of(defined_names(ast@)));
                }
                let mut variables = StringHashMap::new();
                core::mem::swap(&mut self.variables, &mut variables);
                variables.insert(ident.clone(), stored);
                core::mem::swap(&mut self.variables, &mut variables);
                proof {
                    assert(self.bindings() =~= env.insert(ident@, value@));
                }
                Ok(None)
            },
            Node::Null => Ok(Some(String::from_str("<nil>"))),
        }
    }
}

/// What the evaluation of a sequence of top-level forms yields.
pub struct EvalRun {
    /// The rendered texts of the forms that have a value, in order.
    pub texts: Seq<Seq<char>>,
    /// The errors of the forms that failed, in order.
    pub errors: Seq<LspErrorView>,
    /// The bindings afterwards.
    pub env: Bindings,
}


/// The evaluation of the top-level forms `nodes[from..]`, one after the
/// other, each under the bindings its predecessors left. A form that fails
/// does not keep the following ones from being evaluated.
pub open spec fn eval_all(env: Bindings, nodes: Seq<NodeView>, from: int, names: Names) -> EvalRun
    decreases nodes.len() - from,
{
    if from < 0 || from >= nodes.len() {
        EvalRun { texts: Seq::empty(), errors: Seq::empty(), env }
    } else {
        let step = eval_node(env, nodes[from], Set::empty(), names);
        let rest = eval_all(step.env, nodes, from + 1, names);
        match step.result {
            Ok(Some(text)) => EvalRun { texts: seq![text] + rest.texts, ..rest },
            Ok(None) => rest,
            Err(error) => EvalRun { errors: seq![error] + rest.errors, ..rest },
        }
    }
}

impl Context {
    /// Evaluates the top-level forms `nodes` in order: the rendered texts
    /// of those that have a value, and beside them the errors of those that
    /// failed.
    ///
    /// The set of names under which the model is taken covers the bindings
    /// and all the forms, which the last clause says for the caller to use.
    pub fn eval_nodes(&mut self, nodes: &[Node]) -> (out: (Vec<String>, Vec<LspError>))
        ensures
            ({
                let forms = NodeView::List(node_views(nodes@));
                let run = eval_all(
                    old(self).bindings(),
                    node_views(nodes@),
                    0,
                    old(self).scope(forms),
                );
                &&& text_views(out.0@) == run.texts
                &&& error_views(out.1@) == run.errors
                &&& final(self).bindings() == run.env
                &&& covers(old(self).scope(forms), old(self).bindings(), forms)
                &&& final(self).known_names() == old(self).scope(forms)
            }),
    {
        let ghost env = self.bindings();
        let ghost items = node_views(nodes@);
        let ghost names = self.scope(NodeView::List(items));
        proof {
            use_type_invariant(&*self);
            lemma_defined_names_finite(NodeView::List(items));
            lemma_node_views(nodes@);
        }
        self.names = Ghost(names);
        let mut active: Vec<String> = Vec::new();
        let mut texts: Vec<String> = Vec::new();
        let mut errors: Vec<LspError> = Vec::new();
        let mut i: usize = 0;
        proof {
            assert(name_set(active@) =~= Set::<Seq<char>>::empty());
        }
        while i < nodes.len()
            invariant
                items == node_views(nodes@),
                items.len() == nodes@.len(),
                i <= nodes.len(),
                names == self.known_names(),
                defined_names(NodeView::List(items)).subset_of(names),
                name_set(active@) == Set::<Seq<char>>::empty(),
                eval_all(env, items, 0, names).texts == text_views(texts@) + eval_all(
                    self.bindings(),
                    items,
                    i as int,
                    names,
                ).texts,
                eval_all(env, items, 0, names).errors == error_views(errors@) + eval_all(
                    self.bindings(),
                    items,
                    i as int,
                    names,
                ).errors,
                eval_all(env, items, 0, names).env == eval_all(
                    self.bindings(),
                    items,
                    i as int,
                    names,
                ).env,
            decreases nodes.len() - i,
        {
            let ghost seen_texts = texts@;
            let ghost seen_errors = errors@;
            proof {
                lemma_node_views(nodes@);
                lemma_child_defines_less(items, 0, i as int);
            }
            match self.eval_in(&nodes[i], &mut active) {
                Ok(Some(text)) => {
                    let ghost shown = text@;
                    texts.push(text);
                    proof {
                        let rest = eval_all(self.bindings(), items, i + 1, names);
                        assert(text_views(texts@) =~= text_views(seen_texts).push(shown));
                        assert(text_views(seen_texts) + (seq![shown] + rest.texts) =~= text_views(
                            texts@,
                        ) + rest.texts);
                    }
                },
                Ok(None) => {},
                Err(error) => {
                    let ghost failed = error@;
                    errors.push(error);
                    proof {
                        let rest = eval_all(self.bindings(), items, i + 1, names);
                        assert(error_views(errors@) =~= error_views(seen_errors).push(failed));
                        assert(error_views(seen_errors) + (seq![failed] + rest.errors)
                            =~= error_views(errors@) + rest.errors);
                    }
                },
            }
            i += 1;
        }
        (texts, errors)
    }
}

} // verus!
