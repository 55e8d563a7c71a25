use vstd::prelude::*;
use vstd::string::StringExecFns;

use crate::ast::{ExprModel, Expression, Node, NodeModel, nodes_model, opt_model};
use crate::environment::Environment;
use crate::error::{EvaluationError, EvaluationErrorModel};

verus! {

// The decisions of evaluation that do not depend on what a value holds. The
// caller evaluates the sub-nodes and hands their results in.

/// Whether a call must evaluate another argument node: fewer values are
/// queued than there are parameters, and argument nodes remain. Children are
/// counted with the callee first, so arguments start at child 1.
pub fn needs_argument(n_params: usize, n_queued: usize, next_child: usize, n_children: usize) -> (r: bool)
    ensures
        r == (n_queued < n_params && next_child < n_children),
{
    n_queued < n_params && next_child < n_children
}

/// The name a parameter node declares (empty when it is no identifier).
pub open spec fn param_name(n: NodeModel) -> Seq<char> {
    match n.expr {
        ExprModel::Identifier(name) => name,
        _ => Seq::empty(),
    }
}

pub open spec fn is_identifier(n: NodeModel) -> bool {
    n.expr is Identifier
}

pub open spec fn msg_missing(name: Seq<char>) -> Seq<char> {
    "Missing parameter value for "@ + name
}

pub open spec fn msg_illegal_parameter(n: NodeModel) -> Seq<char> {
    "Illegal function parameter '"@ + n.token.literal + "'"@
}

/// The error met when binding parameters from `i` on to the first `nq`
/// queued values, parameters taken in order.
pub open spec fn param_error(params: Seq<NodeModel>, i: int, nq: int) -> Option<Seq<char>>
    decreases params.len() - i,
{
    if !(0 <= i < params.len()) {
        None
    } else if !is_identifier(params[i]) {
        Some(msg_illegal_parameter(params[i]))
    } else if i >= nq {
        Some(msg_missing(param_name(params[i])))
    } else {
        param_error(params, i + 1, nq)
    }
}

/// The error of a call with `nq` queued values, if any: a parameter that is no
/// identifier or has no value, else a vararg that is no identifier.
pub open spec fn call_error(params: Seq<NodeModel>, vararg: Option<Box<NodeModel>>, nq: int) -> Option<Seq<char>> {
    match param_error(params, 0, nq) {
        Some(m) => Some(m),
        None => match vararg {
            Some(v) => if is_identifier(*v) {
                None
            } else {
                Some(msg_illegal_parameter(*v))
            },
            None => None,
        },
    }
}

proof fn lemma_param_error_none(params: Seq<NodeModel>, i: int, nq: int)
    requires
        0 <= i <= params.len(),
        param_error(params, i, nq) is None,
    ensures
        forall|k: int| i <= k < params.len() ==> is_identifier(#[trigger] params[k]) && k < nq,
    decreases params.len() - i,
{
    if i < params.len() {
        lemma_param_error_none(params, i + 1, nq);
    }
}

fn param_node_name(n: &Node) -> (r: Option<String>)
    ensures
        match r {
            Some(s) => is_identifier(n@) && s@ == param_name(n@),
            None => !is_identifier(n@),
        },
{
    match &n.expression {
        Expression::Identifier(name) => Some(name.clone()),
        _ => None,
    }
}

fn illegal_parameter(n: &Node) -> (r: String)
    ensures
        r@ == msg_illegal_parameter(n@),
{
    let mut m = String::from_str("Illegal function parameter '");
    m.append(n.token.literal.as_str());
    m.append("'");
    m
}

/// Binds a function's parameters, in order, to the first queued argument
/// values; with a vararg parameter, the other queued values and then `rest`
/// (the values of the argument nodes not yet evaluated) form its array.
pub fn bind_call<V>(params: &Vec<Node>, vararg: &Option<Box<Node>>, queued: Vec<V>, rest: Vec<V>) -> (r: Result<(Vec<(String, V)>, Option<(String, Vec<V>)>), String>)
    ensures
        match r {
            Ok((b, va)) => {
                &&& call_error(nodes_model(params@), opt_model(*vararg), queued@.len() as int) is None
                &&& queued@.len() >= params@.len()
                &&& b@.len() == params@.len()
                &&& forall|i: int| 0 <= i < params@.len() ==> (#[trigger] b@[i]).0@ == param_name(params@[i]@) && b@[i].1 == queued@[i]
                &&& match *vararg {
                    None => va is None,
                    Some(v) => va is Some && (va->0).0@ == param_name(v@) && (va->0).1@ == queued@.skip(params@.len() as int) + rest@,
                }
            },
            Err(m) => call_error(nodes_model(params@), opt_model(*vararg), queued@.len() as int) == Some(m@),
        },
{
    let ghost ps = nodes_model(params@);
    let ghost q0 = queued@;
    proof {
        crate::ast::lemma_nodes_model_len(params@);
        crate::ast::lemma_opt_model(*vararg);
    }
    let mut pending = queued;
    let mut bindings: Vec<(String, V)> = Vec::new();
    let mut i: usize = 0;
    while i < params.len()
        invariant
            ps == nodes_model(params@),
            ps.len() == params@.len(),
            i <= params@.len(),
            param_error(ps, 0, q0.len() as int) == param_error(ps, i as int, q0.len() as int),
            i <= q0.len(),
            q0 == queued@,
            pending@ == q0.skip(i as int),
            bindings@.len() == i,
            forall|k: int| 0 <= k < i ==> (#[trigger] bindings@[k]).0@ == param_name(params@[k]@) && bindings@[k].1 == q0[k],
        decreases params@.len() - i,
    {
        proof {
            crate::ast::lemma_nodes_model_index(params@, i as int);
        }
        let name = match param_node_name(&params[i]) {
            Some(name) => name,
            None => {
                assert(param_error(ps, i as int, q0.len() as int) == Some(msg_illegal_parameter(ps[i as int])));
                return Err(illegal_parameter(&params[i]));
            },
        };
        if pending.len() == 0 {
            let mut m = String::from_str("Missing parameter value for ");
            m.append(name.as_str());
            assert(param_error(ps, i as int, q0.len() as int) == Some(msg_missing(param_name(ps[i as int]))));
            return Err(m);
        }
        let value = pending.remove(0);
        proof {
            assert(q0.skip(i as int).remove(0) =~= q0.skip(i + 1));
        }
        bindings.push((name, value));
        i = i + 1;
    }
    match vararg {
        None => Ok((bindings, None)),
        Some(v) => match param_node_name(v) {
            None => Err(illegal_parameter(v)),
            Some(name) => {
                let mut values = pending;
                let mut rest = rest;
                values.append(&mut rest);
                Ok((bindings, Some((name, values))))
            },
        },
    }
}

/// What the first value of a parenthesised form is, as far as the form cares.
#[derive(PartialEq, Eq, Structural, Debug, Copy, Clone)]
pub enum Head {
    Function,
    Builtin,
    Other,
}

/// What to do with a parenthesised form once its first child is evaluated.
#[derive(PartialEq, Eq, Structural, Debug, Copy, Clone)]
pub enum FormStep {
    /// An empty form: its value is Unit.
    Unit,
    /// Apply the function to the other children.
    Call,
    /// Evaluate the other children, spreads expanded, and call the builtin.
    CallBuiltin,
    /// Evaluate the other children in order; the last value is the result.
    Sequence,
    /// The first value alone is the result, a spread collapsed.
    Single,
}

pub open spec fn form_step_spec(n_children: nat, head: Option<Head>) -> FormStep {
    if n_children == 0 {
        FormStep::Unit
    } else {
        match head {
            Some(Head::Function) => FormStep::Call,
            Some(Head::Builtin) => FormStep::CallBuiltin,
            _ => if n_children > 1 {
                FormStep::Sequence
            } else {
                FormStep::Single
            },
        }
    }
}

/// Classifies a parenthesised form of `n_children` children by its first
/// value (`None` when it has none).
pub fn form_step(n_children: usize, head: Option<Head>) -> (r: FormStep)
    ensures
        r == form_step_spec(n_children as nat, head),
{
    if n_children == 0 {
        FormStep::Unit
    } else {
        match head {
            Some(Head::Function) => FormStep::Call,
            Some(Head::Builtin) => FormStep::CallBuiltin,
            _ => if n_children > 1 {
                FormStep::Sequence
            } else {
                FormStep::Single
            },
        }
    }
}

/// A value as a consumer of spreads sees it: a plain value, or the elements
/// of a spread.
pub enum Item<V> {
    Plain(V),
    Spread(Vec<V>),
}

pub open spec fn collapse_spec<V>(item: Option<Item<V>>, unit: V) -> V {
    match item {
        None => unit,
        Some(Item::Plain(v)) => v,
        Some(Item::Spread(vs)) => if vs@.len() == 0 {
            unit
        } else {
            vs@.last()
        },
    }
}

/// The value a sequence, a binding or a condition takes from its last value:
/// a spread collapses to its last element, or to `unit` when it is empty or
/// there is no value at all.
pub fn spread_to_single<V>(item: Option<Item<V>>, unit: V) -> (r: V)
    ensures
        r == collapse_spec(item, unit),
{
    match item {
        None => unit,
        Some(Item::Plain(v)) => v,
        Some(Item::Spread(vs)) => {
            let mut vs = vs;
            match vs.pop() {
                Some(v) => v,
                None => unit,
            }
        },
    }
}

/// Why an index does not select an array element.
#[derive(PartialEq, Eq, Structural, Debug, Copy, Clone)]
pub enum IndexError {
    /// A non-negative index at or past the end of an array of `length`.
    OutOfBounds { index: i32, length: usize },
    /// A negative index: no combination of index and array that selects.
    Negative,
}

/// The position that `index` selects in an array of `length` elements.
pub fn array_index(index: i32, length: usize) -> (r: Result<usize, IndexError>)
    ensures
        index < 0 ==> r == Err::<usize, IndexError>(IndexError::Negative),
        0 <= index < length ==> r == Ok::<usize, IndexError>(index as usize),
        0 <= index && index >= length ==> r == Err::<usize, IndexError>(IndexError::OutOfBounds { index, length }),
{
    if index < 0 {
        Err(IndexError::Negative)
    } else if (index as usize) < length {
        Ok(index as usize)
    } else {
        Err(IndexError::OutOfBounds { index, length })
    }
}

pub open spec fn msg_no_binding(name: Seq<char>) -> Seq<char> {
    "No binding for identifier '"@ + name + "'"@
}

/// The value of an identifier in frame `f`: its binding along the chain,
/// else the builtin of that name, else the error that it has no binding.
pub fn resolve_identifier<'a, V>(env: &'a Environment<V>, f: usize, name: &String, builtin: Option<&'a V>) -> (r: Result<&'a V, EvaluationError>)
    requires
        env.wf(),
        f < env.len(),
    ensures
        match env.lookup(f as int, name@) {
            Some(v) => r == Ok::<&V, EvaluationError>(&v),
            None => match builtin {
                Some(b) => r == Ok::<&V, EvaluationError>(b),
                None => r is Err && r->Err_0@ == EvaluationErrorModel::Simple(msg_no_binding(name@)),
            },
        },
{
    match env.get(f, name) {
        Some(v) => Ok(v),
        None => match builtin {
            Some(b) => Ok(b),
            None => {
                let mut m = String::from_str("No binding for identifier '");
                m.append(name.as_str());
                m.append("'");
                Err(EvaluationError::Simple(m))
            },
        },
    }
}

pub open spec fn msg_single_operand() -> Seq<char> {
    "Operator ! expects only 1 operand"@
}

/// The `!` operator takes at most one operand: an error when more follow the
/// first.
pub fn single_operand_check(more_operands: bool) -> (r: Result<(), EvaluationError>)
    ensures
        more_operands ==> r is Err && r->Err_0@ == EvaluationErrorModel::Simple(msg_single_operand()),
        !more_operands ==> r is Ok,
{
    if more_operands {
        Err(EvaluationError::Simple(String::from_str("Operator ! expects only 1 operand")))
    } else {
        Ok(())
    }
}

} // verus!
