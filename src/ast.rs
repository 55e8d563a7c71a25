use vstd::prelude::*;

use crate::token::{Token, TokenModel};

verus! {

broadcast use vstd::std_specs::vec::group_vec_axioms, vstd::seq::group_seq_axioms;

/// An expression tree node: the token it was parsed from and what it says.
#[derive(Debug, PartialEq)]
pub struct Node {
    pub expression: Expression,
    pub token: Token,
}

/// The expression forms of the language.
#[derive(Debug, PartialEq)]
pub enum Expression {
    /// A parenthesised form, read at run time as a call or a sequence.
    ExpressionLiteral(Vec<Node>),
    /// `(set (name value) ...)`: bindings made in order.
    SetForm(Vec<(Node, Node)>),
    Identifier(String),
    Integer(i32),
    /// A float literal, kept as its text (digits, a dot, digits, with an
    /// optional leading minus).
    Float(String),
    Boolean(bool),
    String(String),
    Array(Vec<Node>),
    /// `(@ index operand)`
    Index(Box<Node>, Box<Node>),
    /// An operator symbol and its operands.
    Operator(String, Vec<Node>),
    /// Condition, consequence and optional alternative.
    If(Box<Node>, Box<Node>, Option<Box<Node>>),
    /// Branches of condition and consequence.
    When(Vec<(Node, Node)>),
    /// Condition and optional body.
    While(Box<Node>, Option<Box<Node>>),
    /// Parameters, optional vararg parameter, body.
    Function(Vec<Node>, Option<Box<Node>>, Box<Node>),
    Section(Box<Node>),
    Include(Box<Node>),
    Spread(Box<Node>),
}

/// The parsed program: its top-level nodes in order.
#[derive(Debug, PartialEq)]
pub struct Program {
    pub nodes: Vec<Node>,
}

/// A part of the syntax tree that can name the token it starts with.
pub trait AST {
    spec fn literal_spec(&self) -> Seq<char>;

    /// The literal of the first token: that of the node, or of a program's
    /// first node (empty for an empty program).
    fn token_literal(&self) -> (r: &str)
        ensures
            r@ == self.literal_spec(),
    ;
}

impl AST for Node {
    open spec fn literal_spec(&self) -> Seq<char> {
        self.token.literal@
    }

    fn token_literal(&self) -> (r: &str) {
        self.token.literal.as_str()
    }
}

impl AST for Program {
    open spec fn literal_spec(&self) -> Seq<char> {
        if self.nodes@.len() == 0 {
            Seq::empty()
        } else {
            self.nodes@[0].token.literal@
        }
    }

    fn token_literal(&self) -> (r: &str) {
        if self.nodes.len() == 0 {
            proof {
                reveal_strlit("");
            }
            return "";
        }
        self.nodes[0].token_literal()
    }
}

/// The mathematical content of a node.
pub struct NodeModel {
    pub expr: ExprModel,
    pub token: TokenModel,
}

pub enum ExprModel {
    ExpressionLiteral(Seq<NodeModel>),
    SetForm(Seq<(NodeModel, NodeModel)>),
    Identifier(Seq<char>),
    Integer(i32),
    Float(Seq<char>),
    Boolean(bool),
    Str(Seq<char>),
    Array(Seq<NodeModel>),
    Index(Box<NodeModel>, Box<NodeModel>),
    Operator(Seq<char>, Seq<NodeModel>),
    If(Box<NodeModel>, Box<NodeModel>, Option<Box<NodeModel>>),
    When(Seq<(NodeModel, NodeModel)>),
    While(Box<NodeModel>, Option<Box<NodeModel>>),
    Function(Seq<NodeModel>, Option<Box<NodeModel>>, Box<NodeModel>),
    Section(Box<NodeModel>),
    Include(Box<NodeModel>),
    Spread(Box<NodeModel>),
}

pub open spec fn node_model(n: Node) -> NodeModel
    decreases n, 2int,
{
    NodeModel { expr: expr_model(n.expression), token: n.token@ }
}

pub open spec fn opt_model(o: Option<Box<Node>>) -> Option<Box<NodeModel>>
    decreases o, 2int,
{
    match o {
        Some(b) => Some(Box::new(node_model(*b))),
        None => None,
    }
}

pub open spec fn nodes_model(v: Seq<Node>) -> Seq<NodeModel>
    decreases v, 1int,
{
    if v.len() == 0 {
        Seq::empty()
    } else {
        seq![node_model(v[0])] + nodes_model(v.drop_first())
    }
}

pub open spec fn pairs_model(v: Seq<(Node, Node)>) -> Seq<(NodeModel, NodeModel)>
    decreases v, 1int,
{
    if v.len() == 0 {
        Seq::empty()
    } else {
        seq![(node_model(v[0].0), node_model(v[0].1))] + pairs_model(v.drop_first())
    }
}

pub open spec fn expr_model(e: Expression) -> ExprModel
    decreases e, 1int,
{
    match e {
        Expression::ExpressionLiteral(v) => ExprModel::ExpressionLiteral(nodes_model(v@)),
        Expression::SetForm(v) => ExprModel::SetForm(pairs_model(v@)),
        Expression::Identifier(s) => ExprModel::Identifier(s@),
        Expression::Integer(i) => ExprModel::Integer(i),
        Expression::Float(s) => ExprModel::Float(s@),
        Expression::Boolean(b) => ExprModel::Boolean(b),
        Expression::String(s) => ExprModel::Str(s@),
        Expression::Array(v) => ExprModel::Array(nodes_model(v@)),
        Expression::Index(a, b) => ExprModel::Index(Box::new(node_model(*a)), Box::new(node_model(*b))),
        Expression::Operator(s, v) => ExprModel::Operator(s@, nodes_model(v@)),
        Expression::If(a, b, c) => ExprModel::If(Box::new(node_model(*a)), Box::new(node_model(*b)), opt_model(c)),
        Expression::When(v) => ExprModel::When(pairs_model(v@)),
        Expression::While(a, b) => ExprModel::While(Box::new(node_model(*a)), opt_model(b)),
        Expression::Function(p, v, b) => ExprModel::Function(nodes_model(p@), opt_model(v), Box::new(node_model(*b))),
        Expression::Section(a) => ExprModel::Section(Box::new(node_model(*a))),
        Expression::Include(a) => ExprModel::Include(Box::new(node_model(*a))),
        Expression::Spread(a) => ExprModel::Spread(Box::new(node_model(*a))),
    }
}

pub proof fn lemma_opt_model(o: Option<Box<Node>>)
    ensures
        o is None ==> opt_model(o) is None,
        o is Some ==> opt_model(o) == Some(Box::new(node_model(*o->0))),
{
}

pub proof fn lemma_nodes_model_len(v: Seq<Node>)
    ensures
        nodes_model(v).len() == v.len(),
    decreases v.len(),
{
    if v.len() > 0 {
        lemma_nodes_model_len(v.drop_first());
    }
}

pub proof fn lemma_nodes_model_index(v: Seq<Node>, i: int)
    requires
        0 <= i < v.len(),
    ensures
        nodes_model(v).len() == v.len(),
        nodes_model(v)[i] == v[i]@,
    decreases v.len(),
{
    lemma_nodes_model_len(v);
    lemma_nodes_model_len(v.drop_first());
    if i > 0 {
        lemma_nodes_model_index(v.drop_first(), i - 1);
    }
}

pub proof fn lemma_nodes_model_empty(v: Seq<Node>)
    requires
        v.len() == 0,
    ensures
        nodes_model(v) == Seq::<NodeModel>::empty(),
{
}

impl View for Node {
    type V = NodeModel;

    open spec fn view(&self) -> NodeModel {
        node_model(*self)
    }
}

impl View for Program {
    type V = Seq<NodeModel>;

    open spec fn view(&self) -> Seq<NodeModel> {
        nodes_model(self.nodes@)
    }
}

} // verus!

verus! {

impl Node {
    /// A deep copy of the node and everything below it.
    pub fn copy(&self) -> (r: Node)
        ensures
            r@ == self@,
        decreases self,
    {
        let token = Token {
            token_type: self.token.token_type,
            col: self.token.col,
            row: self.token.row,
            literal: self.token.literal.clone(),
        };
        let expression = match &self.expression {
            Expression::ExpressionLiteral(v) => Expression::ExpressionLiteral(copy_nodes(v)),
            Expression::SetForm(v) => Expression::SetForm(copy_pairs(v)),
            Expression::Identifier(s) => Expression::Identifier(s.clone()),
            Expression::Integer(i) => Expression::Integer(*i),
            Expression::Float(s) => Expression::Float(s.clone()),
            Expression::Boolean(b) => Expression::Boolean(*b),
            Expression::String(s) => Expression::String(s.clone()),
            Expression::Array(v) => Expression::Array(copy_nodes(v)),
            Expression::Index(a, b) => Expression::Index(Box::new(a.copy()), Box::new(b.copy())),
            Expression::Operator(s, v) => Expression::Operator(s.clone(), copy_nodes(v)),
            Expression::If(a, b, c) => Expression::If(Box::new(a.copy()), Box::new(b.copy()), copy_option(c)),
            Expression::When(v) => Expression::When(copy_pairs(v)),
            Expression::While(a, b) => Expression::While(Box::new(a.copy()), copy_option(b)),
            Expression::Function(p, v, b) => Expression::Function(copy_nodes(p), copy_option(v), Box::new(b.copy())),
            Expression::Section(a) => Expression::Section(Box::new(a.copy())),
            Expression::Include(a) => Expression::Include(Box::new(a.copy())),
            Expression::Spread(a) => Expression::Spread(Box::new(a.copy())),
        };
        proof {
            lemma_opt_model(None);
        }
        Node { expression, token }
    }
}

fn copy_option(o: &Option<Box<Node>>) -> (r: Option<Box<Node>>)
    ensures
        opt_model(r) == opt_model(*o),
    decreases o,
{
    proof {
        lemma_opt_model(*o);
    }
    match o {
        Some(b) => {
            let c = Box::new(b.copy());
            proof {
                lemma_opt_model(Some(c));
            }
            Some(c)
        },
        None => None,
    }
}

pub proof fn lemma_nodes_model_push(v: Seq<Node>, n: Node)
    ensures
        nodes_model(v.push(n)) == nodes_model(v).push(n@),
    decreases v.len(),
{
    if v.len() > 0 {
        assert(v.push(n).drop_first() =~= v.drop_first().push(n));
        lemma_nodes_model_push(v.drop_first(), n);
        assert(nodes_model(v.push(n)) =~= nodes_model(v).push(n@));
    } else {
        assert(nodes_model(v.push(n)) =~= seq![n@] + nodes_model(v.push(n).drop_first()));
        assert(v.push(n).drop_first() =~= Seq::<Node>::empty());
        assert(nodes_model(v.push(n)) =~= nodes_model(v).push(n@));
    }
}

fn copy_nodes(v: &Vec<Node>) -> (r: Vec<Node>)
    ensures
        nodes_model(r@) == nodes_model(v@),
    decreases v,
{
    let mut out: Vec<Node> = Vec::new();
    let mut i: usize = 0;
    proof {
        assert(nodes_model(out@) =~= nodes_model(v@.subrange(0, 0)));
    }
    while i < v.len()
        invariant
            i <= v@.len(),
            nodes_model(out@) == nodes_model(v@.subrange(0, i as int)),
        decreases v@.len() - i,
    {
        proof {
            assert(decreases_to!(v => v@[i as int]));
        }
        let c = v[i].copy();
        proof {
            lemma_nodes_model_push(out@, c);
            lemma_nodes_model_push(v@.subrange(0, i as int), v@[i as int]);
            assert(v@.subrange(0, i + 1) =~= v@.subrange(0, i as int).push(v@[i as int]));
        }
        out.push(c);
        i = i + 1;
    }
    proof {
        assert(v@.subrange(0, i as int) =~= v@);
    }
    out
}

pub proof fn lemma_pairs_model_push(v: Seq<(Node, Node)>, n: (Node, Node))
    ensures
        pairs_model(v.push(n)) == pairs_model(v).push((n.0@, n.1@)),
    decreases v.len(),
{
    if v.len() > 0 {
        assert(v.push(n).drop_first() =~= v.drop_first().push(n));
        lemma_pairs_model_push(v.drop_first(), n);
        assert(pairs_model(v.push(n)) =~= pairs_model(v).push((n.0@, n.1@)));
    } else {
        assert(pairs_model(v.push(n)) =~= seq![(n.0@, n.1@)] + pairs_model(v.push(n).drop_first()));
        assert(v.push(n).drop_first() =~= Seq::<(Node, Node)>::empty());
        assert(pairs_model(v.push(n)) =~= pairs_model(v).push((n.0@, n.1@)));
    }
}

fn copy_pairs(v: &Vec<(Node, Node)>) -> (r: Vec<(Node, Node)>)
    ensures
        pairs_model(r@) == pairs_model(v@),
    decreases v,
{
    let mut out: Vec<(Node, Node)> = Vec::new();
    let mut i: usize = 0;
    proof {
        assert(pairs_model(out@) =~= pairs_model(v@.subrange(0, 0)));
    }
    while i < v.len()
        invariant
            i <= v@.len(),
            pairs_model(out@) == pairs_model(v@.subrange(0, i as int)),
        decreases v@.len() - i,
    {
        proof {
            assert(decreases_to!(v => v@[i as int]));
        }
        let a = v[i].0.copy();
        let b = v[i].1.copy();
        proof {
            lemma_pairs_model_push(out@, (a, b));
            lemma_pairs_model_push(v@.subrange(0, i as int), v@[i as int]);
            assert(v@.subrange(0, i + 1) =~= v@.subrange(0, i as int).push(v@[i as int]));
        }
        out.push((a, b));
        i = i + 1;
    }
    proof {
        assert(v@.subrange(0, i as int) =~= v@);
    }
    out
}

} // verus!
