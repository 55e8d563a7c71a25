use vstd::prelude::*;
use vstd::string::StringExecFns;

use crate::ast::{
    ExprModel, Expression, Node, NodeModel, Program, lemma_nodes_model_empty, lemma_nodes_model_push,
    lemma_opt_model, lemma_pairs_model_push, nodes_model, opt_model, pairs_model,
};
use crate::error::{ParseError, ParseErrorModel};
use crate::lexer::{Lexer, lex_all};
use crate::literal::{int_value, parse_integer};
use crate::token::{Token, TokenModel, TokenType};

verus! {



type Parsed = (Result<NodeModel, ParseErrorModel>, int);

/// The name of a token kind, as it appears in error messages.
pub open spec fn kind_text(k: TokenType) -> Seq<char> {
    match k {
        TokenType::Illegal => "Illegal"@,
        TokenType::EOF => "EOF"@,
        TokenType::Ident => "Ident"@,
        TokenType::Int => "Int"@,
        TokenType::Float => "Float"@,
        TokenType::String => "String"@,
        TokenType::Comma => "Comma"@,
        TokenType::DoubleColon => "DoubleColon"@,
        TokenType::DoubleDot => "DoubleDot"@,
        TokenType::Ellipsis => "Ellipsis"@,
        TokenType::At => "At"@,
        TokenType::Plus => "Plus"@,
        TokenType::Minus => "Minus"@,
        TokenType::Bang => "Bang"@,
        TokenType::Asterisk => "Asterisk"@,
        TokenType::Slash => "Slash"@,
        TokenType::LesserThan => "LesserThan"@,
        TokenType::GreaterThan => "GreaterThan"@,
        TokenType::Equals => "Equals"@,
        TokenType::Section => "Section"@,
        TokenType::Pipe => "Pipe"@,
        TokenType::LParen => "LParen"@,
        TokenType::RParen => "RParen"@,
        TokenType::LBrace => "LBrace"@,
        TokenType::RBrace => "RBrace"@,
        TokenType::LBracket => "LBracket"@,
        TokenType::RBracket => "RBracket"@,
        TokenType::Function => "Function"@,
        TokenType::SetKeyword => "Set"@,
        TokenType::True => "True"@,
        TokenType::False => "False"@,
        TokenType::If => "If"@,
        TokenType::When => "When"@,
        TokenType::While => "While"@,
        TokenType::Include => "Include"@,
    }
}

fn kind_name(k: TokenType) -> (r: &'static str)
    ensures
        r@ == kind_text(k),
{
    match k {
        TokenType::Illegal => "Illegal",
        TokenType::EOF => "EOF",
        TokenType::Ident => "Ident",
        TokenType::Int => "Int",
        TokenType::Float => "Float",
        TokenType::String => "String",
        TokenType::Comma => "Comma",
        TokenType::DoubleColon => "DoubleColon",
        TokenType::DoubleDot => "DoubleDot",
        TokenType::Ellipsis => "Ellipsis",
        TokenType::At => "At",
        TokenType::Plus => "Plus",
        TokenType::Minus => "Minus",
        TokenType::Bang => "Bang",
        TokenType::Asterisk => "Asterisk",
        TokenType::Slash => "Slash",
        TokenType::LesserThan => "LesserThan",
        TokenType::GreaterThan => "GreaterThan",
        TokenType::Equals => "Equals",
        TokenType::Section => "Section",
        TokenType::Pipe => "Pipe",
        TokenType::LParen => "LParen",
        TokenType::RParen => "RParen",
        TokenType::LBrace => "LBrace",
        TokenType::RBrace => "RBrace",
        TokenType::LBracket => "LBracket",
        TokenType::RBracket => "RBracket",
        TokenType::Function => "Function",
        TokenType::SetKeyword => "Set",
        TokenType::True => "True",
        TokenType::False => "False",
        TokenType::If => "If",
        TokenType::When => "When",
        TokenType::While => "While",
        TokenType::Include => "Include",
    }
}

pub open spec fn error_at(t: TokenModel, message: Seq<char>) -> ParseErrorModel {
    ParseErrorModel { row: t.row, col: t.col, message }
}

pub open spec fn leaf(expr: ExprModel, t: TokenModel) -> NodeModel {
    NodeModel { expr, token: t }
}

pub open spec fn boxed(n: NodeModel) -> Box<NodeModel> {
    Box::new(n)
}

/// The position after the current token; the final `EOF` is never left.
pub open spec fn adv(ts: Seq<TokenModel>, i: int) -> int {
    if i + 1 < ts.len() {
        i + 1
    } else {
        i
    }
}

/// Token kinds after `(` that make the form an expression literal.
pub open spec fn starts_literal(k: TokenType) -> bool {
    k == TokenType::Ident || k == TokenType::Int || k == TokenType::Float || k == TokenType::True
        || k == TokenType::False || k == TokenType::LParen
}

pub open spec fn is_operator(k: TokenType) -> bool {
    k == TokenType::Plus || k == TokenType::Minus || k == TokenType::Asterisk || k == TokenType::Slash
        || k == TokenType::GreaterThan || k == TokenType::LesserThan || k == TokenType::Bang
        || k == TokenType::Equals
}

pub open spec fn msg_end_of_file() -> Seq<char> {
    "Unexpected end of file"@
}

pub open spec fn msg_closing_paren() -> Seq<char> {
    "Expected closing parenthesis"@
}

pub open spec fn msg_expected(expected: TokenType, got: TokenType) -> Seq<char> {
    "Expected next token to be "@ + kind_text(expected) + " but got "@ + kind_text(got)
}

pub open spec fn msg_prefix(t: TokenModel) -> Seq<char> {
    "Could not parse prefix token type '"@ + kind_text(t.kind) + "' with literal '"@ + t.literal
        + "'"@
}

pub open spec fn msg_consequence() -> Seq<char> {
    "Expected consequence for condition in when-expression"@
}

pub open spec fn msg_vararg_last() -> Seq<char> {
    "Expected vararg identifier to be last in parameter list."@
}

pub open spec fn msg_parameters() -> Seq<char> {
    "Expected function parameters names."@
}

pub open spec fn msg_integer(literal: Seq<char>) -> Seq<char> {
    "Could not parse "@ + literal + " as integer"@
}

/// One expression starting at `i`, and the position after it.
pub open spec fn p_expr(ts: Seq<TokenModel>, i: int) -> Parsed
    decreases ts.len() - i, 2int,
{
    if !(0 <= i < ts.len()) {
        (Err(error_at(ts.last(), msg_end_of_file())), i)
    } else {
        let t = ts[i];
        let j = adv(ts, i);
        if t.kind == TokenType::EOF {
            (Err(error_at(t, msg_end_of_file())), i)
        } else if t.kind == TokenType::LParen && starts_literal(ts[j].kind) {
            p_expression_literal(ts, i)
        } else if t.kind == TokenType::LParen && ts[j].kind == TokenType::RParen {
            (Ok(leaf(ExprModel::ExpressionLiteral(Seq::empty()), t)), adv(ts, j))
        } else if t.kind == TokenType::LParen {
            if i < j {
                let (r, k) = p_prefix(ts, j);
                match r {
                    Err(e) => (Err(e), k),
                    Ok(n) => if 0 <= k < ts.len() && ts[k].kind == TokenType::RParen {
                        (Ok(n), adv(ts, k))
                    } else {
                        (Err(error_at(ts[k], msg_closing_paren())), k)
                    },
                }
            } else {
                (Err(error_at(t, msg_end_of_file())), i)
            }
        } else {
            p_prefix(ts, i)
        }
    }
}

/// Expressions from `i` up to a token of kind `closer`, which is not consumed,
/// appended to `acc`.
pub open spec fn p_seq(ts: Seq<TokenModel>, i: int, closer: TokenType, acc: Seq<NodeModel>) -> (Result<Seq<NodeModel>, ParseErrorModel>, int)
    decreases ts.len() - i, 3int,
{
    if !(0 <= i < ts.len()) {
        (Err(error_at(ts.last(), msg_end_of_file())), i)
    } else if ts[i].kind == closer {
        (Ok(acc), i)
    } else {
        let (r, j) = p_expr(ts, i);
        match r {
            Err(e) => (Err(e), j),
            Ok(n) => if i < j < ts.len() {
                p_seq(ts, j, closer, acc.push(n))
            } else {
                (Err(error_at(ts[i], msg_end_of_file())), j)
            },
        }
    }
}

/// `( e1 e2 ... )` where the first token after `(` starts a literal.
pub open spec fn p_expression_literal(ts: Seq<TokenModel>, i: int) -> Parsed
    decreases ts.len() - i, 1int,
{
    let j = adv(ts, i);
    if 0 <= i < j {
        let (r, k) = p_seq(ts, j, TokenType::RParen, Seq::empty());
        match r {
            Err(e) => (Err(e), k),
            Ok(v) => (Ok(leaf(ExprModel::ExpressionLiteral(v), ts[i])), adv(ts, k)),
        }
    } else {
        (Err(error_at(ts[i], msg_end_of_file())), i)
    }
}

/// The form chosen by the kind of the token at `i`.
pub open spec fn p_prefix(ts: Seq<TokenModel>, i: int) -> Parsed
    decreases ts.len() - i, 1int,
{
    if !(0 <= i < ts.len()) {
        (Err(error_at(ts.last(), msg_end_of_file())), i)
    } else {
        let t = ts[i];
        let k = t.kind;
        let j = adv(ts, i);
        if k == TokenType::SetKeyword {
            p_set(ts, i)
        } else if k == TokenType::If {
            p_if(ts, i)
        } else if k == TokenType::When {
            p_when(ts, i)
        } else if k == TokenType::While {
            p_while(ts, i)
        } else if k == TokenType::Include {
            if ts[j].kind != TokenType::String {
                (Err(error_at(ts[j], msg_expected(TokenType::String, ts[j].kind))), j)
            } else {
                (Ok(leaf(ExprModel::Include(boxed(leaf(ExprModel::Str(ts[j].literal), ts[j]))), t)), adv(ts, j))
            }
        } else if k == TokenType::Function {
            p_function(ts, i)
        } else if k == TokenType::Section {
            p_single(ts, i)
        } else if k == TokenType::Int {
            match int_value(t.literal) {
                Some(v) => (Ok(leaf(ExprModel::Integer(v), t)), j),
                None => (Err(error_at(t, msg_integer(t.literal))), j),
            }
        } else if k == TokenType::Float {
            (Ok(leaf(ExprModel::Float(t.literal), t)), j)
        } else if k == TokenType::String {
            (Ok(leaf(ExprModel::Str(t.literal), t)), j)
        } else if k == TokenType::LBracket {
            p_array(ts, i)
        } else if k == TokenType::Ident {
            (Ok(leaf(ExprModel::Identifier(t.literal), t)), j)
        } else if k == TokenType::At {
            p_index(ts, i)
        } else if k == TokenType::DoubleDot {
            p_single(ts, i)
        } else if is_operator(k) {
            p_operator(ts, i)
        } else if k == TokenType::True || k == TokenType::False {
            (Ok(leaf(ExprModel::Boolean(k == TokenType::True), t)), j)
        } else {
            (Err(error_at(t, msg_prefix(t))), j)
        }
    }
}

/// `§ e` and `.. e`: a keyword or marker followed by one expression.
pub open spec fn p_single(ts: Seq<TokenModel>, i: int) -> Parsed
    decreases ts.len() - i, 0int,
{
    let j = adv(ts, i);
    if 0 <= i < j {
        let (r, k) = p_expr(ts, j);
        match r {
            Err(e) => (Err(e), k),
            Ok(n) => if ts[i].kind == TokenType::Section {
                (Ok(leaf(ExprModel::Section(boxed(n)), ts[i])), k)
            } else {
                (Ok(leaf(ExprModel::Spread(boxed(n)), ts[i])), k)
            },
        }
    } else {
        (Err(error_at(ts[i], msg_end_of_file())), i)
    }
}

/// `set (name value) (name value) ...`
pub open spec fn p_set(ts: Seq<TokenModel>, i: int) -> Parsed
    decreases ts.len() - i, 0int,
{
    let j = adv(ts, i);
    if !(0 <= i < j) {
        (Err(error_at(ts[i], msg_end_of_file())), i)
    } else if ts[j].kind != TokenType::LParen {
        (Err(error_at(ts[j], msg_expected(TokenType::LParen, ts[j].kind))), j)
    } else {
        let (r, k) = p_bindings(ts, j, Seq::empty());
        match r {
            Err(e) => (Err(e), k),
            Ok(v) => (Ok(leaf(ExprModel::SetForm(v), ts[i])), k),
        }
    }
}

/// The binding pairs of a `set` form, each `(name value)`.
pub open spec fn p_bindings(ts: Seq<TokenModel>, i: int, acc: Seq<(NodeModel, NodeModel)>) -> (Result<Seq<(NodeModel, NodeModel)>, ParseErrorModel>, int)
    decreases ts.len() - i, 0int,
{
    if !(0 <= i < ts.len()) || ts[i].kind != TokenType::LParen {
        (Ok(acc), i)
    } else {
        let j = adv(ts, i);
        if !(i < j) {
            (Err(error_at(ts[i], msg_end_of_file())), i)
        } else if ts[j].kind != TokenType::Ident {
            (Err(error_at(ts[j], msg_expected(TokenType::Ident, ts[j].kind))), j)
        } else {
            let name = leaf(ExprModel::Identifier(ts[j].literal), ts[j]);
            let k = adv(ts, j);
            if !(j < k) {
                (Err(error_at(ts[j], msg_end_of_file())), j)
            } else {
                let (r, l) = p_expr(ts, k);
                match r {
                    Err(e) => (Err(e), l),
                    Ok(value) => if !(k <= l < ts.len()) {
                        (Err(error_at(ts[k], msg_end_of_file())), l)
                    } else if ts[l].kind != TokenType::RParen {
                        (Err(error_at(ts[l], msg_closing_paren())), l)
                    } else if l < adv(ts, l) {
                        p_bindings(ts, adv(ts, l), acc.push((name, value)))
                    } else {
                        (Err(error_at(ts[l], msg_end_of_file())), l)
                    },
                }
            }
        }
    }
}

/// `if condition consequence [alternative]`
pub open spec fn p_if(ts: Seq<TokenModel>, i: int) -> Parsed
    decreases ts.len() - i, 0int,
{
    let j = adv(ts, i);
    if !(0 <= i < j) {
        (Err(error_at(ts[i], msg_end_of_file())), i)
    } else {
        let (rc, k) = p_expr(ts, j);
        match rc {
            Err(e) => (Err(e), k),
            Ok(c) => if !(i < k < ts.len()) {
                (Err(error_at(ts[i], msg_end_of_file())), k)
            } else {
                let (rq, l) = p_expr(ts, k);
                match rq {
                    Err(e) => (Err(e), l),
                    Ok(q) => if !(i < l < ts.len()) {
                        (Err(error_at(ts[i], msg_end_of_file())), l)
                    } else if ts[l].kind == TokenType::RParen {
                        (Ok(leaf(ExprModel::If(boxed(c), boxed(q), None), ts[i])), l)
                    } else {
                        let (ra, m) = p_expr(ts, l);
                        match ra {
                            Err(e) => (Err(e), m),
                            Ok(a) => (Ok(leaf(ExprModel::If(boxed(c), boxed(q), Some(boxed(a))), ts[i])), m),
                        }
                    },
                }
            },
        }
    }
}

/// `while condition [body]`
pub open spec fn p_while(ts: Seq<TokenModel>, i: int) -> Parsed
    decreases ts.len() - i, 0int,
{
    let j = adv(ts, i);
    if !(0 <= i < j) {
        (Err(error_at(ts[i], msg_end_of_file())), i)
    } else {
        let (rc, k) = p_expr(ts, j);
        match rc {
            Err(e) => (Err(e), k),
            Ok(c) => if !(i < k < ts.len()) {
                (Err(error_at(ts[i], msg_end_of_file())), k)
            } else if ts[k].kind == TokenType::RParen {
                (Ok(leaf(ExprModel::While(boxed(c), None), ts[i])), k)
            } else {
                let (rb, l) = p_expr(ts, k);
                match rb {
                    Err(e) => (Err(e), l),
                    Ok(b) => (Ok(leaf(ExprModel::While(boxed(c), Some(boxed(b))), ts[i])), l),
                }
            },
        }
    }
}

/// `when condition consequence condition consequence ...`
pub open spec fn p_when(ts: Seq<TokenModel>, i: int) -> Parsed
    decreases ts.len() - i, 0int,
{
    let j = adv(ts, i);
    if !(0 <= i < j) {
        (Err(error_at(ts[i], msg_end_of_file())), i)
    } else {
        let (r, k) = p_branches(ts, j, Seq::empty());
        match r {
            Err(e) => (Err(e), k),
            Ok(v) => (Ok(leaf(ExprModel::When(v), ts[i])), k),
        }
    }
}

/// Condition and consequence pairs up to `)`, which is not consumed.
pub open spec fn p_branches(ts: Seq<TokenModel>, i: int, acc: Seq<(NodeModel, NodeModel)>) -> (Result<Seq<(NodeModel, NodeModel)>, ParseErrorModel>, int)
    decreases ts.len() - i, 3int,
{
    if !(0 <= i < ts.len()) {
        (Err(error_at(ts.last(), msg_end_of_file())), i)
    } else if ts[i].kind == TokenType::RParen {
        (Ok(acc), i)
    } else {
        let (rc, k) = p_expr(ts, i);
        match rc {
            Err(e) => (Err(e), k),
            Ok(c) => if !(i < k < ts.len()) {
                (Err(error_at(ts[i], msg_end_of_file())), k)
            } else if ts[k].kind == TokenType::RParen {
                (Err(error_at(ts[k], msg_consequence())), k)
            } else {
                let (rq, l) = p_expr(ts, k);
                match rq {
                    Err(e) => (Err(e), l),
                    Ok(q) => if k < l < ts.len() {
                        p_branches(ts, l, acc.push((c, q)))
                    } else {
                        (Err(error_at(ts[k], msg_end_of_file())), l)
                    },
                }
            },
        }
    }
}

/// `fn | a b ... [...rest] | body`
pub open spec fn p_function(ts: Seq<TokenModel>, i: int) -> Parsed
    decreases ts.len() - i, 0int,
{
    let j = adv(ts, i);
    if !(0 <= i < j) {
        (Err(error_at(ts[i], msg_end_of_file())), i)
    } else if ts[j].kind != TokenType::Pipe {
        (Err(error_at(ts[j], msg_expected(TokenType::Pipe, ts[j].kind))), j)
    } else {
        let (r, k) = p_params(ts, adv(ts, j), Seq::empty());
        match r {
            Err(e) => (Err(e), k),
            Ok((params, vararg)) => if !(i < k < ts.len()) {
                (Err(error_at(ts[i], msg_end_of_file())), k)
            } else {
                let (rb, l) = p_expr(ts, adv(ts, k));
                match rb {
                    Err(e) => (Err(e), l),
                    Ok(b) => (Ok(leaf(ExprModel::Function(params, vararg, boxed(b)), ts[i])), l),
                }
            },
        }
    }
}

/// Parameter names up to the closing `|`, which is not consumed.
pub open spec fn p_params(ts: Seq<TokenModel>, i: int, acc: Seq<NodeModel>) -> (Result<(Seq<NodeModel>, Option<Box<NodeModel>>), ParseErrorModel>, int)
    decreases ts.len() - i,
{
    if !(0 <= i < ts.len()) {
        (Err(error_at(ts.last(), msg_end_of_file())), i)
    } else {
        let t = ts[i];
        let j = adv(ts, i);
        if t.kind == TokenType::Pipe {
            (Ok((acc, None)), i)
        } else if t.kind == TokenType::Ellipsis && ts[j].kind == TokenType::Ident {
            let name = leaf(ExprModel::Identifier(ts[j].literal), ts[j]);
            let k = adv(ts, j);
            if ts[k].kind != TokenType::Pipe {
                (Err(error_at(ts[k], msg_vararg_last())), k)
            } else {
                (Ok((acc, Some(boxed(name)))), k)
            }
        } else if t.kind == TokenType::Ident && i < j {
            p_params(ts, j, acc.push(leaf(ExprModel::Identifier(t.literal), t)))
        } else {
            (Err(error_at(t, msg_parameters())), i)
        }
    }
}

/// `[ e1 e2 ... ]`
pub open spec fn p_array(ts: Seq<TokenModel>, i: int) -> Parsed
    decreases ts.len() - i, 0int,
{
    let j = adv(ts, i);
    if 0 <= i < j {
        let (r, k) = p_seq(ts, j, TokenType::RBracket, Seq::empty());
        match r {
            Err(e) => (Err(e), k),
            Ok(v) => (Ok(leaf(ExprModel::Array(v), ts[i])), adv(ts, k)),
        }
    } else {
        (Err(error_at(ts[i], msg_end_of_file())), i)
    }
}

/// `@ index operand`
pub open spec fn p_index(ts: Seq<TokenModel>, i: int) -> Parsed
    decreases ts.len() - i, 0int,
{
    let j = adv(ts, i);
    if !(0 <= i < j) {
        (Err(error_at(ts[i], msg_end_of_file())), i)
    } else {
        let (ra, k) = p_expr(ts, j);
        match ra {
            Err(e) => (Err(e), k),
            Ok(a) => if !(i < k < ts.len()) {
                (Err(error_at(ts[i], msg_end_of_file())), k)
            } else {
                let (rb, l) = p_expr(ts, k);
                match rb {
                    Err(e) => (Err(e), l),
                    Ok(b) => (Ok(leaf(ExprModel::Index(boxed(a), boxed(b)), ts[i])), l),
                }
            },
        }
    }
}

/// An operator and its operands, up to `)`, which is not consumed.
pub open spec fn p_operator(ts: Seq<TokenModel>, i: int) -> Parsed
    decreases ts.len() - i, 0int,
{
    let j = adv(ts, i);
    if 0 <= i < j {
        let (r, k) = p_seq(ts, j, TokenType::RParen, Seq::empty());
        match r {
            Err(e) => (Err(e), k),
            Ok(v) => (Ok(leaf(ExprModel::Operator(ts[i].literal, v), ts[i])), k),
        }
    } else {
        (Err(error_at(ts[i], msg_end_of_file())), i)
    }
}

/// The top-level expressions from `i` to `EOF`, and every error met on the way.
pub open spec fn p_program(ts: Seq<TokenModel>, i: int, nodes: Seq<NodeModel>, errors: Seq<ParseErrorModel>) -> (Seq<NodeModel>, Seq<ParseErrorModel>)
    decreases ts.len() - i,
{
    if !(0 <= i < ts.len()) || ts[i].kind == TokenType::EOF {
        (nodes, errors)
    } else {
        let (r, j) = p_expr(ts, i);
        if i < j < ts.len() {
            match r {
                Ok(n) => p_program(ts, j, nodes.push(n), errors),
                Err(e) => p_program(ts, j, nodes, errors.push(e)),
            }
        } else {
            (nodes, errors)
        }
    }
}

/// What parsing a token sequence gives: every top-level node, or every error.
pub open spec fn parse_result(ts: Seq<TokenModel>) -> Result<Seq<NodeModel>, Seq<ParseErrorModel>> {
    let (nodes, errors) = p_program(ts, 0, Seq::empty(), Seq::empty());
    if errors.len() > 0 {
        Err(errors)
    } else {
        Ok(nodes)
    }
}

} // verus!

verus! {

pub open spec fn result_model(r: Result<Node, ParseError>) -> Result<NodeModel, ParseErrorModel> {
    match r {
        Ok(n) => Ok(n@),
        Err(e) => Err(e@),
    }
}

pub open spec fn token_models(v: Seq<Token>) -> Seq<TokenModel> {
    v.map_values(|t: Token| t@)
}

/// A token sequence as the lexer hands it out: it ends with the first `EOF`.
pub open spec fn tokens_wf(ts: Seq<TokenModel>) -> bool {
    &&& ts.len() >= 1
    &&& ts.last().kind == TokenType::EOF
    &&& forall|k: int| 0 <= k < ts.len() - 1 ==> (#[trigger] ts[k]).kind != TokenType::EOF
}

/// A recursive-descent parser over the token stream of one input.
pub struct Parser {
    tokens: Vec<Token>,
    pos: usize,
}

impl Parser {
    /// The tokens being parsed, up to and including the first `EOF`.
    pub closed spec fn tokens(&self) -> Seq<TokenModel> {
        token_models(self.tokens@)
    }

    /// The index of the current token.
    pub closed spec fn position(&self) -> int {
        self.pos as int
    }

    pub closed spec fn wf(&self) -> bool {
        &&& tokens_wf(self.tokens())
        &&& self.pos < self.tokens@.len()
    }

    /// A parser over every token that `lexer` hands out, up to and including
    /// the first `EOF`, standing on the first of them.
    pub fn new(lexer: Lexer) -> (r: Parser)
        requires
            lexer.wf(),
        ensures
            r.wf(),
            r.tokens() == lex_all(lexer.input(), lexer.state()),
            r.position() == 0,
    {
        let mut lx = lexer;
        let ghost s = lx.input();
        let ghost st0 = lx.state();
        let mut tokens: Vec<Token> = Vec::new();
        proof {
            lx.lemma_wf_bounds();
            assert(token_models(tokens@) + lex_all(s, lx.state()) =~= lex_all(s, st0));
        }
        loop
            invariant
                lx.wf(),
                lx.input() == s,
                s == lexer.input(),
                st0 == lexer.state(),
                token_models(tokens@) + lex_all(s, lx.state()) == lex_all(s, st0),
                forall|k: int| 0 <= k < tokens@.len() ==> (#[trigger] tokens@[k]).token_type != TokenType::EOF,
            decreases s.len() - lx.state().pos,
        {
            proof {
                lx.lemma_wf_bounds();
                crate::lexer::lemma_lex_step_progress(s, lx.state());
            }
            let ghost before = lx.state();
            let t = lx.next_token();
            let eof = t.token_type == TokenType::EOF;
            let ghost old_tokens = tokens@;
            tokens.push(t);
            proof {
                assert(token_models(tokens@) =~= token_models(old_tokens).push(tokens@.last()@));
                if eof {
                        assert(lex_all(s, before) == seq![tokens@.last()@]);
                } else {
                    assert(lex_all(s, before) == seq![tokens@.last()@] + lex_all(s, lx.state()));
                    assert(token_models(tokens@) + lex_all(s, lx.state()) =~= token_models(old_tokens) + (seq![tokens@.last()@] + lex_all(s, lx.state())));
                }
            }
            if eof {
                proof {
                    assert(token_models(tokens@) =~= lex_all(s, st0)) by {
                        assert(lex_all(s, before) == seq![tokens@.last()@]);
                        assert(token_models(old_tokens) + seq![tokens@.last()@] =~= token_models(tokens@));
                    }
                }
                return Parser { tokens, pos: 0 };
            }
        }
    }

    proof fn lemma_not_last(&self)
        requires
            self.wf(),
            self.tokens()[self.position()].kind != TokenType::EOF,
        ensures
            self.pos + 1 < self.tokens@.len(),
            adv(self.tokens(), self.position()) == self.position() + 1,
    {
    }

    fn kind_at(&self, i: usize) -> (r: TokenType)
        requires
            self.wf(),
            i < self.tokens@.len(),
        ensures
            r == self.tokens()[i as int].kind,
    {
        self.tokens[i].token_type
    }

    fn peek_index(&self) -> (r: usize)
        requires
            self.wf(),
        ensures
            r == adv(self.tokens(), self.position()),
            r < self.tokens@.len(),
    {
        if self.pos < self.tokens.len() - 1 {
            self.pos + 1
        } else {
            self.pos
        }
    }

    fn current_token_is(&self, token_type: TokenType) -> (r: bool)
        requires
            self.wf(),
        ensures
            r == (self.tokens()[self.position()].kind == token_type),
    {
        self.tokens[self.pos].token_type == token_type
    }

    fn peek_token_is(&self, token_type: TokenType) -> (r: bool)
        requires
            self.wf(),
        ensures
            r == (self.tokens()[adv(self.tokens(), self.position())].kind == token_type),
    {
        self.tokens[self.peek_index()].token_type == token_type
    }

    fn peek_token_is_literal(&self) -> (r: bool)
        requires
            self.wf(),
        ensures
            r == starts_literal(self.tokens()[adv(self.tokens(), self.position())].kind),
    {
        match self.tokens[self.peek_index()].token_type {
            TokenType::Ident | TokenType::Int | TokenType::Float | TokenType::True | TokenType::False
            | TokenType::LParen => true,
            _ => false,
        }
    }

    fn copy_token(&self, i: usize) -> (r: Token)
        requires
            self.wf(),
            i < self.tokens@.len(),
        ensures
            r@ == self.tokens()[i as int],
    {
        let t = &self.tokens[i];
        Token { token_type: t.token_type, col: t.col, row: t.row, literal: t.literal.clone() }
    }

    /// Hands out the current token and moves to the next one.
    fn next_token(&mut self) -> (r: Token)
        requires
            old(self).wf(),
        ensures
            final(self).wf(),
            final(self).tokens == old(self).tokens,
            r@ == old(self).tokens()[old(self).position()],
            final(self).position() == adv(old(self).tokens(), old(self).position()),
    {
        let t = self.copy_token(self.pos);
        self.pos = self.peek_index();
        t
    }

    fn error_at_token(&self, i: usize, message: String) -> (r: ParseError)
        requires
            self.wf(),
            i < self.tokens@.len(),
        ensures
            r@ == error_at(self.tokens()[i as int], message@),
    {
        ParseError { col: self.tokens[i].col, row: self.tokens[i].row, message }
    }

    /// Moves on when the next token has the expected kind, handing out the
    /// current one; otherwise moves onto the offending token and reports it.
    fn expect_peek(&mut self, token_type: TokenType) -> (r: Result<Token, ParseError>)
        requires
            old(self).wf(),
        ensures
            final(self).wf(),
            final(self).tokens == old(self).tokens,
            final(self).position() == adv(old(self).tokens(), old(self).position()),
            ({
                let ts = old(self).tokens();
                let j = adv(ts, old(self).position());
                match r {
                    Ok(t) => ts[j].kind == token_type && t@ == ts[old(self).position()],
                    Err(e) => ts[j].kind != token_type && e@ == error_at(ts[j], msg_expected(token_type, ts[j].kind)),
                }
            }),
    {
        if self.peek_token_is(token_type) {
            Ok(self.next_token())
        } else {
            self.next_token();
            let mut message = String::from_str("Expected next token to be ");
            message.append(kind_name(token_type));
            message.append(" but got ");
            message.append(kind_name(self.tokens[self.pos].token_type));
            Err(self.error_at_token(self.pos, message))
        }
    }

    fn end_of_file_error(&self) -> (r: ParseError)
        requires
            self.wf(),
        ensures
            r@ == error_at(self.tokens()[self.position()], msg_end_of_file()),
    {
        self.error_at_token(self.pos, String::from_str("Unexpected end of file"))
    }

    /// Expressions up to a token of kind `closer`, which is left current.
    fn parse_list(&mut self, closer: TokenType) -> (r: Result<Vec<Node>, ParseError>)
        requires
            old(self).wf(),
        ensures
            final(self).wf(),
            final(self).tokens == old(self).tokens,
            old(self).position() <= final(self).position(),
            ({
                let (spec_r, spec_pos) = p_seq(old(self).tokens(), old(self).position(), closer, Seq::empty());
                &&& spec_pos == final(self).position()
                &&& match r {
                    Ok(v) => spec_r == Ok::<Seq<NodeModel>, ParseErrorModel>(nodes_model(v@)),
                    Err(e) => spec_r == Err::<Seq<NodeModel>, ParseErrorModel>(e@),
                }
            }),
        decreases old(self).tokens@.len() - old(self).pos, 3int,
    {
        let ghost ts = self.tokens();
        let ghost i0 = self.position();
        let mut nodes: Vec<Node> = Vec::new();
        proof {
            assert(nodes_model(nodes@) =~= Seq::<NodeModel>::empty());
        }
        while !self.current_token_is(closer)
            invariant
                self.wf(),
                self.tokens == old(self).tokens,
                ts == old(self).tokens(),
                i0 == old(self).position(),
                i0 <= self.position(),
                p_seq(ts, i0, closer, Seq::empty()) == p_seq(ts, self.position(), closer, nodes_model(nodes@)),
            decreases ts.len() - self.position(),
        {
            let ghost i = self.position();
            match self.parse_expression() {
                Err(e) => {
                    return Err(e);
                },
                Ok(n) => {
                    proof {
                        lemma_nodes_model_push(nodes@, n);
                    }
                    nodes.push(n);
                },
            }
        }
        Ok(nodes)
    }

    /// One expression, with its parentheses when it has them.
    fn parse_expression(&mut self) -> (r: Result<Node, ParseError>)
        requires
            old(self).wf(),
        ensures
            final(self).wf(),
            final(self).tokens == old(self).tokens,
            old(self).position() <= final(self).position(),
            old(self).tokens()[old(self).position()].kind != TokenType::EOF ==> old(self).position() < final(self).position(),
            (result_model(r), final(self).position()) == p_expr(old(self).tokens(), old(self).position()),
        decreases old(self).tokens@.len() - old(self).pos, 2int,
    {
        if self.current_token_is(TokenType::EOF) {
            return Err(self.end_of_file_error());
        }
        proof { self.lemma_not_last(); }
        if self.current_token_is(TokenType::LParen) && self.peek_token_is_literal() {
            return self.parse_expression_literal();
        }
        if self.current_token_is(TokenType::LParen) && self.peek_token_is(TokenType::RParen) {
            let current = self.next_token();
            self.next_token();
            let empty: Vec<Node> = Vec::new();
            proof { lemma_nodes_model_empty(empty@); }
            return Ok(Node { expression: Expression::ExpressionLiteral(empty), token: current });
        }
        let in_parenthesis = self.current_token_is(TokenType::LParen);
        if in_parenthesis {
            self.next_token();
        }
        let result = self.prefix_parse();
        match result {
            Err(e) => Err(e),
            Ok(n) => {
                if !in_parenthesis {
                    Ok(n)
                } else if self.current_token_is(TokenType::RParen) {
                    self.next_token();
                    Ok(n)
                } else {
                    Err(self.error_at_token(self.pos, String::from_str("Expected closing parenthesis")))
                }
            },
        }
    }

    fn parse_expression_literal(&mut self) -> (r: Result<Node, ParseError>)
        requires
            old(self).wf(),
            old(self).tokens()[old(self).position()].kind != TokenType::EOF,
        ensures
            final(self).wf(),
            final(self).tokens == old(self).tokens,
            old(self).position() < final(self).position(),
            (result_model(r), final(self).position()) == p_expression_literal(old(self).tokens(), old(self).position()),
        decreases old(self).tokens@.len() - old(self).pos, 1int,
    {
        proof { self.lemma_not_last(); }
        let token = self.next_token();
        let nodes = self.parse_list(TokenType::RParen)?;
        self.next_token();
        Ok(Node { expression: Expression::ExpressionLiteral(nodes), token })
    }

    fn prefix_parse(&mut self) -> (r: Result<Node, ParseError>)
        requires
            old(self).wf(),
        ensures
            final(self).wf(),
            final(self).tokens == old(self).tokens,
            old(self).position() <= final(self).position(),
            old(self).tokens()[old(self).position()].kind != TokenType::EOF ==> old(self).position() < final(self).position(),
            (result_model(r), final(self).position()) == p_prefix(old(self).tokens(), old(self).position()),
        decreases old(self).tokens@.len() - old(self).pos, 1int,
    {
        if self.current_token_is(TokenType::EOF) {
            let current = self.next_token();
            let mut message = String::from_str("Could not parse prefix token type '");
            message.append(kind_name(current.token_type));
            message.append("' with literal '");
            message.append(current.literal.as_str());
            message.append("'");
            return Err(ParseError { col: current.col, row: current.row, message });
        }
        proof { self.lemma_not_last(); }
        match self.tokens[self.pos].token_type {
            TokenType::SetKeyword => self.parse_set(),
            TokenType::If => self.parse_if(),
            TokenType::When => self.parse_when(),
            TokenType::While => self.parse_while(),
            TokenType::Include => self.parse_include(),
            TokenType::Function => self.parse_function(),
            TokenType::Section | TokenType::DoubleDot => self.parse_single(),
            TokenType::Int => self.parse_integer_literal(),
            TokenType::Float => {
                let current = self.next_token();
                Ok(Node { expression: Expression::Float(current.literal.clone()), token: current })
            },
            TokenType::String => Ok(self.parse_string_literal()),
            TokenType::LBracket => self.parse_array_literal(),
            TokenType::Ident => Ok(self.parse_identifier()),
            TokenType::At => self.parse_index_operator(),
            TokenType::Plus
            | TokenType::Minus
            | TokenType::Asterisk
            | TokenType::Slash
            | TokenType::GreaterThan
            | TokenType::LesserThan
            | TokenType::Bang
            | TokenType::Equals => self.parse_prefix_operator(),
            TokenType::True | TokenType::False => {
                let current = self.next_token();
                Ok(Node { expression: Expression::Boolean(current.token_type == TokenType::True), token: current })
            },
            _ => {
                let current = self.next_token();
                let mut message = String::from_str("Could not parse prefix token type '");
                message.append(kind_name(current.token_type));
                message.append("' with literal '");
                message.append(current.literal.as_str());
                message.append("'");
                Err(ParseError { col: current.col, row: current.row, message })
            },
        }
    }

    fn parse_identifier(&mut self) -> (r: Node)
        requires
            old(self).wf(),
        ensures
            final(self).wf(),
            final(self).tokens == old(self).tokens,
            final(self).position() == adv(old(self).tokens(), old(self).position()),
            r@ == leaf(ExprModel::Identifier(old(self).tokens()[old(self).position()].literal), old(self).tokens()[old(self).position()]),
    {
        let token = self.next_token();
        Node { expression: Expression::Identifier(token.literal.clone()), token }
    }

    fn parse_string_literal(&mut self) -> (r: Node)
        requires
            old(self).wf(),
        ensures
            final(self).wf(),
            final(self).tokens == old(self).tokens,
            final(self).position() == adv(old(self).tokens(), old(self).position()),
            r@ == leaf(ExprModel::Str(old(self).tokens()[old(self).position()].literal), old(self).tokens()[old(self).position()]),
    {
        let token = self.next_token();
        Node { expression: Expression::String(token.literal.clone()), token }
    }

    fn parse_integer_literal(&mut self) -> (r: Result<Node, ParseError>)
        requires
            old(self).wf(),
            old(self).tokens()[old(self).position()].kind == TokenType::Int,
        ensures
            final(self).wf(),
            final(self).tokens == old(self).tokens,
            old(self).position() < final(self).position(),
            (result_model(r), final(self).position()) == p_prefix(old(self).tokens(), old(self).position()),
    {
        proof { self.lemma_not_last(); }
        let current = self.next_token();
        match parse_integer(current.literal.as_str()) {
            Some(value) => Ok(Node { expression: Expression::Integer(value), token: current }),
            None => {
                let mut message = String::from_str("Could not parse ");
                message.append(current.literal.as_str());
                message.append(" as integer");
                Err(ParseError { col: current.col, row: current.row, message })
            },
        }
    }

    fn parse_include(&mut self) -> (r: Result<Node, ParseError>)
        requires
            old(self).wf(),
            old(self).tokens()[old(self).position()].kind == TokenType::Include,
        ensures
            final(self).wf(),
            final(self).tokens == old(self).tokens,
            old(self).position() < final(self).position(),
            (result_model(r), final(self).position()) == p_prefix(old(self).tokens(), old(self).position()),
    {
        proof { self.lemma_not_last(); }
        let current = self.expect_peek(TokenType::String)?;
        let target = self.parse_string_literal();
        Ok(Node { expression: Expression::Include(Box::new(target)), token: current })
    }

    fn parse_single(&mut self) -> (r: Result<Node, ParseError>)
        requires
            old(self).wf(),
            old(self).tokens()[old(self).position()].kind == TokenType::Section
                || old(self).tokens()[old(self).position()].kind == TokenType::DoubleDot,
        ensures
            final(self).wf(),
            final(self).tokens == old(self).tokens,
            old(self).position() < final(self).position(),
            (result_model(r), final(self).position()) == p_single(old(self).tokens(), old(self).position()),
        decreases old(self).tokens@.len() - old(self).pos, 0int,
    {
        proof { self.lemma_not_last(); }
        let current = self.next_token();
        let inner = self.parse_expression()?;
        if current.token_type == TokenType::Section {
            Ok(Node { expression: Expression::Section(Box::new(inner)), token: current })
        } else {
            Ok(Node { expression: Expression::Spread(Box::new(inner)), token: current })
        }
    }

    fn parse_array_literal(&mut self) -> (r: Result<Node, ParseError>)
        requires
            old(self).wf(),
            old(self).tokens()[old(self).position()].kind == TokenType::LBracket,
        ensures
            final(self).wf(),
            final(self).tokens == old(self).tokens,
            old(self).position() < final(self).position(),
            (result_model(r), final(self).position()) == p_array(old(self).tokens(), old(self).position()),
        decreases old(self).tokens@.len() - old(self).pos, 0int,
    {
        proof { self.lemma_not_last(); }
        let token = self.next_token();
        let nodes = self.parse_list(TokenType::RBracket)?;
        self.next_token();
        Ok(Node { expression: Expression::Array(nodes), token })
    }

    fn parse_prefix_operator(&mut self) -> (r: Result<Node, ParseError>)
        requires
            old(self).wf(),
            old(self).tokens()[old(self).position()].kind != TokenType::EOF,
        ensures
            final(self).wf(),
            final(self).tokens == old(self).tokens,
            old(self).position() < final(self).position(),
            (result_model(r), final(self).position()) == p_operator(old(self).tokens(), old(self).position()),
        decreases old(self).tokens@.len() - old(self).pos, 0int,
    {
        proof { self.lemma_not_last(); }
        let token = self.next_token();
        let operands = self.parse_list(TokenType::RParen)?;
        Ok(Node { expression: Expression::Operator(token.literal.clone(), operands), token })
    }

    fn parse_index_operator(&mut self) -> (r: Result<Node, ParseError>)
        requires
            old(self).wf(),
            old(self).tokens()[old(self).position()].kind != TokenType::EOF,
        ensures
            final(self).wf(),
            final(self).tokens == old(self).tokens,
            old(self).position() < final(self).position(),
            (result_model(r), final(self).position()) == p_index(old(self).tokens(), old(self).position()),
        decreases old(self).tokens@.len() - old(self).pos, 0int,
    {
        proof { self.lemma_not_last(); }
        let token = self.next_token();
        let index = self.parse_expression()?;
        let operand = self.parse_expression()?;
        Ok(Node { expression: Expression::Index(Box::new(index), Box::new(operand)), token })
    }

    fn parse_if(&mut self) -> (r: Result<Node, ParseError>)
        requires
            old(self).wf(),
            old(self).tokens()[old(self).position()].kind != TokenType::EOF,
        ensures
            final(self).wf(),
            final(self).tokens == old(self).tokens,
            old(self).position() < final(self).position(),
            (result_model(r), final(self).position()) == p_if(old(self).tokens(), old(self).position()),
        decreases old(self).tokens@.len() - old(self).pos, 0int,
    {
        proof { self.lemma_not_last(); }
        let ghost ts = self.tokens();
        let ghost i = self.position();
        let token = self.next_token();
        let ghost j = self.position();
        let condition = self.parse_expression()?;
        let ghost k = self.position();
        assert(i < j <= k < ts.len());
        let consequence = self.parse_expression()?;
        let ghost l = self.position();
        assert(i < k <= l < ts.len());
        if self.current_token_is(TokenType::RParen) {
            let r = Node { expression: Expression::If(Box::new(condition), Box::new(consequence), None), token };
            proof { lemma_opt_model(None); }
            assert(p_if(ts, i) == (Ok::<NodeModel, ParseErrorModel>(r@), l));
            Ok(r)
        } else {
            let alternative = self.parse_expression()?;
            proof { lemma_opt_model(Some(Box::new(alternative))); }
            let r = Node {
                expression: Expression::If(Box::new(condition), Box::new(consequence), Some(Box::new(alternative))),
                token,
            };
            assert(p_if(ts, i) == (Ok::<NodeModel, ParseErrorModel>(r@), self.position()));
            Ok(r)
        }
    }

    fn parse_while(&mut self) -> (r: Result<Node, ParseError>)
        requires
            old(self).wf(),
            old(self).tokens()[old(self).position()].kind != TokenType::EOF,
        ensures
            final(self).wf(),
            final(self).tokens == old(self).tokens,
            old(self).position() < final(self).position(),
            (result_model(r), final(self).position()) == p_while(old(self).tokens(), old(self).position()),
        decreases old(self).tokens@.len() - old(self).pos, 0int,
    {
        proof { self.lemma_not_last(); }
        let ghost ts = self.tokens();
        let ghost i = self.position();
        let token = self.next_token();
        let condition = self.parse_expression()?;
        let ghost k = self.position();
        assert(i < k < ts.len());
        if self.current_token_is(TokenType::RParen) {
            let r = Node { expression: Expression::While(Box::new(condition), None), token };
            proof { lemma_opt_model(None); }
            assert(p_while(ts, i) == (Ok::<NodeModel, ParseErrorModel>(r@), k));
            Ok(r)
        } else {
            let body = self.parse_expression()?;
            let r = Node { expression: Expression::While(Box::new(condition), Some(Box::new(body))), token };
            proof { lemma_opt_model(Some(Box::new(body))); }
            assert(p_while(ts, i) == (Ok::<NodeModel, ParseErrorModel>(r@), self.position()));
            Ok(r)
        }
    }

    fn parse_set(&mut self) -> (r: Result<Node, ParseError>)
        requires
            old(self).wf(),
            old(self).tokens()[old(self).position()].kind != TokenType::EOF,
        ensures
            final(self).wf(),
            final(self).tokens == old(self).tokens,
            old(self).position() < final(self).position(),
            (result_model(r), final(self).position()) == p_set(old(self).tokens(), old(self).position()),
        decreases old(self).tokens@.len() - old(self).pos, 0int,
    {
        proof { self.lemma_not_last(); }
        let ghost ts = self.tokens();
        let ghost i0 = self.position();
        let current = self.expect_peek(TokenType::LParen)?;
        let ghost j0 = self.position();
        let mut list: Vec<(Node, Node)> = Vec::new();
        proof {
            assert(pairs_model(list@) =~= Seq::<(NodeModel, NodeModel)>::empty());
        }
        while self.current_token_is(TokenType::LParen)
            invariant
                self.wf(),
                self.tokens == old(self).tokens,
                ts == old(self).tokens(),
                i0 == old(self).position(),
                i0 < j0 <= self.position(),
                j0 == adv(ts, i0),
                ts[j0].kind == TokenType::LParen,
                p_bindings(ts, j0, Seq::empty()) == p_bindings(ts, self.position(), pairs_model(list@)),
            decreases ts.len() - self.position(),
        {
            proof { self.lemma_not_last(); }
            self.expect_peek(TokenType::Ident)?;
            proof { self.lemma_not_last(); }
            let identifier = self.parse_identifier();
            let value = self.parse_expression()?;
            if !self.current_token_is(TokenType::RParen) {
                return Err(self.error_at_token(self.pos, String::from_str("Expected closing parenthesis")));
            }
            proof {
                self.lemma_not_last();
                lemma_pairs_model_push(list@, (identifier, value));
            }
            list.push((identifier, value));
            self.next_token();
        }
        Ok(Node { expression: Expression::SetForm(list), token: current })
    }

    fn parse_when(&mut self) -> (r: Result<Node, ParseError>)
        requires
            old(self).wf(),
            old(self).tokens()[old(self).position()].kind != TokenType::EOF,
        ensures
            final(self).wf(),
            final(self).tokens == old(self).tokens,
            old(self).position() < final(self).position(),
            (result_model(r), final(self).position()) == p_when(old(self).tokens(), old(self).position()),
        decreases old(self).tokens@.len() - old(self).pos, 0int,
    {
        proof { self.lemma_not_last(); }
        let ghost ts = self.tokens();
        let ghost i0 = self.position();
        let token = self.next_token();
        let ghost j0 = self.position();
        let mut branches: Vec<(Node, Node)> = Vec::new();
        proof {
            assert(pairs_model(branches@) =~= Seq::<(NodeModel, NodeModel)>::empty());
        }
        while !self.current_token_is(TokenType::RParen)
            invariant
                self.wf(),
                self.tokens == old(self).tokens,
                ts == old(self).tokens(),
                i0 == old(self).position(),
                i0 < j0 <= self.position(),
                j0 == adv(ts, i0),
                p_branches(ts, j0, Seq::empty()) == p_branches(ts, self.position(), pairs_model(branches@)),
            decreases ts.len() - self.position(),
        {
            let condition = self.parse_expression()?;
            if self.current_token_is(TokenType::RParen) {
                return Err(self.error_at_token(
                    self.pos,
                    String::from_str("Expected consequence for condition in when-expression"),
                ));
            }
            let consequence = self.parse_expression()?;
            proof {
                lemma_pairs_model_push(branches@, (condition, consequence));
            }
            branches.push((condition, consequence));
        }
        Ok(Node { expression: Expression::When(branches), token })
    }

    fn parse_function(&mut self) -> (r: Result<Node, ParseError>)
        requires
            old(self).wf(),
            old(self).tokens()[old(self).position()].kind != TokenType::EOF,
        ensures
            final(self).wf(),
            final(self).tokens == old(self).tokens,
            old(self).position() < final(self).position(),
            (result_model(r), final(self).position()) == p_function(old(self).tokens(), old(self).position()),
        decreases old(self).tokens@.len() - old(self).pos, 0int,
    {
        proof { self.lemma_not_last(); }
        let ghost ts = self.tokens();
        let ghost i0 = self.position();
        let current = self.expect_peek(TokenType::Pipe)?;
        self.next_token();
        let ghost j0 = self.position();
        let mut parameters: Vec<Node> = Vec::new();
        let mut vararg: Option<Box<Node>> = None;
        proof {
            assert(nodes_model(parameters@) =~= Seq::<NodeModel>::empty());
        }
        loop
            invariant_except_break
                vararg is None,
                p_params(ts, j0, Seq::empty()) == p_params(ts, self.position(), nodes_model(parameters@)),
            invariant
                self.wf(),
                self.tokens == old(self).tokens,
                ts == old(self).tokens(),
                i0 == old(self).position(),
                i0 < j0 <= self.position(),
                j0 == adv(ts, adv(ts, i0)),
                ts[adv(ts, i0)].kind == TokenType::Pipe,
            ensures
                self.wf(),
                self.tokens == old(self).tokens,
                i0 < self.position(),
                p_params(ts, j0, Seq::empty()) == (Ok::<(Seq<NodeModel>, Option<Box<NodeModel>>), ParseErrorModel>((nodes_model(parameters@), opt_model(vararg))), self.position()),
            decreases ts.len() - self.position(),
        {
            if self.current_token_is(TokenType::Pipe) {
                break;
            }
            let peek = self.peek_index();
            if self.current_token_is(TokenType::Ellipsis) && self.kind_at(peek) == TokenType::Ident {
                let ghost e = self.position();
                self.next_token();
                let identifier = self.parse_identifier();
                assert(identifier@ == leaf(ExprModel::Identifier(ts[peek as int].literal), ts[peek as int]));
                assert(self.position() == adv(ts, peek as int));
                if !self.current_token_is(TokenType::Pipe) {
                    return Err(self.error_at_token(
                        self.pos,
                        String::from_str("Expected vararg identifier to be last in parameter list."),
                    ));
                }
                vararg = Some(Box::new(identifier));
                proof { lemma_opt_model(vararg); }
                assert(p_params(ts, e, nodes_model(parameters@)) == (Ok::<(Seq<NodeModel>, Option<Box<NodeModel>>), ParseErrorModel>((nodes_model(parameters@), opt_model(vararg))), self.position()));
                break;
            } else if self.current_token_is(TokenType::Ident) {
                proof { self.lemma_not_last(); }
                let parameter = self.parse_identifier();
                proof {
                    lemma_nodes_model_push(parameters@, parameter);
                }
                parameters.push(parameter);
            } else {
                return Err(self.error_at_token(self.pos, String::from_str("Expected function parameters names.")));
            }
        }
        self.next_token();
        let body = self.parse_expression()?;
        Ok(Node { expression: Expression::Function(parameters, vararg, Box::new(body)), token: current })
    }

    /// Parses every top-level expression up to `EOF`. Returns the nodes when
    /// no error was met, and otherwise every error in the order met; after an
    /// error, parsing goes on from the next token not yet consumed.
    pub fn parse_program(self) -> (r: Result<Program, Vec<ParseError>>)
        requires
            self.wf(),
        ensures
            ({
                let (nodes, errors) = p_program(self.tokens(), self.position(), Seq::empty(), Seq::empty());
                match r {
                    Ok(p) => errors.len() == 0 && p@ == nodes,
                    Err(es) => errors.len() > 0 && errors == es@.map_values(|e: ParseError| e@),
                }
            }),
    {
        let mut parser = self;
        let ghost ts = parser.tokens();
        let ghost i0 = parser.position();
        let mut nodes: Vec<Node> = Vec::new();
        let mut errors: Vec<ParseError> = Vec::new();
        proof {
            assert(nodes_model(nodes@) =~= Seq::<NodeModel>::empty());
            assert(errors@.map_values(|e: ParseError| e@) =~= Seq::<ParseErrorModel>::empty());
        }
        while !parser.current_token_is(TokenType::EOF)
            invariant
                parser.wf(),
                parser.tokens() == ts,
                p_program(ts, i0, Seq::empty(), Seq::empty()) == p_program(
                    ts,
                    parser.position(),
                    nodes_model(nodes@),
                    errors@.map_values(|e: ParseError| e@),
                ),
            decreases ts.len() - parser.position(),
        {
            match parser.parse_expression() {
                Ok(node) => {
                    proof {
                        lemma_nodes_model_push(nodes@, node);
                    }
                    nodes.push(node);
                },
                Err(error) => {
                    let ghost old_errors = errors@;
                    errors.push(error);
                    proof {
                        assert(errors@.map_values(|e: ParseError| e@) =~= old_errors.map_values(|e: ParseError| e@).push(error@));
                    }
                },
            }
        }
        if errors.len() > 0 {
            return Err(errors);
        }
        proof {
            assert(errors@.map_values(|e: ParseError| e@).len() == 0);
        }
        Ok(Program { nodes })
    }
}

} // verus!

verus! {

/// Scans and parses `input`: its program, or every parse error in it.
pub fn parse(input: &str) -> (r: Result<Program, Vec<ParseError>>)
    requires
        input@.len() < u32::MAX,
    ensures
        match r {
            Ok(p) => parse_result(lex_all(input@, crate::lexer::start_state())) == Ok::<Seq<NodeModel>, Seq<ParseErrorModel>>(p@),
            Err(es) => parse_result(lex_all(input@, crate::lexer::start_state())) == Err::<Seq<NodeModel>, Seq<ParseErrorModel>>(es@.map_values(|e: ParseError| e@)),
        },
{
    let lexer = Lexer::new(input);
    let parser = Parser::new(lexer);
    parser.parse_program()
}

} // verus!
