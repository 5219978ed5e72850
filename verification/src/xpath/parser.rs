//! XPath parser: a recursive descent parser over the lexer's tokens, with the
//! syntax tree, axes, node tests and operators it builds

use vstd::prelude::*;
use vstd::string::StringExecFns;

use super::lexer::{chars_of, lex_all, lemma_lexes_unique, string_of, views, Lexer, Token, TokenModel};
use crate::xml_core::primitives::str_eq;

verus! {

/// Binary operators
#[derive(Debug, Clone, Copy, PartialEq, Eq, Structural)]
pub enum BinaryOp {
    Or,
    And,
    Eq,
    NotEq,
    Lt,
    LtEq,
    Gt,
    GtEq,
    Add,
    Sub,
    Mul,
    Div,
    Mod,
}

/// XPath axes
#[derive(Debug, Clone, Copy, PartialEq, Eq, Structural)]
pub enum Axis {
    Child,
    Descendant,
    DescendantOrSelf,
    Parent,
    Ancestor,
    AncestorOrSelf,
    FollowingSibling,
    PrecedingSibling,
    Following,
    Preceding,
    Self_,
    Attribute,
    Namespace,
}

/// The axis that a name stands for.
pub open spec fn axis_named(s: Seq<char>) -> Option<Axis> {
    if s == "child"@ {
        Some(Axis::Child)
    } else if s == "descendant"@ {
        Some(Axis::Descendant)
    } else if s == "descendant-or-self"@ {
        Some(Axis::DescendantOrSelf)
    } else if s == "parent"@ {
        Some(Axis::Parent)
    } else if s == "ancestor"@ {
        Some(Axis::Ancestor)
    } else if s == "ancestor-or-self"@ {
        Some(Axis::AncestorOrSelf)
    } else if s == "following-sibling"@ {
        Some(Axis::FollowingSibling)
    } else if s == "preceding-sibling"@ {
        Some(Axis::PrecedingSibling)
    } else if s == "following"@ {
        Some(Axis::Following)
    } else if s == "preceding"@ {
        Some(Axis::Preceding)
    } else if s == "self"@ {
        Some(Axis::Self_)
    } else if s == "attribute"@ {
        Some(Axis::Attribute)
    } else if s == "namespace"@ {
        Some(Axis::Namespace)
    } else {
        None
    }
}

impl Axis {
    /// The axis named `s` (`child`, `descendant-or-self`, ...)
    pub fn from_str(s: &str) -> (r: Option<Self>)
        ensures
            r == axis_named(s@),
    {
        if str_eq(s, "child") {
            Some(Axis::Child)
        } else if str_eq(s, "descendant") {
            Some(Axis::Descendant)
        } else if str_eq(s, "descendant-or-self") {
            Some(Axis::DescendantOrSelf)
        } else if str_eq(s, "parent") {
            Some(Axis::Parent)
        } else if str_eq(s, "ancestor") {
            Some(Axis::Ancestor)
        } else if str_eq(s, "ancestor-or-self") {
            Some(Axis::AncestorOrSelf)
        } else if str_eq(s, "following-sibling") {
            Some(Axis::FollowingSibling)
        } else if str_eq(s, "preceding-sibling") {
            Some(Axis::PrecedingSibling)
        } else if str_eq(s, "following") {
            Some(Axis::Following)
        } else if str_eq(s, "preceding") {
            Some(Axis::Preceding)
        } else if str_eq(s, "self") {
            Some(Axis::Self_)
        } else if str_eq(s, "attribute") {
            Some(Axis::Attribute)
        } else if str_eq(s, "namespace") {
            Some(Axis::Namespace)
        } else {
            None
        }
    }
}

/// Node test in a location step
#[derive(Debug, Clone)]
pub enum NodeTest {
    /// Matches any node (*)
    Any,
    /// Matches elements with name
    Name(String),
    /// Matches namespace:localname
    QName(String, String),
    /// Matches namespace:*
    NamespaceWildcard(String),
    /// node() - matches any node
    Node,
    /// text() - matches text nodes
    Text,
    /// comment() - matches comments
    Comment,
    /// processing-instruction() - matches PIs
    ProcessingInstruction(Option<String>),
}

// =============================================================================
// Syntax tree
// =============================================================================
/// XPath expression AST node
#[derive(Debug)]
pub enum Expr {
    /// Root path (/)
    Root,
    /// Current context (.)
    Context,
    /// Parent (..)
    Parent,
    /// Union of two expressions (|)
    Union(Box<Expr>, Box<Expr>),
    /// Path expression (expr/expr or expr//expr)
    Path(Box<Expr>, Box<Step>),
    /// Filter expression with predicate
    Filter(Box<Expr>, Box<Expr>),
    /// Function call
    Function(String, Vec<Expr>),
    /// Binary operation
    Binary(Box<Expr>, BinaryOp, Box<Expr>),
    /// Unary negation
    Negate(Box<Expr>),
    /// Literal number, as written
    Number(String),
    /// Literal string
    String(String),
    /// Variable reference
    Variable(String),
    /// Location step
    Step(Box<Step>),
}

/// Location step in a path
#[derive(Debug)]
pub struct Step {
    pub axis: Axis,
    pub node_test: NodeTest,
    pub predicates: Vec<Expr>,
}

/// A node test with its names as characters.
pub enum NodeTestModel {
    Any,
    Name(Seq<char>),
    QName(Seq<char>, Seq<char>),
    NamespaceWildcard(Seq<char>),
    Node,
    Text,
    Comment,
    ProcessingInstruction(Option<Seq<char>>),
}

/// An expression with its names and literals as characters.
pub enum ExprModel {
    Root,
    Context,
    Parent,
    Union(Box<ExprModel>, Box<ExprModel>),
    Path(Box<ExprModel>, Box<StepModel>),
    Filter(Box<ExprModel>, Box<ExprModel>),
    Function(Seq<char>, Seq<ExprModel>),
    Binary(Box<ExprModel>, BinaryOp, Box<ExprModel>),
    Negate(Box<ExprModel>),
    Number(Seq<char>),
    String(Seq<char>),
    Variable(Seq<char>),
    Step(Box<StepModel>),
}

/// A location step with its node test and predicates as models.
pub struct StepModel {
    pub axis: Axis,
    pub test: NodeTestModel,
    pub predicates: Seq<ExprModel>,
}

pub open spec fn opt_chars(o: Option<String>) -> Option<Seq<char>> {
    match o {
        Some(s) => Some(s@),
        None => None,
    }
}

pub open spec fn test_model(t: NodeTest) -> NodeTestModel {
    match t {
        NodeTest::Any => NodeTestModel::Any,
        NodeTest::Name(n) => NodeTestModel::Name(n@),
        NodeTest::QName(a, b) => NodeTestModel::QName(a@, b@),
        NodeTest::NamespaceWildcard(n) => NodeTestModel::NamespaceWildcard(n@),
        NodeTest::Node => NodeTestModel::Node,
        NodeTest::Text => NodeTestModel::Text,
        NodeTest::Comment => NodeTestModel::Comment,
        NodeTest::ProcessingInstruction(a) => NodeTestModel::ProcessingInstruction(opt_chars(a)),
    }
}

/// The model of an expression.
pub open spec fn expr_model(e: Expr) -> ExprModel
    decreases e,
{
    match e {
        Expr::Root => ExprModel::Root,
        Expr::Context => ExprModel::Context,
        Expr::Parent => ExprModel::Parent,
        Expr::Union(a, b) => ExprModel::Union(Box::new(expr_model(*a)), Box::new(expr_model(*b))),
        Expr::Path(a, st) => ExprModel::Path(Box::new(expr_model(*a)), Box::new(step_model(*st))),
        Expr::Filter(a, b) => ExprModel::Filter(Box::new(expr_model(*a)), Box::new(expr_model(*b))),
        Expr::Function(n, args) => ExprModel::Function(n@, exprs_model(args@)),
        Expr::Binary(a, op, b) => ExprModel::Binary(
            Box::new(expr_model(*a)),
            op,
            Box::new(expr_model(*b)),
        ),
        Expr::Negate(a) => ExprModel::Negate(Box::new(expr_model(*a))),
        Expr::Number(n) => ExprModel::Number(n@),
        Expr::String(n) => ExprModel::String(n@),
        Expr::Variable(n) => ExprModel::Variable(n@),
        Expr::Step(st) => ExprModel::Step(Box::new(step_model(*st))),
    }
}

/// The model of a location step.
pub open spec fn step_model(st: Step) -> StepModel
    decreases st,
{
    StepModel {
        axis: st.axis,
        test: test_model(st.node_test),
        predicates: exprs_model(st.predicates@),
    }
}

/// The models of a list of expressions.
pub open spec fn exprs_model(v: Seq<Expr>) -> Seq<ExprModel>
    decreases v,
{
    if v.len() == 0 {
        seq![]
    } else {
        exprs_model(v.subrange(0, v.len() - 1)).push(expr_model(v[v.len() - 1]))
    }
}

// =============================================================================
// The grammar
// =============================================================================
/// The token at position `p` (the end beyond the last one).
pub open spec fn tok(t: Seq<TokenModel>, p: int) -> TokenModel {
    if 0 <= p < t.len() {
        t[p]
    } else {
        TokenModel::Eof
    }
}

/// The position after the token at `p` (the end stays the end).
pub open spec fn adv(t: Seq<TokenModel>, p: int) -> int {
    if p < t.len() {
        p + 1
    } else {
        p
    }
}

/// `q` lies between `p` and the end. Parsing never moves back, so this holds of every
/// position a parse ends at; it is tested where the grammar goes on from such a
/// position, which makes the recursion evidently finite.
pub open spec fn moved(t: Seq<TokenModel>, p: int, q: int) -> bool {
    p <= q <= t.len()
}

/// The operator of binary level `lvl` (6: or, 5: and, 4: equality, 3: relational,
/// 2: additive, 1: multiplicative) that a token stands for.
pub open spec fn op_at(lvl: int, k: TokenModel) -> Option<BinaryOp> {
    if lvl == 6 {
        if k == TokenModel::Or { Some(BinaryOp::Or) } else { None }
    } else if lvl == 5 {
        if k == TokenModel::And { Some(BinaryOp::And) } else { None }
    } else if lvl == 4 {
        if k == TokenModel::Eq {
            Some(BinaryOp::Eq)
        } else if k == TokenModel::NotEq {
            Some(BinaryOp::NotEq)
        } else {
            None
        }
    } else if lvl == 3 {
        if k == TokenModel::Lt {
            Some(BinaryOp::Lt)
        } else if k == TokenModel::LtEq {
            Some(BinaryOp::LtEq)
        } else if k == TokenModel::Gt {
            Some(BinaryOp::Gt)
        } else if k == TokenModel::GtEq {
            Some(BinaryOp::GtEq)
        } else {
            None
        }
    } else if lvl == 2 {
        if k == TokenModel::Plus {
            Some(BinaryOp::Add)
        } else if k == TokenModel::Minus {
            Some(BinaryOp::Sub)
        } else {
            None
        }
    } else if lvl == 1 {
        if k == TokenModel::Star {
            Some(BinaryOp::Mul)
        } else if k == TokenModel::Div {
            Some(BinaryOp::Div)
        } else if k == TokenModel::Mod {
            Some(BinaryOp::Mod)
        } else {
            None
        }
    } else {
        None
    }
}

/// The text of a string in a token's debug form: quotes, backslashes and line breaks
/// and tabs escaped.
pub open spec fn esc(s: Seq<char>) -> Seq<char>
    decreases s.len(),
{
    if s.len() == 0 {
        seq![]
    } else {
        let c = s.last();
        esc(s.drop_last()) + if c == '"' {
            seq!['\\', '"']
        } else if c == '\\' {
            seq!['\\', '\\']
        } else if c == '\n' {
            seq!['\\', 'n']
        } else if c == '\r' {
            seq!['\\', 'r']
        } else if c == '\t' {
            seq!['\\', 't']
        } else {
            seq![c]
        }
    }
}

/// A variant name with its text in parentheses and quotes.
pub open spec fn with_text(name: Seq<char>, s: Seq<char>) -> Seq<char> {
    name + "(\""@ + esc(s) + "\")"@
}

/// The debug form of a token, as an error message shows it.
pub open spec fn token_text(k: TokenModel) -> Seq<char> {
    match k {
        TokenModel::Slash => "Slash"@,
        TokenModel::DoubleSlash => "DoubleSlash"@,
        TokenModel::Dot => "Dot"@,
        TokenModel::DoubleDot => "DoubleDot"@,
        TokenModel::At => "At"@,
        TokenModel::Pipe => "Pipe"@,
        TokenModel::Plus => "Plus"@,
        TokenModel::Minus => "Minus"@,
        TokenModel::Star => "Star"@,
        TokenModel::Eq => "Eq"@,
        TokenModel::NotEq => "NotEq"@,
        TokenModel::Lt => "Lt"@,
        TokenModel::LtEq => "LtEq"@,
        TokenModel::Gt => "Gt"@,
        TokenModel::GtEq => "GtEq"@,
        TokenModel::And => "And"@,
        TokenModel::Or => "Or"@,
        TokenModel::Mod => "Mod"@,
        TokenModel::Div => "Div"@,
        TokenModel::LeftParen => "LeftParen"@,
        TokenModel::RightParen => "RightParen"@,
        TokenModel::LeftBracket => "LeftBracket"@,
        TokenModel::RightBracket => "RightBracket"@,
        TokenModel::Number(s) => with_text("Number"@, s),
        TokenModel::String(s) => with_text("String"@, s),
        TokenModel::Name(s) => with_text("Name"@, s),
        TokenModel::NameTest(s) => with_text("NameTest"@, s),
        TokenModel::NodeType(s) => with_text("NodeType"@, s),
        TokenModel::Axis(s) => with_text("Axis"@, s),
        TokenModel::DoubleColon => "DoubleColon"@,
        TokenModel::Comma => "Comma"@,
        TokenModel::Dollar => "Dollar"@,
        TokenModel::Eof => "Eof"@,
    }
}

/// The node test that a node type names (`node`, `text`, `comment`,
/// `processing-instruction` with its optional literal).
pub open spec fn node_type_test(n: Seq<char>, arg: Option<Seq<char>>) -> Option<NodeTestModel> {
    if n == "node"@ {
        Some(NodeTestModel::Node)
    } else if n == "text"@ {
        Some(NodeTestModel::Text)
    } else if n == "comment"@ {
        Some(NodeTestModel::Comment)
    } else if n == "processing-instruction"@ {
        Some(NodeTestModel::ProcessingInstruction(arg))
    } else {
        None
    }
}

/// The position of the first `:` of a name, or -1.
pub open spec fn first_colon(s: Seq<char>) -> int
    decreases s.len(),
{
    if s.len() == 0 {
        -1
    } else if s[0] == ':' {
        0
    } else if first_colon(s.drop_first()) < 0 {
        -1
    } else {
        1 + first_colon(s.drop_first())
    }
}

/// The node test of a qualified name token: `p:*`, `p:local`, or a plain name.
pub open spec fn name_test_of(q: Seq<char>) -> NodeTestModel {
    if q.len() >= 2 && q[q.len() - 2] == ':' && q[q.len() - 1] == '*' {
        NodeTestModel::NamespaceWildcard(q.take(q.len() - 2))
    } else if first_colon(q) >= 0 {
        NodeTestModel::QName(q.take(first_colon(q)), q.skip(first_colon(q) + 1))
    } else {
        NodeTestModel::Name(q)
    }
}

/// The `descendant-or-self::node()` step that `//` stands for.
pub open spec fn desc_step() -> StepModel {
    StepModel { axis: Axis::DescendantOrSelf, test: NodeTestModel::Node, predicates: seq![] }
}

/// An expression from position `p`: an `or` expression.
pub open spec fn p_expr(t: Seq<TokenModel>, p: int) -> Result<(ExprModel, int), Seq<char>>
    decreases t.len() - p, 100int,
{
    if !moved(t, 0, p) {
        Err(seq![])
    } else {
        p_binary(t, p, 6)
    }
}

/// A left-associative chain of operands of level `lvl - 1` (unary expressions below
/// level 1) joined by operators of level `lvl`.
pub open spec fn p_binary(t: Seq<TokenModel>, p: int, lvl: int) -> Result<(ExprModel, int), Seq<char>>
    decreases t.len() - p, 21 + 2 * lvl,
{
    if !moved(t, 0, p) || lvl < 1 || lvl > 6 {
        Err(seq![])
    } else {
        let sub = if lvl == 1 {
            p_unary(t, p)
        } else {
            p_binary(t, p, lvl - 1)
        };
        match sub {
            Err(m) => Err(m),
            Ok((e, q)) => if moved(t, p, q) {
                p_binary_rest(t, q, lvl, e)
            } else {
                Err(seq![])
            },
        }
    }
}

/// The rest of a chain of level `lvl` after its left part `left`.
pub open spec fn p_binary_rest(t: Seq<TokenModel>, q: int, lvl: int, left: ExprModel) -> Result<
    (ExprModel, int),
    Seq<char>,
>
    decreases t.len() - q, 20 + 2 * lvl,
{
    if !moved(t, 0, q) || lvl < 1 || lvl > 6 {
        Err(seq![])
    } else {
        match op_at(lvl, tok(t, q)) {
            Some(op) => {
                let q1 = adv(t, q);
                let sub = if lvl == 1 {
                    p_unary(t, q1)
                } else {
                    p_binary(t, q1, lvl - 1)
                };
                match sub {
                    Err(m) => Err(m),
                    Ok((r, q2)) => if moved(t, q1, q2) {
                        p_binary_rest(
                            t,
                            q2,
                            lvl,
                            ExprModel::Binary(Box::new(left), op, Box::new(r)),
                        )
                    } else {
                        Err(seq![])
                    },
                }
            },
            None => Ok((left, q)),
        }
    }
}

/// A unary expression: `-` before a unary expression, or a union.
pub open spec fn p_unary(t: Seq<TokenModel>, p: int) -> Result<(ExprModel, int), Seq<char>>
    decreases t.len() - p, 19int,
{
    if !moved(t, 0, p) {
        Err(seq![])
    } else if tok(t, p) == TokenModel::Minus {
        match p_unary(t, adv(t, p)) {
            Ok((e, q)) => Ok((ExprModel::Negate(Box::new(e)), q)),
            Err(m) => Err(m),
        }
    } else {
        p_union(t, p)
    }
}

/// Path expressions joined by `|`.
pub open spec fn p_union(t: Seq<TokenModel>, p: int) -> Result<(ExprModel, int), Seq<char>>
    decreases t.len() - p, 18int,
{
    if !moved(t, 0, p) {
        Err(seq![])
    } else {
        match p_path(t, p) {
            Err(m) => Err(m),
            Ok((e, q)) => if moved(t, p, q) {
                p_union_rest(t, q, e)
            } else {
                Err(seq![])
            },
        }
    }
}

/// The rest of a union after its left part.
pub open spec fn p_union_rest(t: Seq<TokenModel>, q: int, left: ExprModel) -> Result<
    (ExprModel, int),
    Seq<char>,
>
    decreases t.len() - q, 17int,
{
    if !moved(t, 0, q) {
        Err(seq![])
    } else if tok(t, q) == TokenModel::Pipe {
        let q1 = adv(t, q);
        match p_path(t, q1) {
            Err(m) => Err(m),
            Ok((r, q2)) => if moved(t, q1, q2) {
                p_union_rest(t, q2, ExprModel::Union(Box::new(left), Box::new(r)))
            } else {
                Err(seq![])
            },
        }
    } else {
        Ok((left, q))
    }
}

/// Whether a token ends an expression (after a lone `/`).
pub open spec fn ends_expr(k: TokenModel) -> bool {
    k == TokenModel::Eof || k == TokenModel::RightBracket || k == TokenModel::RightParen || k
        == TokenModel::Pipe || k == TokenModel::Comma
}

/// A path expression: `/` alone, `/step...`, `//step...`, or a filter expression.
pub open spec fn p_path(t: Seq<TokenModel>, p: int) -> Result<(ExprModel, int), Seq<char>>
    decreases t.len() - p, 16int,
{
    if !moved(t, 0, p) {
        Err(seq![])
    } else if tok(t, p) == TokenModel::Slash {
        let q = adv(t, p);
        if ends_expr(tok(t, q)) {
            Ok((ExprModel::Root, q))
        } else {
            match p_step(t, q, Axis::Child) {
                Err(m) => Err(m),
                Ok((st, q2)) => if moved(t, q, q2) {
                    p_continue(t, q2, ExprModel::Path(Box::new(ExprModel::Root), Box::new(st)))
                } else {
                    Err(seq![])
                },
            }
        }
    } else if tok(t, p) == TokenModel::DoubleSlash {
        let q = adv(t, p);
        match p_step(t, q, Axis::Child) {
            Err(m) => Err(m),
            Ok((st, q2)) => if moved(t, q, q2) {
                p_continue(
                    t,
                    q2,
                    ExprModel::Path(
                        Box::new(ExprModel::Path(Box::new(ExprModel::Root), Box::new(desc_step()))),
                        Box::new(st),
                    ),
                )
            } else {
                Err(seq![])
            },
        }
    } else {
        p_filter(t, p)
    }
}

/// A primary expression followed by predicates and steps.
pub open spec fn p_filter(t: Seq<TokenModel>, p: int) -> Result<(ExprModel, int), Seq<char>>
    decreases t.len() - p, 15int,
{
    if !moved(t, 0, p) {
        Err(seq![])
    } else {
        match p_primary(t, p) {
            Err(m) => Err(m),
            Ok((e, q)) => if moved(t, p, q) {
                p_continue(t, q, e)
            } else {
                Err(seq![])
            },
        }
    }
}

/// Predicates `[expr]`, `/step` and `//step` after expression `e`, in any order.
pub open spec fn p_continue(t: Seq<TokenModel>, q: int, e: ExprModel) -> Result<
    (ExprModel, int),
    Seq<char>,
>
    decreases t.len() - q, 14int,
{
    if !moved(t, 0, q) {
        Err(seq![])
    } else if tok(t, q) == TokenModel::LeftBracket {
        let q1 = adv(t, q);
        match p_expr(t, q1) {
            Err(m) => Err(m),
            Ok((pred, q2)) => if moved(t, q1, q2) {
                if tok(t, q2) == TokenModel::RightBracket {
                    p_continue(t, adv(t, q2), ExprModel::Filter(Box::new(e), Box::new(pred)))
                } else {
                    Err("Expected ]"@)
                }
            } else {
                Err(seq![])
            },
        }
    } else if tok(t, q) == TokenModel::Slash {
        let q1 = adv(t, q);
        match p_step(t, q1, Axis::Child) {
            Err(m) => Err(m),
            Ok((st, q2)) => if moved(t, q1, q2) {
                p_continue(t, q2, ExprModel::Path(Box::new(e), Box::new(st)))
            } else {
                Err(seq![])
            },
        }
    } else if tok(t, q) == TokenModel::DoubleSlash {
        let q1 = adv(t, q);
        match p_step(t, q1, Axis::Child) {
            Err(m) => Err(m),
            Ok((st, q2)) => if moved(t, q1, q2) {
                p_continue(
                    t,
                    q2,
                    ExprModel::Path(
                        Box::new(ExprModel::Path(Box::new(e), Box::new(desc_step()))),
                        Box::new(st),
                    ),
                )
            } else {
                Err(seq![])
            },
        }
    } else {
        Ok((e, q))
    }
}

/// The optional string literal after `node-type(`, and the position after it.
pub open spec fn type_arg(t: Seq<TokenModel>, q: int) -> (Option<Seq<char>>, int) {
    match tok(t, q) {
        TokenModel::String(s) => (Some(s), adv(t, q)),
        _ => (None, q),
    }
}

/// A primary expression: a literal, a variable, a parenthesized expression, a function
/// call, or a location step.
pub open spec fn p_primary(t: Seq<TokenModel>, p: int) -> Result<(ExprModel, int), Seq<char>>
    decreases t.len() - p, 13int,
{
    if !moved(t, 0, p) {
        Err(seq![])
    } else {
        match tok(t, p) {
            TokenModel::Number(n) => Ok((ExprModel::Number(n), adv(t, p))),
            TokenModel::String(s) => Ok((ExprModel::String(s), adv(t, p))),
            TokenModel::Dollar => {
                let q = adv(t, p);
                match tok(t, q) {
                    TokenModel::Name(n) => Ok((ExprModel::Variable(n), adv(t, q))),
                    _ => Err("Expected variable name"@),
                }
            },
            TokenModel::LeftParen => {
                let q = adv(t, p);
                match p_expr(t, q) {
                    Err(m) => Err(m),
                    Ok((e, q2)) => if moved(t, q, q2) {
                        if tok(t, q2) == TokenModel::RightParen {
                            Ok((e, adv(t, q2)))
                        } else {
                            Err("Expected )"@)
                        }
                    } else {
                        Err(seq![])
                    },
                }
            },
            TokenModel::Name(n) => if tok(t, adv(t, p)) == TokenModel::LeftParen {
                match p_args(t, adv(t, adv(t, p))) {
                    Err(m) => Err(m),
                    Ok((args, q)) => Ok((ExprModel::Function(n, args), q)),
                }
            } else {
                match p_step(t, p, Axis::Child) {
                    Err(m) => Err(m),
                    Ok((st, q)) => Ok((ExprModel::Step(Box::new(st)), q)),
                }
            },
            TokenModel::NodeType(n) => {
                let a = type_arg(t, adv(t, adv(t, p)));
                if tok(t, a.1) != TokenModel::RightParen {
                    Err("Expected )"@)
                } else {
                    match node_type_test(n, a.0) {
                        Some(nt) => Ok(
                            (
                                ExprModel::Step(
                                    Box::new(
                                        StepModel {
                                            axis: Axis::Child,
                                            test: nt,
                                            predicates: seq![],
                                        },
                                    ),
                                ),
                                adv(t, a.1),
                            ),
                        ),
                        None => Err("Unknown node type: "@ + n),
                    }
                }
            },
            TokenModel::Star => Ok(
                (
                    ExprModel::Step(
                        Box::new(
                            StepModel { axis: Axis::Child, test: NodeTestModel::Any, predicates: seq![] },
                        ),
                    ),
                    adv(t, p),
                ),
            ),
            TokenModel::At => match p_step(t, adv(t, p), Axis::Attribute) {
                Err(m) => Err(m),
                Ok((st, q)) => Ok((ExprModel::Step(Box::new(st)), q)),
            },
            TokenModel::Dot => Ok((ExprModel::Context, adv(t, p))),
            TokenModel::DoubleDot => Ok((ExprModel::Parent, adv(t, p))),
            TokenModel::Axis(a) => match axis_named(a) {
                None => Err("Unknown axis: "@ + a),
                Some(ax) => {
                    let q = adv(t, p);
                    if tok(t, q) != TokenModel::DoubleColon {
                        Err("Expected ::"@)
                    } else {
                        match p_step(t, adv(t, q), ax) {
                            Err(m) => Err(m),
                            Ok((st, q2)) => Ok((ExprModel::Step(Box::new(st)), q2)),
                        }
                    }
                }
            },
            k => Err("Unexpected token: "@ + token_text(k)),
        }
    }
}

/// A location step on axis `axis`, unless an `@` or an explicit axis gives another.
pub open spec fn p_step(t: Seq<TokenModel>, p: int, axis: Axis) -> Result<(StepModel, int), Seq<char>>
    decreases t.len() - p, 12int,
{
    if !moved(t, 0, p) {
        Err(seq![])
    } else {
        let ax1 = if tok(t, p) == TokenModel::At {
            Axis::Attribute
        } else {
            axis
        };
        let p1 = if tok(t, p) == TokenModel::At {
            adv(t, p)
        } else {
            p
        };
        match tok(t, p1) {
            TokenModel::Axis(a) => match axis_named(a) {
                None => Err("Unknown axis: "@ + a),
                Some(ax) => {
                    let q = adv(t, p1);
                    if tok(t, q) != TokenModel::DoubleColon {
                        Err("Expected :: after axis"@)
                    } else {
                        p_step_test(t, adv(t, q), ax)
                    }
                },
            },
            _ => p_step_test(t, p1, ax1),
        }
    }
}

/// The node test of a step and its predicates.
pub open spec fn p_step_test(t: Seq<TokenModel>, p: int, axis: Axis) -> Result<
    (StepModel, int),
    Seq<char>,
>
    decreases t.len() - p, 11int,
{
    if !moved(t, 0, p) {
        Err(seq![])
    } else {
        match tok(t, p) {
            TokenModel::Star => p_preds(t, adv(t, p), axis, NodeTestModel::Any, seq![]),
            TokenModel::Name(n) => p_preds(t, adv(t, p), axis, NodeTestModel::Name(n), seq![]),
            TokenModel::NameTest(q) => p_preds(t, adv(t, p), axis, name_test_of(q), seq![]),
            TokenModel::NodeType(n) => {
                let a = type_arg(t, adv(t, adv(t, p)));
                if tok(t, a.1) != TokenModel::RightParen {
                    Err("Expected )"@)
                } else {
                    match node_type_test(n, a.0) {
                        Some(nt) => p_preds(t, adv(t, a.1), axis, nt, seq![]),
                        None => Err("Unknown node type: "@ + n),
                    }
                }
            },
            k => Err("Expected node test, got "@ + token_text(k)),
        }
    }
}

/// The predicates `[expr]` of a step, after those in `preds`.
pub open spec fn p_preds(
    t: Seq<TokenModel>,
    q: int,
    axis: Axis,
    test: NodeTestModel,
    preds: Seq<ExprModel>,
) -> Result<(StepModel, int), Seq<char>>
    decreases t.len() - q, 10int,
{
    if !moved(t, 0, q) {
        Err(seq![])
    } else if tok(t, q) == TokenModel::LeftBracket {
        let q1 = adv(t, q);
        match p_expr(t, q1) {
            Err(m) => Err(m),
            Ok((e, q2)) => if moved(t, q1, q2) {
                if tok(t, q2) == TokenModel::RightBracket {
                    p_preds(t, adv(t, q2), axis, test, preds.push(e))
                } else {
                    Err("Expected ]"@)
                }
            } else {
                Err(seq![])
            },
        }
    } else {
        Ok((StepModel { axis, test, predicates: preds }, q))
    }
}

/// The arguments of a function call, after its `(`, through its `)`.
pub open spec fn p_args(t: Seq<TokenModel>, q: int) -> Result<(Seq<ExprModel>, int), Seq<char>>
    decreases t.len() - q, 102int,
{
    if !moved(t, 0, q) {
        Err(seq![])
    } else if tok(t, q) != TokenModel::RightParen {
        match p_expr(t, q) {
            Err(m) => Err(m),
            Ok((e, q2)) => if moved(t, q, q2) {
                p_args_rest(t, q2, seq![e])
            } else {
                Err(seq![])
            },
        }
    } else {
        Ok((seq![], adv(t, q)))
    }
}

/// The arguments after `args`: `, expr` while a comma follows, then the `)`.
pub open spec fn p_args_rest(t: Seq<TokenModel>, q: int, args: Seq<ExprModel>) -> Result<
    (Seq<ExprModel>, int),
    Seq<char>,
>
    decreases t.len() - q, 101int,
{
    if !moved(t, 0, q) {
        Err(seq![])
    } else if tok(t, q) == TokenModel::Comma {
        let q1 = adv(t, q);
        match p_expr(t, q1) {
            Err(m) => Err(m),
            Ok((e, q2)) => if moved(t, q1, q2) {
                p_args_rest(t, q2, args.push(e))
            } else {
                Err(seq![])
            },
        }
    } else if tok(t, q) != TokenModel::RightParen {
        Err("Expected )"@)
    } else {
        Ok((args, adv(t, q)))
    }
}

/// What parsing the tokens `t` gives: the expression at their start (what follows it
/// is not read).
pub open spec fn spec_parse(t: Seq<TokenModel>) -> Result<ExprModel, Seq<char>> {
    match p_expr(t, 0) {
        Ok((e, _)) => Ok(e),
        Err(m) => Err(m),
    }
}

/// The parse after an operator of binary level `lvl` at `q`: the right operand (a unary
/// expression at the multiplicative level, else an expression of the next tighter
/// level) after the operator, combined with `left` by `op`, and then the rest of the
/// level.
pub open spec fn after_operator(t: Seq<TokenModel>, q: int, lvl: int, left: ExprModel, op: BinaryOp) -> Result<
    (ExprModel, int),
    Seq<char>,
> {
    let q1 = adv(t, q);
    let sub = if lvl == 1 {
        p_unary(t, q1)
    } else {
        p_binary(t, q1, lvl - 1)
    };
    match sub {
        Err(m) => Err(m),
        Ok((r, q2)) => if moved(t, q1, q2) {
            p_binary_rest(t, q2, lvl, ExprModel::Binary(Box::new(left), op, Box::new(r)))
        } else {
            Err(seq![])
        },
    }
}

/// Each binary operator token combines the operands with the operator it spells, at its
/// own level (6 `or`, 5 `and`, 4 `=` `!=`, 3 `<` `<=` `>` `>=`, 2 `+` `-`, 1 `*` `div`
/// `mod`): `a < b` is `Binary(a, Lt, b)`, `a > b` is `Binary(a, Gt, b)`, and so on; at a
/// level, a token that is none of its operators ends the level with what was parsed.
pub proof fn law_binary_operators(t: Seq<TokenModel>, q: int, left: ExprModel)
    requires
        0 <= q <= t.len(),
    ensures
        tok(t, q) == TokenModel::Or ==> p_binary_rest(t, q, 6, left) == after_operator(t, q, 6, left, BinaryOp::Or),
        tok(t, q) == TokenModel::And ==> p_binary_rest(t, q, 5, left) == after_operator(t, q, 5, left, BinaryOp::And),
        tok(t, q) == TokenModel::Eq ==> p_binary_rest(t, q, 4, left) == after_operator(t, q, 4, left, BinaryOp::Eq),
        tok(t, q) == TokenModel::NotEq ==> p_binary_rest(t, q, 4, left) == after_operator(t, q, 4, left, BinaryOp::NotEq),
        tok(t, q) == TokenModel::Lt ==> p_binary_rest(t, q, 3, left) == after_operator(t, q, 3, left, BinaryOp::Lt),
        tok(t, q) == TokenModel::LtEq ==> p_binary_rest(t, q, 3, left) == after_operator(t, q, 3, left, BinaryOp::LtEq),
        tok(t, q) == TokenModel::Gt ==> p_binary_rest(t, q, 3, left) == after_operator(t, q, 3, left, BinaryOp::Gt),
        tok(t, q) == TokenModel::GtEq ==> p_binary_rest(t, q, 3, left) == after_operator(t, q, 3, left, BinaryOp::GtEq),
        tok(t, q) == TokenModel::Plus ==> p_binary_rest(t, q, 2, left) == after_operator(t, q, 2, left, BinaryOp::Add),
        tok(t, q) == TokenModel::Minus ==> p_binary_rest(t, q, 2, left) == after_operator(t, q, 2, left, BinaryOp::Sub),
        tok(t, q) == TokenModel::Star ==> p_binary_rest(t, q, 1, left) == after_operator(t, q, 1, left, BinaryOp::Mul),
        tok(t, q) == TokenModel::Div ==> p_binary_rest(t, q, 1, left) == after_operator(t, q, 1, left, BinaryOp::Div),
        tok(t, q) == TokenModel::Mod ==> p_binary_rest(t, q, 1, left) == after_operator(t, q, 1, left, BinaryOp::Mod),
        tok(t, q) != TokenModel::Lt && tok(t, q) != TokenModel::LtEq && tok(t, q) != TokenModel::Gt
            && tok(t, q) != TokenModel::GtEq ==> p_binary_rest(t, q, 3, left) == Ok::<(ExprModel, int), Seq<char>>((left, q)),
        tok(t, q) != TokenModel::Eq && tok(t, q) != TokenModel::NotEq ==> p_binary_rest(t, q, 4, left)
            == Ok::<(ExprModel, int), Seq<char>>((left, q)),
{
}

// =============================================================================
// The parser
// =============================================================================
/// The tokens end with the end token.
pub open spec fn ended(v: Seq<Token>) -> bool {
    v.len() >= 1 && v.last()@ == TokenModel::Eof
}

/// The tokens before the end token.
pub open spec fn toks_of(v: Seq<Token>) -> Seq<TokenModel> {
    views(v).drop_last()
}

/// The parse result `r` is the grammar's result `s`.
pub open spec fn expr_res(r: Result<(Expr, usize), String>, s: Result<(ExprModel, int), Seq<char>>) -> bool {
    match r {
        Ok((e, q)) => s == Ok::<(ExprModel, int), Seq<char>>((expr_model(e), q as int)),
        Err(m) => s == Err::<(ExprModel, int), Seq<char>>(m@),
    }
}

/// The step result `r` is the grammar's result `s`.
pub open spec fn step_res(r: Result<(Step, usize), String>, s: Result<(StepModel, int), Seq<char>>) -> bool {
    match r {
        Ok((e, q)) => s == Ok::<(StepModel, int), Seq<char>>((step_model(e), q as int)),
        Err(m) => s == Err::<(StepModel, int), Seq<char>>(m@),
    }
}

/// The argument result `r` is the grammar's result `s`.
pub open spec fn args_res(r: Result<(Vec<Expr>, usize), String>, s: Result<(Seq<ExprModel>, int), Seq<char>>) -> bool {
    match r {
        Ok((e, q)) => s == Ok::<(Seq<ExprModel>, int), Seq<char>>((exprs_model(e@), q as int)),
        Err(m) => s == Err::<(Seq<ExprModel>, int), Seq<char>>(m@),
    }
}

proof fn lemma_tok(v: Seq<Token>, p: int)
    requires
        ended(v),
        0 <= p < v.len(),
    ensures
        v[p]@ == tok(toks_of(v), p),
{
}

proof fn lemma_exprs_push(v: Seq<Expr>, e: Expr)
    ensures
        exprs_model(v.push(e)) == exprs_model(v).push(expr_model(e)),
{
    assert(v.push(e).subrange(0, v.len() as int) =~= v);
}

fn adv_at(t: &Vec<Token>, p: usize) -> (r: usize)
    requires
        ended(t@),
        p < t@.len(),
    ensures
        r == adv(toks_of(t@), p as int),
        p <= r < t@.len(),
{
    if p < t.len() - 1 {
        p + 1
    } else {
        p
    }
}

fn msg(s: &str) -> (r: String)
    ensures
        r@ == s@,
{
    String::from_str(s)
}

fn msg_with(s: &str, t: &String) -> (r: String)
    ensures
        r@ == s@ + t@,
{
    let mut m = String::from_str(s);
    m.append(t.as_str());
    m
}

/// The escaped text of a string in a token's debug form.
fn escape_text(s: &String) -> (r: String)
    ensures
        r@ == esc(s@),
{
    let cs = chars_of(s.as_str());
    let mut out: Vec<char> = Vec::new();
    let mut i: usize = 0;
    while i < cs.len()
        invariant
            i <= cs@.len(),
            cs@ == s@,
            out@ == esc(cs@.take(i as int)),
        decreases cs.len() - i,
    {
        let c = cs[i];
        assert(cs@.take(i + 1).drop_last() =~= cs@.take(i as int));
        if c == '"' {
            out.push('\\');
            out.push('"');
        } else if c == '\\' {
            out.push('\\');
            out.push('\\');
        } else if c == '\n' {
            out.push('\\');
            out.push('n');
        } else if c == '\r' {
            out.push('\\');
            out.push('r');
        } else if c == '\t' {
            out.push('\\');
            out.push('t');
        } else {
            out.push(c);
        }
        proof {
            let o = esc(cs@.take(i as int));
            assert(esc(cs@.take(i + 1)) == o + (if c == '"' {
                seq!['\\', '"']
            } else if c == '\\' {
                seq!['\\', '\\']
            } else if c == '\n' {
                seq!['\\', 'n']
            } else if c == '\r' {
                seq!['\\', 'r']
            } else if c == '\t' {
                seq!['\\', 't']
            } else {
                seq![c]
            }));
            assert(out@ =~= esc(cs@.take(i + 1)));
        }
        i += 1;
    }
    assert(cs@.take(cs@.len() as int) =~= cs@);
    string_of(out.as_slice())
}

fn text_form(name: &str, s: &String) -> (r: String)
    ensures
        r@ == with_text(name@, s@),
{
    let mut m = String::from_str(name);
    m.append("(\"");
    let e = escape_text(s);
    m.append(e.as_str());
    m.append("\")");
    m
}

/// The debug form of a token.
fn token_debug(k: &Token) -> (r: String)
    ensures
        r@ == token_text(k@),
{
    match k {
        Token::Slash => msg("Slash"),
        Token::DoubleSlash => msg("DoubleSlash"),
        Token::Dot => msg("Dot"),
        Token::DoubleDot => msg("DoubleDot"),
        Token::At => msg("At"),
        Token::Pipe => msg("Pipe"),
        Token::Plus => msg("Plus"),
        Token::Minus => msg("Minus"),
        Token::Star => msg("Star"),
        Token::Eq => msg("Eq"),
        Token::NotEq => msg("NotEq"),
        Token::Lt => msg("Lt"),
        Token::LtEq => msg("LtEq"),
        Token::Gt => msg("Gt"),
        Token::GtEq => msg("GtEq"),
        Token::And => msg("And"),
        Token::Or => msg("Or"),
        Token::Mod => msg("Mod"),
        Token::Div => msg("Div"),
        Token::LeftParen => msg("LeftParen"),
        Token::RightParen => msg("RightParen"),
        Token::LeftBracket => msg("LeftBracket"),
        Token::RightBracket => msg("RightBracket"),
        Token::Number(s) => text_form("Number", s),
        Token::String(s) => text_form("String", s),
        Token::Name(s) => text_form("Name", s),
        Token::NameTest(s) => text_form("NameTest", s),
        Token::NodeType(s) => text_form("NodeType", s),
        Token::Axis(s) => text_form("Axis", s),
        Token::DoubleColon => msg("DoubleColon"),
        Token::Comma => msg("Comma"),
        Token::Dollar => msg("Dollar"),
        Token::Eof => msg("Eof"),
    }
}

/// The operator of binary level `lvl` that the token stands for.
fn op_of(lvl: u8, k: &Token) -> (r: Option<BinaryOp>)
    ensures
        r == op_at(lvl as int, k@),
{
    match k {
        Token::Or => if lvl == 6 { Some(BinaryOp::Or) } else { None },
        Token::And => if lvl == 5 { Some(BinaryOp::And) } else { None },
        Token::Eq => if lvl == 4 { Some(BinaryOp::Eq) } else { None },
        Token::NotEq => if lvl == 4 { Some(BinaryOp::NotEq) } else { None },
        Token::Lt => if lvl == 3 { Some(BinaryOp::Lt) } else { None },
        Token::LtEq => if lvl == 3 { Some(BinaryOp::LtEq) } else { None },
        Token::Gt => if lvl == 3 { Some(BinaryOp::Gt) } else { None },
        Token::GtEq => if lvl == 3 { Some(BinaryOp::GtEq) } else { None },
        Token::Plus => if lvl == 2 { Some(BinaryOp::Add) } else { None },
        Token::Minus => if lvl == 2 { Some(BinaryOp::Sub) } else { None },
        Token::Star => if lvl == 1 { Some(BinaryOp::Mul) } else { None },
        Token::Div => if lvl == 1 { Some(BinaryOp::Div) } else { None },
        Token::Mod => if lvl == 1 { Some(BinaryOp::Mod) } else { None },
        _ => None,
    }
}

fn node_type_of(n: &String, arg: Option<String>) -> (r: Option<NodeTest>)
    ensures
        match r {
            Some(nt) => node_type_test(n@, opt_chars(arg)) == Some(test_model(nt)),
            None => node_type_test(n@, opt_chars(arg)) is None,
        },
{
    if str_eq(n.as_str(), "node") {
        Some(NodeTest::Node)
    } else if str_eq(n.as_str(), "text") {
        Some(NodeTest::Text)
    } else if str_eq(n.as_str(), "comment") {
        Some(NodeTest::Comment)
    } else if str_eq(n.as_str(), "processing-instruction") {
        Some(NodeTest::ProcessingInstruction(arg))
    } else {
        None
    }
}

/// The node test of a qualified name token.
fn name_test(q: &String) -> (r: NodeTest)
    ensures
        test_model(r) == name_test_of(q@),
{
    let cs = chars_of(q.as_str());
    let n = cs.len();
    if n >= 2 && cs[n - 2] == ':' && cs[n - 1] == '*' {
        let a = string_of(&cs.as_slice()[0..n - 2]);
        assert(cs@.subrange(0, n - 2) =~= q@.take(n - 2));
        return NodeTest::NamespaceWildcard(a);
    }
    let mut k: usize = 0;
    while k < n && cs[k] != ':'
        invariant
            k <= n,
            n == cs@.len(),
            cs@ == q@,
            forall|j: int| 0 <= j < k ==> cs@[j] != ':',
        decreases n - k,
    {
        k += 1;
    }
    proof {
        lemma_first_colon(q@, k as int);
    }
    if k < n {
        let a = string_of(&cs.as_slice()[0..k]);
        let b = string_of(&cs.as_slice()[k + 1..n]);
        assert(cs@.subrange(0, k as int) =~= q@.take(k as int));
        assert(cs@.subrange(k + 1, n as int) =~= q@.skip(k + 1));
        NodeTest::QName(a, b)
    } else {
        NodeTest::Name(q.clone())
    }
}

proof fn lemma_first_colon(s: Seq<char>, k: int)
    requires
        0 <= k <= s.len(),
        forall|j: int| 0 <= j < k ==> s[j] != ':',
        k == s.len() || s[k] == ':',
    ensures
        first_colon(s) == (if k < s.len() {
            k
        } else {
            -1
        }),
    decreases k,
{
    if k > 0 {
        lemma_first_colon(s.drop_first(), k - 1);
    }
}

/// The optional string literal after `node-type(` and the position after it.
fn type_arg_at(t: &Vec<Token>, q: usize) -> (r: (Option<String>, usize))
    requires
        ended(t@),
        q < t@.len(),
    ensures
        (opt_chars(r.0), r.1 as int) == type_arg(toks_of(t@), q as int),
        q <= r.1 < t@.len(),
{
    proof {
        lemma_tok(t@, q as int);
    }
    match &t[q] {
        Token::String(s) => (Some(s.clone()), adv_at(t, q)),
        _ => (None, q),
    }
}

/// Parse an expression from position `p`
pub fn parse_expr_at(t: &Vec<Token>, p: usize) -> (r: Result<(Expr, usize), String>)
    requires
        ended(t@),
        p < t@.len(),
    ensures
        expr_res(r, p_expr(toks_of(t@), p as int)),
        r matches Ok((_, q)) ==> p <= q < t@.len(),
    decreases t@.len() - p, 100int,
{
    parse_binary(t, p, 6)
}

fn parse_binary(t: &Vec<Token>, p: usize, lvl: u8) -> (r: Result<(Expr, usize), String>)
    requires
        ended(t@),
        p < t@.len(),
        1 <= lvl <= 6,
    ensures
        expr_res(r, p_binary(toks_of(t@), p as int, lvl as int)),
        r matches Ok((_, q)) ==> p <= q < t@.len(),
    decreases t@.len() - p, 21 + 2 * lvl,
{
    let sub = if lvl == 1 {
        parse_unary(t, p)
    } else {
        parse_binary(t, p, lvl - 1)
    };
    match sub {
        Err(m) => Err(m),
        Ok((e, q)) => parse_binary_rest(t, q, lvl, e),
    }
}

fn parse_binary_rest(t: &Vec<Token>, q: usize, lvl: u8, left: Expr) -> (r: Result<(Expr, usize), String>)
    requires
        ended(t@),
        q < t@.len(),
        1 <= lvl <= 6,
    ensures
        expr_res(r, p_binary_rest(toks_of(t@), q as int, lvl as int, expr_model(left))),
        r matches Ok((_, q2)) ==> q <= q2 < t@.len(),
    decreases t@.len() - q, 20 + 2 * lvl,
{
    proof {
        lemma_tok(t@, q as int);
    }
    match op_of(lvl, &t[q]) {
        Some(op) => {
            let q1 = adv_at(t, q);
            let sub = if lvl == 1 {
                parse_unary(t, q1)
            } else {
                parse_binary(t, q1, lvl - 1)
            };
            match sub {
                Err(m) => Err(m),
                Ok((r, q2)) => parse_binary_rest(
                    t,
                    q2,
                    lvl,
                    Expr::Binary(Box::new(left), op, Box::new(r)),
                ),
            }
        },
        None => Ok((left, q)),
    }
}

fn parse_unary(t: &Vec<Token>, p: usize) -> (r: Result<(Expr, usize), String>)
    requires
        ended(t@),
        p < t@.len(),
    ensures
        expr_res(r, p_unary(toks_of(t@), p as int)),
        r matches Ok((_, q)) ==> p <= q < t@.len(),
    decreases t@.len() - p, 19int,
{
    proof {
        lemma_tok(t@, p as int);
    }
    if let Token::Minus = &t[p] {
        let q1 = adv_at(t, p);
        match parse_unary(t, q1) {
            Ok((e, q)) => Ok((Expr::Negate(Box::new(e)), q)),
            Err(m) => Err(m),
        }
    } else {
        parse_union(t, p)
    }
}

fn parse_union(t: &Vec<Token>, p: usize) -> (r: Result<(Expr, usize), String>)
    requires
        ended(t@),
        p < t@.len(),
    ensures
        expr_res(r, p_union(toks_of(t@), p as int)),
        r matches Ok((_, q)) ==> p <= q < t@.len(),
    decreases t@.len() - p, 18int,
{
    match parse_path(t, p) {
        Err(m) => Err(m),
        Ok((e, q)) => parse_union_rest(t, q, e),
    }
}

fn parse_union_rest(t: &Vec<Token>, q: usize, left: Expr) -> (r: Result<(Expr, usize), String>)
    requires
        ended(t@),
        q < t@.len(),
    ensures
        expr_res(r, p_union_rest(toks_of(t@), q as int, expr_model(left))),
        r matches Ok((_, q2)) ==> q <= q2 < t@.len(),
    decreases t@.len() - q, 17int,
{
    proof {
        lemma_tok(t@, q as int);
    }
    if let Token::Pipe = &t[q] {
        let q1 = adv_at(t, q);
        match parse_path(t, q1) {
            Err(m) => Err(m),
            Ok((r, q2)) => parse_union_rest(t, q2, Expr::Union(Box::new(left), Box::new(r))),
        }
    } else {
        Ok((left, q))
    }
}

fn descendant_step() -> (r: Step)
    ensures
        step_model(r) == desc_step(),
{
    let r = Step { axis: Axis::DescendantOrSelf, node_test: NodeTest::Node, predicates: Vec::new() };
    assert(exprs_model(r.predicates@) =~= Seq::<ExprModel>::empty());
    r
}

fn parse_path(t: &Vec<Token>, p: usize) -> (r: Result<(Expr, usize), String>)
    requires
        ended(t@),
        p < t@.len(),
    ensures
        expr_res(r, p_path(toks_of(t@), p as int)),
        r matches Ok((_, q)) ==> p <= q < t@.len(),
    decreases t@.len() - p, 16int,
{
    proof {
        lemma_tok(t@, p as int);
    }
    match &t[p] {
        Token::Slash => path_from_root(t, p),
        Token::DoubleSlash => path_from_descendants(t, p),
        _ => parse_filter(t, p),
    }
}

/// Whether `k` ends an expression, so that a `/` before it stands alone.
fn ends_at(k: &Token) -> (b: bool)
    ensures
        b == ends_expr(k@),
{
    match k {
        Token::Eof | Token::RightBracket | Token::RightParen | Token::Pipe | Token::Comma => true,
        _ => false,
    }
}

/// `/` followed by a relative path, or `/` alone.
#[verifier::rlimit(100)]
#[verifier::spinoff_prover]
fn path_from_root(t: &Vec<Token>, p: usize) -> (r: Result<(Expr, usize), String>)
    requires
        ended(t@),
        p < t@.len(),
        tok(toks_of(t@), p as int) == TokenModel::Slash,
    ensures
        expr_res(r, p_path(toks_of(t@), p as int)),
        r matches Ok((_, q)) ==> p <= q < t@.len(),
    decreases t@.len() - p, 13int,
{
    let q = adv_at(t, p);
    proof {
        lemma_tok(t@, q as int);
    }
    if ends_at(&t[q]) {
        Ok((Expr::Root, q))
    } else {
        root_then_step(t, p, q)
    }
}

/// `/` at `p` followed, at `q`, by a step that does not end the expression.
#[verifier::rlimit(100)]
#[verifier::spinoff_prover]
fn root_then_step(t: &Vec<Token>, p: usize, q: usize) -> (r: Result<(Expr, usize), String>)
    requires
        ended(t@),
        p < q < t@.len(),
        tok(toks_of(t@), p as int) == TokenModel::Slash,
        q == adv(toks_of(t@), p as int),
        !ends_expr(tok(toks_of(t@), q as int)),
    ensures
        expr_res(r, p_path(toks_of(t@), p as int)),
        r matches Ok((_, q2)) ==> p <= q2 < t@.len(),
    decreases t@.len() - p, 12int,
{
    match parse_step(t, q, Axis::Child) {
        Err(m) => Err(m),
        Ok((st, q2)) => {
            let e = Expr::Path(Box::new(Expr::Root), Box::new(st));
            assert(expr_model(Expr::Root) == ExprModel::Root);
            assert(expr_model(e) == ExprModel::Path(Box::new(ExprModel::Root), Box::new(step_model(st))));
            parse_continue(t, q2, e)
        },
    }
}

/// `//` followed by a relative path.
#[verifier::rlimit(100)]
#[verifier::spinoff_prover]
fn path_from_descendants(t: &Vec<Token>, p: usize) -> (r: Result<(Expr, usize), String>)
    requires
        ended(t@),
        p < t@.len(),
        tok(toks_of(t@), p as int) == TokenModel::DoubleSlash,
    ensures
        expr_res(r, p_path(toks_of(t@), p as int)),
        r matches Ok((_, q)) ==> p <= q < t@.len(),
    decreases t@.len() - p, 13int,
{
    let q = adv_at(t, p);
    match parse_step(t, q, Axis::Child) {
        Err(m) => Err(m),
        Ok((st, q2)) => {
            let d = descendant_step();
            let base = Expr::Path(Box::new(Expr::Root), Box::new(d));
            assert(expr_model(base) == ExprModel::Path(Box::new(ExprModel::Root), Box::new(desc_step())));
            parse_continue(t, q2, Expr::Path(Box::new(base), Box::new(st)))
        },
    }
}

fn parse_filter(t: &Vec<Token>, p: usize) -> (r: Result<(Expr, usize), String>)
    requires
        ended(t@),
        p < t@.len(),
    ensures
        expr_res(r, p_filter(toks_of(t@), p as int)),
        r matches Ok((_, q)) ==> p <= q < t@.len(),
    decreases t@.len() - p, 15int,
{
    match parse_primary_at(t, p) {
        Err(m) => Err(m),
        Ok((e, q)) => parse_continue(t, q, e),
    }
}

fn parse_continue(t: &Vec<Token>, q: usize, e: Expr) -> (r: Result<(Expr, usize), String>)
    requires
        ended(t@),
        q < t@.len(),
    ensures
        expr_res(r, p_continue(toks_of(t@), q as int, expr_model(e))),
        r matches Ok((_, q2)) ==> q <= q2 < t@.len(),
    decreases t@.len() - q, 14int,
{
    proof {
        lemma_tok(t@, q as int);
    }
    match &t[q] {
        Token::LeftBracket => continue_filter(t, q, e),
        Token::Slash => continue_path(t, q, e, false),
        Token::DoubleSlash => continue_path(t, q, e, true),
        _ => Ok((e, q)),
    }
}

/// A predicate `[expr]` applied to `e`, and what follows it.
fn continue_filter(t: &Vec<Token>, q: usize, e: Expr) -> (r: Result<(Expr, usize), String>)
    requires
        ended(t@),
        q < t@.len(),
        tok(toks_of(t@), q as int) == TokenModel::LeftBracket,
    ensures
        expr_res(r, p_continue(toks_of(t@), q as int, expr_model(e))),
        r matches Ok((_, q2)) ==> q <= q2 < t@.len(),
    decreases t@.len() - q, 13int,
{
    let q1 = adv_at(t, q);
    match parse_expr_at(t, q1) {
        Err(m) => Err(m),
        Ok((pred, q2)) => {
            proof {
                lemma_tok(t@, q2 as int);
            }
            if let Token::RightBracket = &t[q2] {
                let q3 = adv_at(t, q2);
                parse_continue(t, q3, Expr::Filter(Box::new(e), Box::new(pred)))
            } else {
                Err(msg("Expected ]"))
            }
        },
    }
}

/// A step after `/` (or after `//` where `double`) applied to `e`, and what follows it.
#[verifier::rlimit(100)]
#[verifier::spinoff_prover]
fn continue_path(t: &Vec<Token>, q: usize, e: Expr, double: bool) -> (r: Result<(Expr, usize), String>)
    requires
        ended(t@),
        q < t@.len(),
        tok(toks_of(t@), q as int) == (if double { TokenModel::DoubleSlash } else { TokenModel::Slash }),
    ensures
        expr_res(r, p_continue(toks_of(t@), q as int, expr_model(e))),
        r matches Ok((_, q2)) ==> q <= q2 < t@.len(),
    decreases t@.len() - q, 13int,
{
    let q1 = adv_at(t, q);
    match parse_step(t, q1, Axis::Child) {
        Err(m) => Err(m),
        Ok((st, q2)) => {
            let ghost em = expr_model(e);
            let base = if double {
                let d = descendant_step();
                Expr::Path(Box::new(e), Box::new(d))
            } else {
                e
            };
            assert(expr_model(base) == (if double {
                ExprModel::Path(Box::new(em), Box::new(desc_step()))
            } else {
                em
            }));
            parse_continue(t, q2, Expr::Path(Box::new(base), Box::new(st)))
        },
    }
}

fn child_step(test: NodeTest) -> (r: Step)
    ensures
        step_model(r) == (StepModel { axis: Axis::Child, test: test_model(test), predicates: seq![] }),
{
    let r = Step { axis: Axis::Child, node_test: test, predicates: Vec::new() };
    assert(exprs_model(r.predicates@) =~= Seq::<ExprModel>::empty());
    r
}

/// Parse a primary expression at position `p`
pub fn parse_primary_at(t: &Vec<Token>, p: usize) -> (r: Result<(Expr, usize), String>)
    requires
        ended(t@),
        p < t@.len(),
    ensures
        expr_res(r, p_primary(toks_of(t@), p as int)),
        r matches Ok((_, q)) ==> p <= q < t@.len(),
    decreases t@.len() - p, 13int,
{
    proof {
        lemma_tok(t@, p as int);
    }
    match &t[p] {
        Token::Number(n) => Ok((Expr::Number(n.clone()), adv_at(t, p))),
        Token::String(s) => Ok((Expr::String(s.clone()), adv_at(t, p))),
        Token::Dollar => {
            let q = adv_at(t, p);
            proof {
                lemma_tok(t@, q as int);
            }
            match &t[q] {
                Token::Name(n) => Ok((Expr::Variable(n.clone()), adv_at(t, q))),
                _ => Err(msg("Expected variable name")),
            }
        },
        Token::LeftParen => {
            let q = adv_at(t, p);
            match parse_expr_at(t, q) {
                Err(m) => Err(m),
                Ok((e, q2)) => {
                    proof {
                        lemma_tok(t@, q2 as int);
                    }
                    if let Token::RightParen = &t[q2] {
                        Ok((e, adv_at(t, q2)))
                    } else {
                        Err(msg("Expected )"))
                    }
                },
            }
        },
        Token::Name(n) => {
            let q = adv_at(t, p);
            proof {
                lemma_tok(t@, q as int);
            }
            if let Token::LeftParen = &t[q] {
                let q1 = adv_at(t, q);
                match parse_args(t, q1) {
                    Err(m) => Err(m),
                    Ok((args, q2)) => Ok((Expr::Function(n.clone(), args), q2)),
                }
            } else {
                match parse_step(t, p, Axis::Child) {
                    Err(m) => Err(m),
                    Ok((st, q2)) => Ok((Expr::Step(Box::new(st)), q2)),
                }
            }
        },
        Token::NodeType(n) => {
            let q = adv_at(t, p);
            let q1 = adv_at(t, q);
            let (arg, q2) = type_arg_at(t, q1);
            proof {
                lemma_tok(t@, q2 as int);
            }
            if let Token::RightParen = &t[q2] {
                match node_type_of(n, arg) {
                    Some(nt) => Ok((Expr::Step(Box::new(child_step(nt))), adv_at(t, q2))),
                    None => Err(msg_with("Unknown node type: ", n)),
                }
            } else {
                Err(msg("Expected )"))
            }
        },
        Token::Star => Ok((Expr::Step(Box::new(child_step(NodeTest::Any))), adv_at(t, p))),
        Token::At => {
            let q = adv_at(t, p);
            match parse_step(t, q, Axis::Attribute) {
                Err(m) => Err(m),
                Ok((st, q2)) => Ok((Expr::Step(Box::new(st)), q2)),
            }
        },
        Token::Dot => Ok((Expr::Context, adv_at(t, p))),
        Token::DoubleDot => Ok((Expr::Parent, adv_at(t, p))),
        Token::Axis(a) => match Axis::from_str(a.as_str()) {
            None => Err(msg_with("Unknown axis: ", a)),
            Some(ax) => {
                let q = adv_at(t, p);
                proof {
                    lemma_tok(t@, q as int);
                }
                if let Token::DoubleColon = &t[q] {
                    let q1 = adv_at(t, q);
                    match parse_step(t, q1, ax) {
                        Err(m) => Err(m),
                        Ok((st, q2)) => Ok((Expr::Step(Box::new(st)), q2)),
                    }
                } else {
                    Err(msg("Expected ::"))
                }
            },
        },
        k => {
            let mut m = msg("Unexpected token: ");
            let d = token_debug(k);
            m.append(d.as_str());
            Err(m)
        },
    }
}

fn parse_step(t: &Vec<Token>, p: usize, axis: Axis) -> (r: Result<(Step, usize), String>)
    requires
        ended(t@),
        p < t@.len(),
    ensures
        step_res(r, p_step(toks_of(t@), p as int, axis)),
        r matches Ok((_, q)) ==> p <= q < t@.len(),
    decreases t@.len() - p, 12int,
{
    proof {
        lemma_tok(t@, p as int);
    }
    let (ax1, p1) = if let Token::At = &t[p] {
        (Axis::Attribute, adv_at(t, p))
    } else {
        (axis, p)
    };
    proof {
        lemma_tok(t@, p1 as int);
    }
    match &t[p1] {
        Token::Axis(a) => match Axis::from_str(a.as_str()) {
            None => Err(msg_with("Unknown axis: ", a)),
            Some(ax) => {
                let q = adv_at(t, p1);
                proof {
                    lemma_tok(t@, q as int);
                }
                if let Token::DoubleColon = &t[q] {
                    let q1 = adv_at(t, q);
                    parse_step_test(t, q1, ax)
                } else {
                    Err(msg("Expected :: after axis"))
                }
            },
        },
        _ => parse_step_test(t, p1, ax1),
    }
}

fn parse_step_test(t: &Vec<Token>, p: usize, axis: Axis) -> (r: Result<(Step, usize), String>)
    requires
        ended(t@),
        p < t@.len(),
    ensures
        step_res(r, p_step_test(toks_of(t@), p as int, axis)),
        r matches Ok((_, q)) ==> p <= q < t@.len(),
    decreases t@.len() - p, 11int,
{
    proof {
        lemma_tok(t@, p as int);
    }
    match &t[p] {
        Token::Star => {
            let q = adv_at(t, p);
            parse_preds(t, q, axis, NodeTest::Any, Vec::new())
        },
        Token::Name(n) => {
            let q = adv_at(t, p);
            parse_preds(t, q, axis, NodeTest::Name(n.clone()), Vec::new())
        },
        Token::NameTest(qn) => {
            let q = adv_at(t, p);
            parse_preds(t, q, axis, name_test(qn), Vec::new())
        },
        Token::NodeType(n) => {
            let q = adv_at(t, p);
            let q1 = adv_at(t, q);
            let (arg, q2) = type_arg_at(t, q1);
            proof {
                lemma_tok(t@, q2 as int);
            }
            if let Token::RightParen = &t[q2] {
                match node_type_of(n, arg) {
                    Some(nt) => {
                        let q3 = adv_at(t, q2);
                        parse_preds(t, q3, axis, nt, Vec::new())
                    },
                    None => Err(msg_with("Unknown node type: ", n)),
                }
            } else {
                Err(msg("Expected )"))
            }
        },
        k => {
            let mut m = msg("Expected node test, got ");
            let d = token_debug(k);
            m.append(d.as_str());
            Err(m)
        },
    }
}

fn parse_preds(t: &Vec<Token>, q: usize, axis: Axis, test: NodeTest, preds: Vec<Expr>) -> (r: Result<(Step, usize), String>)
    requires
        ended(t@),
        q < t@.len(),
    ensures
        step_res(r, p_preds(toks_of(t@), q as int, axis, test_model(test), exprs_model(preds@))),
        r matches Ok((_, q2)) ==> q <= q2 < t@.len(),
    decreases t@.len() - q, 10int,
{
    proof {
        lemma_tok(t@, q as int);
    }
    if let Token::LeftBracket = &t[q] {
        let q1 = adv_at(t, q);
        match parse_expr_at(t, q1) {
            Err(m) => Err(m),
            Ok((e, q2)) => {
                proof {
                    lemma_tok(t@, q2 as int);
                }
                if let Token::RightBracket = &t[q2] {
                    let q3 = adv_at(t, q2);
                    let mut preds = preds;
                    let ghost before = preds@;
                    proof {
                        lemma_exprs_push(before, e);
                    }
                    preds.push(e);
                    parse_preds(t, q3, axis, test, preds)
                } else {
                    Err(msg("Expected ]"))
                }
            },
        }
    } else {
        Ok((Step { axis, node_test: test, predicates: preds }, q))
    }
}

fn parse_args(t: &Vec<Token>, q: usize) -> (r: Result<(Vec<Expr>, usize), String>)
    requires
        ended(t@),
        q < t@.len(),
    ensures
        args_res(r, p_args(toks_of(t@), q as int)),
        r matches Ok((_, q2)) ==> q <= q2 < t@.len(),
    decreases t@.len() - q, 102int,
{
    proof {
        lemma_tok(t@, q as int);
    }
    if let Token::RightParen = &t[q] {
        let v: Vec<Expr> = Vec::new();
        assert(exprs_model(v@) =~= Seq::<ExprModel>::empty());
        Ok((v, adv_at(t, q)))
    } else {
        match parse_expr_at(t, q) {
            Err(m) => Err(m),
            Ok((e, q2)) => {
                let mut v: Vec<Expr> = Vec::new();
                proof {
                    lemma_exprs_push(v@, e);
                    assert(v@.push(e) =~= seq![e]);
                    assert(exprs_model(Seq::<Expr>::empty()) =~= Seq::<ExprModel>::empty());
                }
                v.push(e);
                parse_args_rest(t, q2, v)
            },
        }
    }
}

fn parse_args_rest(t: &Vec<Token>, q: usize, args: Vec<Expr>) -> (r: Result<(Vec<Expr>, usize), String>)
    requires
        ended(t@),
        q < t@.len(),
    ensures
        args_res(r, p_args_rest(toks_of(t@), q as int, exprs_model(args@))),
        r matches Ok((_, q2)) ==> q <= q2 < t@.len(),
    decreases t@.len() - q, 101int,
{
    proof {
        lemma_tok(t@, q as int);
    }
    match &t[q] {
        Token::Comma => {
            let q1 = adv_at(t, q);
            match parse_expr_at(t, q1) {
                Err(m) => Err(m),
                Ok((e, q2)) => {
                    let mut args = args;
                    proof {
                        lemma_exprs_push(args@, e);
                    }
                    args.push(e);
                    parse_args_rest(t, q2, args)
                },
            }
        },
        Token::RightParen => Ok((args, adv_at(t, q))),
        _ => Err(msg("Expected )")),
    }
}

/// XPath parser
pub struct Parser {
    tokens: Vec<Token>,
    pos: usize,
}

impl Parser {
    /// The tokens, the end token not included.
    pub closed spec fn spec_tokens(&self) -> Seq<TokenModel> {
        toks_of(self.tokens@)
    }

    /// The position reached, in tokens.
    pub closed spec fn spec_pos(&self) -> int {
        self.pos as int
    }

    /// The tokens end with the end token and the position lies before it or on it.
    pub closed spec fn wf(&self) -> bool {
        ended(self.tokens@) && self.pos < self.tokens@.len()
    }

    /// Create a new parser over the tokens of an expression
    pub fn new(input: &str) -> (r: Self)
        ensures
            r.wf(),
            r.spec_tokens() == lex_all(input@),
            r.spec_pos() == 0,
    {
        let mut lexer = Lexer::new(input);
        let mut tokens = lexer.tokenize();
        let ghost toks = views(tokens@);
        proof {
            lemma_lexes_unique(input@, 0, toks, lex_all(input@));
        }
        tokens.push(Token::Eof);
        assert(views(tokens@).drop_last() =~= toks);
        Parser { tokens, pos: 0 }
    }

    /// Parse an XPath expression from the position reached
    pub fn parse(&mut self) -> (r: Result<Expr, String>)
        requires
            old(self).wf(),
        ensures
            final(self).wf(),
            final(self).spec_tokens() == old(self).spec_tokens(),
            match p_expr(old(self).spec_tokens(), old(self).spec_pos()) {
                Ok((e, q)) => r matches Ok(x) && expr_model(x) == e && final(self).spec_pos() == q,
                Err(m) => r matches Err(x) && x@ == m,
            },
    {
        match parse_expr_at(&self.tokens, self.pos) {
            Ok((e, q)) => {
                self.pos = q;
                Ok(e)
            },
            Err(m) => Err(m),
        }
    }

    /// Parse a primary expression from the position reached
    pub fn parse_primary_expr(&mut self) -> (r: Result<Expr, String>)
        requires
            old(self).wf(),
        ensures
            final(self).wf(),
            final(self).spec_tokens() == old(self).spec_tokens(),
            match p_primary(old(self).spec_tokens(), old(self).spec_pos()) {
                Ok((e, q)) => r matches Ok(x) && expr_model(x) == e && final(self).spec_pos() == q,
                Err(m) => r matches Err(x) && x@ == m,
            },
    {
        match parse_primary_at(&self.tokens, self.pos) {
            Ok((e, q)) => {
                self.pos = q;
                Ok(e)
            },
            Err(m) => Err(m),
        }
    }
}

/// Parse an XPath expression string
pub fn parse(input: &str) -> (r: Result<Expr, String>)
    ensures
        match spec_parse(lex_all(input@)) {
            Ok(e) => r matches Ok(x) && expr_model(x) == e,
            Err(m) => r matches Err(x) && x@ == m,
        },
{
    let mut p = Parser::new(input);
    p.parse()
}

} // verus!
