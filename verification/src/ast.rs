//! The syntax tree of a program.
use vstd::prelude::*;

verus! {

/// A pattern of a `match` case. A number is kept as the text it was written in.
#[derive(Debug, PartialEq)]
pub enum Pattern {
    Wildcard,
    Identifier(String),
    Number(String),
    StringLiteral(String),
    Atom(String),
    Tuple(Vec<Pattern>),
}

/// One case of a `match`: a pattern, an optional guard, and the body.
#[derive(Debug, PartialEq)]
pub struct MatchCase {
    pub pattern: Pattern,
    pub guard: Option<Expression>,
    pub body: Expression,
}

/// A type annotation as written in the source.
#[derive(Debug, PartialEq)]
pub enum TypeAnn {
    Number,
    String,
    Atom,
    Array(Box<TypeAnn>),
    Hash(Vec<(String, TypeAnn)>),
    Function { params: Vec<TypeAnn>, ret: Box<TypeAnn> },
    Tuple(Vec<TypeAnn>),
    Any,
}

/// An expression; in this language everything is one. A number literal is
/// kept as the text it was written in.
#[derive(Debug, PartialEq)]
#[allow(inconsistent_fields)]
pub enum Expression {
    Identifier(String),
    Number(String),
    StringLiteral(String),
    Atom(String),
    Array(Vec<Expression>),
    Tuple(Vec<Expression>),
    Prefix { operator: String, right: Box<Expression> },
    Infix { left: Box<Expression>, operator: String, right: Box<Expression> },
    If {
        condition: Box<Expression>,
        consequence: Box<Expression>,
        alternative: Option<Box<Expression>>,
    },
    Loop { body: Box<Expression> },
    While { condition: Box<Expression>, body: Box<Expression> },
    For { element: String, iterable: Box<Expression>, body: Box<Expression> },
    ForHash { key: String, value: String, iterable: Box<Expression>, body: Box<Expression> },
    Function {
        parameters: Vec<(String, Option<TypeAnn>)>,
        return_type: Option<TypeAnn>,
        body: Vec<Expression>,
    },
    Call { function: Box<Expression>, arguments: Vec<Expression> },
    MethodCall { left: Box<Expression>, method: String, arguments: Vec<Expression> },
    Return(Box<Expression>),
    Block(Vec<Expression>, bool),
    Let { name: String, type_ann: Option<TypeAnn>, value: Box<Expression> },
    Const { name: String, type_ann: Option<TypeAnn>, value: Box<Expression> },
    Assign { name: String, value: Box<Expression> },
    Hash(Vec<(String, Expression)>),
    Index { left: Box<Expression>, index: Box<Expression> },
    IndexAssign { left: Box<Expression>, index: Box<Expression>, value: Box<Expression> },
    Match { subject: Box<Expression>, cases: Vec<MatchCase> },
    Question(Box<Expression>),
    Import(Box<Expression>),
    Break(Option<Box<Expression>>),
    Continue,
    Loc { line: usize, col: usize, expr: Box<Expression> },
}

/// A whole program: its top-level expressions in order.
#[derive(Debug)]
pub struct Program {
    pub expressions: Vec<Expression>,
}

/// The expression inside any location wrappers.
pub open spec fn spec_unwrap_loc(e: Expression) -> Expression
    decreases e,
{
    match e {
        Expression::Loc { expr, .. } => spec_unwrap_loc(*expr),
        _ => e,
    }
}

/// The expression inside any location wrappers.
pub fn unwrap_loc(expr: &Expression) -> (r: &Expression)
    ensures
        *r == spec_unwrap_loc(*expr),
    decreases expr,
{
    match expr {
        Expression::Loc { expr: inner, .. } => unwrap_loc(inner),
        _ => expr,
    }
}

} // verus!
