//! The syntax tree of an expression.
use vstd::prelude::*;
use crate::number::Decimal;
use crate::number::Number;

verus! {

/// The mathematical model of a syntax tree.
pub ghost enum Expr {
    And(Box<Expr>, Box<Expr>),
    Or(Box<Expr>, Box<Expr>),
    Add(Box<Expr>, Box<Expr>),
    Subtract(Box<Expr>, Box<Expr>),
    Multiply(Box<Expr>, Box<Expr>),
    Divide(Box<Expr>, Box<Expr>),
    Caret(Box<Expr>, Box<Expr>),
    Negative(Box<Expr>),
    Number(Decimal),
}

/// A syntax tree. Every node owns its operands; a leaf holds a number.
///
/// The bitwise operators `And` and `Or` are meant for operands that evaluate
/// to whole numbers.
#[derive(Debug, PartialEq, Eq)]
pub enum Node {
    And(Box<Node>, Box<Node>),
    Or(Box<Node>, Box<Node>),
    Add(Box<Node>, Box<Node>),
    Subtract(Box<Node>, Box<Node>),
    Multiply(Box<Node>, Box<Node>),
    Divide(Box<Node>, Box<Node>),
    Caret(Box<Node>, Box<Node>),
    Negative(Box<Node>),
    Number(Number),
}

impl View for Node {
    type V = Expr;

    open spec fn view(&self) -> Expr
        decreases self,
    {
        match self {
            Node::And(l, r) => Expr::And(Box::new((**l).view()), Box::new((**r).view())),
            Node::Or(l, r) => Expr::Or(Box::new((**l).view()), Box::new((**r).view())),
            Node::Add(l, r) => Expr::Add(Box::new((**l).view()), Box::new((**r).view())),
            Node::Subtract(l, r) => Expr::Subtract(
                Box::new((**l).view()),
                Box::new((**r).view()),
            ),
            Node::Multiply(l, r) => Expr::Multiply(
                Box::new((**l).view()),
                Box::new((**r).view()),
            ),
            Node::Divide(l, r) => Expr::Divide(Box::new((**l).view()), Box::new((**r).view())),
            Node::Caret(l, r) => Expr::Caret(Box::new((**l).view()), Box::new((**r).view())),
            Node::Negative(e) => Expr::Negative(Box::new((**e).view())),
            Node::Number(n) => Expr::Number(n@),
        }
    }
}

impl Node {
    /// Builds a copy of the tree.
    fn duplicate(&self) -> (r: Node)
        ensures
            r@ == self@,
        decreases self,
    {
        match self {
            Node::And(l, r) => Node::And(Box::new(l.duplicate()), Box::new(r.duplicate())),
            Node::Or(l, r) => Node::Or(Box::new(l.duplicate()), Box::new(r.duplicate())),
            Node::Add(l, r) => Node::Add(Box::new(l.duplicate()), Box::new(r.duplicate())),
            Node::Subtract(l, r) => Node::Subtract(
                Box::new(l.duplicate()),
                Box::new(r.duplicate()),
            ),
            Node::Multiply(l, r) => Node::Multiply(
                Box::new(l.duplicate()),
                Box::new(r.duplicate()),
            ),
            Node::Divide(l, r) => Node::Divide(Box::new(l.duplicate()), Box::new(r.duplicate())),
            Node::Caret(l, r) => Node::Caret(Box::new(l.duplicate()), Box::new(r.duplicate())),
            Node::Negative(e) => Node::Negative(Box::new(e.duplicate())),
            Node::Number(n) => Node::Number(n.clone()),
        }
    }
}

impl Clone for Node {
    fn clone(&self) -> (r: Node)
        ensures
            r@ == self@,
    {
        self.duplicate()
    }
}

/// The left-associative binary operators.
#[derive(Debug, Clone, Copy, PartialEq, Eq, Structural)]
pub enum BinaryOp {
    Or,
    And,
    Add,
    Subtract,
    Multiply,
    Divide,
}

impl BinaryOp {
    /// The tree that applies this operator to `left` and `right`.
    pub open spec fn join(self, left: Expr, right: Expr) -> Expr {
        match self {
            BinaryOp::Or => Expr::Or(Box::new(left), Box::new(right)),
            BinaryOp::And => Expr::And(Box::new(left), Box::new(right)),
            BinaryOp::Add => Expr::Add(Box::new(left), Box::new(right)),
            BinaryOp::Subtract => Expr::Subtract(Box::new(left), Box::new(right)),
            BinaryOp::Multiply => Expr::Multiply(Box::new(left), Box::new(right)),
            BinaryOp::Divide => Expr::Divide(Box::new(left), Box::new(right)),
        }
    }

    /// Builds the node that applies this operator to `left` and `right`.
    pub fn apply(self, left: Node, right: Node) -> (r: Node)
        ensures
            r@ == self.join(left@, right@),
    {
        match self {
            BinaryOp::Or => Node::Or(Box::new(left), Box::new(right)),
            BinaryOp::And => Node::And(Box::new(left), Box::new(right)),
            BinaryOp::Add => Node::Add(Box::new(left), Box::new(right)),
            BinaryOp::Subtract => Node::Subtract(Box::new(left), Box::new(right)),
            BinaryOp::Multiply => Node::Multiply(Box::new(left), Box::new(right)),
            BinaryOp::Divide => Node::Divide(Box::new(left), Box::new(right)),
        }
    }
}

} // verus!
