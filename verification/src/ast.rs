//! The syntax tree that the parser produces.

use crate::number::{Decimal, DecimalModel};
use vstd::prelude::*;

verus! {

/// The signature of a function: its name and the names of its parameters.
/// Every parameter and the result are numbers.
#[derive(Debug, PartialEq)]
pub struct Prototype {
    pub name: String,
    pub args: Vec<String>,
}

/// The mathematical model of a [`Prototype`].
pub struct PrototypeModel {
    pub name: Seq<char>,
    pub args: Seq<Seq<char>>,
}

/// An expression. Each node owns its children.
#[derive(Debug, PartialEq)]
pub enum Expression {
    /// A numeric literal.
    Literal(Decimal),
    /// The use of a variable.
    Variable(String),
    /// An infix operator with its left and right operand.
    Binary(String, Box<Expression>, Box<Expression>),
    /// The call of a function with its arguments.
    Call(String, Vec<Expression>),
}

/// The mathematical model of an [`Expression`].
pub enum ExprModel {
    Literal(DecimalModel),
    Variable(Seq<char>),
    Binary(Seq<char>, Box<ExprModel>, Box<ExprModel>),
    Call(Seq<char>, Seq<ExprModel>),
}

/// A function definition: a signature and the expression that computes the
/// result.
#[derive(Debug, PartialEq)]
pub struct Function {
    pub prototype: Prototype,
    pub body: Expression,
}

/// The mathematical model of a [`Function`].
pub struct FunctionModel {
    pub prototype: PrototypeModel,
    pub body: ExprModel,
}

/// A top-level item of a program.
#[derive(Debug, PartialEq)]
pub enum ASTNode {
    /// The declaration of a function that is defined elsewhere.
    Extern(Prototype),
    /// A function definition. A bare top-level expression is a function
    /// without a name and without parameters.
    Function(Function),
}

/// The mathematical model of an [`ASTNode`].
pub enum NodeModel {
    Extern(PrototypeModel),
    Function(FunctionModel),
}

/// The texts of a sequence of strings.
pub open spec fn texts(strings: Seq<String>) -> Seq<Seq<char>> {
    Seq::new(strings.len(), |i: int| strings[i]@)
}

/// The models of a sequence of expressions.
pub open spec fn expr_models(exprs: Seq<Expression>) -> Seq<ExprModel> {
    Seq::new(exprs.len(), |i: int| exprs[i]@)
}

/// The models of a sequence of top-level items.
pub open spec fn node_models(nodes: Seq<ASTNode>) -> Seq<NodeModel> {
    Seq::new(nodes.len(), |i: int| nodes[i]@)
}

impl View for Prototype {
    type V = PrototypeModel;

    open spec fn view(&self) -> PrototypeModel {
        PrototypeModel { name: self.name@, args: texts(self.args@) }
    }
}

impl Expression {
    /// The model of the expression, node by node.
    pub open spec fn model(self) -> ExprModel
        decreases self,
    {
        match self {
            Expression::Literal(value) => ExprModel::Literal(value@),
            Expression::Variable(name) => ExprModel::Variable(name@),
            Expression::Binary(operator, left, right) => ExprModel::Binary(
                operator@,
                Box::new((*left).model()),
                Box::new((*right).model()),
            ),
            Expression::Call(callee, args) => ExprModel::Call(
                callee@,
                Seq::new(
                    args@.len(),
                    |i: int|
                        if 0 <= i < args@.len() {
                            args@[i].model()
                        } else {
                            ExprModel::Variable(Seq::empty())
                        },
                ),
            ),
        }
    }

    /// The model of a call is made of the models of its arguments.
    pub proof fn lemma_call_model(callee: String, args: Vec<Expression>)
        ensures
            Expression::Call(callee, args)@ == ExprModel::Call(callee@, expr_models(args@)),
    {
        assert(Expression::Call(callee, args).model()->Call_1 =~= expr_models(args@));
    }
}

impl View for Expression {
    type V = ExprModel;

    open spec fn view(&self) -> ExprModel {
        self.model()
    }
}

impl View for Function {
    type V = FunctionModel;

    open spec fn view(&self) -> FunctionModel {
        FunctionModel { prototype: self.prototype@, body: self.body@ }
    }
}

impl View for ASTNode {
    type V = NodeModel;

    open spec fn view(&self) -> NodeModel {
        match self {
            ASTNode::Extern(prototype) => NodeModel::Extern(prototype@),
            ASTNode::Function(function) => NodeModel::Function(function@),
        }
    }
}

impl Clone for Prototype {
    fn clone(&self) -> (r: Self)
        ensures
            r@ == self@,
    {
        let mut args: Vec<String> = Vec::new();
        let mut i: usize = 0;
        while i < self.args.len()
            invariant
                i <= self.args.len(),
                args@.len() == i,
                forall|j: int| 0 <= j < i ==> args@[j]@ == self.args@[j]@,
            decreases self.args.len() - i,
        {
            args.push(self.args[i].clone());
            i = i + 1;
        }
        assert(texts(args@) =~= texts(self.args@));
        Prototype { name: self.name.clone(), args }
    }
}

impl Clone for Expression {
    fn clone(&self) -> (r: Self)
        ensures
            r@ == self@,
        decreases self,
    {
        match self {
            Expression::Literal(value) => Expression::Literal(value.clone()),
            Expression::Variable(name) => Expression::Variable(name.clone()),
            Expression::Binary(operator, left, right) => Expression::Binary(
                operator.clone(),
                Box::new((**left).clone()),
                Box::new((**right).clone()),
            ),
            Expression::Call(callee, args) => {
                let mut copies: Vec<Expression> = Vec::new();
                let mut i: usize = 0;
                while i < args.len()
                    invariant
                        i <= args.len(),
                        copies@.len() == i,
                        self is Call,
                        self->Call_1 == *args,
                        forall|j: int| 0 <= j < i ==> copies@[j]@ == args@[j]@,
                    decreases args.len() - i,
                {
                    copies.push(args[i].clone());
                    i = i + 1;
                }
                let copy = Expression::Call(callee.clone(), copies);
                assert(copy@->Call_1 =~= self@->Call_1);
                copy
            },
        }
    }
}

impl Clone for Function {
    fn clone(&self) -> (r: Self)
        ensures
            r@ == self@,
    {
        Function { prototype: self.prototype.clone(), body: self.body.clone() }
    }
}

impl Clone for ASTNode {
    fn clone(&self) -> (r: Self)
        ensures
            r@ == self@,
    {
        match self {
            ASTNode::Extern(prototype) => ASTNode::Extern(prototype.clone()),
            ASTNode::Function(function) => ASTNode::Function(function.clone()),
        }
    }
}

} // verus!
