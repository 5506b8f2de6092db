use vstd::prelude::*;

verus! {

/// The shape of a written type, as far as classification reads it.
#[derive(Debug, PartialEq, Eq)]
pub enum TypeShape {
    /// A type named by a path; the name is the first segment of the path.
    Named(String),
    /// A reference type.
    Reference,
    /// A raw pointer type.
    Pointer,
    /// A slice of the element type.
    Slice(Box<TypeShape>),
    /// An array of the element type.
    Array(Box<TypeShape>),
    /// Any other type.
    Other,
}

/// A block, as far as its value is concerned.
#[derive(Debug, PartialEq, Eq)]
pub struct Block {
    /// The expression of the final statement, where the final statement is an
    /// expression; absent for an empty block and for any other final statement.
    pub tail: Option<Box<Expr>>,
}

/// An expression, as far as the resolver and the traversal read it.
#[derive(Debug, PartialEq, Eq)]
pub enum Expr {
    /// A path; the names of its segments.
    Path(Vec<String>),
    /// A borrow of the operand.
    AddrOf(Box<Expr>),
    /// A literal.
    Lit,
    /// A call of a free function: the callee, then the arguments.
    Call(Box<Expr>, Vec<Expr>),
    /// A method call: the method's name, the receiver, then the other arguments.
    MethodCall(String, Box<Expr>, Vec<Expr>),
    /// An array literal and its elements.
    Array(Vec<Expr>),
    /// An array built by repeating one element.
    Repeat(Box<Expr>),
    /// A conditional and its first block.
    If(Block),
    /// A `while` loop.
    While,
    /// A `loop`.
    Loop,
    /// A block used as an expression.
    Block(Block),
    /// A `match` and the expression that it inspects.
    Match(Box<Expr>),
    /// An assignment: the target, then the value.
    Assign(Box<Expr>, Box<Expr>),
    /// A binary operation: whether the operator is a comparison, then both operands.
    Binary(bool, Box<Expr>, Box<Expr>),
    /// A unary operation: whether the operator is a dereference, then the operand.
    Unary(bool, Box<Expr>),
    /// A cast to the written type.
    Cast(TypeShape),
    /// An index expression and the expression that is indexed.
    Index(Box<Expr>),
    /// A record literal: each field's name with its initializer.
    Struct(Vec<(String, Expr)>),
    /// A field access: the base, then the field's name.
    Field(Box<Expr>, String),
    /// Any other expression.
    Other,
}

/// The left-hand side of a `let`.
#[derive(Debug, PartialEq, Eq)]
pub enum Pattern {
    /// A single name, with the line on which it stands.
    Ident(String, u32),
    /// Any other pattern.
    Other,
}

/// A statement, as far as the traversal reads it.
#[derive(Debug, PartialEq, Eq)]
pub enum Stmt {
    /// A `let` with an initializer: the pattern, the initializer, and the line on
    /// which the initializer begins.
    Local(Pattern, Expr, u32),
    /// Any other statement.
    Other,
}

/// A field of a record declaration.
#[derive(Debug, PartialEq, Eq)]
pub struct FieldDecl {
    /// The field's name, where it has one.
    pub name: Option<String>,
    /// The field's written type.
    pub ty: TypeShape,
}

/// A declaration that the catalog reads.
#[derive(Debug, PartialEq, Eq)]
pub enum Item {
    /// An enum and the names of its variants.
    Enum(String, Vec<String>),
    /// A record type and its fields; a record without named fields has none.
    Struct(String, Vec<FieldDecl>),
    /// A function or method.
    Fn(FnDecl),
    /// Any other item.
    Other,
}

/// The signature of a function, as far as the catalog reads it.
#[derive(Debug, PartialEq, Eq)]
pub struct FnDecl {
    /// The function's name.
    pub name: String,
    /// How many inputs the signature declares, a receiver included.
    pub inputs: usize,
    /// Whether the first input is a receiver.
    pub receiver: bool,
    /// The written return type, where there is one.
    pub output: Option<TypeShape>,
}

} // verus!
