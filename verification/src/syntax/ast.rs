//! The syntax tree of a parsed source unit.

use vstd::prelude::*;
use super::lexer::Span;
use crate::modules::joined;
use crate::text::{chars_of, push_chars, push_str, string_of};

verus! {

broadcast use vstd::std_specs::vec::group_vec_axioms;

/// What an import brings in.
#[derive(Clone, Copy, Debug, PartialEq, Eq, Structural)]
pub enum UseKind {
    Type,
    Function,
}

/// A name whose segments are kept apart; a leading separator makes it
/// absolute and is not stored as a segment.
#[derive(Clone, Debug, PartialEq, Eq)]
pub struct QualifiedName {
    pub absolute: bool,
    pub segments: Vec<String>,
    pub span: Span,
}

/// The segments as plain text.
pub open spec fn segment_texts(segments: Seq<String>) -> Seq<Seq<char>> {
    segments.map_values(|s: String| s@)
}

/// The segments joined by `\`.
pub open spec fn joined_segments(name: QualifiedName) -> Seq<char> {
    joined(segment_texts(name.segments@), "\\"@)
}

/// The name as written: its segments joined by `\`, after a `\` when it
/// is absolute.
pub open spec fn name_text(name: QualifiedName) -> Seq<char> {
    if name.absolute {
        "\\"@ + joined_segments(name)
    } else {
        joined_segments(name)
    }
}

/// Joins segments with `\`.
pub fn join_segments(segments: &Vec<String>) -> (text: String)
    ensures
        text@ == joined(segment_texts(segments@), "\\"@),
{
    let mut out: Vec<char> = Vec::new();
    let mut i: usize = 0;
    let ghost pieces = segment_texts(segments@);
    while i < segments.len()
        invariant
            i <= segments@.len(),
            pieces == segment_texts(segments@),
            out@ == joined(pieces.subrange(0, i as int), "\\"@),
        decreases segments.len() - i,
    {
        let ghost done = pieces.subrange(0, i as int + 1);
        assert(done.drop_last() =~= pieces.subrange(0, i as int));
        if i > 0 {
            push_str(&mut out, "\\");
        }
        let piece = chars_of(segments[i].as_str());
        push_chars(&mut out, piece.as_slice());
        i = i + 1;
        assert(out@ =~= joined(done, "\\"@));
    }
    assert(pieces.subrange(0, pieces.len() as int) =~= pieces);
    string_of(out.as_slice())
}

impl QualifiedName {
    /// The name as written.
    pub fn as_string(&self) -> (text: String)
        ensures
            text@ == name_text(*self),
    {
        let joined_text = join_segments(&self.segments);
        if self.absolute {
            let mut out = chars_of("\\");
            let rest = chars_of(joined_text.as_str());
            push_chars(&mut out, rest.as_slice());
            string_of(out.as_slice())
        } else {
            joined_text
        }
    }

    /// The last segment, if any.
    pub fn last(&self) -> (segment: Option<&str>)
        ensures
            self.segments@.len() == 0 ==> segment is None,
            self.segments@.len() > 0 ==> (segment matches Some(s) && s@ == self.segments@.last()@),
    {
        if self.segments.len() == 0 {
            None
        } else {
            Some(self.segments[self.segments.len() - 1].as_str())
        }
    }
}

/// An import: what kind, of which name, under which alias.
#[derive(Clone, Debug, PartialEq, Eq)]
pub struct UseDecl {
    pub kind: UseKind,
    pub target: QualifiedName,
    pub alias: String,
    pub alias_span: Span,
    pub span: Span,
}

/// A parsed source unit.
#[derive(Debug, PartialEq)]
pub struct Program {
    pub namespace: Option<NamespaceDecl>,
    pub imports: Vec<UseDecl>,
    pub statements: Vec<Stmt>,
    pub span: Span,
}

/// A `namespace` declaration.
#[derive(Clone, Debug, PartialEq, Eq)]
pub struct NamespaceDecl {
    pub name: QualifiedName,
    pub span: Span,
}

/// A statement.
#[derive(Debug, PartialEq)]
pub struct Stmt {
    pub kind: StmtKind,
    pub span: Span,
}

/// The forms of statements.
#[derive(Debug, PartialEq)]
pub enum StmtKind {
    Function(FunctionDecl),
    Class(ClassDecl),
    Interface(InterfaceDecl),
    Trait(TraitDecl),
    Assign { name: String, annotation: Option<TypeSyntax>, value: Expr },
    Echo(Expr),
    Return(Option<Expr>),
    If { branches: Vec<(Expr, Vec<Stmt>)>, otherwise: Option<Vec<Stmt>> },
    While { condition: Expr, body: Vec<Stmt> },
    For { initializers: Vec<ForClause>, conditions: Vec<ForClause>, updates: Vec<ForClause>, body: Vec<Stmt> },
    Foreach { source: Expr, key: Option<LoopBinding>, value: LoopBinding, body: Vec<Stmt> },
    Break,
    Continue,
    SetProperty { object: Expr, property: String, property_span: Span, value: Expr },
    SetIndex { root: String, root_span: Span, indices: Vec<Expr>, value: Expr },
    Throw(Expr),
    Try { body: Vec<Stmt>, catches: Vec<CatchClause>, finally: Option<Vec<Stmt>> },
    Using { variable: String, variable_span: Span, value: Expr, body: Vec<Stmt> },
    Block(Vec<Stmt>),
    Expression(Expr),
}

/// A variable bound by `foreach`.
#[derive(Clone, Debug, PartialEq)]
pub struct LoopBinding {
    pub name: String,
    pub span: Span,
}

/// One clause of a `for` header.
#[derive(Debug, PartialEq)]
pub struct ForClause {
    pub kind: ForClauseKind,
    pub span: Span,
}

/// The forms of `for` clauses.
#[derive(Debug, PartialEq)]
pub enum ForClauseKind {
    Assign { name: String, name_span: Span, annotation: Option<TypeSyntax>, value: Expr },
    SetProperty { object: Expr, property: String, property_span: Span, value: Expr },
    SetIndex { root: String, root_span: Span, indices: Vec<Expr>, value: Expr },
    Expression(Expr),
}

/// A `catch` clause.
#[derive(Debug, PartialEq)]
pub struct CatchClause {
    pub class_name: String,
    pub class_span: Span,
    pub variable: String,
    pub variable_span: Span,
    pub body: Vec<Stmt>,
    pub span: Span,
}

/// A function declaration.
#[derive(Debug, PartialEq)]
pub struct FunctionDecl {
    pub name: String,
    pub name_span: Span,
    pub parameters: Vec<Parameter>,
    pub return_type: TypeSyntax,
    pub body: Vec<Stmt>,
}

/// A class declaration.
#[derive(Debug, PartialEq)]
pub struct ClassDecl {
    pub name: String,
    pub name_span: Span,
    pub abstract_class: bool,
    pub final_class: bool,
    pub parent: Option<NameRef>,
    pub interfaces: Vec<NameRef>,
    pub trait_uses: Vec<TraitUse>,
    pub properties: Vec<PropertyDecl>,
    pub methods: Vec<MethodDecl>,
}

/// An interface declaration.
#[derive(Debug, PartialEq)]
pub struct InterfaceDecl {
    pub name: String,
    pub name_span: Span,
    pub parent: Option<NameRef>,
    pub methods: Vec<MethodDecl>,
}

/// A trait declaration.
#[derive(Debug, PartialEq)]
pub struct TraitDecl {
    pub name: String,
    pub name_span: Span,
    pub trait_uses: Vec<TraitUse>,
    pub properties: Vec<PropertyDecl>,
    pub methods: Vec<MethodDecl>,
}

/// A name written in a declaration header.
#[derive(Clone, Debug, PartialEq)]
pub struct NameRef {
    pub name: String,
    pub span: Span,
}

/// A `use` of traits inside a class or trait.
#[derive(Clone, Debug, PartialEq)]
pub struct TraitUse {
    pub traits: Vec<NameRef>,
    pub adaptations: Vec<TraitAdaptation>,
    pub span: Span,
}

/// A conflict rule of a trait use.
#[derive(Clone, Debug, PartialEq)]
pub enum TraitAdaptation {
    InsteadOf { trait_name: NameRef, method: NameRef, excluded: Vec<NameRef>, span: Span },
    Alias {
        trait_name: NameRef,
        method: NameRef,
        visibility: Option<Visibility>,
        final_method: bool,
        alias: Option<NameRef>,
        span: Span,
    },
}

/// Member visibility.
#[derive(Clone, Copy, Debug, PartialEq, Eq, Structural)]
pub enum Visibility {
    Public,
    Protected,
    Private,
}

/// A property declaration.
#[derive(Debug, PartialEq)]
pub struct PropertyDecl {
    pub name: String,
    pub name_span: Span,
    pub visibility: Visibility,
    pub ty: TypeSyntax,
    pub initializer: Option<Expr>,
    pub span: Span,
}

/// A method declaration.
#[derive(Debug, PartialEq)]
pub struct MethodDecl {
    pub function: FunctionDecl,
    pub visibility: Visibility,
    pub static_method: bool,
    pub abstract_method: bool,
    pub final_method: bool,
    pub span: Span,
}

/// A function parameter.
#[derive(Debug, PartialEq)]
pub struct Parameter {
    pub name: String,
    pub name_span: Span,
    pub ty: TypeSyntax,
    pub default: Option<Expr>,
    pub variadic: bool,
    pub span: Span,
}

/// A written type.
#[derive(Debug, PartialEq)]
pub struct TypeSyntax {
    pub kind: TypeSyntaxKind,
    pub span: Span,
}

/// The forms of written types.
#[derive(Debug, PartialEq)]
pub enum TypeSyntaxKind {
    Named { name: String, arguments: Vec<TypeSyntax> },
    Nullable(Box<TypeSyntax>),
    Union(Vec<TypeSyntax>),
}

/// An expression.
#[derive(Debug, PartialEq)]
pub struct Expr {
    pub kind: ExprKind,
    pub span: Span,
}

/// The forms of expressions. A float literal is kept as the bits of its
/// IEEE 754 double.
#[derive(Debug, PartialEq)]
pub enum ExprKind {
    Integer(i64),
    Float(u64),
    Bool(bool),
    Null,
    String(Vec<u8>),
    Variable(String),
    Name(String),
    Vector(Vec<Expr>),
    MapLiteral(Vec<MapEntry>),
    Unary { op: UnaryOp, operand: Box<Expr> },
    Binary { op: BinaryOp, left: Box<Expr>, right: Box<Expr> },
    Call { callee: Box<Expr>, arguments: Vec<Argument> },
    Index { collection: Box<Expr>, index: Box<Expr> },
    New { class_name: String, class_span: Span, arguments: Vec<Argument> },
    Property { object: Box<Expr>, name: String, name_span: Span },
    MethodCall { object: Box<Expr>, name: String, name_span: Span, arguments: Vec<Argument> },
    StaticCall { target: ScopeTarget, class_span: Span, name: String, name_span: Span, arguments: Vec<Argument> },
    ClassConstant { class_name: String, class_span: Span, name: String, name_span: Span },
    InstanceOf { value: Box<Expr>, class_name: String, class_span: Span },
    Match { subject: Box<Expr>, arms: Vec<MatchArm> },
}

/// The class a static call is made on.
#[derive(Clone, Debug, PartialEq, Eq)]
pub enum ScopeTarget {
    Named(String),
    SelfType,
    Parent,
    Static,
}

/// A call argument, possibly named.
#[derive(Debug, PartialEq)]
pub struct Argument {
    pub name: Option<String>,
    pub name_span: Option<Span>,
    pub value: Expr,
    pub span: Span,
}

/// An arm of a `match` expression.
#[derive(Debug, PartialEq)]
pub struct MatchArm {
    pub conditions: Vec<Expr>,
    pub value: Expr,
    pub default: bool,
    pub span: Span,
}

/// An entry of a map literal.
#[derive(Debug, PartialEq)]
pub struct MapEntry {
    pub key: Expr,
    pub value: Expr,
    pub span: Span,
}

/// Unary operators.
#[derive(Clone, Copy, Debug, PartialEq, Eq, Structural)]
pub enum UnaryOp {
    Negate,
    Not,
}

/// Binary operators.
#[derive(Clone, Copy, Debug, PartialEq, Eq, Structural)]
pub enum BinaryOp {
    Add,
    Subtract,
    Multiply,
    Divide,
    Remainder,
    Concatenate,
    Equal,
    StrictEqual,
    NotEqual,
    Less,
    LessEqual,
    Greater,
    GreaterEqual,
    And,
    Or,
    Coalesce,
}

} // verus!
