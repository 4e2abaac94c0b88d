//! Statements and their scanning.
use vstd::prelude::*;
use crate::intern::Interned;
use crate::primitive::litr::{KsType, SKsType};
use crate::scan::expr::{
    Expr, SExpr, LocalFuncRaw, SLocalFunc, SArgDecl, view_expr, view_local_func, spec_expr, spec_primary,
    spec_atom, spec_with_left, lemma_atom, fwd, ArgDecl, is_empty_expr, view_arg, view_args, kw_true, kw_false,
};
use crate::primitive::litr::{Litr, SLitr};
use crate::scan::shift::{shifted, shift_spaces, shift_expr};
use crate::scan::{
    ScanError, Scanned, Scanner, outcome, byte_at, spec_spaces, spec_ident, lemma_spaces, lemma_ident,
    line_at, spaces_from, lemma_newlines_mono, is_ident_char, ident_end,
};

verus! {

/// A list of statements, each with the line on which its scanning ended.
#[derive(Debug)]
pub struct Statements(pub Vec<(usize, Stmt)>);

/// A statement.
#[derive(Debug)]
pub enum Stmt {
    Empty,
    /// `let`
    Let(AssignDef),
    /// `const`
    Const(AssignDef),
    /// `const(name)`: locks a variable.
    Lock(Interned),
    /// A class declaration.
    Class(Box<ClassDefRaw>),
    /// `class Name = expr`: a class alias.
    Using(Interned, Expr),
    /// `mod path> name`: the module's name and the path it is loaded from.
    Mod(Interned, Vec<u8>),
    /// `mod.name(...)`: an exported function.
    ExportFn(Interned, LocalFuncRaw),
    /// `mod: Name { ... }`: an exported class.
    ExportCls(Box<ClassDefRaw>),
    Match { to: Expr, arms: Vec<(Vec<(Expr, MatchOrd)>, Statements)>, def: Option<Statements> },
    Block(Statements),
    If { condition: Expr, body: Box<Stmt>, els: Option<Box<Stmt>> },
    /// `for!`: an endless loop.
    ForLoop(Box<Stmt>),
    /// `for (condition)`
    ForWhile { condition: Expr, body: Box<Stmt> },
    /// `for v:iterator` or `for iterator`
    ForIter { iterator: Expr, id: Option<Interned>, body: Box<Stmt> },
    Break,
    Continue,
    Return(Expr),
    Throw(Expr),
    Try { stmt: Box<Stmt>, catc: Option<(Interned, Statements)> },
    Expression(Expr),
}

/// An assignment: `let id = val` (or `let id < val`, which takes the value).
#[derive(Debug)]
pub struct AssignDef {
    pub id: AssignTo,
    pub val: Expr,
    pub take: bool,
}

/// The left side of an assignment.
#[derive(Debug)]
pub enum AssignTo {
    /// One name.
    One(Interned),
    /// Destructuring into several names.
    Destr(Vec<Interned>),
}

/// A class declaration, not yet bound to a scope.
#[derive(Debug)]
pub struct ClassDefRaw {
    pub name: Interned,
    pub props: Vec<ClassProp>,
    pub methods: Vec<ClassFuncRaw>,
    pub statics: Vec<ClassFuncRaw>,
}

/// A property declared in a class.
#[derive(Debug)]
pub struct ClassProp {
    pub name: Interned,
    pub typ: KsType,
    pub public: bool,
}

/// A function declared in a class, not yet bound to a scope.
#[derive(Debug)]
pub struct ClassFuncRaw {
    pub name: Interned,
    pub f: LocalFuncRaw,
    pub public: bool,
}

/// How a `match` arm compares the matched value with its condition.
#[derive(Debug, Clone, Copy, PartialEq, Eq)]
pub enum MatchOrd {
    Greater,
    GreaterEq,
    Less,
    LessEq,
    Eq,
}

pub type SStatements = Seq<(nat, SStmt)>;

pub enum SAssignTo {
    One(Seq<u8>),
    Destr(Seq<Seq<u8>>),
}

pub struct SAssignDef {
    pub id: SAssignTo,
    pub val: SExpr,
    pub take: bool,
}

pub struct SClassProp {
    pub name: Seq<u8>,
    pub typ: SKsType,
    pub public: bool,
}

pub struct SClassFunc {
    pub name: Seq<u8>,
    pub f: SLocalFunc,
    pub public: bool,
}

pub struct SClassDef {
    pub name: Seq<u8>,
    pub props: Seq<SClassProp>,
    pub methods: Seq<SClassFunc>,
    pub statics: Seq<SClassFunc>,
}

pub type SArm = (Seq<(SExpr, MatchOrd)>, SStatements);

/// The mathematical value of a [`Stmt`].
pub enum SStmt {
    Empty,
    Let(SAssignDef),
    Const(SAssignDef),
    Lock(Seq<u8>),
    Class(SClassDef),
    Using(Seq<u8>, SExpr),
    Mod(Seq<u8>, Seq<u8>),
    ExportFn(Seq<u8>, SLocalFunc),
    ExportCls(SClassDef),
    Match { to: SExpr, arms: Seq<SArm>, def: Option<SStatements> },
    Block(SStatements),
    If { condition: SExpr, body: Box<SStmt>, els: Option<Box<SStmt>> },
    ForLoop(Box<SStmt>),
    ForWhile { condition: SExpr, body: Box<SStmt> },
    ForIter { iterator: SExpr, id: Option<Seq<u8>>, body: Box<SStmt> },
    Break,
    Continue,
    Return(SExpr),
    Throw(SExpr),
    Try { stmt: Box<SStmt>, catc: Option<(Seq<u8>, SStatements)> },
    Expression(SExpr),
}

pub open spec fn view_names(v: Seq<Interned>) -> Seq<Seq<u8>> {
    Seq::new(v.len(), |i: int| v[i]@)
}

pub open spec fn view_assign_to(a: AssignTo) -> SAssignTo {
    match a {
        AssignTo::One(n) => SAssignTo::One(n@),
        AssignTo::Destr(v) => SAssignTo::Destr(view_names(v@)),
    }
}

impl View for AssignTo {
    type V = SAssignTo;

    open spec fn view(&self) -> SAssignTo {
        view_assign_to(*self)
    }
}

pub open spec fn view_assign(a: AssignDef) -> SAssignDef
    decreases a,
{
    SAssignDef { id: view_assign_to(a.id), val: view_expr(a.val), take: a.take }
}

impl View for AssignDef {
    type V = SAssignDef;

    open spec fn view(&self) -> SAssignDef {
        view_assign(*self)
    }
}

pub open spec fn view_prop(p: ClassProp) -> SClassProp {
    SClassProp { name: p.name@, typ: p.typ@, public: p.public }
}

impl View for ClassProp {
    type V = SClassProp;

    open spec fn view(&self) -> SClassProp {
        view_prop(*self)
    }
}

pub open spec fn view_class_func(f: ClassFuncRaw) -> SClassFunc
    decreases f,
{
    SClassFunc { name: f.name@, f: view_local_func(f.f), public: f.public }
}

impl View for ClassFuncRaw {
    type V = SClassFunc;

    open spec fn view(&self) -> SClassFunc {
        view_class_func(*self)
    }
}

pub open spec fn view_class_funcs(v: Vec<ClassFuncRaw>) -> Seq<SClassFunc>
    decreases v,
{
    Seq::new(
        v@.len(),
        |i: int|
            if 0 <= i < v@.len() {
                proof {
                    assert(decreases_to!(v => v@[i]));
                }
                view_class_func(v@[i])
            } else {
                SClassFunc {
                    name: Seq::empty(),
                    f: SLocalFunc { args: Seq::empty(), stmts: Seq::empty() },
                    public: false,
                }
            },
    )
}

pub open spec fn view_class(c: ClassDefRaw) -> SClassDef
    decreases c,
{
    SClassDef {
        name: c.name@,
        props: Seq::new(c.props@.len(), |i: int| c.props@[i]@),
        methods: view_class_funcs(c.methods),
        statics: view_class_funcs(c.statics),
    }
}

impl View for ClassDefRaw {
    type V = SClassDef;

    open spec fn view(&self) -> SClassDef {
        view_class(*self)
    }
}

pub open spec fn view_statements(ss: Statements) -> SStatements
    decreases ss,
{
    Seq::new(
        ss.0@.len(),
        |i: int|
            if 0 <= i < ss.0@.len() {
                proof {
                    assert(decreases_to!(ss.0 => ss.0@[i]));
                    assert(decreases_to!(ss.0@[i] => ss.0@[i].1));
                }
                (ss.0@[i].0 as nat, view_stmt(ss.0@[i].1))
            } else {
                (0nat, SStmt::Empty)
            },
    )
}

impl View for Statements {
    type V = SStatements;

    open spec fn view(&self) -> SStatements {
        view_statements(*self)
    }
}

pub open spec fn view_conds(v: Vec<(Expr, MatchOrd)>) -> Seq<(SExpr, MatchOrd)>
    decreases v,
{
    Seq::new(
        v@.len(),
        |i: int|
            if 0 <= i < v@.len() {
                proof {
                    assert(decreases_to!(v => v@[i]));
                    assert(decreases_to!(v@[i] => v@[i].0));
                }
                (view_expr(v@[i].0), v@[i].1)
            } else {
                (SExpr::Empty, MatchOrd::Eq)
            },
    )
}

pub open spec fn view_arms(v: Vec<(Vec<(Expr, MatchOrd)>, Statements)>) -> Seq<SArm>
    decreases v,
{
    Seq::new(
        v@.len(),
        |i: int|
            if 0 <= i < v@.len() {
                proof {
                    assert(decreases_to!(v => v@[i]));
                    assert(decreases_to!(v@[i] => v@[i].0));
                    assert(decreases_to!(v@[i] => v@[i].1));
                }
                (view_conds(v@[i].0), view_statements(v@[i].1))
            } else {
                (Seq::empty(), Seq::empty())
            },
    )
}

pub open spec fn view_stmt(st: Stmt) -> SStmt
    decreases st,
{
    match st {
        Stmt::Empty => SStmt::Empty,
        Stmt::Let(a) => SStmt::Let(view_assign(a)),
        Stmt::Const(a) => SStmt::Const(view_assign(a)),
        Stmt::Lock(n) => SStmt::Lock(n@),
        Stmt::Class(c) => SStmt::Class(view_class(*c)),
        Stmt::Using(n, e) => SStmt::Using(n@, view_expr(e)),
        Stmt::Mod(n, p) => SStmt::Mod(n@, p@),
        Stmt::ExportFn(n, f) => SStmt::ExportFn(n@, view_local_func(f)),
        Stmt::ExportCls(c) => SStmt::ExportCls(view_class(*c)),
        Stmt::Match { to, arms, def } => SStmt::Match {
            to: view_expr(to),
            arms: view_arms(arms),
            def: match def {
                Some(d) => Some(view_statements(d)),
                None => None,
            },
        },
        Stmt::Block(b) => SStmt::Block(view_statements(b)),
        Stmt::If { condition, body, els } => SStmt::If {
            condition: view_expr(condition),
            body: Box::new(view_stmt(*body)),
            els: match els {
                Some(e) => Some(Box::new(view_stmt(*e))),
                None => None,
            },
        },
        Stmt::ForLoop(x) => SStmt::ForLoop(Box::new(view_stmt(*x))),
        Stmt::ForWhile { condition, body } => SStmt::ForWhile {
            condition: view_expr(condition),
            body: Box::new(view_stmt(*body)),
        },
        Stmt::ForIter { iterator, id, body } => SStmt::ForIter {
            iterator: view_expr(iterator),
            id: match id {
                Some(n) => Some(n@),
                None => None,
            },
            body: Box::new(view_stmt(*body)),
        },
        Stmt::Break => SStmt::Break,
        Stmt::Continue => SStmt::Continue,
        Stmt::Return(e) => SStmt::Return(view_expr(e)),
        Stmt::Throw(e) => SStmt::Throw(view_expr(e)),
        Stmt::Try { stmt, catc } => SStmt::Try {
            stmt: Box::new(view_stmt(*stmt)),
            catc: match catc {
                Some((n, b)) => Some((n@, view_statements(b))),
                None => None,
            },
        },
        Stmt::Expression(e) => SStmt::Expression(view_expr(e)),
    }
}

impl View for Stmt {
    type V = SStmt;

    open spec fn view(&self) -> SStmt {
        view_stmt(*self)
    }
}

} // verus!

verus! {

/// The keywords that start statements.
#[derive(Debug, Clone, Copy, PartialEq, Eq)]
pub enum Keyword {
    Let,
    Const,
    Extern,
    Return,
    Class,
    Mod,
    For,
    If,
    Else,
    Break,
    Continue,
    Async,
    Await,
    Throw,
    Try,
    Catch,
    Match,
}

/// The keyword spelled `id`, if any.
pub open spec fn keyword_of(id: Seq<u8>) -> Option<Keyword> {
    if id == seq![108u8, 101, 116] {
        Some(Keyword::Let)
    } else if id == seq![99u8, 111, 110, 115, 116] {
        Some(Keyword::Const)
    } else if id == seq![101u8, 120, 116, 101, 114, 110] {
        Some(Keyword::Extern)
    } else if id == kw_return() {
        Some(Keyword::Return)
    } else if id == seq![99u8, 108, 97, 115, 115] {
        Some(Keyword::Class)
    } else if id == seq![109u8, 111, 100] {
        Some(Keyword::Mod)
    } else if id == seq![102u8, 111, 114] {
        Some(Keyword::For)
    } else if id == seq![105u8, 102] {
        Some(Keyword::If)
    } else if id == kw_else() {
        Some(Keyword::Else)
    } else if id == seq![98u8, 114, 101, 97, 107] {
        Some(Keyword::Break)
    } else if id == seq![99u8, 111, 110, 116, 105, 110, 117, 101] {
        Some(Keyword::Continue)
    } else if id == seq![97u8, 115, 121, 110, 99] {
        Some(Keyword::Async)
    } else if id == seq![97u8, 119, 97, 105, 116] {
        Some(Keyword::Await)
    } else if id == seq![116u8, 104, 114, 111, 119] {
        Some(Keyword::Throw)
    } else if id == seq![116u8, 114, 121] {
        Some(Keyword::Try)
    } else if id == kw_catch() {
        Some(Keyword::Catch)
    } else if id == seq![109u8, 97, 116, 99, 104] {
        Some(Keyword::Match)
    } else {
        None
    }
}

pub open spec fn kw_else() -> Seq<u8> {
    seq![101u8, 108, 115, 101]
}

pub open spec fn kw_catch() -> Seq<u8> {
    seq![99u8, 97, 116, 99, 104]
}

/// The name given to a caught error when `catch` names none: `.err`.
pub open spec fn default_err_name() -> Seq<u8> {
    seq![46u8, 101, 114, 114]
}

/// The built-in type spelled `n`, or the class named `n`.
pub open spec fn kstype_of(n: Seq<u8>) -> SKsType {
    if n == seq![65u8, 110, 121] {
        SKsType::Any
    } else if n == seq![73u8, 110, 116] {
        SKsType::Int
    } else if n == seq![85u8, 105, 110, 116] {
        SKsType::Uint
    } else if n == seq![70u8, 108, 111, 97, 116] {
        SKsType::Float
    } else if n == seq![66u8, 111, 111, 108] {
        SKsType::Bool
    } else if n == seq![70u8, 117, 110, 99] {
        SKsType::Func
    } else if n == seq![83u8, 116, 114] {
        SKsType::Str
    } else if n == seq![66u8, 117, 102] {
        SKsType::Buf
    } else if n == seq![76u8, 105, 115, 116] {
        SKsType::List
    } else if n == seq![79u8, 98, 106] {
        SKsType::Obj
    } else {
        SKsType::Class(n)
    }
}

/// Bytes that cannot start a statement.
pub open spec fn bad_start(b: u8) -> bool {
    b >= 127 || b == 41 || b == 125 || b == 93 || b == 63 || b == 44 || b == 92 || b == 36 || b == 35
}

/// A function body: the statements of a block, or the single statement, with the
/// line on which it ended.
pub open spec fn body_of(st: SStmt, line: nat) -> SStatements {
    match st {
        SStmt::Block(b) => b,
        _ => seq![(line, st)],
    }
}

/// An optional type annotation `: Type` after blanks; without one the type is `Any`
/// and nothing is scanned.
pub open spec fn spec_type(s: Seq<u8>, p: int) -> Scanned<SKsType> {
    let q = spec_spaces(s, p);
    if byte_at(s, q) == 58 {
        match spec_ident(s, spec_spaces(s, q + 1)) {
            Some((n, e)) => Ok((kstype_of(n), e)),
            None => Err(ScanError::ExpectedName),
        }
    } else {
        Ok((SKsType::Any, p))
    }
}

pub proof fn lemma_type(s: Seq<u8>, p: int)
    requires
        0 <= p <= s.len(),
    ensures
        spec_type(s, p) matches Ok((t, e)) ==> p <= e <= s.len(),
{
    lemma_spaces(s, p);
    let q = spec_spaces(s, p);
    if byte_at(s, q) == 58 {
        lemma_spaces(s, q + 1);
        lemma_ident(s, spec_spaces(s, q + 1));
    }
}

/// Parameter declarations `name: Type, ...`, after the `(`, up to the first byte
/// that does not start one; `acc` holds those already scanned.
pub open spec fn spec_params(s: Seq<u8>, p: int, acc: Seq<SArgDecl>) -> Scanned<Seq<SArgDecl>>
    decreases s.len() - p,
{
    let q = spec_spaces(s, p);
    match spec_ident(s, q) {
        None => Ok((acc, q)),
        Some((n, e)) => {
            proof {
                lemma_spaces(s, p);
                lemma_ident(s, q);
                lemma_type(s, e);
            }
            match spec_type(s, e) {
                Err(x) => Err(x),
                Ok((t, f)) => {
                    proof {
                        lemma_spaces(s, f);
                    }
                    let g = spec_spaces(s, f);
                    let h = if byte_at(s, g) == 44 { g + 1 } else { g };
                    spec_params(s, h, acc.push(SArgDecl { name: n, t }))
                },
            }
        },
    }
}

pub proof fn lemma_params(s: Seq<u8>, p: int, acc: Seq<SArgDecl>)
    requires
        0 <= p <= s.len() + 1,
    ensures
        spec_params(s, p, acc) matches Ok((a, e)) ==> p <= e && (p <= s.len() ==> e <= s.len()),
    decreases s.len() - p,
{
    lemma_spaces(s, p);
    let q = spec_spaces(s, p);
    lemma_ident(s, q);
    if let Some((n, e)) = spec_ident(s, q) {
        lemma_type(s, e);
        if let Ok((t, f)) = spec_type(s, e) {
            lemma_spaces(s, f);
            let g = spec_spaces(s, f);
            let h = if byte_at(s, g) == 44 { g + 1 } else { g };
            lemma_params(s, h, acc.push(SArgDecl { name: n, t }));
        }
    }
}

/// The names of a destructuring `let`, separated by blanks or commas.
pub open spec fn spec_names(s: Seq<u8>, p: int, acc: Seq<Seq<u8>>) -> (Seq<Seq<u8>>, int)
    decreases s.len() - p,
{
    match spec_ident(s, p) {
        None => (acc, p),
        Some((id, e)) => {
            proof {
                lemma_ident(s, p);
                lemma_spaces(s, e);
            }
            let e1 = spec_spaces(s, e);
            proof {
                lemma_spaces(s, e1 + 1);
            }
            let e2 = if byte_at(s, e1) == 44 { spec_spaces(s, e1 + 1) } else { e1 };
            spec_names(s, e2, acc.push(id))
        },
    }
}

pub proof fn lemma_names(s: Seq<u8>, p: int, acc: Seq<Seq<u8>>)
    requires
        0 <= p <= s.len() + 1,
    ensures
        p <= spec_names(s, p, acc).1,
        p <= s.len() ==> spec_names(s, p, acc).1 <= s.len(),
    decreases s.len() - p,
{
    lemma_ident(s, p);
    if let Some((id, e)) = spec_ident(s, p) {
        lemma_spaces(s, e);
        let e1 = spec_spaces(s, e);
        lemma_spaces(s, e1 + 1);
        let e2 = if byte_at(s, e1) == 44 { spec_spaces(s, e1 + 1) } else { e1 };
        lemma_names(s, e2, acc.push(id));
    }
}

/// The position of the first `>` at or after `p`, or the end.
pub open spec fn gt_end(s: Seq<u8>, p: int) -> int
    decreases s.len() - p,
{
    if p < 0 || p >= s.len() || s[p] == 62 {
        p
    } else {
        gt_end(s, p + 1)
    }
}

/// `return` (or `:`): the returned expression, `uninit` when none is written.
pub open spec fn spec_returning(s: Seq<u8>, p: int) -> Scanned<SStmt> {
    match spec_expr(s, spec_spaces(s, p)) {
        Err(e) => Err(e),
        Ok((e, r)) => Ok(
            (
                SStmt::Return(
                    if e is Empty {
                        SExpr::Literal(SLitr::Uninit)
                    } else {
                        e
                    },
                ),
                r,
            ),
        ),
    }
}

/// `throw` and the thrown expression.
pub open spec fn spec_throwing(s: Seq<u8>, p: int) -> Scanned<SStmt> {
    match spec_expr(s, spec_spaces(s, p)) {
        Err(e) => Err(e),
        Ok((e, r)) => if e is Empty {
            Err(ScanError::ThrowNeedsExpr)
        } else {
            Ok((SStmt::Throw(e), r))
        },
    }
}

/// The statement that starts at `p` (after blanks). At the end of the source it is
/// `Empty`, one position past the end.
pub open spec fn spec_stmt(s: Seq<u8>, p: int) -> Scanned<SStmt>
    decreases s.len() - p, 0nat,
{
    let q = spec_spaces(s, p);
    proof {
        lemma_spaces(s, p);
    }
    if q < 0 || q >= s.len() {
        Ok((SStmt::Empty, q + 1))
    } else {
        let b = s[q];
        if b == 59 {
            Ok((SStmt::Empty, q + 1))
        } else if b == 123 {
            match spec_block(s, q + 1, Seq::empty()) {
                Err(e) => Err(e),
                Ok((ss, r)) => Ok((SStmt::Block(ss), r)),
            }
        } else if b == 58 {
            spec_returning(s, q + 1)
        } else if bad_start(b) {
            Err(ScanError::ExpectedStatement(b))
        } else {
            proof {
                lemma_atom(s, q);
            }
            match spec_atom(s, q) {
                Err(e) => Err(e),
                Ok((a, r)) => match a {
                    SExpr::Variant(id) => match keyword_of(id) {
                        Some(k) => spec_keyword(s, k, r),
                        None => match spec_with_left(s, a, r) {
                            Err(e) => Err(e),
                            Ok((e, t)) => Ok((SStmt::Expression(e), t)),
                        },
                    },
                    SExpr::Empty => match spec_expr(s, q) {
                        Err(e) => Err(e),
                        Ok((e, t)) => if e is Empty {
                            Ok((SStmt::Empty, t))
                        } else {
                            Ok((SStmt::Expression(e), t))
                        },
                    },
                    _ => match spec_with_left(s, a, r) {
                        Err(e) => Err(e),
                        Ok((e, t)) => if e is Empty {
                            Ok((SStmt::Empty, t))
                        } else {
                            Ok((SStmt::Expression(e), t))
                        },
                    },
                },
            }
        }
    }
}

/// The statement after the keyword `k`, which ends at `p`.
pub open spec fn spec_keyword(s: Seq<u8>, k: Keyword, p: int) -> Scanned<SStmt>
    decreases s.len() - p, 3nat,
{
    match k {
        Keyword::Let => match spec_letting(s, p) {
            Err(e) => Err(e),
            Ok((a, t)) => Ok((SStmt::Let(a), t)),
        },
        Keyword::Const => if byte_at(s, p) == 40 {
            match spec_primary(s, p) {
                Err(e) => Err(e),
                Ok((e, t)) => match e {
                    SExpr::Variant(n) => Ok((SStmt::Lock(n), t)),
                    _ => Err(ScanError::LockNeedsName),
                },
            }
        } else {
            match spec_letting(s, p) {
                Err(e) => Err(e),
                Ok((a, t)) => Ok((SStmt::Const(a), t)),
            }
        },
        Keyword::Extern => Err(ScanError::ExternUnsupported),
        Keyword::Return => spec_returning(s, p),
        Keyword::Class => spec_classing(s, p),
        Keyword::Mod => spec_moding(s, p),
        Keyword::For => spec_foring(s, p),
        Keyword::If => spec_ifing(s, p),
        Keyword::Else => Err(ScanError::ElseWithoutIf),
        Keyword::Break => Ok((SStmt::Break, p)),
        Keyword::Continue => Ok((SStmt::Continue, p)),
        Keyword::Async | Keyword::Await => Err(ScanError::AsyncUnsupported),
        Keyword::Throw => spec_throwing(s, p),
        Keyword::Try => spec_trying(s, p),
        Keyword::Catch => Err(ScanError::CatchWithoutTry),
        Keyword::Match => spec_matching(s, p),
    }
}

/// The statements of a block up to its `}`, after the `{`; empty statements are
/// dropped and each other statement is paired with the line on which it ended.
/// `acc` holds the statements already scanned.
pub open spec fn spec_block(s: Seq<u8>, p: int, acc: SStatements) -> Scanned<SStatements>
    decreases s.len() - p, 1nat,
{
    if p < 0 || p >= s.len() {
        Err(ScanError::UnclosedBlock)
    } else {
        let q = spec_spaces(s, p);
        proof {
            lemma_spaces(s, p);
        }
        if byte_at(s, q) == 125 {
            Ok((acc, q + 1))
        } else {
            match spec_stmt(s, q) {
                Err(e) => Err(e),
                Ok((st, r)) => if !(q < r) {
                    Err(ScanError::ExpectedStatement(byte_at(s, q)))
                } else if r > s.len() {
                    Err(ScanError::UnclosedBlock)
                } else if st is Empty {
                    spec_block(s, r, acc)
                } else {
                    spec_block(s, r, acc.push((line_at(s, r), st)))
                },
            }
        }
    }
}

/// The name (or names) and the value of a `let` or `const`, after the keyword.
pub open spec fn spec_letting(s: Seq<u8>, p: int) -> Scanned<SAssignDef>
    decreases s.len() - p, 1nat,
{
    let q = spec_spaces(s, p);
    let b = byte_at(s, q);
    let id_res: Scanned<SAssignTo> = if b == 91 || b == 123 {
        let (names, t) = spec_names(s, spec_spaces(s, q + 1), Seq::empty());
        if byte_at(s, t) != b + 2 {
            Err(ScanError::UnclosedDestructure)
        } else {
            Ok((SAssignTo::Destr(names), t + 1))
        }
    } else {
        match spec_ident(s, q) {
            Some((id, t)) => Ok((SAssignTo::One(id), t)),
            None => Err(ScanError::LetNeedsName),
        }
    };
    match id_res {
        Err(e) => Err(e),
        Ok((id, t)) => {
            let u = spec_spaces(s, t);
            let c = byte_at(s, u);
            if c == 61 || c == 60 {
                match spec_expr(s, u + 1) {
                    Err(e) => Err(e),
                    Ok((v, w)) => if v is Empty {
                        Err(ScanError::AssignNothing)
                    } else {
                        Ok((SAssignDef { id, val: v, take: c == 60 }, w))
                    },
                }
            } else if c == 40 {
                proof {
                    lemma_params(s, u + 1, Seq::empty());
                    lemma_spaces(s, p);
                    lemma_spaces(s, t);
                    lemma_spaces(s, q + 1);
                    lemma_ident(s, q);
                    lemma_names(s, spec_spaces(s, q + 1), Seq::empty());
                }
                match spec_params(s, u + 1, Seq::empty()) {
                    Err(e) => Err(e),
                    Ok((args, w)) => if byte_at(s, w) != 41 {
                        Err(ScanError::UnclosedParams)
                    } else {
                        match spec_stmt(s, w + 1) {
                            Err(e) => Err(e),
                            Ok((st, x)) => Ok(
                                (
                                    SAssignDef {
                                        id,
                                        val: SExpr::LocalDecl(
                                            SLocalFunc { args, stmts: body_of(st, line_at(s, x)) },
                                        ),
                                        take: false,
                                    },
                                    x,
                                ),
                            ),
                        }
                    },
                }
            } else {
                Ok((SAssignDef { id, val: SExpr::Literal(SLitr::Uninit), take: false }, u))
            }
        },
    }
}

} // verus!

verus! {

/// A class declaration after `class`, or a class alias `class Name = expr`.
pub open spec fn spec_classing(s: Seq<u8>, p: int) -> Scanned<SStmt>
    decreases s.len() - p, 1nat,
{
    let q = spec_spaces(s, p);
    match spec_ident(s, q) {
        None => Err(ScanError::ClassNeedsName),
        Some((id, e)) => {
            let r = spec_spaces(s, e);
            if byte_at(s, r) == 61 {
                match spec_expr(s, r + 1) {
                    Err(x) => Err(x),
                    Ok((x, t)) => Ok((SStmt::Using(id, x), t)),
                }
            } else if byte_at(s, r) != 123 {
                Err(ScanError::ClassNeedsBrace)
            } else {
                proof {
                    lemma_spaces(s, p);
                    lemma_ident(s, q);
                    lemma_spaces(s, e);
                }
                match spec_members(s, r + 1, Seq::empty(), Seq::empty(), Seq::empty()) {
                    Err(x) => Err(x),
                    Ok(((props, methods, statics), t)) => {
                        let u = spec_spaces(s, t);
                        if byte_at(s, u) != 125 {
                            Err(ScanError::UnclosedClass)
                        } else {
                            Ok(
                                (
                                    SStmt::Class(SClassDef { name: id, props, methods, statics }),
                                    u + 1,
                                ),
                            )
                        }
                    },
                }
            }
        },
    }
}

/// The members of a class body after its `{`: properties `name: Type`, static
/// functions `name(...) body` and methods `.name(...) body`, each public when
/// preceded by `>`; up to the first byte that does not start one.
pub open spec fn spec_members(
    s: Seq<u8>,
    p: int,
    props: Seq<SClassProp>,
    methods: Seq<SClassFunc>,
    statics: Seq<SClassFunc>,
) -> Scanned<(Seq<SClassProp>, Seq<SClassFunc>, Seq<SClassFunc>)>
    decreases s.len() - p, 1nat,
{
    let q = spec_spaces(s, p);
    let public = byte_at(s, q) == 62;
    let q1 = if public { spec_spaces(s, q + 1) } else { q };
    let is_method = byte_at(s, q1) == 46;
    let q2 = if is_method { q1 + 1 } else { q1 };
    proof {
        lemma_spaces(s, p);
        lemma_spaces(s, q + 1);
        lemma_ident(s, q2);
    }
    match spec_ident(s, q2) {
        None => Ok(((props, methods, statics), q2)),
        Some((id, e)) => if byte_at(s, e) == 40 {
            proof {
                lemma_params(s, e + 1, Seq::empty());
            }
            match spec_params(s, e + 1, Seq::empty()) {
                Err(x) => Err(x),
                Ok((args, w)) => if byte_at(s, w) != 41 {
                    Err(ScanError::UnclosedParams)
                } else {
                    match spec_stmt(s, w + 1) {
                        Err(x) => Err(x),
                        Ok((st, x)) => if !(p < x <= s.len()) {
                            Err(ScanError::UnclosedClass)
                        } else {
                            let f = SClassFunc {
                                name: id,
                                f: SLocalFunc { args, stmts: body_of(st, line_at(s, x)) },
                                public,
                            };
                            proof {
                                lemma_spaces(s, x);
                            }
                            let y = spec_spaces(s, x);
                            let z = if byte_at(s, y) == 44 { y + 1 } else { y };
                            if is_method {
                                spec_members(s, z, props, methods.push(f), statics)
                            } else {
                                spec_members(s, z, props, methods, statics.push(f))
                            }
                        },
                    }
                },
            }
        } else {
            proof {
                lemma_type(s, e);
            }
            match spec_type(s, e) {
                Err(x) => Err(x),
                Ok((t, x)) => {
                    proof {
                        lemma_spaces(s, x);
                    }
                    let y = spec_spaces(s, x);
                    let z = if byte_at(s, y) == 44 { y + 1 } else { y };
                    spec_members(
                        s,
                        z,
                        props.push(SClassProp { name: id, typ: t, public }),
                        methods,
                        statics,
                    )
                },
            }
        },
    }
}

/// After `mod`: an exported function `mod.name(...)`, an exported class `mod: Name {...}`,
/// or a module import `mod path> name`.
pub open spec fn spec_moding(s: Seq<u8>, p: int) -> Scanned<SStmt>
    decreases s.len() - p, 1nat,
{
    let b = byte_at(s, p);
    if b == 46 {
        match spec_letting(s, p + 1) {
            Err(e) => Err(e),
            Ok((a, t)) => match a.id {
                SAssignTo::One(n) => match a.val {
                    SExpr::LocalDecl(f) => Ok((SStmt::ExportFn(n, f), t)),
                    _ => Err(ScanError::ExportLocalFunctionOnly),
                },
                SAssignTo::Destr(_) => Err(ScanError::ExportOneFunction),
            },
        }
    } else if b == 58 {
        match spec_classing(s, p + 1) {
            Err(e) => Err(e),
            Ok((c, t)) => match c {
                SStmt::Class(d) => Ok((SStmt::ExportCls(d), t)),
                _ => Err(ScanError::ExportUsing),
            },
        }
    } else {
        let q = spec_spaces(s, p);
        let g = gt_end(s, q);
        if g < 0 || g >= s.len() {
            Err(ScanError::ModNeedsGt)
        } else {
            match spec_ident(s, spec_spaces(s, g + 1)) {
                None => Err(ScanError::ModNeedsName),
                Some((name, e)) => Ok((SStmt::Mod(name, s.subrange(q, g)), spec_spaces(s, e))),
            }
        }
    }
}

/// `if`: the condition, the statement run when it holds, and an optional `else` statement.
pub open spec fn spec_ifing(s: Seq<u8>, p: int) -> Scanned<SStmt>
    decreases s.len() - p, 1nat,
{
    match spec_expr(s, p) {
        Err(e) => Err(e),
        Ok((c, q)) => if !fwd(p, q, s.len() as int) {
            Err(ScanError::ExpectedStatement(byte_at(s, p)))
        } else {
            match spec_stmt(s, q) {
                Err(e) => Err(e),
                Ok((x, r)) => if !(q <= r) {
                    Err(ScanError::ExpectedStatement(byte_at(s, q)))
                } else {
                    let t = spec_spaces(s, r);
                    proof {
                        lemma_spaces(s, r);
                    }
                    if byte_at(s, t) == 101 && t + 4 <= s.len() && s.subrange(t, t + 4) == kw_else() {
                        match spec_stmt(s, t + 4) {
                            Err(e) => Err(e),
                            Ok((el, u)) => Ok(
                                (SStmt::If { condition: c, body: Box::new(x), els: Some(Box::new(el)) }, u),
                            ),
                        }
                    } else {
                        Ok((SStmt::If { condition: c, body: Box::new(x), els: None }, t))
                    }
                },
            }
        },
    }
}

/// `for`: `for (condition) body`, `for! body`, `for name: iterator body` or `for iterator body`.
pub open spec fn spec_foring(s: Seq<u8>, p: int) -> Scanned<SStmt>
    decreases s.len() - p, 2nat,
{
    let q = spec_spaces(s, p);
    let b = byte_at(s, q);
    proof {
        lemma_spaces(s, p);
    }
    if b == 40 {
        match spec_primary(s, q) {
            Err(e) => Err(e),
            Ok((c, r)) => if !fwd(q, r, s.len() as int) {
                Err(ScanError::ExpectedStatement(b))
            } else {
                match spec_stmt(s, r) {
                    Err(e) => Err(e),
                    Ok((x, t)) => Ok((SStmt::ForWhile { condition: c, body: Box::new(x) }, t)),
                }
            },
        }
    } else if b == 33 {
        match spec_stmt(s, q + 1) {
            Err(e) => Err(e),
            Ok((x, t)) => Ok((SStmt::ForLoop(Box::new(x)), t)),
        }
    } else {
        spec_for_iter(s, q)
    }
}

/// `for name: iterator body` or `for iterator body`, with the loop head at `q`.
pub open spec fn spec_for_iter(s: Seq<u8>, q: int) -> Scanned<SStmt>
    decreases s.len() - q, 1nat,
{
    let b = byte_at(s, q);
    proof {
        lemma_atom(s, q);
    }
    match spec_atom(s, q) {
        Err(e) => Err(e),
        Ok((left, r)) => {
            proof {
                lemma_spaces(s, r);
            }
            let r2 = spec_spaces(s, r);
            if byte_at(s, r2) == 58 {
                match left {
                    SExpr::Variant(id) => match spec_expr(s, r2 + 1) {
                        Err(e) => Err(e),
                        Ok((it, t)) => if !fwd(r2 + 1, t, s.len() as int) {
                            Err(ScanError::ExpectedStatement(b))
                        } else {
                            match spec_stmt(s, t) {
                                Err(e) => Err(e),
                                Ok((x, u)) => Ok(
                                    (SStmt::ForIter { iterator: it, id: Some(id), body: Box::new(x) }, u),
                                ),
                            }
                        },
                    },
                    _ => Err(ScanError::ForNeedsName),
                }
            } else {
                let it_res = if left is Empty {
                    spec_expr(s, r2)
                } else {
                    spec_with_left(s, left, r2)
                };
                match it_res {
                    Err(e) => Err(e),
                    Ok((it, t)) => if !fwd(r2, t, s.len() as int) {
                        Err(ScanError::ExpectedStatement(b))
                    } else {
                        match spec_stmt(s, t) {
                            Err(e) => Err(e),
                            Ok((x, u)) => Ok(
                                (SStmt::ForIter { iterator: it, id: None, body: Box::new(x) }, u),
                            ),
                        }
                    },
                }
            }
        },
    }
}

/// `try`: the guarded statement, and an optional `catch name { ... }`.
pub open spec fn spec_trying(s: Seq<u8>, p: int) -> Scanned<SStmt>
    decreases s.len() - p, 1nat,
{
    match spec_stmt(s, p) {
        Err(e) => Err(e),
        Ok((blk, r)) => if !(p <= r) {
            Err(ScanError::ExpectedStatement(byte_at(s, p)))
        } else {
            let t = spec_spaces(s, r);
            proof {
                lemma_spaces(s, r);
            }
            if byte_at(s, t) == 99 && t + 5 <= s.len() && s.subrange(t, t + 5) == kw_catch() {
                match spec_catching(s, t + 5) {
                    Err(e) => Err(e),
                    Ok((c, w)) => Ok((SStmt::Try { stmt: Box::new(blk), catc: Some(c) }, w)),
                }
            } else {
                Ok((SStmt::Try { stmt: Box::new(blk), catc: None }, t))
            }
        },
    }
}

/// What follows `catch`: the error's name (`.err` when none is written) and the
/// block that handles it.
pub open spec fn spec_catching(s: Seq<u8>, p: int) -> Scanned<(Seq<u8>, SStatements)>
    decreases s.len() - p, 1nat,
{
    let u = spec_spaces(s, p);
    proof {
        lemma_spaces(s, p);
        lemma_ident(s, u);
    }
    let (id, v) = match spec_ident(s, u) {
        Some((id, e)) => (id, e),
        None => (default_err_name(), u),
    };
    match spec_stmt(s, v) {
        Err(e) => Err(e),
        Ok((c, w)) => match c {
            SStmt::Block(b) => Ok(((id, b), w)),
            _ => Err(ScanError::CatchNeedsBlock),
        },
    }
}

/// `match`: the matched expression and the arms inside `{...}`.
pub open spec fn spec_matching(s: Seq<u8>, p: int) -> Scanned<SStmt>
    decreases s.len() - p, 1nat,
{
    let q = spec_spaces(s, p);
    if byte_at(s, q) == 123 {
        Err(ScanError::MatchNeedsExpr)
    } else {
        match spec_expr(s, q) {
            Err(e) => Err(e),
            Ok((to, r)) => if to is Empty || !(q < r <= s.len()) {
                Err(ScanError::MatchNeedsExpr)
            } else {
                let t = spec_spaces(s, r);
                proof {
                    lemma_spaces(s, p);
                    lemma_spaces(s, r);
                }
                if byte_at(s, t) != 123 {
                    Err(ScanError::MatchNeedsBrace)
                } else {
                    match spec_arms(s, t + 1, Seq::empty(), Seq::empty(), None) {
                        Err(e) => Err(e),
                        Ok(((arms, def), u)) => Ok((SStmt::Match { to, arms, def }, u)),
                    }
                }
            },
        }
    }
}

/// The arms of a `match` after its `{`, up to the closing `}`. An arm is a
/// comma-separated list of conditions (each optionally prefixed by `>`, `>=`,
/// `<`, `<=` or `=`) and a block; `- { ... }` is the default arm. `arms` holds
/// the arms already scanned, `conds` the conditions of the arm being scanned.
pub open spec fn spec_arms(
    s: Seq<u8>,
    p: int,
    arms: Seq<SArm>,
    conds: Seq<(SExpr, MatchOrd)>,
    def: Option<SStatements>,
) -> Scanned<(Seq<SArm>, Option<SStatements>)>
    decreases s.len() - p, 1nat,
{
    let q = spec_spaces(s, p);
    let b = byte_at(s, q);
    proof {
        lemma_spaces(s, p);
    }
    if b == 125 {
        Ok(((arms, def), q + 1))
    } else if b == 45 {
        let q1 = spec_spaces(s, q + 1);
        proof {
            lemma_spaces(s, q + 1);
        }
        if byte_at(s, q1) != 123 {
            Err(ScanError::MatchDefaultNeedsBlock)
        } else {
            match spec_block(s, q1 + 1, Seq::empty()) {
                Err(e) => Err(e),
                Ok((d, r)) => if !(p < r <= s.len()) {
                    Err(ScanError::UnclosedBlock)
                } else {
                    spec_arms(s, r, arms, Seq::empty(), Some(d))
                },
            }
        }
    } else {
        let (ord, q2) = if b == 62 {
            if byte_at(s, q + 1) == 61 {
                (MatchOrd::GreaterEq, q + 2)
            } else {
                (MatchOrd::Greater, q + 1)
            }
        } else if b == 60 {
            if byte_at(s, q + 1) == 61 {
                (MatchOrd::LessEq, q + 2)
            } else {
                (MatchOrd::Less, q + 1)
            }
        } else if b == 61 {
            (MatchOrd::Eq, q + 1)
        } else {
            (MatchOrd::Eq, q)
        };
        match spec_expr(s, q2) {
            Err(e) => Err(e),
            Ok((e, r)) => if e is Empty || !(q2 < r <= s.len()) {
                Err(ScanError::MatchEmptyCondition)
            } else {
                let conds2 = conds.push((e, ord));
                let t = spec_spaces(s, r);
                proof {
                    lemma_spaces(s, r);
                }
                if byte_at(s, t) == 44 {
                    spec_arms(s, t + 1, arms, conds2, def)
                } else if byte_at(s, t) != 123 {
                    Err(ScanError::MatchArmNeedsBlock)
                } else {
                    match spec_block(s, t + 1, Seq::empty()) {
                        Err(e) => Err(e),
                        Ok((run, u)) => if !(p < u <= s.len()) {
                            Err(ScanError::UnclosedBlock)
                        } else {
                            spec_arms(s, u, arms.push((conds2, run)), Seq::empty(), def)
                        },
                    }
                }
            },
        }
    }
}

/// The statements of a whole source from `p` on, dropping empty statements and
/// pairing each other one with the line on which it ended; `acc` holds those
/// already scanned.
pub open spec fn spec_scan_from(s: Seq<u8>, p: int, acc: SStatements) -> Result<SStatements, ScanError>
    decreases s.len() - p,
{
    if p < 0 || p >= s.len() {
        Ok(acc)
    } else {
        match spec_stmt(s, p) {
            Err(e) => Err(e),
            Ok((st, r)) => if !(p < r) {
                Err(ScanError::ExpectedStatement(byte_at(s, spec_spaces(s, p))))
            } else {
                let acc2 = if st is Empty { acc } else { acc.push((line_at(s, r), st)) };
                if r >= s.len() {
                    Ok(acc2)
                } else {
                    spec_scan_from(s, r, acc2)
                }
            },
        }
    }
}

/// The statements of a whole source.
pub open spec fn spec_scan(s: Seq<u8>) -> Result<SStatements, ScanError> {
    spec_scan_from(s, 0, Seq::empty())
}

} // verus!

verus! {

/// The views of statements paired with their lines.
pub open spec fn view_stmt_vec(v: Seq<(usize, Stmt)>) -> SStatements {
    Seq::new(v.len(), |i: int| (v[i].0 as nat, v[i].1@))
}

pub proof fn lemma_view_statements(ss: Statements)
    ensures
        view_statements(ss) == view_stmt_vec(ss.0@),
{
    assert(view_statements(ss) =~= view_stmt_vec(ss.0@));
}

pub open spec fn view_prop_vec(v: Seq<ClassProp>) -> Seq<SClassProp> {
    Seq::new(v.len(), |i: int| v[i]@)
}

pub open spec fn view_func_vec(v: Seq<ClassFuncRaw>) -> Seq<SClassFunc> {
    Seq::new(v.len(), |i: int| v[i]@)
}

pub proof fn lemma_view_class(c: ClassDefRaw)
    ensures
        view_class(c) == (SClassDef {
            name: c.name@,
            props: view_prop_vec(c.props@),
            methods: view_func_vec(c.methods@),
            statics: view_func_vec(c.statics@),
        }),
{
    assert(view_class_funcs(c.methods) =~= view_func_vec(c.methods@));
    assert(view_class_funcs(c.statics) =~= view_func_vec(c.statics@));
    assert(view_class(c).props =~= view_prop_vec(c.props@));
}

pub open spec fn view_cond_vec(v: Seq<(Expr, MatchOrd)>) -> Seq<(SExpr, MatchOrd)> {
    Seq::new(v.len(), |i: int| (v[i].0@, v[i].1))
}

pub open spec fn view_arm_vec(v: Seq<(Vec<(Expr, MatchOrd)>, Statements)>) -> Seq<SArm> {
    Seq::new(v.len(), |i: int| (view_cond_vec(v[i].0@), v[i].1@))
}

pub proof fn lemma_view_arms(v: Vec<(Vec<(Expr, MatchOrd)>, Statements)>)
    ensures
        view_arms(v) == view_arm_vec(v@),
{
    assert forall|i: int| 0 <= i < v@.len() implies view_conds(#[trigger] v@[i].0) == view_cond_vec(
        v@[i].0@,
    ) by {
        assert(view_conds(v@[i].0) =~= view_cond_vec(v@[i].0@));
    }
    assert(view_arms(v) =~= view_arm_vec(v@));
}

pub open spec fn view_def(d: Option<Statements>) -> Option<SStatements> {
    match d {
        Some(x) => Some(x@),
        None => None,
    }
}

pub open spec fn view_arg_vec(v: Seq<ArgDecl>) -> Seq<SArgDecl> {
    Seq::new(v.len(), |i: int| v[i]@)
}

/// The keyword spelled by `id`, if any.
pub fn keyword_of_exec(id: &Interned) -> (r: Option<Keyword>)
    ensures
        r == keyword_of(id@),
{
    if id.is(&[108u8, 101, 116]) {
        Some(Keyword::Let)
    } else if id.is(&[99u8, 111, 110, 115, 116]) {
        Some(Keyword::Const)
    } else if id.is(&[101u8, 120, 116, 101, 114, 110]) {
        Some(Keyword::Extern)
    } else if id.is(&[114u8, 101, 116, 117, 114, 110]) {
        Some(Keyword::Return)
    } else if id.is(&[99u8, 108, 97, 115, 115]) {
        Some(Keyword::Class)
    } else if id.is(&[109u8, 111, 100]) {
        Some(Keyword::Mod)
    } else if id.is(&[102u8, 111, 114]) {
        Some(Keyword::For)
    } else if id.is(&[105u8, 102]) {
        Some(Keyword::If)
    } else if id.is(&[101u8, 108, 115, 101]) {
        Some(Keyword::Else)
    } else if id.is(&[98u8, 114, 101, 97, 107]) {
        Some(Keyword::Break)
    } else if id.is(&[99u8, 111, 110, 116, 105, 110, 117, 101]) {
        Some(Keyword::Continue)
    } else if id.is(&[97u8, 115, 121, 110, 99]) {
        Some(Keyword::Async)
    } else if id.is(&[97u8, 119, 97, 105, 116]) {
        Some(Keyword::Await)
    } else if id.is(&[116u8, 104, 114, 111, 119]) {
        Some(Keyword::Throw)
    } else if id.is(&[116u8, 114, 121]) {
        Some(Keyword::Try)
    } else if id.is(&[99u8, 97, 116, 99, 104]) {
        Some(Keyword::Catch)
    } else if id.is(&[109u8, 97, 116, 99, 104]) {
        Some(Keyword::Match)
    } else {
        None
    }
}

/// The built-in type spelled `n`, or the class named `n`.
pub fn kstype_of_exec(n: Interned) -> (r: KsType)
    ensures
        r@ == kstype_of(n@),
{
    if n.is(&[65u8, 110, 121]) {
        KsType::Any
    } else if n.is(&[73u8, 110, 116]) {
        KsType::Int
    } else if n.is(&[85u8, 105, 110, 116]) {
        KsType::Uint
    } else if n.is(&[70u8, 108, 111, 97, 116]) {
        KsType::Float
    } else if n.is(&[66u8, 111, 111, 108]) {
        KsType::Bool
    } else if n.is(&[70u8, 117, 110, 99]) {
        KsType::Func
    } else if n.is(&[83u8, 116, 114]) {
        KsType::Str
    } else if n.is(&[66u8, 117, 102]) {
        KsType::Buf
    } else if n.is(&[76u8, 105, 115, 116]) {
        KsType::List
    } else if n.is(&[79u8, 98, 106]) {
        KsType::Obj
    } else {
        KsType::Class(n)
    }
}

/// The name `.err`.
pub fn default_err_name_exec() -> (r: Interned)
    ensures
        r@ == default_err_name(),
{
    let mut b: Vec<u8> = Vec::new();
    b.push(46);
    b.push(101);
    b.push(114);
    b.push(114);
    assert(b@ =~= default_err_name());
    Interned { b }
}

/// A function body from its scanned statement: a block's statements, or the statement itself.
pub fn body_of_exec(st: Stmt, line: usize) -> (r: Statements)
    ensures
        r@ == body_of(st@, line as nat),
{
    match st {
        Stmt::Block(b) => b,
        other => {
            let ghost o = other@;
            let mut v: Vec<(usize, Stmt)> = Vec::new();
            v.push((line, other));
            let r = Statements(v);
            proof {
                lemma_view_statements(r);
                assert(view_stmt_vec(v@) =~= seq![(line as nat, o)]);
            }
            r
        },
    }
}

pub fn is_empty_stmt(st: &Stmt) -> (r: bool)
    ensures
        r == (st@ is Empty),
{
    match st {
        Stmt::Empty => true,
        _ => false,
    }
}

pub fn is_bad_start(b: u8) -> (r: bool)
    ensures
        r == bad_start(b),
{
    b >= 127 || b == 41 || b == 125 || b == 93 || b == 63 || b == 44 || b == 92 || b == 36 || b == 35
}

impl<'a> Scanner<'a> {
    /// Scans an optional type annotation `: Type`.
    pub fn typ(&mut self) -> (r: Result<KsType, ScanError>)
        requires
            old(self).wf(),
            old(self).i <= old(self).src@.len(),
        ensures
            final(self).wf(),
            final(self).src == old(self).src,
            outcome(r, final(self).i) == spec_type(old(self).src@, old(self).i as int),
            r is Ok ==> old(self).i <= final(self).i <= old(self).src@.len(),
    {
        proof {
            lemma_type(self.src@, self.i as int);
            lemma_spaces(self.src@, self.i as int);
        }
        let q = spaces_from(self.src, self.i);
        if self.byte(q) == 58 {
            self.set_i(q + 1);
            self.spaces();
            match self.ident() {
                Some(n) => Ok(kstype_of_exec(n)),
                None => Err(ScanError::ExpectedName),
            }
        } else {
            Ok(KsType::Any)
        }
    }

    /// Scans parameter declarations after a `(`, up to the first byte that does not start one.
    pub fn arguments(&mut self) -> (r: Result<Vec<ArgDecl>, ScanError>)
        requires
            old(self).wf(),
            old(self).i <= old(self).src@.len(),
        ensures
            final(self).wf(),
            final(self).src == old(self).src,
            match r {
                Ok(v) => spec_params(old(self).src@, old(self).i as int, Seq::empty()) == Ok::<
                    (Seq<SArgDecl>, int),
                    ScanError,
                >((view_arg_vec(v@), final(self).i as int)),
                Err(e) => spec_params(old(self).src@, old(self).i as int, Seq::empty()) == Err::<
                    (Seq<SArgDecl>, int),
                    ScanError,
                >(e),
            },
            r is Ok ==> old(self).i <= final(self).i <= old(self).src@.len(),
    {
        let ghost s = self.src@;
        let ghost p0 = self.i as int;
        let mut acc: Vec<ArgDecl> = Vec::new();
        assert(view_arg_vec(acc@) =~= Seq::<SArgDecl>::empty());
        loop
            invariant
                self.wf(),
                self.src == old(self).src,
                s == self.src@,
                p0 == old(self).i,
                p0 <= self.i <= s.len(),
                spec_params(s, self.i as int, view_arg_vec(acc@)) == spec_params(s, p0, Seq::empty()),
            decreases s.len() - self.i,
        {
            proof {
                lemma_spaces(s, self.i as int);
            }
            self.spaces();
            proof {
                lemma_ident(s, self.i as int);
            }
            match self.ident() {
                None => {
                    return Ok(acc);
                },
                Some(n) => {
                    match self.typ() {
                        Err(e) => {
                            return Err(e);
                        },
                        Ok(t) => {
                            proof {
                                lemma_spaces(s, self.i as int);
                            }
                            self.spaces();
                            if self.cur() == 44 {
                                self.next();
                            }
                            let ghost old_acc = acc@;
                            let d = ArgDecl { name: n, t };
                            let ghost dv = d@;
                            acc.push(d);
                            assert(view_arg_vec(acc@) =~= view_arg_vec(old_acc).push(dv));
                        },
                    }
                },
            }
        }
    }

    /// Scans the names of a destructuring `let`.
    pub fn names(&mut self) -> (r: Vec<Interned>)
        requires
            old(self).wf(),
            old(self).i <= old(self).src@.len(),
        ensures
            final(self).wf(),
            final(self).src == old(self).src,
            spec_names(old(self).src@, old(self).i as int, Seq::empty()) == (
                view_names(r@),
                final(self).i as int,
            ),
            old(self).i <= final(self).i <= old(self).src@.len(),
    {
        let ghost s = self.src@;
        let ghost p0 = self.i as int;
        let mut acc: Vec<Interned> = Vec::new();
        assert(view_names(acc@) =~= Seq::<Seq<u8>>::empty());
        loop
            invariant
                self.wf(),
                self.src == old(self).src,
                s == self.src@,
                p0 == old(self).i,
                p0 <= self.i <= s.len(),
                spec_names(s, self.i as int, view_names(acc@)) == spec_names(s, p0, Seq::empty()),
            decreases s.len() - self.i,
        {
            proof {
                lemma_ident(s, self.i as int);
            }
            match self.ident() {
                None => {
                    return acc;
                },
                Some(id) => {
                    proof {
                        lemma_spaces(s, self.i as int);
                    }
                    self.spaces();
                    if self.cur() == 44 {
                        self.next();
                        proof {
                            lemma_spaces(s, self.i as int);
                        }
                        self.spaces();
                    }
                    let ghost old_acc = acc@;
                    let ghost idv = id@;
                    acc.push(id);
                    assert(view_names(acc@) =~= view_names(old_acc).push(idv));
                },
            }
        }
    }

    /// Scans `return`'s expression; gives the error when the source is ill formed there.
    pub fn try_returning(&mut self) -> (r: Result<Stmt, ScanError>)
        requires
            old(self).wf(),
        ensures
            final(self).wf(),
            final(self).src == old(self).src,
            outcome(r, final(self).i) == spec_returning(old(self).src@, old(self).i as int),
            r is Ok ==> old(self).i <= final(self).i,
    {
        proof {
            lemma_spaces(self.src@, self.i as int);
        }
        self.spaces();
        match self.expr() {
            Err(e) => Err(e),
            Ok(e) => {
                if is_empty_expr(&e) {
                    let u = Expr::Literal(Litr::Uninit);
                    assert(u@ == SExpr::Literal(SLitr::Uninit));
                    let r = Stmt::Return(u);
                    assert(r@ == SStmt::Return(SExpr::Literal(SLitr::Uninit)));
                    Ok(r)
                } else {
                    Ok(Stmt::Return(e))
                }
            },
        }
    }

    /// Scans `throw`'s expression; gives the error when the source is ill formed there.
    pub fn try_throwing(&mut self) -> (r: Result<Stmt, ScanError>)
        requires
            old(self).wf(),
        ensures
            final(self).wf(),
            final(self).src == old(self).src,
            outcome(r, final(self).i) == spec_throwing(old(self).src@, old(self).i as int),
            r is Ok ==> old(self).i <= final(self).i,
    {
        proof {
            lemma_spaces(self.src@, self.i as int);
        }
        self.spaces();
        match self.expr() {
            Err(e) => Err(e),
            Ok(e) => {
                if is_empty_expr(&e) {
                    Err(ScanError::ThrowNeedsExpr)
                } else {
                    Ok(Stmt::Throw(e))
                }
            },
        }
    }
}

} // verus!

verus! {

impl<'a> Scanner<'a> {
    /// Scans one statement, or gives the error when the source is ill formed
    /// there. At the end of the source it gives `Stmt::Empty` and moves one past
    /// the end.
    pub fn try_stmt(&mut self) -> (r: Result<Stmt, ScanError>)
        requires
            old(self).wf(),
            old(self).i <= old(self).src@.len(),
        ensures
            final(self).wf(),
            final(self).src == old(self).src,
            outcome(r, final(self).i) == spec_stmt(old(self).src@, old(self).i as int),
            r matches Ok(st) ==> old(self).i <= final(self).i && (old(self).i < final(self).i
                || st@ is Empty),
        decreases old(self).src@.len() + 1 - old(self).i, 0nat,
    {
        let ghost s = self.src@;
        proof {
            lemma_spaces(s, self.i as int);
        }
        self.spaces();
        let len = self.src.len();
        if self.i >= len {
            self.next();
            return Ok(Stmt::Empty);
        }
        let b = self.src[self.i];
        if b == 59 {
            self.next();
            Ok(Stmt::Empty)
        } else if b == 123 {
            self.next();
            match self.block() {
                Err(e) => Err(e),
                Ok(ss) => Ok(Stmt::Block(ss)),
            }
        } else if b == 58 {
            self.next();
            self.try_returning()
        } else if is_bad_start(b) {
            Err(ScanError::ExpectedStatement(b))
        } else {
            proof {
                lemma_atom(s, self.i as int);
            }
            match self.literal() {
                Err(e) => Err(e),
                Ok(a) => match a {
                    Expr::Variant(id) => match keyword_of_exec(&id) {
                        Some(k) => self.keyword(k),
                        None => match self.expr_with_left(Expr::Variant(id)) {
                            Err(e) => Err(e),
                            Ok(e) => Ok(Stmt::Expression(e)),
                        },
                    },
                    Expr::Empty => match self.expr() {
                        Err(e) => Err(e),
                        Ok(e) => {
                            if is_empty_expr(&e) {
                                Ok(Stmt::Empty)
                            } else {
                                Ok(Stmt::Expression(e))
                            }
                        },
                    },
                    other => match self.expr_with_left(other) {
                        Err(e) => Err(e),
                        Ok(e) => {
                            if is_empty_expr(&e) {
                                Ok(Stmt::Empty)
                            } else {
                                Ok(Stmt::Expression(e))
                            }
                        },
                    },
                },
            }
        }
    }

    /// Scans the statement after the keyword `k`.
    fn keyword(&mut self, k: Keyword) -> (r: Result<Stmt, ScanError>)
        requires
            old(self).wf(),
            old(self).i <= old(self).src@.len(),
        ensures
            final(self).wf(),
            final(self).src == old(self).src,
            outcome(r, final(self).i) == spec_keyword(old(self).src@, k, old(self).i as int),
            r is Ok ==> old(self).i <= final(self).i,
        decreases old(self).src@.len() + 1 - old(self).i, 3nat,
    {
        match k {
            Keyword::Let => match self.try_letting() {
                Err(e) => Err(e),
                Ok(a) => Ok(Stmt::Let(a)),
            },
            Keyword::Const => {
                if self.cur() == 40 {
                    match self.expr_group() {
                        Err(e) => Err(e),
                        Ok(e) => match e {
                            Expr::Variant(n) => Ok(Stmt::Lock(n)),
                            _ => Err(ScanError::LockNeedsName),
                        },
                    }
                } else {
                    match self.try_letting() {
                        Err(e) => Err(e),
                        Ok(a) => Ok(Stmt::Const(a)),
                    }
                }
            },
            Keyword::Extern => Err(ScanError::ExternUnsupported),
            Keyword::Return => self.try_returning(),
            Keyword::Class => self.try_classing(),
            Keyword::Mod => self.try_moding(),
            Keyword::For => self.try_foring(),
            Keyword::If => self.try_ifing(),
            Keyword::Else => Err(ScanError::ElseWithoutIf),
            Keyword::Break => Ok(Stmt::Break),
            Keyword::Continue => Ok(Stmt::Continue),
            Keyword::Async | Keyword::Await => Err(ScanError::AsyncUnsupported),
            Keyword::Throw => self.try_throwing(),
            Keyword::Try => self.try_trying(),
            Keyword::Catch => Err(ScanError::CatchWithoutTry),
            Keyword::Match => self.try_matching(),
        }
    }

    /// Scans the statements of a block up to its `}`, after the `{`.
    pub fn block(&mut self) -> (r: Result<Statements, ScanError>)
        requires
            old(self).wf(),
        ensures
            final(self).wf(),
            final(self).src == old(self).src,
            outcome(r, final(self).i) == spec_block(old(self).src@, old(self).i as int, Seq::empty()),
            r is Ok ==> old(self).i < final(self).i <= old(self).src@.len(),
        decreases old(self).src@.len() + 1 - old(self).i, 1nat,
    {
        let ghost s = self.src@;
        let ghost p0 = self.i as int;
        let len = self.src.len();
        let mut acc: Vec<(usize, Stmt)> = Vec::new();
        assert(view_stmt_vec(acc@) =~= Seq::<(nat, SStmt)>::empty());
        loop
            invariant
                self.wf(),
                self.src == old(self).src,
                s == self.src@,
                len == s.len(),
                p0 == old(self).i,
                p0 <= self.i,
                spec_block(s, self.i as int, view_stmt_vec(acc@)) == spec_block(s, p0, Seq::empty()),
            decreases len + 1 - self.i,
        {
            if self.i >= len {
                return Err(ScanError::UnclosedBlock);
            }
            proof {
                lemma_spaces(s, self.i as int);
            }
            self.spaces();
            let q = self.i;
            if self.cur() == 125 {
                self.next();
                let r = Statements(acc);
                proof {
                    lemma_view_statements(r);
                }
                return Ok(r);
            }
            match self.try_stmt() {
                Err(e) => {
                    return Err(e);
                },
                Ok(st) => {
                    if self.i <= q {
                        return Err(ScanError::ExpectedStatement(self.byte(q)));
                    }
                    if self.i > len {
                        return Err(ScanError::UnclosedBlock);
                    }
                    if !is_empty_stmt(&st) {
                        let line = self.line;
                        let ghost old_acc = acc@;
                        let ghost sv = st@;
                        acc.push((line, st));
                        assert(view_stmt_vec(acc@) =~= view_stmt_vec(old_acc).push((line as nat, sv)));
                    }
                },
            }
        }
    }

    /// Scans the name (or names) and value of a `let` or `const`; gives the error when the
    /// source is ill formed there.
    pub fn try_letting(&mut self) -> (r: Result<AssignDef, ScanError>)
        requires
            old(self).wf(),
            old(self).i <= old(self).src@.len(),
        ensures
            final(self).wf(),
            final(self).src == old(self).src,
            outcome(r, final(self).i) == spec_letting(old(self).src@, old(self).i as int),
            r is Ok ==> old(self).i <= final(self).i,
        decreases old(self).src@.len() + 1 - old(self).i, 1nat,
    {
        let ghost s = self.src@;
        let ghost p0 = self.i as int;
        proof {
            lemma_spaces(s, self.i as int);
        }
        self.spaces();
        let b = self.cur();
        let id: AssignTo;
        if b == 91 || b == 123 {
            self.next();
            proof {
                lemma_spaces(s, self.i as int);
            }
            self.spaces();
            let names = self.names();
            if self.cur() != b + 2 {
                return Err(ScanError::UnclosedDestructure);
            }
            self.next();
            id = AssignTo::Destr(names);
        } else {
            proof {
                lemma_ident(s, self.i as int);
            }
            match self.ident() {
                Some(n) => {
                    id = AssignTo::One(n);
                },
                None => {
                    return Err(ScanError::LetNeedsName);
                },
            }
        }
        proof {
            lemma_spaces(s, self.i as int);
        }
        self.spaces();
        let c = self.cur();
        if c == 61 || c == 60 {
            self.next();
            match self.expr() {
                Err(e) => Err(e),
                Ok(v) => {
                    if is_empty_expr(&v) {
                        Err(ScanError::AssignNothing)
                    } else {
                        Ok(AssignDef { id, val: v, take: c == 60 })
                    }
                },
            }
        } else if c == 40 {
            self.next();
            match self.arguments() {
                Err(e) => Err(e),
                Ok(args) => {
                    if self.cur() != 41 {
                        Err(ScanError::UnclosedParams)
                    } else {
                        self.next();
                        match self.try_stmt() {
                            Err(e) => Err(e),
                            Ok(st) => {
                                let line = self.line;
                                let body = body_of_exec(st, line);
                                let ghost av = view_arg_vec(args@);
                                let f = LocalFuncRaw { argdecl: args, stmts: body };
                                assert(view_args(f.argdecl@) =~= av);
                                let v = Expr::LocalDecl(f);
                                assert(v@ == SExpr::LocalDecl(f@));
                                Ok(AssignDef { id, val: v, take: false })
                            },
                        }
                    }
                },
            }
        } else {
            let u = Expr::Literal(Litr::Uninit);
            assert(u@ == SExpr::Literal(SLitr::Uninit));
            Ok(AssignDef { id, val: u, take: false })
        }
    }
}

} // verus!

verus! {

impl<'a> Scanner<'a> {
    /// Scans a class declaration or class alias after `class`; gives the error when the
    /// source is ill formed there.
    pub fn try_classing(&mut self) -> (r: Result<Stmt, ScanError>)
        requires
            old(self).wf(),
            old(self).i <= old(self).src@.len(),
        ensures
            final(self).wf(),
            final(self).src == old(self).src,
            outcome(r, final(self).i) == spec_classing(old(self).src@, old(self).i as int),
            r is Ok ==> old(self).i <= final(self).i,
        decreases old(self).src@.len() + 1 - old(self).i, 1nat,
    {
        let ghost s = self.src@;
        proof {
            lemma_spaces(s, self.i as int);
        }
        self.spaces();
        proof {
            lemma_ident(s, self.i as int);
        }
        match self.ident() {
            None => Err(ScanError::ClassNeedsName),
            Some(id) => {
                proof {
                    lemma_spaces(s, self.i as int);
                }
                self.spaces();
                if self.cur() == 61 {
                    self.next();
                    match self.expr() {
                        Err(x) => Err(x),
                        Ok(x) => Ok(Stmt::Using(id, x)),
                    }
                } else if self.cur() != 123 {
                    Err(ScanError::ClassNeedsBrace)
                } else {
                    self.next();
                    match self.members() {
                        Err(x) => Err(x),
                        Ok((props, methods, statics)) => {
                            proof {
                                lemma_spaces(s, self.i as int);
                            }
                            self.spaces();
                            if self.cur() != 125 {
                                Err(ScanError::UnclosedClass)
                            } else {
                                self.next();
                                let c = ClassDefRaw { name: id, props, methods, statics };
                                proof {
                                    lemma_view_class(c);
                                }
                                let bc = Box::new(c);
                                let st = Stmt::Class(bc);
                                assert(st@ == SStmt::Class(c@));
                                Ok(st)
                            }
                        },
                    }
                }
            },
        }
    }

    /// Scans the members of a class body after its `{`.
    pub fn members(&mut self) -> (r: Result<(Vec<ClassProp>, Vec<ClassFuncRaw>, Vec<ClassFuncRaw>), ScanError>)
        requires
            old(self).wf(),
            old(self).i <= old(self).src@.len(),
        ensures
            final(self).wf(),
            final(self).src == old(self).src,
            match r {
                Ok((a, b, c)) => spec_members(
                    old(self).src@,
                    old(self).i as int,
                    Seq::empty(),
                    Seq::empty(),
                    Seq::empty(),
                ) == Ok::<(_, int), ScanError>(
                    ((view_prop_vec(a@), view_func_vec(b@), view_func_vec(c@)), final(self).i as int),
                ) && old(self).i <= final(self).i <= old(self).src@.len(),
                Err(e) => spec_members(
                    old(self).src@,
                    old(self).i as int,
                    Seq::empty(),
                    Seq::empty(),
                    Seq::empty(),
                ) == Err::<((Seq<SClassProp>, Seq<SClassFunc>, Seq<SClassFunc>), int), ScanError>(e),
            },
        decreases old(self).src@.len() + 1 - old(self).i, 1nat,
    {
        let ghost s = self.src@;
        let ghost p0 = self.i as int;
        let len = self.src.len();
        let mut props: Vec<ClassProp> = Vec::new();
        let mut methods: Vec<ClassFuncRaw> = Vec::new();
        let mut statics: Vec<ClassFuncRaw> = Vec::new();
        assert(view_prop_vec(props@) =~= Seq::<SClassProp>::empty());
        assert(view_func_vec(methods@) =~= Seq::<SClassFunc>::empty());
        loop
            invariant
                self.wf(),
                self.src == old(self).src,
                s == self.src@,
                len == s.len(),
                p0 == old(self).i,
                p0 <= self.i <= len,
                spec_members(
                    s,
                    self.i as int,
                    view_prop_vec(props@),
                    view_func_vec(methods@),
                    view_func_vec(statics@),
                ) == spec_members(s, p0, Seq::empty(), Seq::empty(), Seq::empty()),
            decreases len - self.i,
        {
            let ghost i0 = self.i as int;
            proof {
                lemma_spaces(s, self.i as int);
            }
            self.spaces();
            let public = self.cur() == 62;
            if public {
                self.next();
                proof {
                    lemma_spaces(s, self.i as int);
                }
                self.spaces();
            }
            let is_method = self.cur() == 46;
            if is_method {
                self.next();
            }
            proof {
                lemma_ident(s, self.i as int);
            }
            match self.ident() {
                None => {
                    return Ok((props, methods, statics));
                },
                Some(id) => {
                    if self.cur() == 40 {
                        self.next();
                        match self.arguments() {
                            Err(x) => {
                                return Err(x);
                            },
                            Ok(args) => {
                                if self.cur() != 41 {
                                    return Err(ScanError::UnclosedParams);
                                }
                                self.next();
                                match self.try_stmt() {
                                    Err(x) => {
                                        return Err(x);
                                    },
                                    Ok(st) => {
                                        if self.i > len {
                                            return Err(ScanError::UnclosedClass);
                                        }
                                        let line = self.line;
                                        let body = body_of_exec(st, line);
                                        let ghost av = view_arg_vec(args@);
                                        let lf = LocalFuncRaw { argdecl: args, stmts: body };
                                        assert(view_args(lf.argdecl@) =~= av);
                                        let f = ClassFuncRaw { name: id, f: lf, public };
                                        let ghost fv = f@;
                                        assert(fv == SClassFunc { name: id@, f: lf@, public });
                                        proof {
                                            lemma_spaces(s, self.i as int);
                                        }
                                        self.spaces();
                                        if self.cur() == 44 {
                                            self.next();
                                        }
                                        if is_method {
                                            let ghost old_m = methods@;
                                            methods.push(f);
                                            assert(view_func_vec(methods@) =~= view_func_vec(old_m).push(fv));
                                        } else {
                                            let ghost old_s = statics@;
                                            statics.push(f);
                                            assert(view_func_vec(statics@) =~= view_func_vec(old_s).push(fv));
                                        }
                                    },
                                }
                            },
                        }
                    } else {
                        match self.typ() {
                            Err(x) => {
                                return Err(x);
                            },
                            Ok(t) => {
                                proof {
                                    lemma_spaces(s, self.i as int);
                                }
                                self.spaces();
                                if self.cur() == 44 {
                                    self.next();
                                }
                                let pr = ClassProp { name: id, typ: t, public };
                                let ghost pv = pr@;
                                let ghost old_p = props@;
                                props.push(pr);
                                assert(view_prop_vec(props@) =~= view_prop_vec(old_p).push(pv));
                            },
                        }
                    }
                },
            }
        }
    }

    /// Scans what follows `mod`: an exported function, an exported class, or a module
    /// import; gives the error when the source is ill formed there.
    #[verifier::rlimit(60)]
    pub fn try_moding(&mut self) -> (r: Result<Stmt, ScanError>)
        requires
            old(self).wf(),
            old(self).i <= old(self).src@.len(),
        ensures
            final(self).wf(),
            final(self).src == old(self).src,
            outcome(r, final(self).i) == spec_moding(old(self).src@, old(self).i as int),
            r is Ok ==> old(self).i <= final(self).i,
        decreases old(self).src@.len() + 1 - old(self).i, 1nat,
    {
        let ghost s = self.src@;
        let len = self.src.len();
        let b = self.cur();
        if b == 46 {
            self.next();
            match self.try_letting() {
                Err(e) => Err(e),
                Ok(a) => {
                    let AssignDef { id, val, take: _ } = a;
                    match id {
                        AssignTo::One(n) => match val {
                            Expr::LocalDecl(f) => Ok(Stmt::ExportFn(n, f)),
                            _ => Err(ScanError::ExportLocalFunctionOnly),
                        },
                        AssignTo::Destr(_) => Err(ScanError::ExportOneFunction),
                    }
                },
            }
        } else if b == 58 {
            self.next();
            match self.try_classing() {
                Err(e) => Err(e),
                Ok(c) => match c {
                    Stmt::Class(d) => Ok(Stmt::ExportCls(d)),
                    _ => Err(ScanError::ExportUsing),
                },
            }
        } else {
            proof {
                lemma_spaces(s, self.i as int);
            }
            self.spaces();
            let q = self.i;
            let mut j = q;
            let mut path: Vec<u8> = Vec::new();
            while j < len && self.src[j] != 62
                invariant
                    self.wf(),
                    self.src == old(self).src,
                    self.i == q,
                    old(self).i <= q,
                    s == self.src@,
                    len == s.len(),
                    q <= j <= len,
                    path@ == s.subrange(q as int, j as int),
                    gt_end(s, j as int) == gt_end(s, q as int),
                decreases len - j,
            {
                path.push(self.src[j]);
                assert(s.subrange(q as int, j + 1) =~= s.subrange(q as int, j as int).push(s[j as int]));
                j = j + 1;
            }
            if j >= len {
                return Err(ScanError::ModNeedsGt);
            }
            self.set_i(j + 1);
            proof {
                lemma_spaces(s, self.i as int);
            }
            self.spaces();
            proof {
                lemma_ident(s, self.i as int);
            }
            match self.ident() {
                None => Err(ScanError::ModNeedsName),
                Some(name) => {
                    proof {
                        lemma_spaces(s, self.i as int);
                    }
                    self.spaces();
                    Ok(Stmt::Mod(name, path))
                },
            }
        }
    }

    /// Scans an `if` statement after `if`; gives the error when the source is ill formed
    /// there.
    #[verifier::rlimit(25)]
    pub fn try_ifing(&mut self) -> (r: Result<Stmt, ScanError>)
        requires
            old(self).wf(),
            old(self).i <= old(self).src@.len(),
        ensures
            final(self).wf(),
            final(self).src == old(self).src,
            outcome(r, final(self).i) == spec_ifing(old(self).src@, old(self).i as int),
            r is Ok ==> old(self).i <= final(self).i,
        decreases old(self).src@.len() + 1 - old(self).i, 1nat,
    {
        let ghost s = self.src@;
        match self.expr() {
            Err(e) => Err(e),
            Ok(c) => match self.try_stmt() {
                Err(e) => Err(e),
                Ok(x) => {
                    proof {
                        lemma_spaces(s, self.i as int);
                    }
                    self.spaces();
                    let t = self.i;
                    if self.cur() == 101 && self.src_has(t, &[101u8, 108, 115, 101]) {
                        assert(self.src@.subrange(t as int, t + 4) == kw_else());
                        self.set_i(t + 4);
                        match self.try_stmt() {
                            Err(e) => Err(e),
                            Ok(el) => Ok(Stmt::If { condition: c, body: Box::new(x), els: Some(Box::new(el)) }),
                        }
                    } else {
                        Ok(Stmt::If { condition: c, body: Box::new(x), els: None })
                    }
                },
            },
        }
    }
}

} // verus!

verus! {

impl<'a> Scanner<'a> {
    /// Scans a `for` statement after `for`; gives the error when the source is ill formed
    /// there.
    pub fn try_foring(&mut self) -> (r: Result<Stmt, ScanError>)
        requires
            old(self).wf(),
            old(self).i <= old(self).src@.len(),
        ensures
            final(self).wf(),
            final(self).src == old(self).src,
            outcome(r, final(self).i) == spec_foring(old(self).src@, old(self).i as int),
            r is Ok ==> old(self).i <= final(self).i,
        decreases old(self).src@.len() + 1 - old(self).i, 2nat,
    {
        let ghost s = self.src@;
        proof {
            lemma_spaces(s, self.i as int);
        }
        self.spaces();
        let b = self.cur();
        if b == 40 {
            match self.expr_group() {
                Err(e) => Err(e),
                Ok(c) => match self.try_stmt() {
                    Err(e) => Err(e),
                    Ok(x) => Ok(Stmt::ForWhile { condition: c, body: Box::new(x) }),
                },
            }
        } else if b == 33 {
            self.next();
            match self.try_stmt() {
                Err(e) => Err(e),
                Ok(x) => Ok(Stmt::ForLoop(Box::new(x))),
            }
        } else {
            self.try_for_iter()
        }
    }

    /// Scans `for name: iterator body` or `for iterator body`, from the loop head.
    #[verifier::rlimit(30)]
    fn try_for_iter(&mut self) -> (r: Result<Stmt, ScanError>)
        requires
            old(self).wf(),
            old(self).i <= old(self).src@.len(),
        ensures
            final(self).wf(),
            final(self).src == old(self).src,
            outcome(r, final(self).i) == spec_for_iter(old(self).src@, old(self).i as int),
            r is Ok ==> old(self).i <= final(self).i,
        decreases old(self).src@.len() + 1 - old(self).i, 1nat,
    {
        let ghost s = self.src@;
        proof {
            lemma_atom(s, self.i as int);
        }
        match self.literal() {
            Err(e) => Err(e),
            Ok(left) => {
                proof {
                    lemma_spaces(s, self.i as int);
                }
                self.spaces();
                if self.cur() == 58 {
                    match left {
                        Expr::Variant(id) => {
                            self.next();
                            match self.expr() {
                                Err(e) => Err(e),
                                Ok(it) => match self.try_stmt() {
                                    Err(e) => Err(e),
                                    Ok(x) => Ok(
                                        Stmt::ForIter { iterator: it, id: Some(id), body: Box::new(x) },
                                    ),
                                },
                            }
                        },
                        _ => Err(ScanError::ForNeedsName),
                    }
                } else {
                    let it_res = if is_empty_expr(&left) {
                        self.expr()
                    } else {
                        self.expr_with_left(left)
                    };
                    match it_res {
                        Err(e) => Err(e),
                        Ok(it) => match self.try_stmt() {
                            Err(e) => Err(e),
                            Ok(x) => Ok(Stmt::ForIter { iterator: it, id: None, body: Box::new(x) }),
                        },
                    }
                }
            },
        }
    }

    /// Scans a `try` statement after `try`; gives the error when the source is ill formed
    /// there.
    pub fn try_trying(&mut self) -> (r: Result<Stmt, ScanError>)
        requires
            old(self).wf(),
            old(self).i <= old(self).src@.len(),
        ensures
            final(self).wf(),
            final(self).src == old(self).src,
            outcome(r, final(self).i) == spec_trying(old(self).src@, old(self).i as int),
            r is Ok ==> old(self).i <= final(self).i,
        decreases old(self).src@.len() + 1 - old(self).i, 1nat,
    {
        let ghost s = self.src@;
        match self.try_stmt() {
            Err(e) => Err(e),
            Ok(blk) => {
                proof {
                    lemma_spaces(s, self.i as int);
                }
                self.spaces();
                let t = self.i;
                if self.cur() == 99 && self.src_has(t, &[99u8, 97, 116, 99, 104]) {
                    assert(self.src@.subrange(t as int, t + 5) == kw_catch());
                    self.set_i(t + 5);
                    match self.try_catching() {
                        Err(e) => Err(e),
                        Ok(c) => Ok(Stmt::Try { stmt: Box::new(blk), catc: Some(c) }),
                    }
                } else {
                    Ok(Stmt::Try { stmt: Box::new(blk), catc: None })
                }
            },
        }
    }

    /// Scans what follows `catch`: the error's name and its block.
    fn try_catching(&mut self) -> (r: Result<(Interned, Statements), ScanError>)
        requires
            old(self).wf(),
            old(self).i <= old(self).src@.len(),
        ensures
            final(self).wf(),
            final(self).src == old(self).src,
            outcome(r, final(self).i) == spec_catching(old(self).src@, old(self).i as int),
            r is Ok ==> old(self).i <= final(self).i,
        decreases old(self).src@.len() + 1 - old(self).i, 1nat,
    {
        let ghost s = self.src@;
        proof {
            lemma_spaces(s, self.i as int);
        }
        self.spaces();
        proof {
            lemma_ident(s, self.i as int);
        }
        let id = match self.ident() {
            Some(n) => n,
            None => default_err_name_exec(),
        };
        match self.try_stmt() {
            Err(e) => Err(e),
            Ok(c) => match c {
                Stmt::Block(b) => Ok((id, b)),
                _ => Err(ScanError::CatchNeedsBlock),
            },
        }
    }

    /// Scans a `match` statement after `match`; gives the error when the source is ill
    /// formed there.
    pub fn try_matching(&mut self) -> (r: Result<Stmt, ScanError>)
        requires
            old(self).wf(),
            old(self).i <= old(self).src@.len(),
        ensures
            final(self).wf(),
            final(self).src == old(self).src,
            outcome(r, final(self).i) == spec_matching(old(self).src@, old(self).i as int),
            r is Ok ==> old(self).i <= final(self).i,
        decreases old(self).src@.len() + 1 - old(self).i, 1nat,
    {
        let ghost s = self.src@;
        proof {
            lemma_spaces(s, self.i as int);
        }
        self.spaces();
        if self.cur() == 123 {
            return Err(ScanError::MatchNeedsExpr);
        }
        match self.expr() {
            Err(e) => Err(e),
            Ok(to) => {
                if is_empty_expr(&to) {
                    return Err(ScanError::MatchNeedsExpr);
                }
                proof {
                    lemma_spaces(s, self.i as int);
                }
                self.spaces();
                if self.cur() != 123 {
                    return Err(ScanError::MatchNeedsBrace);
                }
                self.next();
                match self.arms() {
                    Err(e) => Err(e),
                    Ok((arms, def)) => {
                        proof {
                            lemma_view_arms(arms);
                        }
                        Ok(Stmt::Match { to, arms, def })
                    },
                }
            },
        }
    }

    /// Scans the arms of a `match` after its `{`, up to the closing `}`.
    pub fn arms(&mut self) -> (r: Result<(Vec<(Vec<(Expr, MatchOrd)>, Statements)>, Option<Statements>), ScanError>)
        requires
            old(self).wf(),
            old(self).i <= old(self).src@.len(),
        ensures
            final(self).wf(),
            final(self).src == old(self).src,
            match r {
                Ok((a, d)) => spec_arms(old(self).src@, old(self).i as int, Seq::empty(), Seq::empty(), None)
                    == Ok::<((Seq<SArm>, Option<SStatements>), int), ScanError>(
                    ((view_arm_vec(a@), view_def(d)), final(self).i as int),
                ) && old(self).i < final(self).i,
                Err(e) => spec_arms(old(self).src@, old(self).i as int, Seq::empty(), Seq::empty(), None)
                    == Err::<((Seq<SArm>, Option<SStatements>), int), ScanError>(e),
            },
        decreases old(self).src@.len() + 1 - old(self).i, 1nat,
    {
        let ghost s = self.src@;
        let ghost p0 = self.i as int;
        let len = self.src.len();
        let mut arms: Vec<(Vec<(Expr, MatchOrd)>, Statements)> = Vec::new();
        let mut conds: Vec<(Expr, MatchOrd)> = Vec::new();
        let mut def: Option<Statements> = None;
        assert(view_arm_vec(arms@) =~= Seq::<SArm>::empty());
        assert(view_cond_vec(conds@) =~= Seq::<(SExpr, MatchOrd)>::empty());
        loop
            invariant
                self.wf(),
                self.src == old(self).src,
                s == self.src@,
                len == s.len(),
                p0 == old(self).i,
                p0 <= self.i <= len,
                spec_arms(s, self.i as int, view_arm_vec(arms@), view_cond_vec(conds@), view_def(def))
                    == spec_arms(s, p0, Seq::empty(), Seq::empty(), None),
            decreases len - self.i,
        {
            proof {
                lemma_spaces(s, self.i as int);
            }
            self.spaces();
            let b = self.cur();
            if b == 125 {
                self.next();
                return Ok((arms, def));
            } else if b == 45 {
                self.next();
                proof {
                    lemma_spaces(s, self.i as int);
                }
                self.spaces();
                if self.cur() != 123 {
                    return Err(ScanError::MatchDefaultNeedsBlock);
                }
                self.next();
                match self.block() {
                    Err(e) => {
                        return Err(e);
                    },
                    Ok(d) => {
                        def = Some(d);
                        conds = Vec::new();
                        assert(view_cond_vec(conds@) =~= Seq::<(SExpr, MatchOrd)>::empty());
                    },
                }
            } else {
                let ord = if b == 62 {
                    self.next();
                    if self.cur() == 61 {
                        self.next();
                        MatchOrd::GreaterEq
                    } else {
                        MatchOrd::Greater
                    }
                } else if b == 60 {
                    self.next();
                    if self.cur() == 61 {
                        self.next();
                        MatchOrd::LessEq
                    } else {
                        MatchOrd::Less
                    }
                } else if b == 61 {
                    self.next();
                    MatchOrd::Eq
                } else {
                    MatchOrd::Eq
                };
                match self.expr() {
                    Err(e) => {
                        return Err(e);
                    },
                    Ok(e) => {
                        if is_empty_expr(&e) {
                            return Err(ScanError::MatchEmptyCondition);
                        }
                        let ghost old_c = conds@;
                        let ghost ev = e@;
                        conds.push((e, ord));
                        assert(view_cond_vec(conds@) =~= view_cond_vec(old_c).push((ev, ord)));
                        proof {
                            lemma_spaces(s, self.i as int);
                        }
                        self.spaces();
                        if self.cur() == 44 {
                            self.next();
                        } else if self.cur() != 123 {
                            return Err(ScanError::MatchArmNeedsBlock);
                        } else {
                            self.next();
                            match self.block() {
                                Err(e) => {
                                    return Err(e);
                                },
                                Ok(run) => {
                                    let ghost cv = view_cond_vec(conds@);
                                    let ghost rv = run@;
                                    let ghost old_a = arms@;
                                    arms.push((conds, run));
                                    conds = Vec::new();
                                    assert(view_arm_vec(arms@) =~= view_arm_vec(old_a).push((cv, rv)));
                                    assert(view_cond_vec(conds@) =~= Seq::<(SExpr, MatchOrd)>::empty());
                                },
                            }
                        }
                    },
                }
            }
        }
    }
}

/// Scans a whole source into its statements.
#[verifier::rlimit(60)]
pub fn scan(src: &[u8]) -> (r: Result<Statements, ScanError>)
    requires
        src@.len() < usize::MAX,
    ensures
        match r {
            Ok(ss) => spec_scan(src@) == Ok::<SStatements, ScanError>(ss@),
            Err(e) => spec_scan(src@) == Err::<SStatements, ScanError>(e),
        },
{
    let ghost s = src@;
    let len = src.len();
    let mut sc = Scanner::new(src);
    let mut acc: Vec<(usize, Stmt)> = Vec::new();
    assert(view_stmt_vec(acc@) =~= Seq::<(nat, SStmt)>::empty());
    loop
        invariant
            sc.wf(),
            sc.src@ == s,
            s == src@,
            len == s.len(),
            sc.i <= len,
            spec_scan_from(s, sc.i as int, view_stmt_vec(acc@)) == spec_scan(s),
        decreases len - sc.i,
    {
        if sc.i >= len {
            let r = Statements(acc);
            proof {
                lemma_view_statements(r);
            }
            return Ok(r);
        }
        let p = sc.i;
        match sc.try_stmt() {
            Err(e) => {
                return Err(e);
            },
            Ok(st) => {
                if sc.i <= p {
                    return Err(ScanError::ExpectedStatement(sc.byte(spaces_from(src, p))));
                }
                if !is_empty_stmt(&st) {
                    let line = sc.line;
                    let ghost old_acc = acc@;
                    let ghost sv = st@;
                    acc.push((line, st));
                    assert(view_stmt_vec(acc@) =~= view_stmt_vec(old_acc).push((line as nat, sv)));
                }
                if sc.i >= len {
                    let r = Statements(acc);
                    proof {
                        lemma_view_statements(r);
                    }
                    return Ok(r);
                }
            },
        }
    }
}

} // verus!

verus! {

/// Whether the lines of statements never decrease and start from 1.
pub open spec fn lines_ordered(ss: SStatements) -> bool {
    &&& forall|i: int, j: int| 0 <= i < j < ss.len() ==> #[trigger] ss[i].0 <= #[trigger] ss[j].0
    &&& forall|i: int| 0 <= i < ss.len() ==> #[trigger] ss[i].0 >= 1
}

/// Whether no statement is `Empty`.
pub open spec fn none_empty(ss: SStatements) -> bool {
    forall|i: int| 0 <= i < ss.len() ==> !(#[trigger] ss[i].1 is Empty)
}

proof fn lemma_scan_from_shape(s: Seq<u8>, p: int, acc: SStatements)
    requires
        none_empty(acc),
        lines_ordered(acc),
        forall|i: int| 0 <= i < acc.len() ==> #[trigger] acc[i].0 <= line_at(s, p),
    ensures
        spec_scan_from(s, p, acc) matches Ok(ss) ==> none_empty(ss) && lines_ordered(ss),
    decreases s.len() - p,
{
    if p < 0 || p >= s.len() {
    } else {
        match spec_stmt(s, p) {
            Err(e) => {},
            Ok((st, r)) => if p < r {
                let acc2 = if st is Empty { acc } else { acc.push((line_at(s, r), st)) };
                lemma_newlines_mono(s, p, r);
                assert(forall|i: int| 0 <= i < acc2.len() ==> #[trigger] acc2[i].0 <= line_at(s, r));
                assert(none_empty(acc2));
                assert(lines_ordered(acc2));
                if r < s.len() {
                    lemma_scan_from_shape(s, r, acc2);
                }
            },
        }
    }
}

/// Scanning keeps only real statements, in source order: no statement of a
/// scanned source is `Empty`, and their lines start from 1 and never decrease.
pub proof fn lemma_scan_shape(s: Seq<u8>)
    ensures
        spec_scan(s) matches Ok(ss) ==> none_empty(ss) && lines_ordered(ss),
{
    lemma_scan_from_shape(s, 0, Seq::empty());
}

/// A source of nothing but blanks and comments has no statements.
pub proof fn lemma_scan_blank(s: Seq<u8>)
    requires
        spec_spaces(s, 0) >= s.len(),
    ensures
        spec_scan(s) == Ok::<SStatements, ScanError>(Seq::empty()),
{
}

} // verus!

verus! {

impl<'a> Scanner<'a> {
    /// Scans one statement (see [`spec_stmt`]). At the end of the source it gives `Stmt::Empty` and moves one past the end. The source must be well formed there: on a
    /// source that is not, use [`Scanner::try_stmt`], which says why.
    pub fn stmt(&mut self) -> (r: Stmt)
        requires
            old(self).wf(),
            old(self).i <= old(self).src@.len(),
            spec_stmt(old(self).src@, old(self).i as int) is Ok,
        ensures
            final(self).wf(),
            final(self).src == old(self).src,
            spec_stmt(old(self).src@, old(self).i as int) == Ok::<(SStmt, int), ScanError>(
                (r@, final(self).i as int),
            ),
    {
        self.try_stmt().unwrap()
    }

    /// Scans `return`'s expression (see [`spec_returning`]). The source must be well formed there: on a
    /// source that is not, use [`Scanner::try_returning`], which says why.
    pub fn returning(&mut self) -> (r: Stmt)
        requires
            old(self).wf(),
            spec_returning(old(self).src@, old(self).i as int) is Ok,
        ensures
            final(self).wf(),
            final(self).src == old(self).src,
            spec_returning(old(self).src@, old(self).i as int) == Ok::<(SStmt, int), ScanError>(
                (r@, final(self).i as int),
            ),
    {
        self.try_returning().unwrap()
    }

    /// Scans `throw`'s expression (see [`spec_throwing`]). The source must be well formed there: on a
    /// source that is not, use [`Scanner::try_throwing`], which says why.
    pub fn throwing(&mut self) -> (r: Stmt)
        requires
            old(self).wf(),
            spec_throwing(old(self).src@, old(self).i as int) is Ok,
        ensures
            final(self).wf(),
            final(self).src == old(self).src,
            spec_throwing(old(self).src@, old(self).i as int) == Ok::<(SStmt, int), ScanError>(
                (r@, final(self).i as int),
            ),
    {
        self.try_throwing().unwrap()
    }

    /// Scans the name (or names) and value of a `let` or `const` (see [`spec_letting`]). The source must be well formed there: on a
    /// source that is not, use [`Scanner::try_letting`], which says why.
    pub fn letting(&mut self) -> (r: AssignDef)
        requires
            old(self).wf(),
            old(self).i <= old(self).src@.len(),
            spec_letting(old(self).src@, old(self).i as int) is Ok,
        ensures
            final(self).wf(),
            final(self).src == old(self).src,
            spec_letting(old(self).src@, old(self).i as int) == Ok::<(SAssignDef, int), ScanError>(
                (r@, final(self).i as int),
            ),
    {
        self.try_letting().unwrap()
    }

    /// Scans a class declaration or class alias after `class` (see [`spec_classing`]). The source must be well formed there: on a
    /// source that is not, use [`Scanner::try_classing`], which says why.
    pub fn classing(&mut self) -> (r: Stmt)
        requires
            old(self).wf(),
            old(self).i <= old(self).src@.len(),
            spec_classing(old(self).src@, old(self).i as int) is Ok,
        ensures
            final(self).wf(),
            final(self).src == old(self).src,
            spec_classing(old(self).src@, old(self).i as int) == Ok::<(SStmt, int), ScanError>(
                (r@, final(self).i as int),
            ),
    {
        self.try_classing().unwrap()
    }

    /// Scans what follows `mod` (see [`spec_moding`]). The source must be well formed there: on a
    /// source that is not, use [`Scanner::try_moding`], which says why.
    pub fn moding(&mut self) -> (r: Stmt)
        requires
            old(self).wf(),
            old(self).i <= old(self).src@.len(),
            spec_moding(old(self).src@, old(self).i as int) is Ok,
        ensures
            final(self).wf(),
            final(self).src == old(self).src,
            spec_moding(old(self).src@, old(self).i as int) == Ok::<(SStmt, int), ScanError>(
                (r@, final(self).i as int),
            ),
    {
        self.try_moding().unwrap()
    }

    /// Scans an `if` statement after `if` (see [`spec_ifing`]). The source must be well formed there: on a
    /// source that is not, use [`Scanner::try_ifing`], which says why.
    pub fn ifing(&mut self) -> (r: Stmt)
        requires
            old(self).wf(),
            old(self).i <= old(self).src@.len(),
            spec_ifing(old(self).src@, old(self).i as int) is Ok,
        ensures
            final(self).wf(),
            final(self).src == old(self).src,
            spec_ifing(old(self).src@, old(self).i as int) == Ok::<(SStmt, int), ScanError>(
                (r@, final(self).i as int),
            ),
    {
        self.try_ifing().unwrap()
    }

    /// Scans a `for` statement after `for` (see [`spec_foring`]). The source must be well formed there: on a
    /// source that is not, use [`Scanner::try_foring`], which says why.
    pub fn foring(&mut self) -> (r: Stmt)
        requires
            old(self).wf(),
            old(self).i <= old(self).src@.len(),
            spec_foring(old(self).src@, old(self).i as int) is Ok,
        ensures
            final(self).wf(),
            final(self).src == old(self).src,
            spec_foring(old(self).src@, old(self).i as int) == Ok::<(SStmt, int), ScanError>(
                (r@, final(self).i as int),
            ),
    {
        self.try_foring().unwrap()
    }

    /// Scans a `try` statement after `try` (see [`spec_trying`]). The source must be well formed there: on a
    /// source that is not, use [`Scanner::try_trying`], which says why.
    pub fn trying(&mut self) -> (r: Stmt)
        requires
            old(self).wf(),
            old(self).i <= old(self).src@.len(),
            spec_trying(old(self).src@, old(self).i as int) is Ok,
        ensures
            final(self).wf(),
            final(self).src == old(self).src,
            spec_trying(old(self).src@, old(self).i as int) == Ok::<(SStmt, int), ScanError>(
                (r@, final(self).i as int),
            ),
    {
        self.try_trying().unwrap()
    }

    /// Scans a `match` statement after `match` (see [`spec_matching`]). The source must be well formed there: on a
    /// source that is not, use [`Scanner::try_matching`], which says why.
    pub fn matching(&mut self) -> (r: Stmt)
        requires
            old(self).wf(),
            old(self).i <= old(self).src@.len(),
            spec_matching(old(self).src@, old(self).i as int) is Ok,
        ensures
            final(self).wf(),
            final(self).src == old(self).src,
            spec_matching(old(self).src@, old(self).i as int) == Ok::<(SStmt, int), ScanError>(
                (r@, final(self).i as int),
            ),
    {
        self.try_matching().unwrap()
    }

}

} // verus!

verus! {

/// The keyword `return`.
pub open spec fn kw_return() -> Seq<u8> {
    seq![114u8, 101, 116, 117, 114, 110]
}

/// A statement that starts with `:` is a `return`: after either marker the
/// statement is the returned expression that follows it.
pub proof fn lemma_colon_is_return(s: Seq<u8>, p: int)
    ensures
        ({
            let q = spec_spaces(s, p);
            &&& 0 <= q < s.len() && s[q] == 58 ==> spec_stmt(s, p) == spec_returning(s, q + 1)
            &&& 0 <= q && q + 6 <= s.len() && s.subrange(q, q + 6) == kw_return() && !is_ident_char(
                byte_at(s, q + 6),
            ) ==> spec_stmt(s, p) == spec_returning(s, q + 6)
        }),
{
    let q = spec_spaces(s, p);
    if 0 <= q && q + 6 <= s.len() && s.subrange(q, q + 6) == kw_return() && !is_ident_char(
        byte_at(s, q + 6),
    ) {
        assert(s[q] == s.subrange(q, q + 6)[0]);
        assert(s[q + 1] == s.subrange(q, q + 6)[1]);
        assert(s[q + 2] == s.subrange(q, q + 6)[2]);
        assert(s[q + 3] == s.subrange(q, q + 6)[3]);
        assert(s[q + 4] == s.subrange(q, q + 6)[4]);
        assert(s[q + 5] == s.subrange(q, q + 6)[5]);
        assert(ident_end(s, q + 6) == q + 6);
        assert(ident_end(s, q + 5) == q + 6);
        assert(ident_end(s, q + 4) == q + 6);
        assert(ident_end(s, q + 3) == q + 6);
        assert(ident_end(s, q + 2) == q + 6);
        assert(ident_end(s, q + 1) == q + 6);
        let id = s.subrange(q, q + 6);
        assert(spec_ident(s, q) == Some((id, q + 6)));
        assert(id != kw_true());
        assert(id != kw_false());
        assert(id != seq![101u8, 120, 116, 101, 114, 110]);
        assert(keyword_of(id) == Some(Keyword::Return));
        assert(spec_atom(s, q) == Ok::<(SExpr, int), ScanError>((SExpr::Variant(id), q + 6)));
    }
}

} // verus!

verus! {

/// A statement that starts with `:` scans like one that starts with `return `
/// followed by the same text: both fail with the same error, or both give the
/// same `return` statement, ending at the same place in the text that follows
/// the marker (six positions apart).
pub proof fn lemma_colon_return_alike(r: Seq<u8>)
    ensures
        spec_stmt(seq![58u8] + r, 0) == shifted(spec_stmt(kw_return() + seq![32u8] + r, 0), -6),
{
    let pre1 = seq![58u8];
    let pre2 = kw_return() + seq![32u8];
    let s1 = pre1 + r;
    let s2 = pre2 + r;
    assert(s1[0] == 58);
    assert(spec_spaces(s1, 0) == 0);
    assert(s2[0] == 114);
    assert(spec_spaces(s2, 0) == 0);
    assert(s2.subrange(0, 6) =~= kw_return());
    assert(s2[6] == 32);
    assert(byte_at(s2, 6) == 32);
    lemma_colon_is_return(s1, 0);
    lemma_colon_is_return(s2, 0);
    shift_spaces(pre1, r, 0);
    shift_spaces(pre2, r, 0);
    assert(spec_spaces(s2, 6) == spec_spaces(s2, 7));
    lemma_spaces(r, 0);
    let q = spec_spaces(r, 0);
    shift_expr(pre1, r, q);
    shift_expr(pre2, r, q);
}

} // verus!
