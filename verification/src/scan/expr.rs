//! Expressions and their scanning.
use vstd::prelude::*;
use vstd::utf8::{valid_utf8, decode_utf8};
use crate::intern::Interned;
use crate::primitive::litr::{Litr, SLitr, KsType, SKsType};
use crate::scan::stmt::{Statements, SStatements, view_statements};
use crate::scan::{
    ScanError, Scanned, Scanner, outcome, byte_at, is_digit, spec_spaces, spec_ident, lemma_spaces,
    lemma_ident, spaces_from, is_ident_start_byte, is_ident_char_byte,
};

verus! {

/// Binary operators, from the loosest binding to the tightest.
#[derive(Debug, Clone, Copy, PartialEq, Eq)]
pub enum BinOp {
    /// `=`
    Assign,
    /// `||`
    Or,
    /// `&&`
    And,
    /// `==`
    Eq,
    /// `!=`
    Ne,
    /// `<`
    Lt,
    /// `>`
    Gt,
    /// `<=`
    Le,
    /// `>=`
    Ge,
    /// `+`
    Add,
    /// `-`
    Sub,
    /// `*`
    Mul,
    /// `/`
    Div,
    /// `%`
    Rem,
}

/// Prefix operators.
#[derive(Debug, Clone, Copy, PartialEq, Eq)]
pub enum UnaryOp {
    /// `-`
    Neg,
    /// `!`
    Not,
}

/// A parameter of a function declaration: its name and declared type.
#[derive(Debug)]
pub struct ArgDecl {
    pub name: Interned,
    pub t: KsType,
}

/// A function declared in the script, not yet bound to a scope.
#[derive(Debug)]
pub struct LocalFuncRaw {
    pub argdecl: Vec<ArgDecl>,
    pub stmts: Statements,
}

/// An expression.
#[derive(Debug)]
pub enum Expr {
    /// No expression.
    Empty,
    Literal(Litr),
    /// A variable.
    Variant(Interned),
    /// A function declaration.
    LocalDecl(LocalFuncRaw),
    /// A call: the callee and the arguments.
    Call(Box<Expr>, Vec<Expr>),
    /// `left.name`
    Property(Box<Expr>, Interned),
    /// `left[index]`
    Index(Box<Expr>, Box<Expr>),
    Unary(UnaryOp, Box<Expr>),
    Binary(Box<Expr>, BinOp, Box<Expr>),
    /// `[a, b, ...]`
    List(Vec<Expr>),
}

pub struct SArgDecl {
    pub name: Seq<u8>,
    pub t: SKsType,
}

pub struct SLocalFunc {
    pub args: Seq<SArgDecl>,
    pub stmts: SStatements,
}

/// The mathematical value of an [`Expr`].
pub enum SExpr {
    Empty,
    Literal(SLitr),
    Variant(Seq<u8>),
    LocalDecl(SLocalFunc),
    Call(Box<SExpr>, Seq<SExpr>),
    Property(Box<SExpr>, Seq<u8>),
    Index(Box<SExpr>, Box<SExpr>),
    Unary(UnaryOp, Box<SExpr>),
    Binary(Box<SExpr>, BinOp, Box<SExpr>),
    List(Seq<SExpr>),
}

pub open spec fn view_arg(a: ArgDecl) -> SArgDecl {
    SArgDecl { name: a.name@, t: a.t@ }
}

pub open spec fn view_args(v: Seq<ArgDecl>) -> Seq<SArgDecl> {
    Seq::new(v.len(), |i: int| view_arg(v[i]))
}

impl View for ArgDecl {
    type V = SArgDecl;

    open spec fn view(&self) -> SArgDecl {
        view_arg(*self)
    }
}

pub open spec fn view_local_func(f: LocalFuncRaw) -> SLocalFunc
    decreases f,
{
    SLocalFunc { args: view_args(f.argdecl@), stmts: view_statements(f.stmts) }
}

impl View for LocalFuncRaw {
    type V = SLocalFunc;

    open spec fn view(&self) -> SLocalFunc {
        view_local_func(*self)
    }
}

pub open spec fn view_expr(e: Expr) -> SExpr
    decreases e,
{
    match e {
        Expr::Empty => SExpr::Empty,
        Expr::Literal(l) => SExpr::Literal(l@),
        Expr::Variant(n) => SExpr::Variant(n@),
        Expr::LocalDecl(f) => SExpr::LocalDecl(view_local_func(f)),
        Expr::Call(f, args) => SExpr::Call(
            Box::new(view_expr(*f)),
            Seq::new(
                args@.len(),
                |i: int|
                    if 0 <= i < args@.len() {
                        proof {
                            assert(decreases_to!(args => args@[i]));
                        }
                        view_expr(args@[i])
                    } else {
                        SExpr::Empty
                    },
            ),
        ),
        Expr::Property(l, n) => SExpr::Property(Box::new(view_expr(*l)), n@),
        Expr::Index(l, i) => SExpr::Index(Box::new(view_expr(*l)), Box::new(view_expr(*i))),
        Expr::Unary(op, x) => SExpr::Unary(op, Box::new(view_expr(*x))),
        Expr::Binary(l, op, r) => SExpr::Binary(Box::new(view_expr(*l)), op, Box::new(view_expr(*r))),
        Expr::List(v) => SExpr::List(
            Seq::new(
                v@.len(),
                |i: int|
                    if 0 <= i < v@.len() {
                        proof {
                            assert(decreases_to!(v => v@[i]));
                        }
                        view_expr(v@[i])
                    } else {
                        SExpr::Empty
                    },
            ),
        ),
    }
}

impl View for Expr {
    type V = SExpr;

    open spec fn view(&self) -> SExpr {
        view_expr(*self)
    }
}

/// The views of a sequence of expressions.
pub open spec fn view_exprs(v: Seq<Expr>) -> Seq<SExpr> {
    Seq::new(v.len(), |i: int| v[i]@)
}

} // verus!

verus! {

pub open spec fn kw_true() -> Seq<u8> {
    seq![116u8, 114, 117, 101]
}

pub open spec fn kw_false() -> Seq<u8> {
    seq![102u8, 97, 108, 115, 101]
}

/// The end of the decimal digits that start at `p`.
pub open spec fn digits_end(s: Seq<u8>, p: int) -> int
    decreases s.len() - p,
{
    if p < 0 || p >= s.len() || !is_digit(s[p]) {
        p
    } else {
        digits_end(s, p + 1)
    }
}

/// The number written by the decimal digits from `p` to `q`.
pub open spec fn digits_value(s: Seq<u8>, p: int, q: int) -> nat
    decreases q - p,
{
    if q <= p {
        0
    } else {
        digits_value(s, p, q - 1) * 10 + (s[q - 1] - 48) as nat
    }
}

/// A number literal: decimal digits, followed by `u` for an unsigned number.
pub open spec fn spec_number(s: Seq<u8>, p: int) -> Scanned<SExpr> {
    let e = digits_end(s, p);
    let v = digits_value(s, p, e);
    if byte_at(s, e) == 117 {
        if v <= usize::MAX {
            Ok((SExpr::Literal(SLitr::Uint(v as usize)), e + 1))
        } else {
            Err(ScanError::NumberTooLarge)
        }
    } else if v <= isize::MAX {
        Ok((SExpr::Literal(SLitr::Int(v as isize)), e))
    } else {
        Err(ScanError::NumberTooLarge)
    }
}

/// The position of the first `"` at or after `p`, or the end.
pub open spec fn string_end(s: Seq<u8>, p: int) -> int
    decreases s.len() - p,
{
    if p < 0 || p >= s.len() || s[p] == 34 {
        p
    } else {
        string_end(s, p + 1)
    }
}

/// A string literal: the UTF-8 text between two `"`.
pub open spec fn spec_string(s: Seq<u8>, p: int) -> Scanned<SExpr> {
    let e = string_end(s, p + 1);
    if e >= s.len() {
        Err(ScanError::UnclosedString)
    } else if valid_utf8(s.subrange(p + 1, e)) {
        Ok((SExpr::Literal(SLitr::Str(decode_utf8(s.subrange(p + 1, e)))), e + 1))
    } else {
        Err(ScanError::InvalidUtf8)
    }
}

/// A name, `true`, `false`, a number or a string; `Empty` (nothing scanned) otherwise.
pub open spec fn spec_atom(s: Seq<u8>, p: int) -> Scanned<SExpr> {
    match spec_ident(s, p) {
        Some((id, e)) => Ok(
            (
                if id == kw_true() {
                    SExpr::Literal(SLitr::Bool(true))
                } else if id == kw_false() {
                    SExpr::Literal(SLitr::Bool(false))
                } else {
                    SExpr::Variant(id)
                },
                e,
            ),
        ),
        None => if is_digit(byte_at(s, p)) {
            spec_number(s, p)
        } else if byte_at(s, p) == 34 {
            spec_string(s, p)
        } else {
            Ok((SExpr::Empty, p))
        },
    }
}

/// The binary operator written at `q`, and its length.
pub open spec fn op_at(s: Seq<u8>, q: int) -> Option<(BinOp, int)> {
    let b0 = byte_at(s, q);
    let b1 = byte_at(s, q + 1);
    if b0 == 61 {
        if b1 == 61 { Some((BinOp::Eq, 2)) } else { Some((BinOp::Assign, 1)) }
    } else if b0 == 33 {
        if b1 == 61 { Some((BinOp::Ne, 2)) } else { None }
    } else if b0 == 60 {
        if b1 == 61 { Some((BinOp::Le, 2)) } else { Some((BinOp::Lt, 1)) }
    } else if b0 == 62 {
        if b1 == 61 { Some((BinOp::Ge, 2)) } else { Some((BinOp::Gt, 1)) }
    } else if b0 == 38 {
        if b1 == 38 { Some((BinOp::And, 2)) } else { None }
    } else if b0 == 124 {
        if b1 == 124 { Some((BinOp::Or, 2)) } else { None }
    } else if b0 == 43 {
        Some((BinOp::Add, 1))
    } else if b0 == 45 {
        Some((BinOp::Sub, 1))
    } else if b0 == 42 {
        Some((BinOp::Mul, 1))
    } else if b0 == 47 {
        Some((BinOp::Div, 1))
    } else if b0 == 37 {
        Some((BinOp::Rem, 1))
    } else {
        None
    }
}

pub proof fn lemma_op_at(s: Seq<u8>, q: int)
    ensures
        op_at(s, q) matches Some((op, n)) ==> 1 <= n && 0 <= q && q + n <= s.len(),
{
}

/// How tightly an operator binds.
pub open spec fn prec(op: BinOp) -> nat {
    match op {
        BinOp::Assign => 0,
        BinOp::Or => 1,
        BinOp::And => 2,
        BinOp::Eq | BinOp::Ne | BinOp::Lt | BinOp::Gt | BinOp::Le | BinOp::Ge => 3,
        BinOp::Add | BinOp::Sub => 4,
        BinOp::Mul | BinOp::Div | BinOp::Rem => 5,
    }
}

/// The least binding strength of the right operand: `=` groups to the right,
/// every other operator to the left.
pub open spec fn rhs_min(op: BinOp) -> nat {
    if op == BinOp::Assign {
        prec(op)
    } else {
        prec(op) + 1
    }
}

/// A comma-separated list of expressions closed by `close`, after the opening bracket;
/// `acc` holds the expressions already scanned.
pub open spec fn spec_items(s: Seq<u8>, p: int, close: u8, err: ScanError, acc: Seq<SExpr>) -> Scanned<
    Seq<SExpr>,
>
    decreases s.len() - p, 6nat,
{
    let q = spec_spaces(s, p);
    proof {
        lemma_spaces(s, p);
    }
    if byte_at(s, q) == close {
        Ok((acc, q + 1))
    } else {
        match spec_expr(s, q) {
            Err(e) => Err(e),
            Ok((e, r)) => if e is Empty || !(q < r <= s.len()) {
                Err(err)
            } else {
                let t = spec_spaces(s, r);
                if byte_at(s, t) == 44 {
                    proof {
                        lemma_spaces(s, r);
                    }
                    spec_items(s, t + 1, close, err, acc.push(e))
                } else if byte_at(s, t) == close {
                    Ok((acc.push(e), t + 1))
                } else {
                    Err(err)
                }
            },
        }
    }
}

/// An expression, after blanks.
pub open spec fn spec_expr(s: Seq<u8>, p: int) -> Scanned<SExpr>
    decreases s.len() - p, 5nat,
{
    proof {
        lemma_spaces(s, p);
    }
    spec_binary(s, spec_spaces(s, p), 0)
}

/// An expression whose operators bind at least as tightly as `min`.
pub open spec fn spec_binary(s: Seq<u8>, p: int, min: nat) -> Scanned<SExpr>
    decreases s.len() - p, 4nat,
{
    match spec_unary(s, p) {
        Err(e) => Err(e),
        Ok((l, p1)) => if l is Empty || !(p < p1 <= s.len()) {
            Ok((SExpr::Empty, p))
        } else {
            spec_climb(s, l, p1, min)
        },
    }
}

/// Continues the expression `l`, which ends at `p`, with operators that bind at
/// least as tightly as `min`. The blanks after the last operand are not consumed.
pub open spec fn spec_climb(s: Seq<u8>, l: SExpr, p: int, min: nat) -> Scanned<SExpr>
    decreases s.len() - p, 4nat,
{
    let q = spec_spaces(s, p);
    match op_at(s, q) {
        None => Ok((l, p)),
        Some((op, n)) => if prec(op) < min {
            Ok((l, p))
        } else {
            proof {
                lemma_spaces(s, p);
                lemma_op_at(s, q);
                lemma_spaces(s, q + n);
            }
            match spec_binary(s, spec_spaces(s, q + n), rhs_min(op)) {
                Err(e) => Err(e),
                Ok((r, p2)) => if r is Empty || !(q < p2 <= s.len()) {
                    Err(ScanError::MissingOperand)
                } else {
                    spec_climb(s, SExpr::Binary(Box::new(l), op, Box::new(r)), p2, min)
                },
            }
        },
    }
}

/// A prefix operator and its operand, or a primary expression with its postfixes.
pub open spec fn spec_unary(s: Seq<u8>, p: int) -> Scanned<SExpr>
    decreases s.len() - p, 3nat,
{
    let b = byte_at(s, p);
    if b == 45 || b == 33 {
        match spec_unary(s, p + 1) {
            Err(e) => Err(e),
            Ok((x, q)) => if x is Empty {
                Err(ScanError::MissingOperand)
            } else {
                Ok(
                    (
                        SExpr::Unary(if b == 45 { UnaryOp::Neg } else { UnaryOp::Not }, Box::new(x)),
                        q,
                    ),
                )
            },
        }
    } else {
        match spec_primary(s, p) {
            Err(e) => Err(e),
            Ok((x, q)) => if x is Empty || !(p < q <= s.len()) {
                Ok((SExpr::Empty, p))
            } else {
                spec_postfix(s, x, q)
            },
        }
    }
}

/// A parenthesized expression, a list, or an atom.
pub open spec fn spec_primary(s: Seq<u8>, p: int) -> Scanned<SExpr>
    decreases s.len() - p, 2nat,
{
    let b = byte_at(s, p);
    if b == 40 {
        match spec_expr(s, p + 1) {
            Err(e) => Err(e),
            Ok((x, q)) => {
                let r = spec_spaces(s, q);
                if x is Empty {
                    Err(ScanError::EmptyGroup)
                } else if byte_at(s, r) != 41 {
                    Err(ScanError::UnclosedParen)
                } else {
                    Ok((x, r + 1))
                }
            },
        }
    } else if b == 91 {
        match spec_items(s, p + 1, 93, ScanError::UnclosedBracket, Seq::empty()) {
            Err(e) => Err(e),
            Ok((xs, q)) => Ok((SExpr::List(xs), q)),
        }
    } else {
        spec_atom(s, p)
    }
}

/// Calls `(...)`, properties `.name` and indexes `[...]` written directly after `l`.
pub open spec fn spec_postfix(s: Seq<u8>, l: SExpr, p: int) -> Scanned<SExpr>
    decreases s.len() - p, 1nat,
{
    let b = byte_at(s, p);
    if b == 40 {
        match spec_items(s, p + 1, 41, ScanError::UnclosedCall, Seq::empty()) {
            Err(e) => Err(e),
            Ok((args, q)) => if !(p < q <= s.len()) {
                Ok((SExpr::Call(Box::new(l), args), q))
            } else {
                spec_postfix(s, SExpr::Call(Box::new(l), args), q)
            },
        }
    } else if b == 46 {
        proof {
            lemma_ident(s, p + 1);
        }
        match spec_ident(s, p + 1) {
            None => Err(ScanError::ExpectedName),
            Some((n, e)) => spec_postfix(s, SExpr::Property(Box::new(l), n), e),
        }
    } else if b == 91 {
        match spec_expr(s, p + 1) {
            Err(e) => Err(e),
            Ok((x, q)) => {
                let r = spec_spaces(s, q);
                if x is Empty || !(p < q <= s.len()) || byte_at(s, r) != 93 {
                    Err(ScanError::UnclosedBracket)
                } else {
                    proof {
                        lemma_spaces(s, q);
                    }
                    spec_postfix(s, SExpr::Index(Box::new(l), Box::new(x)), r + 1)
                }
            },
        }
    } else {
        Ok((l, p))
    }
}

/// Continues the expression `l`, which ends at `p`: its postfixes, then its operators.
pub open spec fn spec_with_left(s: Seq<u8>, l: SExpr, p: int) -> Scanned<SExpr> {
    match spec_postfix(s, l, p) {
        Err(e) => Err(e),
        Ok((x, q)) => spec_climb(s, x, q, 0),
    }
}

} // verus!

verus! {

/// `String::from_utf8`: the text encoded by `b`, or nothing when `b` is not UTF-8.
#[verifier::external_body]
fn utf8_string(b: Vec<u8>) -> (r: Option<String>)
    ensures
        r is Some <==> valid_utf8(b@),
        r matches Some(t) ==> t@ == decode_utf8(b@),
{
    String::from_utf8(b).ok()
}

/// A scan that gives `e` moved from `p0` to `p1`: not at all when `e` is empty,
/// otherwise forward, within the source.
pub open spec fn moved(e: SExpr, p0: int, p1: int, len: int) -> bool {
    if e is Empty {
        p1 == p0
    } else {
        p0 < p1 <= len
    }
}

pub proof fn lemma_digits_value_mono(s: Seq<u8>, p: int, i: int, j: int)
    requires
        p <= i <= j,
        forall|k: int| p <= k < j ==> is_digit(#[trigger] s[k]),
    ensures
        digits_value(s, p, i) <= digits_value(s, p, j),
    decreases j - i,
{
    if i < j {
        lemma_digits_value_mono(s, p, i, j - 1);
    }
}

pub proof fn lemma_digits_end(s: Seq<u8>, p: int)
    ensures
        digits_end(s, p) >= p,
        0 <= p <= s.len() ==> digits_end(s, p) <= s.len(),
        forall|k: int| p <= k < digits_end(s, p) ==> is_digit(#[trigger] s[k]),
    decreases s.len() - p,
{
    if !(p < 0 || p >= s.len() || !is_digit(s[p])) {
        lemma_digits_end(s, p + 1);
    }
}

pub fn is_digit_byte(b: u8) -> (r: bool)
    ensures
        r == is_digit(b),
{
    48 <= b && b <= 57
}

/// Views of the expressions of a vector.
pub open spec fn view_expr_vec(v: Vec<Expr>) -> Seq<SExpr> {
    view_exprs(v@)
}

impl<'a> Scanner<'a> {
    /// Scans a number literal.
    fn number(&mut self) -> (r: Result<Expr, ScanError>)
        requires
            old(self).wf(),
            is_digit(byte_at(old(self).src@, old(self).i as int)),
        ensures
            final(self).wf(),
            final(self).src == old(self).src,
            outcome(r, final(self).i) == spec_number(old(self).src@, old(self).i as int),
            r is Ok ==> old(self).i < final(self).i <= old(self).src@.len(),
    {
        let ghost s = self.src@;
        let ghost p0 = self.i as int;
        proof {
            lemma_digits_end(s, p0);
        }
        let len = self.src.len();
        let mut v: usize = 0;
        while self.i < len && is_digit_byte(self.src[self.i])
            invariant
                self.wf(),
                self.src == old(self).src,
                s == self.src@,
                len == s.len(),
                0 <= p0 <= self.i <= len,
                p0 == old(self).i,
                v == digits_value(s, p0, self.i as int),
                digits_end(s, self.i as int) == digits_end(s, p0),
                p0 <= digits_end(s, p0) <= len,
                forall|k: int| p0 <= k < digits_end(s, p0) ==> is_digit(#[trigger] s[k]),
            decreases len - self.i,
        {
            let d = (self.src[self.i] - 48) as usize;
            proof {
                let k = self.i as int;
                lemma_digits_end(s, k + 1);
                assert(digits_end(s, k) == digits_end(s, k + 1));
                lemma_digits_value_mono(s, p0, k + 1, digits_end(s, p0));
                assert(digits_value(s, p0, k + 1) == v * 10 + d);
            }
            match v.checked_mul(10) {
                None => {
                    return Err(ScanError::NumberTooLarge);
                },
                Some(m) => match m.checked_add(d) {
                    None => {
                        return Err(ScanError::NumberTooLarge);
                    },
                    Some(w) => {
                        v = w;
                    },
                },
            }
            self.next();
        }
        if self.cur() == 117 {
            self.next();
            Ok(Expr::Literal(Litr::Uint(v)))
        } else if v <= isize::MAX as usize {
            Ok(Expr::Literal(Litr::Int(v as isize)))
        } else {
            Err(ScanError::NumberTooLarge)
        }
    }

    /// Scans a string literal.
    fn string(&mut self) -> (r: Result<Expr, ScanError>)
        requires
            old(self).wf(),
            byte_at(old(self).src@, old(self).i as int) == 34,
        ensures
            final(self).wf(),
            final(self).src == old(self).src,
            outcome(r, final(self).i) == spec_string(old(self).src@, old(self).i as int),
            r is Ok ==> old(self).i < final(self).i <= old(self).src@.len(),
    {
        let ghost s = self.src@;
        let ghost p0 = self.i as int;
        let len = self.src.len();
        self.next();
        let mut b: Vec<u8> = Vec::new();
        while self.i < len && self.src[self.i] != 34
            invariant
                self.wf(),
                self.src == old(self).src,
                s == self.src@,
                len == s.len(),
                0 <= p0 < self.i <= len,
                p0 == old(self).i,
                b@ == s.subrange(p0 + 1, self.i as int),
                string_end(s, self.i as int) == string_end(s, p0 + 1),
            decreases len - self.i,
        {
            let ghost k = self.i as int;
            b.push(self.src[self.i]);
            self.next();
            assert(s.subrange(p0 + 1, k + 1) =~= s.subrange(p0 + 1, k).push(s[k]));
        }
        if self.i >= len {
            return Err(ScanError::UnclosedString);
        }
        self.next();
        match utf8_string(b) {
            Some(t) => Ok(Expr::Literal(Litr::Str(t))),
            None => Err(ScanError::InvalidUtf8),
        }
    }

    /// Scans a name, `true`, `false`, a number or a string; scans nothing and
    /// gives `Expr::Empty` when none starts here.
    pub fn literal(&mut self) -> (r: Result<Expr, ScanError>)
        requires
            old(self).wf(),
        ensures
            final(self).wf(),
            final(self).src == old(self).src,
            outcome(r, final(self).i) == spec_atom(old(self).src@, old(self).i as int),
            r matches Ok(e) ==> moved(e@, old(self).i as int, final(self).i as int, old(self).src@.len() as int),
    {
        proof {
            lemma_ident(self.src@, self.i as int);
        }
        match self.ident() {
            Some(id) => {
                if id.is(&[116u8, 114, 117, 101]) {
                    assert(id@ == kw_true());
                    Ok(Expr::Literal(Litr::Bool(true)))
                } else if id.is(&[102u8, 97, 108, 115, 101]) {
                    assert(id@ == kw_false());
                    Ok(Expr::Literal(Litr::Bool(false)))
                } else {
                    Ok(Expr::Variant(id))
                }
            },
            None => {
                let b = self.cur();
                if is_digit_byte(b) {
                    self.number()
                } else if b == 34 {
                    self.string()
                } else {
                    Ok(Expr::Empty)
                }
            },
        }
    }
}

} // verus!

verus! {

/// The binary operator written at `q` of `src`, and its length.
pub fn op_at_exec(src: &[u8], q: usize) -> (r: Option<(BinOp, usize)>)
    ensures
        match op_at(src@, q as int) {
            Some((op, n)) => r == Some((op, n as usize)),
            None => r is None,
        },
{
    let len = src.len();
    let b0: u8 = if q < len { src[q] } else { 0 };
    let b1: u8 = if q < len && q + 1 < len { src[q + 1] } else { 0 };
    if b0 == 61 {
        if b1 == 61 { Some((BinOp::Eq, 2)) } else { Some((BinOp::Assign, 1)) }
    } else if b0 == 33 {
        if b1 == 61 { Some((BinOp::Ne, 2)) } else { None }
    } else if b0 == 60 {
        if b1 == 61 { Some((BinOp::Le, 2)) } else { Some((BinOp::Lt, 1)) }
    } else if b0 == 62 {
        if b1 == 61 { Some((BinOp::Ge, 2)) } else { Some((BinOp::Gt, 1)) }
    } else if b0 == 38 {
        if b1 == 38 { Some((BinOp::And, 2)) } else { None }
    } else if b0 == 124 {
        if b1 == 124 { Some((BinOp::Or, 2)) } else { None }
    } else if b0 == 43 {
        Some((BinOp::Add, 1))
    } else if b0 == 45 {
        Some((BinOp::Sub, 1))
    } else if b0 == 42 {
        Some((BinOp::Mul, 1))
    } else if b0 == 47 {
        Some((BinOp::Div, 1))
    } else if b0 == 37 {
        Some((BinOp::Rem, 1))
    } else {
        None
    }
}

pub fn prec_exec(op: BinOp) -> (r: u8)
    ensures
        r == prec(op),
{
    match op {
        BinOp::Assign => 0,
        BinOp::Or => 1,
        BinOp::And => 2,
        BinOp::Eq | BinOp::Ne | BinOp::Lt | BinOp::Gt | BinOp::Le | BinOp::Ge => 3,
        BinOp::Add | BinOp::Sub => 4,
        BinOp::Mul | BinOp::Div | BinOp::Rem => 5,
    }
}

pub fn rhs_min_exec(op: BinOp) -> (r: u8)
    ensures
        r == rhs_min(op),
{
    match op {
        BinOp::Assign => 0,
        _ => prec_exec(op) + 1,
    }
}

pub fn is_empty_expr(e: &Expr) -> (r: bool)
    ensures
        r == (e@ is Empty),
{
    match e {
        Expr::Empty => true,
        _ => false,
    }
}

impl<'a> Scanner<'a> {
    /// Scans a comma-separated list of expressions closed by `close`, after the opening bracket.
    pub fn items(&mut self, close: u8, err: ScanError) -> (r: Result<Vec<Expr>, ScanError>)
        requires
            old(self).wf(),
            close != 0,
        ensures
            final(self).wf(),
            final(self).src == old(self).src,
            match r {
                Ok(v) => spec_items(old(self).src@, old(self).i as int, close, err, Seq::empty())
                    == Ok::<(Seq<SExpr>, int), ScanError>((view_exprs(v@), final(self).i as int)) && old(self).i < final(self).i
                    <= old(self).src@.len(),
                Err(e) => spec_items(old(self).src@, old(self).i as int, close, err, Seq::empty())
                    == Err::<(Seq<SExpr>, int), ScanError>(e),
            },
        decreases old(self).src@.len() + 1 - old(self).i, 6nat,
    {
        let ghost s = self.src@;
        let ghost p0 = self.i as int;
        let mut acc: Vec<Expr> = Vec::new();
        assert(view_exprs(acc@) =~= Seq::<SExpr>::empty());
        loop
            invariant
                close != 0,
                self.wf(),
                self.src == old(self).src,
                s == self.src@,
                p0 == old(self).i,
                p0 <= self.i,
                spec_items(s, self.i as int, close, err, view_exprs(acc@)) == spec_items(
                    s,
                    p0,
                    close,
                    err,
                    Seq::empty(),
                ),
            decreases s.len() + 1 - self.i,
        {
            proof {
                assert(view_exprs(Seq::<Expr>::empty()) =~= Seq::<SExpr>::empty());
                lemma_spaces(s, self.i as int);
            }
            let ghost i0 = self.i as int;
            self.spaces();
            if self.cur() == close {
                self.next();
                return Ok(acc);
            }
            let q = self.i;
            match self.expr() {
                Err(e) => {
                    return Err(e);
                },
                Ok(e) => {
                    if is_empty_expr(&e) {
                        return Err(err);
                    }
                    proof {
                        lemma_spaces(s, self.i as int);
                    }
                    self.spaces();
                    if self.cur() == 44 {
                        self.next();
                        let ghost old_acc = acc@;
                        acc.push(e);
                        assert(view_exprs(acc@) =~= view_exprs(old_acc).push(e@));
                    } else if self.cur() == close {
                        self.next();
                        let ghost old_acc = acc@;
                        acc.push(e);
                        assert(view_exprs(acc@) =~= view_exprs(old_acc).push(e@));
                        return Ok(acc);
                    } else {
                        return Err(err);
                    }
                },
            }
        }
    }

    /// Scans an expression, after blanks; gives `Expr::Empty` when none is written here.
    pub fn expr(&mut self) -> (r: Result<Expr, ScanError>)
        requires
            old(self).wf(),
        ensures
            final(self).wf(),
            final(self).src == old(self).src,
            outcome(r, final(self).i) == spec_expr(old(self).src@, old(self).i as int),
            r is Ok ==> old(self).i <= final(self).i,
            r is Ok ==> (final(self).i == old(self).i || final(self).i <= old(self).src@.len()),
            r matches Ok(e) ==> (e@ is Empty || old(self).i < final(self).i <= old(self).src@.len()),
        decreases old(self).src@.len() + 1 - old(self).i, 5nat,
    {
        proof {
            lemma_spaces(self.src@, self.i as int);
        }
        self.spaces();
        self.binary(0)
    }

    /// Scans an expression whose operators bind at least as tightly as `min`.
    fn binary(&mut self, min: u8) -> (r: Result<Expr, ScanError>)
        requires
            old(self).wf(),
        ensures
            final(self).wf(),
            final(self).src == old(self).src,
            outcome(r, final(self).i) == spec_binary(old(self).src@, old(self).i as int, min as nat),
            r matches Ok(e) ==> moved(e@, old(self).i as int, final(self).i as int, old(self).src@.len() as int),
        decreases old(self).src@.len() + 1 - old(self).i, 4nat,
    {
        match self.unary() {
            Err(e) => Err(e),
            Ok(l) => {
                if is_empty_expr(&l) {
                    Ok(Expr::Empty)
                } else {
                    self.climb(l, min)
                }
            },
        }
    }

    /// Continues the expression `l` with operators that bind at least as tightly as `min`.
    fn climb(&mut self, l: Expr, min: u8) -> (r: Result<Expr, ScanError>)
        requires
            old(self).wf(),
        ensures
            final(self).wf(),
            final(self).src == old(self).src,
            outcome(r, final(self).i) == spec_climb(old(self).src@, l@, old(self).i as int, min as nat),
            r is Ok ==> old(self).i <= final(self).i,
            r is Ok ==> (old(self).i <= old(self).src@.len() ==> final(self).i <= old(self).src@.len()),
            r matches Ok(e) ==> (e@ is Empty ==> l@ is Empty),
        decreases old(self).src@.len() + 1 - old(self).i, 4nat,
    {
        let ghost s = self.src@;
        let ghost p0 = self.i as int;
        let ghost l0 = l@;
        let mut left = l;
        loop
            invariant
                self.wf(),
                self.src == old(self).src,
                s == self.src@,
                p0 == old(self).i,
                p0 <= self.i,
                p0 <= s.len() ==> self.i <= s.len(),
                l0 == l@,
                left@ is Empty ==> l0 is Empty,
                spec_climb(s, left@, self.i as int, min as nat) == spec_climb(s, l0, p0, min as nat),
            decreases s.len() + 1 - self.i,
        {
            let q = spaces_from(self.src, self.i);
            proof {
                lemma_spaces(s, self.i as int);
                lemma_op_at(s, q as int);
            }
            match op_at_exec(self.src, q) {
                None => {
                    return Ok(left);
                },
                Some((op, n)) => {
                    if prec_exec(op) < min {
                        return Ok(left);
                    }
                    self.set_i(q + n);
                    proof {
                        lemma_spaces(s, self.i as int);
                    }
                    self.spaces();
                    match self.binary(rhs_min_exec(op)) {
                        Err(e) => {
                            return Err(e);
                        },
                        Ok(r) => {
                            if is_empty_expr(&r) {
                                return Err(ScanError::MissingOperand);
                            }
                            left = Expr::Binary(Box::new(left), op, Box::new(r));
                        },
                    }
                },
            }
        }
    }

    /// Scans a prefix operator and its operand, or a primary expression and its postfixes.
    fn unary(&mut self) -> (r: Result<Expr, ScanError>)
        requires
            old(self).wf(),
        ensures
            final(self).wf(),
            final(self).src == old(self).src,
            outcome(r, final(self).i) == spec_unary(old(self).src@, old(self).i as int),
            r matches Ok(e) ==> moved(e@, old(self).i as int, final(self).i as int, old(self).src@.len() as int),
        decreases old(self).src@.len() + 1 - old(self).i, 3nat,
    {
        let b = self.cur();
        if b == 45 || b == 33 {
            self.next();
            match self.unary() {
                Err(e) => Err(e),
                Ok(x) => {
                    if is_empty_expr(&x) {
                        Err(ScanError::MissingOperand)
                    } else {
                        let op = if b == 45 { UnaryOp::Neg } else { UnaryOp::Not };
                        Ok(Expr::Unary(op, Box::new(x)))
                    }
                },
            }
        } else {
            match self.primary() {
                Err(e) => Err(e),
                Ok(x) => {
                    if is_empty_expr(&x) {
                        Ok(Expr::Empty)
                    } else {
                        self.postfix(x)
                    }
                },
            }
        }
    }

    /// Scans a parenthesized expression, a list, or a literal.
    fn primary(&mut self) -> (r: Result<Expr, ScanError>)
        requires
            old(self).wf(),
        ensures
            final(self).wf(),
            final(self).src == old(self).src,
            outcome(r, final(self).i) == spec_primary(old(self).src@, old(self).i as int),
            r matches Ok(e) ==> moved(e@, old(self).i as int, final(self).i as int, old(self).src@.len() as int),
        decreases old(self).src@.len() + 1 - old(self).i, 2nat,
    {
        let b = self.cur();
        if b == 40 {
            self.next();
            match self.expr() {
                Err(e) => Err(e),
                Ok(x) => {
                    proof {
                        lemma_spaces(self.src@, self.i as int);
                    }
                    self.spaces();
                    if is_empty_expr(&x) {
                        Err(ScanError::EmptyGroup)
                    } else if self.cur() != 41 {
                        Err(ScanError::UnclosedParen)
                    } else {
                        self.next();
                        Ok(x)
                    }
                },
            }
        } else if b == 91 {
            self.next();
            match self.items(93, ScanError::UnclosedBracket) {
                Err(e) => Err(e),
                Ok(xs) => {
                    let r = Expr::List(xs);
                    proof {
                        if let SExpr::List(a) = r@ {
                            assert(a =~= view_exprs(xs@));
                        }
                    }
                    Ok(r)
                },
            }
        } else {
            self.literal()
        }
    }

    /// Scans the calls, properties and indexes written directly after `l`.
    fn postfix(&mut self, l: Expr) -> (r: Result<Expr, ScanError>)
        requires
            old(self).wf(),
        ensures
            final(self).wf(),
            final(self).src == old(self).src,
            outcome(r, final(self).i) == spec_postfix(old(self).src@, l@, old(self).i as int),
            r is Ok ==> old(self).i <= final(self).i,
            r is Ok ==> (old(self).i <= old(self).src@.len() ==> final(self).i <= old(self).src@.len()),
            r matches Ok(e) ==> (e@ is Empty ==> l@ is Empty),
        decreases old(self).src@.len() + 1 - old(self).i, 1nat,
    {
        let ghost s = self.src@;
        let ghost p0 = self.i as int;
        let ghost l0 = l@;
        let mut left = l;
        loop
            invariant
                self.wf(),
                self.src == old(self).src,
                s == self.src@,
                p0 == old(self).i,
                p0 <= self.i,
                p0 <= s.len() ==> self.i <= s.len(),
                l0 == l@,
                left@ is Empty ==> l0 is Empty,
                spec_postfix(s, left@, self.i as int) == spec_postfix(s, l0, p0),
            decreases s.len() + 1 - self.i,
        {
            let b = self.cur();
            if b == 40 {
                self.next();
                match self.items(41, ScanError::UnclosedCall) {
                    Err(e) => {
                        return Err(e);
                    },
                    Ok(args) => {
                        let ghost va = view_exprs(args@);
                        left = Expr::Call(Box::new(left), args);
                        proof {
                            if let SExpr::Call(_, a) = left@ {
                                assert(a =~= va);
                            }
                        }
                    },
                }
            } else if b == 46 {
                self.next();
                proof {
                    lemma_ident(s, self.i as int);
                }
                match self.ident() {
                    None => {
                        return Err(ScanError::ExpectedName);
                    },
                    Some(n) => {
                        left = Expr::Property(Box::new(left), n);
                    },
                }
            } else if b == 91 {
                self.next();
                match self.expr() {
                    Err(e) => {
                        return Err(e);
                    },
                    Ok(x) => {
                        proof {
                            lemma_spaces(s, self.i as int);
                        }
                        self.spaces();
                        if is_empty_expr(&x) || self.cur() != 93 {
                            return Err(ScanError::UnclosedBracket);
                        }
                        self.next();
                        left = Expr::Index(Box::new(left), Box::new(x));
                    },
                }
            } else {
                return Ok(left);
            }
        }
    }

    /// Scans the parenthesized expression that starts here, at a `(`.
    pub fn expr_group(&mut self) -> (r: Result<Expr, ScanError>)
        requires
            old(self).wf(),
            byte_at(old(self).src@, old(self).i as int) == 40,
        ensures
            final(self).wf(),
            final(self).src == old(self).src,
            outcome(r, final(self).i) == spec_primary(old(self).src@, old(self).i as int),
            r matches Ok(e) ==> old(self).i < final(self).i <= old(self).src@.len(),
    {
        self.primary()
    }

    /// Continues the expression `left`, which has just been scanned: its postfixes, then its operators.
    pub fn expr_with_left(&mut self, left: Expr) -> (r: Result<Expr, ScanError>)
        requires
            old(self).wf(),
        ensures
            final(self).wf(),
            final(self).src == old(self).src,
            outcome(r, final(self).i) == spec_with_left(old(self).src@, left@, old(self).i as int),
            r is Ok ==> old(self).i <= final(self).i,
            r is Ok ==> (old(self).i <= old(self).src@.len() ==> final(self).i <= old(self).src@.len()),
            r matches Ok(e) ==> (e@ is Empty ==> left@ is Empty),
    {
        match self.postfix(left) {
            Err(e) => Err(e),
            Ok(x) => self.climb(x, 0),
        }
    }
}

} // verus!

verus! {

pub proof fn lemma_string_end(s: Seq<u8>, p: int)
    ensures
        string_end(s, p) >= p,
        0 <= p <= s.len() ==> string_end(s, p) <= s.len(),
    decreases s.len() - p,
{
    if !(p < 0 || p >= s.len() || s[p] == 34) {
        lemma_string_end(s, p + 1);
    }
}

/// An atom scans nothing when it is empty, and moves forward within the source otherwise.
pub proof fn lemma_atom(s: Seq<u8>, p: int)
    ensures
        spec_atom(s, p) matches Ok((a, r)) ==> moved(a, p, r, s.len() as int),
{
    lemma_ident(s, p);
    if spec_ident(s, p) is None {
        if is_digit(byte_at(s, p)) {
            lemma_digits_end(s, p);
            lemma_digits_end(s, p + 1);
            assert(digits_end(s, p) == digits_end(s, p + 1));
        } else if byte_at(s, p) == 34 {
            lemma_string_end(s, p + 1);
        }
    }
}

/// Whether a scan from `p` that stopped at `q` stayed put or moved forward within the source.
pub open spec fn fwd(p: int, q: int, len: int) -> bool {
    q == p || p < q <= len
}

} // verus!
