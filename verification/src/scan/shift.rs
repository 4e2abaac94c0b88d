//! Scanning from a position depends only on the text from there on: the same
//! text behind any prefix scans to the same result, at positions moved by the
//! prefix's length.
use vstd::prelude::*;
use crate::scan::{
    ScanError, Scanned, byte_at, is_space, spec_spaces, line_comment_end, block_comment_end,
    ident_end, spec_ident, lemma_spaces, lemma_line_comment_end, lemma_block_comment_end,
    lemma_ident_end, lemma_ident,
};
use crate::scan::expr::{
    SExpr, digits_end, digits_value, string_end, spec_number, spec_string, spec_atom, op_at,
    prec, rhs_min, spec_items, spec_expr, spec_binary, spec_climb, spec_unary, spec_primary,
    spec_postfix, lemma_digits_end, lemma_string_end, lemma_atom, lemma_op_at,
};

verus! {

/// A scanning result with its end position moved by `d`.
pub open spec fn shifted<T>(x: Scanned<T>, d: int) -> Scanned<T> {
    match x {
        Ok((v, q)) => Ok((v, q + d)),
        Err(e) => Err(e),
    }
}

/// A scanning result that, when it succeeds, ends at or after `k`.
pub open spec fn ends_after<T>(x: Scanned<T>, k: int) -> bool {
    x matches Ok((_, q)) ==> q >= k
}

proof fn shift_line_comment_end(pre: Seq<u8>, r: Seq<u8>, k: int)
    requires
        0 <= k,
    ensures
        line_comment_end(pre + r, pre.len() + k) == pre.len() + line_comment_end(r, k),
    decreases r.len() - k,
{
    if k < r.len() && r[k] != 10 {
        shift_line_comment_end(pre, r, k + 1);
    }
}

proof fn shift_block_comment_end(pre: Seq<u8>, r: Seq<u8>, k: int)
    requires
        0 <= k,
    ensures
        block_comment_end(pre + r, pre.len() + k) == pre.len() + block_comment_end(r, k),
    decreases r.len() - k,
{
    let s = pre + r;
    assert(byte_at(s, pre.len() + k + 1) == byte_at(r, k + 1));
    if k < r.len() && !(r[k] == 42 && byte_at(r, k + 1) == 47) {
        shift_block_comment_end(pre, r, k + 1);
    }
}

/// Blanks and comments are skipped alike behind any prefix.
pub proof fn shift_spaces(pre: Seq<u8>, r: Seq<u8>, k: int)
    requires
        0 <= k,
    ensures
        spec_spaces(pre + r, pre.len() + k) == pre.len() + spec_spaces(r, k),
    decreases r.len() - k,
{
    let s = pre + r;
    assert(byte_at(s, pre.len() + k + 1) == byte_at(r, k + 1));
    if k >= r.len() {
    } else if is_space(r[k]) {
        shift_spaces(pre, r, k + 1);
    } else if r[k] == 47 && byte_at(r, k + 1) == 47 {
        lemma_line_comment_end(r, k + 2);
        shift_line_comment_end(pre, r, k + 2);
        shift_spaces(pre, r, line_comment_end(r, k + 2));
    } else if r[k] == 47 && byte_at(r, k + 1) == 42 {
        lemma_block_comment_end(r, k + 2);
        shift_block_comment_end(pre, r, k + 2);
        shift_spaces(pre, r, block_comment_end(r, k + 2));
    }
}

proof fn shift_ident_end(pre: Seq<u8>, r: Seq<u8>, k: int)
    requires
        0 <= k,
    ensures
        ident_end(pre + r, pre.len() + k) == pre.len() + ident_end(r, k),
    decreases r.len() - k,
{
    if k < r.len() && crate::scan::is_ident_char(r[k]) {
        shift_ident_end(pre, r, k + 1);
    }
}

proof fn shift_ident(pre: Seq<u8>, r: Seq<u8>, k: int)
    requires
        0 <= k,
    ensures
        spec_ident(pre + r, pre.len() + k) == match spec_ident(r, k) {
            Some((id, e)) => Some((id, pre.len() + e)),
            None => None,
        },
{
    let s = pre + r;
    if 0 <= k < r.len() && crate::scan::is_ident_start(r[k]) {
        shift_ident_end(pre, r, k + 1);
        lemma_ident_end(r, k + 1);
        let e = ident_end(r, k + 1);
        assert(s.subrange(pre.len() + k, pre.len() + e) =~= r.subrange(k, e));
    }
}

proof fn shift_digits_end(pre: Seq<u8>, r: Seq<u8>, k: int)
    requires
        0 <= k,
    ensures
        digits_end(pre + r, pre.len() + k) == pre.len() + digits_end(r, k),
    decreases r.len() - k,
{
    if k < r.len() && crate::scan::is_digit(r[k]) {
        shift_digits_end(pre, r, k + 1);
    }
}

proof fn shift_digits_value(pre: Seq<u8>, r: Seq<u8>, k: int, j: int)
    requires
        0 <= k <= j <= r.len(),
    ensures
        digits_value(pre + r, pre.len() + k, pre.len() + j) == digits_value(r, k, j),
    decreases j - k,
{
    if k < j {
        shift_digits_value(pre, r, k, j - 1);
    }
}

proof fn shift_number(pre: Seq<u8>, r: Seq<u8>, k: int)
    requires
        0 <= k,
    ensures
        spec_number(pre + r, pre.len() + k) == shifted(spec_number(r, k), pre.len() as int),
{
    let s = pre + r;
    shift_digits_end(pre, r, k);
    lemma_digits_end(r, k);
    let e = digits_end(r, k);
    if k <= r.len() {
        shift_digits_value(pre, r, k, e);
    } else {
        assert(e == k);
        assert(digits_end(s, pre.len() + k) == pre.len() + k);
    }
    assert(byte_at(s, pre.len() + e) == byte_at(r, e));
}

proof fn shift_string(pre: Seq<u8>, r: Seq<u8>, k: int)
    requires
        0 <= k,
    ensures
        spec_string(pre + r, pre.len() + k) == shifted(spec_string(r, k), pre.len() as int),
{
    let s = pre + r;
    shift_string_end(pre, r, k + 1);
    lemma_string_end(r, k + 1);
    let e = string_end(r, k + 1);
    if e < r.len() {
        assert(s.subrange(pre.len() + k + 1, pre.len() + e) =~= r.subrange(k + 1, e));
    }
}

proof fn shift_string_end(pre: Seq<u8>, r: Seq<u8>, k: int)
    requires
        0 <= k,
    ensures
        string_end(pre + r, pre.len() + k) == pre.len() + string_end(r, k),
    decreases r.len() - k,
{
    if k < r.len() && r[k] != 34 {
        shift_string_end(pre, r, k + 1);
    }
}

proof fn shift_atom(pre: Seq<u8>, r: Seq<u8>, k: int)
    requires
        0 <= k,
    ensures
        spec_atom(pre + r, pre.len() + k) == shifted(spec_atom(r, k), pre.len() as int),
        ends_after(spec_atom(r, k), k),
{
    let s = pre + r;
    shift_ident(pre, r, k);
    lemma_atom(r, k);
    assert(byte_at(s, pre.len() + k) == byte_at(r, k));
    if spec_ident(r, k) is None {
        if crate::scan::is_digit(byte_at(r, k)) {
            shift_number(pre, r, k);
        } else if byte_at(r, k) == 34 {
            shift_string(pre, r, k);
        }
    }
}

proof fn shift_op_at(pre: Seq<u8>, r: Seq<u8>, k: int)
    requires
        0 <= k,
    ensures
        op_at(pre + r, pre.len() + k) == op_at(r, k),
{
    let s = pre + r;
    assert(byte_at(s, pre.len() + k) == byte_at(r, k));
    assert(byte_at(s, pre.len() + k + 1) == byte_at(r, k + 1));
}

proof fn shift_items(pre: Seq<u8>, r: Seq<u8>, k: int, close: u8, err: ScanError, acc: Seq<SExpr>)
    requires
        0 <= k,
    ensures
        spec_items(pre + r, pre.len() + k, close, err, acc) == shifted(
            spec_items(r, k, close, err, acc),
            pre.len() as int,
        ),
        ends_after(spec_items(r, k, close, err, acc), k),
    decreases r.len() - k, 6nat,
{
    let s = pre + r;
    let d = pre.len() as int;
    shift_spaces(pre, r, k);
    lemma_spaces(r, k);
    let q = spec_spaces(r, k);
    assert(byte_at(s, d + q) == byte_at(r, q));
    if byte_at(r, q) != close {
        shift_expr(pre, r, q);
        match spec_expr(r, q) {
            Err(_) => {},
            Ok((e, t)) => {
                if !(e is Empty || !(q < t <= r.len())) {
                    shift_spaces(pre, r, t);
                    lemma_spaces(r, t);
                    let u = spec_spaces(r, t);
                    assert(byte_at(s, d + u) == byte_at(r, u));
                    if byte_at(r, u) == 44 {
                        shift_items(pre, r, u + 1, close, err, acc.push(e));
                    }
                }
            },
        }
    }
}

pub proof fn shift_expr(pre: Seq<u8>, r: Seq<u8>, k: int)
    requires
        0 <= k,
    ensures
        spec_expr(pre + r, pre.len() + k) == shifted(spec_expr(r, k), pre.len() as int),
        ends_after(spec_expr(r, k), k),
    decreases r.len() - k, 5nat,
{
    shift_spaces(pre, r, k);
    lemma_spaces(r, k);
    shift_binary(pre, r, spec_spaces(r, k), 0);
}

proof fn shift_binary(pre: Seq<u8>, r: Seq<u8>, k: int, min: nat)
    requires
        0 <= k,
    ensures
        spec_binary(pre + r, pre.len() + k, min) == shifted(spec_binary(r, k, min), pre.len() as int),
        ends_after(spec_binary(r, k, min), k),
    decreases r.len() - k, 4nat,
{
    shift_unary(pre, r, k);
    match spec_unary(r, k) {
        Err(_) => {},
        Ok((l, p1)) => {
            if !(l is Empty || !(k < p1 <= r.len())) {
                shift_climb(pre, r, l, p1, min);
            }
        },
    }
}

proof fn shift_climb(pre: Seq<u8>, r: Seq<u8>, l: SExpr, k: int, min: nat)
    requires
        0 <= k,
    ensures
        spec_climb(pre + r, l, pre.len() + k, min) == shifted(spec_climb(r, l, k, min), pre.len() as int),
        ends_after(spec_climb(r, l, k, min), k),
    decreases r.len() - k, 4nat,
{
    let d = pre.len() as int;
    shift_spaces(pre, r, k);
    lemma_spaces(r, k);
    let q = spec_spaces(r, k);
    shift_op_at(pre, r, q);
    match op_at(r, q) {
        None => {},
        Some((op, n)) => {
            if prec(op) >= min {
                lemma_op_at(r, q);
                lemma_spaces(r, q + n);
                shift_spaces(pre, r, q + n);
                let q2 = spec_spaces(r, q + n);
                shift_binary(pre, r, q2, rhs_min(op));
                match spec_binary(r, q2, rhs_min(op)) {
                    Err(_) => {},
                    Ok((x, p2)) => {
                        if !(x is Empty || !(q < p2 <= r.len())) {
                            shift_climb(pre, r, SExpr::Binary(Box::new(l), op, Box::new(x)), p2, min);
                        }
                    },
                }
            }
        },
    }
}

proof fn shift_unary(pre: Seq<u8>, r: Seq<u8>, k: int)
    requires
        0 <= k,
    ensures
        spec_unary(pre + r, pre.len() + k) == shifted(spec_unary(r, k), pre.len() as int),
        ends_after(spec_unary(r, k), k),
    decreases r.len() - k, 3nat,
{
    let s = pre + r;
    let b = byte_at(r, k);
    assert(byte_at(s, pre.len() + k) == b);
    if b == 45 || b == 33 {
        shift_unary(pre, r, k + 1);
    } else {
        shift_primary(pre, r, k);
        match spec_primary(r, k) {
            Err(_) => {},
            Ok((x, q)) => {
                if !(x is Empty || !(k < q <= r.len())) {
                    shift_postfix(pre, r, x, q);
                }
            },
        }
    }
}

proof fn shift_primary(pre: Seq<u8>, r: Seq<u8>, k: int)
    requires
        0 <= k,
    ensures
        spec_primary(pre + r, pre.len() + k) == shifted(spec_primary(r, k), pre.len() as int),
        ends_after(spec_primary(r, k), k),
    decreases r.len() - k, 2nat,
{
    let s = pre + r;
    let d = pre.len() as int;
    let b = byte_at(r, k);
    assert(byte_at(s, d + k) == b);
    if b == 40 {
        shift_expr(pre, r, k + 1);
        match spec_expr(r, k + 1) {
            Err(_) => {},
            Ok((x, q)) => {
                shift_spaces(pre, r, q);
                lemma_spaces(r, q);
                let t = spec_spaces(r, q);
                assert(byte_at(s, d + t) == byte_at(r, t));
            },
        }
    } else if b == 91 {
        shift_items(pre, r, k + 1, 93, ScanError::UnclosedBracket, Seq::empty());
    } else {
        shift_atom(pre, r, k);
    }
}

proof fn shift_postfix(pre: Seq<u8>, r: Seq<u8>, l: SExpr, k: int)
    requires
        0 <= k,
    ensures
        spec_postfix(pre + r, l, pre.len() + k) == shifted(spec_postfix(r, l, k), pre.len() as int),
        ends_after(spec_postfix(r, l, k), k),
    decreases r.len() - k, 1nat,
{
    let s = pre + r;
    let d = pre.len() as int;
    let b = byte_at(r, k);
    assert(byte_at(s, d + k) == b);
    if b == 40 {
        shift_items(pre, r, k + 1, 41, ScanError::UnclosedCall, Seq::empty());
        match spec_items(r, k + 1, 41, ScanError::UnclosedCall, Seq::empty()) {
            Err(_) => {},
            Ok((args, q)) => {
                if k < q <= r.len() {
                    shift_postfix(pre, r, SExpr::Call(Box::new(l), args), q);
                }
            },
        }
    } else if b == 46 {
        lemma_ident(r, k + 1);
        shift_ident(pre, r, k + 1);
        match spec_ident(r, k + 1) {
            None => {},
            Some((n, e)) => {
                shift_postfix(pre, r, SExpr::Property(Box::new(l), n), e);
            },
        }
    } else if b == 91 {
        shift_expr(pre, r, k + 1);
        match spec_expr(r, k + 1) {
            Err(_) => {},
            Ok((x, q)) => {
                shift_spaces(pre, r, q);
                lemma_spaces(r, q);
                let t = spec_spaces(r, q);
                assert(byte_at(s, d + t) == byte_at(r, t));
                if !(x is Empty || !(k < q <= r.len()) || byte_at(r, t) != 93) {
                    shift_postfix(pre, r, SExpr::Index(Box::new(l), Box::new(x)), t + 1);
                }
            },
        }
    }
}

} // verus!
