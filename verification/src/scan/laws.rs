//! What the statement scanner builds, stated over all sources: blocks keep
//! their statements in source order, `match` conditions keep the comparison
//! written before them, class members are public exactly when marked with `>`,
//! a function declared with a single statement keeps that statement, and an
//! `if` keeps its branches where they were written.
use vstd::prelude::*;
use crate::scan::{
    ScanError, byte_at, spec_spaces, spec_ident, lemma_spaces, lemma_ident, line_at,
};
use crate::scan::expr::{SExpr, SLocalFunc, SArgDecl, spec_expr, spec_items, spec_atom, spec_primary};
use crate::primitive::litr::SLitr;
use crate::scan::stmt::{
    SStmt, SStatements, SArm, SAssignTo, SClassProp, SClassFunc, MatchOrd, spec_stmt, spec_block,
    spec_arms, spec_members, spec_letting, spec_ifing, spec_type, lemma_type, spec_params,
    lemma_params, kw_else, spec_scan_from, spec_names, spec_foring, spec_for_iter, spec_catching,
    default_err_name,
};

verus! {

/// Whether `pre` is the beginning of `xs`.
pub open spec fn starts_with<T>(xs: Seq<T>, pre: Seq<T>) -> bool {
    pre.len() <= xs.len() && xs.subrange(0, pre.len() as int) == pre
}

proof fn lemma_starts_with_push<T>(xs: Seq<T>, pre: Seq<T>, x: T)
    requires
        starts_with(xs, pre.push(x)),
    ensures
        starts_with(xs, pre),
        xs[pre.len() as int] == x,
{
    assert(xs.subrange(0, pre.len() as int) =~= pre.push(x).subrange(0, pre.len() as int));
    assert(pre.push(x).subrange(0, pre.len() as int) =~= pre);
    assert(xs[pre.len() as int] == xs.subrange(0, (pre.len() + 1) as int)[pre.len() as int]);
}

proof fn lemma_starts_with_self<T>(xs: Seq<T>)
    ensures
        starts_with(xs, xs),
{
    assert(xs.subrange(0, xs.len() as int) =~= xs);
}

/// A block's statements begin with those already scanned: scanning goes on by
/// adding statements after them, never before.
pub proof fn lemma_block_keeps_earlier(s: Seq<u8>, p: int, acc: SStatements)
    ensures
        spec_block(s, p, acc) matches Ok((ss, _)) ==> starts_with(ss, acc),
    decreases s.len() - p,
{
    if !(p < 0 || p >= s.len()) {
        lemma_spaces(s, p);
        let q = spec_spaces(s, p);
        if byte_at(s, q) == 125 {
            lemma_starts_with_self(acc);
        } else {
            match spec_stmt(s, q) {
                Err(_) => {},
                Ok((st, r)) => {
                    if q < r && r <= s.len() {
                        if st is Empty {
                            lemma_block_keeps_earlier(s, r, acc);
                        } else {
                            let x = (line_at(s, r), st);
                            lemma_block_keeps_earlier(s, r, acc.push(x));
                            if spec_block(s, r, acc.push(x)) is Ok {
                                let ss = spec_block(s, r, acc.push(x))->Ok_0.0;
                                lemma_starts_with_push(ss, acc, x);
                            }
                        }
                    }
                },
            }
        }
    }
}

/// Blocks keep source order: the next statement of a block (the one that starts
/// after the blanks at `p`, when it is not empty) comes right after the
/// statements already scanned, paired with the line on which it ends.
pub proof fn lemma_block_next_in_order(s: Seq<u8>, p: int, acc: SStatements)
    ensures
        ({
            let q = spec_spaces(s, p);
            0 <= p < s.len() && byte_at(s, q) != 125 ==> match spec_stmt(s, q) {
                Ok((st, r)) => q < r <= s.len() && !(st is Empty) ==> match spec_block(s, p, acc) {
                    Ok((ss, _)) => acc.len() < ss.len() && ss[acc.len() as int] == (line_at(s, r), st),
                    Err(_) => true,
                },
                Err(_) => true,
            }
        }),
{
    let q = spec_spaces(s, p);
    lemma_spaces(s, p);
    if 0 <= p < s.len() && byte_at(s, q) != 125 {
        if let Ok((st, r)) = spec_stmt(s, q) {
            if q < r && r <= s.len() && !(st is Empty) {
                let x = (line_at(s, r), st);
                lemma_block_keeps_earlier(s, r, acc.push(x));
                if let Ok((ss, _)) = spec_block(s, p, acc) {
                    lemma_starts_with_push(ss, acc, x);
                }
            }
        }
    }
}

/// The arms of a `match` begin with those already scanned.
pub proof fn lemma_arms_keep_earlier(
    s: Seq<u8>,
    p: int,
    arms: Seq<SArm>,
    conds: Seq<(SExpr, MatchOrd)>,
    def: Option<SStatements>,
)
    ensures
        spec_arms(s, p, arms, conds, def) matches Ok(((res, _), _)) ==> starts_with(res, arms),
    decreases s.len() - p,
{
    let q = spec_spaces(s, p);
    let b = byte_at(s, q);
    lemma_spaces(s, p);
    if b == 125 {
        lemma_starts_with_self(arms);
    } else if b == 45 {
        let q1 = spec_spaces(s, q + 1);
        lemma_spaces(s, q + 1);
        if byte_at(s, q1) == 123 {
            if let Ok((d, r)) = spec_block(s, q1 + 1, Seq::empty()) {
                if p < r <= s.len() {
                    lemma_arms_keep_earlier(s, r, arms, Seq::empty(), Some(d));
                }
            }
        }
    } else {
        let (ord, q2) = if b == 62 {
            if byte_at(s, q + 1) == 61 {
                (MatchOrd::GreaterEq, q + 2)
            } else {
                (MatchOrd::Greater, q + 1)
            }
        } else if b == 60 {
            if byte_at(s, q + 1) == 61 {
                (MatchOrd::LessEq, q + 2)
            } else {
                (MatchOrd::Less, q + 1)
            }
        } else if b == 61 {
            (MatchOrd::Eq, q + 1)
        } else {
            (MatchOrd::Eq, q)
        };
        if let Ok((e, r)) = spec_expr(s, q2) {
            if !(e is Empty || !(q2 < r <= s.len())) {
                let conds2 = conds.push((e, ord));
                let t = spec_spaces(s, r);
                lemma_spaces(s, r);
                if byte_at(s, t) == 44 {
                    lemma_arms_keep_earlier(s, t + 1, arms, conds2, def);
                } else if byte_at(s, t) == 123 {
                    if let Ok((run, u)) = spec_block(s, t + 1, Seq::empty()) {
                        if p < u <= s.len() {
                            let a = (conds2, run);
                            lemma_arms_keep_earlier(s, u, arms.push(a), Seq::empty(), def);
                            if let Ok(((res, _), _)) = spec_arms(s, u, arms.push(a), Seq::empty(), def) {
                                lemma_starts_with_push(res, arms, a);
                            }
                        }
                    }
                }
            }
        }
    }
}

/// The comparison of a `match` condition is the one written before it: `>=`
/// gives `GreaterEq`, `>` alone `Greater`, `<=` `LessEq`, `<` alone `Less`,
/// and `=` or nothing `Eq`. Stated for an arm with one condition and its block:
/// that arm comes right after the arms already scanned, with the condition last.
pub proof fn lemma_match_condition_order(
    s: Seq<u8>,
    p: int,
    arms: Seq<SArm>,
    conds: Seq<(SExpr, MatchOrd)>,
    def: Option<SStatements>,
)
    ensures
        ({
            let q = spec_spaces(s, p);
            let b0 = byte_at(s, q);
            let b1 = byte_at(s, q + 1);
            let ord = if b0 == 62 && b1 == 61 {
                MatchOrd::GreaterEq
            } else if b0 == 62 {
                MatchOrd::Greater
            } else if b0 == 60 && b1 == 61 {
                MatchOrd::LessEq
            } else if b0 == 60 {
                MatchOrd::Less
            } else {
                MatchOrd::Eq
            };
            let k = if (b0 == 62 || b0 == 60) && b1 == 61 {
                q + 2
            } else if b0 == 62 || b0 == 60 || b0 == 61 {
                q + 1
            } else {
                q
            };
            b0 != 125 && b0 != 45 ==> match spec_expr(s, k) {
                Ok((e, r)) => !(e is Empty) && k < r <= s.len() && byte_at(s, spec_spaces(s, r)) == 123
                    ==> match spec_block(s, spec_spaces(s, r) + 1, Seq::empty()) {
                    Ok((run, u)) => p < u <= s.len() ==> match spec_arms(s, p, arms, conds, def) {
                        Ok(((res, _), _)) => arms.len() < res.len() && res[arms.len() as int] == (
                            conds.push((e, ord)),
                            run,
                        ),
                        Err(_) => true,
                    },
                    Err(_) => true,
                },
                Err(_) => true,
            }
        }),
{
    let q = spec_spaces(s, p);
    lemma_spaces(s, p);
    let b0 = byte_at(s, q);
    let b1 = byte_at(s, q + 1);
    let ord = if b0 == 62 && b1 == 61 {
        MatchOrd::GreaterEq
    } else if b0 == 62 {
        MatchOrd::Greater
    } else if b0 == 60 && b1 == 61 {
        MatchOrd::LessEq
    } else if b0 == 60 {
        MatchOrd::Less
    } else {
        MatchOrd::Eq
    };
    let k = if (b0 == 62 || b0 == 60) && b1 == 61 {
        q + 2
    } else if b0 == 62 || b0 == 60 || b0 == 61 {
        q + 1
    } else {
        q
    };
    if b0 != 125 && b0 != 45 {
        if let Ok((e, r)) = spec_expr(s, k) {
            if !(e is Empty) && k < r <= s.len() {
                let t = spec_spaces(s, r);
                lemma_spaces(s, r);
                if byte_at(s, t) == 123 {
                    if let Ok((run, u)) = spec_block(s, t + 1, Seq::empty()) {
                        if p < u <= s.len() {
                            let a = (conds.push((e, ord)), run);
                            lemma_arms_keep_earlier(s, u, arms.push(a), Seq::empty(), def);
                            if let Ok(((res, _), _)) = spec_arms(s, p, arms, conds, def) {
                                lemma_starts_with_push(res, arms, a);
                            }
                        }
                    }
                }
            }
        }
    }
}

/// The members of a class body begin with those already scanned, in each of
/// the three lists.
pub proof fn lemma_members_keep_earlier(
    s: Seq<u8>,
    p: int,
    props: Seq<SClassProp>,
    methods: Seq<SClassFunc>,
    statics: Seq<SClassFunc>,
)
    ensures
        spec_members(s, p, props, methods, statics) matches Ok(((ps, ms, ss), _)) ==> starts_with(
            ps,
            props,
        ) && starts_with(ms, methods) && starts_with(ss, statics),
    decreases s.len() - p,
{
    let q = spec_spaces(s, p);
    let public = byte_at(s, q) == 62;
    let q1 = if public { spec_spaces(s, q + 1) } else { q };
    let is_method = byte_at(s, q1) == 46;
    let q2 = if is_method { q1 + 1 } else { q1 };
    lemma_spaces(s, p);
    lemma_spaces(s, q + 1);
    lemma_ident(s, q2);
    match spec_ident(s, q2) {
        None => {
            lemma_starts_with_self(props);
            lemma_starts_with_self(methods);
            lemma_starts_with_self(statics);
        },
        Some((id, e)) => {
            if byte_at(s, e) == 40 {
                lemma_params(s, e + 1, Seq::empty());
                if let Ok((args, w)) = spec_params(s, e + 1, Seq::empty()) {
                    if byte_at(s, w) == 41 {
                        if let Ok((st, x)) = spec_stmt(s, w + 1) {
                            if p < x <= s.len() {
                                let f = SClassFunc {
                                    name: id,
                                    f: SLocalFunc {
                                        args,
                                        stmts: crate::scan::stmt::body_of(st, line_at(s, x)),
                                    },
                                    public,
                                };
                                lemma_spaces(s, x);
                                let y = spec_spaces(s, x);
                                let z = if byte_at(s, y) == 44 { y + 1 } else { y };
                                if is_method {
                                    lemma_members_keep_earlier(s, z, props, methods.push(f), statics);
                                    if let Ok(((ps, ms, ss), _)) = spec_members(
                                        s,
                                        z,
                                        props,
                                        methods.push(f),
                                        statics,
                                    ) {
                                        lemma_starts_with_push(ms, methods, f);
                                    }
                                } else {
                                    lemma_members_keep_earlier(s, z, props, methods, statics.push(f));
                                    if let Ok(((ps, ms, ss), _)) = spec_members(
                                        s,
                                        z,
                                        props,
                                        methods,
                                        statics.push(f),
                                    ) {
                                        lemma_starts_with_push(ss, statics, f);
                                    }
                                }
                            }
                        }
                    }
                }
            } else {
                lemma_type(s, e);
                if let Ok((t, x)) = spec_type(s, e) {
                    lemma_spaces(s, x);
                    let y = spec_spaces(s, x);
                    let z = if byte_at(s, y) == 44 { y + 1 } else { y };
                    let pr = SClassProp { name: id, typ: t, public };
                    lemma_members_keep_earlier(s, z, props.push(pr), methods, statics);
                    if let Ok(((ps, ms, ss), _)) = spec_members(s, z, props.push(pr), methods, statics) {
                        lemma_starts_with_push(ps, props, pr);
                    }
                }
            }
        },
    }
}

/// A class member is public exactly when `>` is written before it. The member
/// that starts at `p` (a method when its name follows `.`, a static function
/// when its name is followed by `(`, a property otherwise) comes right after the
/// members of its kind already scanned, under its name, public exactly when
/// marked.
pub proof fn lemma_member_public_when_marked(
    s: Seq<u8>,
    p: int,
    props: Seq<SClassProp>,
    methods: Seq<SClassFunc>,
    statics: Seq<SClassFunc>,
)
    ensures
        ({
            let q = spec_spaces(s, p);
            let marked = byte_at(s, q) == 62;
            let q1 = if marked { spec_spaces(s, q + 1) } else { q };
            let is_method = byte_at(s, q1) == 46;
            let q2 = if is_method { q1 + 1 } else { q1 };
            spec_ident(s, q2) matches Some((id, e)) ==> match spec_members(s, p, props, methods, statics) {
                Ok(((ps, ms, ss), _)) => if byte_at(s, e) != 40 {
                props.len() < ps.len() && ps[props.len() as int].name == id
                    && ps[props.len() as int].public == marked
            } else if is_method {
                methods.len() < ms.len() && ms[methods.len() as int].name == id
                    && ms[methods.len() as int].public == marked
            } else {
                statics.len() < ss.len() && ss[statics.len() as int].name == id
                    && ss[statics.len() as int].public == marked
            },
                Err(_) => true,
            }
        }),
{
    let q = spec_spaces(s, p);
    let public = byte_at(s, q) == 62;
    let q1 = if public { spec_spaces(s, q + 1) } else { q };
    let is_method = byte_at(s, q1) == 46;
    let q2 = if is_method { q1 + 1 } else { q1 };
    lemma_spaces(s, p);
    lemma_spaces(s, q + 1);
    lemma_ident(s, q2);
    if let Some((id, e)) = spec_ident(s, q2) {
        if byte_at(s, e) == 40 {
            lemma_params(s, e + 1, Seq::empty());
            if let Ok((args, w)) = spec_params(s, e + 1, Seq::empty()) {
                if byte_at(s, w) == 41 {
                    if let Ok((st, x)) = spec_stmt(s, w + 1) {
                        if p < x <= s.len() {
                            let f = SClassFunc {
                                name: id,
                                f: SLocalFunc {
                                    args,
                                    stmts: crate::scan::stmt::body_of(st, line_at(s, x)),
                                },
                                public,
                            };
                            lemma_spaces(s, x);
                            let y = spec_spaces(s, x);
                            let z = if byte_at(s, y) == 44 { y + 1 } else { y };
                            if is_method {
                                lemma_members_keep_earlier(s, z, props, methods.push(f), statics);
                                assert(spec_members(s, p, props, methods, statics) == spec_members(
                                    s,
                                    z,
                                    props,
                                    methods.push(f),
                                    statics,
                                ));
                                if let Ok(((ps, ms, ss), _)) = spec_members(s, p, props, methods, statics) {
                                    lemma_starts_with_push(ms, methods, f);
                                }
                            } else {
                                lemma_members_keep_earlier(s, z, props, methods, statics.push(f));
                                assert(spec_members(s, p, props, methods, statics) == spec_members(
                                    s,
                                    z,
                                    props,
                                    methods,
                                    statics.push(f),
                                ));
                                if let Ok(((ps, ms, ss), _)) = spec_members(s, p, props, methods, statics) {
                                    lemma_starts_with_push(ss, statics, f);
                                }
                            }
                        }
                    }
                }
            }
        } else {
            lemma_type(s, e);
            if let Ok((t, x)) = spec_type(s, e) {
                lemma_spaces(s, x);
                let y = spec_spaces(s, x);
                let z = if byte_at(s, y) == 44 { y + 1 } else { y };
                let pr = SClassProp { name: id, typ: t, public };
                lemma_members_keep_earlier(s, z, props.push(pr), methods, statics);
                assert(spec_members(s, p, props, methods, statics) == spec_members(
                    s,
                    z,
                    props.push(pr),
                    methods,
                    statics,
                ));
                if let Ok(((ps, ms, ss), _)) = spec_members(s, p, props, methods, statics) {
                    lemma_starts_with_push(ps, props, pr);
                }
            }
        }
    }
}

/// The statements of a function declared with `let name(...)`: those of its
/// body when the body is a block, and otherwise the one body statement, paired
/// with the line on which it ends. The body is the statement scanned right after
/// the `)` of the parameters, and the declaration ends where the body ends.
pub proof fn lemma_function_body(s: Seq<u8>, p: int)
    ensures
        ({
            let q = spec_spaces(s, p);
            match spec_ident(s, q) {
                Some((id, t)) => byte_at(s, spec_spaces(s, t)) == 40 ==> match spec_letting(s, p) {
                    Ok((a, x)) => a.id == SAssignTo::One(id) && match a.val {
                        SExpr::LocalDecl(f) => exists|w: int|
                            #![trigger spec_stmt(s, w)]
                            0 < w <= s.len() && s[w - 1] == 41 && match spec_stmt(s, w) {
                                Ok((st, y)) => y == x && f.stmts == match st {
                                    SStmt::Block(b) => b,
                                    _ => seq![(line_at(s, x), st)],
                                },
                                Err(_) => false,
                            },
                        _ => false,
                    },
                    Err(_) => true,
                },
                None => true,
            }
        }),
{
    let q = spec_spaces(s, p);
    lemma_spaces(s, p);
    lemma_ident(s, q);
    if let Some((id, t)) = spec_ident(s, q) {
        let u = spec_spaces(s, t);
        lemma_spaces(s, t);
        if byte_at(s, u) == 40 {
            if let Ok((a, x)) = spec_letting(s, p) {
                lemma_params(s, u + 1, Seq::empty());
                let w = spec_params(s, u + 1, Seq::empty())->Ok_0.1;
                assert(byte_at(s, w) == 41);
                assert(spec_stmt(s, w + 1) is Ok);
            }
        }
    }
}

/// An `if` keeps its branches where they were written: its condition is the
/// expression after `if`, its body the statement right after the condition, and
/// its `else` branch, when there is one, the statement right after the word
/// `else` that follows the body.
pub proof fn lemma_if_branches(s: Seq<u8>, p: int)
    ensures
        spec_ifing(s, p) matches Ok((SStmt::If { condition, body, els }, u)) ==> match spec_expr(s, p) {
            Ok((c, q)) => condition == c && match spec_stmt(s, q) {
                Ok((x, r)) => *body == x && match els {
                    Some(el) => {
                        let t = spec_spaces(s, r);
                        t + 4 <= s.len() && s.subrange(t, t + 4) == kw_else() && spec_stmt(s, t + 4)
                            == Ok::<(SStmt, int), ScanError>((*el, u))
                    },
                    None => u == spec_spaces(s, r),
                },
                Err(_) => false,
            },
            Err(_) => false,
        },
{
}

} // verus!

verus! {

/// The statements of a whole source begin with those already scanned, and the
/// next non-empty statement comes right after them: a source keeps its
/// statements in source order.
pub proof fn lemma_scan_keeps_order(s: Seq<u8>, p: int, acc: SStatements)
    ensures
        spec_scan_from(s, p, acc) matches Ok(ss) ==> starts_with(ss, acc),
        0 <= p < s.len() ==> match spec_stmt(s, p) {
            Ok((st, r)) => p < r && !(st is Empty) ==> match spec_scan_from(s, p, acc) {
                Ok(ss) => acc.len() < ss.len() && ss[acc.len() as int] == (line_at(s, r), st),
                Err(_) => true,
            },
            Err(_) => true,
        },
    decreases s.len() - p,
{
    if p < 0 || p >= s.len() {
        lemma_starts_with_self(acc);
    } else {
        match spec_stmt(s, p) {
            Err(_) => {},
            Ok((st, r)) => {
                if p < r {
                    let acc2 = if st is Empty { acc } else { acc.push((line_at(s, r), st)) };
                    if r >= s.len() {
                        lemma_starts_with_self(acc2);
                    } else {
                        lemma_scan_keeps_order(s, r, acc2);
                    }
                    if !(st is Empty) {
                        if let Ok(ss) = spec_scan_from(s, p, acc) {
                            lemma_starts_with_push(ss, acc, (line_at(s, r), st));
                        }
                    }
                }
            },
        }
    }
}

/// The names of a destructuring `let` come in the order written: those already
/// scanned first, then the name at `p`.
pub proof fn lemma_names_in_order(s: Seq<u8>, p: int, acc: Seq<Seq<u8>>)
    ensures
        starts_with(spec_names(s, p, acc).0, acc),
        spec_ident(s, p) matches Some((id, e)) ==> acc.len() < spec_names(s, p, acc).0.len()
            && spec_names(s, p, acc).0[acc.len() as int] == id,
    decreases s.len() - p,
{
    match spec_ident(s, p) {
        None => lemma_starts_with_self(acc),
        Some((id, e)) => {
            lemma_ident(s, p);
            lemma_spaces(s, e);
            let e1 = spec_spaces(s, e);
            lemma_spaces(s, e1 + 1);
            let e2 = if byte_at(s, e1) == 44 { spec_spaces(s, e1 + 1) } else { e1 };
            lemma_names_in_order(s, e2, acc.push(id));
            lemma_starts_with_push(spec_names(s, e2, acc.push(id)).0, acc, id);
        },
    }
}

/// The parameters of a function declaration come in the order written: those
/// already scanned first, then the one named at the blanks after `p`.
pub proof fn lemma_params_in_order(s: Seq<u8>, p: int, acc: Seq<SArgDecl>)
    ensures
        spec_params(s, p, acc) matches Ok((args, _)) ==> starts_with(args, acc),
        spec_ident(s, spec_spaces(s, p)) matches Some((n, e)) ==> match spec_params(s, p, acc) {
            Ok((args, _)) => acc.len() < args.len() && args[acc.len() as int].name == n,
            Err(_) => true,
        },
    decreases s.len() - p,
{
    let q = spec_spaces(s, p);
    match spec_ident(s, q) {
        None => lemma_starts_with_self(acc),
        Some((n, e)) => {
            lemma_spaces(s, p);
            lemma_ident(s, q);
            lemma_type(s, e);
            if let Ok((t, f)) = spec_type(s, e) {
                lemma_spaces(s, f);
                let g = spec_spaces(s, f);
                let h = if byte_at(s, g) == 44 { g + 1 } else { g };
                let a = SArgDecl { name: n, t };
                lemma_params_in_order(s, h, acc.push(a));
                if let Ok((args, _)) = spec_params(s, h, acc.push(a)) {
                    lemma_starts_with_push(args, acc, a);
                }
            }
        },
    }
}

/// The items of a list, or the arguments of a call, come in the order written:
/// those already scanned first, then the expression at the blanks after `p`.
pub proof fn lemma_items_in_order(s: Seq<u8>, p: int, close: u8, err: ScanError, acc: Seq<SExpr>)
    ensures
        spec_items(s, p, close, err, acc) matches Ok((xs, _)) ==> starts_with(xs, acc),
        byte_at(s, spec_spaces(s, p)) != close ==> match spec_expr(s, spec_spaces(s, p)) {
            Ok((e, _)) => match spec_items(s, p, close, err, acc) {
                Ok((xs, _)) => acc.len() < xs.len() && xs[acc.len() as int] == e,
                Err(_) => true,
            },
            Err(_) => true,
        },
    decreases s.len() - p,
{
    let q = spec_spaces(s, p);
    lemma_spaces(s, p);
    if byte_at(s, q) == close {
        lemma_starts_with_self(acc);
    } else {
        if let Ok((e, r)) = spec_expr(s, q) {
            if !(e is Empty || !(q < r <= s.len())) {
                let t = spec_spaces(s, r);
                lemma_spaces(s, r);
                if byte_at(s, t) == 44 {
                    lemma_items_in_order(s, t + 1, close, err, acc.push(e));
                    if let Ok((xs, _)) = spec_items(s, t + 1, close, err, acc.push(e)) {
                        lemma_starts_with_push(xs, acc, e);
                    }
                } else if byte_at(s, t) == close {
                    lemma_starts_with_self(acc.push(e));
                    lemma_starts_with_push(acc.push(e), acc, e);
                }
            }
        }
    }
}

/// `let name = value` binds the value; `let name < value` binds it too and
/// marks it as taken; `let name` alone binds `uninit`.
pub proof fn lemma_let_value(s: Seq<u8>, p: int)
    ensures
        ({
            let q = spec_spaces(s, p);
            match spec_ident(s, q) {
                Some((id, t)) => {
                    let u = spec_spaces(s, t);
                    let c = byte_at(s, u);
                    match spec_letting(s, p) {
                        Ok((a, x)) => a.id == SAssignTo::One(id) && if c == 61 || c == 60 {
                            a.take == (c == 60) && spec_expr(s, u + 1) == Ok::<(SExpr, int), ScanError>(
                                (a.val, x),
                            ) && !(a.val is Empty)
                        } else if c == 40 {
                            !a.take
                        } else {
                            !a.take && a.val == SExpr::Literal(SLitr::Uninit) && x == u
                        },
                        Err(_) => true,
                    }
                },
                None => true,
            }
        }),
{
}

/// `- { ... }` in a `match` is its default arm: when the default arm is the last
/// thing before the closing `}`, the statement's default is that block.
pub proof fn lemma_match_default(
    s: Seq<u8>,
    p: int,
    arms: Seq<SArm>,
    def: Option<SStatements>,
)
    ensures
        ({
            let q = spec_spaces(s, p);
            let q1 = spec_spaces(s, q + 1);
            byte_at(s, q) == 45 && byte_at(s, q1) == 123 ==> match spec_block(s, q1 + 1, Seq::empty()) {
                Ok((d, r)) => p < r <= s.len() && byte_at(s, spec_spaces(s, r)) == 125 ==> spec_arms(
                    s,
                    p,
                    arms,
                    Seq::empty(),
                    def,
                ) == Ok::<((Seq<SArm>, Option<SStatements>), int), ScanError>(
                    ((arms, Some(d)), spec_spaces(s, r) + 1),
                ),
                Err(_) => true,
            }
        }),
{
    let q = spec_spaces(s, p);
    lemma_spaces(s, p);
    let q1 = spec_spaces(s, q + 1);
    if byte_at(s, q) == 45 && byte_at(s, q1) == 123 {
        if let Ok((d, r)) = spec_block(s, q1 + 1, Seq::empty()) {
            if p < r <= s.len() && byte_at(s, spec_spaces(s, r)) == 125 {
                let v = spec_arms(s, r, arms, Seq::empty(), Some(d));
                assert(v == Ok::<((Seq<SArm>, Option<SStatements>), int), ScanError>(
                    ((arms, Some(d)), spec_spaces(s, r) + 1),
                ));
            }
        }
    }
}

} // verus!

verus! {

/// The three forms of `for`: `for! body` loops forever over the statement after
/// the `!`; `for (condition) body` loops while the parenthesized condition holds;
/// any other head iterates, binding each item to a name exactly when the head
/// starts with a name followed by `:`.
pub proof fn lemma_for_forms(s: Seq<u8>, p: int)
    ensures
        ({
            let q = spec_spaces(s, p);
            match spec_foring(s, p) {
                Ok((SStmt::ForLoop(b), u)) => byte_at(s, q) == 33 && spec_stmt(s, q + 1) == Ok::<
                    (SStmt, int),
                    ScanError,
                >((*b, u)),
                Ok((SStmt::ForWhile { condition, body }, u)) => byte_at(s, q) == 40 && match spec_primary(
                    s,
                    q,
                ) {
                    Ok((c, r)) => c == condition && spec_stmt(s, r) == Ok::<(SStmt, int), ScanError>(
                        (*body, u),
                    ),
                    Err(_) => false,
                },
                Ok((SStmt::ForIter { iterator, id, body }, u)) => byte_at(s, q) != 33 && byte_at(s, q)
                    != 40 && id == match spec_atom(s, q) {
                    Ok((SExpr::Variant(n), r)) => if byte_at(s, spec_spaces(s, r)) == 58 {
                        Some(n)
                    } else {
                        None
                    },
                    _ => None,
                },
                Ok(_) => false,
                Err(_) => true,
            }
        }),
{
    let q = spec_spaces(s, p);
    lemma_spaces(s, p);
    if byte_at(s, q) != 40 && byte_at(s, q) != 33 {
        assert(spec_foring(s, p) == spec_for_iter(s, q));
    }
}

/// A `catch` names the caught error with the name written after it, or `.err`
/// when no name is written, and handles it with the block that follows.
pub proof fn lemma_catch_name(s: Seq<u8>, p: int)
    ensures
        ({
            let u = spec_spaces(s, p);
            match spec_catching(s, p) {
                Ok(((n, b), w)) => match spec_ident(s, u) {
                    Some((id, e)) => n == id && spec_stmt(s, e) == Ok::<(SStmt, int), ScanError>(
                        (SStmt::Block(b), w),
                    ),
                    None => n == default_err_name() && spec_stmt(s, u) == Ok::<(SStmt, int), ScanError>(
                        (SStmt::Block(b), w),
                    ),
                },
                Err(_) => true,
            }
        }),
{
}

} // verus!
