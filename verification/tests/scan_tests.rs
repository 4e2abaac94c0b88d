use lib::primitive::litr::{KsType, Litr};
use lib::scan::expr::{BinOp, Expr, UnaryOp};
use lib::scan::stmt::{scan, AssignTo, MatchOrd, Statements, Stmt};
use lib::scan::{ScanError, Scanner};

fn ok(src: &str) -> Statements {
    match scan(src.as_bytes()) {
        Ok(ss) => ss,
        Err(e) => panic!("{:?} on {:?}", e, src),
    }
}

fn one(src: &str) -> Stmt {
    let mut ss = ok(src);
    assert_eq!(ss.0.len(), 1, "{:?}", ss);
    ss.0.pop().unwrap().1
}

fn err(src: &str) -> ScanError {
    match scan(src.as_bytes()) {
        Ok(ss) => panic!("scanned {:?} from {:?}", ss, src),
        Err(e) => e,
    }
}

fn name(e: &Expr) -> String {
    match e {
        Expr::Variant(n) => String::from_utf8(n.b.clone()).unwrap(),
        other => panic!("not a name: {:?}", other),
    }
}

fn int_of(e: &Expr) -> isize {
    match e {
        Expr::Literal(Litr::Int(n)) => *n,
        other => panic!("not an integer: {:?}", other),
    }
}

#[test]
fn scan_empty_source() {
    assert_eq!(ok("").0.len(), 0);
}

#[test]
fn scan_blank_and_comments() {
    assert_eq!(ok("  // a comment\n /* another\n one */ \t\r\n").0.len(), 0);
    assert_eq!(ok(";;  ;").0.len(), 0);
}

#[test]
fn scan_let_number() {
    match one("let a = 1;") {
        Stmt::Let(d) => {
            match &d.id {
                AssignTo::One(n) => assert_eq!(n.b, b"a".to_vec()),
                other => panic!("{:?}", other),
            }
            assert_eq!(int_of(&d.val), 1);
            assert!(!d.take);
        },
        other => panic!("{:?}", other),
    }
}

#[test]
fn scan_unsigned_and_take() {
    match one("let a < 5u") {
        Stmt::Let(d) => {
            assert!(d.take);
            assert!(matches!(d.val, Expr::Literal(Litr::Uint(5))));
        },
        other => panic!("{:?}", other),
    }
}

#[test]
fn scan_let_without_value_is_uninit() {
    match one("let x") {
        Stmt::Let(d) => assert!(matches!(d.val, Expr::Literal(Litr::Uninit))),
        other => panic!("{:?}", other),
    }
}

#[test]
fn scan_destructure() {
    match one("let [a, b] = c") {
        Stmt::Let(d) => {
            match &d.id {
                AssignTo::Destr(v) => {
                    assert_eq!(v.len(), 2);
                    assert_eq!(v[0].b, b"a".to_vec());
                    assert_eq!(v[1].b, b"b".to_vec());
                },
                other => panic!("{:?}", other),
            }
            assert_eq!(name(&d.val), "c");
        },
        other => panic!("{:?}", other),
    }
}

#[test]
fn scan_const_and_lock() {
    assert!(matches!(one("const k = 2"), Stmt::Const(_)));
    match one("const(v)") {
        Stmt::Lock(n) => assert_eq!(n.b, b"v".to_vec()),
        other => panic!("{:?}", other),
    }
}

#[test]
fn scan_lines_of_statements() {
    let ss = ok("a\nb\n\nc");
    let lines: Vec<usize> = ss.0.iter().map(|(l, _)| *l).collect();
    assert_eq!(lines, vec![1, 2, 4]);
}

#[test]
fn scan_precedence() {
    match one("a = 1 + 2 * 3 - 4") {
        Stmt::Expression(Expr::Binary(l, BinOp::Assign, r)) => {
            assert_eq!(name(&l), "a");
            match *r {
                Expr::Binary(x, BinOp::Sub, four) => {
                    assert_eq!(int_of(&four), 4);
                    match *x {
                        Expr::Binary(one, BinOp::Add, m) => {
                            assert_eq!(int_of(&one), 1);
                            assert!(matches!(*m, Expr::Binary(_, BinOp::Mul, _)));
                        },
                        other => panic!("{:?}", other),
                    }
                },
                other => panic!("{:?}", other),
            }
        },
        other => panic!("{:?}", other),
    }
}

#[test]
fn scan_logic_and_unary() {
    match one("!a && -b || c == d") {
        Stmt::Expression(Expr::Binary(l, BinOp::Or, r)) => {
            match *l {
                Expr::Binary(x, BinOp::And, y) => {
                    assert!(matches!(*x, Expr::Unary(UnaryOp::Not, _)));
                    assert!(matches!(*y, Expr::Unary(UnaryOp::Neg, _)));
                },
                other => panic!("{:?}", other),
            }
            assert!(matches!(*r, Expr::Binary(_, BinOp::Eq, _)));
        },
        other => panic!("{:?}", other),
    }
}

#[test]
fn scan_postfixes() {
    match one("a.b(1, 2)[0]") {
        Stmt::Expression(Expr::Index(callee, idx)) => {
            assert_eq!(int_of(&idx), 0);
            match *callee {
                Expr::Call(f, args) => {
                    assert_eq!(args.len(), 2);
                    match *f {
                        Expr::Property(o, p) => {
                            assert_eq!(name(&o), "a");
                            assert_eq!(p.b, b"b".to_vec());
                        },
                        other => panic!("{:?}", other),
                    }
                },
                other => panic!("{:?}", other),
            }
        },
        other => panic!("{:?}", other),
    }
}

#[test]
fn scan_list_and_strings() {
    match one("[1, \"你好\", true]") {
        Stmt::Expression(Expr::List(items)) => {
            assert_eq!(items.len(), 3);
            match &items[1] {
                Expr::Literal(Litr::Str(s)) => assert_eq!(s, "你好"),
                other => panic!("{:?}", other),
            }
            assert!(matches!(items[2], Expr::Literal(Litr::Bool(true))));
        },
        other => panic!("{:?}", other),
    }
}

#[test]
fn scan_if_else() {
    match one("if x {a} else {b}") {
        Stmt::If { condition, body, els } => {
            assert_eq!(name(&condition), "x");
            match *body {
                Stmt::Block(b) => assert_eq!(b.0.len(), 1),
                other => panic!("{:?}", other),
            }
            assert!(matches!(els.as_deref(), Some(Stmt::Block(_))));
        },
        other => panic!("{:?}", other),
    }
    match one("if x a") {
        Stmt::If { els, .. } => assert!(els.is_none()),
        other => panic!("{:?}", other),
    }
}

#[test]
fn scan_for_forms() {
    assert!(matches!(one("for! {}"), Stmt::ForLoop(_)));
    match one("for (i < 3) { i = i + 1 }") {
        Stmt::ForWhile { condition, .. } => {
            assert!(matches!(condition, Expr::Binary(_, BinOp::Lt, _)))
        },
        other => panic!("{:?}", other),
    }
    match one("for i: 10 {}") {
        Stmt::ForIter { iterator, id, .. } => {
            assert_eq!(int_of(&iterator), 10);
            assert_eq!(id.unwrap().b, b"i".to_vec());
        },
        other => panic!("{:?}", other),
    }
    match one("for list {}") {
        Stmt::ForIter { iterator, id, .. } => {
            assert_eq!(name(&iterator), "list");
            assert!(id.is_none());
        },
        other => panic!("{:?}", other),
    }
}

#[test]
fn scan_function_declaration() {
    match one("let f(a: Int, b) { return a }") {
        Stmt::Let(d) => match d.val {
            Expr::LocalDecl(f) => {
                assert_eq!(f.argdecl.len(), 2);
                assert_eq!(f.argdecl[0].name.b, b"a".to_vec());
                assert!(matches!(f.argdecl[0].t, KsType::Int));
                assert!(matches!(f.argdecl[1].t, KsType::Any));
                assert_eq!(f.stmts.0.len(), 1);
                match &f.stmts.0[0].1 {
                    Stmt::Return(e) => assert_eq!(name(e), "a"),
                    other => panic!("{:?}", other),
                }
            },
            other => panic!("{:?}", other),
        },
        other => panic!("{:?}", other),
    }
}

#[test]
fn scan_return_forms() {
    assert!(matches!(one(":"), Stmt::Return(Expr::Literal(Litr::Uninit))));
    match one("return 3") {
        Stmt::Return(e) => assert_eq!(int_of(&e), 3),
        other => panic!("{:?}", other),
    }
    assert!(matches!(one("break"), Stmt::Break));
    assert!(matches!(one("continue"), Stmt::Continue));
}

#[test]
fn scan_class_declaration() {
    match one("class A { >x: Int, y .m() {} s() {} }") {
        Stmt::Class(c) => {
            assert_eq!(c.name.b, b"A".to_vec());
            assert_eq!(c.props.len(), 2);
            assert!(c.props[0].public);
            assert!(matches!(c.props[0].typ, KsType::Int));
            assert!(!c.props[1].public);
            assert!(matches!(c.props[1].typ, KsType::Any));
            assert_eq!(c.methods.len(), 1);
            assert_eq!(c.methods[0].name.b, b"m".to_vec());
            assert_eq!(c.statics.len(), 1);
            assert_eq!(c.statics[0].name.b, b"s".to_vec());
        },
        other => panic!("{:?}", other),
    }
    match one("class B = A") {
        Stmt::Using(n, e) => {
            assert_eq!(n.b, b"B".to_vec());
            assert_eq!(name(&e), "A");
        },
        other => panic!("{:?}", other),
    }
}

#[test]
fn scan_modules() {
    match one("mod ./lib.ks> m") {
        Stmt::Mod(n, path) => {
            assert_eq!(n.b, b"m".to_vec());
            assert_eq!(path, b"./lib.ks".to_vec());
        },
        other => panic!("{:?}", other),
    }
    match one("mod.f(x) {}") {
        Stmt::ExportFn(n, f) => {
            assert_eq!(n.b, b"f".to_vec());
            assert_eq!(f.argdecl.len(), 1);
        },
        other => panic!("{:?}", other),
    }
    assert!(matches!(one("mod: C {}"), Stmt::ExportCls(_)));
}

#[test]
fn scan_try_catch() {
    match one("try {a} catch e {b}") {
        Stmt::Try { catc, .. } => {
            let (n, body) = catc.unwrap();
            assert_eq!(n.b, b"e".to_vec());
            assert_eq!(body.0.len(), 1);
        },
        other => panic!("{:?}", other),
    }
    match one("try {a} catch {b}") {
        Stmt::Try { catc, .. } => assert_eq!(catc.unwrap().0.b, b".err".to_vec()),
        other => panic!("{:?}", other),
    }
    match one("try a") {
        Stmt::Try { catc, .. } => assert!(catc.is_none()),
        other => panic!("{:?}", other),
    }
}

#[test]
fn scan_match_arms() {
    match one("match x { 1, >2 {a} <=0 {b} - {c} }") {
        Stmt::Match { to, arms, def } => {
            assert_eq!(name(&to), "x");
            assert_eq!(arms.len(), 2);
            assert_eq!(arms[0].0.len(), 2);
            assert_eq!(arms[0].0[0].1, MatchOrd::Eq);
            assert_eq!(arms[0].0[1].1, MatchOrd::Greater);
            assert_eq!(arms[1].0[0].1, MatchOrd::LessEq);
            assert_eq!(def.unwrap().0.len(), 1);
        },
        other => panic!("{:?}", other),
    }
}

#[test]
fn scan_errors() {
    assert_eq!(err("else {}"), ScanError::ElseWithoutIf);
    assert_eq!(err("catch {}"), ScanError::CatchWithoutTry);
    assert_eq!(err("async"), ScanError::AsyncUnsupported);
    assert_eq!(err("await x"), ScanError::AsyncUnsupported);
    assert_eq!(err("extern"), ScanError::ExternUnsupported);
    assert_eq!(err("let = 1"), ScanError::LetNeedsName);
    assert_eq!(err("let a ="), ScanError::AssignNothing);
    assert_eq!(err("let [a, b = c"), ScanError::UnclosedDestructure);
    assert_eq!(err("const(1)"), ScanError::LockNeedsName);
    assert_eq!(err("throw"), ScanError::ThrowNeedsExpr);
    assert_eq!(err("{ a"), ScanError::UnclosedBlock);
    assert_eq!(err(")"), ScanError::ExpectedStatement(b')'));
    assert_eq!(err("a +"), ScanError::MissingOperand);
    assert_eq!(err("()"), ScanError::EmptyGroup);
    assert_eq!(err("(a"), ScanError::UnclosedParen);
    assert_eq!(err("[a"), ScanError::UnclosedBracket);
    assert_eq!(err("f(a"), ScanError::UnclosedCall);
    assert_eq!(err("a."), ScanError::ExpectedName);
    assert_eq!(err("\"abc"), ScanError::UnclosedString);
    assert_eq!(err("99999999999999999999"), ScanError::NumberTooLarge);
    assert_eq!(err("class"), ScanError::ClassNeedsName);
    assert_eq!(err("class A"), ScanError::ClassNeedsBrace);
    assert_eq!(err("mod a"), ScanError::ModNeedsGt);
    assert_eq!(err("mod a>"), ScanError::ModNeedsName);
    assert_eq!(err("mod.[a] = 1"), ScanError::ExportOneFunction);
    assert_eq!(err("mod.a = 1"), ScanError::ExportLocalFunctionOnly);
    assert_eq!(err("mod: B = A"), ScanError::ExportUsing);
    assert_eq!(err("for 1: x {}"), ScanError::ForNeedsName);
    assert_eq!(err("match {"), ScanError::MatchNeedsExpr);
    assert_eq!(err("match x"), ScanError::MatchNeedsBrace);
    assert_eq!(err("match x { - a }"), ScanError::MatchDefaultNeedsBlock);
    assert_eq!(err("match x { 1 a }"), ScanError::MatchArmNeedsBlock);
    assert_eq!(err("try {a} catch e b"), ScanError::CatchNeedsBlock);
}

#[test]
fn scan_invalid_utf8_string() {
    let src: Vec<u8> = vec![b'"', 0xff, b'"'];
    assert_eq!(scan(&src).unwrap_err(), ScanError::InvalidUtf8);
}

#[test]
fn scanner_single_statement() {
    let src = b"let a = 1; b";
    let mut sc = Scanner::new(src);
    assert!(matches!(sc.stmt(), Stmt::Let(_)));
    assert_eq!(sc.i(), 9);
}

#[test]
fn skipping_blanks_twice_skips_nothing_more() {
    let src = b"  // note\n /* x */\t name";
    let mut sc = Scanner::new(src);
    sc.spaces();
    let once = sc.i();
    assert_eq!(once, 20);
    sc.spaces();
    assert_eq!(sc.i(), once);
    assert_eq!(sc.ident().unwrap().b, b"name".to_vec());
}

#[test]
fn scanned_statements_are_never_empty_and_in_line_order() {
    let ss = ok(";a;;\n\nb;\n{c}\n;");
    assert_eq!(ss.0.len(), 3);
    assert!(ss.0.iter().all(|(_, st)| !matches!(st, Stmt::Empty)));
    let lines: Vec<usize> = ss.0.iter().map(|(l, _)| *l).collect();
    assert_eq!(lines, vec![1, 3, 4]);
}

#[test]
fn checked_statement_scans_give_the_error() {
    let mut sc = Scanner::new(b")");
    assert_eq!(sc.try_stmt().unwrap_err(), ScanError::ExpectedStatement(b')'));
    let mut sc = Scanner::new(b" x { - a }");
    assert_eq!(sc.try_matching().unwrap_err(), ScanError::MatchDefaultNeedsBlock);
    let mut sc = Scanner::new(b"{a} catch e b");
    assert_eq!(sc.try_trying().unwrap_err(), ScanError::CatchNeedsBlock);
    let mut sc = Scanner::new(b" i: 3 {}");
    assert!(matches!(sc.foring(), Stmt::ForIter { .. }));
}

#[test]
fn colon_and_return_scan_alike() {
    match (one(": a + 1"), one("return a + 1")) {
        (Stmt::Return(x), Stmt::Return(y)) => assert_eq!(format!("{:?}", x), format!("{:?}", y)),
        other => panic!("{:?}", other),
    }
}

#[test]
fn colon_and_return_end_six_apart() {
    let mut a = Scanner::new(b":x(1) + 2; y");
    let mut b = Scanner::new(b"return x(1) + 2; y");
    let (x, y) = (a.stmt(), b.stmt());
    assert_eq!(format!("{:?}", x), format!("{:?}", y));
    assert_eq!(a.i() + 6, b.i());
    let mut a = Scanner::new(b":(");
    let mut b = Scanner::new(b"return (");
    assert_eq!(a.try_stmt().unwrap_err(), b.try_stmt().unwrap_err());
}
