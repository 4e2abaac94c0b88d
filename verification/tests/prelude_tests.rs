use lib::intern::{intern, Interned};
use lib::primitive::iter::{instance_item, LitrIterator};
use lib::primitive::kstd::{
    distribution, log, prelude, run_ks, swap, take, throw, version, VERSION,
};
use lib::primitive::litr::{Builtin, Function, Litr, Symbol};
use lib::scan::stmt::Stmt;
use lib::scan::ScanError;

fn s(t: &str) -> Litr {
    Litr::Str(t.to_string())
}

fn key(t: &str) -> Interned {
    intern(t.as_bytes())
}

#[test]
fn prelude_binds_each_builtin_once() {
    let p = prelude();
    let names: Vec<String> = p.iter().map(|v| String::from_utf8(v.name.b.clone()).unwrap()).collect();
    assert_eq!(
        names,
        vec!["log", "throw", "run_ks", "version", "distribution", "swap", "take"]
    );
    assert!(p.iter().all(|v| v.locked));
    let order = [
        Builtin::Log,
        Builtin::Throw,
        Builtin::RunKs,
        Builtin::Version,
        Builtin::Distribution,
        Builtin::Swap,
        Builtin::Take,
    ];
    for (v, b) in p.iter().zip(order.iter()) {
        match &v.v {
            Litr::Func(Function::Native(x)) => assert_eq!(x, b),
            other => panic!("{:?}", other),
        }
    }
}

#[test]
fn str_of_each_kind() {
    assert_eq!(Litr::Uninit.str(), "uninit");
    assert_eq!(Litr::Int(-120).str(), "-120");
    assert_eq!(Litr::Int(isize::MIN).str(), isize::MIN.to_string());
    assert_eq!(Litr::Uint(0).str(), "0");
    assert_eq!(Litr::Uint(usize::MAX).str(), usize::MAX.to_string());
    assert_eq!(Litr::Bool(true).str(), "true");
    assert_eq!(Litr::Bool(false).str(), "false");
    assert_eq!(Litr::Func(Function::Native(Builtin::Log)).str(), "Func");
    assert_eq!(s("原样").str(), "原样");
    assert_eq!(Litr::Buf(vec![1, 20, 255]).str(), "Buf[1, 20, 255]");
    assert_eq!(Litr::Buf(vec![]).str(), "Buf[]");
    assert_eq!(Litr::List(vec![Litr::Int(1), s("a"), Litr::List(vec![])]).str(), "[1, a, []]");
    assert_eq!(
        Litr::Obj(vec![(key("k"), Litr::Uint(1)), (key("j"), Litr::Bool(false))]).str(),
        "{k: 1, j: false}"
    );
    assert_eq!(Litr::Sym(Symbol::IterEnd).str(), "iter_end");
}

#[test]
fn copy_is_deep_and_equal() {
    let v = Litr::List(vec![s("x"), Litr::Obj(vec![(key("a"), Litr::Buf(vec![7]))])]);
    let c = v.copy();
    assert_eq!(c.str(), v.str());
    assert_eq!(c.str(), "[x, {a: Buf[7]}]");
}

#[test]
fn log_writes_one_line_per_argument() {
    let lines = log(&[s("hi"), Litr::Int(3), Litr::Uninit]);
    assert_eq!(lines, vec!["hi".to_string(), "3".to_string(), "uninit".to_string()]);
    assert!(log(&[]).is_empty());
}

#[test]
fn throw_message() {
    assert_eq!(throw(&[s("boom"), Litr::Int(1)]), "boom");
    assert_eq!(throw(&[Litr::Uint(42)]), "42");
    assert_eq!(throw(&[]), "错误");
}

#[test]
fn version_and_distribution() {
    assert!(matches!(version(), Litr::Uint(100006)));
    assert_eq!(VERSION, 100006);
    match distribution() {
        Litr::Str(d) => assert_eq!(d, "Subkey"),
        other => panic!("{:?}", other),
    }
}

#[test]
fn swap_exchanges_first_two() {
    let mut args = vec![Litr::Int(1), s("b"), Litr::Bool(true)];
    let r = swap(&mut args);
    assert!(matches!(r, Litr::Uninit));
    assert_eq!(args[0].str(), "b");
    assert_eq!(args[1].str(), "1");
    assert_eq!(args[2].str(), "true");
    swap(&mut args);
    assert_eq!(args[0].str(), "1");
    assert_eq!(args[1].str(), "b");
}

#[test]
fn take_leaves_uninit() {
    let mut args = vec![s("v")];
    let r = take(&mut args);
    assert_eq!(r.str(), "v");
    assert!(matches!(args[0], Litr::Uninit));
    let again = take(&mut args);
    assert!(matches!(again, Litr::Uninit));
    assert!(matches!(args[0], Litr::Uninit));
}

#[test]
fn run_ks_scans_string_or_buffer() {
    let ss = run_ks(&[s("let a = 1\nlog(a)")]).unwrap();
    assert_eq!(ss.0.len(), 2);
    assert!(matches!(ss.0[0].1, Stmt::Let(_)));
    assert_eq!(ss.0[1].0, 2);
    let ss = run_ks(&[Litr::Buf(b"break".to_vec())]).unwrap();
    assert!(matches!(ss.0[0].1, Stmt::Break));
    assert_eq!(run_ks(&[s("else")]).unwrap_err(), ScanError::ElseWithoutIf);
}

fn drain(v: &Litr) -> Vec<String> {
    let mut it = LitrIterator::new(v);
    let mut out = Vec::new();
    while let Some(x) = it.next() {
        out.push(x.str());
    }
    assert!(it.next().is_none());
    out
}

#[test]
fn iterate_each_kind() {
    assert_eq!(drain(&s("a你")), vec!["a", "你"]);
    assert_eq!(drain(&Litr::Buf(vec![3, 250])), vec!["3", "250"]);
    assert_eq!(drain(&Litr::Uint(3)), vec!["0", "1", "2"]);
    assert_eq!(drain(&Litr::Int(2)), vec!["0", "1"]);
    assert!(drain(&Litr::Int(-4)).is_empty());
    assert!(drain(&Litr::Uint(0)).is_empty());
    assert_eq!(drain(&Litr::List(vec![Litr::Int(-1), s("x")])), vec!["-1", "x"]);
    assert_eq!(
        drain(&Litr::Obj(vec![(key("p"), Litr::Uninit), (key("q"), Litr::Int(0))])),
        vec!["p", "q"]
    );
}

#[test]
fn iterated_items_have_their_kinds() {
    let v = Litr::Int(2);
    let mut it = LitrIterator::new(&v);
    assert!(matches!(it.next(), Some(Litr::Int(0))));
    assert!(matches!(it.next(), Some(Litr::Int(1))));
    assert!(it.next().is_none());
    let b = Litr::Buf(vec![9]);
    let mut it = LitrIterator::new(&b);
    assert!(matches!(it.next(), Some(Litr::Uint(9))));
}

#[test]
fn interned_names() {
    let a = intern(b"name");
    assert!(a.is(b"name"));
    assert!(!a.is(b"nam"));
    assert_eq!(a.vec(), b"name");
    assert_eq!(a.clone().b, b"name".to_vec());
}

#[test]
fn error_report_layout() {
    assert_eq!(
        lib::report::error_report("坏了", "用户输入", 12),
        "\n> 坏了\n  用户输入:第12行\n\n> Key Script CopyLeft by Subkey"
    );
}

#[test]
fn instance_items_end_at_iter_end() {
    assert!(instance_item(Litr::Sym(Symbol::IterEnd)).is_none());
    assert!(matches!(instance_item(Litr::Int(4)), Some(Litr::Int(4))));
}

#[test]
fn run_ks_error_place() {
    assert_eq!(lib::report::run_ks_place("用户输入", 7), "run_ks: 用户输入(7)");
    assert_eq!(lib::report::run_ks_place("", 0), "run_ks: (0)");
}
