//! The functions of the top-level scope.
use vstd::prelude::*;
use vstd::utf8::encode_utf8;
use crate::intern::{Interned, intern};
use crate::primitive::litr::{Litr, SLitr, Builtin, Function, litr_str};
use crate::scan::ScanError;
use crate::scan::stmt::{Statements, SStatements, scan, spec_scan};

verus! {

/// The interpreter's version number, as `version()` gives it.
pub const VERSION: usize = 100006;

/// A variable of a scope: its name, whether it is locked against assignment,
/// and its value.
#[derive(Debug)]
pub struct Variant {
    pub name: Interned,
    pub locked: bool,
    pub v: Litr,
}

/// The mathematical value of a [`Variant`].
pub struct SVariant {
    pub name: Seq<u8>,
    pub locked: bool,
    pub v: SLitr,
}

impl View for Variant {
    type V = SVariant;

    open spec fn view(&self) -> SVariant {
        SVariant { name: self.name@, locked: self.locked, v: self.v@ }
    }
}

/// The views of a list of variables.
pub open spec fn view_variants(v: Seq<Variant>) -> Seq<SVariant> {
    Seq::new(v.len(), |i: int| v[i]@)
}

/// The name under which a prelude function is bound, in ASCII: `log`, `throw`,
/// `run_ks`, `version`, `distribution`, `swap`, `take`.
pub open spec fn builtin_name(b: Builtin) -> Seq<u8> {
    match b {
        Builtin::Log => seq![108u8, 111, 103],
        Builtin::Throw => seq![116u8, 104, 114, 111, 119],
        Builtin::RunKs => seq![114u8, 117, 110, 95, 107, 115],
        Builtin::Version => seq![118u8, 101, 114, 115, 105, 111, 110],
        Builtin::Distribution => seq![100u8, 105, 115, 116, 114, 105, 98, 117, 116, 105, 111, 110],
        Builtin::Swap => seq![115u8, 119, 97, 112],
        Builtin::Take => seq![116u8, 97, 107, 101],
    }
}

/// The prelude functions in the order in which the prelude binds them.
pub open spec fn prelude_order() -> Seq<Builtin> {
    seq![
        Builtin::Log,
        Builtin::Throw,
        Builtin::RunKs,
        Builtin::Version,
        Builtin::Distribution,
        Builtin::Swap,
        Builtin::Take,
    ]
}

/// The variable that binds the prelude function `b`: locked, under its name.
pub open spec fn prelude_entry(b: Builtin) -> SVariant {
    SVariant { name: builtin_name(b), locked: true, v: SLitr::Func(Function::Native(b)) }
}

/// The variables of the top-level scope.
pub open spec fn spec_prelude() -> Seq<SVariant> {
    prelude_order().map_values(|b: Builtin| prelude_entry(b))
}

/// The name of a prelude function.
pub fn builtin_name_exec(b: Builtin) -> (r: Interned)
    ensures
        r@ == builtin_name(b),
{
    let r = match b {
        Builtin::Log => intern(&[108u8, 111, 103]),
        Builtin::Throw => intern(&[116u8, 104, 114, 111, 119]),
        Builtin::RunKs => intern(&[114u8, 117, 110, 95, 107, 115]),
        Builtin::Version => intern(&[118u8, 101, 114, 115, 105, 111, 110]),
        Builtin::Distribution => intern(
            &[100u8, 105, 115, 116, 114, 105, 98, 117, 116, 105, 111, 110],
        ),
        Builtin::Swap => intern(&[115u8, 119, 97, 112]),
        Builtin::Take => intern(&[116u8, 97, 107, 101]),
    };
    assert(r@ =~= builtin_name(b));
    r
}

/// The variable binding the prelude function `b`.
fn prelude_variant(b: Builtin) -> (r: Variant)
    ensures
        r@ == prelude_entry(b),
{
    Variant { name: builtin_name_exec(b), locked: true, v: Litr::Func(Function::Native(b)) }
}

/// The variables of the top-level scope: each prelude function, locked, under its name.
pub fn prelude() -> (r: Vec<Variant>)
    ensures
        view_variants(r@) == spec_prelude(),
        r@.len() == 7,
        forall|i: int|
            #![trigger r@[i]]
            0 <= i < 7 ==> r@[i].name@ == builtin_name(prelude_order()[i]) && r@[i].locked
                && r@[i].v@ == SLitr::Func(Function::Native(prelude_order()[i])),
{
    let mut r: Vec<Variant> = Vec::new();
    r.push(prelude_variant(Builtin::Log));
    r.push(prelude_variant(Builtin::Throw));
    r.push(prelude_variant(Builtin::RunKs));
    r.push(prelude_variant(Builtin::Version));
    r.push(prelude_variant(Builtin::Distribution));
    r.push(prelude_variant(Builtin::Swap));
    r.push(prelude_variant(Builtin::Take));
    assert(view_variants(r@) =~= spec_prelude());
    r
}

/// The lines that `log` writes: one per argument, each the argument written out.
pub fn log(args: &[Litr]) -> (lines: Vec<String>)
    ensures
        lines@.len() == args@.len(),
        forall|i: int| 0 <= i < args@.len() ==> #[trigger] lines@[i]@ == litr_str(args@[i]@),
{
    let mut lines: Vec<String> = Vec::new();
    let mut k: usize = 0;
    while k < args.len()
        invariant
            k <= args@.len(),
            lines@.len() == k,
            forall|i: int| 0 <= i < k ==> #[trigger] lines@[i]@ == litr_str(args@[i]@),
        decreases args@.len() - k,
    {
        let s = args[k].str();
        lines.push(s);
        k = k + 1;
    }
    lines
}

/// The message of an error thrown without an argument.
pub open spec fn default_error() -> Seq<char> {
    seq!['错', '误']
}

/// The message that `throw` raises: its first argument written out, or the
/// default message when it has none.
pub fn throw(args: &[Litr]) -> (message: String)
    ensures
        message@ == if args@.len() > 0 {
            litr_str(args@[0]@)
        } else {
            default_error()
        },
{
    if args.len() > 0 {
        args[0].str()
    } else {
        let mut s = String::new();
        s.append("错误");
        proof {
            reveal_strlit("错误");
        }
        assert(s@ =~= default_error());
        s
    }
}

/// Whether a value can be run as source: a string or a byte buffer.
pub open spec fn is_source(v: SLitr) -> bool {
    v is Str || v is Buf
}

/// The source bytes of a value: a string's UTF-8 encoding, or a buffer's bytes.
pub open spec fn source_bytes(v: SLitr) -> Seq<u8> {
    match v {
        SLitr::Str(s) => encode_utf8(s),
        SLitr::Buf(b) => b,
        _ => Seq::empty(),
    }
}

/// Scans the source that `run_ks` is given as its first argument, into the
/// statements that it then runs in the calling scope.
pub fn run_ks(args: &[Litr]) -> (r: Result<Statements, ScanError>)
    requires
        args@.len() >= 1,
        is_source(args@[0]@),
        source_bytes(args@[0]@).len() < usize::MAX,
    ensures
        match r {
            Ok(ss) => spec_scan(source_bytes(args@[0]@)) == Ok::<SStatements, ScanError>(ss@),
            Err(e) => spec_scan(source_bytes(args@[0]@)) == Err::<SStatements, ScanError>(e),
        },
{
    match &args[0] {
        Litr::Str(s) => scan(s.as_str().as_bytes()),
        Litr::Buf(b) => scan(b.as_slice()),
        _ => {
            proof {
                assert(false);
            }
            Err(ScanError::UnclosedBlock)
        },
    }
}

/// The interpreter's version number.
pub fn version() -> (r: Litr)
    ensures
        r@ == SLitr::Uint(VERSION),
{
    Litr::Uint(VERSION)
}

/// The name of the interpreter's distributor.
pub open spec fn distributor() -> Seq<char> {
    seq!['S', 'u', 'b', 'k', 'e', 'y']
}

/// The interpreter's distributor, as a string value.
pub fn distribution() -> (r: Litr)
    ensures
        r@ == SLitr::Str(distributor()),
{
    let mut s = String::new();
    s.append("Subkey");
    proof {
        reveal_strlit("Subkey");
    }
    assert(s@ =~= distributor());
    Litr::Str(s)
}

/// The arguments after `swap`: the first two exchanged.
pub open spec fn swapped(args: Seq<Litr>) -> Seq<Litr> {
    args.update(0, args[1]).update(1, args[0])
}

/// Exchanges the values of the first two arguments; the call's value is `uninit`.
pub fn swap(args: &mut Vec<Litr>) -> (r: Litr)
    requires
        old(args)@.len() >= 2,
    ensures
        final(args)@ == swapped(old(args)@),
        r@ == SLitr::Uninit,
{
    let mut held = Litr::Uninit;
    args.set_and_swap(0, &mut held);
    args.set_and_swap(1, &mut held);
    args.set_and_swap(0, &mut held);
    assert(args@ =~= swapped(old(args)@));
    held
}

/// The arguments after `take`: the first one left `uninit`.
pub open spec fn taken(args: Seq<Litr>) -> Seq<Litr> {
    args.update(0, Litr::Uninit)
}

/// Takes the value of the first argument, leaving `uninit` in its place.
pub fn take(args: &mut Vec<Litr>) -> (r: Litr)
    requires
        old(args)@.len() >= 1,
    ensures
        r == old(args)@[0],
        final(args)@ == taken(old(args)@),
{
    let mut held = Litr::Uninit;
    args.set_and_swap(0, &mut held);
    held
}

} // verus!

verus! {

/// Swapping twice gives back the arguments as they were.
pub proof fn lemma_swap_twice(args: Seq<Litr>)
    requires
        args.len() >= 2,
    ensures
        swapped(swapped(args)) == args,
        swapped(args).len() == args.len(),
{
    assert(swapped(swapped(args)) =~= args);
}

/// After `take` the first argument is `uninit`, so a second `take` gives `uninit`
/// and changes nothing more.
pub proof fn lemma_take_twice(args: Seq<Litr>)
    requires
        args.len() >= 1,
    ensures
        taken(args)[0]@ == SLitr::Uninit,
        taken(taken(args)) == taken(args),
        taken(args).len() == args.len(),
{
    assert(taken(taken(args)) =~= taken(args));
}

/// The prelude binds each of its functions exactly once: its variables have
/// pairwise different names, all are locked, and each prelude function is bound
/// under its own name.
pub proof fn lemma_prelude_bindings(b: Builtin)
    ensures
        spec_prelude().len() == 7,
        forall|i: int, j: int|
            0 <= i < j < 7 ==> #[trigger] spec_prelude()[i].name != #[trigger] spec_prelude()[j].name,
        forall|i: int| 0 <= i < 7 ==> #[trigger] spec_prelude()[i].locked,
        exists|i: int| 0 <= i < 7 && #[trigger] spec_prelude()[i] == prelude_entry(b),
{
    let p = spec_prelude();
    assert(p[0].name[0] == 108u8 && p[0].name.len() == 3);
    assert(p[1].name[0] == 116u8 && p[1].name.len() == 5);
    assert(p[2].name[0] == 114u8);
    assert(p[3].name[0] == 118u8);
    assert(p[4].name[0] == 100u8);
    assert(p[5].name[0] == 115u8);
    assert(p[6].name[0] == 116u8 && p[6].name.len() == 4);
    match b {
        Builtin::Log => assert(p[0] == prelude_entry(b)),
        Builtin::Throw => assert(p[1] == prelude_entry(b)),
        Builtin::RunKs => assert(p[2] == prelude_entry(b)),
        Builtin::Version => assert(p[3] == prelude_entry(b)),
        Builtin::Distribution => assert(p[4] == prelude_entry(b)),
        Builtin::Swap => assert(p[5] == prelude_entry(b)),
        Builtin::Take => assert(p[6] == prelude_entry(b)),
    }
}

} // verus!
