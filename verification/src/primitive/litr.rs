//! Script values.
use vstd::prelude::*;
use crate::intern::Interned;
use vstd::utf8::{valid_utf8, decode_utf8};

verus! {

/// The functions of the standard prelude.
#[derive(Debug, Clone, Copy, PartialEq, Eq)]
pub enum Builtin {
    Log,
    Throw,
    RunKs,
    Version,
    Distribution,
    Swap,
    Take,
}

/// A callable value.
#[derive(Debug, Clone, Copy, PartialEq, Eq)]
pub enum Function {
    /// A function of the standard prelude.
    Native(Builtin),
}

/// Symbols with a meaning to the runtime.
#[derive(Debug, Clone, Copy, PartialEq, Eq)]
pub enum Symbol {
    /// Returned by an iterator's `@next` when it has no more items.
    IterEnd,
}

/// A script value.
#[derive(Debug)]
pub enum Litr {
    Uninit,
    Int(isize),
    Uint(usize),
    Bool(bool),
    Func(Function),
    Str(String),
    Buf(Vec<u8>),
    List(Vec<Litr>),
    /// An object: its entries, in the order in which they were written. That
    /// order is the order of its written form and of the keys that iterating it
    /// yields, so the entries are kept as a list. Nothing in this library builds
    /// an object from a script or merges entries; an entry is yielded and written
    /// once for each time it occurs.
    Obj(Vec<(Interned, Litr)>),
    Sym(Symbol),
}

/// The mathematical value of a [`Litr`].
pub enum SLitr {
    Uninit,
    Int(isize),
    Uint(usize),
    Bool(bool),
    Func(Function),
    Str(Seq<char>),
    Buf(Seq<u8>),
    List(Seq<SLitr>),
    Obj(Seq<(Seq<u8>, SLitr)>),
    Sym(Symbol),
}

pub open spec fn view_litr(v: Litr) -> SLitr
    decreases v,
{
    match v {
        Litr::Uninit => SLitr::Uninit,
        Litr::Int(n) => SLitr::Int(n),
        Litr::Uint(n) => SLitr::Uint(n),
        Litr::Bool(b) => SLitr::Bool(b),
        Litr::Func(f) => SLitr::Func(f),
        Litr::Str(s) => SLitr::Str(s@),
        Litr::Buf(b) => SLitr::Buf(b@),
        Litr::List(l) => SLitr::List(
            Seq::new(
                l@.len(),
                |i: int|
                    if 0 <= i < l@.len() {
                        proof {
                            assert(decreases_to!(l => l@[i]));
                        }
                        view_litr(l@[i])
                    } else {
                        SLitr::Uninit
                    },
            ),
        ),
        Litr::Obj(o) => SLitr::Obj(
            Seq::new(
                o@.len(),
                |i: int|
                    if 0 <= i < o@.len() {
                        proof {
                            assert(decreases_to!(o => o@[i]));
                            assert(decreases_to!(o@[i] => o@[i].1));
                        }
                        (o@[i].0@, view_litr(o@[i].1))
                    } else {
                        (Seq::empty(), SLitr::Uninit)
                    },
            ),
        ),
        Litr::Sym(s) => SLitr::Sym(s),
    }
}

impl View for Litr {
    type V = SLitr;

    open spec fn view(&self) -> SLitr {
        view_litr(*self)
    }
}

/// Copies a string.
pub fn copy_string(s: &String) -> (r: String)
    ensures
        r@ == s@,
{
    s.clone()
}

impl Litr {
    /// A deep copy of the value.
    #[verifier::loop_isolation(false)]
    pub fn copy(&self) -> (r: Litr)
        ensures
            r@ == self@,
        decreases self,
    {
        match self {
            Litr::Uninit => Litr::Uninit,
            Litr::Int(n) => Litr::Int(*n),
            Litr::Uint(n) => Litr::Uint(*n),
            Litr::Bool(b) => Litr::Bool(*b),
            Litr::Func(f) => Litr::Func(*f),
            Litr::Str(s) => Litr::Str(copy_string(s)),
            Litr::Buf(b) => Litr::Buf(crate::intern::copy_bytes(b)),
            Litr::List(l) => {
                let mut r: Vec<Litr> = Vec::new();
                let mut k: usize = 0;
                while k < l.len()
                    invariant
                        k <= l@.len(),
                        r@.len() == k,
                        forall|j: int| 0 <= j < k ==> #[trigger] r@[j]@ == l@[j]@,
                    decreases l@.len() - k,
                {
                    proof {
                        assert(decreases_to!(self => l@[k as int]));
                    }
                    let c = l[k].copy();
                    r.push(c);
                    k = k + 1;
                }
                let res = Litr::List(r);
                assert(res@ == self@) by {
                    if let SLitr::List(a) = res@ {
                        if let SLitr::List(b) = self@ {
                            assert forall|j: int| 0 <= j < a.len() implies a[j] == b[j] by {
                                assert(r@[j]@ == l@[j]@);
                            }
                            assert(a =~= b);
                        }
                    }
                }
                res
            },
            Litr::Obj(o) => {
                let mut r: Vec<(Interned, Litr)> = Vec::new();
                let mut k: usize = 0;
                while k < o.len()
                    invariant
                        k <= o@.len(),
                        r@.len() == k,
                        forall|j: int|
                            #![trigger r@[j]]
                            0 <= j < k ==> r@[j].0@ == o@[j].0@ && r@[j].1@ == o@[j].1@,
                    decreases o@.len() - k,
                {
                    proof {
                        assert(decreases_to!(o => o@[k as int]));
                        assert(decreases_to!(o@[k as int] => o@[k as int].1));
                        assert(decreases_to!(self => o@[k as int].1));
                    }
                    let c = o[k].1.copy();
                    let n = o[k].0.clone();
                    r.push((n, c));
                    k = k + 1;
                }
                let res = Litr::Obj(r);
                assert(res@ == self@) by {
                    if let SLitr::Obj(a) = res@ {
                        if let SLitr::Obj(b) = self@ {
                            assert forall|j: int| 0 <= j < a.len() implies a[j] == b[j] by {
                                assert(r@[j].0@ == o@[j].0@ && r@[j].1@ == o@[j].1@);
                            }
                            assert(a =~= b);
                        }
                    }
                }
                res
            },
            Litr::Sym(s) => Litr::Sym(*s),
        }
    }
}

} // verus!

verus! {

/// A declared type: one of the built-in type names, a class name, or none.
#[derive(Debug)]
pub enum KsType {
    Any,
    Int,
    Uint,
    Float,
    Bool,
    Func,
    Str,
    Buf,
    List,
    Obj,
    Class(Interned),
}

/// The mathematical value of a [`KsType`].
pub enum SKsType {
    Any,
    Int,
    Uint,
    Float,
    Bool,
    Func,
    Str,
    Buf,
    List,
    Obj,
    Class(Seq<u8>),
}

pub open spec fn view_kstype(t: KsType) -> SKsType {
    match t {
        KsType::Any => SKsType::Any,
        KsType::Int => SKsType::Int,
        KsType::Uint => SKsType::Uint,
        KsType::Float => SKsType::Float,
        KsType::Bool => SKsType::Bool,
        KsType::Func => SKsType::Func,
        KsType::Str => SKsType::Str,
        KsType::Buf => SKsType::Buf,
        KsType::List => SKsType::List,
        KsType::Obj => SKsType::Obj,
        KsType::Class(n) => SKsType::Class(n@),
    }
}

impl View for KsType {
    type V = SKsType;

    open spec fn view(&self) -> SKsType {
        view_kstype(*self)
    }
}

} // verus!

verus! {

/// What `String::from_utf8_lossy` makes of the bytes `b`.
pub uninterp spec fn lossy_text(b: Seq<u8>) -> Seq<char>;

/// `String::from_utf8_lossy` (made owned): the text of `b`, which is its UTF-8
/// decoding when `b` is UTF-8. How other bytes are replaced is left to the name.
#[verifier::external_body]
pub(crate) fn utf8_lossy(b: &[u8]) -> (r: String)
    ensures
        r@ == lossy_text(b@),
        valid_utf8(b@) ==> r@ == decode_utf8(b@),
{
    String::from_utf8_lossy(b).into_owned()
}

/// The text of a name.
pub open spec fn name_text(b: Seq<u8>) -> Seq<char> {
    lossy_text(b)
}

/// The decimal digit `d` as a character.
pub open spec fn digit_char(d: nat) -> char {
    (48 + d) as char
}

/// The decimal numeral of `n`.
pub open spec fn dec(n: nat) -> Seq<char>
    decreases n,
{
    if n < 10 {
        seq![digit_char(n)]
    } else {
        dec(n / 10) + seq![digit_char(n % 10)]
    }
}

/// The numeral of an integer: a `-` before the decimal numeral of a negative number.
pub open spec fn int_text(n: int) -> Seq<char> {
    if n < 0 {
        seq!['-'] + dec((-n) as nat)
    } else {
        dec(n as nat)
    }
}

/// Texts joined by `, `.
pub open spec fn join(parts: Seq<Seq<char>>) -> Seq<char>
    decreases parts.len(),
{
    if parts.len() == 0 {
        Seq::empty()
    } else if parts.len() == 1 {
        parts[0]
    } else {
        join(parts.drop_last()) + seq![',', ' '] + parts.last()
    }
}

/// The texts of the items of a list.
pub open spec fn list_parts(l: Seq<SLitr>) -> Seq<Seq<char>>
    decreases l,
{
    Seq::new(
        l.len(),
        |i: int|
            if 0 <= i < l.len() {
                litr_str(l[i])
            } else {
                Seq::empty()
            },
    )
}

/// The texts `key: value` of the entries of an object.
pub open spec fn obj_parts(o: Seq<(Seq<u8>, SLitr)>) -> Seq<Seq<char>>
    decreases o,
{
    Seq::new(
        o.len(),
        |i: int|
            if 0 <= i < o.len() {
                proof {
                    assert(decreases_to!(o => o[i]));
                }
                name_text(o[i].0) + seq![':', ' '] + litr_str(o[i].1)
            } else {
                Seq::empty()
            },
    )
}

/// How a value is written out (by `log`, for instance).
///
/// `uninit`; integers in decimal; `true`/`false`; `Func`; a string as itself;
/// a buffer as `Buf[1, 2]`; a list as `[a, b]`; an object as `{k: v, ...}`;
/// the end-of-iteration symbol as `iter_end`.
pub open spec fn litr_str(v: SLitr) -> Seq<char>
    decreases v,
{
    match v {
        SLitr::Uninit => seq!['u', 'n', 'i', 'n', 'i', 't'],
        SLitr::Int(n) => int_text(n as int),
        SLitr::Uint(n) => dec(n as nat),
        SLitr::Bool(b) => if b {
            seq!['t', 'r', 'u', 'e']
        } else {
            seq!['f', 'a', 'l', 's', 'e']
        },
        SLitr::Func(_) => seq!['F', 'u', 'n', 'c'],
        SLitr::Str(s) => s,
        SLitr::Buf(b) => seq!['B', 'u', 'f', '['] + join(Seq::new(b.len(), |i: int| dec(b[i] as nat)))
            + seq![']'],
        SLitr::List(l) => seq!['['] + join(list_parts(l)) + seq![']'],
        SLitr::Obj(o) => seq!['{'] + join(obj_parts(o)) + seq!['}'],
        SLitr::Sym(_) => seq!['i', 't', 'e', 'r', '_', 'e', 'n', 'd'],
    }
}

} // verus!

verus! {

pub proof fn lemma_join_push(ps: Seq<Seq<char>>, x: Seq<char>)
    ensures
        join(ps.push(x)) == if ps.len() == 0 {
            x
        } else {
            join(ps) + seq![',', ' '] + x
        },
{
    if ps.len() > 0 {
        assert(ps.push(x).drop_last() =~= ps);
    }
}

/// The decimal digit `d` as a text.
fn digit_text(d: u8) -> (r: &'static str)
    requires
        d < 10,
    ensures
        r@ == seq![digit_char(d as nat)],
{
    if d == 0 {
        proof {
            reveal_strlit("0");
        }
        "0"
    } else if d == 1 {
        proof {
            reveal_strlit("1");
        }
        "1"
    } else if d == 2 {
        proof {
            reveal_strlit("2");
        }
        "2"
    } else if d == 3 {
        proof {
            reveal_strlit("3");
        }
        "3"
    } else if d == 4 {
        proof {
            reveal_strlit("4");
        }
        "4"
    } else if d == 5 {
        proof {
            reveal_strlit("5");
        }
        "5"
    } else if d == 6 {
        proof {
            reveal_strlit("6");
        }
        "6"
    } else if d == 7 {
        proof {
            reveal_strlit("7");
        }
        "7"
    } else if d == 8 {
        proof {
            reveal_strlit("8");
        }
        "8"
    } else {
        proof {
            reveal_strlit("9");
        }
        "9"
    }
}

/// Appends the decimal numeral of `n`.
pub fn push_dec(out: &mut String, n: usize)
    ensures
        final(out)@ == old(out)@ + dec(n as nat),
    decreases n,
{
    if n >= 10 {
        push_dec(out, n / 10);
    }
    let d = (n % 10) as u8;
    out.append(digit_text(d));
    proof {
        if n >= 10 {
            assert(final(out)@ =~= old(out)@ + dec(n as nat));
        } else {
            assert(final(out)@ =~= old(out)@ + dec(n as nat));
        }
    }
}

impl Litr {
    /// How the value is written out: see [`litr_str`].
    #[verifier::loop_isolation(false)]
    pub fn str(&self) -> (r: String)
        ensures
            r@ == litr_str(self@),
        decreases self,
    {
        let mut out = String::new();
        match self {
            Litr::Uninit => {
                out.append("uninit");
                proof {
                    reveal_strlit("uninit");
                }
            },
            Litr::Int(n) => {
                if *n < 0 {
                    out.append("-");
                    proof {
                        reveal_strlit("-");
                    }
                    let m: usize = ((-((*n) + 1)) as usize) + 1;
                    push_dec(&mut out, m);
                } else {
                    push_dec(&mut out, *n as usize);
                }
            },
            Litr::Uint(n) => {
                push_dec(&mut out, *n);
            },
            Litr::Bool(b) => {
                if *b {
                    out.append("true");
                    proof {
                        reveal_strlit("true");
                    }
                } else {
                    out.append("false");
                    proof {
                        reveal_strlit("false");
                    }
                }
            },
            Litr::Func(_) => {
                out.append("Func");
                proof {
                    reveal_strlit("Func");
                }
            },
            Litr::Str(s) => {
                out.append(s.as_str());
            },
            Litr::Buf(b) => {
                out.append("Buf[");
                proof {
                    reveal_strlit("Buf[");
                }
                let ghost parts = Seq::new(b@.len(), |i: int| dec(b@[i] as nat));
                let mut k: usize = 0;
                while k < b.len()
                    invariant
                        k <= b@.len(),
                        parts == Seq::new(b@.len(), |i: int| dec(b@[i] as nat)),
                        out@ == seq!['B', 'u', 'f', '['] + join(parts.take(k as int)),
                    decreases b@.len() - k,
                {
                    let ghost before = out@;
                    if k > 0 {
                        out.append(", ");
                        proof {
                            reveal_strlit(", ");
                        }
                    }
                    push_dec(&mut out, b[k] as usize);
                    proof {
                        assert(parts.take(k + 1) =~= parts.take(k as int).push(parts[k as int]));
                        lemma_join_push(parts.take(k as int), parts[k as int]);
                    }
                    k = k + 1;
                }
                out.append("]");
                proof {
                    reveal_strlit("]");
                    assert(parts.take(b@.len() as int) =~= parts);
                }
            },
            Litr::List(l) => {
                out.append("[");
                proof {
                    reveal_strlit("[");
                }
                let ghost lv = Seq::new(l@.len(), |i: int| l@[i]@);
                let ghost parts = list_parts(lv);
                let mut k: usize = 0;
                while k < l.len()
                    invariant
                        k <= l@.len(),
                        lv == Seq::new(l@.len(), |i: int| l@[i]@),
                        parts == list_parts(lv),
                        out@ == seq!['['] + join(parts.take(k as int)),
                    decreases l@.len() - k,
                {
                    if k > 0 {
                        out.append(", ");
                        proof {
                            reveal_strlit(", ");
                        }
                    }
                    proof {
                        assert(decreases_to!(self => l@[k as int]));
                    }
                    let t = l[k].str();
                    out.append(t.as_str());
                    proof {
                        assert(parts.take(k + 1) =~= parts.take(k as int).push(parts[k as int]));
                        lemma_join_push(parts.take(k as int), parts[k as int]);
                    }
                    k = k + 1;
                }
                out.append("]");
                proof {
                    reveal_strlit("]");
                    assert(parts.take(l@.len() as int) =~= parts);
                    if let SLitr::List(x) = self@ {
                        assert(x =~= lv);
                        assert(litr_str(self@) == seq!['['] + join(parts) + seq![']']);
                        assert(out@ =~= seq!['['] + join(parts) + seq![']']);
                    }
                }
            },
            Litr::Obj(o) => {
                out.append("{");
                proof {
                    reveal_strlit("{");
                }
                let ghost ov = Seq::new(o@.len(), |i: int| (o@[i].0@, o@[i].1@));
                let ghost parts = obj_parts(ov);
                let mut k: usize = 0;
                while k < o.len()
                    invariant
                        k <= o@.len(),
                        ov == Seq::new(o@.len(), |i: int| (o@[i].0@, o@[i].1@)),
                        parts == obj_parts(ov),
                        out@ == seq!['{'] + join(parts.take(k as int)),
                    decreases o@.len() - k,
                {
                    if k > 0 {
                        out.append(", ");
                        proof {
                            reveal_strlit(", ");
                        }
                    }
                    let key = utf8_lossy(o[k].0.vec());
                    out.append(key.as_str());
                    out.append(": ");
                    proof {
                        reveal_strlit(": ");
                        assert(decreases_to!(o => o@[k as int]));
                        assert(decreases_to!(o@[k as int] => o@[k as int].1));
                        assert(decreases_to!(self => o@[k as int].1));
                    }
                    let t = o[k].1.str();
                    out.append(t.as_str());
                    proof {
                        assert(parts.take(k + 1) =~= parts.take(k as int).push(parts[k as int]));
                        lemma_join_push(parts.take(k as int), parts[k as int]);
                    }
                    k = k + 1;
                }
                out.append("}");
                proof {
                    reveal_strlit("}");
                    assert(parts.take(o@.len() as int) =~= parts);
                    if let SLitr::Obj(x) = self@ {
                        assert(x =~= ov);
                        assert(litr_str(self@) == seq!['{'] + join(parts) + seq!['}']);
                        assert(out@ =~= seq!['{'] + join(parts) + seq!['}']);
                    }
                }
            },
            Litr::Sym(_) => {
                out.append("iter_end");
                proof {
                    reveal_strlit("iter_end");
                }
            },
        }
        out
    }
}

} // verus!
