//! Iteration over script values, as `for v:iterable` walks them.
use vstd::prelude::*;
use vstd::string::StrSliceExecFns;
use crate::primitive::litr::{Litr, SLitr, Symbol, utf8_lossy, lossy_text};

verus! {

/// The items that iterating a value yields, or `None` for a value that cannot
/// be iterated (`uninit`, a boolean, a function, a symbol).
///
/// A string yields its characters, each as a one-character string; a buffer its
/// bytes as unsigned integers; an unsigned `n` the numbers `0..n`; a signed `n`
/// the numbers `0..n` (none when `n` is not positive); a list its items; an
/// object its keys, as strings.
pub open spec fn iter_items(v: SLitr) -> Option<Seq<SLitr>> {
    match v {
        SLitr::Str(s) => Some(Seq::new(s.len(), |i: int| SLitr::Str(seq![s[i]]))),
        SLitr::Buf(b) => Some(Seq::new(b.len(), |i: int| SLitr::Uint(b[i] as usize))),
        SLitr::Uint(n) => Some(Seq::new(n as nat, |i: int| SLitr::Uint(i as usize))),
        SLitr::Int(n) => Some(
            if n > 0 {
                Seq::new(n as nat, |i: int| SLitr::Int(i as isize))
            } else {
                Seq::empty()
            },
        ),
        SLitr::List(l) => Some(l),
        SLitr::Obj(o) => Some(Seq::new(o.len(), |i: int| SLitr::Str(lossy_text(o[i].0)))),
        _ => None,
    }
}

/// Whether a value can be iterated.
pub open spec fn iterable(v: SLitr) -> bool {
    iter_items(v) is Some
}

/// An iterator over the items of a value (see [`iter_items`]).
pub struct LitrIterator<'a> {
    v: &'a Litr,
    pos: usize,
    end: usize,
}

impl<'a> LitrIterator<'a> {
    /// All the items of the iterated value.
    pub closed spec fn items(&self) -> Seq<SLitr> {
        iter_items(self.v@).unwrap()
    }

    /// The items not yet handed out.
    pub closed spec fn remaining(&self) -> Seq<SLitr> {
        self.items().skip(self.pos as int)
    }

    /// The iterator's invariant.
    pub closed spec fn wf(&self) -> bool {
        &&& iterable(self.v@)
        &&& self.end == self.items().len()
        &&& self.pos <= self.end
    }

    /// An iterator over the items of `v`.
    pub fn new(v: &'a Litr) -> (r: Self)
        requires
            iterable(v@),
        ensures
            r.wf(),
            r.items() == iter_items(v@).unwrap(),
            r.remaining() == iter_items(v@).unwrap(),
    {
        let end: usize = match v {
            Litr::Str(s) => s.as_str().unicode_len(),
            Litr::Buf(b) => b.len(),
            Litr::Uint(n) => *n,
            Litr::Int(n) => if *n > 0 {
                *n as usize
            } else {
                0
            },
            Litr::List(l) => l.len(),
            Litr::Obj(o) => o.len(),
            _ => {
                proof {
                    assert(false);
                }
                0
            },
        };
        let r = LitrIterator { v, pos: 0, end };
        assert(r.remaining() =~= r.items());
        r
    }

    /// The next item, or `None` when all have been handed out.
    pub fn next(&mut self) -> (r: Option<Litr>)
        requires
            old(self).wf(),
        ensures
            final(self).wf(),
            final(self).items() == old(self).items(),
            old(self).remaining().len() == 0 ==> r is None && final(self).remaining() == old(
                self,
            ).remaining(),
            old(self).remaining().len() > 0 ==> r is Some && r->Some_0@ == old(self).remaining()[0]
                && final(self).remaining() == old(self).remaining().drop_first(),
    {
        if self.pos >= self.end {
            return None;
        }
        let k = self.pos;
        let item = match self.v {
            Litr::Str(s) => {
                let c = String::from_str(s.as_str().substring_char(k, k + 1));
                assert(c@ =~= seq![s@[k as int]]);
                Litr::Str(c)
            },
            Litr::Buf(b) => Litr::Uint(b[k] as usize),
            Litr::Uint(_) => Litr::Uint(k),
            Litr::Int(_) => Litr::Int(k as isize),
            Litr::List(l) => l[k].copy(),
            Litr::Obj(o) => Litr::Str(utf8_lossy(o[k].0.vec())),
            _ => {
                proof {
                    assert(false);
                }
                Litr::Uninit
            },
        };
        self.pos = k + 1;
        assert(self.remaining() =~= old(self).remaining().drop_first());
        Some(item)
    }
}

} // verus!

verus! {

/// What an iterator over a class instance hands out for the value `r` that the
/// instance's `@next` method returned: nothing once it returns the `iter_end`
/// symbol, the value itself otherwise.
pub fn instance_item(r: Litr) -> (o: Option<Litr>)
    ensures
        r@ is Sym ==> o is None,
        !(r@ is Sym) ==> o == Some(r),
{
    match r {
        Litr::Sym(Symbol::IterEnd) => None,
        other => Some(other),
    }
}

} // verus!
