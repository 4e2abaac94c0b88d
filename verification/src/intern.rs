//! Names used by the scanner and the runtime.
use vstd::prelude::*;

verus! {

/// A name (identifier, property, class name): the bytes it is spelled with.
///
/// Two names are the same name exactly when their bytes are the same.
#[derive(Debug)]
pub struct Interned {
    pub b: Vec<u8>,
}

impl View for Interned {
    type V = Seq<u8>;

    open spec fn view(&self) -> Seq<u8> {
        self.b@
    }
}

impl Clone for Interned {
    fn clone(&self) -> (r: Self)
        ensures
            r@ == self@,
    {
        Interned { b: copy_bytes(&self.b) }
    }
}

/// Copies a byte vector.
pub fn copy_bytes(v: &Vec<u8>) -> (r: Vec<u8>)
    ensures
        r@ == v@,
{
    let mut r: Vec<u8> = Vec::new();
    let mut k: usize = 0;
    while k < v.len()
        invariant
            k <= v.len(),
            r@ == v@.take(k as int),
        decreases v.len() - k,
    {
        r.push(v[k]);
        k = k + 1;
        assert(r@ =~= v@.take(k as int));
    }
    assert(v@.take(k as int) =~= v@);
    r
}

/// Makes the name spelled by `s`.
pub fn intern(s: &[u8]) -> (r: Interned)
    ensures
        r@ == s@,
{
    let mut b: Vec<u8> = Vec::new();
    let mut k: usize = 0;
    while k < s.len()
        invariant
            k <= s@.len(),
            b@ == s@.take(k as int),
        decreases s@.len() - k,
    {
        b.push(s[k]);
        k = k + 1;
        assert(b@ =~= s@.take(k as int));
    }
    assert(s@.take(k as int) =~= s@);
    Interned { b }
}

impl Interned {
    /// The bytes of the name.
    pub fn vec(&self) -> (r: &[u8])
        ensures
            r@ == self@,
    {
        self.b.as_slice()
    }

    /// Whether this name is spelled exactly `lit`.
    pub fn is(&self, lit: &[u8]) -> (r: bool)
        ensures
            r == (self@ == lit@),
    {
        bytes_eq(self.b.as_slice(), lit)
    }
}

/// Whether two byte strings are equal.
pub fn bytes_eq(a: &[u8], b: &[u8]) -> (r: bool)
    ensures
        r == (a@ == b@),
{
    if a.len() != b.len() {
        return false;
    }
    let mut k: usize = 0;
    while k < a.len()
        invariant
            a@.len() == b@.len(),
            k <= a@.len(),
            forall|j: int| 0 <= j < k ==> a@[j] == b@[j],
        decreases a@.len() - k,
    {
        if a[k] != b[k] {
            return false;
        }
        k = k + 1;
    }
    assert(a@ =~= b@);
    true
}

} // verus!
