//! The scanner: turns Key Script source bytes into statements.
//!
//! Every scanning function has a spec function of the same name prefixed with
//! `spec_`, which says, from the source and a position alone, what is scanned
//! and where scanning stops. The executable functions are proved to compute
//! exactly that.
use vstd::prelude::*;

pub mod expr;
pub mod laws;
pub mod shift;
pub mod stmt;

verus! {

/// Why a source text cannot be scanned.
#[derive(Debug, Clone, Copy, PartialEq, Eq)]
pub enum ScanError {
    /// A statement was expected but this byte was found.
    ExpectedStatement(u8),
    /// A `{` block was not closed.
    UnclosedBlock,
    /// `const(...)` needs a variable name.
    LockNeedsName,
    /// `extern` is not available in this build.
    ExternUnsupported,
    /// `else` must directly follow an `if`.
    ElseWithoutIf,
    /// `async` and `await` are not available.
    AsyncUnsupported,
    /// `catch` must follow a `try`.
    CatchWithoutTry,
    /// `let` needs a name.
    LetNeedsName,
    /// A destructuring `let` misses its closing bracket.
    UnclosedDestructure,
    /// Something must be assigned after `=` or `<`.
    AssignNothing,
    /// A function declaration misses its `)`.
    UnclosedParams,
    /// `class` needs a name.
    ClassNeedsName,
    /// `class` needs a `{` body.
    ClassNeedsBrace,
    /// A class body misses its `}`.
    UnclosedClass,
    /// `mod.` exports exactly one function.
    ExportOneFunction,
    /// `mod.` exports local functions only.
    ExportLocalFunctionOnly,
    /// `mod:` cannot export a class alias.
    ExportUsing,
    /// `mod` needs a `>` after the path.
    ModNeedsGt,
    /// `mod` needs a name for the module.
    ModNeedsName,
    /// In `for v:iter`, `v` must be a name.
    ForNeedsName,
    /// `throw` needs an expression.
    ThrowNeedsExpr,
    /// `catch` needs an error name and a block.
    CatchNeedsBlock,
    /// `match` needs an expression.
    MatchNeedsExpr,
    /// `match` needs `{` after its expression.
    MatchNeedsBrace,
    /// The default arm of a `match` must be a block.
    MatchDefaultNeedsBlock,
    /// A `match` condition may not be empty.
    MatchEmptyCondition,
    /// The conditions of a `match` arm must be followed by a block.
    MatchArmNeedsBlock,
    /// A number does not fit.
    NumberTooLarge,
    /// A string literal is not closed.
    UnclosedString,
    /// A string literal is not UTF-8.
    InvalidUtf8,
    /// An operator has no right operand.
    MissingOperand,
    /// A `(` group is empty.
    EmptyGroup,
    /// A `(` group is not closed.
    UnclosedParen,
    /// A `[` list or index is not closed.
    UnclosedBracket,
    /// A call's argument list is not closed.
    UnclosedCall,
    /// A name was expected (after `.` or `:`).
    ExpectedName,
}

/// What a scanning function gives: the value and the position after it, or the error.
pub type Scanned<T> = Result<(T, int), ScanError>;

/// Pairs an executable scanning result with the scanner's position.
pub open spec fn outcome<T: View>(r: Result<T, ScanError>, p: usize) -> Scanned<T::V> {
    match r {
        Ok(v) => Ok((v@, p as int)),
        Err(e) => Err(e),
    }
}

/// The byte at `p`, or 0 past the end.
pub open spec fn byte_at(s: Seq<u8>, p: int) -> u8 {
    if 0 <= p < s.len() {
        s[p]
    } else {
        0
    }
}

/// How many line feeds stand before position `p`.
pub open spec fn newlines(s: Seq<u8>, p: int) -> nat
    decreases p,
{
    if p <= 0 {
        0
    } else {
        newlines(s, p - 1) + if byte_at(s, p - 1) == 10 {
            1nat
        } else {
            0nat
        }
    }
}

/// The line (counted from 1) on which position `p` stands.
pub open spec fn line_at(s: Seq<u8>, p: int) -> nat {
    1 + newlines(s, p)
}

pub proof fn lemma_newlines_bound(s: Seq<u8>, p: int)
    ensures
        newlines(s, p) <= if p < 0 { 0 } else { p },
    decreases p,
{
    if p > 0 {
        lemma_newlines_bound(s, p - 1);
    }
}

/// Later positions stand on the same line or a later one.
pub proof fn lemma_newlines_mono(s: Seq<u8>, a: int, b: int)
    requires
        a <= b,
    ensures
        newlines(s, a) <= newlines(s, b),
    decreases b - a,
{
    if a < b {
        lemma_newlines_mono(s, a, b - 1);
    }
}

/// Blanks between tokens.
pub open spec fn is_space(b: u8) -> bool {
    b == 32 || b == 9 || b == 10 || b == 13
}

pub open spec fn is_digit(b: u8) -> bool {
    48 <= b <= 57
}

/// Bytes that may start a name: letters, `_` and `@`.
pub open spec fn is_ident_start(b: u8) -> bool {
    (65 <= b <= 90) || (97 <= b <= 122) || b == 95 || b == 64
}

/// Bytes that may continue a name.
pub open spec fn is_ident_char(b: u8) -> bool {
    is_ident_start(b) || is_digit(b)
}

/// The end of a `//` comment whose text starts at `p`: the next line feed, or the end.
pub open spec fn line_comment_end(s: Seq<u8>, p: int) -> int
    decreases s.len() - p,
{
    if p < 0 || p >= s.len() || s[p] == 10 {
        p
    } else {
        line_comment_end(s, p + 1)
    }
}

/// The position after the `*/` that closes a comment whose text starts at `p`,
/// or the end of the source.
pub open spec fn block_comment_end(s: Seq<u8>, p: int) -> int
    decreases s.len() - p,
{
    if p < 0 || p >= s.len() {
        p
    } else if s[p] == 42 && byte_at(s, p + 1) == 47 {
        p + 2
    } else {
        block_comment_end(s, p + 1)
    }
}

pub proof fn lemma_line_comment_end(s: Seq<u8>, p: int)
    ensures
        line_comment_end(s, p) >= p,
        p >= 0 ==> line_comment_end(s, p) <= if p > s.len() { p } else { s.len() as int },
    decreases s.len() - p,
{
    if !(p < 0 || p >= s.len() || s[p] == 10) {
        lemma_line_comment_end(s, p + 1);
    }
}

pub proof fn lemma_block_comment_end(s: Seq<u8>, p: int)
    ensures
        block_comment_end(s, p) >= p,
        0 <= p <= s.len() ==> block_comment_end(s, p) <= s.len(),
    decreases s.len() - p,
{
    if !(p < 0 || p >= s.len()) && !(s[p] == 42 && byte_at(s, p + 1) == 47) {
        lemma_block_comment_end(s, p + 1);
    }
}

/// The position after the blanks and comments that start at `p`.
pub open spec fn spec_spaces(s: Seq<u8>, p: int) -> int
    decreases s.len() - p,
{
    if p < 0 || p >= s.len() {
        p
    } else if is_space(s[p]) {
        spec_spaces(s, p + 1)
    } else if s[p] == 47 && byte_at(s, p + 1) == 47 {
        proof {
            lemma_line_comment_end(s, p + 2);
        }
        spec_spaces(s, line_comment_end(s, p + 2))
    } else if s[p] == 47 && byte_at(s, p + 1) == 42 {
        proof {
            lemma_block_comment_end(s, p + 2);
        }
        spec_spaces(s, block_comment_end(s, p + 2))
    } else {
        p
    }
}

pub proof fn lemma_spaces(s: Seq<u8>, p: int)
    ensures
        spec_spaces(s, p) >= p,
        0 <= p <= s.len() + 1 ==> spec_spaces(s, p) <= s.len() + 1,
        0 <= p <= s.len() ==> spec_spaces(s, p) <= s.len(),
    decreases s.len() - p,
{
    if p < 0 || p >= s.len() {
    } else if is_space(s[p]) {
        lemma_spaces(s, p + 1);
    } else if s[p] == 47 && byte_at(s, p + 1) == 47 {
        lemma_line_comment_end(s, p + 2);
        lemma_spaces(s, line_comment_end(s, p + 2));
    } else if s[p] == 47 && byte_at(s, p + 1) == 42 {
        lemma_block_comment_end(s, p + 2);
        lemma_spaces(s, block_comment_end(s, p + 2));
    }
}

/// Skipping blanks and comments a second time skips nothing more.
pub proof fn lemma_spaces_idempotent(s: Seq<u8>, p: int)
    ensures
        spec_spaces(s, spec_spaces(s, p)) == spec_spaces(s, p),
    decreases s.len() - p,
{
    if p < 0 || p >= s.len() {
    } else if is_space(s[p]) {
        lemma_spaces_idempotent(s, p + 1);
    } else if s[p] == 47 && byte_at(s, p + 1) == 47 {
        lemma_line_comment_end(s, p + 2);
        lemma_spaces_idempotent(s, line_comment_end(s, p + 2));
    } else if s[p] == 47 && byte_at(s, p + 1) == 42 {
        lemma_block_comment_end(s, p + 2);
        lemma_spaces_idempotent(s, block_comment_end(s, p + 2));
    }
}

/// The end of the name characters that start at `p`.
pub open spec fn ident_end(s: Seq<u8>, p: int) -> int
    decreases s.len() - p,
{
    if p < 0 || p >= s.len() || !is_ident_char(s[p]) {
        p
    } else {
        ident_end(s, p + 1)
    }
}

pub proof fn lemma_ident_end(s: Seq<u8>, p: int)
    ensures
        ident_end(s, p) >= p,
        0 <= p <= s.len() ==> ident_end(s, p) <= s.len(),
        forall|k: int| p <= k < ident_end(s, p) ==> is_ident_char(#[trigger] s[k]),
    decreases s.len() - p,
{
    if !(p < 0 || p >= s.len() || !is_ident_char(s[p])) {
        lemma_ident_end(s, p + 1);
    }
}

/// The name that starts at `p`, and the position after it.
pub open spec fn spec_ident(s: Seq<u8>, p: int) -> Option<(Seq<u8>, int)> {
    if 0 <= p < s.len() && is_ident_start(s[p]) {
        let e = ident_end(s, p + 1);
        Some((s.subrange(p, e), e))
    } else {
        None
    }
}

pub proof fn lemma_ident(s: Seq<u8>, p: int)
    ensures
        spec_ident(s, p) matches Some((id, e)) ==> p < e <= s.len() && id.len() > 0,
{
    if 0 <= p < s.len() && is_ident_start(s[p]) {
        lemma_ident_end(s, p + 1);
    }
}

/// A scanner over a source text: the position it has reached and the line
/// that position stands on.
pub struct Scanner<'a> {
    pub src: &'a [u8],
    pub i: usize,
    pub line: usize,
}

impl<'a> Scanner<'a> {
    /// The position is at most one past the end, and `line` is the line it stands on.
    pub open spec fn wf(&self) -> bool {
        &&& self.src@.len() < usize::MAX
        &&& self.i <= self.src@.len() + 1
        &&& self.line == line_at(self.src@, self.i as int)
    }

    /// A scanner at the start of `src`.
    pub fn new(src: &'a [u8]) -> (r: Self)
        requires
            src@.len() < usize::MAX,
        ensures
            r.wf(),
            r.src@ == src@,
            r.i == 0,
    {
        Scanner { src, i: 0, line: 1 }
    }

    /// The current position.
    pub fn i(&self) -> (r: usize)
        ensures
            r == self.i,
    {
        self.i
    }

    /// The byte at the current position, or 0 at the end.
    pub fn cur(&self) -> (r: u8)
        ensures
            r == byte_at(self.src@, self.i as int),
    {
        if self.i < self.src.len() {
            self.src[self.i]
        } else {
            0
        }
    }

    /// The byte at position `q`, or 0 past the end.
    pub fn byte(&self, q: usize) -> (r: u8)
        ensures
            r == byte_at(self.src@, q as int),
    {
        if q < self.src.len() {
            self.src[q]
        } else {
            0
        }
    }

    /// Whether `lit` is written at position `t`.
    pub fn src_has(&self, t: usize, lit: &[u8]) -> (r: bool)
        ensures
            r == (t + lit@.len() <= self.src@.len() && self.src@.subrange(t as int, t + lit@.len())
                == lit@),
    {
        let len = self.src.len();
        if t > len || lit.len() > len - t {
            return false;
        }
        let mut k: usize = 0;
        while k < lit.len()
            invariant
                t + lit@.len() <= self.src@.len(),
                len == self.src@.len(),
                k <= lit@.len(),
                forall|j: int| 0 <= j < k ==> self.src@[t + j] == lit@[j],
            decreases lit@.len() - k,
        {
            if self.src[t + k] != lit[k] {
                assert(self.src@.subrange(t as int, t + lit@.len())[k as int] != lit@[k as int]);
                return false;
            }
            k = k + 1;
        }
        assert(self.src@.subrange(t as int, t + lit@.len()) =~= lit@);
        true
    }

    /// Moves one byte on (also past the end, by one).
    pub fn next(&mut self)
        requires
            old(self).wf(),
            old(self).i <= old(self).src@.len(),
        ensures
            final(self).wf(),
            final(self).src == old(self).src,
            final(self).i == old(self).i + 1,
    {
        proof {
            lemma_newlines_bound(self.src@, self.i as int + 1);
        }
        if self.i < self.src.len() && self.src[self.i] == 10 {
            self.line = self.line + 1;
        }
        self.i = self.i + 1;
    }

    /// Moves on to position `j`.
    pub fn set_i(&mut self, j: usize)
        requires
            old(self).wf(),
            old(self).i <= j <= old(self).src@.len() + 1,
        ensures
            final(self).wf(),
            final(self).src == old(self).src,
            final(self).i == j,
        decreases j - old(self).i,
    {
        while self.i < j
            invariant
                self.wf(),
                self.src == old(self).src,
                self.i <= j <= self.src@.len() + 1,
            decreases j - self.i,
        {
            self.next();
        }
    }

    /// Skips blanks and comments.
    pub fn spaces(&mut self)
        requires
            old(self).wf(),
        ensures
            final(self).wf(),
            final(self).src == old(self).src,
            final(self).i == spec_spaces(old(self).src@, old(self).i as int),
    {
        let j = spaces_from(self.src, self.i);
        proof {
            lemma_spaces(self.src@, self.i as int);
        }
        self.set_i(j);
    }

    /// Scans a name, if one starts here.
    pub fn ident(&mut self) -> (r: Option<crate::intern::Interned>)
        requires
            old(self).wf(),
        ensures
            final(self).wf(),
            final(self).src == old(self).src,
            match spec_ident(old(self).src@, old(self).i as int) {
                Some((id, e)) => r matches Some(n) && n@ == id && final(self).i == e,
                None => r is None && final(self).i == old(self).i,
            },
    {
        let ghost s = self.src@;
        let ghost p0 = self.i as int;
        let len = self.src.len();
        if self.i >= len || !is_ident_start_byte(self.src[self.i]) {
            return None;
        }
        let mut b: Vec<u8> = Vec::new();
        b.push(self.src[self.i]);
        self.next();
        while self.i < len && is_ident_char_byte(self.src[self.i])
            invariant
                self.wf(),
                self.src == old(self).src,
                s == self.src@,
                len == s.len(),
                0 <= p0 < self.i <= len,
                b@ == s.subrange(p0, self.i as int),
                ident_end(s, self.i as int) == ident_end(s, p0 + 1),
            decreases len - self.i,
        {
            let ghost old_b = b@;
            let ghost k = self.i as int;
            b.push(self.src[self.i]);
            self.next();
            assert(b@ == old_b.push(s[k]));
            assert(s.subrange(p0, k + 1) =~= s.subrange(p0, k).push(s[k]));
        }
        Some(crate::intern::Interned { b })
    }
}

/// The position after the blanks and comments that start at `p`.
pub fn spaces_from(src: &[u8], p: usize) -> (r: usize)
    requires
        src@.len() < usize::MAX,
        p <= src@.len() + 1,
    ensures
        r == spec_spaces(src@, p as int),
{
    let ghost s = src@;
    let len = src.len();
    let mut i = p;
    loop
        invariant
            s == src@,
            len == s.len(),
            len < usize::MAX,
            p <= i <= len + 1,
            spec_spaces(s, i as int) == spec_spaces(s, p as int),
        decreases len + 1 - i,
    {
        if i >= len {
            return i;
        }
        let ghost i_start = i;
        let b = src[i];
        let b1: u8 = if i + 1 < len { src[i + 1] } else { 0 };
        if b == 32 || b == 9 || b == 10 || b == 13 {
            i = i + 1;
        } else if b == 47 && b1 == 47 {
            i = i + 2;
            while i < len && src[i] != 10
                invariant
                    s == src@,
                    len == s.len(),
                    p <= i_start < i <= len,
                    spec_spaces(s, line_comment_end(s, i as int)) == spec_spaces(s, p as int),
                decreases len - i,
            {
                i = i + 1;
            }
        } else if b == 47 && b1 == 42 {
            i = i + 2;
            loop
                invariant_except_break
                    s == src@,
                    len == s.len(),
                    p <= i_start < i <= len,
                    spec_spaces(s, block_comment_end(s, i as int)) == spec_spaces(s, p as int),
                ensures
                    s == src@,
                    len == s.len(),
                    p <= i_start < i <= len,
                    spec_spaces(s, i as int) == spec_spaces(s, p as int),
                decreases len - i,
            {
                if i >= len {
                    break;
                }
                if src[i] == 42 && i + 1 < len && src[i + 1] == 47 {
                    i = i + 2;
                    break;
                }
                i = i + 1;
            }
        } else {
            return i;
        }
    }
}

pub fn is_ident_start_byte(b: u8) -> (r: bool)
    ensures
        r == is_ident_start(b),
{
    (65 <= b && b <= 90) || (97 <= b && b <= 122) || b == 95 || b == 64
}

pub fn is_ident_char_byte(b: u8) -> (r: bool)
    ensures
        r == is_ident_char(b),
{
    is_ident_start_byte(b) || (48 <= b && b <= 57)
}

} // verus!
