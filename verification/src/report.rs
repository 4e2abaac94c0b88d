//! How a script error is reported to the user.
use vstd::prelude::*;
use crate::primitive::litr::{dec, push_dec};

verus! {

/// The closing line of every error report.
pub open spec fn report_footer() -> Seq<char> {
    seq!['\n', '\n', '>', ' ', 'K', 'e', 'y', ' ', 'S', 'c', 'r', 'i', 'p', 't', ' ', 'C', 'o', 'p', 'y', 'L', 'e', 'f', 't', ' ', 'b', 'y', ' ', 'S', 'u', 'b', 'k', 'e', 'y']
}

/// The report of an error: its message, then the place (a file, or the kind of
/// input) and the line on which it happened, then the footer.
pub open spec fn report_text(message: Seq<char>, place: Seq<char>, line: nat) -> Seq<char> {
    seq!['\n', '>', ' '] + message + seq!['\n', ' ', ' '] + place + seq![':', '第'] + dec(line) + seq!['行']
        + report_footer()
}

/// The report of the error `message` raised at line `line` of `place`.
pub fn error_report(message: &str, place: &str, line: usize) -> (r: String)
    ensures
        r@ == report_text(message@, place@, line as nat),
{
    let mut r = String::new();
    r.append("\n> ");
    r.append(message);
    r.append("\n  ");
    r.append(place);
    r.append(":第");
    push_dec(&mut r, line);
    r.append("行");
    r.append("\n\n> Key Script CopyLeft by Subkey");
    proof {
        reveal_strlit("\n> ");
        reveal_strlit("\n  ");
        reveal_strlit(":第");
        reveal_strlit("行");
        reveal_strlit("\n\n> Key Script CopyLeft by Subkey");
    }
    assert(r@ =~= report_text(message@, place@, line as nat));
    r
}

} // verus!

verus! {

/// The place reported for an error inside code that `run_ks` runs: the
/// calling place and line, marked as `run_ks`.
pub open spec fn run_ks_place_text(place: Seq<char>, line: nat) -> Seq<char> {
    seq!['r', 'u', 'n', '_', 'k', 's', ':', ' '] + place + seq!['('] + dec(line) + seq![')']
}

/// The place of errors raised by code that `run_ks` runs from line `line` of `place`.
pub fn run_ks_place(place: &str, line: usize) -> (r: String)
    ensures
        r@ == run_ks_place_text(place@, line as nat),
{
    let mut r = String::new();
    r.append("run_ks: ");
    r.append(place);
    r.append("(");
    push_dec(&mut r, line);
    r.append(")");
    proof {
        reveal_strlit("run_ks: ");
        reveal_strlit("(");
        reveal_strlit(")");
    }
    assert(r@ =~= run_ks_place_text(place@, line as nat));
    r
}

} // verus!
