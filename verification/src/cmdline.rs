//! Sanitization of a process's command line.
//!
//! The kernel exposes the command line as NUL-separated arguments with one
//! trailing NUL.  Exactly one trailing NUL is stripped (it ends the record),
//! and every remaining NUL becomes a single space, giving one display line.

use vstd::prelude::*;
use vstd::string::StrSliceExecFns;

verus! {

/// A NUL becomes a space; every other character stays.
pub open spec fn sanitize_char(c: char) -> char {
    if c == '\0' {
        ' '
    } else {
        c
    }
}

/// The sanitized command line: one trailing NUL stripped, the remaining NULs
/// replaced by spaces.
pub open spec fn spec_chop_null(s: Seq<char>) -> Seq<char> {
    let kept = if s.len() > 0 && s.last() == '\0' {
        s.drop_last()
    } else {
        s
    };
    kept.map_values(|c: char| sanitize_char(c))
}

/// Relies on `String::push`: it appends exactly the one character.
#[verifier::external_body]
fn push_char(s: &mut String, c: char)
    ensures
        final(s)@ == old(s)@.push(c),
{
    s.push(c);
}

/// Turns raw command-line text into its display form: strips one trailing
/// NUL if present and replaces every remaining NUL with a space.
pub fn chop_null(s: String) -> (r: String)
    ensures
        r@ == spec_chop_null(s@),
{
    let n = s.as_str().unicode_len();
    let keep: usize = if n > 0 && s.as_str().get_char(n - 1) == '\0' {
        n - 1
    } else {
        n
    };
    let ghost kept = if s@.len() > 0 && s@.last() == '\0' {
        s@.drop_last()
    } else {
        s@
    };
    proof {
        assert(kept =~= s@.take(keep as int));
    }
    let mut out = String::new();
    let mut i: usize = 0;
    while i < keep
        invariant
            0 <= i <= keep <= n,
            n == s@.len(),
            kept == s@.take(keep as int),
            out@ == kept.map_values(|c: char| sanitize_char(c)).take(i as int),
        decreases keep - i,
    {
        let c = s.as_str().get_char(i);
        if c == '\0' {
            push_char(&mut out, ' ');
        } else {
            push_char(&mut out, c);
        }
        proof {
            let mapped = kept.map_values(|c: char| sanitize_char(c));
            assert(kept[i as int] == s@[i as int]);
            assert(mapped[i as int] == sanitize_char(s@[i as int]));
            assert(out@ =~= mapped.take(i + 1));
        }
        i += 1;
    }
    proof {
        let mapped = kept.map_values(|c: char| sanitize_char(c));
        assert(out@ =~= mapped);
    }
    out
}

} // verus!
