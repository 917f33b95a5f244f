//! Reading one memory-accounting field out of a kernel rollup file.
//!
//! The file is line-oriented raw bytes.  The first line whose prefix equals
//! the normalized field specifier is the match; after the label, leading
//! spaces are skipped and the following run of non-space bytes is the numeric
//! literal, a kilobyte count that is scaled to bytes.  A missing field means
//! the absent value 0; a literal that is not a plain integer, or one whose
//! byte count does not fit the usage type, is malformed kernel output.

use vstd::prelude::*;

verus! {

/// Why a present field's value could not be used.
#[derive(Debug, PartialEq, Eq, Structural)]
pub enum FieldError {
    /// The numeric literal after the label is not an integer the usage type
    /// can hold.
    Malformed,
}

/// The field specifier with its trailing separator: a `':'` is appended
/// unless one already ends the specifier.
pub open spec fn spec_normalize_field(f: Seq<u8>) -> Seq<u8> {
    if f.len() > 0 && f.last() == 58 {
        f
    } else {
        f.push(58)
    }
}

/// Appends the `':'` separator to the specifier unless it already ends
/// with one.
pub fn normalize_field(field: Vec<u8>) -> (r: Vec<u8>)
    ensures
        r@ == spec_normalize_field(field@),
{
    let n = field.len();
    let mut f = field;
    if n == 0 || f[n - 1] != 58 {
        f.push(58);
    }
    f
}

/// A specifier without the trailing separator and the same one with it
/// normalize to the same specifier, so they select the same field.
pub proof fn lemma_field_normalization(f: Seq<u8>)
    requires
        f.len() == 0 || f.last() != 58,
    ensures
        spec_normalize_field(f) == spec_normalize_field(f.push(58)),
{
    assert(f.push(58).last() == 58);
}

/// A lower-case ASCII letter becomes its upper-case form; every other byte
/// stays.
pub open spec fn upper_byte(b: u8) -> u8 {
    if 97 <= b <= 122 {
        (b - 32) as u8
    } else {
        b
    }
}

/// The specifier bytes after the leading run of separators.
pub open spec fn drop_leading_colons(s: Seq<u8>) -> Seq<u8>
    decreases s.len(),
{
    if s.len() > 0 && s[0] == 58 {
        drop_leading_colons(s.drop_first())
    } else {
        s
    }
}

/// The specifier bytes before the trailing run of separators.
pub open spec fn drop_trailing_colons(s: Seq<u8>) -> Seq<u8>
    decreases s.len(),
{
    if s.len() > 0 && s.last() == 58 {
        drop_trailing_colons(s.drop_last())
    } else {
        s
    }
}

/// The header form of the field specifier: the separators at either end
/// dropped, ASCII letters upper-cased.
pub open spec fn spec_display_name(f: Seq<u8>) -> Seq<u8> {
    drop_trailing_colons(drop_leading_colons(f)).map_values(|b: u8| upper_byte(b))
}

/// The run of separators found by scanning from the front is the run
/// `drop_leading_colons` removes.
proof fn lemma_drop_leading_colons_is(s: Seq<u8>, n: int)
    requires
        0 <= n <= s.len(),
        forall|k: int| 0 <= k < n ==> s[k] == 58,
        n < s.len() ==> s[n] != 58,
    ensures
        drop_leading_colons(s) == s.skip(n),
    decreases n,
{
    if n == 0 {
        assert(s.skip(0) =~= s);
    } else {
        assert forall|k: int| 0 <= k < n - 1 implies s.drop_first()[k] == 58 by {
            assert(s.drop_first()[k] == s[k + 1]);
        }
        assert(n - 1 < s.drop_first().len() ==> s.drop_first()[n - 1] != 58);
        lemma_drop_leading_colons_is(s.drop_first(), n - 1);
        assert(s.drop_first().skip(n - 1) =~= s.skip(n));
    }
}

/// The run of separators found by scanning from the back is the run
/// `drop_trailing_colons` removes.
proof fn lemma_drop_trailing_colons_is(s: Seq<u8>, n: int)
    requires
        0 <= n <= s.len(),
        forall|k: int| n <= k < s.len() ==> s[k] == 58,
        n > 0 ==> s[n - 1] != 58,
    ensures
        drop_trailing_colons(s) == s.take(n),
    decreases s.len() - n,
{
    if n == s.len() {
        assert(s.take(n) =~= s);
    } else {
        assert(s.last() == 58);
        assert forall|k: int| n <= k < s.drop_last().len() implies s.drop_last()[k] == 58 by {
            assert(s.drop_last()[k] == s[k]);
        }
        lemma_drop_trailing_colons_is(s.drop_last(), n);
        assert(s.drop_last().take(n) =~= s.take(n));
    }
}

/// The field name as the report header shows it: the separators at either
/// end dropped and ASCII letters upper-cased.
#[verifier::loop_isolation(false)]
pub fn field_display_name(field: &Vec<u8>) -> (r: Vec<u8>)
    ensures
        r@ == spec_display_name(field@),
{
    let n = field.len();
    let mut lo: usize = 0;
    while lo < n && field[lo] == 58
        invariant
            0 <= lo <= n,
            forall|k: int| 0 <= k < lo ==> field@[k] == 58,
        decreases n - lo,
    {
        lo += 1;
    }
    let mut hi: usize = n;
    while hi > lo && field[hi - 1] == 58
        invariant
            lo <= hi <= n,
            forall|k: int| hi <= k < n ==> field@[k] == 58,
        decreases hi,
    {
        hi -= 1;
    }
    let ghost mid = field@.skip(lo as int);
    let ghost core = field@.subrange(lo as int, hi as int).map_values(|b: u8| upper_byte(b));
    proof {
        lemma_drop_leading_colons_is(field@, lo as int);
        assert forall|k: int| hi - lo <= k < mid.len() implies mid[k] == 58 by {
            assert(mid[k] == field@[lo + k]);
        }
        assert(hi - lo > 0 ==> mid[hi - lo - 1] == field@[hi - 1]);
        lemma_drop_trailing_colons_is(mid, hi - lo);
        assert(mid.take(hi - lo) =~= field@.subrange(lo as int, hi as int));
        assert(core == spec_display_name(field@));
    }
    let mut out: Vec<u8> = Vec::new();
    let mut i: usize = lo;
    while i < hi
        invariant
            lo <= i <= hi,
            out@ == core.take(i - lo),
        decreases hi - i,
    {
        let b = field[i];
        let u: u8 = if b >= 97 && b <= 122 {
            b - 32
        } else {
            b
        };
        out.push(u);
        proof {
            assert(core[i - lo] == upper_byte(field@[i as int]));
            assert(out@ =~= core.take(i - lo + 1));
        }
        i += 1;
    }
    proof {
        assert(out@ =~= core);
    }
    out
}

/// Index of the first newline byte in `s`, or `s.len()` if there is none.
pub open spec fn first_nl(s: Seq<u8>) -> int
    decreases s.len(),
{
    if s.len() == 0 {
        0
    } else if s[0] == 10 {
        0
    } else {
        1 + first_nl(s.drop_first())
    }
}

/// What `first_nl` finds: a position within bounds, holding a newline when
/// inside, with no newline before it.
pub proof fn lemma_first_nl(s: Seq<u8>)
    ensures
        0 <= first_nl(s) <= s.len(),
        first_nl(s) < s.len() ==> s[first_nl(s)] == 10,
        forall|k: int| 0 <= k < first_nl(s) ==> s[k] != 10,
    decreases s.len(),
{
    if s.len() == 0 {
    } else if s[0] == 10 {
    } else {
        lemma_first_nl(s.drop_first());
        assert forall|k: int| 0 <= k < first_nl(s) implies s[k] != 10 by {
            if k >= 1 {
                assert(s.drop_first()[k - 1] == s[k]);
            }
        }
    }
}

/// A position with no newline before it and a newline (or the end) at it is
/// the one `first_nl` finds.
proof fn lemma_first_nl_is(s: Seq<u8>, n: int)
    requires
        0 <= n <= s.len(),
        forall|k: int| 0 <= k < n ==> s[k] != 10,
        n < s.len() ==> s[n] == 10,
    ensures
        first_nl(s) == n,
    decreases s.len(),
{
    if s.len() == 0 {
    } else if s[0] == 10 {
        assert(n == 0);
    } else {
        assert(n >= 1);
        assert forall|k: int| 0 <= k < n - 1 implies s.drop_first()[k] != 10 by {
            assert(s.drop_first()[k] == s[k + 1]);
        }
        assert(n - 1 < s.drop_first().len() ==> s.drop_first()[n - 1] == 10);
        lemma_first_nl_is(s.drop_first(), n - 1);
    }
}

/// Whether the line starts with the field specifier.
pub open spec fn line_matches(line: Seq<u8>, field: Seq<u8>) -> bool {
    line.len() >= field.len() && line.take(field.len() as int) == field
}

/// The bytes after the leading run of spaces.
pub open spec fn skip_spaces(s: Seq<u8>) -> Seq<u8>
    decreases s.len(),
{
    if s.len() > 0 && s[0] == 32 {
        skip_spaces(s.drop_first())
    } else {
        s
    }
}

/// The leading run of non-space bytes.
pub open spec fn take_token(s: Seq<u8>) -> Seq<u8>
    decreases s.len(),
{
    if s.len() > 0 && s[0] != 32 {
        seq![s[0]] + take_token(s.drop_first())
    } else {
        Seq::empty()
    }
}

/// The numeric literal of a matched line: after the label, spaces are
/// skipped and the following run of non-space bytes is taken.
pub open spec fn line_token(line: Seq<u8>, field: Seq<u8>) -> Seq<u8> {
    take_token(skip_spaces(line.skip(field.len() as int)))
}

/// The numeric literal of the first line of `content` whose prefix is
/// `field`, or `None` when no line matches.
pub open spec fn find_field(content: Seq<u8>, field: Seq<u8>) -> Option<Seq<u8>>
    decreases content.len(),
{
    let i = first_nl(content);
    if i >= content.len() {
        if line_matches(content, field) {
            Some(line_token(content, field))
        } else {
            None
        }
    } else {
        let line = content.take(i);
        if line_matches(line, field) {
            Some(line_token(line, field))
        } else {
            proof {
                lemma_first_nl(content);
            }
            find_field(content.skip(i + 1), field)
        }
    }
}

/// Whether the byte is an ASCII decimal digit.
pub open spec fn is_digit(b: u8) -> bool {
    48 <= b <= 57
}

/// A non-empty run of ASCII decimal digits.
pub open spec fn all_digits(s: Seq<u8>) -> bool {
    s.len() > 0 && forall|i: int| 0 <= i < s.len() ==> is_digit(s[i])
}

/// The value of a digit run, most significant first.
pub open spec fn digits_val(s: Seq<u8>) -> int
    decreases s.len(),
{
    if s.len() == 0 {
        0
    } else {
        digits_val(s.drop_last()) * 10 + (s.last() - 48)
    }
}

/// The integer a token denotes: an optional sign, then only digits; `None`
/// for anything else.
pub open spec fn parse_int(s: Seq<u8>) -> Option<int> {
    if s.len() > 0 && (s[0] == 43 || s[0] == 45) {
        if all_digits(s.drop_first()) {
            if s[0] == 45 {
                Some(-digits_val(s.drop_first()))
            } else {
                Some(digits_val(s.drop_first()))
            }
        } else {
            None
        }
    } else {
        if all_digits(s) {
            Some(digits_val(s))
        } else {
            None
        }
    }
}

/// The kilobyte token scaled to bytes, when it is an integer and the byte
/// count fits the usage type; malformed otherwise.
pub open spec fn scale_parsed(p: Option<int>) -> Result<i64, FieldError> {
    match p {
        Option::None => Result::Err(FieldError::Malformed),
        Option::Some(v) => if i64::MIN <= v * 1024 <= i64::MAX {
            Result::Ok((v * 1024) as i64)
        } else {
            Result::Err(FieldError::Malformed)
        },
    }
}

/// What reading the field from the file content yields: 0 when no line
/// matches, else the first matched line's literal scaled to bytes, or the
/// malformed error.
pub open spec fn spec_read_field(content: Seq<u8>, field: Seq<u8>) -> Result<i64, FieldError> {
    match find_field(content, field) {
        Option::None => Result::Ok(0),
        Option::Some(tok) => scale_parsed(parse_int(tok)),
    }
}

/// A digit run has a non-negative value.
pub(crate) proof fn lemma_digits_val_nonneg(s: Seq<u8>)
    requires
        forall|i: int| 0 <= i < s.len() ==> is_digit(s[i]),
    ensures
        digits_val(s) >= 0,
    decreases s.len(),
{
    if s.len() > 0 {
        lemma_digits_val_nonneg(s.drop_last());
    }
}

/// The run of spaces found by scanning is the run `skip_spaces` removes.
proof fn lemma_skip_spaces_is(s: Seq<u8>, n: int)
    requires
        0 <= n <= s.len(),
        forall|k: int| 0 <= k < n ==> s[k] == 32,
        n < s.len() ==> s[n] != 32,
    ensures
        skip_spaces(s) == s.skip(n),
    decreases n,
{
    if n == 0 {
        assert(s.skip(0) =~= s);
    } else {
        assert forall|k: int| 0 <= k < n - 1 implies s.drop_first()[k] == 32 by {
            assert(s.drop_first()[k] == s[k + 1]);
        }
        assert(n - 1 < s.drop_first().len() ==> s.drop_first()[n - 1] != 32);
        lemma_skip_spaces_is(s.drop_first(), n - 1);
        assert(s.drop_first().skip(n - 1) =~= s.skip(n));
    }
}

/// The run of non-space bytes found by scanning is the token `take_token`
/// takes.
proof fn lemma_take_token_is(s: Seq<u8>, n: int)
    requires
        0 <= n <= s.len(),
        forall|k: int| 0 <= k < n ==> s[k] != 32,
        n < s.len() ==> s[n] == 32,
    ensures
        take_token(s) == s.take(n),
    decreases n,
{
    if n == 0 {
        assert(take_token(s) =~= s.take(0));
    } else {
        assert forall|k: int| 0 <= k < n - 1 implies s.drop_first()[k] != 32 by {
            assert(s.drop_first()[k] == s[k + 1]);
        }
        assert(n - 1 < s.drop_first().len() ==> s.drop_first()[n - 1] == 32);
        lemma_take_token_is(s.drop_first(), n - 1);
        assert(s.drop_first().take(n - 1) =~= s.skip(1).take(n - 1));
        assert(seq![s[0]] + s.skip(1).take(n - 1) =~= s.take(n));
    }
}

/// Whether `field` stands at position `start` of `content`.
fn matches_at(content: &Vec<u8>, start: usize, field: &Vec<u8>) -> (r: bool)
    requires
        start + field@.len() <= content@.len(),
    ensures
        r == (content@.subrange(start as int, start + field@.len()) == field@),
{
    let clen = content.len();
    let flen = field.len();
    let mut t: usize = 0;
    while t < flen
        invariant
            0 <= t <= flen,
            flen == field@.len(),
            clen == content@.len(),
            start + flen <= clen,
            forall|k: int| 0 <= k < t ==> content@[start + k] == field@[k],
        decreases flen - t,
    {
        if content[start + t] != field[t] {
            proof {
                assert(content@.subrange(start as int, start + field@.len())[t as int]
                    != field@[t as int]);
            }
            return false;
        }
        t += 1;
    }
    proof {
        assert(content@.subrange(start as int, start + field@.len()) =~= field@);
    }
    true
}

/// Scales a parsed kilobyte token to bytes: the token is the byte range
/// `from..to` of `content`.
#[verifier::loop_isolation(false)]
fn parse_value(content: &Vec<u8>, from: usize, to: usize) -> (r: Result<i64, FieldError>)
    requires
        from <= to <= content@.len(),
    ensures
        r == scale_parsed(parse_int(content@.subrange(from as int, to as int))),
{
    let ghost tok = content@.subrange(from as int, to as int);
    if from == to {
        return Result::Err(FieldError::Malformed);
    }
    let b0 = content[from];
    let neg: bool = b0 == 45;
    let dstart: usize = if b0 == 45 || b0 == 43 {
        from + 1
    } else {
        from
    };
    let ghost digits = content@.subrange(dstart as int, to as int);
    proof {
        if b0 == 45 || b0 == 43 {
            assert(tok.drop_first() =~= digits);
        } else {
            assert(tok =~= digits);
        }
    }
    if dstart == to {
        return Result::Err(FieldError::Malformed);
    }
    let mut i: usize = dstart;
    let mut m: u64 = 0;
    let mut ovf: bool = false;
    while i < to
        invariant
            dstart <= i <= to <= content@.len(),
            digits == content@.subrange(dstart as int, to as int),
            forall|k: int| dstart <= k < i ==> is_digit(content@[k]),
            !ovf ==> m == digits_val(content@.subrange(dstart as int, i as int)) && m
                <= 9007199254740992,
            ovf ==> digits_val(content@.subrange(dstart as int, i as int)) > 9007199254740992,
        decreases to - i,
    {
        let b = content[i];
        if b < 48 || b > 57 {
            proof {
                assert(!is_digit(digits[i - dstart]));
                assert(!all_digits(digits));
            }
            return Result::Err(FieldError::Malformed);
        }
        proof {
            let pre = content@.subrange(dstart as int, i as int);
            let post = content@.subrange(dstart as int, i + 1);
            assert(post.drop_last() =~= pre);
            assert(post.last() == content@[i as int]);
            lemma_digits_val_nonneg(pre);
        }
        if !ovf {
            m = m * 10 + ((b - 48) as u64);
            if m > 9007199254740992 {
                ovf = true;
            }
        }
        i += 1;
    }
    proof {
        assert(digits =~= content@.subrange(dstart as int, i as int));
        assert(all_digits(digits));
    }
    if ovf {
        return Result::Err(FieldError::Malformed);
    }
    if neg {
        if m > 9007199254740992 {
            Result::Err(FieldError::Malformed)
        } else {
            Result::Ok(-(m as i64) * 1024)
        }
    } else {
        if m > 9007199254740991 {
            Result::Err(FieldError::Malformed)
        } else {
            Result::Ok((m as i64) * 1024)
        }
    }
}

/// Reads the value of `field` out of the raw rollup file bytes: 0 when the
/// field is absent (or the file empty), the literal scaled from kilobytes to
/// bytes when the first matching line carries an integer, and the malformed
/// error otherwise.
pub fn read_field(content: &Vec<u8>, field: &Vec<u8>) -> (r: Result<i64, FieldError>)
    ensures
        r == spec_read_field(content@, field@),
{
    let n = content.len();
    let mut start: usize = 0;
    proof {
        assert(content@.skip(0) =~= content@);
    }
    loop
        invariant
            0 <= start <= n,
            n == content@.len(),
            spec_read_field(content@, field@) == spec_read_field(
                content@.skip(start as int),
                field@,
            ),
        decreases n - start,
    {
        let ghost sub = content@.skip(start as int);
        let mut j: usize = start;
        while j < n && content[j] != 10
            invariant
                start <= j <= n,
                n == content@.len(),
                forall|k: int| start <= k < j ==> content@[k] != 10,
            decreases n - j,
        {
            j += 1;
        }
        proof {
            assert forall|k: int| 0 <= k < j - start implies sub[k] != 10 by {
                assert(sub[k] == content@[start + k]);
            }
            assert(j - start < sub.len() ==> sub[j - start] == 10);
            lemma_first_nl_is(sub, j - start);
        }
        let ghost line = if j < n {
            sub.take(j - start)
        } else {
            sub
        };
        proof {
            assert(line =~= content@.subrange(start as int, j as int));
        }
        let flen = field.len();
        if j - start >= flen && matches_at(content, start, field) {
            proof {
                assert(line.take(flen as int) =~= content@.subrange(start as int, start + flen));
                assert(line_matches(line, field@));
                assert(find_field(sub, field@) == Some(line_token(line, field@)));
            }
            let mut p: usize = start + flen;
            while p < j && content[p] == 32
                invariant
                    start + flen <= p <= j <= n,
                    n == content@.len(),
                    forall|k: int| start + flen <= k < p ==> content@[k] == 32,
                decreases j - p,
            {
                p += 1;
            }
            let mut q: usize = p;
            while q < j && content[q] != 32
                invariant
                    p <= q <= j <= n,
                    n == content@.len(),
                    forall|k: int| p <= k < q ==> content@[k] != 32,
                decreases j - q,
            {
                q += 1;
            }
            proof {
                let rest = line.skip(flen as int);
                assert(rest =~= content@.subrange(start + flen, j as int));
                assert forall|k: int| 0 <= k < p - (start + flen) implies rest[k] == 32 by {
                    assert(rest[k] == content@[start + flen + k]);
                }
                assert(p - (start + flen) < rest.len() ==> rest[p - (start + flen)] != 32);
                lemma_skip_spaces_is(rest, p - (start + flen));
                let tail = rest.skip(p - (start + flen));
                assert(tail =~= content@.subrange(p as int, j as int));
                assert forall|k: int| 0 <= k < q - p implies tail[k] != 32 by {
                    assert(tail[k] == content@[p + k]);
                }
                assert(q - p < tail.len() ==> tail[q - p] == 32);
                lemma_take_token_is(tail, q - p);
                assert(tail.take(q - p) =~= content@.subrange(p as int, q as int));
                assert(line_token(line, field@) == content@.subrange(p as int, q as int));
            }
            return parse_value(content, p, q);
        } else {
            proof {
                if j - start >= flen {
                    assert(line.take(flen as int) =~= content@.subrange(
                        start as int,
                        start + flen,
                    ));
                }
                assert(!line_matches(line, field@));
            }
            if j == n {
                proof {
                    assert(find_field(sub, field@) is None);
                }
                return Result::Ok(0);
            } else {
                proof {
                    assert(find_field(sub, field@) == find_field(
                        sub.skip(j - start + 1),
                        field@,
                    ));
                    assert(sub.skip(j - start + 1) =~= content@.skip(j + 1));
                }
                start = j + 1;
            }
        }
    }
}

} // verus!
