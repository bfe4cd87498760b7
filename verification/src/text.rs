//! Character- and string-level helpers: ASCII lower-casing and
//! decimal parsing of unsigned 64-bit identifiers.

use vstd::prelude::*;

verus! {

/// The lower-case form of one character: ASCII upper-case letters map to
/// their lower-case counterparts, every other character is unchanged.
pub open spec fn lower_char(c: char) -> char {
    if 65 <= c as u32 && c as u32 <= 90 {
        (((c as u32) + 32) as u8) as char
    } else {
        c
    }
}

/// The lower-case form of a string: each character lowered in place.
pub open spec fn lower(s: Seq<char>) -> Seq<char> {
    Seq::new(s.len(), |i: int| lower_char(s[i]))
}

/// Relies on String::push: appends exactly one character at the end.
#[verifier::external_body]
fn push_char(s: &mut String, c: char)
    ensures
        final(s)@ == old(s)@.push(c),
{
    s.push(c);
}

/// Lower-case a string: ASCII upper-case letters become lower-case,
/// all other characters are kept as they are.
pub fn to_lower(s: &str) -> (r: String)
    ensures
        r@ == lower(s@),
{
    let n = s.unicode_len();
    let mut r = String::new();
    let mut i: usize = 0;
    while i < n
        invariant
            i <= n,
            n == s@.len(),
            r@ == lower(s@.take(i as int)),
        decreases n - i,
    {
        let c = s.get_char(i);
        let u = c as u32;
        let lc: char = if 65 <= u && u <= 90 {
            ((c as u8) + 32) as char
        } else {
            c
        };
        assert(lc == lower_char(s@[i as int]));
        push_char(&mut r, lc);
        i = i + 1;
        proof {
            assert(r@ =~= lower(s@.take(i as int)));
        }
    }
    proof {
        assert(s@.take(n as int) =~= s@);
    }
    r
}

/// Whether every character of `s` is a decimal digit.
pub open spec fn all_digits(s: Seq<char>) -> bool {
    forall|i: int| 0 <= i < s.len() ==> 48 <= #[trigger] (s[i] as u32) && s[i] as u32 <= 57
}

/// The numeric value of one decimal digit character.
pub open spec fn digit_val(c: char) -> nat {
    (c as u32 - 48) as nat
}

/// The value of a string of decimal digits, most significant first.
pub open spec fn digits_val(s: Seq<char>) -> nat
    decreases s.len(),
{
    if s.len() == 0 {
        0
    } else {
        digits_val(s.drop_last()) * 10 + digit_val(s.last())
    }
}

/// The digit part of a decimal numeral: everything after an optional
/// leading plus sign.
pub open spec fn numeral_digits(s: Seq<char>) -> Seq<char> {
    if s.len() > 0 && s[0] == '+' {
        s.drop_first()
    } else {
        s
    }
}

/// What parsing `s` as an unsigned 64-bit integer yields: the value of its
/// digits when `s` is an optional plus sign followed by one or more decimal
/// digits and the value fits in 64 bits; nothing otherwise.
pub open spec fn parse_u64_spec(s: Seq<char>) -> Option<u64> {
    let d = numeral_digits(s);
    if d.len() > 0 && all_digits(d) && digits_val(d) <= u64::MAX {
        Some(digits_val(d) as u64)
    } else {
        None
    }
}

/// Extending a digit string on the right never decreases its value.
proof fn lemma_digits_val_grows(s: Seq<char>, i: int, j: int)
    requires
        all_digits(s),
        0 <= i <= j <= s.len(),
    ensures
        digits_val(s.take(i)) <= digits_val(s.take(j)),
    decreases j - i,
{
    if i < j {
        lemma_digits_val_grows(s, i, j - 1);
        assert(s.take(j).drop_last() =~= s.take(j - 1));
        assert(digits_val(s.take(j)) == digits_val(s.take(j - 1)) * 10 + digit_val(s[j - 1]));
    }
}

/// Parse a decimal numeral (an optional leading `+`, then decimal digits)
/// as an unsigned 64-bit integer. Any other text, and any value over
/// `u64::MAX`, is rejected.
pub fn parse_u64(s: &str) -> (r: Option<u64>)
    ensures
        r == parse_u64_spec(s@),
{
    let n = s.unicode_len();
    let sign: usize = if n > 0 && s.get_char(0) == '+' {
        1
    } else {
        0
    };
    let digits = s.substring_char(sign, n);
    proof {
        assert(digits@ =~= numeral_digits(s@));
    }
    let m = digits.unicode_len();
    if m == 0 {
        // no digits at all
        return None;
    }
    let ghost d = digits@;
    let mut val: u64 = 0;
    let mut i: usize = 0;
    while i < m
        invariant
            i <= m,
            m == d.len(),
            d == digits@,
            d == numeral_digits(s@),
            all_digits(d.take(i as int)),
            val == digits_val(d.take(i as int)),
        decreases m - i,
    {
        let c = digits.get_char(i);
        let u = c as u32;
        if !(48 <= u && u <= 57) {
            proof {
                assert(d[i as int] == c);
                assert(!(48 <= d[i as int] as u32 && d[i as int] as u32 <= 57));
                assert(!all_digits(d));
            }
            return None;
        }
        let digit: u64 = (u - 48) as u64;
        let next = match val.checked_mul(10) {
            Some(v) => v.checked_add(digit),
            None => None,
        };
        proof {
            assert(d.take(i + 1).drop_last() =~= d.take(i as int));
            assert(digits_val(d.take(i + 1)) == digits_val(d.take(i as int)) * 10
                + digit_val(d[i as int]));
        }
        match next {
            Some(v) => {
                val = v;
            },
            None => {
                // the value no longer fits in 64 bits, and appending further
                // digits can only keep it out of range
                proof {
                    assert(digits_val(d.take(i + 1)) > u64::MAX);
                    if all_digits(d) {
                        lemma_digits_val_grows(d, i + 1, d.len() as int);
                        assert(d.take(d.len() as int) =~= d);
                        assert(digits_val(d) > u64::MAX);
                    }
                }
                return None;
            },
        }
        i = i + 1;
    }
    proof {
        assert(d.take(m as int) =~= d);
    }
    Some(val)
}

/// The pieces of `s` between occurrences of the delimiter `dc`: splitting
/// the empty string gives one empty piece, and every delimiter separates
/// two pieces, as `str::split` does.
pub open spec fn split_on(s: Seq<char>, dc: char) -> Seq<Seq<char>>
    decreases s.len(),
{
    if s.len() == 0 {
        seq![Seq::<char>::empty()]
    } else if s[0] == dc {
        seq![Seq::<char>::empty()] + split_on(s.drop_first(), dc)
    } else {
        let rest = split_on(s.drop_first(), dc);
        seq![seq![s[0]] + rest[0]] + rest.drop_first()
    }
}

/// A string without the delimiter splits into itself alone.
pub proof fn lemma_split_on_none(s: Seq<char>, dc: char)
    requires
        forall|j: int| 0 <= j < s.len() ==> s[j] != dc,
    ensures
        split_on(s, dc) == seq![s],
    decreases s.len(),
{
    if s.len() == 0 {
        assert(s =~= Seq::<char>::empty());
    } else {
        lemma_split_on_none(s.drop_first(), dc);
        let rest = split_on(s.drop_first(), dc);
        assert(rest[0] == s.drop_first());
        assert(seq![s[0]] + rest[0] =~= s);
        assert(split_on(s, dc) =~= seq![s]);
    }
}

/// Splitting at the first delimiter: the part before it is the first piece,
/// and the rest of the string splits into the remaining pieces.
pub proof fn lemma_split_on_first(s: Seq<char>, dc: char, k: int)
    requires
        0 <= k < s.len(),
        s[k] == dc,
        forall|j: int| 0 <= j < k ==> s[j] != dc,
    ensures
        split_on(s, dc) == seq![s.take(k)] + split_on(s.skip(k + 1), dc),
    decreases k,
{
    if k == 0 {
        assert(s.take(0) =~= Seq::<char>::empty());
        assert(s.skip(1) =~= s.drop_first());
        assert(split_on(s, dc) =~= seq![s.take(0)] + split_on(s.skip(1), dc));
    } else {
        let t = s.drop_first();
        lemma_split_on_first(t, dc, k - 1);
        let rest = split_on(t, dc);
        assert(rest == seq![t.take(k - 1)] + split_on(t.skip(k), dc));
        assert(seq![s[0]] + rest[0] =~= s.take(k));
        assert(rest.drop_first() =~= split_on(t.skip(k), dc));
        assert(t.skip(k) =~= s.skip(k + 1));
        assert(split_on(s, dc) =~= seq![s.take(k)] + split_on(s.skip(k + 1), dc));
    }
}

/// The views of a sequence of owned strings.
pub open spec fn views(v: Seq<String>) -> Seq<Seq<char>> {
    v.map_values(|t: String| t@)
}

/// Split a string at every occurrence of the delimiter `dc`, as
/// `str::split` does: n delimiters yield n + 1 pieces, and the empty
/// string yields one empty piece.
pub fn split_str(s: &str, dc: char) -> (r: Vec<String>)
    ensures
        views(r@) == split_on(s@, dc),
{
    let n = s.unicode_len();
    let mut out: Vec<String> = Vec::new();
    let mut start: usize = 0;
    let mut i: usize = 0;
    proof {
        assert(s@.skip(0) =~= s@);
        assert(views(out@) + split_on(s@, dc) =~= split_on(s@, dc));
    }
    while i < n
        invariant
            start <= i <= n,
            n == s@.len(),
            split_on(s@, dc) == views(out@) + split_on(s@.skip(start as int), dc),
            forall|j: int| start <= j < i ==> s@[j] != dc,
        decreases n - i,
    {
        let c = s.get_char(i);
        if c == dc {
            let ghost prev = out@;
            let piece = s.substring_char(start, i);
            out.push(piece.to_owned());
            proof {
                let tail = s@.skip(start as int);
                lemma_split_on_first(tail, dc, i - start);
                assert(tail.take(i - start) =~= piece@);
                assert(tail.skip(i - start + 1) =~= s@.skip(i + 1));
                assert(views(out@) =~= views(prev).push(piece@));
                assert(views(prev) + (seq![piece@] + split_on(s@.skip(i + 1), dc)) =~= views(
                    out@,
                ) + split_on(s@.skip(i + 1), dc));
            }
            start = i + 1;
        }
        i = i + 1;
    }
    let ghost prev = out@;
    let piece = s.substring_char(start, n);
    out.push(piece.to_owned());
    proof {
        let tail = s@.skip(start as int);
        lemma_split_on_none(tail, dc);
        assert(piece@ =~= tail);
        assert(views(out@) =~= views(prev).push(piece@));
        assert(views(prev) + seq![tail] =~= views(out@));
    }
    out
}

} // verus!
