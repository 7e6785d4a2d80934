//! Text building blocks: decimal rendering of integers, ASCII upper-casing,
//! and joining segments with a separator.

use vstd::prelude::*;
use vstd::string::StrSliceExecFns;
use vstd::string::StringExecFns;

verus! {

/// The character for one decimal digit value.
pub open spec fn digit_char(d: int) -> char {
    ((0x30 + d) as u8) as char
}

/// The decimal digits of a non-negative number, most significant first.
pub open spec fn dec_digits(n: int) -> Seq<char>
    decreases n,
{
    if n < 10 {
        seq![digit_char(n)]
    } else {
        dec_digits(n / 10).push(digit_char(n % 10))
    }
}

/// The decimal text of an integer: a minus sign for negative numbers,
/// then the digits of the magnitude.
pub open spec fn int_text(i: int) -> Seq<char> {
    if i < 0 {
        seq!['-'] + dec_digits(-i)
    } else {
        dec_digits(i)
    }
}

/// ASCII upper-casing of one character: `a` through `z` map to `A` through
/// `Z`; every other character passes through unchanged.
pub open spec fn upper_char(c: char) -> char {
    if 'a' <= c && c <= 'z' {
        ((c as u8) - 0x20) as char
    } else {
        c
    }
}

/// ASCII upper-casing of a character sequence.
pub open spec fn upper_text(s: Seq<char>) -> Seq<char> {
    s.map_values(|c: char| upper_char(c))
}

/// Segments joined by a separator: `[a, b, c]` becomes `a sep b sep c`.
/// No separator leads or trails, and joining no segments gives the empty
/// sequence.
pub open spec fn join_with(segments: Seq<Seq<char>>, sep: Seq<char>) -> Seq<char>
    decreases segments.len(),
{
    if segments.len() == 0 {
        Seq::empty()
    } else if segments.len() == 1 {
        segments[0]
    } else {
        segments[0] + sep + join_with(segments.drop_first(), sep)
    }
}

/// Joining one more segment appends one separator and that segment.
pub proof fn lemma_join_push(segments: Seq<Seq<char>>, sep: Seq<char>, last: Seq<char>)
    requires
        segments.len() > 0,
    ensures
        join_with(segments.push(last), sep) == join_with(segments, sep) + sep + last,
    decreases segments.len(),
{
    let p = segments.push(last);
    assert(join_with(p, sep) == p[0] + sep + join_with(p.drop_first(), sep));
    if segments.len() == 1 {
        assert(p.drop_first() =~= seq![last]);
        assert(join_with(seq![last], sep) == seq![last][0]);
    } else {
        assert(p.drop_first() =~= segments.drop_first().push(last));
        lemma_join_push(segments.drop_first(), sep, last);
        assert(join_with(segments, sep) + sep + last =~= segments[0] + sep + (join_with(
            segments.drop_first(),
            sep,
        ) + sep + last));
    }
}

/// Relies on `String::push` of std: appends one character to the string.
#[verifier::external_body]
pub(crate) fn push_char(s: &mut String, c: char)
    ensures
        final(s)@ == old(s)@.push(c),
{
    s.push(c);
}

fn dec_string(n: u64) -> (s: String)
    ensures
        s@ == dec_digits(n as int),
    decreases n,
{
    if n < 10 {
        let mut s = String::new();
        push_char(&mut s, (0x30u8 + (n as u8)) as char);
        proof {
            assert(s@ =~= seq![digit_char(n as int)]);
        }
        s
    } else {
        let mut s = dec_string(n / 10);
        push_char(&mut s, (0x30u8 + ((n % 10) as u8)) as char);
        s
    }
}

/// The decimal text of a machine integer.
pub fn integer_text(i: i64) -> (s: String)
    ensures
        s@ == int_text(i as int),
{
    if i < 0 {
        let mag: u64 = (-(i as i128)) as u64;
        let digits = dec_string(mag);
        let mut s = "-".to_owned();
        s.append(digits.as_str());
        proof {
            reveal_strlit("-");
            assert(s@ =~= int_text(i as int));
        }
        s
    } else {
        dec_string(i as u64)
    }
}

fn upper_char_exec(c: char) -> (r: char)
    ensures
        r == upper_char(c),
{
    let u = c as u32;
    if 0x61 <= u && u <= 0x7A {
        ((u - 0x20) as u8) as char
    } else {
        c
    }
}

/// ASCII upper-casing of a string.
pub fn upper_string(s: &str) -> (r: String)
    ensures
        r@ == upper_text(s@),
{
    let n = s.unicode_len();
    let mut r = String::new();
    let mut i: usize = 0;
    while i < n
        invariant
            n == s@.len(),
            i <= n,
            r@ == upper_text(s@.take(i as int)),
        decreases n - i,
    {
        let c = s.get_char(i);
        push_char(&mut r, upper_char_exec(c));
        i += 1;
        proof {
            assert(s@.take(i as int) =~= s@.take(i - 1).push(s@[i - 1]));
            assert(upper_text(s@.take(i as int)) =~= upper_text(s@.take(i - 1)).push(
                upper_char(s@[i - 1]),
            ));
        }
    }
    proof {
        assert(s@.take(n as int) =~= s@);
    }
    r
}

/// Segments joined by a separator.
pub fn join_segments(segments: &Vec<String>, sep: &str) -> (r: String)
    ensures
        r@ == join_with(segments.deep_view(), sep@),
{
    let mut r = String::new();
    let mut i: usize = 0;
    while i < segments.len()
        invariant
            i <= segments.len(),
            r@ == join_with(segments.deep_view().take(i as int), sep@),
        decreases segments.len() - i,
    {
        if i > 0 {
            r.append(sep);
        }
        r.append(segments[i].as_str());
        i += 1;
        proof {
            let dv = segments.deep_view();
            assert(dv.take(i as int) =~= dv.take(i - 1).push(dv[i - 1]));
            if i > 1 {
                lemma_join_push(dv.take(i - 1), sep@, dv[i - 1]);
            }
        }
    }
    proof {
        assert(segments.deep_view().take(segments.len() as int) =~= segments.deep_view());
    }
    r
}

} // verus!
