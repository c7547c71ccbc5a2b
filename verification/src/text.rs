//! Plain text: lines, words and numbers.
use crate::path::bytes_eq;
use vstd::prelude::*;
use vstd::slice::slice_subrange;
use vstd::utf8::{decode_utf8, encode_utf8, encode_utf8_decode_utf8};

verus! {

/// The characters with the Unicode property `White_Space`.
pub open spec fn is_white_spec(c: char) -> bool {
    let u = c as u32;
    ||| 0x9 <= u <= 0xd
    ||| u == 0x20
    ||| u == 0x85
    ||| u == 0xa0
    ||| u == 0x1680
    ||| 0x2000 <= u <= 0x200a
    ||| u == 0x2028
    ||| u == 0x2029
    ||| u == 0x202f
    ||| u == 0x205f
    ||| u == 0x3000
}

pub fn is_white(c: char) -> (r: bool)
    ensures
        r == is_white_spec(c),
{
    let u: u32 = c as u32;
    (0x9 <= u && u <= 0xd) || u == 0x20 || u == 0x85 || u == 0xa0 || u == 0x1680 || (0x2000 <= u
        && u <= 0x200a) || u == 0x2028 || u == 0x2029 || u == 0x202f || u == 0x205f || u == 0x3000
}

/// The first `c` at or after `i`, or the length of the text.
pub open spec fn find_char(t: Seq<char>, c: char, i: int) -> int
    decreases t.len() - i,
{
    if i < 0 || i >= t.len() {
        t.len() as int
    } else if t[i] == c {
        i
    } else {
        find_char(t, c, i + 1)
    }
}

pub proof fn lemma_find_char(t: Seq<char>, c: char, i: int)
    requires
        0 <= i <= t.len(),
    ensures
        i <= find_char(t, c, i) <= t.len(),
    decreases t.len() - i,
{
    if i < t.len() && t[i] != c {
        lemma_find_char(t, c, i + 1);
    }
}

/// Where the lines of `t` from position `i` on begin and end. A line ends
/// before `\n`, and before `\r\n`; nothing behind the last `\n` is no line.
pub open spec fn line_spans_spec(t: Seq<char>, i: int) -> Seq<(int, int)>
    decreases t.len() + 1 - i,
{
    if i < 0 || i >= t.len() {
        Seq::empty()
    } else {
        proof {
            lemma_find_char(t, '\n', i);
        }
        let j = find_char(t, '\n', i);
        seq![
            (
                i,
                if i < j < t.len() && t[j - 1] == '\r' {
                    j - 1
                } else {
                    j
                },
            ),
        ] + line_spans_spec(t, j + 1)
    }
}

/// The lines of a text.
pub open spec fn lines_spec(t: Seq<char>) -> Seq<Seq<char>> {
    Seq::new(
        line_spans_spec(t, 0).len(),
        |k: int| t.subrange(line_spans_spec(t, 0)[k].0, line_spans_spec(t, 0)[k].1),
    )
}

/// The first white space at or after `i`, or the length of the line.
pub open spec fn word_end(t: Seq<char>, i: int) -> int
    decreases t.len() - i,
{
    if i < 0 || i >= t.len() {
        t.len() as int
    } else if is_white_spec(t[i]) {
        i
    } else {
        word_end(t, i + 1)
    }
}

pub proof fn lemma_word_end(t: Seq<char>, i: int)
    requires
        0 <= i <= t.len(),
    ensures
        i <= word_end(t, i) <= t.len(),
        i < t.len() && !is_white_spec(t[i]) ==> i < word_end(t, i),
    decreases t.len() - i,
{
    if i < t.len() && !is_white_spec(t[i]) {
        lemma_word_end(t, i + 1);
    }
}

/// Where the words of a line from position `i` on begin and end.
pub open spec fn field_spans_spec(t: Seq<char>, i: int) -> Seq<(int, int)>
    decreases t.len() - i,
{
    if i < 0 || i >= t.len() {
        Seq::empty()
    } else if is_white_spec(t[i]) {
        field_spans_spec(t, i + 1)
    } else {
        proof {
            lemma_word_end(t, i);
        }
        seq![(i, word_end(t, i))] + field_spans_spec(t, word_end(t, i))
    }
}

/// The words of a line.
pub open spec fn fields_spec(line: Seq<char>) -> Seq<Seq<char>> {
    Seq::new(
        field_spans_spec(line, 0).len(),
        |k: int| line.subrange(field_spans_spec(line, 0)[k].0, field_spans_spec(line, 0)[k].1),
    )
}

pub proof fn lemma_line_spans(t: Seq<char>, i: int)
    requires
        0 <= i,
    ensures
        forall|k: int|
            0 <= k < line_spans_spec(t, i).len() ==> i <= (#[trigger] line_spans_spec(t, i)[k]).0
                <= line_spans_spec(t, i)[k].1 <= t.len(),
    decreases t.len() + 1 - i,
{
    if i < t.len() {
        lemma_find_char(t, '\n', i);
        let j = find_char(t, '\n', i);
        lemma_line_spans(t, j + 1);
        let rest = line_spans_spec(t, j + 1);
        assert forall|k: int| 0 <= k < line_spans_spec(t, i).len() implies i <= (
        #[trigger] line_spans_spec(t, i)[k]).0 <= line_spans_spec(t, i)[k].1 <= t.len() by {
            if k > 0 {
                assert(line_spans_spec(t, i)[k] == rest[k - 1]);
            }
        }
    }
}

pub proof fn lemma_field_spans(t: Seq<char>, i: int)
    requires
        0 <= i,
    ensures
        forall|k: int|
            0 <= k < field_spans_spec(t, i).len() ==> i <= (#[trigger] field_spans_spec(t, i)[k]).0
                < field_spans_spec(t, i)[k].1 <= t.len(),
    decreases t.len() - i,
{
    if i < t.len() {
        if is_white_spec(t[i]) {
            lemma_field_spans(t, i + 1);
            let rest = field_spans_spec(t, i + 1);
            assert(field_spans_spec(t, i) == rest);
            assert forall|k: int| 0 <= k < field_spans_spec(t, i).len() implies i <= (
            #[trigger] field_spans_spec(t, i)[k]).0 < field_spans_spec(t, i)[k].1 <= t.len() by {
                assert(i + 1 <= rest[k].0);
            }
        } else {
            lemma_word_end(t, i);
            let j = word_end(t, i);
            lemma_field_spans(t, j);
            let rest = field_spans_spec(t, j);
            assert forall|k: int| 0 <= k < field_spans_spec(t, i).len() implies i <= (
            #[trigger] field_spans_spec(t, i)[k]).0 < field_spans_spec(t, i)[k].1 <= t.len() by {
                if k > 0 {
                    assert(field_spans_spec(t, i)[k] == rest[k - 1]);
                }
            }
        }
    }
}

pub open spec fn pairs_view(v: Seq<(usize, usize)>) -> Seq<(int, int)> {
    Seq::new(v.len(), |k: int| (v[k].0 as int, v[k].1 as int))
}

/// The characters of a text.
pub fn chars_of(s: &str) -> (r: Vec<char>)
    ensures
        r@ == s@,
{
    let mut out: Vec<char> = Vec::new();
    for c in it: s.chars()
        invariant
            out@ == s@.take(it.index() as int),
            it.seq() == s@,
    {
        out.push(c);
        assert(s@.take(it.index() as int + 1) =~= s@.take(it.index() as int).push(c));
    }
    assert(s@.take(s@.len() as int) =~= s@);
    out
}

/// Where the lines of a text begin and end.
pub fn line_spans(t: &[char]) -> (r: Vec<(usize, usize)>)
    ensures
        pairs_view(r@) == line_spans_spec(t@, 0),
{
    let n: usize = t.len();
    let mut out: Vec<(usize, usize)> = Vec::new();
    let mut i: usize = 0;
    assert(pairs_view(out@) + line_spans_spec(t@, 0) =~= line_spans_spec(t@, 0));
    while i < n
        invariant
            n == t@.len(),
            i <= n,
            pairs_view(out@) + line_spans_spec(t@, i as int) == line_spans_spec(t@, 0),
        decreases n - i,
    {
        let mut j: usize = i;
        while j < n && t[j] != '\n'
            invariant
                n == t@.len(),
                i <= j <= n,
                find_char(t@, '\n', i as int) == find_char(t@, '\n', j as int),
            decreases n - j,
        {
            j = j + 1;
        }
        let ghost before = out@;
        let end: usize = if i < j && j < n && t[j - 1] == '\r' {
            j - 1
        } else {
            j
        };
        out.push((i, end));
        assert(pairs_view(out@) =~= pairs_view(before).push((i as int, end as int)));
        assert(line_spans_spec(t@, i as int) == seq![(i as int, end as int)] + line_spans_spec(
            t@,
            j as int + 1,
        ));
        assert(pairs_view(out@) + line_spans_spec(t@, j as int + 1) =~= pairs_view(before)
            + line_spans_spec(t@, i as int));
        i = if j < n {
            j + 1
        } else {
            n
        };
        assert(line_spans_spec(t@, i as int) == line_spans_spec(t@, j as int + 1));
    }
    assert(pairs_view(out@) =~= line_spans_spec(t@, 0));
    out
}

/// Where the words of a line begin and end.
pub fn field_spans(t: &[char]) -> (r: Vec<(usize, usize)>)
    ensures
        pairs_view(r@) == field_spans_spec(t@, 0),
{
    let n: usize = t.len();
    let mut out: Vec<(usize, usize)> = Vec::new();
    let mut i: usize = 0;
    assert(pairs_view(out@) + field_spans_spec(t@, 0) =~= field_spans_spec(t@, 0));
    while i < n
        invariant
            n == t@.len(),
            i <= n,
            pairs_view(out@) + field_spans_spec(t@, i as int) == field_spans_spec(t@, 0),
        decreases n - i,
    {
        if is_white(t[i]) {
            i = i + 1;
        } else {
            let mut j: usize = i;
            while j < n && !is_white(t[j])
                invariant
                    n == t@.len(),
                    i <= j <= n,
                    word_end(t@, i as int) == word_end(t@, j as int),
                decreases n - j,
            {
                j = j + 1;
            }
            proof {
                lemma_word_end(t@, i as int);
            }
            let ghost before = out@;
            out.push((i, j));
            assert(pairs_view(out@) =~= pairs_view(before).push((i as int, j as int)));
            assert(pairs_view(out@) + field_spans_spec(t@, j as int) =~= pairs_view(before)
                + field_spans_spec(t@, i as int));
            i = j;
        }
    }
    assert(pairs_view(out@) =~= field_spans_spec(t@, 0));
    out
}

/// Whether two texts are the same.
pub fn str_eq(a: &str, b: &str) -> (r: bool)
    ensures
        r == (a@ == b@),
{
    let r = bytes_eq(a.as_bytes(), b.as_bytes());
    proof {
        encode_utf8_decode_utf8(a@);
        encode_utf8_decode_utf8(b@);
        assert(decode_utf8(encode_utf8(a@)) == a@);
        assert(decode_utf8(encode_utf8(b@)) == b@);
    }
    r
}

/// Whether an optional text is the given one.
pub fn is_value(value: Option<&str>, wanted: &str) -> (r: bool)
    ensures
        r == (value matches Some(v) && v@ == wanted@),
{
    match value {
        Some(v) => str_eq(v, wanted),
        None => false,
    }
}

// ---------------------------------------------------------------------------
// Numbers
// ---------------------------------------------------------------------------

/// A number in decimal digits.
pub open spec fn decimal(n: nat) -> Seq<u8>
    decreases n,
{
    if n < 10 {
        seq![(48 + n) as u8]
    } else {
        decimal(n / 10).push((48 + n % 10) as u8)
    }
}

/// Appends a number in decimal digits.
pub fn push_decimal(out: &mut Vec<u8>, n: u128)
    ensures
        final(out)@ == old(out)@ + decimal(n as nat),
    decreases n,
{
    if n < 10 {
        out.push(48 + n as u8);
        assert(out@ =~= old(out)@ + decimal(n as nat));
    } else {
        push_decimal(out, n / 10);
        let digit: u8 = (n % 10) as u8;
        out.push(48 + digit);
        assert(out@ =~= old(out)@ + decimal(n as nat));
    }
}

/// Different numbers are written differently, and with digits only.
pub proof fn lemma_decimal(a: nat, b: nat)
    ensures
        decimal(a) == decimal(b) ==> a == b,
        decimal(a).len() > 0,
        forall|k: int| 0 <= k < decimal(a).len() ==> 48 <= #[trigger] decimal(a)[k] <= 57,
    decreases a,
{
    if a >= 10 {
        lemma_decimal(a / 10, if b >= 10 { b / 10 } else { 0 });
        assert(decimal(a).last() == (48 + a % 10) as u8);
        assert(decimal(a).drop_last() =~= decimal(a / 10));
    }
    if b >= 10 {
        lemma_decimal_nonempty(b / 10);
        assert(decimal(b).last() == (48 + b % 10) as u8);
        assert(decimal(b).drop_last() =~= decimal(b / 10));
    }
    if decimal(a) == decimal(b) {
        assert(decimal(a).last() == decimal(b).last());
        assert(decimal(a).len() == decimal(b).len());
    }
}

proof fn lemma_decimal_nonempty(a: nat)
    ensures
        decimal(a).len() > 0,
    decreases a,
{
    if a >= 10 {
        lemma_decimal_nonempty(a / 10);
    }
}

pub open spec fn is_digit(c: char) -> bool {
    48 <= c as u32 <= 57
}

pub open spec fn all_digits(s: Seq<char>) -> bool {
    forall|k: int| 0 <= k < s.len() ==> is_digit(#[trigger] s[k])
}

/// The number that a run of digits spells.
pub open spec fn digits_value(s: Seq<char>) -> nat
    decreases s.len(),
{
    if s.len() == 0 {
        0
    } else {
        digits_value(s.drop_last()) * 10 + (s.last() as u32 - 48) as nat
    }
}

/// The digits of a number as it may be written: behind a `+`, if there is one.
pub open spec fn unsigned_digits(s: Seq<char>) -> Seq<char> {
    if s.len() > 0 && s[0] == '+' {
        s.skip(1)
    } else {
        s
    }
}

/// The number that a text spells: one or more digits, perhaps behind a `+`,
/// no more than 64 bits hold.
pub open spec fn parse_u64_spec(s: Seq<char>) -> Option<u64> {
    let digits = unsigned_digits(s);
    if digits.len() > 0 && all_digits(digits) && digits_value(digits) <= u64::MAX {
        Some(digits_value(digits) as u64)
    } else {
        None
    }
}

proof fn lemma_digits_value_grows(s: Seq<char>, i: int)
    requires
        0 <= i <= s.len(),
        all_digits(s),
    ensures
        digits_value(s.take(i)) <= digits_value(s),
    decreases s.len(),
{
    if i == s.len() {
        assert(s.take(i) =~= s);
    } else {
        assert(s.drop_last().take(i) =~= s.take(i));
        assert forall|k: int| 0 <= k < s.drop_last().len() implies is_digit(
            #[trigger] s.drop_last()[k],
        ) by {
            assert(is_digit(s[k]));
        }
        lemma_digits_value_grows(s.drop_last(), i);
    }
}

/// The number that a text spells.
pub fn parse_u64(s: &str) -> (r: Option<u64>)
    ensures
        r == parse_u64_spec(s@),
{
    let all = chars_of(s);
    let from: usize = if all.len() > 0 && all[0] == '+' {
        1
    } else {
        0
    };
    let t = slice_subrange(all.as_slice(), from, all.len());
    assert(t@ =~= unsigned_digits(s@));
    let n: usize = t.len();
    if n == 0 {
        return None;
    }
    let mut value: u64 = 0;
    let mut i: usize = 0;
    while i < n
        invariant
            n == t@.len(),
            i <= n,
            all_digits(t@.take(i as int)),
            value == digits_value(t@.take(i as int)),
            t@ == unsigned_digits(s@),
        decreases n - i,
    {
        let u: u32 = t[i] as u32;
        if u < 48 || u > 57 {
            assert(!is_digit(t@[i as int]));
            return None;
        }
        let d: u64 = (u - 48) as u64;
        assert(t@.take(i + 1).drop_last() =~= t@.take(i as int));
        proof {
            assert forall|k: int| 0 <= k < t@.take(i + 1).len() implies is_digit(
                #[trigger] t@.take(i + 1)[k],
            ) by {
                if k < i {
                    assert(is_digit(t@.take(i as int)[k]));
                }
            }
        }
        if value > u64::MAX / 10 || value * 10 > u64::MAX - d {
            proof {
                if all_digits(t@) {
                    lemma_digits_value_grows(t@, i + 1);
                }
            }
            return None;
        }
        value = value * 10 + d;
        i = i + 1;
    }
    assert(t@.take(n as int) =~= t@);
    Some(value)
}

} // verus!
