//! Character-level building blocks shared by the parser and the renderer:
//! whitespace classification, searching in character sequences, trimming,
//! and conversions between numbers and their decimal text.

use vstd::prelude::*;

verus! {

// ---------------------------------------------------------------------------
// Character classes
// ---------------------------------------------------------------------------

/// The Unicode `White_Space` code points, the set that `char::is_whitespace`
/// recognises.
pub open spec fn is_ws_char(c: char) -> bool {
    ||| c as u32 == 0x09
    ||| c as u32 == 0x0a
    ||| c as u32 == 0x0b
    ||| c as u32 == 0x0c
    ||| c as u32 == 0x0d
    ||| c as u32 == 0x20
    ||| c as u32 == 0x85
    ||| c as u32 == 0xa0
    ||| c as u32 == 0x1680
    ||| (0x2000 <= c as u32 && c as u32 <= 0x200a)
    ||| c as u32 == 0x2028
    ||| c as u32 == 0x2029
    ||| c as u32 == 0x202f
    ||| c as u32 == 0x205f
    ||| c as u32 == 0x3000
}

/// Decides [`is_ws_char`] on a single character.
pub fn is_whitespace_char(c: char) -> (r: bool)
    ensures
        r == is_ws_char(c),
{
    let u: u32 = c as u32;
    u == 0x09 || u == 0x0a || u == 0x0b || u == 0x0c || u == 0x0d || u == 0x20 || u == 0x85
        || u == 0xa0 || u == 0x1680 || (0x2000 <= u && u <= 0x200a) || u == 0x2028 || u == 0x2029
        || u == 0x202f || u == 0x205f || u == 0x3000
}

/// Every character of `s` is ASCII.
pub open spec fn all_ascii(s: Seq<char>) -> bool {
    forall|i: int| 0 <= i < s.len() ==> (#[trigger] s[i] as u32) < 128
}

/// The ten ASCII decimal digits.
pub open spec fn is_digit_char(c: char) -> bool {
    0x30 <= c as u32 && c as u32 <= 0x39
}

/// Numeric value of a decimal digit character.
pub open spec fn digit_val(c: char) -> int {
    c as u32 - 0x30
}

/// All characters of `s` are decimal digits.
pub open spec fn all_digits(s: Seq<char>) -> bool {
    forall|i: int| 0 <= i < s.len() ==> is_digit_char(#[trigger] s[i])
}

// ---------------------------------------------------------------------------
// Searching and trimming in character sequences
// ---------------------------------------------------------------------------

/// Position of the first occurrence of `c` in `s` at or after `from`.
pub open spec fn find_char_from(s: Seq<char>, from: int, c: char) -> Option<int>
    decreases s.len() - from,
{
    if from < 0 || from >= s.len() {
        None
    } else if s[from] == c {
        Some(from)
    } else {
        find_char_from(s, from + 1, c)
    }
}

/// `p` occurs in `s` starting exactly at position `i`.
pub open spec fn sub_at(s: Seq<char>, i: int, p: Seq<char>) -> bool {
    0 <= i && i + p.len() <= s.len() && s.subrange(i, i + p.len()) == p
}

/// Position of the first occurrence of `p` in `s` at or after `from`.
pub open spec fn find_sub_from(s: Seq<char>, from: int, p: Seq<char>) -> Option<int>
    decreases s.len() - from,
{
    if from < 0 || from + p.len() > s.len() {
        None
    } else if p.len() == 0 || sub_at(s, from, p) {
        Some(from)
    } else {
        find_sub_from(s, from + 1, p)
    }
}

/// Every character of `s` in `[from, to)` is whitespace.
pub open spec fn all_ws_in(s: Seq<char>, from: int, to: int) -> bool {
    forall|j: int| from <= j < to ==> is_ws_char(#[trigger] s[j])
}

/// First position in `[from, to)` holding a non-whitespace character, or `to`.
pub open spec fn first_non_ws(s: Seq<char>, from: int, to: int) -> int
    decreases to - from,
{
    if from < 0 || from >= to || from >= s.len() {
        to
    } else if is_ws_char(s[from]) {
        first_non_ws(s, from + 1, to)
    } else {
        from
    }
}

/// Least `e` in `(from, to]` such that everything in `[e, to)` is whitespace,
/// i.e. the exclusive end of the range once trailing whitespace is dropped.
pub open spec fn end_non_ws(s: Seq<char>, from: int, to: int) -> int
    decreases to - from,
{
    if to <= from || to > s.len() || to < 0 {
        from
    } else if is_ws_char(s[to - 1]) {
        end_non_ws(s, from, to - 1)
    } else {
        to
    }
}

// ---------------------------------------------------------------------------
// Decimal text
// ---------------------------------------------------------------------------

/// The decimal digit character for a value in `0..10`.
pub open spec fn dec_digit(d: int) -> char {
    if d == 0 {
        '0'
    } else if d == 1 {
        '1'
    } else if d == 2 {
        '2'
    } else if d == 3 {
        '3'
    } else if d == 4 {
        '4'
    } else if d == 5 {
        '5'
    } else if d == 6 {
        '6'
    } else if d == 7 {
        '7'
    } else if d == 8 {
        '8'
    } else {
        '9'
    }
}

/// Decimal representation of a non-negative integer, most significant digit
/// first, without leading zeros (except for zero itself).
pub open spec fn dec_str(n: int) -> Seq<char>
    decreases n,
{
    if n < 10 {
        seq![dec_digit(n)]
    } else {
        dec_str(n / 10).push(dec_digit(n % 10))
    }
}

/// Decimal representation of a possibly negative integer.
pub open spec fn dec_str_signed(n: int) -> Seq<char> {
    if n < 0 {
        seq!['-'] + dec_str(-n)
    } else {
        dec_str(n)
    }
}

/// Value of a sequence of decimal digit characters.
pub open spec fn dec_val(s: Seq<char>) -> int
    decreases s.len(),
{
    if s.len() == 0 {
        0
    } else {
        dec_val(s.drop_last()) * 10 + digit_val(s.last())
    }
}

/// The value that `str::parse::<usize>` yields on `s`, if any: an optional
/// leading `+`, then at least one decimal digit, and a value within range.
pub open spec fn parse_usize_s(s: Seq<char>) -> Option<int> {
    let ds = if s.len() > 0 && s[0] == '+' {
        s.drop_first()
    } else {
        s
    };
    if ds.len() > 0 && all_digits(ds) && dec_val(ds) <= usize::MAX {
        Some(dec_val(ds))
    } else {
        None
    }
}

/// The digit character for a value in `0..10`.
fn dec_digit_exec(d: u8) -> (c: char)
    requires
        d < 10,
    ensures
        c == dec_digit(d as int),
{
    match d {
        0 => '0',
        1 => '1',
        2 => '2',
        3 => '3',
        4 => '4',
        5 => '5',
        6 => '6',
        7 => '7',
        8 => '8',
        _ => '9',
    }
}

/// Appends the decimal representation of `n` to `out`.
pub fn push_dec_u128(out: &mut Vec<char>, n: u128)
    ensures
        final(out)@ == old(out)@ + dec_str(n as int),
    decreases n,
{
    if n < 10 {
        out.push(dec_digit_exec(n as u8));
    } else {
        push_dec_u128(out, n / 10);
        out.push(dec_digit_exec((n % 10) as u8));
    }
}

/// Appends the decimal representation of a signed 32-bit value to `out`.
pub fn push_dec_i32(out: &mut Vec<char>, n: i32)
    ensures
        final(out)@ == old(out)@ + dec_str_signed(n as int),
{
    if n < 0 {
        out.push('-');
        let m: i64 = -(n as i64);
        push_dec_u128(out, m as u128);
        assert(out@ =~= old(out)@ + dec_str_signed(n as int));
    } else {
        push_dec_u128(out, n as u128);
    }
}

proof fn lemma_dec_val_nonneg(s: Seq<char>)
    requires
        all_digits(s),
    ensures
        dec_val(s) >= 0,
    decreases s.len(),
{
    if s.len() > 0 {
        assert(all_digits(s.drop_last())) by {
            assert(forall|i: int|
                0 <= i < s.len() - 1 ==> #[trigger] s.drop_last()[i] == s[i]);
        }
        lemma_dec_val_nonneg(s.drop_last());
    }
}

proof fn lemma_dec_val_take_step(s: Seq<char>, i: int)
    requires
        0 <= i < s.len(),
    ensures
        dec_val(s.take(i + 1)) == dec_val(s.take(i)) * 10 + digit_val(s[i]),
{
    assert(s.take(i + 1).drop_last() =~= s.take(i));
    assert(s.take(i + 1).last() == s[i]);
}

proof fn lemma_dec_val_take_le(s: Seq<char>, i: int)
    requires
        all_digits(s),
        0 <= i <= s.len(),
    ensures
        dec_val(s.take(i)) <= dec_val(s),
    decreases s.len() - i,
{
    if i < s.len() {
        assert(all_digits(s.take(i + 1))) by {
            assert(forall|j: int|
                0 <= j < i + 1 ==> #[trigger] s.take(i + 1)[j] == s[j]);
        }
        lemma_dec_val_nonneg(s.take(i + 1));
        lemma_dec_val_take_step(s, i);
        assert(dec_val(s.take(i)) * 10 >= dec_val(s.take(i))) by {
            lemma_dec_val_nonneg_take(s, i);
        }
        lemma_dec_val_take_le(s, i + 1);
    } else {
        assert(s.take(i) =~= s);
    }
}

proof fn lemma_dec_val_nonneg_take(s: Seq<char>, i: int)
    requires
        all_digits(s),
        0 <= i <= s.len(),
    ensures
        dec_val(s.take(i)) >= 0,
{
    assert(all_digits(s.take(i))) by {
        assert(forall|j: int| 0 <= j < i ==> #[trigger] s.take(i)[j] == s[j]);
    }
    lemma_dec_val_nonneg(s.take(i));
}

/// Parses `v` the way `str::parse::<usize>` would.
pub fn parse_usize_chars(v: &Vec<char>) -> (r: Option<usize>)
    ensures
        r is Some <==> parse_usize_s(v@) is Some,
        r is Some ==> parse_usize_s(v@) == Some(r->0 as int),
{
    let n: usize = v.len();
    let start: usize = if n > 0 && v[0] == '+' {
        1
    } else {
        0
    };
    let ghost ds: Seq<char> = if v@.len() > 0 && v@[0] == '+' {
        v@.drop_first()
    } else {
        v@
    };
    assert(ds =~= v@.subrange(start as int, n as int));
    if start >= n {
        return None;
    }
    let mut acc: usize = 0;
    let mut i: usize = start;
    while i < n
        invariant
            start <= i <= n,
            start < n,
            n == v@.len(),
            ds == (if v@.len() > 0 && v@[0] == '+' {
                v@.drop_first()
            } else {
                v@
            }),
            ds == v@.subrange(start as int, n as int),
            all_digits(ds.take(i - start)),
            acc == dec_val(ds.take(i - start)),
        decreases n - i,
    {
        let c: char = v[i];
        let u: u32 = c as u32;
        if !(0x30 <= u && u <= 0x39) {
            proof {
                assert(ds[i - start] == c);
                assert(!is_digit_char(ds[i - start]));
                assert(!all_digits(ds));
            }
            return None;
        }
        let d: u32 = u - 0x30;
        proof {
            assert(ds[i - start] == c);
            assert(is_digit_char(c));
            assert forall|j: int| 0 <= j < i + 1 - start implies is_digit_char(
                #[trigger] ds.take(i + 1 - start)[j],
            ) by {
                assert(ds.take(i + 1 - start)[j] == ds[j]);
                if j < i - start {
                    assert(is_digit_char(ds.take((i - start) as int)[j]));
                    assert(ds.take((i - start) as int)[j] == ds[j]);
                } else {
                    assert(ds[j] == c);
                }
            }
            assert(all_digits(ds.take(i + 1 - start)));
        }
        if acc > (usize::MAX - d as usize) / 10 {
            proof {
                lemma_dec_val_take_step(ds, i - start);
                assert(dec_val(ds.take(i + 1 - start)) > usize::MAX) by (nonlinear_arith)
                    requires
                        dec_val(ds.take(i + 1 - start)) == acc * 10 + d,
                        acc > (usize::MAX - d) / 10,
                        0 <= d <= 9,
                        acc >= 0,
                ;
                if all_digits(ds) {
                    lemma_dec_val_take_le(ds, i + 1 - start);
                }
            }
            return None;
        }
        proof {
            lemma_dec_val_take_step(ds, i - start);
            assert(acc * 10 + d <= usize::MAX) by (nonlinear_arith)
                requires
                    acc <= (usize::MAX - d) / 10,
                    0 <= d <= 9,
                    acc >= 0,
            ;
        }
        acc = acc * 10 + d as usize;
        i = i + 1;
    }
    proof {
        assert(ds.take(n - start) =~= ds);
    }
    Some(acc)
}

/// Number of bytes the UTF-8 encoding of `c` occupies.
pub open spec fn utf8_width(c: char) -> int {
    if (c as u32) < 0x80 {
        1
    } else if (c as u32) < 0x800 {
        2
    } else if (c as u32) < 0x10000 {
        3
    } else {
        4
    }
}

/// Byte offset of character position `i` of `s` in its UTF-8 encoding.
pub open spec fn byte_pos(s: Seq<char>, i: int) -> int
    decreases i,
{
    if i <= 0 {
        0
    } else {
        byte_pos(s, i - 1) + utf8_width(s[i - 1])
    }
}

/// Computes [`byte_pos`].
pub fn byte_pos_exec(v: &Vec<char>, i: usize) -> (r: u128)
    requires
        i <= v@.len(),
    ensures
        r == byte_pos(v@, i as int),
{
    let mut sum: u128 = 0;
    let mut k: usize = 0;
    while k < i
        invariant
            0 <= k <= i <= v@.len(),
            sum == byte_pos(v@, k as int),
            sum <= 4 * k,
        decreases i - k,
    {
        let c: char = v[k];
        let u: u32 = c as u32;
        let w: u128 = if u < 0x80 {
            1
        } else if u < 0x800 {
            2
        } else if u < 0x10000 {
            3
        } else {
            4
        };
        sum = sum + w;
        k = k + 1;
    }
    sum
}

/// A position reduced to 32 bits, as the error offsets carry it.
pub open spec fn wrap32(i: int) -> u32 {
    (i % 0x1_0000_0000) as u32
}

/// Computes [`wrap32`] on a byte position.
pub fn wrap32_u128(j: u128) -> (r: u32)
    ensures
        r == wrap32(j as int),
{
    (j % 0x1_0000_0000u128) as u32
}

// ---------------------------------------------------------------------------
// Strings and character vectors
// ---------------------------------------------------------------------------

/// Relies on `String::push`, which appends one character to the string.
#[verifier::external_body]
pub fn push_char(s: &mut String, c: char)
    ensures
        final(s)@ == old(s)@.push(c),
{
    s.push(c);
}

/// Appends every character of `v` to `s`.
pub fn append_chars(s: &mut String, v: &Vec<char>)
    ensures
        final(s)@ == old(s)@ + v@,
{
    let n: usize = v.len();
    let mut i: usize = 0;
    while i < n
        invariant
            0 <= i <= n,
            n == v@.len(),
            s@ == old(s)@ + v@.take(i as int),
        decreases n - i,
    {
        push_char(s, v[i]);
        proof {
            assert(old(s)@ + v@.take(i + 1) =~= (old(s)@ + v@.take(i as int)).push(v@[i as int]));
        }
        i = i + 1;
    }
    proof {
        assert(v@.take(n as int) =~= v@);
    }
}

/// Builds a `String` out of the characters of `v` in `[from, to)`.
pub fn string_from_range(v: &Vec<char>, from: usize, to: usize) -> (s: String)
    requires
        from <= to <= v@.len(),
    ensures
        s@ == v@.subrange(from as int, to as int),
{
    let mut s: String = String::new();
    let mut i: usize = from;
    while i < to
        invariant
            from <= i <= to <= v@.len(),
            s@ == v@.subrange(from as int, i as int),
        decreases to - i,
    {
        push_char(&mut s, v[i]);
        proof {
            assert(v@.subrange(from as int, i + 1) =~= v@.subrange(from as int, i as int).push(
                v@[i as int],
            ));
        }
        i = i + 1;
    }
    s
}

/// `s` with every newline character removed, the normalization the
/// parser applies before scanning.
pub open spec fn strip_newlines(s: Seq<char>) -> Seq<char>
    decreases s.len(),
{
    if s.len() == 0 {
        Seq::empty()
    } else if s.last() == '\n' {
        strip_newlines(s.drop_last())
    } else {
        strip_newlines(s.drop_last()).push(s.last())
    }
}

/// Collects the characters of `s` into a vector, dropping newlines.
pub fn str_chars_without_newlines(s: &str) -> (v: Vec<char>)
    ensures
        v@ == strip_newlines(s@),
{
    let n: usize = s.unicode_len();
    let mut v: Vec<char> = Vec::new();
    let mut i: usize = 0;
    while i < n
        invariant
            0 <= i <= n,
            n == s@.len(),
            v@ == strip_newlines(s@.take(i as int)),
        decreases n - i,
    {
        let c: char = s.get_char(i);
        proof {
            assert(s@.take(i + 1).drop_last() =~= s@.take(i as int));
            assert(s@.take(i + 1).last() == s@[i as int]);
        }
        if c != '\n' {
            v.push(c);
        }
        i = i + 1;
    }
    proof {
        assert(s@.take(n as int) =~= s@);
    }
    v
}

/// Collects the characters of `s` into a vector.
pub fn str_chars(s: &str) -> (v: Vec<char>)
    ensures
        v@ == s@,
{
    let n: usize = s.unicode_len();
    let mut v: Vec<char> = Vec::new();
    let mut i: usize = 0;
    while i < n
        invariant
            0 <= i <= n,
            n == s@.len(),
            v@ == s@.take(i as int),
        decreases n - i,
    {
        v.push(s.get_char(i));
        proof {
            assert(s@.take(i + 1) =~= s@.take(i as int).push(s@[i as int]));
        }
        i = i + 1;
    }
    proof {
        assert(s@.take(n as int) =~= s@);
    }
    v
}

/// Decides whether two string slices hold the same characters.
pub fn str_eq(a: &str, b: &str) -> (r: bool)
    ensures
        r == (a@ == b@),
{
    let na: usize = a.unicode_len();
    let nb: usize = b.unicode_len();
    if na != nb {
        assert(a@ != b@) by {
            assert(a@.len() != b@.len());
        }
        return false;
    }
    let mut i: usize = 0;
    while i < na
        invariant
            0 <= i <= na,
            na == a@.len(),
            na == b@.len(),
            forall|j: int| 0 <= j < i ==> a@[j] == b@[j],
        decreases na - i,
    {
        if a.get_char(i) != b.get_char(i) {
            return false;
        }
        i = i + 1;
    }
    proof {
        assert(a@ =~= b@);
    }
    true
}

} // verus!
