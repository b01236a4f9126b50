//! Small helpers for building owned strings with known contents.

use vstd::prelude::*;
use vstd::string::*;
use vstd::std_specs::iter::IteratorSpec;

verus! {

/// Owned copy of `s`.
pub fn owned(s: &str) -> (r: String)
    ensures
        r@ == s@,
{
    <String as StringExecFns>::from_str(s)
}

/// Concatenation of `a` and `b` into a fresh string.
pub fn concat(a: &str, b: &str) -> (r: String)
    ensures
        r@ == a@ + b@,
{
    let mut r = <String as StringExecFns>::from_str(a);
    r.append(b);
    r
}

/// The characters of `s`, in order.
pub fn chars_of(s: &str) -> (v: Vec<char>)
    ensures
        v@ == s@,
{
    broadcast use vstd::string::group_string_axioms;
    let mut v: Vec<char> = Vec::new();
    let mut it = s.chars();
    proof {
        assert(it.remaining() == s@);
    }
    loop
        invariant
            v@ + it.remaining() == s@,
            it.decrease() is Some,
        ensures
            v@ == s@,
        decreases it.decrease()->0,
    {
        let ghost before = it.remaining();
        match it.next() {
            Some(c) => {
                proof {
                    assert(before.len() > 0);
                }
                v.push(c);
                proof {
                    assert(v@ + it.remaining() =~= s@);
                }
            },
            None => {
                proof {
                    assert(before.len() == 0);
                    assert(v@ =~= s@);
                }
                break;
            },
        }
    }
    v
}

/// Whether `p` is a prefix of `s`.
pub open spec fn has_prefix(s: Seq<char>, p: Seq<char>) -> bool {
    p.len() <= s.len() && s.subrange(0, p.len() as int) == p
}

/// Whether `p` is a suffix of `s`.
pub open spec fn has_suffix(s: Seq<char>, p: Seq<char>) -> bool {
    p.len() <= s.len() && s.subrange(s.len() - p.len(), s.len() as int) == p
}

/// Whether `p` occurs in `s` at position `i`.
pub open spec fn occurs_at(s: Seq<char>, p: Seq<char>, i: int) -> bool {
    0 <= i && i + p.len() <= s.len() && s.subrange(i, i + p.len()) == p
}

/// Whether `p` occurs in `s` at or after position `start`.
pub open spec fn occurs_from(s: Seq<char>, p: Seq<char>, start: int) -> bool {
    exists|i: int| start <= i && #[trigger] occurs_at(s, p, i)
}

/// Whether the characters of `s` from `i` match `p`.
fn matches_at(s: &Vec<char>, p: &Vec<char>, i: usize) -> (r: bool)
    requires
        i <= s@.len(),
    ensures
        r == occurs_at(s@, p@, i as int),
{
    if p.len() > s.len() - i {
        return false;
    }
    let mut j: usize = 0;
    while j < p.len()
        invariant
            i + p@.len() <= s.len(),
            j <= p@.len(),
            forall|k: int| 0 <= k < j ==> s@[i + k] == p@[k],
        decreases p@.len() - j,
    {
        if s[i + j] != p[j] {
            assert(s@.subrange(i as int, i + p@.len())[j as int] != p@[j as int]);
            return false;
        }
        j = j + 1;
    }
    assert(s@.subrange(i as int, i + p@.len()) =~= p@);
    true
}

/// Whether `s` begins with `p`.
pub fn starts_with(s: &Vec<char>, p: &Vec<char>) -> (r: bool)
    ensures
        r == has_prefix(s@, p@),
{
    matches_at(s, p, 0)
}

/// Whether `s` ends with `p`.
pub fn ends_with(s: &Vec<char>, p: &Vec<char>) -> (r: bool)
    ensures
        r == has_suffix(s@, p@),
{
    if p.len() > s.len() {
        return false;
    }
    matches_at(s, p, s.len() - p.len())
}

/// The first position at or after `start` where `p` occurs in `s`.
pub fn find_from(s: &Vec<char>, p: &Vec<char>, start: usize) -> (r: Option<usize>)
    requires
        start <= s@.len(),
    ensures
        match r {
            Some(i) => start <= i && occurs_at(s@, p@, i as int)
                && forall|j: int| start <= j < i ==> !occurs_at(s@, p@, j),
            None => !occurs_from(s@, p@, start as int),
        },
{
    let mut i = start;
    loop
        invariant
            start <= i <= s@.len(),
            forall|j: int| start <= j < i ==> !occurs_at(s@, p@, j),
        ensures
            i == s@.len(),
            forall|j: int| start <= j <= i ==> !occurs_at(s@, p@, j),
        decreases s@.len() - i,
    {
        if matches_at(s, p, i) {
            return Some(i);
        }
        if i == s.len() {
            break;
        }
        i = i + 1;
    }
    assert forall|j: int| start <= j implies !#[trigger] occurs_at(s@, p@, j) by {
        if j > i {
            assert(j + p@.len() > s@.len());
        }
    }
    None
}

/// `String::push`: append one character.
#[verifier::external_body]
pub fn push_char(s: &mut String, c: char)
    ensures
        final(s)@ == old(s)@.push(c),
{
    s.push(c);
}

/// The characters of `s` from `from` to `to`, as a string.
pub fn text_of(s: &Vec<char>, from: usize, to: usize) -> (r: String)
    requires
        from <= to <= s@.len(),
    ensures
        r@ == s@.subrange(from as int, to as int),
{
    let mut r = String::new();
    let mut i = from;
    while i < to
        invariant
            from <= i <= to <= s@.len(),
            r@ == s@.subrange(from as int, i as int),
        decreases to - i,
    {
        push_char(&mut r, s[i]);
        i = i + 1;
    }
    r
}

/// The characters of `s` from `from` to `to`.
pub fn sub_chars(s: &Vec<char>, from: usize, to: usize) -> (r: Vec<char>)
    requires
        from <= to <= s@.len(),
    ensures
        r@ == s@.subrange(from as int, to as int),
{
    let mut r: Vec<char> = Vec::new();
    let mut i = from;
    while i < to
        invariant
            from <= i <= to <= s@.len(),
            r@ == s@.subrange(from as int, i as int),
        decreases to - i,
    {
        r.push(s[i]);
        i = i + 1;
    }
    r
}

/// Whether `c` has the Unicode `White_Space` property, which is what
/// `char::is_whitespace` and `str::trim` go by.
pub open spec fn white_space(c: char) -> bool {
    let u = c as u32;
    ||| 0x9 <= u <= 0xD
    ||| u == 0x20 || u == 0x85 || u == 0xA0 || u == 0x1680
    ||| 0x2000 <= u <= 0x200A
    ||| u == 0x2028 || u == 0x2029 || u == 0x202F || u == 0x205F || u == 0x3000
}

/// Whether `c` is white space.
pub fn is_white_space(c: char) -> (r: bool)
    ensures
        r == white_space(c),
{
    let u = c as u32;
    (0x9 <= u && u <= 0xD) || u == 0x20 || u == 0x85 || u == 0xA0 || u == 0x1680
        || (0x2000 <= u && u <= 0x200A) || u == 0x2028 || u == 0x2029 || u == 0x202F
        || u == 0x205F || u == 0x3000
}

/// Whether `s[a..b]` is `s` without its leading and trailing white space.
pub open spec fn trim_bounds(s: Seq<char>, a: int, b: int) -> bool {
    &&& 0 <= a <= b <= s.len()
    &&& forall|k: int| 0 <= k < a ==> white_space(#[trigger] s[k])
    &&& forall|k: int| b <= k < s.len() ==> white_space(#[trigger] s[k])
    &&& a < s.len() ==> !white_space(s[a])
    &&& a < b ==> !white_space(s[b - 1])
}

/// `s` without leading and trailing white space, as `str::trim` leaves it.
pub open spec fn trimmed(s: Seq<char>) -> Seq<char> {
    let (a, b) = choose|a: int, b: int| trim_bounds(s, a, b);
    s.subrange(a, b)
}

/// There is one way only to trim a sequence.
pub proof fn lemma_trim_bounds_unique(s: Seq<char>, a: int, b: int, c: int, d: int)
    requires
        trim_bounds(s, a, b),
        trim_bounds(s, c, d),
    ensures
        a == c && b == d,
{
    if a < c {
        assert(white_space(s[a]));
    }
    if c < a {
        assert(white_space(s[c]));
    }
    if b < d {
        assert(white_space(s[d - 1]));
    }
    if d < b {
        assert(white_space(s[b - 1]));
    }
}

/// `s` without leading and trailing white space.
pub fn trim_text(s: &str) -> (r: String)
    ensures
        r@ == trimmed(s@),
{
    let v = chars_of(s);
    let n = v.len();
    let mut a: usize = 0;
    while a < n && is_white_space(v[a])
        invariant
            a <= n,
            n == v@.len(),
            forall|k: int| 0 <= k < a ==> white_space(#[trigger] v@[k]),
        decreases n - a,
    {
        a = a + 1;
    }
    let mut b: usize = n;
    while b > a && is_white_space(v[b - 1])
        invariant
            a <= b <= n,
            n == v@.len(),
            forall|k: int| 0 <= k < a ==> white_space(#[trigger] v@[k]),
            forall|k: int| b <= k < n ==> white_space(#[trigger] v@[k]),
            a < n ==> !white_space(v@[a as int]),
        decreases b - a,
    {
        b = b - 1;
    }
    proof {
        assert(trim_bounds(v@, a as int, b as int));
        let (c, d) = choose|c: int, d: int| trim_bounds(v@, c, d);
        lemma_trim_bounds_unique(v@, a as int, b as int, c, d);
    }
    text_of(&v, a, b)
}

/// The first position at or after `from` where `s` holds `c`, or the
/// length of `s` when there is none.
pub open spec fn next_index_of(s: Seq<char>, c: char, from: int) -> int
    decreases s.len() - from,
{
    if from < 0 || from >= s.len() {
        s.len() as int
    } else if s[from] == c {
        from
    } else {
        next_index_of(s, c, from + 1)
    }
}

/// The position found lies between `from` and the end, holds `c` unless
/// it is the end, and no position before it does.
pub proof fn lemma_next_index_of(s: Seq<char>, c: char, from: int)
    requires
        0 <= from <= s.len(),
    ensures
        from <= next_index_of(s, c, from) <= s.len(),
        next_index_of(s, c, from) < s.len() ==> s[next_index_of(s, c, from)] == c,
        forall|k: int| from <= k < next_index_of(s, c, from) ==> s[k] != c,
    decreases s.len() - from,
{
    if from < s.len() && s[from] != c {
        lemma_next_index_of(s, c, from + 1);
    }
}

/// The first position at or after `from` where `v` holds `c`, or its length.
pub fn index_from(v: &Vec<char>, c: char, from: usize) -> (r: usize)
    requires
        from <= v@.len(),
    ensures
        r == next_index_of(v@, c, from as int),
{
    let mut j = from;
    while j < v.len() && v[j] != c
        invariant
            from <= j <= v@.len(),
            next_index_of(v@, c, j as int) == next_index_of(v@, c, from as int),
        decreases v@.len() - j,
    {
        j = j + 1;
    }
    j
}

/// The value of parameter `name` in query string `q`, looking at the
/// `&`-separated pairs from position `start` on: the text after the first
/// `=` of the first pair whose text before it is `name`.
pub open spec fn query_param_from(q: Seq<char>, name: Seq<char>, start: int) -> Option<Seq<char>>
    decreases q.len() - start,
{
    if start < 0 || start > q.len() {
        None
    } else {
        let e = next_index_of(q, '&', start);
        let pair = q.subrange(start, e);
        let k = next_index_of(pair, '=', 0);
        if k < pair.len() && pair.take(k) == name {
            Some(pair.skip(k + 1))
        } else if e >= q.len() {
            None
        } else {
            proof {
                lemma_next_index_of(q, '&', start);
            }
            query_param_from(q, name, e + 1)
        }
    }
}

/// The value of parameter `name` in query string `q`, if some pair names it.
pub fn query_param(q: &str, name: &str) -> (r: Option<String>)
    ensures
        match r {
            Some(v) => query_param_from(q@, name@, 0) == Some(v@),
            None => query_param_from(q@, name@, 0) is None,
        },
{
    let v = chars_of(q);
    let mut start: usize = 0;
    loop
        invariant
            start <= v@.len(),
            v@ == q@,
            query_param_from(v@, name@, start as int) == query_param_from(v@, name@, 0),
        decreases v@.len() - start,
    {
        let e = index_from(&v, '&', start);
        proof {
            lemma_next_index_of(v@, '&', start as int);
        }
        let pair = sub_chars(&v, start, e);
        let k = index_from(&pair, '=', 0);
        proof {
            lemma_next_index_of(pair@, '=', 0);
        }
        if k < pair.len() {
            let key = text_of(&pair, 0, k);
            if same_text(key.as_str(), name) {
                let value = text_of(&pair, k + 1, pair.len());
                proof {
                    assert(pair@.take(k as int) =~= pair@.subrange(0, k as int));
                    assert(pair@.skip(k + 1) =~= pair@.subrange(k + 1, pair@.len() as int));
                }
                return Some(value);
            }
            proof {
                assert(pair@.take(k as int) =~= pair@.subrange(0, k as int));
            }
        }
        if e >= v.len() {
            return None;
        }
        start = e + 1;
    }
}

/// Whether two strings hold the same characters.
pub fn same_text(a: &str, b: &str) -> (r: bool)
    ensures
        r == (a@ == b@),
{
    let x = owned(a);
    let y = owned(b);
    x == y
}

/// What `str::to_uppercase` makes of a string: each character mapped to
/// its Unicode uppercase form, which may be several characters long.
pub uninterp spec fn uppercase_text(s: Seq<char>) -> Seq<char>;

/// What `str::to_lowercase` makes of a string: each character mapped to
/// its Unicode lowercase form (with the final-sigma rule of the standard
/// library).
pub uninterp spec fn lowercase_text(s: Seq<char>) -> Seq<char>;

/// `str::to_uppercase`. Its result is named, as a function of the
/// string's characters alone.
#[verifier::external_body]
pub fn to_uppercase(s: &str) -> (r: String)
    ensures
        r@ == uppercase_text(s@),
{
    s.to_uppercase()
}

/// ASCII lowercasing: `A`-`Z` become `a`-`z`, every other character stays.
pub open spec fn ascii_lowered(s: Seq<char>) -> Seq<char> {
    s.map_values(|c: char| if 'A' <= c <= 'Z' { ((c as u32) + 32) as char } else { c })
}

/// `str::to_lowercase`. Its result is named, as a function of the
/// string's characters alone; on an ASCII string it is ASCII lowercasing.
#[verifier::external_body]
pub fn to_lowercase(s: &str) -> (r: String)
    ensures
        r@ == lowercase_text(s@),
        (forall|i: int| 0 <= i < s@.len() ==> (#[trigger] s@[i] as u32) < 128) ==> r@ == ascii_lowered(s@),
{
    s.to_lowercase()
}

/// Decimal text of an integer: an optional minus sign, then the digits
/// of its magnitude with no leading zero.
pub open spec fn decimal_digits(n: nat) -> Seq<char>
    decreases n,
{
    if n < 10 {
        seq![digit_char(n)]
    } else {
        decimal_digits(n / 10).push(digit_char(n % 10))
    }
}

/// The ASCII digit for a value below ten.
pub open spec fn digit_char(d: nat) -> char {
    (('0' as nat) + d) as char
}

/// Decimal text of a signed integer.
pub open spec fn decimal_text(x: int) -> Seq<char> {
    if x < 0 {
        seq!['-'] + decimal_digits((-x) as nat)
    } else {
        decimal_digits(x as nat)
    }
}

/// Append the decimal digits of `n` to `s`.
fn push_digits(n: u64, s: &mut String)
    ensures
        final(s)@ == old(s)@ + decimal_digits(n as nat),
    decreases n,
{
    if n >= 10 {
        push_digits(n / 10, s);
    }
    let d: u8 = (n % 10) as u8;
    let c: char = (48u8 + d) as char;
    proof {
        assert(c == digit_char((n % 10) as nat));
    }
    push_char(s, c);
    proof {
        if n >= 10 {
            assert(decimal_digits(n as nat) == decimal_digits((n / 10) as nat).push(digit_char((n % 10) as nat)));
        }
    }
}

/// Decimal text of an `i64`, as `ToString` writes it.
pub fn i64_text(x: i64) -> (r: String)
    ensures
        r@ == decimal_text(x as int),
{
    let mut s = String::new();
    if x < 0 {
        push_char(&mut s, '-');
        let m: u64 = if x == i64::MIN { 9223372036854775808u64 } else { (-x) as u64 };
        push_digits(m, &mut s);
    } else {
        push_digits(x as u64, &mut s);
    }
    proof {
        assert(s@ =~= decimal_text(x as int));
    }
    s
}

/// Decimal text of a `u64`, as `ToString` writes it.
pub fn u64_text(x: u64) -> (r: String)
    ensures
        r@ == decimal_text(x as int),
{
    let mut s = String::new();
    push_digits(x, &mut s);
    proof {
        assert(s@ =~= decimal_text(x as int));
    }
    s
}

/// Decimal text of a `usize`, as `ToString` writes it.
pub fn usize_text(x: usize) -> (r: String)
    ensures
        r@ == decimal_text(x as int),
{
    u64_text(x as u64)
}

/// Whether a byte is an ASCII digit.
pub open spec fn is_digit(b: u8) -> bool {
    48 <= b <= 57
}

/// Whether every byte of `s` is an ASCII digit.
pub open spec fn all_digits(s: Seq<u8>) -> bool {
    forall|i: int| 0 <= i < s.len() ==> is_digit(#[trigger] s[i])
}

/// The number that a string of ASCII digits writes in decimal.
pub open spec fn digits_value(s: Seq<u8>) -> nat
    decreases s.len(),
{
    if s.len() == 0 {
        0
    } else {
        digits_value(s.drop_last()) * 10 + (s.last() - 48) as nat
    }
}

/// The integer that `b` writes: an optional `+` or `-`, then one or more
/// ASCII digits; none for anything else.
pub open spec fn signed_value(b: Seq<u8>) -> Option<int> {
    if b.len() > 0 && (b[0] == 45 || b[0] == 43) {
        let ds = b.skip(1);
        if ds.len() > 0 && all_digits(ds) {
            Some(if b[0] == 45 { -(digits_value(ds) as int) } else { digits_value(ds) as int })
        } else {
            None
        }
    } else if b.len() > 0 && all_digits(b) {
        Some(digits_value(b) as int)
    } else {
        None
    }
}

/// What `i64::from_str` makes of the text `b`: its value when `b` writes an
/// integer in the range of `i64`, none otherwise.
pub open spec fn parsed_i64(b: Seq<u8>) -> Option<i64> {
    match signed_value(b) {
        Some(v) => if i64::MIN <= v <= i64::MAX { Some(v as i64) } else { None },
        None => None,
    }
}

/// The ASCII decimal digits of `n`, with no leading zero.
pub open spec fn decimal_ascii(n: nat) -> Seq<u8>
    decreases n,
{
    if n < 10 {
        seq![(48 + n) as u8]
    } else {
        decimal_ascii(n / 10).push((48 + n % 10) as u8)
    }
}

/// The ASCII decimal text of an integer, as `ToString` writes it.
pub open spec fn signed_ascii(x: int) -> Seq<u8> {
    if x < 0 { seq![45u8] + decimal_ascii((-x) as nat) } else { decimal_ascii(x as nat) }
}

/// A longer string of digits is worth at least its prefix.
proof fn lemma_digits_prefix(s: Seq<u8>, k: int)
    requires
        0 <= k <= s.len(),
    ensures
        digits_value(s) >= digits_value(s.take(k)),
    decreases s.len(),
{
    if k < s.len() {
        lemma_digits_prefix(s.drop_last(), k);
        assert(s.drop_last().take(k) =~= s.take(k));
    } else {
        assert(s.take(k) =~= s);
    }
}

/// Parse decimal text as an `i64`, as `str::parse::<i64>` does.
pub fn parse_i64(b: &[u8]) -> (r: Option<i64>)
    ensures
        r == parsed_i64(b@),
{
    let n = b.len();
    if n == 0 {
        return None;
    }
    let neg = b[0] == 45;
    let start: usize = if b[0] == 45 || b[0] == 43 { 1 } else { 0 };
    if start == n {
        proof {
            assert(b@.skip(1).len() == 0);
            if start == 0 {
                assert(false);
            }
        }
        return None;
    }
    let mut acc: u64 = 0;
    let mut i: usize = start;
    proof {
        assert(b@.subrange(start as int, start as int) =~= Seq::<u8>::empty());
    }
    while i < n
        invariant
            n == b@.len(),
            start <= i <= n,
            start < n,
            start == 0 || start == 1,
            start == 1 <==> (b@[0] == 45 || b@[0] == 43),
            neg == (b@[0] == 45),
            acc <= 9223372036854775808u64,
            acc == digits_value(b@.subrange(start as int, i as int)),
            all_digits(b@.subrange(start as int, i as int)),
        decreases n - i,
    {
        let c = b[i];
        let ghost pre = b@.subrange(start as int, i as int);
        let ghost cur = b@.subrange(start as int, i + 1);
        proof {
            assert(cur.drop_last() =~= pre);
            assert(cur.last() == c);
        }
        if c < 48 || c > 57 {
            proof {
                let ds = b@.subrange(start as int, n as int);
                assert(!is_digit(ds[i - start]));
                if start == 1 {
                    assert(ds =~= b@.skip(1));
                } else {
                    assert(ds =~= b@);
                }
            }
            return None;
        }
        let next: u128 = (acc as u128) * 10 + ((c - 48) as u128);
        if next > 9223372036854775808u128 {
            proof {
                let ds = b@.subrange(start as int, n as int);
                assert(ds.take(i + 1 - start) =~= cur);
                lemma_digits_prefix(ds, i + 1 - start);
                if start == 1 {
                    assert(ds =~= b@.skip(1));
                } else {
                    assert(ds =~= b@);
                }
            }
            return None;
        }
        acc = next as u64;
        i = i + 1;
        proof {
            assert forall|j: int| 0 <= j < cur.len() implies is_digit(#[trigger] cur[j]) by {
                if j < pre.len() {
                    assert(cur[j] == pre[j]);
                }
            }
        }
    }
    proof {
        let ds = b@.subrange(start as int, n as int);
        if start == 1 {
            assert(ds =~= b@.skip(1));
        } else {
            assert(ds =~= b@);
        }
    }
    if neg {
        if acc == 9223372036854775808u64 {
            Some(i64::MIN)
        } else {
            Some(-(acc as i64))
        }
    } else if acc > 9223372036854775807u64 {
        None
    } else {
        Some(acc as i64)
    }
}

/// Append the ASCII decimal digits of `n` to `out`.
fn push_decimal(n: u64, out: &mut Vec<u8>)
    ensures
        final(out)@ == old(out)@ + decimal_ascii(n as nat),
    decreases n,
{
    if n >= 10 {
        push_decimal(n / 10, out);
    }
    let d: u8 = (n % 10) as u8;
    out.push(48 + d);
    proof {
        if n >= 10 {
            assert(decimal_ascii(n as nat) == decimal_ascii((n / 10) as nat).push((48 + n % 10) as u8));
        }
    }
}

/// The ASCII decimal text of `x`, as `x.to_string().into_bytes()` gives it.
pub fn decimal_bytes(x: i64) -> (r: Vec<u8>)
    ensures
        r@ == signed_ascii(x as int),
{
    let mut out: Vec<u8> = Vec::new();
    if x < 0 {
        out.push(45);
        let m: u64 = if x == i64::MIN { 9223372036854775808u64 } else { (-x) as u64 };
        push_decimal(m, &mut out);
    } else {
        push_decimal(x as u64, &mut out);
    }
    proof {
        assert(out@ =~= signed_ascii(x as int));
    }
    out
}

} // verus!
