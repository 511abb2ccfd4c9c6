//! Character-level text handling for the assembler: whitespace, trimming,
//! searching, and parsing of unsigned numbers in a given radix.
use vstd::prelude::*;

verus! {

/// Unicode `White_Space`: the characters that `char::is_whitespace` accepts.
pub open spec fn is_ws(c: char) -> bool {
    let u = c as u32;
    ||| 0x09 <= u <= 0x0D
    ||| u == 0x20
    ||| u == 0x85
    ||| u == 0xA0
    ||| u == 0x1680
    ||| 0x2000 <= u <= 0x200A
    ||| u == 0x2028
    ||| u == 0x2029
    ||| u == 0x202F
    ||| u == 0x205F
    ||| u == 0x3000
}

/// `s` without its leading whitespace.
pub open spec fn trim_start(s: Seq<char>) -> Seq<char>
    decreases s.len(),
{
    if s.len() > 0 && is_ws(s[0]) {
        trim_start(s.drop_first())
    } else {
        s
    }
}

/// `s` without its trailing whitespace.
pub open spec fn trim_end(s: Seq<char>) -> Seq<char>
    decreases s.len(),
{
    if s.len() > 0 && is_ws(s.last()) {
        trim_end(s.drop_last())
    } else {
        s
    }
}

/// `s` without leading and trailing whitespace (`str::trim`).
pub open spec fn trim(s: Seq<char>) -> Seq<char> {
    trim_end(trim_start(s))
}

/// `s` without its trailing colons (`str::trim_end_matches(':')`).
pub open spec fn trim_end_colons(s: Seq<char>) -> Seq<char>
    decreases s.len(),
{
    if s.len() > 0 && s.last() == ':' {
        trim_end_colons(s.drop_last())
    } else {
        s
    }
}

/// The index of the first whitespace character of `s`, or its length if there is none.
pub open spec fn index_of_ws(s: Seq<char>) -> nat
    decreases s.len(),
{
    if s.len() == 0 {
        0
    } else if is_ws(s[0]) {
        0
    } else {
        1 + index_of_ws(s.drop_first())
    }
}

/// The index of the first occurrence of `c` in `s`, or its length if there is none.
pub open spec fn index_of_char(s: Seq<char>, c: char) -> nat
    decreases s.len(),
{
    if s.len() == 0 {
        0
    } else if s[0] == c {
        0
    } else {
        1 + index_of_char(s.drop_first(), c)
    }
}

/// The value of `c` as a digit in `radix` (`char::to_digit`, for radixes up to 36).
pub open spec fn digit_value(c: char, radix: nat) -> Option<nat> {
    let u = c as u32;
    let d: nat = if 0x30 <= u <= 0x39 {
        (u - 0x30) as nat
    } else if 0x61 <= u <= 0x7A {
        (u - 0x61 + 10) as nat
    } else if 0x41 <= u <= 0x5A {
        (u - 0x41 + 10) as nat
    } else {
        36
    };
    if d < radix {
        Some(d)
    } else {
        None
    }
}

/// Every character of `s` is a digit in `radix`.
pub open spec fn all_digits(s: Seq<char>, radix: nat) -> bool {
    forall|j: int| 0 <= j < s.len() ==> (#[trigger] digit_value(s[j], radix)) is Some
}

/// The number that the digits `s` denote in `radix`, most significant digit first.
pub open spec fn digits_number(s: Seq<char>, radix: nat) -> nat
    decreases s.len(),
{
    if s.len() == 0 {
        0
    } else {
        digits_number(s.drop_last(), radix) * radix + digit_value(s.last(), radix).unwrap()
    }
}

/// `from_str_radix` for an unsigned type whose largest value is `max`: an
/// optional `+`, then at least one digit, and no overflow.
pub open spec fn parse_unsigned(s: Seq<char>, radix: nat, max: nat) -> Option<nat> {
    let digits = if s.len() > 0 && s[0] == '+' {
        s.drop_first()
    } else {
        s
    };
    if digits.len() > 0 && all_digits(digits, radix) && digits_number(digits, radix) <= max {
        Some(digits_number(digits, radix))
    } else {
        None
    }
}

/// Every character of `s` is an ASCII decimal digit.
pub open spec fn all_ascii_digits(s: Seq<char>) -> bool {
    forall|j: int| 0 <= j < s.len() ==> '0' <= #[trigger] s[j] <= '9'
}

pub proof fn lemma_index_of_ws_bound(s: Seq<char>)
    ensures
        index_of_ws(s) <= s.len(),
    decreases s.len(),
{
    if s.len() > 0 && !is_ws(s[0]) {
        lemma_index_of_ws_bound(s.drop_first());
    }
}

pub proof fn lemma_index_of_char_bound(s: Seq<char>, c: char)
    ensures
        index_of_char(s, c) <= s.len(),
    decreases s.len(),
{
    if s.len() > 0 && s[0] != c {
        lemma_index_of_char_bound(s.drop_first(), c);
    }
}

/// The first `c` in `a + q` is the first in `a`, or else the first in `q`
/// shifted by the length of `a`.
pub proof fn lemma_index_of_char_concat(a: Seq<char>, q: Seq<char>, c: char)
    ensures
        index_of_char(a + q, c) == if index_of_char(a, c) < a.len() {
            index_of_char(a, c)
        } else {
            a.len() + index_of_char(q, c)
        },
    decreases a.len(),
{
    lemma_index_of_char_bound(a, c);
    if a.len() == 0 {
        assert(a + q =~= q);
    } else {
        assert((a + q).drop_first() =~= a.drop_first() + q);
        assert((a + q)[0] == a[0]);
        lemma_index_of_char_concat(a.drop_first(), q, c);
    }
}

/// `index_of_ws` is the first position holding whitespace.
proof fn lemma_index_of_ws_is(s: Seq<char>, i: int)
    requires
        0 <= i <= s.len(),
        forall|j: int| 0 <= j < i ==> !is_ws(#[trigger] s[j]),
        i < s.len() ==> is_ws(s[i]),
    ensures
        index_of_ws(s) == i,
    decreases i,
{
    if i > 0 {
        assert(!is_ws(s[0]));
        assert forall|j: int| 0 <= j < i - 1 implies !is_ws(#[trigger] s.drop_first()[j]) by {
            assert(s.drop_first()[j] == s[j + 1]);
        }
        lemma_index_of_ws_is(s.drop_first(), i - 1);
    }
}

/// `index_of_char` is the first position holding `c`.
proof fn lemma_index_of_char_is(s: Seq<char>, c: char, i: int)
    requires
        0 <= i <= s.len(),
        forall|j: int| 0 <= j < i ==> #[trigger] s[j] != c,
        i < s.len() ==> s[i] == c,
    ensures
        index_of_char(s, c) == i,
    decreases i,
{
    if i > 0 {
        assert(s[0] != c);
        assert forall|j: int| 0 <= j < i - 1 implies #[trigger] s.drop_first()[j] != c by {
            assert(s.drop_first()[j] == s[j + 1]);
        }
        lemma_index_of_char_is(s.drop_first(), c, i - 1);
    }
}

/// No `c` stands before `index_of_char(s, c)`, and one stands there unless
/// it is the length of `s`.
pub proof fn lemma_index_of_char_first(s: Seq<char>, c: char)
    ensures
        forall|j: int| 0 <= j < index_of_char(s, c) ==> #[trigger] s[j] != c,
        index_of_char(s, c) < s.len() ==> s[index_of_char(s, c) as int] == c,
    decreases s.len(),
{
    if s.len() > 0 && s[0] != c {
        lemma_index_of_char_first(s.drop_first(), c);
        lemma_index_of_char_bound(s, c);
        assert forall|j: int| 0 <= j < index_of_char(s, c) implies #[trigger] s[j] != c by {
            if j > 0 {
                assert(s[j] == s.drop_first()[j - 1]);
            }
        }
    }
}

/// Trimming the start of `s` drops some first characters.
pub proof fn lemma_trim_start_is_suffix(s: Seq<char>) -> (m: int)
    ensures
        0 <= m <= s.len(),
        trim_start(s) == s.skip(m),
    decreases s.len(),
{
    if s.len() > 0 && is_ws(s[0]) {
        let m1 = lemma_trim_start_is_suffix(s.drop_first());
        assert(s.drop_first().skip(m1) =~= s.skip(m1 + 1));
        m1 + 1
    } else {
        assert(s.skip(0) =~= s);
        0
    }
}

/// Trimming the end of `s` drops some last characters.
pub proof fn lemma_trim_end_is_prefix(s: Seq<char>) -> (m: int)
    ensures
        0 <= m <= s.len(),
        trim_end(s) == s.take(m),
    decreases s.len(),
{
    if s.len() > 0 && is_ws(s.last()) {
        let m1 = lemma_trim_end_is_prefix(s.drop_last());
        assert(s.drop_last().take(m1) =~= s.take(m1));
        m1
    } else {
        assert(s.take(s.len() as int) =~= s);
        s.len() as int
    }
}

/// A character that does not occur in `s` does not occur in `trim(s)`.
pub proof fn lemma_trim_keeps_absent(s: Seq<char>, c: char)
    requires
        !s.contains(c),
    ensures
        !trim(s).contains(c),
{
    let a = lemma_trim_start_is_suffix(s);
    let b = lemma_trim_end_is_prefix(trim_start(s));
    assert forall|j: int| 0 <= j < trim(s).len() implies #[trigger] trim(s)[j] != c by {
        assert(trim(s)[j] == s[a + j]);
    }
}

/// `trim_end_colons(s)` is `s` without the run of colons that ends it: a
/// prefix of `s` that does not end in a colon, followed in `s` by colons only.
pub proof fn lemma_trim_end_colons_shape(s: Seq<char>)
    ensures
        trim_end_colons(s).len() <= s.len(),
        trim_end_colons(s) == s.take(trim_end_colons(s).len() as int),
        forall|j: int| trim_end_colons(s).len() <= j < s.len() ==> #[trigger] s[j] == ':',
        trim_end_colons(s).len() == 0 || trim_end_colons(s).last() != ':',
    decreases s.len(),
{
    if s.len() > 0 && s.last() == ':' {
        let d = s.drop_last();
        lemma_trim_end_colons_shape(d);
        let w = trim_end_colons(d);
        assert(d.take(w.len() as int) =~= s.take(w.len() as int));
        assert forall|j: int| w.len() <= j < s.len() implies #[trigger] s[j] == ':' by {
            if j < s.len() - 1 {
                assert(s[j] == d[j]);
            }
        }
    } else {
        assert(s.take(s.len() as int) =~= s);
    }
}

/// Whether `c` is whitespace (`char::is_whitespace`).
pub fn is_whitespace(c: char) -> (r: bool)
    ensures
        r == is_ws(c),
{
    let u = c as u32;
    (0x09 <= u && u <= 0x0D) || u == 0x20 || u == 0x85 || u == 0xA0 || u == 0x1680 || (0x2000
        <= u && u <= 0x200A) || u == 0x2028 || u == 0x2029 || u == 0x202F || u == 0x205F || u
        == 0x3000
}

/// The characters of `s`, in order.
pub fn to_chars(s: &str) -> (chars: Vec<char>)
    ensures
        chars@ == s@,
{
    let mut chars: Vec<char> = Vec::new();
    for c in it: s.chars()
        invariant
            chars@ == it.seq().take(it.index() as int),
    {
        chars.push(c);
    }
    assert(chars@ =~= s@);
    chars
}

/// Appends `c` to `s` (`String::push`).
#[verifier::external_body]
fn string_push(s: &mut String, c: char)
    ensures
        final(s)@ == old(s)@.push(c),
{
    s.push(c);
}

/// The string made of the characters `s`.
pub fn chars_to_string(s: &[char]) -> (r: String)
    ensures
        r@ == s@,
{
    let mut r = String::new();
    let mut k: usize = 0;
    while k < s.len()
        invariant
            k <= s@.len(),
            r@ == s@.take(k as int),
        decreases s@.len() - k,
    {
        string_push(&mut r, s[k]);
        k = k + 1;
        assert(r@ =~= s@.take(k as int));
    }
    assert(s@.take(s@.len() as int) =~= s@);
    r
}

/// `s` without leading and trailing whitespace (`str::trim`).
pub fn trim_chars(s: &[char]) -> (r: &[char])
    ensures
        r@ == trim(s@),
{
    let len = s.len();
    let mut lo: usize = 0;
    assert(s@.subrange(0, len as int) =~= s@);
    while lo < len && is_whitespace(s[lo])
        invariant
            lo <= len,
            len == s@.len(),
            trim_start(s@) == trim_start(s@.subrange(lo as int, len as int)),
        decreases len - lo,
    {
        assert(s@.subrange(lo as int, len as int).drop_first() =~= s@.subrange(
            lo + 1,
            len as int,
        ));
        lo = lo + 1;
    }
    assert(trim_start(s@.subrange(lo as int, len as int)) == s@.subrange(lo as int, len as int));
    assert(s@.subrange(0, len as int) =~= s@);
    let mut hi: usize = len;
    while hi > lo && is_whitespace(s[hi - 1])
        invariant
            lo <= hi <= len,
            len == s@.len(),
            trim(s@) == trim_end(s@.subrange(lo as int, hi as int)),
        decreases hi,
    {
        assert(s@.subrange(lo as int, hi as int).drop_last() =~= s@.subrange(
            lo as int,
            hi - 1,
        ));
        hi = hi - 1;
    }
    &s[lo..hi]
}

/// `s` without its trailing colons (`str::trim_end_matches(':')`).
pub fn trim_end_colons_chars(s: &[char]) -> (r: &[char])
    ensures
        r@ == trim_end_colons(s@),
{
    let mut hi: usize = s.len();
    assert(s@.subrange(0, hi as int) =~= s@);
    while hi > 0 && s[hi - 1] == ':'
        invariant
            hi <= s@.len(),
            trim_end_colons(s@) == trim_end_colons(s@.subrange(0, hi as int)),
        decreases hi,
    {
        assert(s@.subrange(0, hi as int).drop_last() =~= s@.subrange(0, hi - 1));
        hi = hi - 1;
    }
    &s[0..hi]
}

/// The index of the first whitespace character of `s`, or its length.
pub fn find_whitespace(s: &[char]) -> (k: usize)
    ensures
        k == index_of_ws(s@),
{
    let mut k: usize = 0;
    while k < s.len() && !is_whitespace(s[k])
        invariant
            k <= s@.len(),
            forall|j: int| 0 <= j < k ==> !is_ws(#[trigger] s@[j]),
        decreases s@.len() - k,
    {
        k = k + 1;
    }
    proof {
        lemma_index_of_ws_is(s@, k as int);
    }
    k
}

/// The index of the first occurrence of `c` in `s`, or its length.
pub fn find_char(s: &[char], c: char) -> (k: usize)
    ensures
        k == index_of_char(s@, c),
{
    let mut k: usize = 0;
    while k < s.len() && s[k] != c
        invariant
            k <= s@.len(),
            forall|j: int| 0 <= j < k ==> #[trigger] s@[j] != c,
        decreases s@.len() - k,
    {
        k = k + 1;
    }
    proof {
        lemma_index_of_char_is(s@, c, k as int);
    }
    k
}

/// Whether the two character sequences are equal.
pub fn chars_eq(a: &[char], b: &[char]) -> (r: bool)
    ensures
        r == (a@ == b@),
{
    if a.len() != b.len() {
        return false;
    }
    let mut k: usize = 0;
    while k < a.len()
        invariant
            a@.len() == b@.len(),
            k <= a@.len(),
            forall|j: int| 0 <= j < k ==> a@[j] == b@[j],
        decreases a@.len() - k,
    {
        if a[k] != b[k] {
            return false;
        }
        k = k + 1;
    }
    assert(a@ =~= b@);
    true
}

/// Whether every character of `s` is an ASCII decimal digit.
pub fn is_all_ascii_digits(s: &[char]) -> (r: bool)
    ensures
        r == all_ascii_digits(s@),
{
    let mut k: usize = 0;
    while k < s.len()
        invariant
            k <= s@.len(),
            forall|j: int| 0 <= j < k ==> '0' <= #[trigger] s@[j] <= '9',
        decreases s@.len() - k,
    {
        if !('0' <= s[k] && s[k] <= '9') {
            return false;
        }
        k = k + 1;
    }
    true
}

/// The value of `c` as a digit in `radix`.
fn to_digit(c: char, radix: u32) -> (r: Option<u32>)
    requires
        2 <= radix <= 36,
    ensures
        r matches Some(d) ==> digit_value(c, radix as nat) == Some(d as nat),
        r is None ==> digit_value(c, radix as nat) is None,
{
    let u = c as u32;
    let d: u32 = if 0x30 <= u && u <= 0x39 {
        u - 0x30
    } else if 0x61 <= u && u <= 0x7A {
        u - 0x61 + 10
    } else if 0x41 <= u && u <= 0x5A {
        u - 0x41 + 10
    } else {
        36
    };
    if d < radix {
        Some(d)
    } else {
        None
    }
}

proof fn lemma_number_grows(v: nat, radix: nat, d: nat)
    requires
        radix >= 1,
    ensures
        v * radix + d >= v,
{
    assert(v * radix >= v) by (nonlinear_arith)
        requires
            radix >= 1,
    ;
}

/// `from_str_radix` for an unsigned type whose largest value is `max`.
pub fn parse_unsigned_chars(s: &[char], radix: u32, max: u32) -> (r: Option<u32>)
    requires
        radix == 10 || radix == 16,
        max <= 0xFFFF,
    ensures
        r matches Some(v) ==> parse_unsigned(s@, radix as nat, max as nat) == Some(v as nat),
        r is None ==> parse_unsigned(s@, radix as nat, max as nat) is None,
{
    let digits: &[char] = if s.len() > 0 && s[0] == '+' {
        &s[1..s.len()]
    } else {
        s
    };
    assert(digits@ == (if s@.len() > 0 && s@[0] == '+' {
        s@.drop_first()
    } else {
        s@
    }));
    if digits.len() == 0 {
        return None;
    }
    // `acc` is the value of the digits read so far, saturated at `max + 1`.
    let mut acc: u32 = 0;
    let mut k: usize = 0;
    assert(digits@.take(0) =~= Seq::<char>::empty());
    while k < digits.len()
        invariant
            radix == 10 || radix == 16,
            max <= 0xFFFF,
            digits@ == (if s@.len() > 0 && s@[0] == '+' {
                s@.drop_first()
            } else {
                s@
            }),
            k <= digits@.len(),
            all_digits(digits@.take(k as int), radix as nat),
            acc == if digits_number(digits@.take(k as int), radix as nat) <= max {
                digits_number(digits@.take(k as int), radix as nat) as int
            } else {
                max + 1
            },
        decreases digits@.len() - k,
    {
        let ghost prefix = digits@.take(k as int);
        let ghost next = digits@.take(k + 1);
        assert(next.drop_last() =~= prefix);
        assert(next.last() == digits@[k as int]);
        match to_digit(digits[k], radix) {
            None => {
                assert(digit_value(digits@[k as int], radix as nat) is None);
                assert(!all_digits(digits@, radix as nat));
                assert(parse_unsigned(s@, radix as nat, max as nat) is None);
                return None;
            },
            Some(d) => {
                proof {
                    lemma_number_grows(digits_number(prefix, radix as nat), radix as nat, d as nat);
                }
                if acc <= max {
                    acc = acc * radix + d;
                    if acc > max {
                        acc = max + 1;
                    }
                }
                k = k + 1;
                assert forall|j: int| 0 <= j < k implies (#[trigger] digit_value(
                    digits@.take(k as int)[j],
                    radix as nat,
                )) is Some by {
                    if j < k - 1 {
                        assert(digits@.take(k as int)[j] == prefix[j]);
                    }
                }
            },
        }
    }
    assert(digits@.take(digits@.len() as int) =~= digits@);
    if acc <= max {
        Some(acc)
    } else {
        None
    }
}

} // verus!
