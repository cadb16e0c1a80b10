//! Byte strings: the vocabulary every other module states its contracts in.
//!
//! Everything on the wire is bytes, so the models here are `Seq<u8>`: searching,
//! comparing with and without regard to case, decimal and hexadecimal digits,
//! and big-endian integers. Text literals appear in contracts as
//! `utf8("..."@)`.

use vstd::prelude::*;
use vstd::string::*;

verus! {

// ---------------------------------------------------------------- text

/// The bytes of a text.
pub open spec fn utf8(s: Seq<char>) -> Seq<u8> {
    vstd::utf8::encode_utf8(s)
}

/// The text that one-byte characters spell.
pub open spec fn ascii_text(s: Seq<u8>) -> Seq<char> {
    s.map_values(|b: u8| b as char)
}

/// Every byte stands for itself as a character.
pub open spec fn is_ascii(s: Seq<u8>) -> bool {
    forall|i: int| 0 <= i < s.len() ==> s[i] < 128
}

/// Two texts with the same bytes are the same text.
pub proof fn lemma_utf8_injective(a: Seq<char>, b: Seq<char>)
    ensures
        utf8(a) == utf8(b) <==> a == b,
{
    vstd::utf8::encode_utf8_decode_utf8(a);
    vstd::utf8::encode_utf8_decode_utf8(b);
}

/// ASCII bytes are the encoding of the text they spell.
pub proof fn lemma_ascii_text(s: Seq<u8>)
    requires
        is_ascii(s),
    ensures
        utf8(ascii_text(s)) == s,
        vstd::utf8::valid_utf8(s),
{
    broadcast use vstd::utf8::group_utf8_lib;

    let t = ascii_text(s);
    assert(vstd::utf8::is_ascii_chars(t)) by {
        assert forall|i: int| 0 <= i < t.len() implies '\0' <= #[trigger] t[i] <= '\u{7f}' by {
            assert(t[i] == s[i] as char);
        }
    }
    vstd::utf8::is_ascii_chars_encode_utf8(t);
    assert(utf8(t) =~= s) by {
        assert forall|i: int| 0 <= i < s.len() implies utf8(t)[i] == s[i] by {
            assert(t[i] == s[i] as char);
        }
    }
    vstd::utf8::encode_utf8_valid_utf8(t);
}

/// ASCII characters take a byte each.
pub proof fn lemma_ascii_len(t: Seq<char>)
    requires
        vstd::utf8::is_ascii_chars(t),
    ensures
        utf8(t).len() == t.len(),
{
    vstd::utf8::is_ascii_chars_encode_utf8(t);
}

/// `core::str::from_utf8`: succeeds exactly on valid UTF-8, and the text it
/// returns encodes to the bytes it was given.
#[verifier::external_body]
pub(crate) fn to_text(s: &[u8]) -> (r: Option<&str>)
    ensures
        r is Some <==> vstd::utf8::valid_utf8(s@),
        r matches Some(t) ==> utf8(t@) == s@,
{
    core::str::from_utf8(s).ok()
}

/// The text that ASCII bytes spell.
pub fn ascii_string(s: &[u8]) -> (r: String)
    requires
        is_ascii(s@),
    ensures
        utf8(r@) == s@,
        r@ == ascii_text(s@),
{
    proof {
        lemma_ascii_text(s@);
    }
    match to_text(s) {
        Some(t) => {
            proof {
                lemma_utf8_injective(t@, ascii_text(s@));
            }
            t.to_owned()
        },
        None => String::new(),
    }
}


// ---------------------------------------------------------------- case

/// A byte with `A` to `Z` brought to lower case.
pub open spec fn lower(b: u8) -> u8 {
    if 65 <= b <= 90 {
        (b + 32) as u8
    } else {
        b
    }
}

/// A byte with `a` to `z` brought to upper case.
pub open spec fn upper(b: u8) -> u8 {
    if 97 <= b <= 122 {
        (b - 32) as u8
    } else {
        b
    }
}

/// A byte string brought to lower case.
pub open spec fn lowered(s: Seq<u8>) -> Seq<u8> {
    Seq::new(s.len(), |i: int| lower(s[i]))
}

/// Equality up to ASCII case, as header names compare.
pub open spec fn same_name(a: Seq<u8>, b: Seq<u8>) -> bool {
    lowered(a) == lowered(b)
}

/// Lowers one byte.
pub fn to_lower(b: u8) -> (r: u8)
    ensures
        r == lower(b),
{
    if b >= 65 && b <= 90 {
        b + 32
    } else {
        b
    }
}

/// Raises one byte to upper case.
pub fn to_upper(b: u8) -> (r: u8)
    ensures
        r == upper(b),
{
    if b >= 97 && b <= 122 {
        b - 32
    } else {
        b
    }
}

/// Lowers a byte string.
pub fn to_lowered(s: &[u8]) -> (r: Vec<u8>)
    ensures
        r@ == lowered(s@),
{
    let mut out: Vec<u8> = Vec::new();
    for i in 0..s.len()
        invariant
            out@ == lowered(s@).subrange(0, i as int),
    {
        out.push(to_lower(s[i]));
    }
    out
}

/// Compares two byte strings.
pub fn same(a: &[u8], b: &[u8]) -> (r: bool)
    ensures
        r == (a@ == b@),
{
    if a.len() != b.len() {
        return false;
    }
    for i in 0..a.len()
        invariant
            a@.len() == b@.len(),
            forall|j: int| 0 <= j < i ==> a@[j] == b@[j],
    {
        if a[i] != b[i] {
            return false;
        }
    }
    assert(a@ =~= b@);
    true
}

/// Compares two byte strings up to ASCII case.
pub fn same_ignoring_case(a: &[u8], b: &[u8]) -> (r: bool)
    ensures
        r == same_name(a@, b@),
{
    if a.len() != b.len() {
        assert(lowered(a@).len() != lowered(b@).len());
        return false;
    }
    for i in 0..a.len()
        invariant
            a@.len() == b@.len(),
            forall|j: int| 0 <= j < i ==> lower(a@[j]) == lower(b@[j]),
    {
        if to_lower(a[i]) != to_lower(b[i]) {
            assert(lowered(a@)[i as int] != lowered(b@)[i as int]);
            return false;
        }
    }
    assert(lowered(a@) =~= lowered(b@));
    true
}

/// Compares a byte string with a text.
pub fn is_text(a: &[u8], t: &str) -> (r: bool)
    ensures
        r == (a@ == utf8(t@)),
{
    same(a, t.as_bytes())
}

/// Compares a byte string with a text up to ASCII case.
pub fn is_name(a: &[u8], t: &str) -> (r: bool)
    ensures
        r == same_name(a@, utf8(t@)),
{
    same_ignoring_case(a, t.as_bytes())
}

/// Compares two texts.
pub fn same_text(a: &str, b: &str) -> (r: bool)
    ensures
        r == (a@ == b@),
{
    proof {
        lemma_utf8_injective(a@, b@);
    }
    same(a.as_bytes(), b.as_bytes())
}

// ---------------------------------------------------------------- searching

/// `p` begins `s`.
pub open spec fn starts(s: Seq<u8>, p: Seq<u8>) -> bool {
    p.len() <= s.len() && s.subrange(0, p.len() as int) == p
}

/// `p` ends `s`.
pub open spec fn ends(s: Seq<u8>, p: Seq<u8>) -> bool {
    p.len() <= s.len() && s.subrange(s.len() - p.len(), s.len() as int) == p
}

/// The place of the first `c` at or after `from`, or the length when there is
/// none.
pub open spec fn find(s: Seq<u8>, c: u8, from: int) -> int
    decreases s.len() - from,
{
    if from >= s.len() || from < 0 {
        s.len() as int
    } else if s[from] == c {
        from
    } else {
        find(s, c, from + 1)
    }
}

/// What `find` finds, without the recursion.
pub proof fn lemma_find(s: Seq<u8>, c: u8, from: int)
    requires
        0 <= from <= s.len(),
    ensures
        from <= find(s, c, from) <= s.len(),
        find(s, c, from) < s.len() ==> s[find(s, c, from)] == c,
        forall|j: int| from <= j < find(s, c, from) ==> s[j] != c,
    decreases s.len() - from,
{
    if from < s.len() && s[from] != c {
        lemma_find(s, c, from + 1);
    }
}

/// A place with those properties is the one `find` finds.
pub proof fn lemma_find_is(s: Seq<u8>, c: u8, from: int, at: int)
    requires
        0 <= from <= at <= s.len(),
        forall|j: int| from <= j < at ==> s[j] != c,
        at < s.len() ==> s[at] == c,
    ensures
        find(s, c, from) == at,
    decreases at - from,
{
    if from < at {
        lemma_find_is(s, c, from + 1, at);
    }
}

/// `c` occurs in `s`.
pub open spec fn has(s: Seq<u8>, c: u8) -> bool {
    find(s, c, 0) < s.len()
}

/// Finds the first `c` at or after `from`; the length when there is none.
pub fn find_from(s: &[u8], c: u8, from: usize) -> (r: usize)
    requires
        from <= s@.len(),
    ensures
        r == find(s@, c, from as int),
        from <= r <= s@.len(),
        r < s@.len() ==> s@[r as int] == c,
        forall|j: int| from <= j < r ==> s@[j] != c,
{
    let mut i: usize = from;
    while i < s.len()
        invariant
            from <= i <= s@.len(),
            forall|j: int| from <= j < i ==> s@[j] != c,
        ensures
            from <= i <= s@.len(),
            forall|j: int| from <= j < i ==> s@[j] != c,
            i < s@.len() ==> s@[i as int] == c,
        decreases s@.len() - i,
    {
        if s[i] == c {
            break;
        }
        i += 1;
    }
    proof {
        lemma_find_is(s@, c, from as int, i as int);
    }
    i
}

/// Tells whether `c` occurs.
pub fn contains(s: &[u8], c: u8) -> (r: bool)
    ensures
        r == has(s@, c),
{
    find_from(s, c, 0) < s.len()
}

/// Tells whether `p` begins `s`.
pub fn starts_with(s: &[u8], p: &[u8]) -> (r: bool)
    ensures
        r == starts(s@, p@),
{
    if p.len() > s.len() {
        return false;
    }
    same(&s[0..p.len()], p)
}

/// Tells whether `p` ends `s`.
pub fn ends_with(s: &[u8], p: &[u8]) -> (r: bool)
    ensures
        r == ends(s@, p@),
{
    if p.len() > s.len() {
        return false;
    }
    same(&s[s.len() - p.len()..s.len()], p)
}

/// The place of the first occurrence of `p` at or after `from`, or -1.
pub open spec fn find_seq(s: Seq<u8>, p: Seq<u8>, from: int) -> int
    decreases s.len() + 1 - from,
{
    if from < 0 || from + p.len() > s.len() {
        -1
    } else if s.subrange(from, from + p.len()) == p {
        from
    } else {
        find_seq(s, p, from + 1)
    }
}

/// Finds the first occurrence of `p` at or after `from`.
pub fn find_slice(s: &[u8], p: &[u8], from: usize) -> (r: Option<usize>)
    requires
        from <= s@.len(),
    ensures
        match r {
            Some(i) => find_seq(s@, p@, from as int) == i && i + p@.len() <= s@.len(),
            None => find_seq(s@, p@, from as int) == -1,
        },
{
    if p.len() > s.len() || from > s.len() - p.len() {
        return None;
    }
    let last: usize = s.len() - p.len();
    let mut i: usize = from;
    loop
        invariant
            from <= i <= last,
            last + p@.len() == s.len(),
            find_seq(s@, p@, from as int) == find_seq(s@, p@, i as int),
        decreases last - i,
    {
        if same(&s[i..i + p.len()], p) {
            return Some(i);
        }
        if i == last {
            proof {
                reveal_with_fuel(find_seq, 2);
            }
            return None;
        }
        i += 1;
    }
}

/// `a` is never followed by `b`.
pub open spec fn no_pair(s: Seq<u8>, a: u8, b: u8) -> bool {
    forall|i: int| 0 <= i < s.len() - 1 ==> !(#[trigger] s[i] == a && s[i + 1] == b)
}

/// A pattern that stands at `at` and nowhere before is found there.
pub proof fn lemma_find_seq_is(s: Seq<u8>, p: Seq<u8>, from: int, at: int)
    requires
        0 <= from <= at,
        at + p.len() <= s.len(),
        s.subrange(at, at + p.len()) == p,
        forall|i: int| from <= i < at ==> #[trigger] s.subrange(i, i + p.len()) != p,
    ensures
        find_seq(s, p, from) == at,
    decreases at - from,
{
    if from < at {
        assert(s.subrange(from, from + p.len()) != p);
        lemma_find_seq_is(s, p, from + 1, at);
    }
}

/// A pattern that stands nowhere is not found.
pub proof fn lemma_find_seq_none(s: Seq<u8>, p: Seq<u8>, from: int)
    requires
        0 <= from,
        forall|i: int| from <= i && i + p.len() <= s.len() ==> #[trigger] s.subrange(i, i + p.len()) != p,
    ensures
        find_seq(s, p, from) == -1,
    decreases s.len() + 1 - from,
{
    if from + p.len() <= s.len() {
        assert(s.subrange(from, from + p.len()) != p);
        lemma_find_seq_none(s, p, from + 1);
    }
}

/// What `find_seq` says, without the recursion.
pub proof fn lemma_find_seq(s: Seq<u8>, p: Seq<u8>, from: int)
    requires
        0 <= from,
    ensures
        find_seq(s, p, from) == -1 || (from <= find_seq(s, p, from) && find_seq(s, p, from) + p.len()
            <= s.len() && s.subrange(
            find_seq(s, p, from),
            find_seq(s, p, from) + p.len(),
        ) == p),
        find_seq(s, p, from) == -1 ==> forall|i: int|
            from <= i && i + p.len() <= s.len() ==> #[trigger] s.subrange(i, i + p.len()) != p,
        find_seq(s, p, from) != -1 ==> forall|i: int|
            from <= i < find_seq(s, p, from) ==> #[trigger] s.subrange(i, i + p.len()) != p,
    decreases s.len() + 1 - from,
{
    if from + p.len() <= s.len() && s.subrange(from, from + p.len()) != p {
        lemma_find_seq(s, p, from + 1);
    }
}

/// Two different bytes are found right behind a string without that pair.
pub proof fn lemma_find_pair(s: Seq<u8>, a: u8, b: u8, rest: Seq<u8>)
    requires
        no_pair(s, a, b),
        a != b,
    ensures
        find_seq(s + seq![a, b] + rest, seq![a, b], 0) == s.len(),
{
    let t = s + seq![a, b] + rest;
    let p = seq![a, b];
    assert(t.subrange(s.len() as int, s.len() + 2int) =~= p);
    assert forall|i: int| 0 <= i < s.len() implies #[trigger] t.subrange(i, i + p.len()) != p by {
        let u = t.subrange(i, i + 2);
        if u == p {
            assert(u[0] == a && u[1] == b);
            assert(t[i] == s[i]);
            if i + 1 < s.len() {
                assert(t[i + 1] == s[i + 1]);
            } else {
                assert(t[i + 1] == a);
            }
        }
    }
    lemma_find_seq_is(t, p, 0, s.len() as int);
}

// ---------------------------------------------------------------- digits

/// A digit in base ten or sixteen, letters in lower case.
pub open spec fn digit(d: nat) -> u8 {
    if d < 10 {
        (48 + d) as u8
    } else {
        (87 + d) as u8
    }
}

/// A number in decimal, without leading zeros.
pub open spec fn decimal(n: nat) -> Seq<u8>
    decreases n,
{
    if n < 10 {
        seq![digit(n)]
    } else {
        decimal(n / 10).push(digit(n % 10))
    }
}

/// A number in hexadecimal, without leading zeros.
pub open spec fn hex(n: nat) -> Seq<u8>
    decreases n,
{
    if n < 16 {
        seq![digit(n)]
    } else {
        hex(n / 16).push(digit(n % 16))
    }
}

/// The last `width` hexadecimal digits of a number, zeros in front.
pub open spec fn hex_padded(n: nat, width: nat) -> Seq<u8>
    decreases width,
{
    if width == 0 {
        Seq::empty()
    } else {
        hex_padded(n / 16, (width - 1) as nat).push(digit(n % 16))
    }
}

pub open spec fn is_digit(b: u8) -> bool {
    48 <= b <= 57
}

pub open spec fn all_digits(s: Seq<u8>) -> bool {
    forall|i: int| 0 <= i < s.len() ==> is_digit(s[i])
}

/// The number that decimal digits spell.
pub open spec fn decimal_value(s: Seq<u8>) -> nat
    decreases s.len(),
{
    if s.len() == 0 {
        0
    } else {
        decimal_value(s.drop_last()) * 10 + (s.last() - 48) as nat
    }
}

/// The number a text denotes: digits, with an optional `+` in front.
pub open spec fn unsigned(s: Seq<u8>) -> Option<nat> {
    let d = if s.len() > 0 && s[0] == 43 {
        s.subrange(1, s.len() as int)
    } else {
        s
    };
    if d.len() > 0 && all_digits(d) {
        Some(decimal_value(d))
    } else {
        None
    }
}

/// `unsigned`, when the number is at most `max`.
pub open spec fn unsigned_within(s: Seq<u8>, max: nat) -> Option<nat> {
    match unsigned(s) {
        Some(n) if n <= max => Some(n),
        _ => None,
    }
}

/// Reading back a printed number gives the number.
pub proof fn lemma_decimal(n: nat)
    ensures
        decimal_value(decimal(n)) == n,
        all_digits(decimal(n)),
        decimal(n).len() > 0,
        unsigned(decimal(n)) == Some(n),
    decreases n,
{
    if n >= 10 {
        lemma_decimal(n / 10);
        let d = decimal(n / 10);
        assert(decimal(n) == d.push(digit(n % 10)));
        assert(decimal(n).drop_last() =~= d);
    } else {
        assert(decimal(n).drop_last() =~= Seq::<u8>::empty());
        assert(decimal_value(Seq::<u8>::empty()) == 0);
    }
    assert(is_digit(decimal(n)[0]));
}

pub proof fn lemma_decimal_is_ascii(n: nat)
    ensures
        is_ascii(decimal(n)),
{
    lemma_decimal(n);
    assert forall|i: int| 0 <= i < decimal(n).len() implies decimal(n)[i] < 128 by {
        assert(is_digit(decimal(n)[i]));
    }
}

pub proof fn lemma_hex_is_ascii(n: nat)
    ensures
        is_ascii(hex(n)),
    decreases n,
{
    if n >= 16 {
        lemma_hex_is_ascii(n / 16);
    }
}

pub proof fn lemma_hex_padded(n: nat, width: nat)
    ensures
        hex_padded(n, width).len() == width,
        is_ascii(hex_padded(n, width)),
    decreases width,
{
    if width > 0 {
        lemma_hex_padded(n / 16, (width - 1) as nat);
    }
}

/// Appends a number in decimal.
pub fn push_decimal(out: &mut Vec<u8>, n: u64)
    ensures
        final(out)@ == old(out)@ + decimal(n as nat),
    decreases n,
{
    if n >= 10 {
        push_decimal(out, n / 10);
    }
    let d: u8 = (n % 10) as u8;
    out.push(48 + d);
    assert(out@ =~= old(out)@ + decimal(n as nat));
}

/// Appends a number in hexadecimal.
pub fn push_hex(out: &mut Vec<u8>, n: u64)
    ensures
        final(out)@ == old(out)@ + hex(n as nat),
    decreases n,
{
    if n >= 16 {
        push_hex(out, n / 16);
    }
    let d: u8 = (n % 16) as u8;
    out.push(if d < 10 { 48 + d } else { 87 + d });
    assert(out@ =~= old(out)@ + hex(n as nat));
}

/// Appends the last `width` hexadecimal digits of a number.
pub fn push_hex_padded(out: &mut Vec<u8>, n: u64, width: usize)
    ensures
        final(out)@ == old(out)@ + hex_padded(n as nat, width as nat),
    decreases width,
{
    if width > 0 {
        push_hex_padded(out, n / 16, width - 1);
        let d: u8 = (n % 16) as u8;
        out.push(if d < 10 { 48 + d } else { 87 + d });
    }
    assert(out@ =~= old(out)@ + hex_padded(n as nat, width as nat));
}

proof fn lemma_decimal_value_grows(s: Seq<u8>, i: int)
    requires
        0 <= i <= s.len(),
        all_digits(s),
    ensures
        decimal_value(s.subrange(0, i)) <= decimal_value(s),
    decreases s.len(),
{
    if i < s.len() {
        lemma_decimal_value_grows(s.drop_last(), i);
        assert(s.drop_last().subrange(0, i) =~= s.subrange(0, i));
    } else {
        assert(s.subrange(0, i) =~= s);
    }
}

/// Reads a decimal number no larger than `max`, with an optional `+`.
pub fn parse_unsigned(s: &[u8], max: u64) -> (r: Option<u64>)
    ensures
        match r {
            Some(n) => unsigned_within(s@, max as nat) == Some(n as nat),
            None => unsigned_within(s@, max as nat) is None,
        },
{
    let start: usize = if s.len() > 0 && s[0] == 43 {
        1
    } else {
        0
    };
    if start == s.len() {
        return None;
    }
    let ghost d = s@.subrange(start as int, s@.len() as int);
    proof {
        if start == 0 {
            assert(d =~= s@);
        }
    }
    let mut v: u64 = 0;
    let mut i: usize = start;
    let ghost mut seen = Seq::<u8>::empty();
    let mut over: bool = false;
    while i < s.len()
        invariant
            start <= i <= s@.len(),
            d == s@.subrange(start as int, s@.len() as int),
            all_digits(d.subrange(0, i - start)),
            !over ==> v == decimal_value(d.subrange(0, i - start)),
            !over ==> v <= max,
            over ==> decimal_value(d.subrange(0, i - start)) > max,
            d.len() > 0,
            start == 0 || start == 1,
            (if s@.len() > 0 && s@[0] == 43 {
                s@.subrange(1, s@.len() as int)
            } else {
                s@
            }) == d,
        decreases s@.len() - i,
    {
        let b: u8 = s[i];
        assert(b == d[i - start]);
        if b < 48 || b > 57 {
            assert(!is_digit(d[i - start]));
            return None;
        }
        proof {
            let p = d.subrange(0, i - start);
            let q = d.subrange(0, i - start + 1);
            assert(q.drop_last() =~= p);
            assert(q.last() == b);
            assert forall|j: int| 0 <= j < q.len() implies is_digit(q[j]) by {
                if j < p.len() {
                    assert(p[j] == q[j]);
                }
            }
            assert(decimal_value(q) == decimal_value(p) * 10 + (b - 48));
        }
        if !over {
            let c: u64 = (b - 48) as u64;
            if c > max || v > (max - c) / 10 {
                over = true;
            } else {
                v = v * 10 + c;
            }
        }
        i += 1;
    }
    assert(d.subrange(0, i - start) =~= d);
    if over {
        None
    } else {
        Some(v)
    }
}

// ---------------------------------------------------------------- big-endian

/// 256 to the power of `n`.
pub open spec fn pow256(n: nat) -> nat
    decreases n,
{
    if n == 0 {
        1
    } else {
        256 * pow256((n - 1) as nat)
    }
}

/// The last `width` bytes of a number, most significant first.
pub open spec fn be(n: nat, width: nat) -> Seq<u8>
    decreases width,
{
    if width == 0 {
        Seq::empty()
    } else {
        be(n / 256, (width - 1) as nat).push((n % 256) as u8)
    }
}

/// The number that bytes spell, most significant first.
pub open spec fn be_value(s: Seq<u8>) -> nat
    decreases s.len(),
{
    if s.len() == 0 {
        0
    } else {
        be_value(s.drop_last()) * 256 + s.last() as nat
    }
}

pub proof fn lemma_be_len(n: nat, width: nat)
    ensures
        be(n, width).len() == width,
    decreases width,
{
    if width > 0 {
        lemma_be_len(n / 256, (width - 1) as nat);
    }
}

/// Reading back written bytes gives the number, when it fits.
pub proof fn lemma_be_round_trip(n: nat, width: nat)
    requires
        n < pow256(width),
    ensures
        be_value(be(n, width)) == n,
        be(n, width).len() == width,
    decreases width,
{
    lemma_be_len(n, width);
    if width > 0 {
        lemma_be_round_trip(n / 256, (width - 1) as nat);
        assert(be(n, width).drop_last() =~= be(n / 256, (width - 1) as nat));
    }
}

pub proof fn lemma_be_value_bound(s: Seq<u8>)
    ensures
        be_value(s) < pow256(s.len()),
    decreases s.len(),
{
    if s.len() > 0 {
        lemma_be_value_bound(s.drop_last());
    }
}

pub proof fn lemma_pow256()
    ensures
        pow256(1) == 0x100,
        pow256(2) == 0x1_0000,
        pow256(3) == 0x100_0000,
        pow256(4) == 0x1_0000_0000,
        pow256(8) == 0x1_0000_0000_0000_0000,
{
    reveal_with_fuel(pow256, 9);
}

/// Appends the last `width` bytes of a number, most significant first.
pub fn push_be(out: &mut Vec<u8>, n: u64, width: usize)
    ensures
        final(out)@ == old(out)@ + be(n as nat, width as nat),
    decreases width,
{
    if width > 0 {
        push_be(out, n / 256, width - 1);
        out.push((n % 256) as u8);
    }
    assert(out@ =~= old(out)@ + be(n as nat, width as nat));
}

/// Reads `width` bytes as a number, most significant first.
pub fn read_be(s: &[u8], at: usize, width: usize) -> (r: u64)
    requires
        width <= 8,
        at + width <= s.len(),
    ensures
        r == be_value(s@.subrange(at as int, at + width)),
        r < pow256(width as nat),
{
    let mut v: u64 = 0;
    for i in 0..width
        invariant
            width <= 8,
            at + width <= s.len(),
            v == be_value(s@.subrange(at as int, at + i)),
    {
        proof {
            let p = s@.subrange(at as int, at + i);
            lemma_be_value_bound(p);
            assert(v <= 0xff_ffff_ffff_ffff) by {
                reveal_with_fuel(pow256, 9);
            }
            assert(s@.subrange(at as int, at + i + 1).drop_last() =~= p);
        }
        v = v * 256 + s[at + i] as u64;
    }
    proof {
        lemma_be_value_bound(s@.subrange(at as int, at + width));
    }
    v
}

// ---------------------------------------------------------------- pieces

/// Copies a slice.
pub fn copy(s: &[u8]) -> (r: Vec<u8>)
    ensures
        r@ == s@,
{
    let mut v: Vec<u8> = Vec::with_capacity(s.len());
    v.extend_from_slice(s);
    v
}

/// Blank in the sense of an HTTP header: a space or a tab.
pub open spec fn is_blank(b: u8) -> bool {
    b == 32 || b == 9
}

// ---------------------------------------------------------------- trimming

/// Whether three bytes encode one of the white-space characters that take three.
pub open spec fn is_wide_white(a: u8, b: u8, c: u8) -> bool {
    ||| a == 0xe1 && b == 0x9a && c == 0x80
    ||| a == 0xe2 && b == 0x80 && (0x80 <= c <= 0x8a || c == 0xa8 || c == 0xa9 || c == 0xaf)
    ||| a == 0xe2 && b == 0x81 && c == 0x9f
    ||| a == 0xe3 && b == 0x80 && c == 0x80
}

fn wide_white(a: u8, b: u8, c: u8) -> (r: bool)
    ensures
        r == is_wide_white(a, b, c),
{
    (a == 0xe1 && b == 0x9a && c == 0x80) || (a == 0xe2 && b == 0x80 && ((c >= 0x80 && c <= 0x8a)
        || c == 0xa8 || c == 0xa9 || c == 0xaf)) || (a == 0xe2 && b == 0x81 && c == 0x9f) || (a
        == 0xe3 && b == 0x80 && c == 0x80)
}

/// How many bytes the white-space character at the front takes, or none.
pub open spec fn white_front(s: Seq<u8>) -> int {
    if s.len() >= 1 && (9 <= s[0] <= 13 || s[0] == 32) {
        1
    } else if s.len() >= 2 && s[0] == 0xc2 && (s[1] == 0x85 || s[1] == 0xa0) {
        2
    } else if s.len() >= 3 && is_wide_white(s[0], s[1], s[2]) {
        3
    } else {
        0
    }
}

/// How many bytes the white-space character at the back takes, or none.
pub open spec fn white_back(s: Seq<u8>) -> int {
    let n = s.len() as int;
    if n >= 1 && (9 <= s[n - 1] <= 13 || s[n - 1] == 32) {
        1
    } else if n >= 2 && s[n - 2] == 0xc2 && (s[n - 1] == 0x85 || s[n - 1] == 0xa0) {
        2
    } else if n >= 3 && is_wide_white(s[n - 3], s[n - 2], s[n - 1]) {
        3
    } else {
        0
    }
}

/// Text without the white space in front.
pub open spec fn trimmed_start(s: Seq<u8>) -> Seq<u8>
    decreases s.len(),
{
    let w = white_front(s);
    if w > 0 {
        trimmed_start(s.subrange(w, s.len() as int))
    } else {
        s
    }
}

/// Text without the white space behind.
pub open spec fn trimmed_end(s: Seq<u8>) -> Seq<u8>
    decreases s.len(),
{
    let w = white_back(s);
    if w > 0 {
        trimmed_end(s.subrange(0, s.len() - w))
    } else {
        s
    }
}

/// Text without the white space around it.
pub open spec fn trimmed(s: Seq<u8>) -> Seq<u8> {
    trimmed_end(trimmed_start(s))
}

/// Drops the white space in front.
pub fn trim_start(s: &[u8]) -> (r: &[u8])
    ensures
        r@ == trimmed_start(s@),
{
    let mut i: usize = 0;
    assert(s@.subrange(0, s@.len() as int) =~= s@);
    loop
        invariant
            i <= s.len(),
            trimmed_start(s@) == trimmed_start(s@.subrange(i as int, s@.len() as int)),
        decreases s.len() - i,
    {
        let ghost rest = s@.subrange(i as int, s@.len() as int);
        let left: usize = s.len() - i;
        let w: usize = if left >= 1 && ((s[i] >= 9 && s[i] <= 13) || s[i] == 32) {
            1
        } else if left >= 2 && s[i] == 0xc2 && (s[i + 1] == 0x85 || s[i + 1] == 0xa0) {
            2
        } else if left >= 3 && wide_white(s[i], s[i + 1], s[i + 2]) {
            3
        } else {
            0
        };
        assert(w == white_front(rest));
        if w == 0 {
            return &s[i..s.len()];
        }
        assert(rest.subrange(w as int, rest.len() as int) =~= s@.subrange(i + w, s@.len() as int));
        i = i + w;
    }
}

/// Drops the white space behind.
pub fn trim_end(s: &[u8]) -> (r: &[u8])
    ensures
        r@ == trimmed_end(s@),
{
    let mut n: usize = s.len();
    assert(s@.subrange(0, n as int) =~= s@);
    loop
        invariant
            n <= s.len(),
            trimmed_end(s@) == trimmed_end(s@.subrange(0, n as int)),
        decreases n,
    {
        let ghost rest = s@.subrange(0, n as int);
        let w: usize = if n >= 1 && ((s[n - 1] >= 9 && s[n - 1] <= 13) || s[n - 1] == 32) {
            1
        } else if n >= 2 && s[n - 2] == 0xc2 && (s[n - 1] == 0x85 || s[n - 1] == 0xa0) {
            2
        } else if n >= 3 && wide_white(s[n - 3], s[n - 2], s[n - 1]) {
            3
        } else {
            0
        };
        assert(w == white_back(rest));
        if w == 0 {
            return &s[0..n];
        }
        assert(rest.subrange(0, rest.len() - w) =~= s@.subrange(0, n - w));
        n = n - w;
    }
}

/// Drops the white space on both sides.
pub fn trim(s: &[u8]) -> (r: &[u8])
    ensures
        r@ == trimmed(s@),
{
    trim_end(trim_start(s))
}

/// The place of the last `c`, or -1.
pub open spec fn find_last(s: Seq<u8>, c: u8) -> int
    decreases s.len(),
{
    if s.len() == 0 {
        -1
    } else if s.last() == c {
        s.len() - 1
    } else {
        find_last(s.drop_last(), c)
    }
}

/// Finds the last `c`.
pub fn rfind(s: &[u8], c: u8) -> (r: Option<usize>)
    ensures
        match r {
            Some(i) => i < s@.len() && find_last(s@, c) == i && s@[i as int] == c,
            None => find_last(s@, c) == -1,
        },
{
    let mut n: usize = s.len();
    assert(s@.subrange(0, n as int) =~= s@);
    while n > 0
        invariant
            n <= s.len(),
            find_last(s@, c) == find_last(s@.subrange(0, n as int), c),
        decreases n,
    {
        let ghost head = s@.subrange(0, n as int);
        assert(head.last() == s@[n - 1]);
        assert(head.drop_last() =~= s@.subrange(0, n - 1));
        if s[n - 1] == c {
            return Some(n - 1);
        }
        n = n - 1;
    }
    None
}

} // verus!
