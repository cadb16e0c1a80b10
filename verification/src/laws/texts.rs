//! `bytes`, `http`, `text` and `uri`: how texts are read and written.

use vstd::prelude::*;

use crate::bytes;
use crate::http;
use crate::text;
use crate::uri;

verus! {

// ---------------------------------------------------------------- names

/// Two letters are the same but for their case.
pub open spec fn is_alike(a: u8, b: u8) -> bool {
    a == b || (65 <= a <= 90 && b == a + 32) || (65 <= b <= 90 && a == b + 32)
}

/// Names are the same where they have the same letters, whatever the case of each.
pub proof fn law_names_ignore_case(a: Seq<u8>, b: Seq<u8>)
    ensures
        bytes::same_name(a, b) <==> a.len() == b.len() && forall|i: int|
            0 <= i < a.len() ==> #[trigger] is_alike(a[i], b[i]),
{
    if bytes::same_name(a, b) {
        assert(bytes::lowered(a).len() == bytes::lowered(b).len());
        assert forall|i: int| 0 <= i < a.len() implies #[trigger] is_alike(a[i], b[i]) by {
            assert(bytes::lowered(a)[i] == bytes::lowered(b)[i]);
        }
    }
    if a.len() == b.len() && forall|i: int| 0 <= i < a.len() ==> #[trigger] is_alike(a[i], b[i]) {
        assert forall|i: int| 0 <= i < a.len() implies bytes::lowered(a)[i] == bytes::lowered(
            b,
        )[i] by {
            assert(is_alike(a[i], b[i]));
        }
        assert(bytes::lowered(a) =~= bytes::lowered(b));
    }
}

/// Lower case has no capitals, and is the same name.
pub proof fn law_lower_case_is_the_same_name(a: Seq<u8>)
    ensures
        bytes::same_name(bytes::lowered(a), a),
        forall|i: int| 0 <= i < a.len() ==> !(65 <= #[trigger] bytes::lowered(a)[i] <= 90),
{
    assert(bytes::lowered(bytes::lowered(a)) =~= bytes::lowered(a));
}

/// Upper case undoes lower case on letters, and leaves everything else.
pub proof fn law_upper_case_is_the_capital(b: u8)
    ensures
        is_alike(bytes::upper(b), b),
        !(97 <= bytes::upper(b) <= 122),
{
}

// ---------------------------------------------------------------- headers of a response

/// Setting a header gives it its value, once, and leaves every other header as it was.
pub proof fn law_a_set_header_has_its_value(hs: Seq<http::Field>, name: Seq<u8>, v: Seq<u8>)
    ensures
        ({
            let after = http::with_header(hs, name, v);
            &&& http::value_of(after, name) == Some(v)
            &&& http::value_of(hs, name) is None ==> after == hs.push((name, v))
            &&& http::value_of(hs, name) is Some ==> after.len() == hs.len()
            &&& forall|k: int|
                0 <= k < hs.len() && !bytes::same_name(hs[k].0, name) ==> #[trigger] after[k]
                    == hs[k]
        }),
{
    lemma_place_of(hs, name, 0);
    let i = http::place_of(hs, name, 0);
    let after = http::with_header(hs, name, v);
    if i < hs.len() {
        assert(after[i].0 == hs[i].0);
        assert forall|j: int| 0 <= j < i implies !bytes::same_name(
            (#[trigger] after[j]).0,
            name,
        ) by {
            assert(after[j] == hs[j]);
        }
        lemma_place_is(after, name, 0, i);
    } else {
        assert forall|j: int| 0 <= j < hs.len() implies !bytes::same_name(
            (#[trigger] after[j]).0,
            name,
        ) by {
            assert(after[j] == hs[j]);
        }
        lemma_place_is(after, name, 0, hs.len() as int);
    }
}

pub(crate) proof fn lemma_place_of(hs: Seq<http::Field>, name: Seq<u8>, from: int)
    requires
        0 <= from <= hs.len(),
    ensures
        ({
            let i = http::place_of(hs, name, from);
            &&& from <= i <= hs.len()
            &&& i < hs.len() ==> bytes::same_name(hs[i].0, name)
            &&& forall|j: int| from <= j < i ==> !bytes::same_name((#[trigger] hs[j]).0, name)
        }),
    decreases hs.len() - from,
{
    if from < hs.len() && !bytes::same_name(hs[from].0, name) {
        lemma_place_of(hs, name, from + 1);
    }
}

pub(crate) proof fn lemma_place_is(hs: Seq<http::Field>, name: Seq<u8>, from: int, i: int)
    requires
        0 <= from <= i <= hs.len(),
        i < hs.len() ==> bytes::same_name(hs[i].0, name),
        forall|j: int| from <= j < i ==> !bytes::same_name((#[trigger] hs[j]).0, name),
    ensures
        http::place_of(hs, name, from) == i,
    decreases i - from,
{
    if from < i {
        assert(!bytes::same_name(hs[from].0, name));
        lemma_place_is(hs, name, from + 1, i);
    }
}

/// A header's value is that of the first of its name, and there is none without one.
pub proof fn law_the_first_of_a_name_counts(hs: Seq<http::Field>, name: Seq<u8>)
    ensures
        match http::value_of(hs, name) {
            Some(v) => exists|i: int|
                0 <= i < hs.len() && bytes::same_name((#[trigger] hs[i]).0, name) && hs[i].1 == v
                    && forall|j: int|
                    0 <= j < i ==> !bytes::same_name((#[trigger] hs[j]).0, name),
            None => forall|j: int|
                0 <= j < hs.len() ==> !bytes::same_name((#[trigger] hs[j]).0, name),
        },
{
    lemma_place_of(hs, name, 0);
}

/// Informational responses, 204 and 304 have no body, and every other status has one.
pub proof fn law_some_statuses_have_no_body(status: u16)
    ensures
        http::bodyless(status) <==> status == 204 || status == 304 || (status >= 100 && status
            <= 199),
{
}

// ---------------------------------------------------------------- white space

/// ASCII white space.
pub open spec fn is_white(b: u8) -> bool {
    b == 32 || (9 <= b <= 13)
}

/// White space around a text is no part of it; what is inside is.
pub proof fn law_white_space_is_trimmed(a: Seq<u8>, s: Seq<u8>, z: Seq<u8>)
    requires
        forall|i: int| 0 <= i < a.len() ==> is_white(#[trigger] a[i]),
        forall|i: int| 0 <= i < z.len() ==> is_white(#[trigger] z[i]),
        s.len() > 0,
        32 < s[0] < 128,
        32 < s.last() < 128,
    ensures
        bytes::trimmed(a + s + z) == s,
        bytes::trimmed_start(a + s + z) == s + z,
        bytes::trimmed_end(a + s + z) == a + s,
{
    assert(a + s + z =~= a + (s + z));
    lemma_front(a, s + z);
    lemma_back(s, z);
    lemma_back(a + s, z);
}

proof fn lemma_front(a: Seq<u8>, s: Seq<u8>)
    requires
        forall|i: int| 0 <= i < a.len() ==> is_white(#[trigger] a[i]),
        s.len() > 0,
        32 < s[0] < 128,
    ensures
        bytes::trimmed_start(a + s) == s,
    decreases a.len(),
{
    if a.len() > 0 {
        let b = a.subrange(1, a.len() as int);
        assert(is_white(a[0]));
        assert forall|i: int| 0 <= i < b.len() implies is_white(#[trigger] b[i]) by {
            assert(is_white(a[i + 1]));
        }
        assert((a + s)[0] == a[0]);
        assert((a + s).subrange(1, (a + s).len() as int) =~= b + s);
        lemma_front(b, s);
    } else {
        assert(a + s =~= s);
    }
}

proof fn lemma_back(s: Seq<u8>, z: Seq<u8>)
    requires
        forall|i: int| 0 <= i < z.len() ==> is_white(#[trigger] z[i]),
        s.len() > 0,
        32 < s.last() < 128,
    ensures
        bytes::trimmed_end(s + z) == s,
    decreases z.len(),
{
    if z.len() > 0 {
        let y = z.drop_last();
        assert(is_white(z[z.len() - 1]));
        assert forall|i: int| 0 <= i < y.len() implies is_white(#[trigger] y[i]) by {
            assert(is_white(z[i]));
        }
        assert((s + z).last() == z.last());
        assert((s + z).subrange(0, (s + z).len() - 1) =~= s + y);
        lemma_back(s, y);
    } else {
        assert(s + z =~= s);
    }
}

// ---------------------------------------------------------------- numbers

/// Numbers are written in decimal, without zeros in front, so that they read back.
pub proof fn law_decimals_read_back(n: nat)
    ensures
        bytes::decimal_value(bytes::decimal(n)) == n,
        bytes::all_digits(bytes::decimal(n)),
        bytes::decimal(n).len() > 0,
        n > 0 ==> bytes::decimal(n)[0] != 48,
        n == 0 ==> bytes::decimal(n) == seq![48u8],
    decreases n,
{
    bytes::lemma_decimal(n);
    if n >= 10 {
        law_decimals_read_back(n / 10);
    }
}

/// A digit more makes a number ten times as large.
pub proof fn law_digits_have_their_weight(s: Seq<u8>, d: u8)
    requires
        48 <= d <= 57,
    ensures
        bytes::decimal_value(s.push(d)) == 10 * bytes::decimal_value(s) + (d - 48),
        bytes::decimal_value(Seq::empty()) == 0,
{
    assert(s.push(d).drop_last() =~= s);
}

/// A number that is read is one of digits alone, with or without a plus sign in front, and
/// not too large.
pub proof fn law_numbers_are_digits(s: Seq<u8>, max: nat)
    requires
        s.len() > 0,
        bytes::all_digits(s),
    ensures
        bytes::unsigned_within(s, max) == if bytes::decimal_value(s) <= max {
            Some(bytes::decimal_value(s))
        } else {
            None::<nat>
        },
        bytes::unsigned_within(seq![43u8] + s, max) == bytes::unsigned_within(s, max),
        forall|t: Seq<u8>, i: int|
            0 < i < t.len() && !(48 <= #[trigger] t[i] <= 57) ==> bytes::unsigned_within(t, max)
                is None,
        bytes::unsigned_within(Seq::empty(), max) is None,
{
    assert(bytes::is_digit(s[0]));
    assert((seq![43u8] + s).subrange(1, s.len() as int + 1) =~= s);
    assert forall|t: Seq<u8>, i: int| 0 < i < t.len() && !(48 <= #[trigger] t[i] <= 57) implies
        bytes::unsigned_within(t, max) is None by {
        let u = t.subrange(1, t.len() as int);
        assert(u[i - 1] == t[i]);
        assert(!bytes::is_digit(t[i]));
        assert(!bytes::is_digit(u[i - 1]));
    }
}

/// Numbers of fixed width have zeros in front.
pub proof fn law_padded_numbers_read_back(n: nat, width: nat)
    ensures
        bytes::hex_padded(n, width).len() == width,
        width > 0 ==> bytes::hex_padded(n, width) == bytes::hex_padded(
            n / 16,
            (width - 1) as nat,
        ).push(bytes::hex(n % 16)[0]),
{
    bytes::lemma_hex_padded(n, width);
}

// ---------------------------------------------------------------- escapes

/// A byte that a path shows as it is.
pub open spec fn is_shown(c: u8) -> bool {
    (65 <= c <= 90) || (97 <= c <= 122) || (48 <= c <= 57) || c == 45 || c == 46 || c == 95 || c
        == 126 || c == 47
}

/// The value of a digit of an escape, which has capitals.
pub open spec fn escape_digit(b: u8) -> int {
    if b < 58 {
        b - 48
    } else {
        b - 55
    }
}

/// What an encoded path stands for.
pub open spec fn unescaped(s: Seq<u8>) -> Seq<u8>
    decreases s.len(),
{
    if s.len() == 0 {
        Seq::empty()
    } else if s[0] == 37 && s.len() >= 3 {
        seq![(escape_digit(s[1]) * 16 + escape_digit(s[2])) as u8] + unescaped(
            s.subrange(3, s.len() as int),
        )
    } else {
        seq![s[0]] + unescaped(s.subrange(1, s.len() as int))
    }
}

proof fn lemma_unescaped(s: Seq<u8>, t: Seq<u8>)
    ensures
        unescaped(uri::encoded(s) + t) == s + unescaped(t),
    decreases s.len(),
{
    if s.len() == 0 {
        assert(uri::encoded(s) + t =~= t);
        assert(s + unescaped(t) =~= unescaped(t));
    } else {
        let c = s.last();
        let u = uri::encoded_byte(c) + t;
        lemma_unescaped(s.drop_last(), u);
        assert(uri::encoded(s) + t =~= uri::encoded(s.drop_last()) + u);
        if uri::is_plain(c) {
            assert(u.subrange(1, u.len() as int) =~= t);
        } else {
            assert(u.subrange(3, u.len() as int) =~= t);
            assert(escape_digit(u[1]) == c as int / 16);
            assert(escape_digit(u[2]) == c as int % 16);
            assert(c as int == (c as int / 16) * 16 + c as int % 16);
            assert(unescaped(u) == seq![c] + unescaped(t));
        }
        assert(unescaped(u) =~= seq![c] + unescaped(t));
        assert(s.drop_last() + (seq![c] + unescaped(t)) =~= s + unescaped(t));
    }
}

/// An encoded path stands for the path, and shows nothing but letters, digits, `-._~`,
/// slashes and escapes.
pub proof fn law_paths_are_encoded(s: Seq<u8>)
    ensures
        unescaped(uri::encoded(s)) == s,
        forall|i: int|
            0 <= i < uri::encoded(s).len() ==> is_shown(#[trigger] uri::encoded(s)[i])
                || uri::encoded(s)[i] == 37,
{
    lemma_unescaped(s, Seq::empty());
    assert(uri::encoded(s) + Seq::<u8>::empty() =~= uri::encoded(s));
    assert(s + unescaped(Seq::<u8>::empty()) =~= s);
    uri::law_encoded_paths_are_plain(s);
}

/// A plain path is its own encoding.
pub proof fn law_plain_paths_stay(s: Seq<u8>)
    requires
        forall|i: int| 0 <= i < s.len() ==> is_shown(#[trigger] s[i]),
    ensures
        uri::encoded(s) == s,
    decreases s.len(),
{
    if s.len() > 0 {
        let t = s.drop_last();
        assert forall|i: int| 0 <= i < t.len() implies is_shown(#[trigger] t[i]) by {
            assert(is_shown(s[i]));
        }
        law_plain_paths_stay(t);
        assert(is_shown(s[s.len() - 1]));
        assert(uri::encoded(s) =~= s);
    }
}

/// In a page each of the four special characters is written as its entity, and everything
/// else as itself, in its place.
pub proof fn law_pages_show_what_was_meant(a: Seq<u8>, c: u8)
    ensures
        uri::escaped(a.push(c)) == uri::escaped(a) + if c == 60 {
            bytes::utf8("&lt;"@)
        } else if c == 62 {
            bytes::utf8("&gt;"@)
        } else if c == 38 {
            bytes::utf8("&amp;"@)
        } else if c == 34 {
            bytes::utf8("&quot;"@)
        } else {
            seq![c]
        },
        uri::escaped(Seq::empty()).len() == 0,
{
    assert(a.push(c).drop_last() =~= a);
}

/// Texts are joined in their order, with a separator between any two of them.
pub proof fn law_texts_are_joined(parts: Seq<Seq<char>>, last: Seq<char>, sep: Seq<char>)
    ensures
        parts.len() > 0 ==> text::joined(parts.push(last), sep) == text::joined(parts, sep) + sep
            + last,
        text::joined(seq![last], sep) == last,
        text::joined(Seq::empty(), sep).len() == 0,
{
    assert(parts.push(last).drop_last() =~= parts);
}

} // verus!
