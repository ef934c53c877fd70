//! `pdf://` links between notes and PDF pages or annotations: building them,
//! parsing them back, and the percent-encoding that keeps them valid inside
//! markdown link syntax.

use vstd::prelude::*;
use vstd::utf8::*;

use crate::text::{
    chars_equal, chars_of, contains_seq, ends_with, extend_chars, find_char, has_prefix, has_substring,
    has_suffix, index_of, lemma_index_of, push_char, slice_chars, starts_with, str_lowercase,
    string_from_utf8, string_of, to_lowercase,
};

verus! {

broadcast use vstd::utf8::group_utf8_lib;

// ---------------------------------------------------------------------------
// Percent encoding
// ---------------------------------------------------------------------------

/// Bytes that a link carries as they are: ASCII letters and digits and
/// `- _ . ~ /`.
pub open spec fn is_unreserved(b: u8) -> bool {
    ||| 0x30 <= b <= 0x39
    ||| 0x41 <= b <= 0x5a
    ||| 0x61 <= b <= 0x7a
    ||| b == 0x2d
    ||| b == 0x5f
    ||| b == 0x2e
    ||| b == 0x7e
    ||| b == 0x2f
}

/// The uppercase hexadecimal digit (as an ASCII byte) for `n < 16`.
pub open spec fn hex_upper(n: u8) -> u8 {
    if n < 10 {
        (0x30 + n) as u8
    } else {
        (0x37 + n) as u8
    }
}

/// How one byte is written in an encoded link.
pub open spec fn encode_byte(b: u8) -> Seq<u8> {
    if is_unreserved(b) {
        seq![b]
    } else {
        seq![0x25u8, hex_upper(b / 16), hex_upper(b % 16)]
    }
}

/// Percent encoding of a byte string, as ASCII bytes.
pub open spec fn percent_encode_bytes(bytes: Seq<u8>) -> Seq<u8>
    decreases bytes.len(),
{
    if bytes.len() == 0 {
        seq![]
    } else {
        encode_byte(bytes[0]) + percent_encode_bytes(bytes.drop_first())
    }
}

/// ASCII bytes read as characters.
pub open spec fn ascii_chars(bytes: Seq<u8>) -> Seq<char> {
    bytes.map_values(|b: u8| b as char)
}

/// Percent encoding of a string: each byte of its UTF-8 form that is not
/// unreserved becomes `%` and two uppercase hex digits.
pub open spec fn percent_encoded(s: Seq<char>) -> Seq<char> {
    ascii_chars(percent_encode_bytes(encode_utf8(s)))
}

/// The value of an ASCII hex digit of either case.
pub open spec fn hex_digit_value(b: u8) -> Option<u8> {
    if 0x30 <= b <= 0x39 {
        Some((b - 0x30) as u8)
    } else if 0x61 <= b <= 0x66 {
        Some((b - 0x57) as u8)
    } else if 0x41 <= b <= 0x46 {
        Some((b - 0x37) as u8)
    } else {
        None
    }
}

/// Percent decoding of a byte string: `%` and two hex digits stand for one
/// byte; any other byte stands for itself; a `%` without two hex digits after
/// it makes the whole input undecodable.
pub open spec fn percent_decode_bytes(bytes: Seq<u8>) -> Option<Seq<u8>>
    decreases bytes.len(),
{
    if bytes.len() == 0 {
        Some(seq![])
    } else if bytes[0] == 0x25 {
        if bytes.len() < 3 {
            None
        } else {
            match (hex_digit_value(bytes[1]), hex_digit_value(bytes[2])) {
                (Some(hi), Some(lo)) => match percent_decode_bytes(bytes.skip(3)) {
                    Some(rest) => Some(seq![(hi * 16 + lo) as u8] + rest),
                    None => None,
                },
                _ => None,
            }
        }
    } else {
        match percent_decode_bytes(bytes.drop_first()) {
            Some(rest) => Some(seq![bytes[0]] + rest),
            None => None,
        }
    }
}

/// Percent decoding of a string: its UTF-8 bytes decoded, accepted only when
/// the result is valid UTF-8.
pub open spec fn percent_decoded(s: Seq<char>) -> Option<Seq<char>> {
    match percent_decode_bytes(encode_utf8(s)) {
        Some(bytes) => if valid_utf8(bytes) {
            Some(decode_utf8(bytes))
        } else {
            None
        },
        None => None,
    }
}

/// `d` followed by the decoding `o`, if there is one.
pub open spec fn prepend_bytes(d: Seq<u8>, o: Option<Seq<u8>>) -> Option<Seq<u8>> {
    match o {
        Some(rest) => Some(d + rest),
        None => None,
    }
}

proof fn lemma_encode_push(bytes: Seq<u8>, b: u8)
    ensures
        percent_encode_bytes(bytes.push(b)) == percent_encode_bytes(bytes) + encode_byte(b),
    decreases bytes.len(),
{
    if bytes.len() == 0 {
        assert(bytes.push(b).drop_first() =~= Seq::<u8>::empty());
        assert(percent_encode_bytes(bytes.push(b).drop_first()) == Seq::<u8>::empty());
        assert(percent_encode_bytes(bytes) == Seq::<u8>::empty());
        assert(percent_encode_bytes(bytes.push(b)) =~= encode_byte(b));
    } else {
        lemma_encode_push(bytes.drop_first(), b);
        assert(bytes.push(b).drop_first() =~= bytes.drop_first().push(b));
        assert(percent_encode_bytes(bytes.push(b)) =~= percent_encode_bytes(bytes) + encode_byte(
            b,
        ));
    }
}

/// Every byte of an encoding is an unreserved byte, `%`, or an uppercase hex
/// digit.
pub open spec fn is_encoded_byte(b: u8) -> bool {
    is_unreserved(b) || b == 0x25 || (0x30 <= b <= 0x39) || (0x41 <= b <= 0x46)
}

proof fn lemma_encode_alphabet(bytes: Seq<u8>)
    ensures
        forall|i: int|
            0 <= i < percent_encode_bytes(bytes).len() ==> is_encoded_byte(
                #[trigger] percent_encode_bytes(bytes)[i],
            ),
    decreases bytes.len(),
{
    if bytes.len() > 0 {
        lemma_encode_alphabet(bytes.drop_first());
        let e = encode_byte(bytes[0]);
        let r = percent_encode_bytes(bytes.drop_first());
        assert forall|i: int|
            0 <= i < percent_encode_bytes(bytes).len() implies is_encoded_byte(
            #[trigger] percent_encode_bytes(bytes)[i],
        ) by {
            if i < e.len() {
                assert(percent_encode_bytes(bytes)[i] == e[i]);
            } else {
                assert(percent_encode_bytes(bytes)[i] == r[i - e.len()]);
            }
        }
    }
}

proof fn lemma_decode_encode(bytes: Seq<u8>)
    ensures
        percent_decode_bytes(percent_encode_bytes(bytes)) == Some(bytes),
    decreases bytes.len(),
{
    if bytes.len() > 0 {
        lemma_decode_encode(bytes.drop_first());
        let b = bytes[0];
        let rest = percent_encode_bytes(bytes.drop_first());
        let all = percent_encode_bytes(bytes);
        if is_unreserved(b) {
            assert(all.drop_first() =~= rest);
        } else {
            assert(all.skip(3) =~= rest);
            assert(hex_digit_value(hex_upper(b / 16)) == Some(b / 16));
            assert(hex_digit_value(hex_upper(b % 16)) == Some(b % 16));
        }
        assert(bytes =~= seq![b] + bytes.drop_first());
    }
}

proof fn lemma_ascii_round_trip(bytes: Seq<u8>)
    requires
        forall|i: int| 0 <= i < bytes.len() ==> #[trigger] bytes[i] < 0x80,
    ensures
        encode_utf8(ascii_chars(bytes)) == bytes,
{
    let chars = ascii_chars(bytes);
    assert(is_ascii_chars(chars)) by {
        assert forall|i: int| 0 <= i < chars.len() implies '\0' <= #[trigger] chars[i]
            <= '\u{7f}' by {
            assert(chars[i] == bytes[i] as char);
        }
    }
    assert(encode_utf8(chars) =~= bytes) by {
        assert forall|i: int| 0 <= i < bytes.len() implies encode_utf8(chars)[i] == bytes[i] by {
            assert(chars[i] == bytes[i] as char);
        }
    }
}

/// Decoding an encoding gives back the string that was encoded.
pub proof fn lemma_percent_round_trip(s: Seq<char>)
    ensures
        percent_decoded(percent_encoded(s)) == Some(s),
{
    let bytes = percent_encode_bytes(encode_utf8(s));
    lemma_encode_alphabet(encode_utf8(s));
    lemma_ascii_round_trip(bytes);
    lemma_decode_encode(encode_utf8(s));
}

/// The value of an ASCII hex digit of either case, or `None` for any other
/// byte.
pub fn hex_value(byte: u8) -> (r: Option<u8>)
    ensures
        r == hex_digit_value(byte),
{
    if 0x30 <= byte && byte <= 0x39 {
        Some(byte - 0x30)
    } else if 0x61 <= byte && byte <= 0x66 {
        Some(byte - 0x61 + 10)
    } else if 0x41 <= byte && byte <= 0x46 {
        Some(byte - 0x41 + 10)
    } else {
        None
    }
}

fn hex_digit_upper(n: u8) -> (r: u8)
    requires
        n < 16,
    ensures
        r == hex_upper(n),
{
    if n < 10 {
        0x30 + n
    } else {
        0x37 + n
    }
}

fn ascii_string(bytes: &Vec<u8>) -> (s: String)
    ensures
        s@ == ascii_chars(bytes@),
{
    let mut s = String::new();
    let mut i: usize = 0;
    while i < bytes.len()
        invariant
            i <= bytes@.len(),
            s@ == ascii_chars(bytes@.take(i as int)),
        decreases bytes@.len() - i,
    {
        push_char(&mut s, bytes[i] as char);
        assert(ascii_chars(bytes@.take(i + 1)) =~= ascii_chars(bytes@.take(i as int)).push(
            bytes@[i as int] as char,
        ));
        i = i + 1;
    }
    assert(bytes@.take(i as int) =~= bytes@);
    s
}

/// Percent-encode `value` so it can sit inside a link.
pub fn percent_encode(value: &str) -> (encoded: String)
    ensures
        encoded@ == percent_encoded(value@),
{
    let bytes = value.as_bytes();
    let mut out: Vec<u8> = Vec::new();
    let mut i: usize = 0;
    while i < bytes.len()
        invariant
            bytes@ == encode_utf8(value@),
            i <= bytes@.len(),
            out@ == percent_encode_bytes(bytes@.take(i as int)),
        decreases bytes@.len() - i,
    {
        let b = bytes[i];
        proof {
            lemma_encode_push(bytes@.take(i as int), b);
            assert(bytes@.take(i + 1) =~= bytes@.take(i as int).push(b));
        }
        if (0x30 <= b && b <= 0x39) || (0x41 <= b && b <= 0x5a) || (0x61 <= b && b <= 0x7a)
            || b == 0x2d || b == 0x5f || b == 0x2e || b == 0x7e || b == 0x2f {
            out.push(b);
        } else {
            out.push(0x25);
            out.push(hex_digit_upper(b / 16));
            out.push(hex_digit_upper(b % 16));
        }
        proof {
            assert(out@ =~= percent_encode_bytes(bytes@.take(i as int)) + encode_byte(b));
        }
        i = i + 1;
    }
    assert(bytes@.take(i as int) =~= bytes@);
    ascii_string(&out)
}

/// Percent-decode `value`, or `None` when an escape is malformed or the bytes
/// it stands for are not UTF-8.
pub fn percent_decode(value: &str) -> (decoded: Option<String>)
    ensures
        decoded matches Some(d) ==> percent_decoded(value@) == Some(d@),
        decoded is None ==> percent_decoded(value@) is None,
{
    let bytes = value.as_bytes();
    let mut decoded: Vec<u8> = Vec::new();
    let mut idx: usize = 0;
    proof {
        assert(bytes@.skip(0) =~= bytes@);
        if let Some(r) = percent_decode_bytes(bytes@) {
            assert(decoded@ + r =~= r);
        }
    }
    while idx < bytes.len()
        invariant
            bytes@ == encode_utf8(value@),
            idx <= bytes@.len(),
            percent_decode_bytes(bytes@) == prepend_bytes(
                decoded@,
                percent_decode_bytes(bytes@.skip(idx as int)),
            ),
        decreases bytes@.len() - idx,
    {
        let ghost tail = bytes@.skip(idx as int);
        if bytes[idx] == 0x25 {
            if bytes.len() - idx < 3 {
                return None;
            }
            let hi = hex_value(bytes[idx + 1]);
            let lo = hex_value(bytes[idx + 2]);
            match (hi, lo) {
                (Some(h), Some(l)) => {
                    proof {
                        assert(tail.skip(3) =~= bytes@.skip(idx + 3));
                    }
                    let ghost before = decoded@;
                    decoded.push(h * 16 + l);
                    proof {
                        if let Some(r) = percent_decode_bytes(bytes@.skip(idx + 3)) {
                            assert(decoded@ + r =~= before + (seq![(h * 16 + l) as u8] + r));
                        }
                    }
                    idx = idx + 3;
                },
                _ => {
                    return None;
                },
            }
        } else {
            proof {
                assert(tail.drop_first() =~= bytes@.skip(idx + 1));
            }
            let ghost before = decoded@;
            decoded.push(bytes[idx]);
            proof {
                if let Some(r) = percent_decode_bytes(bytes@.skip(idx + 1)) {
                    assert(decoded@ + r =~= before + (seq![bytes@[idx as int]] + r));
                }
            }
            idx = idx + 1;
        }
    }
    string_from_utf8(decoded)
}

} // verus!

verus! {

// ---------------------------------------------------------------------------
// Decimal page numbers
// ---------------------------------------------------------------------------

/// The ASCII digit for `0 <= d < 10`.
pub open spec fn digit_char(d: int) -> char {
    ((d + 0x30) as u8) as char
}

/// Whether `c` is an ASCII digit.
pub open spec fn is_digit(c: char) -> bool {
    '0' <= c <= '9'
}

/// The value of an ASCII digit.
pub open spec fn digit_of(c: char) -> int {
    (c as int) - 0x30
}

/// Every character of `s` is an ASCII digit.
pub open spec fn all_digits(s: Seq<char>) -> bool {
    forall|i: int| 0 <= i < s.len() ==> is_digit(#[trigger] s[i])
}

/// The number a string of ASCII digits spells in base ten.
pub open spec fn digits_value(s: Seq<char>) -> nat
    decreases s.len(),
{
    if s.len() == 0 {
        0
    } else {
        digits_value(s.drop_last()) * 10 + digit_of(s.last()) as nat
    }
}

/// The shortest base-ten spelling of `n`.
pub open spec fn decimal(n: nat) -> Seq<char>
    decreases n,
{
    if n < 10 {
        seq![digit_char(n as int)]
    } else {
        decimal(n / 10).push(digit_char((n % 10) as int))
    }
}

/// What `str::parse::<u16>` accepts: an optional `+`, then one or more ASCII
/// digits (leading zeros allowed) whose value fits in a `u16`.
pub open spec fn parse_u16_spec(s: Seq<char>) -> Option<u16> {
    let d = if s.len() > 0 && s[0] == '+' {
        s.drop_first()
    } else {
        s
    };
    if d.len() > 0 && all_digits(d) && digits_value(d) <= 0xffff {
        Some(digits_value(d) as u16)
    } else {
        None
    }
}

proof fn lemma_digit_char(k: int)
    requires
        0 <= k < 10,
    ensures
        digit_of(digit_char(k)) == k,
        is_digit(digit_char(k)),
        digit_char(k) != '+',
{
}

pub proof fn lemma_digits_monotone(d: Seq<char>, k: int)
    requires
        all_digits(d),
        0 <= k <= d.len(),
    ensures
        digits_value(d.take(k)) <= digits_value(d),
    decreases d.len(),
{
    if k < d.len() {
        assert(all_digits(d.drop_last())) by {
            assert forall|i: int| 0 <= i < d.drop_last().len() implies is_digit(
                #[trigger] d.drop_last()[i],
            ) by {
                assert(d.drop_last()[i] == d[i]);
            }
        }
        lemma_digits_monotone(d.drop_last(), k);
        assert(d.drop_last().take(k) =~= d.take(k));
    } else {
        assert(d.take(k) =~= d);
    }
}

proof fn lemma_decimal(n: nat)
    ensures
        all_digits(decimal(n)),
        decimal(n).len() > 0,
        digits_value(decimal(n)) == n,
        decimal(n)[0] != '+',
    decreases n,
{
    lemma_digit_char((n % 10) as int);
    if n < 10 {
        let d = decimal(n);
        assert(d.drop_last() =~= Seq::<char>::empty());
        assert(digits_value(d.drop_last()) == 0);
    } else {
        lemma_decimal(n / 10);
        let d = decimal(n);
        assert(d.drop_last() =~= decimal(n / 10));
        assert(d.last() == digit_char((n % 10) as int));
        assert forall|i: int| 0 <= i < d.len() implies is_digit(#[trigger] d[i]) by {
            if i < d.len() - 1 {
                assert(d[i] == decimal(n / 10)[i]);
            }
        }
        assert(d[0] == decimal(n / 10)[0]);
        assert((n / 10) * 10 + n % 10 == n);
    }
}

/// A `u16` spelled in base ten parses back to itself.
pub proof fn lemma_parse_decimal(n: u16)
    ensures
        parse_u16_spec(decimal(n as nat)) == Some(n),
{
    lemma_decimal(n as nat);
}

/// Parse a page number as `str::parse::<u16>` does.
pub fn parse_u16(s: &Vec<char>) -> (r: Option<u16>)
    ensures
        r == parse_u16_spec(s@),
{
    let start: usize = if s.len() > 0 && s[0] == '+' {
        1
    } else {
        0
    };
    let ghost d = if s@.len() > 0 && s@[0] == '+' {
        s@.drop_first()
    } else {
        s@
    };
    assert(d =~= s@.skip(start as int));
    if start >= s.len() {
        assert(d.len() == 0);
        return None;
    }
    let mut acc: u32 = 0;
    let mut i: usize = start;
    while i < s.len()
        invariant
            start <= i <= s@.len(),
            start < s@.len(),
            d == s@.skip(start as int),
            d == (if s@.len() > 0 && s@[0] == '+' {
                s@.drop_first()
            } else {
                s@
            }),
            all_digits(d.take(i - start)),
            acc as nat == digits_value(d.take(i - start)),
            acc <= 0xffff,
        decreases s@.len() - i,
    {
        let c = s[i];
        let ghost k = i - start;
        assert(d[k] == c);
        if !('0' <= c && c <= '9') {
            assert(!all_digits(d)) by {
                assert(!is_digit(d[k]));
            }
            return None;
        }
        assert(d.take(k + 1).drop_last() =~= d.take(k));
        assert(d.take(k + 1).last() == c);
        acc = acc * 10 + (c as u32 - 0x30);
        assert(digits_value(d.take(k + 1)) == digits_value(d.take(k)) * 10 + digit_of(c));
        assert(all_digits(d.take(k + 1))) by {
            assert forall|j: int| 0 <= j < k + 1 implies is_digit(#[trigger] d.take(k + 1)[j]) by {
                if j < k {
                    assert(d.take(k + 1)[j] == d.take(k)[j]);
                }
            }
        }
        if acc > 0xffff {
            proof {
                if all_digits(d) {
                    lemma_digits_monotone(d, k + 1);
                }
            }
            return None;
        }
        i = i + 1;
    }
    assert(d.take(i - start) =~= d);
    Some(acc as u16)
}

/// Appends the base-ten spelling of `n`.
pub fn push_decimal_u64(out: &mut Vec<char>, n: u64)
    ensures
        final(out)@ == old(out)@ + decimal(n as nat),
    decreases n,
{
    if n >= 10 {
        push_decimal_u64(out, n / 10);
    }
    let digit: u8 = (n % 10) as u8;
    out.push((digit + 0x30) as char);
    assert(old(out)@ + decimal(n as nat) =~= out@) by {
        if n >= 10 {
            assert(decimal(n as nat) == decimal((n / 10) as nat).push(digit_char((n % 10) as int)));
        }
    }
}

fn push_decimal(out: &mut Vec<char>, n: u16)
    ensures
        final(out)@ == old(out)@ + decimal(n as nat),
    decreases n,
{
    if n >= 10 {
        push_decimal(out, n / 10);
    }
    let digit: u8 = (n % 10) as u8;
    out.push((digit + 0x30) as char);
    assert(old(out)@ + decimal(n as nat) =~= out@) by {
        if n >= 10 {
            assert(decimal(n as nat) == decimal((n / 10) as nat).push(digit_char((n % 10) as int)));
        }
    }
}

// ---------------------------------------------------------------------------
// Links
// ---------------------------------------------------------------------------

/// `pdf://`
pub open spec fn pdf_scheme() -> Seq<char> {
    seq!['p', 'd', 'f', ':', '/', '/']
}

/// `.pdf`
pub open spec fn pdf_ext() -> Seq<char> {
    seq!['.', 'p', 'd', 'f']
}

/// `page`
pub open spec fn page_key() -> Seq<char> {
    seq!['p', 'a', 'g', 'e']
}

/// `annotation`
pub open spec fn annotation_key() -> Seq<char> {
    seq!['a', 'n', 'n', 'o', 't', 'a', 't', 'i', 'o', 'n']
}

/// The `page=N` query pair.
pub open spec fn page_pair(page: u16) -> Seq<char> {
    page_key() + seq!['='] + decimal(page as nat)
}

/// The `annotation=ID` query pair, with the id percent-encoded.
pub open spec fn annotation_pair(id: Seq<char>) -> Seq<char> {
    annotation_key() + seq!['='] + percent_encoded(id)
}

/// The query a link carries: nothing, or `?` and the pairs joined by `&`.
pub open spec fn link_query(page: Option<u16>, annotation: Option<Seq<char>>) -> Seq<char> {
    match (page, annotation) {
        (None, None) => seq![],
        (Some(p), None) => seq!['?'] + page_pair(p),
        (None, Some(a)) => seq!['?'] + annotation_pair(a),
        (Some(p), Some(a)) => seq!['?'] + page_pair(p) + seq!['&'] + annotation_pair(a),
    }
}

/// The link `build_pdf_link` writes.
pub open spec fn pdf_link_text(path: Seq<char>, page: Option<u16>, annotation: Option<Seq<char>>) -> Seq<char> {
    pdf_scheme() + percent_encoded(path) + link_query(page, annotation)
}

/// What follows the scheme, for a link that is taken to point at a PDF: a
/// `pdf://` link, or a bare path that mentions `.pdf`.
pub open spec fn link_body(link: Seq<char>) -> Option<Seq<char>> {
    if starts_with(link, pdf_scheme()) {
        Some(link.skip(6))
    } else if contains_seq(link, pdf_ext()) {
        Some(link)
    } else {
        None
    }
}

/// Split at the first `?`, or else at the first `#`: the path and the query.
pub open spec fn split_path_query(rest: Seq<char>) -> (Seq<char>, Seq<char>) {
    match index_of(rest, '?') {
        Some(i) => (rest.take(i), rest.skip(i + 1)),
        None => match index_of(rest, '#') {
            Some(i) => (rest.take(i), rest.skip(i + 1)),
            None => (rest, seq![]),
        },
    }
}

/// The pieces of `s` between occurrences of `sep`, as `str::split` yields
/// them (an empty string gives one empty piece).
pub open spec fn split_on(s: Seq<char>, sep: char) -> Seq<Seq<char>>
    decreases s.len(),
{
    proof {
        lemma_index_of(s, sep);
    }
    match index_of(s, sep) {
        Some(i) => seq![s.take(i)] + split_on(s.skip(i + 1), sep),
        None => seq![s],
    }
}

/// Key and value of a query pair, split at the first `=`.
pub open spec fn key_value(pair: Seq<char>) -> (Seq<char>, Seq<char>) {
    match index_of(pair, '=') {
        Some(i) => (pair.take(i), pair.skip(i + 1)),
        None => (pair, seq![]),
    }
}

/// The percent-decoding of `v`, or `v` itself when it does not decode.
pub open spec fn decoded_or_raw(v: Seq<char>) -> Seq<char> {
    match percent_decoded(v) {
        Some(d) => d,
        None => v,
    }
}

/// The page and annotation after reading one query pair.
pub open spec fn apply_pair(pair: Seq<char>, state: (Option<u16>, Option<Seq<char>>)) -> (Option<u16>, Option<Seq<char>>) {
    if pair.len() == 0 {
        state
    } else {
        let (key, value) = key_value(pair);
        if key == page_key() {
            match parse_u16_spec(value) {
                Some(n) => (Some(n), state.1),
                None => state,
            }
        } else if key == annotation_key() {
            (state.0, Some(decoded_or_raw(value)))
        } else {
            state
        }
    }
}

/// The page and annotation after reading the pairs in order; a later pair
/// overrides an earlier one.
pub open spec fn apply_pairs(pairs: Seq<Seq<char>>, state: (Option<u16>, Option<Seq<char>>)) -> (Option<u16>, Option<Seq<char>>)
    decreases pairs.len(),
{
    if pairs.len() == 0 {
        state
    } else {
        apply_pairs(pairs.drop_first(), apply_pair(pairs[0], state))
    }
}

/// What `parse_pdf_link` reads from a link: the decoded path (which must end
/// in `.pdf`, ignoring case), the page, and the annotation id.
pub open spec fn parse_pdf_link_spec(link: Seq<char>) -> Option<(Seq<char>, Option<u16>, Option<Seq<char>>)> {
    match link_body(link) {
        None => None,
        Some(rest) => {
            let (raw_path, raw_query) = split_path_query(rest);
            let path = decoded_or_raw(raw_path);
            if ends_with(str_lowercase(path), pdf_ext()) {
                let (page, annotation) = apply_pairs(split_on(raw_query, '&'), (None, None));
                Some((path, page, annotation))
            } else {
                None
            }
        },
    }
}

/// A link to a PDF, a page in it, or an annotation on it.
#[derive(Debug, Clone, PartialEq, Eq)]
pub struct PdfLinkTarget {
    pub path: String,
    pub page: Option<u16>,
    pub annotation_id: Option<String>,
}

/// The characters of an optional string.
pub open spec fn opt_chars(o: Option<String>) -> Option<Seq<char>> {
    match o {
        Some(s) => Some(s@),
        None => None,
    }
}

/// The characters of an optional string slice.
pub open spec fn opt_str_chars(o: Option<&str>) -> Option<Seq<char>> {
    match o {
        Some(s) => Some(s@),
        None => None,
    }
}

impl View for PdfLinkTarget {
    type V = (Seq<char>, Option<u16>, Option<Seq<char>>);

    open spec fn view(&self) -> Self::V {
        (self.path@, self.page, opt_chars(self.annotation_id))
    }
}

/// Write a `pdf://` link to `path`, optionally to a page and an annotation.
pub fn build_pdf_link(path: &str, page: Option<u16>, annotation_id: Option<&str>) -> (link: String)
    ensures
        link@ == pdf_link_text(path@, page, opt_str_chars(annotation_id)),
{
    let mut out: Vec<char> = vec!['p', 'd', 'f', ':', '/', '/'];
    let encoded_path = chars_of(&percent_encode(path));
    extend_chars(&mut out, &encoded_path);
    let ghost head = out@;
    if page.is_some() || annotation_id.is_some() {
        out.push('?');
    }
    if let Some(p) = page {
        extend_chars(&mut out, &vec!['p', 'a', 'g', 'e', '=']);
        push_decimal(&mut out, p);
    }
    if let Some(a) = annotation_id {
        if page.is_some() {
            out.push('&');
        }
        extend_chars(&mut out, &vec!['a', 'n', 'n', 'o', 't', 'a', 't', 'i', 'o', 'n', '=']);
        let encoded = chars_of(&percent_encode(a));
        extend_chars(&mut out, &encoded);
    }
    assert(out@ =~= pdf_link_text(path@, page, opt_str_chars(annotation_id)));
    string_of(&out)
}

/// Split `s` at every `sep`.
pub fn split_chars(s: &Vec<char>, sep: char) -> (parts: Vec<Vec<char>>)
    ensures
        parts@.len() == split_on(s@, sep).len(),
        forall|i: int| 0 <= i < parts@.len() ==> #[trigger] parts@[i]@ == split_on(s@, sep)[i],
{
    let mut parts: Vec<Vec<char>> = Vec::new();
    let ghost mut seen: Seq<Seq<char>> = seq![];
    let mut rest = slice_chars(s, 0, s.len());
    assert(rest@ =~= s@);
    loop
        invariant
            split_on(s@, sep) == seen + split_on(rest@, sep),
            parts@.len() == seen.len(),
            forall|i: int| 0 <= i < parts@.len() ==> #[trigger] parts@[i]@ == seen[i],
        decreases rest@.len(),
    {
        proof {
            lemma_index_of(rest@, sep);
        }
        match find_char(&rest, sep) {
            Some(i) => {
                let piece = slice_chars(&rest, 0, i);
                let next = slice_chars(&rest, i + 1, rest.len());
                proof {
                    assert(piece@ =~= rest@.take(i as int));
                    assert(next@ =~= rest@.skip(i + 1));
                    assert(seen + split_on(rest@, sep) =~= seen.push(piece@) + split_on(
                        next@,
                        sep,
                    ));
                    seen = seen.push(piece@);
                }
                parts.push(piece);
                rest = next;
            },
            None => {
                proof {
                    assert(seen + split_on(rest@, sep) =~= seen.push(rest@));
                    seen = seen.push(rest@);
                }
                parts.push(rest);
                return parts;
            },
        }
    }
}

/// The key and value of a query pair.
fn split_key_value(pair: &Vec<char>) -> (kv: (Vec<char>, Vec<char>))
    ensures
        (kv.0@, kv.1@) == key_value(pair@),
{
    proof {
        lemma_index_of(pair@, '=');
    }
    match find_char(pair, '=') {
        Some(i) => {
            let n = pair.len();
            assert(index_of(pair@, '=') == Some(i as int));
            assert(i < n);
            (slice_chars(pair, 0, i), slice_chars(pair, i + 1, n))
        },
        None => (slice_chars(pair, 0, pair.len()), Vec::new()),
    }
}

/// The percent-decoding of `v`, or `v` itself when it does not decode.
fn decode_or_keep(v: &Vec<char>) -> (r: String)
    ensures
        r@ == decoded_or_raw(v@),
{
    let s = string_of(v);
    match percent_decode(&s) {
        Some(d) => d,
        None => s,
    }
}

/// Whether the lowercase form of `s` ends in `.pdf`.
pub fn ends_with_pdf_ignoring_case(s: &str) -> (r: bool)
    ensures
        r == ends_with(str_lowercase(s@), pdf_ext()),
{
    let lower = chars_of(&to_lowercase(s));
    let ext: Vec<char> = vec!['.', 'p', 'd', 'f'];
    has_suffix(&lower, &ext)
}

/// Read a PDF link back into its path, page and annotation id.
///
/// Accepts `pdf://` links and bare paths that mention `.pdf`; the query may
/// follow `?` or `#`. Unknown keys and unparsable pages are ignored; the path
/// must end in `.pdf` (ignoring case) after decoding.
pub fn parse_pdf_link(link: &str) -> (r: Option<PdfLinkTarget>)
    ensures
        r matches Some(t) ==> parse_pdf_link_spec(link@) == Some(t@),
        r is None ==> parse_pdf_link_spec(link@) is None,
{
    let chars = chars_of(link);
    let scheme: Vec<char> = vec!['p', 'd', 'f', ':', '/', '/'];
    let ext: Vec<char> = vec!['.', 'p', 'd', 'f'];
    let body_start: usize = if has_prefix(&chars, &scheme) {
        6
    } else if has_substring(&chars, &ext) {
        0
    } else {
        return None;
    };
    let rest = slice_chars(&chars, body_start, chars.len());
    assert(link_body(link@) == Some(rest@)) by {
        if body_start == 0 {
            assert(rest@ =~= link@);
        }
    }
    proof {
        lemma_index_of(rest@, '?');
        lemma_index_of(rest@, '#');
    }
    let (raw_path, raw_query) = match find_char(&rest, '?') {
        Some(i) => (slice_chars(&rest, 0, i), slice_chars(&rest, i + 1, rest.len())),
        None => match find_char(&rest, '#') {
            Some(i) => (slice_chars(&rest, 0, i), slice_chars(&rest, i + 1, rest.len())),
            None => (slice_chars(&rest, 0, rest.len()), Vec::new()),
        },
    };
    assert((raw_path@, raw_query@) == split_path_query(rest@)) by {
        assert(rest@.take(rest@.len() as int) =~= rest@);
        assert(raw_query@ =~= Seq::<char>::empty() || index_of(rest@, '?') is Some
            || index_of(rest@, '#') is Some);
    }
    let path = decode_or_keep(&raw_path);
    let lower = chars_of(&to_lowercase(&path));
    if !has_suffix(&lower, &ext) {
        return None;
    }
    let pairs = split_chars(&raw_query, '&');
    let ghost all = split_on(raw_query@, '&');
    assert(pairs@.len() == all.len());
    let mut page: Option<u16> = None;
    let mut annotation_id: Option<String> = None;
    let mut k: usize = 0;
    assert(all.skip(0) =~= all);
    while k < pairs.len()
        invariant
            pairs@.len() == all.len(),
            forall|i: int| 0 <= i < pairs@.len() ==> #[trigger] pairs@[i]@ == all[i],
            k <= pairs@.len(),
            apply_pairs(all, (None, None)) == apply_pairs(
                all.skip(k as int),
                (page, opt_chars(annotation_id)),
            ),
        decreases pairs@.len() - k,
    {
        let pair = &pairs[k];
        assert(all.skip(k as int).drop_first() =~= all.skip(k + 1));
        assert(all.skip(k as int)[0] == pair@);
        if pair.len() > 0 {
            let (key, value) = split_key_value(pair);
            if chars_equal(&key, &vec!['p', 'a', 'g', 'e']) {
                if let Some(n) = parse_u16(&value) {
                    page = Some(n);
                }
            } else if chars_equal(
                &key,
                &vec!['a', 'n', 'n', 'o', 't', 'a', 't', 'i', 'o', 'n'],
            ) {
                annotation_id = Some(decode_or_keep(&value));
            }
        }
        k = k + 1;
    }
    assert(all.skip(k as int) =~= Seq::<Seq<char>>::empty());
    Some(PdfLinkTarget { path, page, annotation_id })
}

} // verus!

verus! {

// ---------------------------------------------------------------------------
// Round trip
// ---------------------------------------------------------------------------

/// `c` occurs nowhere in `s`.
pub open spec fn lacks(s: Seq<char>, c: char) -> bool {
    forall|i: int| 0 <= i < s.len() ==> s[i] != c
}

pub(crate) proof fn lemma_index_of_append(a: Seq<char>, t: Seq<char>, c: char)
    requires
        lacks(a, c),
    ensures
        index_of(a + t, c) == (match index_of(t, c) {
            Some(i) => Some(i + a.len()),
            None => None,
        }),
    decreases a.len(),
{
    if a.len() == 0 {
        assert(a + t =~= t);
    } else {
        assert((a + t).drop_first() =~= a.drop_first() + t);
        assert(lacks(a.drop_first(), c)) by {
            assert forall|i: int| 0 <= i < a.drop_first().len() implies a.drop_first()[i] != c by {
                assert(a.drop_first()[i] == a[i + 1]);
            }
        }
        lemma_index_of_append(a.drop_first(), t, c);
        assert((a + t)[0] == a[0]);
    }
}

proof fn lemma_index_of_lacking(s: Seq<char>, c: char)
    requires
        lacks(s, c),
    ensures
        index_of(s, c) is None,
{
    lemma_index_of(s, c);
}

pub(crate) proof fn lemma_split_single(s: Seq<char>, sep: char)
    requires
        lacks(s, sep),
    ensures
        split_on(s, sep) == seq![s],
{
    lemma_index_of_lacking(s, sep);
}

proof fn lemma_encoded_lacks(s: Seq<char>)
    ensures
        lacks(percent_encoded(s), '?'),
        lacks(percent_encoded(s), '#'),
        lacks(percent_encoded(s), '&'),
        lacks(percent_encoded(s), '='),
{
    let bytes = percent_encode_bytes(encode_utf8(s));
    lemma_encode_alphabet(encode_utf8(s));
    let e = percent_encoded(s);
    assert forall|i: int| 0 <= i < e.len() implies e[i] != '?' && e[i] != '#' && e[i] != '&'
        && e[i] != '=' by {
        assert(e[i] == bytes[i] as char);
        assert(is_encoded_byte(bytes[i]));
    }
}

proof fn lemma_decimal_lacks(n: nat, c: char)
    requires
        !is_digit(c),
    ensures
        lacks(decimal(n), c),
{
    lemma_decimal(n);
    assert forall|i: int| 0 <= i < decimal(n).len() implies decimal(n)[i] != c by {
        assert(is_digit(decimal(n)[i]));
    }
}

proof fn lemma_page_pair(p: u16)
    ensures
        lacks(page_pair(p), '&'),
        lacks(page_pair(p), '?'),
        page_pair(p).len() > 0,
        apply_pair(page_pair(p), (None, None)) == (Some(p), None::<Seq<char>>),
        forall|a: Seq<char>|
            apply_pair(page_pair(p), (None, Some(a))) == (Some(p), Some(a)),
{
    let pp = page_pair(p);
    let d = decimal(p as nat);
    lemma_decimal_lacks(p as nat, '&');
    lemma_decimal_lacks(p as nat, '?');
    assert(lacks(pp, '&')) by {
        assert forall|i: int| 0 <= i < pp.len() implies pp[i] != '&' by {
            if i >= 5 {
                assert(pp[i] == d[i - 5]);
            }
        }
    }
    assert(lacks(pp, '?')) by {
        assert forall|i: int| 0 <= i < pp.len() implies pp[i] != '?' by {
            if i >= 5 {
                assert(pp[i] == d[i - 5]);
            }
        }
    }
    assert(lacks(page_key(), '='));
    lemma_index_of_append(page_key(), seq!['='] + d, '=');
    assert(pp =~= page_key() + (seq!['='] + d));
    assert(index_of(seq!['='] + d, '=') == Some(0int));
    assert(pp.take(4) =~= page_key());
    assert(pp.skip(5) =~= d);
    lemma_parse_decimal(p);
}

proof fn lemma_annotation_pair(a: Seq<char>)
    ensures
        lacks(annotation_pair(a), '&'),
        annotation_pair(a).len() > 0,
        forall|page: Option<u16>|
            apply_pair(annotation_pair(a), (page, None)) == (page, Some(a)),
{
    let ap = annotation_pair(a);
    let e = percent_encoded(a);
    lemma_encoded_lacks(a);
    assert(lacks(ap, '&')) by {
        assert forall|i: int| 0 <= i < ap.len() implies ap[i] != '&' by {
            if i >= 11 {
                assert(ap[i] == e[i - 11]);
            }
        }
    }
    assert(lacks(annotation_key(), '='));
    lemma_index_of_append(annotation_key(), seq!['='] + e, '=');
    assert(ap =~= annotation_key() + (seq!['='] + e));
    assert(index_of(seq!['='] + e, '=') == Some(0int));
    assert(ap.take(10) =~= annotation_key());
    assert(ap.skip(11) =~= e);
    assert(annotation_key() != page_key()) by {
        assert(annotation_key().len() != page_key().len());
    }
    lemma_percent_round_trip(a);
}

/// The query text after the `?` of a built link.
pub open spec fn query_text(page: Option<u16>, annotation: Option<Seq<char>>) -> Seq<char> {
    match (page, annotation) {
        (None, None) => seq![],
        (Some(p), None) => page_pair(p),
        (None, Some(a)) => annotation_pair(a),
        (Some(p), Some(a)) => page_pair(p) + seq!['&'] + annotation_pair(a),
    }
}

proof fn lemma_query_pairs(page: Option<u16>, annotation: Option<Seq<char>>)
    ensures
        apply_pairs(split_on(query_text(page, annotation), '&'), (None, None)) == (
            page,
            annotation,
        ),
{
    let raw_query = query_text(page, annotation);
    let init: (Option<u16>, Option<Seq<char>>) = (None, None);
    let empty = Seq::<Seq<char>>::empty();
    match (page, annotation) {
        (None, None) => {
            lemma_split_single(raw_query, '&');
            let pieces = split_on(raw_query, '&');
            assert(pieces.drop_first() =~= empty);
            assert(apply_pair(pieces[0], init) == init);
            assert(apply_pairs(empty, init) == init);
        },
        (Some(p), None) => {
            lemma_page_pair(p);
            lemma_split_single(page_pair(p), '&');
            let pieces = split_on(raw_query, '&');
            assert(pieces.drop_first() =~= empty);
            assert(apply_pair(pieces[0], init) == (Some(p), None::<Seq<char>>));
            assert(apply_pairs(empty, (Some(p), None::<Seq<char>>)) == (Some(p), None::<Seq<char>>));
        },
        (None, Some(a)) => {
            lemma_annotation_pair(a);
            lemma_split_single(annotation_pair(a), '&');
            let pieces = split_on(raw_query, '&');
            assert(pieces.drop_first() =~= empty);
            assert(apply_pair(pieces[0], init) == (None::<u16>, Some(a)));
            assert(apply_pairs(empty, (None::<u16>, Some(a))) == (None::<u16>, Some(a)));
        },
        (Some(p), Some(a)) => {
            lemma_page_pair(p);
            lemma_annotation_pair(a);
            let pp = page_pair(p);
            let ap = annotation_pair(a);
            lemma_index_of_append(pp, seq!['&'] + ap, '&');
            assert(raw_query =~= pp + (seq!['&'] + ap));
            assert(index_of(seq!['&'] + ap, '&') == Some(0int));
            assert(raw_query.take(pp.len() as int) =~= pp);
            assert(raw_query.skip(pp.len() as int + 1) =~= ap);
            lemma_split_single(ap, '&');
            let pieces = split_on(raw_query, '&');
            assert(pieces =~= seq![pp, ap]);
            assert(pieces.drop_first() =~= seq![ap]);
            assert(pieces.drop_first().drop_first() =~= empty);
            let s1 = apply_pair(pp, init);
            assert(s1 == (Some(p), None::<Seq<char>>));
            let s2 = apply_pair(ap, s1);
            assert(s2 == (Some(p), Some(a)));
            assert(apply_pairs(empty, s2) == s2);
            assert(apply_pairs(seq![ap], s1) == apply_pairs(empty, s2));
        },
    }
}

proof fn lemma_link_split(path: Seq<char>, page: Option<u16>, annotation: Option<Seq<char>>)
    ensures
        link_body(pdf_link_text(path, page, annotation)) == Some(
            percent_encoded(path) + link_query(page, annotation),
        ),
        split_path_query(percent_encoded(path) + link_query(page, annotation)) == (
            percent_encoded(path),
            query_text(page, annotation),
        ),
{
    let e = percent_encoded(path);
    let q = link_query(page, annotation);
    let link = pdf_link_text(path, page, annotation);
    lemma_encoded_lacks(path);
    assert(link.take(6) =~= pdf_scheme());
    assert(link.skip(6) =~= e + q);
    let rest = e + q;
    let raw_query = query_text(page, annotation);
    if q.len() == 0 {
        assert(rest =~= e);
        lemma_index_of_lacking(e, '?');
        lemma_index_of_lacking(e, '#');
        assert(raw_query =~= Seq::<char>::empty());
    } else {
        lemma_index_of_append(e, q, '?');
        assert(q =~= seq!['?'] + raw_query);
        assert(index_of(q, '?') == Some(0int));
        assert(rest.take(e.len() as int) =~= e);
        assert(rest.skip(e.len() as int + 1) =~= raw_query);
    }
}

/// A link written by `build_pdf_link` parses back to the same path, page and
/// annotation id, for every path whose lowercase form ends in `.pdf`.
pub proof fn lemma_pdf_link_round_trip(
    path: Seq<char>,
    page: Option<u16>,
    annotation: Option<Seq<char>>,
)
    requires
        ends_with(str_lowercase(path), pdf_ext()),
    ensures
        parse_pdf_link_spec(pdf_link_text(path, page, annotation)) == Some(
            (path, page, annotation),
        ),
{
    lemma_percent_round_trip(path);
    lemma_link_split(path, page, annotation);
    lemma_query_pairs(page, annotation);
}

} // verus!
