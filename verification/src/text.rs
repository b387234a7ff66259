//! Text primitives shared by the rest of the crate: ordering, trimming, prefixes, and unsigned
//! decimal numbers.
//!
//! Every function is stated over the character sequence `s@` of a string. Strings are ordered by
//! their characters, which is the order of their UTF-8 bytes as well.

use vstd::prelude::*;

verus! {

/// `a` comes strictly before `b` in dictionary order of their characters.
pub open spec fn precedes(a: Seq<char>, b: Seq<char>) -> bool
    decreases a.len(),
{
    if b.len() == 0 {
        false
    } else if a.len() == 0 {
        true
    } else if a[0] != b[0] {
        a[0] < b[0]
    } else {
        precedes(a.drop_first(), b.drop_first())
    }
}

/// Nothing comes before itself.
pub proof fn lemma_precedes_irreflexive(a: Seq<char>)
    ensures
        !precedes(a, a),
    decreases a.len(),
{
    if a.len() > 0 {
        lemma_precedes_irreflexive(a.drop_first());
    }
}

/// Dictionary order is transitive.
pub proof fn lemma_precedes_transitive(a: Seq<char>, b: Seq<char>, c: Seq<char>)
    requires
        precedes(a, b),
        precedes(b, c),
    ensures
        precedes(a, c),
    decreases a.len(),
{
    if a.len() > 0 && a[0] == b[0] && b[0] == c[0] {
        lemma_precedes_transitive(a.drop_first(), b.drop_first(), c.drop_first());
    }
}

/// Of two different texts one comes before the other.
pub proof fn lemma_precedes_total(a: Seq<char>, b: Seq<char>)
    ensures
        a == b || precedes(a, b) || precedes(b, a),
    decreases a.len(),
{
    if a.len() == 0 || b.len() == 0 {
        assert(a.len() == 0 && b.len() == 0 ==> a =~= b);
    } else if a[0] == b[0] {
        lemma_precedes_total(a.drop_first(), b.drop_first());
        assert(a =~= seq![a[0]] + a.drop_first());
        assert(b =~= seq![b[0]] + b.drop_first());
    }
}

/// Two texts never come before each other.
pub proof fn lemma_precedes_asymmetric(a: Seq<char>, b: Seq<char>)
    requires
        precedes(a, b),
    ensures
        !precedes(b, a),
        a != b,
{
    lemma_precedes_irreflexive(a);
    if precedes(b, a) {
        lemma_precedes_transitive(a, b, a);
    }
}

/// Not coming before is transitive.
pub proof fn lemma_not_precedes_transitive(a: Seq<char>, b: Seq<char>, c: Seq<char>)
    ensures
        !precedes(a, b) && !precedes(b, c) ==> !precedes(a, c),
{
    if !precedes(a, b) && !precedes(b, c) && precedes(a, c) {
        lemma_precedes_total(a, b);
        lemma_precedes_total(b, c);
        lemma_precedes_irreflexive(a);
        if a != b && b != c {
            lemma_precedes_transitive(c, b, a);
            lemma_precedes_asymmetric(a, c);
        }
    }
}

/// Whether `a` comes strictly before `b`.
pub fn str_precedes(a: &str, b: &str) -> (r: bool)
    ensures
        r == precedes(a@, b@),
{
    let mut left = a.chars();
    let mut right = b.chars();
    loop
        invariant
            precedes(a@, b@) == precedes(
                vstd::std_specs::iter::IteratorSpec::remaining(&left),
                vstd::std_specs::iter::IteratorSpec::remaining(&right),
            ),
            vstd::std_specs::iter::IteratorSpec::decrease(&right) is Some,
        decreases vstd::std_specs::iter::IteratorSpec::decrease(&right)->0,
    {
        match (left.next(), right.next()) {
            (_, None) => {
                return false;
            },
            (None, Some(_)) => {
                return true;
            },
            (Some(x), Some(y)) => {
                if x != y {
                    return x < y;
                }
            },
        }
    }
}

/// Whether two texts are the same.
pub fn str_eq(a: &str, b: &str) -> (r: bool)
    ensures
        r == (a@ == b@),
{
    let left = a.as_bytes();
    let right = b.as_bytes();
    proof {
        vstd::utf8::encode_utf8_decode_utf8(a@);
        vstd::utf8::encode_utf8_decode_utf8(b@);
    }
    if left.len() != right.len() {
        return false;
    }
    let mut i: usize = 0;
    while i < left.len()
        invariant
            i <= left@.len(),
            left@.len() == right@.len(),
            left@.take(i as int) =~= right@.take(i as int),
            left@ == vstd::utf8::encode_utf8(a@),
            right@ == vstd::utf8::encode_utf8(b@),
        decreases left@.len() - i,
    {
        if left[i] != right[i] {
            return false;
        }
        i += 1;
    }
    assert(left@.take(i as int) =~= left@);
    assert(right@.take(i as int) =~= right@);
    true
}

/// The characters of a text, one per element.
pub fn chars_of(s: &str) -> (r: Vec<char>)
    ensures
        r@ == s@,
{
    let mut out: Vec<char> = Vec::new();
    for c in it: s.chars()
        invariant
            out@ == s@.take(it.index()),
            it.seq() == s@,
    {
        out.push(c);
    }
    out
}

/// Whether some element of `items` is the text `wanted`.
pub fn contains_str(items: &[String], wanted: &str) -> (r: bool)
    ensures
        r == texts(items@).contains(wanted@),
{
    let mut i: usize = 0;
    while i < items.len()
        invariant
            i <= items@.len(),
            forall|j: int| 0 <= j < i ==> #[trigger] texts(items@)[j] != wanted@,
        decreases items@.len() - i,
    {
        if str_eq(items[i].as_str(), wanted) {
            assert(texts(items@)[i as int] == wanted@);
            return true;
        }
        i += 1;
    }
    false
}

/// The texts held by a sequence of strings.
pub open spec fn texts(items: Seq<String>) -> Seq<Seq<char>> {
    items.map_values(|s: String| s@)
}

/// A copy of a list of strings.
pub fn clone_strings(items: &[String]) -> (r: Vec<String>)
    ensures
        r@ == items@,
{
    let mut out: Vec<String> = Vec::new();
    let mut i: usize = 0;
    while i < items.len()
        invariant
            i <= items@.len(),
            out@ == items@.take(i as int),
        decreases items@.len() - i,
    {
        out.push(items[i].clone());
        i += 1;
    }
    assert(items@.take(i as int) =~= items@);
    out
}

/// The characters with the Unicode `White_Space` property.
pub open spec fn white_space(c: char) -> bool {
    ||| 0x09 <= c as u32 <= 0x0d
    ||| c as u32 == 0x20
    ||| c as u32 == 0x85
    ||| c as u32 == 0xa0
    ||| c as u32 == 0x1680
    ||| 0x2000 <= c as u32 <= 0x200a
    ||| c as u32 == 0x2028
    ||| c as u32 == 0x2029
    ||| c as u32 == 0x202f
    ||| c as u32 == 0x205f
    ||| c as u32 == 0x3000
}

fn is_white_space(c: char) -> (r: bool)
    ensures
        r == white_space(c),
{
    let n: u32 = c as u32;
    (0x09 <= n && n <= 0x0d) || n == 0x20 || n == 0x85 || n == 0xa0 || n == 0x1680 || (0x2000 <= n
        && n <= 0x200a) || n == 0x2028 || n == 0x2029 || n == 0x202f || n == 0x205f || n == 0x3000
}

/// `s` without its leading white space.
pub open spec fn without_leading_space(s: Seq<char>) -> Seq<char>
    decreases s.len(),
{
    if s.len() > 0 && white_space(s[0]) {
        without_leading_space(s.drop_first())
    } else {
        s
    }
}

/// `s` without its trailing white space.
pub open spec fn without_trailing_space(s: Seq<char>) -> Seq<char>
    decreases s.len(),
{
    if s.len() > 0 && white_space(s.last()) {
        without_trailing_space(s.drop_last())
    } else {
        s
    }
}

/// `s` without the white space at its two ends.
pub open spec fn trimmed(s: Seq<char>) -> Seq<char> {
    without_trailing_space(without_leading_space(s))
}

/// What is left of a text once the white space at its two ends is dropped.
pub fn trim(s: &str) -> (r: &str)
    ensures
        r@ == trimmed(s@),
{
    let chars = chars_of(s);
    let mut start: usize = 0;
    assert(s@.skip(0) =~= s@);
    while start < chars.len() && is_white_space(chars[start])
        invariant
            start <= chars@.len(),
            chars@ == s@,
            without_leading_space(s@) == without_leading_space(s@.skip(start as int)),
        decreases chars@.len() - start,
    {
        assert(s@.skip(start as int).drop_first() =~= s@.skip(start + 1));
        start += 1;
    }
    let mut end: usize = chars.len();
    let ghost rest = s@.skip(start as int);
    assert(without_leading_space(s@) == rest);
    assert(s@.subrange(start as int, end as int) =~= rest);
    while start < end && is_white_space(chars[end - 1])
        invariant
            start <= end <= chars@.len(),
            chars@ == s@,
            without_trailing_space(rest) == without_trailing_space(
                s@.subrange(start as int, end as int),
            ),
        decreases end - start,
    {
        assert(s@.subrange(start as int, end as int).drop_last() =~= s@.subrange(
            start as int,
            end - 1,
        ));
        end -= 1;
    }
    s.substring_char(start, end)
}

/// `s` begins with `prefix`.
pub open spec fn has_prefix(s: Seq<char>, prefix: Seq<char>) -> bool {
    prefix.len() <= s.len() && s.take(prefix.len() as int) == prefix
}

/// What follows `prefix` in `s`, if `s` begins with it.
pub fn strip_prefix<'a>(s: &'a str, prefix: &str) -> (r: Option<&'a str>)
    ensures
        r is Some <==> has_prefix(s@, prefix@),
        r matches Some(rest) ==> rest@ == s@.skip(prefix@.len() as int),
{
    let chars = chars_of(s);
    let wanted = chars_of(prefix);
    if wanted.len() > chars.len() {
        return None;
    }
    let mut i: usize = 0;
    while i < wanted.len()
        invariant
            i <= wanted@.len() <= chars@.len(),
            chars@ == s@,
            wanted@ == prefix@,
            forall|j: int| 0 <= j < i ==> s@[j] == #[trigger] prefix@[j],
        decreases wanted@.len() - i,
    {
        if chars[i] != wanted[i] {
            assert(s@.take(prefix@.len() as int)[i as int] != prefix@[i as int]);
            return None;
        }
        i += 1;
    }
    assert(s@.take(prefix@.len() as int) =~= prefix@);
    assert(s@.subrange(wanted@.len() as int, chars@.len() as int) =~= s@.skip(
        prefix@.len() as int,
    ));
    Some(s.substring_char(wanted.len(), chars.len()))
}

/// The number that a decimal digit stands for.
pub open spec fn digit_value(c: char) -> Option<nat> {
    if '0' <= c <= '9' {
        Some((c as u32 - '0' as u32) as nat)
    } else {
        None
    }
}

/// The number that a run of decimal digits stands for; `None` if some character is no digit.
pub open spec fn digits_value(s: Seq<char>) -> Option<nat>
    decreases s.len(),
{
    if s.len() == 0 {
        Some(0)
    } else {
        match (digits_value(s.drop_last()), digit_value(s.last())) {
            (Some(high), Some(low)) => Some(high * 10 + low),
            _ => None,
        }
    }
}

/// The number written by `s`: one or more decimal digits, with a `+` before them or none.
pub open spec fn number_of(s: Seq<char>) -> Option<nat> {
    let digits = if s.len() > 0 && s[0] == '+' {
        s.drop_first()
    } else {
        s
    };
    if digits.len() == 0 {
        None
    } else {
        digits_value(digits)
    }
}

/// The number written by `s`, if `s` writes one that is at most `max`.
pub open spec fn bounded_number(s: Seq<char>, max: nat) -> Option<nat> {
    match number_of(s) {
        Some(n) if n <= max => Some(n),
        _ => None,
    }
}

/// A run of digits stands for at least what any of its prefixes stands for, and for nothing if one
/// of its prefixes stands for nothing.
proof fn lemma_digits_prefix(s: Seq<char>, k: int)
    requires
        0 <= k <= s.len(),
    ensures
        digits_value(s.take(k)) is None ==> digits_value(s) is None,
        digits_value(s) matches Some(n) ==> digits_value(s.take(k)) is Some && digits_value(
            s.take(k),
        )->0 <= n,
    decreases s.len(),
{
    if k == s.len() {
        assert(s.take(k) =~= s);
    } else {
        assert(s.drop_last().take(k) =~= s.take(k));
        lemma_digits_prefix(s.drop_last(), k);
    }
}

/// Reads an unsigned number: digits, with a `+` before them or none. `None` for any other text and
/// for a number beyond the range of `u128`.
pub fn parse_u128(s: &str) -> (r: Option<u128>)
    ensures
        match bounded_number(s@, u128::MAX as nat) {
            Some(n) => r == Some(n as u128),
            None => r is None,
        },
{
    let chars = chars_of(s);
    let mut i: usize = 0;
    if chars.len() > 0 && chars[0] == '+' {
        i = 1;
    }
    let ghost digits = s@.skip(i as int);
    let ghost start = i as int;
    assert(i == 0 ==> digits =~= s@);
    assert(i == 1 ==> digits =~= s@.drop_first());
    if i == chars.len() {
        return None;
    }
    let mut acc: u128 = 0;
    assert(digits.take(0) =~= Seq::<char>::empty());
    while i < chars.len()
        invariant
            0 <= start <= i <= chars@.len(),
            chars@ == s@,
            digits == s@.skip(start),
            digits.len() > 0,
            number_of(s@) == digits_value(digits),
            digits_value(digits.take(i - start)) == Some(acc as nat),
        decreases chars@.len() - i,
    {
        let c: char = chars[i];
        let ghost k = i - start;
        proof {
            lemma_digits_prefix(digits, k + 1);
            assert(digits.take(k + 1).drop_last() =~= digits.take(k));
            assert(digits.take(k + 1).last() == c);
        }
        if !('0' <= c && c <= '9') {
            return None;
        }
        let low: u128 = (c as u32 - '0' as u32) as u128;
        match acc.checked_mul(10) {
            None => {
                return None;
            },
            Some(high) => match high.checked_add(low) {
                None => {
                    return None;
                },
                Some(next) => {
                    acc = next;
                },
            },
        }
        i += 1;
    }
    assert(digits.take(i - start) =~= digits);
    Some(acc)
}

/// Reads an unsigned number within the range of `u64`.
pub fn parse_u64(s: &str) -> (r: Option<u64>)
    ensures
        match bounded_number(s@, u64::MAX as nat) {
            Some(n) => r == Some(n as u64),
            None => r is None,
        },
{
    match parse_u128(s) {
        Some(n) if n <= u64::MAX as u128 => Some(n as u64),
        _ => None,
    }
}

/// Reads an unsigned number within the range of `usize`.
pub fn parse_usize(s: &str) -> (r: Option<usize>)
    ensures
        match bounded_number(s@, usize::MAX as nat) {
            Some(n) => r == Some(n as usize),
            None => r is None,
        },
{
    match parse_u128(s) {
        Some(n) if n <= usize::MAX as u128 => Some(n as usize),
        _ => None,
    }
}

/// The decimal digit that stands for `n`.
pub open spec fn digit_char(n: nat) -> char {
    ('0' as u32 + n) as char
}

/// `n` written in decimal, without leading zeros.
pub open spec fn decimal(n: nat) -> Seq<char>
    decreases n,
{
    if n < 10 {
        seq![digit_char(n)]
    } else {
        decimal(n / 10).push(digit_char(n % 10))
    }
}

/// Reading a number that was written in decimal gives the number back.
pub proof fn law_decimal_reads_back(n: nat)
    ensures
        number_of(decimal(n)) == Some(n),
{
    lemma_decimal_digits(n);
}

proof fn lemma_decimal_digits(n: nat)
    ensures
        decimal(n).len() > 0,
        decimal(n)[0] != '+',
        digits_value(decimal(n)) == Some(n),
    decreases n,
{
    if n < 10 {
        assert(decimal(n).drop_last() =~= Seq::<char>::empty());
        assert(digits_value(decimal(n).drop_last()) == Some(0nat));
    } else {
        lemma_decimal_digits(n / 10);
        assert(decimal(n).drop_last() =~= decimal(n / 10));
    }
}

fn push_digit(out: &mut String, n: u128)
    requires
        n < 10,
    ensures
        final(out)@ == old(out)@.push(digit_char(n as nat)),
{
    proof {
        reveal_strlit("0");
        reveal_strlit("1");
        reveal_strlit("2");
        reveal_strlit("3");
        reveal_strlit("4");
        reveal_strlit("5");
        reveal_strlit("6");
        reveal_strlit("7");
        reveal_strlit("8");
        reveal_strlit("9");
    }
    let digit = if n == 0 {
        "0"
    } else if n == 1 {
        "1"
    } else if n == 2 {
        "2"
    } else if n == 3 {
        "3"
    } else if n == 4 {
        "4"
    } else if n == 5 {
        "5"
    } else if n == 6 {
        "6"
    } else if n == 7 {
        "7"
    } else if n == 8 {
        "8"
    } else {
        "9"
    };
    out.append(digit);
    assert(out@ =~= old(out)@.push(digit_char(n as nat)));
}

/// Appends `n` in decimal to `out`.
pub fn push_decimal(out: &mut String, n: u128)
    ensures
        final(out)@ == old(out)@ + decimal(n as nat),
    decreases n,
{
    if n >= 10 {
        push_decimal(out, n / 10);
    }
    push_digit(out, n % 10);
    assert(out@ =~= old(out)@ + decimal(n as nat));
}

/// The amount that a text writes in base units: a decimal number, white space around it dropped;
/// zero if it is no number or more than a `u128` holds.
pub open spec fn base_units(s: Seq<char>) -> nat {
    match bounded_number(trimmed(s), u128::MAX as nat) {
        Some(n) => n,
        None => 0,
    }
}

/// Reads an amount in base units; what cannot be read counts as zero.
pub fn parse_base_units(s: &str) -> (r: u128)
    ensures
        r == base_units(s@),
{
    match parse_u128(trim(s)) {
        Some(n) => n,
        None => 0,
    }
}

/// An amount written in decimal is read back.
pub proof fn law_base_units_of_decimal(n: u128)
    ensures
        base_units(decimal(n as nat)) == n,
{
    law_decimal_reads_back(n as nat);
    lemma_decimal_digits(n as nat);
    let s = decimal(n as nat);
    lemma_decimal_has_no_space(n as nat);
    assert(without_leading_space(s) == s);
    assert(without_trailing_space(s) == s);
}

/// A number written in decimal neither begins nor ends with white space.
pub proof fn lemma_decimal_has_no_space(n: nat)
    ensures
        decimal(n).len() > 0,
        !white_space(decimal(n)[0]),
        !white_space(decimal(n).last()),
    decreases n,
{
    if n >= 10 {
        lemma_decimal_has_no_space(n / 10);
    }
}

spec fn ten_to(k: nat) -> nat
    decreases k,
{
    if k == 0 {
        1
    } else {
        10 * ten_to((k - 1) as nat)
    }
}

proof fn lemma_decimal_length_below(n: nat, k: nat)
    requires
        k > 0,
        n < ten_to(k),
    ensures
        decimal(n).len() <= k,
        vstd::utf8::is_ascii_chars(decimal(n)),
    decreases k,
{
    if n >= 10 {
        if k == 1 {
            assert(ten_to(1) == 10 * ten_to(0));
        }
        lemma_decimal_length_below(n / 10, (k - 1) as nat);
    }
}

/// A `u64` has at most twenty decimal digits, each of them one byte.
pub proof fn lemma_decimal_length(n: u64)
    ensures
        vstd::utf8::encode_utf8(decimal(n as nat)).len() <= 20,
{
    assert(ten_to(20) == 100_000_000_000_000_000_000) by {
        reveal_with_fuel(ten_to, 21);
    }
    lemma_decimal_length_below(n as nat, 20);
    vstd::utf8::is_ascii_chars_encode_utf8(decimal(n as nat));
}

/// One text comes before another exactly if, where the two first part, it has ended or has the
/// smaller character.
pub proof fn law_texts_are_ordered_where_they_part(a: Seq<char>, b: Seq<char>)
    ensures
        precedes(a, b) <==> exists|k: int|
            #![trigger a.take(k)]
            0 <= k <= a.len() && k < b.len() && a.take(k) == b.take(k) && (k == a.len() || a[k]
                < b[k]),
    decreases a.len(),
{
    if precedes(a, b) {
        let k = first_difference(a, b);
        lemma_first_difference(a, b);
        assert(a.take(k) =~= b.take(k));
    }
    if exists|k: int|
        #![trigger a.take(k)]
        0 <= k <= a.len() && k < b.len() && a.take(k) == b.take(k) && (k == a.len() || a[k]
            < b[k]) {
        let k = choose|k: int|
            #![trigger a.take(k)]
            0 <= k <= a.len() && k < b.len() && a.take(k) == b.take(k) && (k == a.len() || a[k]
                < b[k]);
        lemma_precedes_from_difference(a, b, k);
    }
}

/// The length of what two texts begin with alike.
spec fn first_difference(a: Seq<char>, b: Seq<char>) -> int
    decreases a.len(),
{
    if a.len() > 0 && b.len() > 0 && a[0] == b[0] {
        1 + first_difference(a.drop_first(), b.drop_first())
    } else {
        0
    }
}

proof fn lemma_first_difference(a: Seq<char>, b: Seq<char>)
    requires
        precedes(a, b),
    ensures
        0 <= first_difference(a, b) <= a.len(),
        first_difference(a, b) < b.len(),
        forall|i: int| 0 <= i < first_difference(a, b) ==> a[i] == b[i],
        first_difference(a, b) < a.len() ==> a[first_difference(a, b)] < b[first_difference(a, b)],
    decreases a.len(),
{
    if a.len() > 0 && b.len() > 0 && a[0] == b[0] {
        let (x, y) = (a.drop_first(), b.drop_first());
        lemma_first_difference(x, y);
        assert forall|i: int| 0 <= i < first_difference(a, b) implies a[i] == b[i] by {
            if i > 0 {
                assert(x[i - 1] == y[i - 1]);
            }
        }
    }
}

proof fn lemma_precedes_from_difference(a: Seq<char>, b: Seq<char>, k: int)
    requires
        0 <= k <= a.len(),
        k < b.len(),
        a.take(k) == b.take(k),
        k == a.len() || a[k] < b[k],
    ensures
        precedes(a, b),
    decreases k,
{
    if k > 0 {
        assert(a[0] == a.take(k)[0]);
        assert(b[0] == b.take(k)[0]);
        assert(a[0] == b[0]);
        assert(a.drop_first().take(k - 1) =~= a.take(k).drop_first());
        assert(b.drop_first().take(k - 1) =~= b.take(k).drop_first());
        lemma_precedes_from_difference(a.drop_first(), b.drop_first(), k - 1);
    }
}

/// The texts of a list are those of its strings, place by place.
pub proof fn law_texts_stand_in_place(items: Seq<String>)
    ensures
        texts(items).len() == items.len(),
        forall|i: int| 0 <= i < items.len() ==> #[trigger] texts(items)[i] == items[i]@,
{
}

/// White space is these twenty-five characters and no others.
pub proof fn law_white_space_characters(c: char)
    ensures
        white_space(c) <==> seq![
            0x09u32,
            0x0au32,
            0x0bu32,
            0x0cu32,
            0x0du32,
            0x20u32,
            0x85u32,
            0xa0u32,
            0x1680u32,
            0x2000u32,
            0x2001u32,
            0x2002u32,
            0x2003u32,
            0x2004u32,
            0x2005u32,
            0x2006u32,
            0x2007u32,
            0x2008u32,
            0x2009u32,
            0x200au32,
            0x2028u32,
            0x2029u32,
            0x202fu32,
            0x205fu32,
            0x3000u32,
        ].contains(c as u32),
{
    let all = seq![
        0x09u32,
        0x0au32,
        0x0bu32,
        0x0cu32,
        0x0du32,
        0x20u32,
        0x85u32,
        0xa0u32,
        0x1680u32,
        0x2000u32,
        0x2001u32,
        0x2002u32,
        0x2003u32,
        0x2004u32,
        0x2005u32,
        0x2006u32,
        0x2007u32,
        0x2008u32,
        0x2009u32,
        0x200au32,
        0x2028u32,
        0x2029u32,
        0x202fu32,
        0x205fu32,
        0x3000u32,
    ];
    let n = c as u32;
    assert(all[0] == 0x09 && all[1] == 0x0a && all[2] == 0x0b && all[3] == 0x0c && all[4] == 0x0d);
    assert(all[5] == 0x20 && all[6] == 0x85 && all[7] == 0xa0 && all[8] == 0x1680);
    assert(all[9] == 0x2000 && all[10] == 0x2001 && all[11] == 0x2002 && all[12] == 0x2003);
    assert(all[13] == 0x2004 && all[14] == 0x2005 && all[15] == 0x2006 && all[16] == 0x2007);
    assert(all[17] == 0x2008 && all[18] == 0x2009 && all[19] == 0x200a && all[20] == 0x2028);
    assert(all[21] == 0x2029 && all[22] == 0x202f && all[23] == 0x205f && all[24] == 0x3000);
}

/// Trimming cuts a text at two places: what lies outside them is white space, and what lies
/// between them neither begins nor ends with any.
pub proof fn law_trimming_drops_only_outer_space(s: Seq<char>) -> (cuts: (int, int))
    ensures
        0 <= cuts.0 <= cuts.1 <= s.len(),
        trimmed(s) == s.subrange(cuts.0, cuts.1),
        forall|i: int| 0 <= i < cuts.0 ==> white_space(#[trigger] s[i]),
        forall|i: int| cuts.1 <= i < s.len() ==> white_space(#[trigger] s[i]),
        cuts.0 < cuts.1 ==> !white_space(s[cuts.0]) && !white_space(s[cuts.1 - 1]),
{
    let start = lemma_leading_space(s);
    let rest = s.skip(start);
    let kept = lemma_trailing_space(rest);
    assert(rest.take(kept) =~= s.subrange(start, start + kept));
    assert forall|i: int| start + kept <= i < s.len() implies white_space(#[trigger] s[i]) by {
        assert(s[i] == rest[i - start]);
    }
    if kept > 0 {
        assert(rest[0] == s[start]);
        assert(rest[kept - 1] == s[start + kept - 1]);
    }
    (start, start + kept)
}

proof fn lemma_leading_space(s: Seq<char>) -> (start: int)
    ensures
        0 <= start <= s.len(),
        without_leading_space(s) == s.skip(start),
        forall|i: int| 0 <= i < start ==> white_space(#[trigger] s[i]),
        start < s.len() ==> !white_space(s[start]),
    decreases s.len(),
{
    if s.len() > 0 && white_space(s[0]) {
        let rest = s.drop_first();
        let start = lemma_leading_space(rest);
        assert(rest.skip(start) =~= s.skip(start + 1));
        assert forall|i: int| 0 <= i < start + 1 implies white_space(#[trigger] s[i]) by {
            if i > 0 {
                assert(s[i] == rest[i - 1]);
            }
        }
        start + 1
    } else {
        assert(s.skip(0) =~= s);
        0
    }
}

proof fn lemma_trailing_space(s: Seq<char>) -> (kept: int)
    ensures
        0 <= kept <= s.len(),
        without_trailing_space(s) == s.take(kept),
        forall|i: int| kept <= i < s.len() ==> white_space(#[trigger] s[i]),
        kept > 0 ==> !white_space(s[kept - 1]),
    decreases s.len(),
{
    if s.len() > 0 && white_space(s.last()) {
        let front = s.drop_last();
        let kept = lemma_trailing_space(front);
        assert(front.take(kept) =~= s.take(kept));
        assert forall|i: int| kept <= i < s.len() implies white_space(#[trigger] s[i]) by {
            if i < s.len() - 1 {
                assert(s[i] == front[i]);
            }
        }
        kept
    } else {
        assert(s.take(s.len() as int) =~= s);
        s.len() as int
    }
}

/// Nothing is left of a text by trimming exactly if all of it is white space.
pub proof fn law_blank_texts_are_white_space(s: Seq<char>)
    ensures
        trimmed(s).len() == 0 <==> forall|i: int| 0 <= i < s.len() ==> white_space(#[trigger] s[i]),
{
    let cuts = law_trimming_drops_only_outer_space(s);
    if cuts.0 < cuts.1 {
        assert(!white_space(s[cuts.0]));
    }
}

/// Some character of `s` is not white space.
pub open spec fn is_named(s: Seq<char>) -> bool {
    exists|i: int| 0 <= i < s.len() && !white_space(#[trigger] s[i])
}

/// White space put around a text that neither begins nor ends with any is what trimming drops.
pub proof fn law_padding_is_trimmed(before: Seq<char>, s: Seq<char>, after: Seq<char>)
    requires
        forall|i: int| 0 <= i < before.len() ==> white_space(#[trigger] before[i]),
        forall|i: int| 0 <= i < after.len() ==> white_space(#[trigger] after[i]),
        s.len() > 0 ==> !white_space(s[0]) && !white_space(s.last()),
    ensures
        trimmed(before + s + after) == s,
{
    let whole = before + s + after;
    let cuts = law_trimming_drops_only_outer_space(whole);
    let n = before.len() as int;
    let m = n + s.len();
    if s.len() > 0 {
        assert(whole[n] == s[0]);
        assert(whole[m - 1] == s.last());
        assert(cuts.0 <= n && m <= cuts.1);
        if cuts.0 < n {
            assert(whole[cuts.0] == before[cuts.0]);
        }
        if m < cuts.1 {
            assert(whole[cuts.1 - 1] == after[cuts.1 - 1 - m]);
        }
        assert(whole.subrange(n, m) =~= s);
    } else {
        assert forall|i: int| 0 <= i < whole.len() implies white_space(#[trigger] whole[i]) by {
            if i < n {
                assert(whole[i] == before[i]);
            } else {
                assert(whole[i] == after[i - n]);
            }
        }
        law_blank_texts_are_white_space(whole);
        assert(trimmed(whole) =~= s);
    }
}

/// A text begins with a prefix exactly if it is the prefix with something behind it.
pub proof fn law_prefix_and_rest(s: Seq<char>, prefix: Seq<char>)
    ensures
        has_prefix(s, prefix) <==> exists|rest: Seq<char>| s == #[trigger] (prefix + rest),
{
    if has_prefix(s, prefix) {
        assert(s =~= prefix + s.skip(prefix.len() as int));
    }
    if exists|rest: Seq<char>| s == #[trigger] (prefix + rest) {
        assert(s.take(prefix.len() as int) =~= prefix);
    }
}

/// A number below ten is written as one digit, and behind a number that is not zero a further
/// digit makes ten times that number and the digit.
pub proof fn law_decimal_places(n: nat, d: nat)
    requires
        d < 10,
    ensures
        decimal(d).len() == 1,
        decimal(d)[0] as u32 == 48 + d,
        n > 0 ==> decimal(n * 10 + d) == decimal(n) + decimal(d),
{
    if n > 0 {
        assert((n * 10 + d) / 10 == n);
        assert((n * 10 + d) % 10 == d);
        assert(decimal(n * 10 + d) =~= decimal(n) + decimal(d));
    }
}

/// The texts that are read as a number are its decimal form with zeros before it, any number of
/// them, and a `+` before all that, or none.
pub proof fn law_number_texts(s: Seq<char>, n: nat)
    ensures
        number_of(s) == Some(n) <==> exists|lead: Seq<char>|
            {
                &&& s == #[trigger] (lead + decimal(n))
                &&& forall|i: int|
                    0 <= i < lead.len() ==> #[trigger] lead[i] == '0' || (i == 0 && lead[i] == '+')
            },
{
    if number_of(s) == Some(n) {
        let signed = s.len() > 0 && s[0] == '+';
        let digits = if signed {
            s.drop_first()
        } else {
            s
        };
        let zeros = lemma_digits_are_decimal(digits, n);
        let lead = if signed {
            seq!['+'] + zeros
        } else {
            zeros
        };
        assert forall|i: int| 0 <= i < lead.len() implies #[trigger] lead[i] == '0' || (i == 0
            && lead[i] == '+') by {
            if signed && i > 0 {
                assert(lead[i] == zeros[i - 1]);
            }
        }
        if signed {
            assert(s =~= seq!['+'] + digits);
        }
        assert(s =~= lead + decimal(n));
    }
    if exists|lead: Seq<char>|
        {
            &&& s == #[trigger] (lead + decimal(n))
            &&& forall|i: int|
                0 <= i < lead.len() ==> #[trigger] lead[i] == '0' || (i == 0 && lead[i] == '+')
        } {
        let lead = choose|lead: Seq<char>|
            {
                &&& s == #[trigger] (lead + decimal(n))
                &&& forall|i: int|
                    0 <= i < lead.len() ==> #[trigger] lead[i] == '0' || (i == 0 && lead[i] == '+')
            };
        lemma_decimal_digits(n);
        if lead.len() > 0 && lead[0] == '+' {
            let zeros = lead.drop_first();
            assert forall|i: int| 0 <= i < zeros.len() implies #[trigger] zeros[i] == '0' by {
                assert(zeros[i] == lead[i + 1]);
            }
            assert(s.drop_first() =~= zeros + decimal(n));
            lemma_zeros_before_decimal(zeros, n);
        } else {
            lemma_zeros_before_decimal(lead, n);
            assert(s[0] != '+');
        }
    }
}

proof fn lemma_zeros(zeros: Seq<char>)
    requires
        forall|i: int| 0 <= i < zeros.len() ==> #[trigger] zeros[i] == '0',
    ensures
        digits_value(zeros) == Some(0nat),
    decreases zeros.len(),
{
    if zeros.len() > 0 {
        let front = zeros.drop_last();
        assert forall|i: int| 0 <= i < front.len() implies #[trigger] front[i] == '0' by {
            assert(front[i] == zeros[i]);
        }
        lemma_zeros(front);
        assert(zeros.last() == '0');
    }
}

proof fn lemma_zeros_before_decimal(zeros: Seq<char>, n: nat)
    requires
        forall|i: int| 0 <= i < zeros.len() ==> #[trigger] zeros[i] == '0',
    ensures
        digits_value(zeros + decimal(n)) == Some(n),
    decreases n,
{
    let s = zeros + decimal(n);
    if n < 10 {
        assert(s.drop_last() =~= zeros);
        lemma_zeros(zeros);
    } else {
        lemma_zeros_before_decimal(zeros, n / 10);
        assert(s.drop_last() =~= zeros + decimal(n / 10));
    }
}

proof fn lemma_digits_are_decimal(s: Seq<char>, n: nat) -> (zeros: Seq<char>)
    requires
        s.len() > 0,
        digits_value(s) == Some(n),
    ensures
        s == zeros + decimal(n),
        forall|i: int| 0 <= i < zeros.len() ==> #[trigger] zeros[i] == '0',
    decreases s.len(),
{
    let front = s.drop_last();
    let high = digits_value(front)->0;
    let low = digit_value(s.last())->0;
    assert(n == high * 10 + low);
    if front.len() == 0 {
        assert(s =~= Seq::<char>::empty() + decimal(n));
        Seq::<char>::empty()
    } else {
        let zeros = lemma_digits_are_decimal(front, high);
        if high == 0 {
            let more = zeros.push('0');
            assert(s == front.push(s.last()));
            assert(digit_char(low) == s.last());
            assert(decimal(high) =~= seq!['0']);
            assert(front =~= more);
            assert(s =~= more + decimal(n));
            more
        } else {
            assert(n / 10 == high && n % 10 == low);
            assert(s == front.push(s.last()));
            assert(digit_char(low) == s.last());
            assert(s =~= zeros + decimal(n));
            zeros
        }
    }
}

/// A text read within a bound gives its number exactly if that is at most the bound.
pub proof fn law_bounded_numbers(s: Seq<char>, max: nat, n: nat)
    ensures
        bounded_number(s, max) == Some(n) <==> n <= max && number_of(s) == Some(n),
{
}

/// The texts that write an amount above zero are its decimal form within the range of a `u128`,
/// with zeros and a `+` before it or none, and any white space around that. Every other text is
/// worth nothing.
pub proof fn law_amount_texts(s: Seq<char>, n: nat)
    requires
        n > 0,
    ensures
        base_units(s) == n <==> n <= u128::MAX && exists|before: Seq<char>, lead: Seq<char>, after:
            Seq<char>|
            {
                &&& s == #[trigger] (before + (lead + decimal(n)) + after)
                &&& forall|i: int| 0 <= i < before.len() ==> white_space(#[trigger] before[i])
                &&& forall|i: int| 0 <= i < after.len() ==> white_space(#[trigger] after[i])
                &&& forall|i: int|
                    0 <= i < lead.len() ==> #[trigger] lead[i] == '0' || (i == 0 && lead[i] == '+')
            },
{
    if base_units(s) == n {
        let t = trimmed(s);
        let cuts = law_trimming_drops_only_outer_space(s);
        law_number_texts(t, n);
        let lead = choose|lead: Seq<char>|
            {
                &&& t == #[trigger] (lead + decimal(n))
                &&& forall|i: int|
                    0 <= i < lead.len() ==> #[trigger] lead[i] == '0' || (i == 0 && lead[i] == '+')
            };
        let before = s.take(cuts.0);
        let after = s.skip(cuts.1);
        assert(s =~= before + (lead + decimal(n)) + after);
    }
    if n <= u128::MAX && exists|before: Seq<char>, lead: Seq<char>, after: Seq<char>|
        {
            &&& s == #[trigger] (before + (lead + decimal(n)) + after)
            &&& forall|i: int| 0 <= i < before.len() ==> white_space(#[trigger] before[i])
            &&& forall|i: int| 0 <= i < after.len() ==> white_space(#[trigger] after[i])
            &&& forall|i: int|
                0 <= i < lead.len() ==> #[trigger] lead[i] == '0' || (i == 0 && lead[i] == '+')
        } {
        let (before, lead, after) = choose|before: Seq<char>, lead: Seq<char>, after: Seq<char>|
            {
                &&& s == #[trigger] (before + (lead + decimal(n)) + after)
                &&& forall|i: int| 0 <= i < before.len() ==> white_space(#[trigger] before[i])
                &&& forall|i: int| 0 <= i < after.len() ==> white_space(#[trigger] after[i])
                &&& forall|i: int|
                    0 <= i < lead.len() ==> #[trigger] lead[i] == '0' || (i == 0 && lead[i] == '+')
            };
        let t = lead + decimal(n);
        lemma_decimal_has_no_space(n);
        assert(t.last() == decimal(n).last());
        if lead.len() > 0 {
            assert(t[0] == lead[0]);
        } else {
            assert(t[0] == decimal(n)[0]);
        }
        law_padding_is_trimmed(before, t, after);
        law_number_texts(t, n);
    }
}

} // verus!
