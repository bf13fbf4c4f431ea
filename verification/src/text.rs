//! Byte strings and character strings.
//!
//! A request head arrives as bytes and is cut up as bytes; what is kept of it is
//! kept as `String`s. This module holds the vocabulary for both: where a byte
//! first occurs, how a sequence splits on a separator, what trimming and
//! lower-casing mean, how a number is written in decimal, and the executable
//! functions that compute each of them.

use vstd::prelude::*;
use vstd::utf8::decode_utf8;
use vstd::utf8::encode_utf8;
use vstd::utf8::encode_utf8_decode_utf8;

verus! {

/// `String::push` appends one character.
pub assume_specification[ std::string::String::push ](s: &mut std::string::String, c: char)
    ensures
        final(s)@ == old(s)@.push(c),
;

/// The index of the first item of `s` that satisfies `p`, or the length of `s`
/// when none does.
pub open spec fn position<T>(s: Seq<T>, p: spec_fn(T) -> bool) -> int
    decreases s.len(),
{
    if s.len() == 0 || p(s[0]) {
        0
    } else {
        1 + position(s.drop_first(), p)
    }
}

/// `position` is the one index before which nothing satisfies `p` and at which
/// something does, unless it is the length.
pub proof fn lemma_position<T>(s: Seq<T>, p: spec_fn(T) -> bool)
    ensures
        0 <= position(s, p) <= s.len(),
        forall|i: int| 0 <= i < position(s, p) ==> !p(#[trigger] s[i]),
        position(s, p) < s.len() ==> p(s[position(s, p)]),
    decreases s.len(),
{
    if s.len() == 0 || p(s[0]) {
    } else {
        let t = s.drop_first();
        lemma_position(t, p);
        assert forall|i: int| 0 <= i < position(s, p) implies !p(#[trigger] s[i]) by {
            if i > 0 {
                assert(s[i] == t[i - 1]);
            }
        }
        if position(s, p) < s.len() {
            assert(s[position(s, p)] == t[position(t, p)]);
        }
    }
}

/// An index with the two defining properties is the `position`.
pub proof fn lemma_position_is<T>(s: Seq<T>, p: spec_fn(T) -> bool, r: int)
    requires
        0 <= r <= s.len(),
        forall|i: int| 0 <= i < r ==> !p(#[trigger] s[i]),
        r < s.len() ==> p(s[r]),
    ensures
        position(s, p) == r,
    decreases s.len(),
{
    if s.len() == 0 || p(s[0]) {
        if r > 0 {
            assert(!p(s[0]));
        }
    } else {
        let t = s.drop_first();
        assert forall|i: int| 0 <= i < r - 1 implies !p(#[trigger] t[i]) by {
            assert(t[i] == s[i + 1]);
        }
        lemma_position_is(t, p, r - 1);
    }
}

/// The predicate "is the item `b`".
pub open spec fn is_item<T>(b: T) -> spec_fn(T) -> bool {
    |x: T| x == b
}

/// The predicate "is outside ASCII".
pub open spec fn is_non_ascii() -> spec_fn(u8) -> bool {
    |x: u8| x >= 128
}

/// The predicate "is no whitespace".
pub open spec fn is_not_space() -> spec_fn(u8) -> bool {
    |x: u8| !is_space(x)
}

/// Whitespace: space, tab, line feed, vertical tab, form feed, carriage return.
pub open spec fn is_space(b: u8) -> bool {
    b == 32 || (9 <= b && b <= 13)
}

/// The index of the first `b` in `s`, or the length of `s`.
pub open spec fn index_of<T>(s: Seq<T>, b: T) -> int {
    position(s, is_item(b))
}

/// Whether every byte is below 128.
pub open spec fn is_ascii_bytes(s: Seq<u8>) -> bool {
    position(s, is_non_ascii()) == s.len()
}

/// The pieces of `s` between occurrences of `sep`. There is always at least
/// one piece; an empty sequence has one empty piece.
pub open spec fn split<T>(s: Seq<T>, sep: T) -> Seq<Seq<T>>
    decreases s.len(),
{
    let i = index_of(s, sep);
    if 0 <= i < s.len() {
        seq![s.take(i)] + split(s.skip(i + 1), sep)
    } else {
        seq![s]
    }
}

/// `s` without its leading whitespace.
pub open spec fn trim_start(s: Seq<u8>) -> Seq<u8> {
    s.skip(position(s, is_not_space()))
}

/// `s` without its trailing whitespace.
pub open spec fn trim_end(s: Seq<u8>) -> Seq<u8> {
    s.take(s.len() - position(s.reverse(), is_not_space()))
}

/// `s` without leading and trailing whitespace.
pub open spec fn trim(s: Seq<u8>) -> Seq<u8> {
    trim_end(trim_start(s))
}

/// An upper-case ASCII letter becomes its lower-case form; any other byte stays.
pub open spec fn lower_byte(b: u8) -> u8 {
    if 65 <= b && b <= 90 {
        (b + 32) as u8
    } else {
        b
    }
}

/// `s` with every byte lower-cased.
pub open spec fn lower(s: Seq<u8>) -> Seq<u8> {
    Seq::new(s.len(), |i: int| lower_byte(s[i]))
}

/// An upper-case ASCII letter becomes its lower-case form; any other
/// character stays.
pub open spec fn lower_char(c: char) -> char {
    if 'A' <= c && c <= 'Z' {
        ((c as u8) + 32) as char
    } else {
        c
    }
}

/// `s` with every character lower-cased.
pub open spec fn lower_chars(s: Seq<char>) -> Seq<char> {
    Seq::new(s.len(), |i: int| lower_char(s[i]))
}

/// The bytes with the code points of the characters of `s`, for characters
/// below 256.
pub open spec fn bytes_of(s: Seq<char>) -> Seq<u8> {
    Seq::new(s.len(), |i: int| s[i] as u8)
}

/// The characters with the code points of the bytes of `s`.
pub open spec fn chars_of(s: Seq<u8>) -> Seq<char> {
    Seq::new(s.len(), |i: int| s[i] as char)
}

/// The views of a sequence of vectors.
pub open spec fn views<T>(v: Seq<Vec<T>>) -> Seq<Seq<T>> {
    Seq::new(v.len(), |i: int| v[i]@)
}

/// The character for the digit `d`.
pub open spec fn digit_char(d: nat) -> char {
    ((48 + d) as u8) as char
}

/// `n` written in decimal, without sign or leading zeros.
pub open spec fn decimal(n: nat) -> Seq<char>
    decreases n,
{
    if n < 10 {
        seq![digit_char(n)]
    } else {
        decimal(n / 10).push(digit_char(n % 10))
    }
}

/// Whether every byte is a decimal digit.
pub open spec fn all_digits(s: Seq<u8>) -> bool {
    forall|i: int| 0 <= i < s.len() ==> 48 <= #[trigger] s[i] <= 57
}

/// The number that a run of decimal digits denotes.
pub open spec fn digits_value(s: Seq<u8>) -> nat
    decreases s.len(),
{
    if s.len() == 0 {
        0
    } else {
        digits_value(s.drop_last()) * 10 + (s.last() - 48) as nat
    }
}

/// An unsigned 64-bit number in decimal: an optional `+`, then one or more
/// digits whose value fits. Nothing else is a number.
pub open spec fn parse_number(s: Seq<u8>) -> Option<u64> {
    let d = if s.len() > 0 && s[0] == 43 {
        s.skip(1)
    } else {
        s
    };
    if d.len() > 0 && all_digits(d) && digits_value(d) <= u64::MAX {
        Some(digits_value(d) as u64)
    } else {
        None
    }
}

/// Whether `a` comes strictly before `b` in the order of dictionaries: at the
/// first index where they differ `a` has the smaller byte, or `a` is a proper
/// prefix of `b`.
pub open spec fn lex_lt(a: Seq<u8>, b: Seq<u8>) -> bool
    decreases a.len(),
{
    if b.len() == 0 {
        false
    } else if a.len() == 0 {
        true
    } else if a[0] != b[0] {
        a[0] < b[0]
    } else {
        lex_lt(a.drop_first(), b.drop_first())
    }
}

/// Nothing comes before itself.
pub proof fn lemma_lex_irreflexive(a: Seq<u8>)
    ensures
        !lex_lt(a, a),
    decreases a.len(),
{
    if a.len() > 0 {
        lemma_lex_irreflexive(a.drop_first());
    }
}

/// What comes before something that comes before a third comes before the
/// third.
pub proof fn lemma_lex_transitive(a: Seq<u8>, b: Seq<u8>, c: Seq<u8>)
    requires
        lex_lt(a, b),
        lex_lt(b, c),
    ensures
        lex_lt(a, c),
    decreases a.len(),
{
    if a.len() > 0 && a[0] == b[0] && b[0] == c[0] {
        lemma_lex_transitive(a.drop_first(), b.drop_first(), c.drop_first());
    }
}

/// Of two different byte strings one comes before the other.
pub proof fn lemma_lex_total(a: Seq<u8>, b: Seq<u8>)
    requires
        !lex_lt(a, b),
        !lex_lt(b, a),
    ensures
        a == b,
    decreases a.len(),
{
    if a.len() > 0 && b.len() > 0 {
        lemma_lex_total(a.drop_first(), b.drop_first());
        assert(a =~= seq![a[0]] + a.drop_first());
        assert(b =~= seq![b[0]] + b.drop_first());
    } else {
        assert(a =~= b);
    }
}

/// The first index at or after `start` that holds `b`, or the length.
pub fn find_byte(s: &[u8], start: usize, b: u8) -> (r: usize)
    requires
        start <= s@.len(),
    ensures
        r == start + index_of(s@.skip(start as int), b),
        start <= r <= s@.len(),
{
    let mut i: usize = start;
    while i < s.len() && s[i] != b
        invariant
            start <= i <= s@.len(),
            forall|k: int| start <= k < i ==> s@[k] != b,
        decreases s@.len() - i,
    {
        i += 1;
    }
    proof {
        let t = s@.skip(start as int);
        assert forall|k: int| 0 <= k < i - start implies !is_item(b)(#[trigger] t[k]) by {
            assert(t[k] == s@[start + k]);
        }
        lemma_position_is(t, is_item(b), i - start);
    }
    i
}

/// The index of the first byte outside ASCII, or the length.
pub fn ascii_prefix_len(s: &[u8]) -> (r: usize)
    ensures
        r == position(s@, is_non_ascii()),
        r <= s@.len(),
        (r == s@.len()) == is_ascii_bytes(s@),
{
    let mut i: usize = 0;
    while i < s.len() && s[i] < 128
        invariant
            i <= s@.len(),
            forall|k: int| 0 <= k < i ==> s@[k] < 128,
        decreases s@.len() - i,
    {
        i += 1;
    }
    proof {
        assert forall|k: int| 0 <= k < i implies !is_non_ascii()(#[trigger] s@[k]) by {}
        lemma_position_is(s@, is_non_ascii(), i as int);
    }
    i
}

/// A copy of the bytes from `from` up to `to`.
pub fn copy_range(s: &[u8], from: usize, to: usize) -> (r: Vec<u8>)
    requires
        from <= to <= s@.len(),
    ensures
        r@ == s@.subrange(from as int, to as int),
{
    let mut r: Vec<u8> = Vec::new();
    let mut i: usize = from;
    while i < to
        invariant
            from <= i <= to <= s@.len(),
            r@ == s@.subrange(from as int, i as int),
        decreases to - i,
    {
        r.push(s[i]);
        proof {
            assert(r@ =~= s@.subrange(from as int, i + 1));
        }
        i += 1;
    }
    r
}

/// Splits `s` on `sep`.
pub fn split_bytes(s: &[u8], sep: u8) -> (r: Vec<Vec<u8>>)
    ensures
        views(r@) == split(s@, sep),
        r@.len() >= 1,
{
    let mut pieces: Vec<Vec<u8>> = Vec::new();
    let mut start: usize = 0;
    proof {
        assert(s@.skip(0) == s@);
        assert(views(pieces@) + split(s@, sep) =~= split(s@, sep));
    }
    loop
        invariant_except_break
            start <= s@.len(),
            split(s@, sep) == views(pieces@) + split(s@.skip(start as int), sep),
        ensures
            views(pieces@) == split(s@, sep),
            pieces@.len() >= 1,
        decreases s@.len() - start,
    {
        let end = find_byte(s, start, sep);
        let piece = copy_range(s, start, end);
        let ghost rest = s@.skip(start as int);
        let ghost before = views(pieces@);
        pieces.push(piece);
        proof {
            assert(piece@ == rest.take(end - start));
            assert(views(pieces@) =~= before + seq![piece@]);
        }
        if end >= s.len() {
            proof {
                assert(rest.take(end - start) == rest);
                assert(split(rest, sep) == seq![rest]);
            }
            break ;
        }
        proof {
            assert(rest.skip(end - start + 1) == s@.skip(end + 1));
            assert(split(rest, sep) == seq![rest.take(end - start)] + split(
                s@.skip(end + 1),
                sep,
            ));
            assert(before + (seq![piece@] + split(s@.skip(end + 1), sep)) =~= (before + seq![
                piece@,
            ]) + split(s@.skip(end + 1), sep));
        }
        start = end + 1;
    }
    pieces
}

/// Tells whether `b` is whitespace.
pub fn is_space_byte(b: u8) -> (r: bool)
    ensures
        r == is_space(b),
{
    b == 32 || (9 <= b && b <= 13)
}

/// The number of leading whitespace bytes.
pub fn leading_space(s: &[u8]) -> (r: usize)
    ensures
        r == position(s@, is_not_space()),
        r <= s@.len(),
{
    let mut i: usize = 0;
    while i < s.len() && is_space_byte(s[i])
        invariant
            i <= s@.len(),
            forall|k: int| 0 <= k < i ==> is_space(s@[k]),
        decreases s@.len() - i,
    {
        i += 1;
    }
    proof {
        assert forall|k: int| 0 <= k < i implies !is_not_space()(#[trigger] s@[k]) by {}
        lemma_position_is(s@, is_not_space(), i as int);
    }
    i
}

/// The number of trailing whitespace bytes.
pub fn trailing_space(s: &[u8]) -> (r: usize)
    ensures
        r == position(s@.reverse(), is_not_space()),
        r <= s@.len(),
{
    let n = s.len();
    let mut i: usize = 0;
    while i < n && is_space_byte(s[n - 1 - i])
        invariant
            n == s@.len(),
            i <= n,
            forall|k: int| n - i <= k < n ==> is_space(s@[k]),
        decreases n - i,
    {
        i += 1;
    }
    proof {
        let t = s@.reverse();
        assert forall|k: int| 0 <= k < i implies !is_not_space()(#[trigger] t[k]) by {
            assert(t[k] == s@[n - 1 - k]);
        }
        if i < n {
            assert(t[i as int] == s@[n - 1 - i]);
        }
        lemma_position_is(t, is_not_space(), i as int);
    }
    i
}

/// A copy of `s` without its leading whitespace.
pub fn trim_start_bytes(s: &[u8]) -> (r: Vec<u8>)
    ensures
        r@ == trim_start(s@),
{
    let from = leading_space(s);
    let r = copy_range(s, from, s.len());
    proof {
        assert(s@.subrange(from as int, s@.len() as int) == s@.skip(from as int));
    }
    r
}

/// A copy of `s` without leading and trailing whitespace.
pub fn trim_bytes(s: &[u8]) -> (r: Vec<u8>)
    ensures
        r@ == trim(s@),
{
    let front = trim_start_bytes(s);
    let back = trailing_space(front.as_slice());
    let r = copy_range(front.as_slice(), 0, front.len() - back);
    proof {
        assert(front@.subrange(0, front@.len() - back) == front@.take(front@.len() - back));
    }
    r
}

/// A lower-cased copy of `s`.
pub fn lower_bytes(s: &[u8]) -> (r: Vec<u8>)
    ensures
        r@ == lower(s@),
{
    let mut r: Vec<u8> = Vec::new();
    let mut i: usize = 0;
    while i < s.len()
        invariant
            i <= s@.len(),
            r@.len() == i,
            forall|k: int| 0 <= k < i ==> r@[k] == lower_byte(s@[k]),
        decreases s@.len() - i,
    {
        let b = s[i];
        if 65 <= b && b <= 90 {
            r.push(b + 32);
        } else {
            r.push(b);
        }
        i += 1;
    }
    proof {
        assert(r@ =~= lower(s@));
    }
    r
}

/// Whether two byte strings hold the same bytes.
pub fn bytes_eq(a: &[u8], b: &[u8]) -> (r: bool)
    ensures
        r == (a@ == b@),
{
    if a.len() != b.len() {
        return false;
    }
    let mut i: usize = 0;
    while i < a.len()
        invariant
            a@.len() == b@.len(),
            i <= a@.len(),
            forall|k: int| 0 <= k < i ==> a@[k] == b@[k],
        decreases a@.len() - i,
    {
        if a[i] != b[i] {
            return false;
        }
        i += 1;
    }
    proof {
        assert(a@ =~= b@);
    }
    true
}

/// Whether two strings hold the same characters.
pub fn str_eq(a: &str, b: &str) -> (r: bool)
    ensures
        r == (a@ == b@),
{
    let r = bytes_eq(a.as_bytes(), b.as_bytes());
    proof {
        if r {
            encode_utf8_decode_utf8(a@);
            encode_utf8_decode_utf8(b@);
            assert(decode_utf8(encode_utf8(a@)) == decode_utf8(encode_utf8(b@)));
        }
    }
    r
}

/// Whether `a` comes strictly before `b` in the order of dictionaries.
pub fn bytes_lt(a: &[u8], b: &[u8]) -> (r: bool)
    ensures
        r == lex_lt(a@, b@),
{
    let mut i: usize = 0;
    proof {
        assert(a@.skip(0) == a@);
        assert(b@.skip(0) == b@);
    }
    loop
        invariant
            i <= a@.len(),
            i <= b@.len(),
            lex_lt(a@, b@) == lex_lt(a@.skip(i as int), b@.skip(i as int)),
        decreases a@.len() - i,
    {
        if i >= b.len() {
            return false;
        }
        if i >= a.len() {
            return true;
        }
        proof {
            assert(a@.skip(i as int)[0] == a@[i as int]);
            assert(b@.skip(i as int)[0] == b@[i as int]);
        }
        if a[i] != b[i] {
            return a[i] < b[i];
        }
        proof {
            assert(a@.skip(i as int).drop_first() == a@.skip(i + 1));
            assert(b@.skip(i as int).drop_first() == b@.skip(i + 1));
        }
        i += 1;
    }
}

/// The string whose characters have the code points of `bytes`.
pub fn string_of(bytes: &[u8]) -> (s: String)
    ensures
        s@ == chars_of(bytes@),
{
    let mut s = String::new();
    let mut i: usize = 0;
    while i < bytes.len()
        invariant
            i <= bytes@.len(),
            s@ == chars_of(bytes@.take(i as int)),
        decreases bytes@.len() - i,
    {
        s.push(bytes[i] as char);
        proof {
            assert(s@ =~= chars_of(bytes@.take(i + 1)));
        }
        i += 1;
    }
    proof {
        assert(bytes@.take(i as int) == bytes@);
    }
    s
}

/// Appends `n` in decimal to `s`.
pub fn push_decimal(s: &mut String, n: u64)
    ensures
        final(s)@ == old(s)@ + decimal(n as nat),
    decreases n,
{
    if n >= 10 {
        push_decimal(s, n / 10);
    }
    let d: u8 = (n % 10) as u8;
    let ghost before = s@;
    s.push((48 + d) as char);
    proof {
        if n >= 10 {
            assert(s@ =~= old(s)@ + decimal(n as nat));
        } else {
            assert(before == old(s)@);
            assert(s@ =~= old(s)@ + decimal(n as nat));
        }
    }
}

/// `n` in decimal.
pub fn decimal_string(n: u64) -> (s: String)
    ensures
        s@ == decimal(n as nat),
{
    let mut s = String::new();
    push_decimal(&mut s, n);
    proof {
        assert(Seq::<char>::empty() + decimal(n as nat) =~= decimal(n as nat));
    }
    s
}

/// The value of a prefix of a run of digits is at most a tenth of the value of
/// a longer prefix.
proof fn lemma_digits_prefix(s: Seq<u8>, i: int)
    requires
        0 <= i <= s.len(),
        all_digits(s),
    ensures
        digits_value(s.take(i)) <= digits_value(s),
    decreases s.len() - i,
{
    if i < s.len() {
        let t = s.take(i + 1);
        assert(t.drop_last() == s.take(i));
        assert(t.last() == s[i]);
        lemma_digits_prefix(s, i + 1);
    } else {
        assert(s.take(i) == s);
    }
}

/// Reads an unsigned 64-bit number in decimal.
pub fn parse_number_bytes(s: &[u8]) -> (r: Option<u64>)
    ensures
        r == parse_number(s@),
{
    let start: usize = if s.len() > 0 && s[0] == 43 {
        1
    } else {
        0
    };
    if start >= s.len() {
        return None;
    }
    let ghost d = s@.skip(start as int);
    proof {
        assert(s@.skip(0) == s@);
        assert(d.take(0) =~= Seq::<u8>::empty());
    }
    let mut acc: u64 = 0;
    let mut i: usize = start;
    while i < s.len()
        invariant
            start <= i <= s@.len(),
            d == s@.skip(start as int),
            parse_number(s@) == (if d.len() > 0 && all_digits(d) && digits_value(d) <= u64::MAX {
                Some(digits_value(d) as u64)
            } else {
                None::<u64>
            }),
            all_digits(d.take(i - start)),
            acc == digits_value(d.take(i - start)),
        decreases s@.len() - i,
    {
        let b = s[i];
        proof {
            assert(d[i - start] == b);
            assert(d.take(i - start + 1).drop_last() == d.take(i - start));
            assert(d.take(i - start + 1).last() == b);
        }
        if b < 48 || b > 57 {
            return None;
        }
        proof {
            assert forall|k: int| 0 <= k < i - start + 1 implies 48 <= #[trigger] d.take(
                i - start + 1,
            )[k] <= 57 by {
                if k < i - start {
                    assert(d.take(i - start + 1)[k] == d.take(i - start)[k]);
                }
            }
        }
        let next = match acc.checked_mul(10) {
            Some(m) => m.checked_add((b - 48) as u64),
            None => None,
        };
        match next {
            Some(v) => {
                acc = v;
            },
            None => {
                proof {
                    if all_digits(d) {
                        lemma_digits_prefix(d, i - start + 1);
                    }
                }
                return None;
            },
        }
        i += 1;
    }
    proof {
        assert(d.take(i - start) == d);
    }
    Some(acc)
}


/// The characters of a string.
pub fn chars_vec(s: &str) -> (r: Vec<char>)
    ensures
        r@ == s@,
{
    let mut v: Vec<char> = Vec::new();
    for c in it: s.chars()
        invariant
            it.seq() == s@,
            v@ == it.seq().take(it.index() as int),
    {
        v.push(c);
        proof {
            assert(v@ =~= it.seq().take(it.index() + 1));
        }
    }
    proof {
        assert(s@.take(s@.len() as int) == s@);
    }
    v
}

/// The string of some characters.
pub fn string_from_chars(chars: &[char]) -> (s: String)
    ensures
        s@ == chars@,
{
    let mut s = String::new();
    let mut i: usize = 0;
    while i < chars.len()
        invariant
            i <= chars@.len(),
            s@ == chars@.take(i as int),
        decreases chars@.len() - i,
    {
        s.push(chars[i]);
        proof {
            assert(s@ =~= chars@.take(i + 1));
        }
        i += 1;
    }
    proof {
        assert(chars@.take(i as int) == chars@);
    }
    s
}


/// The first index at or after `start` that holds `c`, or the length.
pub fn find_char(s: &[char], start: usize, c: char) -> (r: usize)
    requires
        start <= s@.len(),
    ensures
        r == start + index_of(s@.skip(start as int), c),
        start <= r <= s@.len(),
{
    let mut i: usize = start;
    while i < s.len() && s[i] != c
        invariant
            start <= i <= s@.len(),
            forall|k: int| start <= k < i ==> s@[k] != c,
        decreases s@.len() - i,
    {
        i += 1;
    }
    proof {
        let t = s@.skip(start as int);
        assert forall|k: int| 0 <= k < i - start implies !is_item(c)(#[trigger] t[k]) by {
            assert(t[k] == s@[start + k]);
        }
        lemma_position_is(t, is_item(c), i - start);
    }
    i
}

/// A copy of the characters from `from` up to `to`.
pub fn copy_chars(s: &[char], from: usize, to: usize) -> (r: Vec<char>)
    requires
        from <= to <= s@.len(),
    ensures
        r@ == s@.subrange(from as int, to as int),
{
    let mut r: Vec<char> = Vec::new();
    let mut i: usize = from;
    while i < to
        invariant
            from <= i <= to <= s@.len(),
            r@ == s@.subrange(from as int, i as int),
        decreases to - i,
    {
        r.push(s[i]);
        proof {
            assert(r@ =~= s@.subrange(from as int, i + 1));
        }
        i += 1;
    }
    r
}

/// Splits `s` on `sep`.
pub fn split_chars(s: &[char], sep: char) -> (r: Vec<Vec<char>>)
    ensures
        views(r@) == split(s@, sep),
        r@.len() >= 1,
{
    let mut pieces: Vec<Vec<char>> = Vec::new();
    let mut start: usize = 0;
    proof {
        assert(s@.skip(0) == s@);
        assert(views(pieces@) + split(s@, sep) =~= split(s@, sep));
    }
    loop
        invariant_except_break
            start <= s@.len(),
            split(s@, sep) == views(pieces@) + split(s@.skip(start as int), sep),
        ensures
            views(pieces@) == split(s@, sep),
            pieces@.len() >= 1,
        decreases s@.len() - start,
    {
        let end = find_char(s, start, sep);
        let piece = copy_chars(s, start, end);
        let ghost rest = s@.skip(start as int);
        let ghost before = views(pieces@);
        pieces.push(piece);
        proof {
            assert(piece@ == rest.take(end - start));
            assert(views(pieces@) =~= before + seq![piece@]);
        }
        if end >= s.len() {
            proof {
                assert(rest.take(end - start) == rest);
                assert(split(rest, sep) == seq![rest]);
            }
            break ;
        }
        proof {
            assert(rest.skip(end - start + 1) == s@.skip(end + 1));
            assert(split(rest, sep) == seq![rest.take(end - start)] + split(
                s@.skip(end + 1),
                sep,
            ));
            assert(before + (seq![piece@] + split(s@.skip(end + 1), sep)) =~= (before + seq![
                piece@,
            ]) + split(s@.skip(end + 1), sep));
        }
        start = end + 1;
    }
    pieces
}


/// A sequence that splits into three pieces is the three pieces with the
/// separator between them.
pub proof fn lemma_split_three<T>(s: Seq<T>, sep: T)
    requires
        split(s, sep).len() == 3,
    ensures
        s == split(s, sep)[0] + seq![sep] + split(s, sep)[1] + seq![sep] + split(s, sep)[2],
{
    let i = index_of(s, sep);
    lemma_position(s, is_item(sep));
    assert(0 <= i < s.len());
    let rest = s.skip(i + 1);
    assert(split(s, sep) == seq![s.take(i)] + split(rest, sep));
    assert(split(rest, sep).len() == 2);
    let j = index_of(rest, sep);
    lemma_position(rest, is_item(sep));
    assert(0 <= j < rest.len());
    let last = rest.skip(j + 1);
    assert(split(rest, sep) == seq![rest.take(j)] + split(last, sep));
    assert(split(last, sep).len() == 1);
    let k = index_of(last, sep);
    lemma_position(last, is_item(sep));
    if 0 <= k < last.len() {
        assert(split(last, sep) == seq![last.take(k)] + split(last.skip(k + 1), sep));
        lemma_split_some(last.skip(k + 1), sep);
    }
    assert(split(last, sep) == seq![last]);
    assert(split(s, sep)[0] == s.take(i));
    assert(split(s, sep)[1] == rest.take(j));
    assert(split(s, sep)[2] == last);
    assert(rest =~= rest.take(j) + seq![sep] + last);
    assert(s =~= s.take(i) + seq![sep] + rest.take(j) + seq![sep] + last);
}

/// A sequence splits into at least one piece.
pub proof fn lemma_split_some<T>(s: Seq<T>, sep: T)
    ensures
        split(s, sep).len() >= 1,
{
}

/// The characters of two byte strings put together are the characters of the
/// one put behind those of the other.
pub proof fn lemma_chars_of_add(a: Seq<u8>, b: Seq<u8>)
    ensures
        chars_of(a + b) == chars_of(a) + chars_of(b),
{
    assert(chars_of(a + b) =~= chars_of(a) + chars_of(b));
}


/// The bytes of a number in decimal are digits, at least one, and denote the
/// number.
pub proof fn lemma_decimal_digits(n: nat)
    ensures
        bytes_of(decimal(n)).len() > 0,
        all_digits(bytes_of(decimal(n))),
        digits_value(bytes_of(decimal(n))) == n,
    decreases n,
{
    let d = bytes_of(decimal(n));
    if n < 10 {
        assert(d =~= seq![(48 + n) as u8]);
        assert(d.drop_last() =~= Seq::<u8>::empty());
        assert(digits_value(d.drop_last()) == 0);
    } else {
        lemma_decimal_digits(n / 10);
        let front = bytes_of(decimal(n / 10));
        assert(d =~= front.push((48 + n % 10) as u8));
        assert(d.drop_last() =~= front);
        assert forall|i: int| 0 <= i < d.len() implies 48 <= #[trigger] d[i] <= 57 by {
            if i < front.len() {
                assert(d[i] == front[i]);
            }
        }
    }
}

/// A number that is written in decimal and read again is the number.
pub proof fn lemma_number_round_trip(n: u64)
    ensures
        parse_number(bytes_of(decimal(n as nat))) == Some(n),
{
    lemma_decimal_digits(n as nat);
}

/// Bytes that neither begin nor end with whitespace are their own trimming.
pub proof fn lemma_trim_identity(s: Seq<u8>)
    requires
        s.len() == 0 || (!is_space(s[0]) && !is_space(s.last())),
    ensures
        trim(s) == s,
        trim_start(s) == s,
{
    lemma_position_is(s, is_not_space(), 0);
    assert(s.skip(0) =~= s);
    lemma_position_is(s.reverse(), is_not_space(), 0);
    assert(s.take(s.len() as int) =~= s);
}

/// Bytes that do not begin with whitespace are their own trimming at the
/// start, also behind one space.
pub proof fn lemma_trim_start_identity(s: Seq<u8>)
    requires
        s.len() == 0 || !is_space(s[0]),
    ensures
        trim_start(s) == s,
        trim_start(seq![32u8] + s) == s,
{
    lemma_position_is(s, is_not_space(), 0);
    assert(s.skip(0) =~= s);
    let t = seq![32u8] + s;
    lemma_position_is(t, is_not_space(), 1);
    assert(t.skip(1) =~= s);
}

/// The bytes of the characters of bytes are the bytes.
pub proof fn lemma_bytes_of_chars(s: Seq<u8>)
    ensures
        bytes_of(chars_of(s)) == s,
{
    assert(bytes_of(chars_of(s)) =~= s);
}


/// Bytes are ASCII exactly where each of them is below 128.
pub proof fn lemma_ascii_each(s: Seq<u8>)
    ensures
        is_ascii_bytes(s) <==> forall|i: int| 0 <= i < s.len() ==> #[trigger] s[i] < 128,
{
    lemma_position(s, is_non_ascii());
    if forall|i: int| 0 <= i < s.len() ==> #[trigger] s[i] < 128 {
        assert forall|i: int| 0 <= i < s.len() implies !is_non_ascii()(#[trigger] s[i]) by {}
        lemma_position_is(s, is_non_ascii(), s.len() as int);
    }
    if is_ascii_bytes(s) {
        assert forall|i: int| 0 <= i < s.len() implies #[trigger] s[i] < 128 by {
            assert(!is_non_ascii()(s[i]));
        }
    }
}

/// `b` does not occur in `s` exactly where the index of `b` is the length.
pub proof fn lemma_absent_each(s: Seq<u8>, b: u8)
    ensures
        index_of(s, b) == s.len() <==> forall|i: int| 0 <= i < s.len() ==> #[trigger] s[i] != b,
{
    lemma_position(s, is_item(b));
    if forall|i: int| 0 <= i < s.len() ==> #[trigger] s[i] != b {
        assert forall|i: int| 0 <= i < s.len() implies !is_item(b)(#[trigger] s[i]) by {}
        lemma_position_is(s, is_item(b), s.len() as int);
    }
    if index_of(s, b) == s.len() {
        assert forall|i: int| 0 <= i < s.len() implies #[trigger] s[i] != b by {
            assert(!is_item(b)(s[i]));
        }
    }
}

/// What trimming leaves is a part of the bytes, and it neither begins nor
/// ends with whitespace.
pub proof fn lemma_trim(s: Seq<u8>)
    ensures
        exists|from: int, to: int| 0 <= from <= to <= s.len() && trim(s) == s.subrange(from, to),
        trim(s).len() > 0 ==> !is_space(trim(s)[0]) && !is_space(trim(s).last()),
{
    let a = position(s, is_not_space());
    lemma_position(s, is_not_space());
    let front = s.skip(a);
    let b = position(front.reverse(), is_not_space());
    lemma_position(front.reverse(), is_not_space());
    let t = trim(s);
    assert(t =~= s.subrange(a, s.len() - b));
    if t.len() > 0 {
        assert(t[0] == s[a]);
        assert(t.last() == front[front.len() - b - 1]);
        assert(front.reverse()[b] == front[front.len() - 1 - b]);
    }
}

/// What trimming at the start leaves is the end of the bytes.
pub proof fn lemma_trim_start(s: Seq<u8>)
    ensures
        exists|from: int| 0 <= from <= s.len() && trim_start(s) == s.subrange(from, s.len() as int),
{
    let a = position(s, is_not_space());
    lemma_position(s, is_not_space());
    assert(trim_start(s) =~= s.subrange(a, s.len() as int));
}


/// A sequence in which the separator does not occur is its own single piece.
pub proof fn lemma_split_single<T>(s: Seq<T>, sep: T)
    requires
        !s.contains(sep),
    ensures
        split(s, sep) == seq![s],
{
    lemma_position(s, is_item(sep));
    if index_of(s, sep) < s.len() {
        assert(s.contains(s[index_of(s, sep)]));
    }
}

/// What stands between two separators does not hold the separator, and every
/// item of a piece is an item of the sequence.
pub proof fn lemma_split_piece<T>(s: Seq<T>, sep: T, i: int)
    requires
        0 <= i < split(s, sep).len(),
    ensures
        !split(s, sep)[i].contains(sep),
        forall|k: int|
            0 <= k < split(s, sep)[i].len() ==> s.contains(#[trigger] split(s, sep)[i][k]),
    decreases s.len(),
{
    let at = index_of(s, sep);
    lemma_position(s, is_item(sep));
    let piece = split(s, sep)[i];
    if 0 <= at < s.len() {
        let rest = s.skip(at + 1);
        assert(split(s, sep) == seq![s.take(at)] + split(rest, sep));
        if i == 0 {
            assert(piece == s.take(at));
            if piece.contains(sep) {
                let k = choose|k: int| 0 <= k < piece.len() && piece[k] == sep;
                assert(is_item(sep)(s[k]));
            }
            assert forall|k: int| 0 <= k < piece.len() implies s.contains(#[trigger] piece[k]) by {
                assert(piece[k] == s[k]);
            }
        } else {
            assert(piece == split(rest, sep)[i - 1]);
            lemma_split_piece(rest, sep, i - 1);
            assert forall|k: int| 0 <= k < piece.len() implies s.contains(#[trigger] piece[k]) by {
                assert(rest.contains(piece[k]));
                let j = choose|j: int| 0 <= j < rest.len() && rest[j] == piece[k];
                assert(s[at + 1 + j] == piece[k]);
            }
        }
    } else {
        assert(piece == s);
        if s.contains(sep) {
            let k = choose|k: int| 0 <= k < s.len() && s[k] == sep;
            assert(is_item(sep)(s[k]));
        }
        assert forall|k: int| 0 <= k < piece.len() implies s.contains(#[trigger] piece[k]) by {}
    }
}

/// The first piece begins as the sequence begins, and the last piece ends as
/// the sequence ends.
pub proof fn lemma_split_ends<T>(s: Seq<T>, sep: T)
    ensures
        split(s, sep).len() >= 1,
        split(s, sep)[0].len() > 0 ==> s.len() > 0 && split(s, sep)[0][0] == s[0],
        split(s, sep).last().len() > 0 ==> s.len() > 0 && split(s, sep).last().last() == s.last(),
        split(s, sep).len() == 1 ==> split(s, sep)[0] == s,
    decreases s.len(),
{
    let at = index_of(s, sep);
    lemma_position(s, is_item(sep));
    if 0 <= at < s.len() {
        let rest = s.skip(at + 1);
        lemma_split_ends(rest, sep);
        assert(split(s, sep) == seq![s.take(at)] + split(rest, sep));
        assert(split(s, sep).last() == split(rest, sep).last());
        if split(rest, sep).last().len() > 0 {
            assert(rest.last() == s.last());
        }
    }
}

/// Behind a sequence, a separator and a piece that does not hold the
/// separator make one more piece.
pub proof fn lemma_split_push<T>(s: Seq<T>, sep: T, piece: Seq<T>)
    requires
        !piece.contains(sep),
    ensures
        split(s + seq![sep] + piece, sep) == split(s, sep).push(piece),
    decreases s.len(),
{
    let all = s + seq![sep] + piece;
    let at = index_of(s, sep);
    lemma_position(s, is_item(sep));
    lemma_split_single(piece, sep);
    if 0 <= at < s.len() {
        assert forall|k: int| 0 <= k < at implies !is_item(sep)(#[trigger] all[k]) by {
            assert(all[k] == s[k]);
        }
        assert(all[at] == s[at]);
        lemma_position_is(all, is_item(sep), at);
        let rest = s.skip(at + 1);
        assert(all.skip(at + 1) =~= rest + seq![sep] + piece);
        assert(all.take(at) =~= s.take(at));
        lemma_split_push(rest, sep, piece);
        assert(split(all, sep) == seq![s.take(at)] + split(rest, sep).push(piece));
        assert(split(s, sep) == seq![s.take(at)] + split(rest, sep));
        assert(seq![s.take(at)] + split(rest, sep).push(piece) =~= (seq![s.take(at)] + split(
            rest,
            sep,
        )).push(piece));
    } else {
        assert forall|k: int| 0 <= k < s.len() implies !is_item(sep)(#[trigger] all[k]) by {
            assert(all[k] == s[k]);
        }
        assert(all[s.len() as int] == sep);
        lemma_position_is(all, is_item(sep), s.len() as int);
        assert(all.skip(s.len() as int + 1) =~= piece);
        assert(all.take(s.len() as int) =~= s);
        assert(split(all, sep) == seq![s] + split(piece, sep));
        assert(seq![s] + seq![piece] =~= seq![s].push(piece));
    }
}

/// The bytes of characters put together are the bytes of the one put behind
/// those of the other.
pub proof fn lemma_bytes_of_add(a: Seq<char>, b: Seq<char>)
    ensures
        bytes_of(a + b) == bytes_of(a) + bytes_of(b),
{
    assert(bytes_of(a + b) =~= bytes_of(a) + bytes_of(b));
}

} // verus!
