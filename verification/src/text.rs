//! Character-level helpers shared by the registry, the parsers, the scanner
//! and the verse locator: classifying characters, lower-casing, sanitizing
//! abbreviation text, and converting small numbers to and from decimal digits.

use vstd::prelude::*;

verus! {

/// True of characters the reference grammar treats as decimal digits.
pub open spec fn is_digit_char(c: char) -> bool {
    '0' <= c && c <= '9'
}

/// True of characters the reference grammar treats as letters: the book-name
/// scan starts on one of these.
pub open spec fn is_alpha_char(c: char) -> bool {
    ('a' <= c && c <= 'z') || ('A' <= c && c <= 'Z')
}

/// True of the whitespace characters that trimming removes.
pub open spec fn is_ws_char(c: char) -> bool {
    c == ' ' || c == '\t' || c == '\n' || c == '\r'
}

/// Maps an upper-case ASCII letter to its lower-case form and leaves every
/// other character unchanged.
pub open spec fn lower_char(c: char) -> char {
    if 'A' <= c && c <= 'Z' {
        ((c as u8) + 32) as char
    } else {
        c
    }
}

/// The sanitize rule applied to abbreviation text before a registry lookup:
/// lower-case every letter and strip every `.` character.
pub open spec fn sanitize_chars(s: Seq<char>) -> Seq<char>
    decreases s.len(),
{
    if s.len() == 0 {
        Seq::<char>::empty()
    } else {
        let rest = sanitize_chars(s.drop_last());
        if s.last() == '.' {
            rest
        } else {
            rest.push(lower_char(s.last()))
        }
    }
}

/// Checks whether a character is a decimal digit.
pub(crate) fn digit_char(c: char) -> (r: bool)
    ensures
        r == is_digit_char(c),
{
    let u = c as u32;
    48 <= u && u <= 57
}

/// Checks whether a character is an ASCII letter.
pub(crate) fn alpha_char(c: char) -> (r: bool)
    ensures
        r == is_alpha_char(c),
{
    let u = c as u32;
    (97 <= u && u <= 122) || (65 <= u && u <= 90)
}

/// Checks whether a character is trimmable whitespace.
pub(crate) fn ws_char(c: char) -> (r: bool)
    ensures
        r == is_ws_char(c),
{
    c == ' ' || c == '\t' || c == '\n' || c == '\r'
}

/// Lower-cases one character.
pub(crate) fn lower_char_exec(c: char) -> (r: char)
    ensures
        r == lower_char(c),
{
    let u = c as u32;
    if 65 <= u && u <= 90 {
        ((u + 32) as u8) as char
    } else {
        c
    }
}

/// Collects the characters of a string slice into a vector.
pub(crate) fn str_chars(s: &str) -> (r: Vec<char>)
    ensures
        r@ == s@,
{
    let n = s.unicode_len();
    let mut r: Vec<char> = Vec::new();
    let mut i: usize = 0;
    while i < n
        invariant
            n == s@.len(),
            i <= n,
            r@ == s@.take(i as int),
        decreases n - i,
    {
        r.push(s.get_char(i));
        proof {
            assert(r@ =~= s@.take(i + 1));
        }
        i += 1;
    }
    proof {
        assert(r@ =~= s@);
    }
    r
}

/// Relies on `String::push`: appends the given character to the end of the
/// string.
pub assume_specification[ String::push ](s: &mut String, ch: char)
    ensures
        final(s)@ == old(s)@.push(ch),
;

/// Builds an owned string from a vector of characters.
pub(crate) fn chars_to_string(v: &Vec<char>) -> (r: String)
    ensures
        r@ == v@,
{
    let mut r = String::new();
    let mut i: usize = 0;
    while i < v.len()
        invariant
            i <= v@.len(),
            r@ == v@.take(i as int),
        decreases v@.len() - i,
    {
        r.push(v[i]);
        proof {
            assert(r@ =~= v@.take(i + 1));
        }
        i += 1;
    }
    proof {
        assert(r@ =~= v@);
    }
    r
}

/// Appends all characters of `src` to `dst`.
pub(crate) fn push_all(dst: &mut Vec<char>, src: &Vec<char>)
    ensures
        final(dst)@ == old(dst)@ + src@,
{
    let ghost base = dst@;
    let mut i: usize = 0;
    while i < src.len()
        invariant
            i <= src@.len(),
            dst@ == base + src@.take(i as int),
        decreases src@.len() - i,
    {
        dst.push(src[i]);
        proof {
            assert(dst@ =~= base + src@.take(i + 1));
        }
        i += 1;
    }
    proof {
        assert(base + src@.take(src@.len() as int) =~= base + src@);
    }
}

/// Compares two string slices character by character.
pub(crate) fn str_eq(a: &str, b: &str) -> (r: bool)
    ensures
        r == (a@ == b@),
{
    let alen = a.unicode_len();
    let blen = b.unicode_len();
    if alen != blen {
        assert(a@ != b@);
        return false;
    }
    let mut i: usize = 0;
    while i < alen
        invariant
            alen == a@.len(),
            blen == b@.len(),
            alen == blen,
            i <= alen,
            forall|j: int| 0 <= j < i ==> a@[j] == b@[j],
        decreases alen - i,
    {
        if a.get_char(i) != b.get_char(i) {
            return false;
        }
        i += 1;
    }
    proof {
        assert(a@ =~= b@);
    }
    true
}

/// Compares a vector of characters against a string slice.
pub(crate) fn chars_eq_str(v: &Vec<char>, s: &str) -> (r: bool)
    ensures
        r == (v@ == s@),
{
    let n = s.unicode_len();
    if v.len() != n {
        assert(v@ != s@);
        return false;
    }
    let mut i: usize = 0;
    while i < n
        invariant
            n == s@.len(),
            n == v@.len(),
            i <= n,
            forall|j: int| 0 <= j < i ==> v@[j] == s@[j],
        decreases n - i,
    {
        if v[i] != s.get_char(i) {
            return false;
        }
        i += 1;
    }
    proof {
        assert(v@ =~= s@);
    }
    true
}

/// Sanitizes a vector of characters: lower-case letters, `.` stripped.
pub(crate) fn sanitize_vec(v: &Vec<char>) -> (r: Vec<char>)
    ensures
        r@ == sanitize_chars(v@),
{
    let mut r: Vec<char> = Vec::new();
    let mut i: usize = 0;
    while i < v.len()
        invariant
            i <= v@.len(),
            r@ == sanitize_chars(v@.take(i as int)),
        decreases v@.len() - i,
    {
        let c = v[i];
        if c != '.' {
            r.push(lower_char_exec(c));
        }
        proof {
            assert(v@.take(i + 1).drop_last() =~= v@.take(i as int));
            assert(v@.take(i + 1).last() == v@[i as int]);
        }
        i += 1;
    }
    proof {
        assert(v@.take(v@.len() as int) =~= v@);
    }
    r
}

/// The index of the first occurrence of `c` in `s`, or `-1` when `s` does
/// not contain `c`.
pub open spec fn find_char(s: Seq<char>, c: char) -> int
    decreases s.len(),
{
    if s.len() == 0 {
        -1
    } else if s[0] == c {
        0
    } else {
        let r = find_char(s.drop_first(), c);
        if r < 0 {
            -1
        } else {
            r + 1
        }
    }
}

/// What `find_char` returns: either `-1` and the character is absent, or the
/// index of its first occurrence.
pub proof fn lemma_find_char_props(s: Seq<char>, c: char)
    ensures
        find_char(s, c) == -1 ==> forall|i: int| 0 <= i < s.len() ==> s[i] != c,
        find_char(s, c) != -1 ==> {
            &&& 0 <= find_char(s, c) < s.len()
            &&& s[find_char(s, c)] == c
            &&& forall|i: int| 0 <= i < find_char(s, c) ==> s[i] != c
        },
    decreases s.len(),
{
    if s.len() == 0 {
    } else if s[0] == c {
    } else {
        lemma_find_char_props(s.drop_first(), c);
        assert(forall|i: int|
            1 <= i < s.len() ==> #[trigger] s[i] == s.drop_first()[i - 1]);
    }
}

/// When `i` is the first occurrence of `c` in `s`, `find_char` returns `i`.
pub proof fn lemma_find_char_at(s: Seq<char>, c: char, i: int)
    requires
        0 <= i < s.len(),
        s[i] == c,
        forall|j: int| 0 <= j < i ==> s[j] != c,
    ensures
        find_char(s, c) == i,
{
    lemma_find_char_props(s, c);
    let r = find_char(s, c);
    if r == -1 {
        assert(s[i] != c);
    } else if r < i {
        assert(s[r] != c);
    } else if r > i {
        assert(s[i] != c);
    }
}

/// When `c` does not occur in `s`, `find_char` returns `-1`.
pub proof fn lemma_find_char_absent(s: Seq<char>, c: char)
    requires
        forall|j: int| 0 <= j < s.len() ==> s[j] != c,
    ensures
        find_char(s, c) == -1,
{
    lemma_find_char_props(s, c);
    let r = find_char(s, c);
    if r != -1 {
        assert(s[r] != c);
    }
}

/// The sequence with leading trimmable whitespace removed.
pub open spec fn trim_front(s: Seq<char>) -> Seq<char>
    decreases s.len(),
{
    if s.len() > 0 && is_ws_char(s[0]) {
        trim_front(s.drop_first())
    } else {
        s
    }
}

/// The sequence with trailing trimmable whitespace removed.
pub open spec fn trim_back(s: Seq<char>) -> Seq<char>
    decreases s.len(),
{
    if s.len() > 0 && is_ws_char(s.last()) {
        trim_back(s.drop_last())
    } else {
        s
    }
}

/// The sequence with leading and trailing trimmable whitespace removed.
pub open spec fn trim_chars(s: Seq<char>) -> Seq<char> {
    trim_back(trim_front(s))
}

/// Copies the characters of `v` between `from` (inclusive) and `to`
/// (exclusive).
pub(crate) fn subvec(v: &Vec<char>, from: usize, to: usize) -> (r: Vec<char>)
    requires
        from <= to <= v@.len(),
    ensures
        r@ == v@.subrange(from as int, to as int),
{
    let mut r: Vec<char> = Vec::new();
    let mut i: usize = from;
    while i < to
        invariant
            from <= i <= to <= v@.len(),
            r@ == v@.subrange(from as int, i as int),
        decreases to - i,
    {
        r.push(v[i]);
        proof {
            assert(r@ =~= v@.subrange(from as int, i + 1));
        }
        i += 1;
    }
    r
}

/// Finds the first occurrence of `c` in `v` at or after `from`, returning
/// `v.len()` when there is none.
pub(crate) fn find_char_from(v: &Vec<char>, from: usize, c: char) -> (r: usize)
    requires
        from <= v@.len(),
    ensures
        from <= r <= v@.len(),
        r < v@.len() ==> v@[r as int] == c,
        forall|j: int| from <= j < r ==> v@[j] != c,
{
    let mut i: usize = from;
    while i < v.len()
        invariant
            from <= i <= v@.len(),
            forall|j: int| from <= j < i ==> v@[j] != c,
        decreases v@.len() - i,
    {
        if v[i] == c {
            return i;
        }
        i += 1;
    }
    i
}

/// Trims `v`: the indices of the first and one-past-the-last character that
/// survive trimming, so that the trimmed text is the subrange between them.
pub(crate) fn trim_bounds(v: &Vec<char>) -> (r: (usize, usize))
    ensures
        r.0 <= r.1 <= v@.len(),
        v@.subrange(r.0 as int, r.1 as int) == trim_chars(v@),
{
    let mut start: usize = 0;
    proof {
        assert(v@.skip(0) =~= v@);
    }
    while start < v.len() && ws_char(v[start])
        invariant
            start <= v@.len(),
            trim_front(v@) == trim_front(v@.skip(start as int)),
        decreases v@.len() - start,
    {
        proof {
            assert(v@.skip(start as int).drop_first() =~= v@.skip(start + 1));
        }
        start += 1;
    }
    proof {
        assert(trim_front(v@.skip(start as int)) == v@.skip(start as int));
        assert(v@.skip(start as int).take((v@.len() - start) as int) =~= v@.skip(start as int));
    }
    let mut end: usize = v.len();
    while end > start && ws_char(v[end - 1])
        invariant
            start <= end <= v@.len(),
            trim_front(v@) == v@.skip(start as int),
            trim_back(v@.skip(start as int)) == trim_back(
                v@.skip(start as int).take(end - start),
            ),
        decreases end,
    {
        proof {
            let w = v@.skip(start as int).take(end - start);
            assert(w.last() == v@[end - 1]);
            assert(w.drop_last() =~= v@.skip(start as int).take(end - 1 - start));
        }
        end -= 1;
    }
    proof {
        let w = v@.skip(start as int).take(end - start);
        if w.len() > 0 {
            assert(w.last() == v@[end - 1]);
        }
        assert(trim_back(w) == w);
        assert(w =~= v@.subrange(start as int, end as int));
    }
    (start, end)
}

/// The decimal digit `d` (at most 9) as a character.
pub open spec fn digit_to_char(d: nat) -> char {
    ((d + 48) as u8) as char
}

/// The decimal representation of a natural number, most significant digit
/// first.
pub open spec fn dec_chars(n: nat) -> Seq<char>
    decreases n,
{
    if n < 10 {
        seq![digit_to_char(n)]
    } else {
        dec_chars(n / 10).push(digit_to_char(n % 10))
    }
}

/// The numeric value of a digit character.
pub open spec fn digit_val(c: char) -> nat {
    (c as u32 - 48) as nat
}

/// True when every character of the sequence is a decimal digit.
pub open spec fn all_digits(s: Seq<char>) -> bool {
    forall|i: int| 0 <= i < s.len() ==> is_digit_char(#[trigger] s[i])
}

/// The value of a sequence of decimal digit characters.
pub open spec fn digits_val(s: Seq<char>) -> nat
    decreases s.len(),
{
    if s.len() == 0 {
        0
    } else {
        digits_val(s.drop_last()) * 10 + digit_val(s.last())
    }
}

/// What parsing a small decimal number yields: the token must be non-empty,
/// all digits, and its value must fit in a byte.
pub open spec fn parse_u8_chars(s: Seq<char>) -> Option<u8> {
    if s.len() > 0 && all_digits(s) && digits_val(s) <= 255 {
        Some(digits_val(s) as u8)
    } else {
        None
    }
}

/// The decimal representation of a number consists of digits and represents
/// that number.
pub proof fn lemma_dec_chars_val(n: nat)
    ensures
        dec_chars(n).len() >= 1,
        all_digits(dec_chars(n)),
        digits_val(dec_chars(n)) == n,
    decreases n,
{
    if n < 10 {
        let s = dec_chars(n);
        assert(s =~= seq![digit_to_char(n)]);
        assert(digit_to_char(n) as u32 == n + 48);
        assert(is_digit_char(s[0]));
        assert(s.drop_last() =~= Seq::<char>::empty());
        assert(digits_val(Seq::<char>::empty()) == 0);
        assert(digits_val(s) == digits_val(s.drop_last()) * 10 + digit_val(s.last()));
        assert(digit_val(digit_to_char(n)) == n);
    } else {
        lemma_dec_chars_val(n / 10);
        let p = dec_chars(n / 10);
        let s = dec_chars(n);
        assert(s == p.push(digit_to_char(n % 10)));
        assert(s.drop_last() =~= p);
        assert(s.last() == digit_to_char(n % 10));
        assert(forall|i: int|
            0 <= i < s.len() ==> is_digit_char(#[trigger] s[i])) by {
            assert(forall|i: int| 0 <= i < p.len() ==> s[i] == #[trigger] p[i]);
            assert(is_digit_char(digit_to_char(n % 10)));
        }
        assert(digit_val(digit_to_char(n % 10)) == n % 10);
        assert(digits_val(s) == (n / 10) * 10 + n % 10);
        assert((n / 10) * 10 + n % 10 == n) by (nonlinear_arith);
    }
}

/// Round trip: parsing the decimal representation of a byte gives that byte
/// back.
pub proof fn lemma_parse_dec_roundtrip(n: u8)
    ensures
        parse_u8_chars(dec_chars(n as nat)) == Some(n),
{
    lemma_dec_chars_val(n as nat);
}

/// A digit string never contains a non-digit character.
pub proof fn lemma_digits_ne(s: Seq<char>, x: char)
    requires
        all_digits(s),
        !is_digit_char(x),
    ensures
        forall|j: int| 0 <= j < s.len() ==> s[j] != x,
{
    assert forall|j: int| 0 <= j < s.len() implies s[j] != x by {
        assert(is_digit_char(s[j]));
    }
}

/// The value of a digit string never shrinks as the string is extended.
proof fn lemma_digits_val_take_grows(s: Seq<char>, i: int)
    requires
        0 <= i <= s.len(),
    ensures
        digits_val(s.take(i)) <= digits_val(s),
    decreases s.len() - i,
{
    if i == s.len() {
        assert(s.take(i) =~= s);
    } else {
        assert(s.take(i + 1).drop_last() =~= s.take(i));
        assert(digits_val(s.take(i + 1)) == digits_val(s.take(i)) * 10 + digit_val(
            s.take(i + 1).last(),
        ));
        assert(digits_val(s.take(i)) * 10 >= digits_val(s.take(i))) by (nonlinear_arith);
        lemma_digits_val_take_grows(s, i + 1);
    }
}

/// Parses the characters of `v` between `from` (inclusive) and `to`
/// (exclusive) as a small decimal number.
pub(crate) fn parse_u8_range(v: &Vec<char>, from: usize, to: usize) -> (r: Option<u8>)
    requires
        from <= to <= v@.len(),
    ensures
        r == parse_u8_chars(v@.subrange(from as int, to as int)),
{
    let ghost s = v@.subrange(from as int, to as int);
    if from == to {
        return None;
    }
    let mut acc: u16 = 0;
    let mut i: usize = from;
    while i < to
        invariant
            from <= i <= to <= v@.len(),
            s == v@.subrange(from as int, to as int),
            acc <= 255,
            acc as nat == digits_val(s.take(i - from)),
            forall|j: int| 0 <= j < i - from ==> is_digit_char(#[trigger] s[j]),
        decreases to - i,
    {
        let c = v[i];
        assert(s[i - from] == c);
        if !digit_char(c) {
            assert(!all_digits(s));
            return None;
        }
        let d: u16 = (c as u32 - 48) as u16;
        assert(d as nat == digit_val(c));
        proof {
            assert(s.take(i - from + 1).drop_last() =~= s.take(i - from));
            assert(s.take(i - from + 1).last() == s[i - from]);
        }
        acc = acc * 10 + d;
        if acc > 255 {
            proof {
                lemma_digits_val_take_grows(s, i - from + 1);
            }
            assert(digits_val(s) > 255);
            return None;
        }
        i += 1;
    }
    proof {
        assert(s.take(to - from) =~= s);
    }
    assert(all_digits(s));
    Some(acc as u8)
}

/// Renders a byte as decimal digit characters.
pub(crate) fn u8_to_dec_chars(n: u8) -> (r: Vec<char>)
    ensures
        r@ == dec_chars(n as nat),
{
    let mut r: Vec<char> = Vec::new();
    if n >= 100 {
        r.push((n / 100 + 48) as char);
    }
    if n >= 10 {
        r.push((n / 10 % 10 + 48) as char);
    }
    r.push((n % 10 + 48) as char);
    proof {
        if n < 10 {
            assert(r@ =~= seq![digit_to_char((n as nat) % 10)]);
            assert((n as nat) % 10 == n as nat);
        } else if n < 100 {
            assert(dec_chars(n as nat) == dec_chars((n as nat) / 10).push(
                digit_to_char((n as nat) % 10),
            ));
            assert((n as nat) / 10 < 10);
            assert(dec_chars((n as nat) / 10) =~= seq![digit_to_char((n as nat) / 10)]);
            assert(r@ =~= seq![
                digit_to_char((n as nat) / 10),
                digit_to_char((n as nat) % 10),
            ]);
            assert(n / 10 == (n as nat) / 10 % 10);
        } else {
            let m = n as nat;
            assert(dec_chars(m) == dec_chars(m / 10).push(digit_to_char(m % 10)));
            assert(m / 10 >= 10);
            assert(dec_chars(m / 10) == dec_chars(m / 10 / 10).push(digit_to_char(m / 10 % 10)));
            assert(m / 10 / 10 == m / 100) by (nonlinear_arith);
            assert(m / 100 < 10);
            assert(dec_chars(m / 100) =~= seq![digit_to_char(m / 100)]);
            assert(r@ =~= seq![
                digit_to_char(m / 100),
                digit_to_char(m / 10 % 10),
                digit_to_char(m % 10),
            ]);
        }
    }
    r
}

} // verus!

verus! {

/// Splitting a sequence on `;`: the parts between consecutive semicolons, in
/// order. A sequence without a semicolon is a single part; each semicolon
/// separates two parts, so an input of n semicolons has n + 1 parts.
pub open spec fn split_semi(s: Seq<char>) -> Seq<Seq<char>>
    decreases s.len(),
    via split_semi_decreases
{
    let i = find_char(s, ';');
    if i < 0 {
        seq![s]
    } else {
        seq![s.take(i)] + split_semi(s.skip(i + 1))
    }
}

#[via_fn]
proof fn split_semi_decreases(s: Seq<char>) {
    lemma_find_char_props(s, ';');
}

} // verus!
