//! Character-level building blocks: conversion between strings and character
//! vectors, and the sequence operations the naming rules are stated in.

use vstd::prelude::*;

verus! {

/// `String::push` appends the given character to the end of the string.
pub assume_specification[ String::push ](s: &mut String, c: char)
    ensures
        final(s)@ == old(s)@.push(c),
;

/// The characters of `s`, in order.
pub fn to_chars(s: &str) -> (chars: Vec<char>)
    ensures
        chars@ == s@,
{
    let n: usize = s.unicode_len();
    let mut chars: Vec<char> = Vec::new();
    let mut i: usize = 0;
    while i < n
        invariant
            n == s@.len(),
            i <= n,
            chars@ == s@.subrange(0, i as int),
        decreases n - i,
    {
        chars.push(s.get_char(i));
        i += 1;
        assert(chars@ =~= s@.subrange(0, i as int));
    }
    assert(s@.subrange(0, n as int) =~= s@);
    chars
}

/// The string made of the characters of `chars`, in order.
pub fn from_chars(chars: &Vec<char>) -> (s: String)
    ensures
        s@ == chars@,
{
    let mut s: String = String::new();
    let mut i: usize = 0;
    while i < chars.len()
        invariant
            i <= chars.len(),
            s@ == chars@.subrange(0, i as int),
        decreases chars.len() - i,
    {
        s.push(chars[i]);
        i += 1;
        assert(s@ =~= chars@.subrange(0, i as int));
    }
    assert(chars@.subrange(0, chars.len() as int) =~= chars@);
    s
}

/// Whether `c` is white space: the characters with Unicode's `White_Space`
/// property.
pub open spec fn is_whitespace(c: char) -> bool {
    let u = c as u32;
    ||| 0x09 <= u <= 0x0d
    ||| u == 0x20
    ||| u == 0x85
    ||| u == 0xa0
    ||| u == 0x1680
    ||| 0x2000 <= u <= 0x200a
    ||| u == 0x2028
    ||| u == 0x2029
    ||| u == 0x202f
    ||| u == 0x205f
    ||| u == 0x3000
}

/// The white-space test as a predicate value.
pub open spec fn whitespace() -> spec_fn(char) -> bool {
    |c: char| is_whitespace(c)
}

/// The test for a full stop as a predicate value.
pub open spec fn dot() -> spec_fn(char) -> bool {
    |c: char| c == '.'
}

/// `t` without its longest prefix of characters that satisfy `p`.
pub open spec fn drop_leading(t: Seq<char>, p: spec_fn(char) -> bool) -> Seq<char>
    decreases t.len(),
{
    if t.len() > 0 && p(t[0]) {
        drop_leading(t.skip(1), p)
    } else {
        t
    }
}

/// `t` without its longest suffix of characters that satisfy `p`.
pub open spec fn drop_trailing(t: Seq<char>, p: spec_fn(char) -> bool) -> Seq<char>
    decreases t.len(),
{
    if t.len() > 0 && p(t.last()) {
        drop_trailing(t.drop_last(), p)
    } else {
        t
    }
}

/// `t` without leading and trailing white space.
pub open spec fn trim(t: Seq<char>) -> Seq<char> {
    drop_trailing(drop_leading(t, whitespace()), whitespace())
}

/// `t` without trailing white space.
pub open spec fn trim_end(t: Seq<char>) -> Seq<char> {
    drop_trailing(t, whitespace())
}

/// `t` with every run of white space replaced by a single space: a white
/// space character followed by another is dropped, the last of a run becomes
/// a space.
pub open spec fn collapse_whitespace(t: Seq<char>) -> Seq<char>
    decreases t.len(),
{
    if t.len() == 0 {
        t
    } else if is_whitespace(t[0]) {
        if t.len() > 1 && is_whitespace(t[1]) {
            collapse_whitespace(t.skip(1))
        } else {
            seq![' '] + collapse_whitespace(t.skip(1))
        }
    } else {
        seq![t[0]] + collapse_whitespace(t.skip(1))
    }
}

/// Whether `t` begins with `p`.
pub open spec fn starts_with(t: Seq<char>, p: Seq<char>) -> bool {
    p.len() <= t.len() && t.subrange(0, p.len() as int) == p
}

/// Whether `t` ends with `p`.
pub open spec fn ends_with(t: Seq<char>, p: Seq<char>) -> bool {
    p.len() <= t.len() && t.subrange(t.len() - p.len(), t.len() as int) == p
}

/// `t` with every occurrence of `pat` replaced by `to`, the occurrences taken
/// from left to right without overlap; `t` itself where `pat` is empty.
pub open spec fn replace_all(t: Seq<char>, pat: Seq<char>, to: Seq<char>) -> Seq<char>
    decreases t.len(),
{
    if pat.len() == 0 || t.len() < pat.len() {
        t
    } else if starts_with(t, pat) {
        to + replace_all(t.skip(pat.len() as int), pat, to)
    } else {
        seq![t[0]] + replace_all(t.skip(1), pat, to)
    }
}

/// `t` with every occurrence of `pat` removed; unchanged where `pat` is empty.
pub open spec fn remove_all(t: Seq<char>, pat: Seq<char>) -> Seq<char> {
    replace_all(t, pat, Seq::empty())
}

/// The characters of an optional text.
pub open spec fn chars_of(text: Option<Vec<char>>) -> Option<Seq<char>> {
    match text {
        Some(t) => Some(t@),
        None => None,
    }
}

/// `c` in lower case where it is one of the letters `A` to `Z`, else `c`.
pub open spec fn ascii_lower(c: char) -> char {
    if 'A' <= c <= 'Z' {
        ((c as u32) + 32) as char
    } else {
        c
    }
}

/// `t` with the letters `A` to `Z` in lower case.
pub open spec fn ascii_lowercase(t: Seq<char>) -> Seq<char> {
    Seq::new(t.len(), |i: int| ascii_lower(t[i]))
}

/// `c` in lower case where it is one of the letters `A` to `Z`, else `c`.
pub fn ascii_lower_char(c: char) -> (res: char)
    ensures
        res == ascii_lower(c),
{
    if 'A' <= c && c <= 'Z' {
        let u: u8 = c as u8;
        (u + 32) as char
    } else {
        c
    }
}

/// `text` with the letters `A` to `Z` in lower case.
pub fn to_ascii_lowercase(text: &Vec<char>) -> (res: Vec<char>)
    ensures
        res@ == ascii_lowercase(text@),
{
    let mut res: Vec<char> = Vec::new();
    let mut i: usize = 0;
    while i < text.len()
        invariant
            i <= text.len(),
            res@ == ascii_lowercase(text@).subrange(0, i as int),
        decreases text.len() - i,
    {
        res.push(ascii_lower_char(text[i]));
        i += 1;
        assert(res@ =~= ascii_lowercase(text@).subrange(0, i as int));
    }
    assert(ascii_lowercase(text@).subrange(0, i as int) =~= ascii_lowercase(text@));
    res
}

/// Whether `text` ends with `pat`.
pub fn has_suffix(text: &Vec<char>, pat: &Vec<char>) -> (b: bool)
    ensures
        b == ends_with(text@, pat@),
{
    if pat.len() > text.len() {
        return false;
    }
    let at: usize = text.len() - pat.len();
    let b = occurs_at(text, at, pat);
    assert(text@.skip(at as int).subrange(0, pat.len() as int) =~= text@.subrange(
        text.len() - pat.len(),
        text.len() as int,
    ));
    b
}

/// `a` followed by `b`.
pub fn concat(a: &Vec<char>, b: &Vec<char>) -> (res: Vec<char>)
    ensures
        res@ == a@ + b@,
{
    let mut res: Vec<char> = slice(a, 0, a.len());
    assert(a@.subrange(0, a.len() as int) =~= a@);
    let mut i: usize = 0;
    while i < b.len()
        invariant
            i <= b.len(),
            res@ == a@ + b@.subrange(0, i as int),
        decreases b.len() - i,
    {
        res.push(b[i]);
        i += 1;
        assert(res@ =~= a@ + b@.subrange(0, i as int));
    }
    assert(b@.subrange(0, b.len() as int) =~= b@);
    res
}

/// Whether `c` is white space.
pub fn is_whitespace_char(c: char) -> (b: bool)
    ensures
        b == is_whitespace(c),
{
    let u: u32 = c as u32;
    (0x09 <= u && u <= 0x0d) || u == 0x20 || u == 0x85 || u == 0xa0 || u == 0x1680 || (0x2000 <= u
        && u <= 0x200a) || u == 0x2028 || u == 0x2029 || u == 0x202f || u == 0x205f || u == 0x3000
}

/// The part of `text` from `from` up to, not including, `to`.
pub fn slice(text: &Vec<char>, from: usize, to: usize) -> (res: Vec<char>)
    requires
        from <= to <= text.len(),
    ensures
        res@ == text@.subrange(from as int, to as int),
{
    let mut res: Vec<char> = Vec::new();
    let mut i: usize = from;
    while i < to
        invariant
            from <= i <= to <= text.len(),
            res@ == text@.subrange(from as int, i as int),
        decreases to - i,
    {
        res.push(text[i]);
        i += 1;
        assert(res@ =~= text@.subrange(from as int, i as int));
    }
    res
}

/// The length of the longest prefix of `text` that is white space.
fn leading_whitespace(text: &Vec<char>) -> (i: usize)
    ensures
        i <= text.len(),
        drop_leading(text@, whitespace()) == text@.skip(i as int),
{
    let mut i: usize = 0;
    assert(text@.skip(0) =~= text@);
    while i < text.len() && is_whitespace_char(text[i])
        invariant
            i <= text.len(),
            drop_leading(text@, whitespace()) == drop_leading(text@.skip(i as int), whitespace()),
        decreases text.len() - i,
    {
        assert(text@.skip(i as int)[0] == text@[i as int]);
        assert(text@.skip(i as int).skip(1) =~= text@.skip(i + 1));
        i += 1;
    }
    if i < text.len() {
        assert(text@.skip(i as int)[0] == text@[i as int]);
    }
    i
}

/// The length of `text` without its longest suffix of white space.
fn trailing_whitespace(text: &Vec<char>, from: usize) -> (j: usize)
    requires
        from <= text.len(),
    ensures
        from <= j <= text.len(),
        drop_trailing(text@.skip(from as int), whitespace()) == text@.subrange(
            from as int,
            j as int,
        ),
{
    let mut j: usize = text.len();
    assert(text@.subrange(from as int, j as int) =~= text@.skip(from as int));
    while j > from && is_whitespace_char(text[j - 1])
        invariant
            from <= j <= text.len(),
            drop_trailing(text@.skip(from as int), whitespace()) == drop_trailing(
                text@.subrange(from as int, j as int),
                whitespace(),
            ),
        decreases j,
    {
        assert(text@.subrange(from as int, j as int).last() == text@[j - 1]);
        assert(text@.subrange(from as int, j as int).drop_last() =~= text@.subrange(
            from as int,
            j - 1,
        ));
        j -= 1;
    }
    if j > from {
        assert(text@.subrange(from as int, j as int).last() == text@[j - 1]);
    }
    j
}

/// `text` without leading and trailing white space.
pub fn trim_whitespace(text: &Vec<char>) -> (res: Vec<char>)
    ensures
        res@ == trim(text@),
{
    let i: usize = leading_whitespace(text);
    let j: usize = trailing_whitespace(text, i);
    slice(text, i, j)
}

/// `text` without trailing white space.
pub fn trim_end_whitespace(text: &Vec<char>) -> (res: Vec<char>)
    ensures
        res@ == trim_end(text@),
{
    let j: usize = trailing_whitespace(text, 0);
    assert(text@.skip(0) =~= text@);
    slice(text, 0, j)
}

/// Whether `pat` occurs in `text` at position `at`.
pub fn occurs_at(text: &Vec<char>, at: usize, pat: &Vec<char>) -> (b: bool)
    requires
        at <= text.len(),
    ensures
        b == starts_with(text@.skip(at as int), pat@),
{
    if pat.len() > text.len() - at {
        return false;
    }
    let mut k: usize = 0;
    while k < pat.len()
        invariant
            at + pat.len() <= text.len(),
            k <= pat.len(),
            forall|m: int| 0 <= m < k ==> text@[at + m] == pat@[m],
        decreases pat.len() - k,
    {
        if text[at + k] != pat[k] {
            assert(text@.skip(at as int).subrange(0, pat.len() as int)[k as int] == text@[at + k]);
            return false;
        }
        k += 1;
    }
    assert(text@.skip(at as int).subrange(0, pat.len() as int) =~= pat@);
    true
}

/// `text` with every occurrence of `pat` replaced by `to`; unchanged where
/// `pat` is empty.
pub fn replace(text: &Vec<char>, pat: &Vec<char>, to: &Vec<char>) -> (res: Vec<char>)
    ensures
        res@ == replace_all(text@, pat@, to@),
{
    if pat.len() == 0 {
        assert(text@.subrange(0, text@.len() as int) =~= text@);
        return slice(text, 0, text.len());
    }
    let mut res: Vec<char> = Vec::new();
    let mut i: usize = 0;
    assert(text@.skip(0) =~= text@);
    while i < text.len()
        invariant
            pat.len() > 0,
            i <= text.len(),
            res@ + replace_all(text@.skip(i as int), pat@, to@) == replace_all(
                text@,
                pat@,
                to@,
            ),
        decreases text.len() - i,
    {
        let ghost before = res@;
        let ghost rest = text@.skip(i as int);
        if occurs_at(text, i, pat) {
            let mut k: usize = 0;
            while k < to.len()
                invariant
                    k <= to.len(),
                    res@ == before + to@.subrange(0, k as int),
                decreases to.len() - k,
            {
                res.push(to[k]);
                k += 1;
                assert(res@ =~= before + to@.subrange(0, k as int));
            }
            assert(to@.subrange(0, to.len() as int) =~= to@);
            assert(rest.skip(pat.len() as int) =~= text@.skip(i + pat.len()));
            i += pat.len();
            assert((before + to@) + replace_all(text@.skip(i as int), pat@, to@) =~= before + (to@
                + replace_all(text@.skip(i as int), pat@, to@)));
        } else {
            res.push(text[i]);
            assert(rest.len() > 0 && rest[0] == text@[i as int]);
            assert(rest.skip(1) =~= text@.skip(i + 1));
            i += 1;
            proof {
                if rest.len() < pat@.len() {
                    lemma_replace_all_short(rest, pat@, to@);
                }
            }
            assert(before.push(rest[0]) + replace_all(text@.skip(i as int), pat@, to@) =~= before
                + (seq![rest[0]] + replace_all(text@.skip(i as int), pat@, to@)));
        }
    }
    assert(replace_all(text@.skip(i as int), pat@, to@) =~= Seq::<char>::empty());
    assert(res@ + Seq::<char>::empty() =~= res@);
    res
}

/// A text shorter than the pattern is the first character followed by the
/// rest, which is shorter still and so unchanged.
proof fn lemma_replace_all_short(t: Seq<char>, pat: Seq<char>, to: Seq<char>)
    requires
        0 < t.len() < pat.len(),
    ensures
        replace_all(t, pat, to) == seq![t[0]] + replace_all(t.skip(1), pat, to),
{
    assert(replace_all(t.skip(1), pat, to) == t.skip(1));
    assert(seq![t[0]] + t.skip(1) =~= t);
}

/// The character of the decimal digit `d`.
pub open spec fn digit(d: nat) -> char
    recommends
        d < 10,
{
    ((d + 48) as u8) as char
}

/// `n` in decimal, without leading zeros.
pub open spec fn decimal(n: nat) -> Seq<char>
    decreases n,
{
    if n < 10 {
        seq![digit(n)]
    } else {
        decimal(n / 10).push(digit(n % 10))
    }
}

/// `width` zeros.
pub open spec fn zeros(width: nat) -> Seq<char> {
    Seq::new(width, |i: int| '0')
}

/// `n` in decimal, with zeros in front up to `width` characters; in full
/// where it has more digits than that.
pub open spec fn zero_padded(n: nat, width: nat) -> Seq<char> {
    let d = decimal(n);
    if d.len() >= width {
        d
    } else {
        zeros((width - d.len()) as nat) + d
    }
}

/// 10 to the power of `e`.
pub open spec fn pow10(e: nat) -> nat
    decreases e,
{
    if e == 0 {
        1
    } else {
        10 * pow10((e - 1) as nat)
    }
}

/// A number has `d` digits where it lies from the `d`-th power of ten, the
/// first being 1, up to the next; 0 has one digit.
pub proof fn lemma_decimal_len(n: nat, d: nat)
    requires
        d >= 1,
        pow10((d - 1) as nat) <= n < pow10(d) || (d == 1 && n == 0),
    ensures
        decimal(n).len() == d,
    decreases d,
{
    if d == 1 {
        assert(pow10(1) == 10) by {
            reveal_with_fuel(pow10, 2);
        }
    } else {
        assert(pow10((d - 1) as nat) == 10 * pow10((d - 2) as nat));
        assert(pow10(d) == 10 * pow10((d - 1) as nat));
        assert(pow10((d - 2) as nat) >= 1) by {
            lemma_pow10_positive((d - 2) as nat);
        }
        assert(n >= 10);
        lemma_decimal_len(n / 10, (d - 1) as nat);
    }
}

/// A power of ten is at least 1.
pub proof fn lemma_pow10_positive(e: nat)
    ensures
        pow10(e) >= 1,
    decreases e,
{
    if e > 0 {
        lemma_pow10_positive((e - 1) as nat);
    }
}

/// A padded number is at least `width` characters long, and exactly that
/// where the number has no more digits.
pub proof fn lemma_zero_padded_len(n: nat, width: nat)
    ensures
        zero_padded(n, width).len() >= width,
        zero_padded(n, width).len() >= 1,
        decimal(n).len() <= width ==> zero_padded(n, width).len() == width,
    decreases n,
{
    if n >= 10 {
        lemma_zero_padded_len(n / 10, width);
    }
}

/// `n` in decimal.
pub fn decimal_digits(n: u64) -> (res: Vec<char>)
    ensures
        res@ == decimal(n as nat),
    decreases n,
{
    if n < 10 {
        let d: u8 = n as u8;
        let mut res: Vec<char> = Vec::new();
        res.push((d + 48) as char);
        assert(res@ =~= seq![digit(n as nat)]);
        res
    } else {
        let mut res = decimal_digits(n / 10);
        let d: u8 = (n % 10) as u8;
        res.push((d + 48) as char);
        res
    }
}

/// `n` in decimal, with zeros in front up to `width` characters.
pub fn pad_with_zeros(n: u64, width: usize) -> (res: Vec<char>)
    ensures
        res@ == zero_padded(n as nat, width as nat),
{
    let digits = decimal_digits(n);
    if digits.len() >= width {
        return digits;
    }
    let missing: usize = width - digits.len();
    let mut res: Vec<char> = Vec::new();
    let mut i: usize = 0;
    while i < missing
        invariant
            i <= missing,
            res@ == zeros(i as nat),
        decreases missing - i,
    {
        res.push('0');
        i += 1;
        assert(res@ =~= zeros(i as nat));
    }
    concat(&res, &digits)
}

/// Whether no character of `t` belongs to `s`.
pub open spec fn avoids(t: Seq<char>, s: Set<char>) -> bool {
    forall|i: int| 0 <= i < t.len() ==> !s.contains(#[trigger] t[i])
}

/// Whether white space occurs in `t` only as single spaces: every white space
/// character is a space and is not followed by another.
pub open spec fn is_collapsed(t: Seq<char>) -> bool {
    forall|i: int|
        0 <= i < t.len() && is_whitespace(#[trigger] t[i]) ==> t[i] == ' ' && (i + 1 < t.len()
            ==> !is_whitespace(t[i + 1]))
}

/// Replacement brings in no character that neither the text nor the
/// replacement held.
pub proof fn lemma_replace_all_avoids(t: Seq<char>, pat: Seq<char>, to: Seq<char>, s: Set<char>)
    requires
        avoids(t, s),
        avoids(to, s),
    ensures
        avoids(replace_all(t, pat, to), s),
    decreases t.len(),
{
    if pat.len() == 0 || t.len() < pat.len() {
    } else if starts_with(t, pat) {
        let rest = t.skip(pat.len() as int);
        assert forall|i: int| 0 <= i < rest.len() implies !s.contains(#[trigger] rest[i]) by {
            assert(rest[i] == t[i + pat.len()]);
        }
        lemma_replace_all_avoids(rest, pat, to, s);
    } else {
        let rest = t.skip(1);
        assert forall|i: int| 0 <= i < rest.len() implies !s.contains(#[trigger] rest[i]) by {
            assert(rest[i] == t[i + 1]);
        }
        lemma_replace_all_avoids(rest, pat, to, s);
        assert(!s.contains(t[0]));
    }
}

/// Replacing a single character by text that lacks it leaves none of it.
pub proof fn lemma_replace_all_removes(t: Seq<char>, c: char, to: Seq<char>, s: Set<char>)
    requires
        avoids(t, s),
        avoids(to, s.insert(c)),
    ensures
        avoids(replace_all(t, seq![c], to), s.insert(c)),
    decreases t.len(),
{
    let pat = seq![c];
    if t.len() < 1 {
    } else {
        let rest = t.skip(1);
        assert forall|i: int| 0 <= i < rest.len() implies !s.contains(#[trigger] rest[i]) by {
            assert(rest[i] == t[i + 1]);
        }
        lemma_replace_all_removes(rest, c, to, s);
        if starts_with(t, pat) {
        } else {
            assert(!s.contains(t[0]));
            assert(t.subrange(0, 1) =~= seq![t[0]]);
            assert(t[0] != c);
        }
    }
}

/// A text that lacks the first character of the pattern is left unchanged.
pub proof fn lemma_replace_all_unchanged(t: Seq<char>, pat: Seq<char>, to: Seq<char>, s: Set<char>)
    requires
        pat.len() > 0,
        s.contains(pat[0]),
        avoids(t, s),
    ensures
        replace_all(t, pat, to) == t,
    decreases t.len(),
{
    if t.len() < pat.len() {
    } else {
        assert(!s.contains(t[0]));
        if starts_with(t, pat) {
            assert(t.subrange(0, pat.len() as int)[0] == t[0]);
        }
        let rest = t.skip(1);
        assert forall|i: int| 0 <= i < rest.len() implies !s.contains(#[trigger] rest[i]) by {
            assert(rest[i] == t[i + 1]);
        }
        lemma_replace_all_unchanged(rest, pat, to, s);
        assert(seq![t[0]] + rest =~= t);
    }
}

/// What is left after dropping a prefix is a suffix of the text, does not
/// start with a character of the dropped kind, and is shorter where the text
/// started with one.
pub proof fn lemma_drop_leading(t: Seq<char>, p: spec_fn(char) -> bool)
    ensures
        drop_leading(t, p).len() <= t.len(),
        drop_leading(t, p) == t.skip(t.len() - drop_leading(t, p).len()),
        drop_leading(t, p).len() > 0 ==> !p(drop_leading(t, p)[0]),
        t.len() > 0 && p(t[0]) ==> drop_leading(t, p).len() < t.len(),
    decreases t.len(),
{
    if t.len() > 0 && p(t[0]) {
        lemma_drop_leading(t.skip(1), p);
        let r = drop_leading(t, p);
        assert(t.skip(1).skip(t.len() - 1 - r.len()) =~= t.skip(t.len() - r.len()));
    } else {
        assert(t.skip(0) =~= t);
    }
}

/// What is left after dropping a suffix is a prefix of the text, does not end
/// with a character of the dropped kind, and is shorter where the text ended
/// with one.
pub proof fn lemma_drop_trailing(t: Seq<char>, p: spec_fn(char) -> bool)
    ensures
        drop_trailing(t, p).len() <= t.len(),
        drop_trailing(t, p) == t.take(drop_trailing(t, p).len() as int),
        drop_trailing(t, p).len() > 0 ==> !p(drop_trailing(t, p).last()),
        t.len() > 0 && p(t.last()) ==> drop_trailing(t, p).len() < t.len(),
    decreases t.len(),
{
    if t.len() > 0 && p(t.last()) {
        lemma_drop_trailing(t.drop_last(), p);
        let r = drop_trailing(t, p);
        assert(t.drop_last().take(r.len() as int) =~= t.take(r.len() as int));
    } else {
        assert(t.take(t.len() as int) =~= t);
    }
}

/// What is dropped at the end is all of the dropped kind.
pub proof fn lemma_drop_trailing_rest(t: Seq<char>, p: spec_fn(char) -> bool)
    ensures
        drop_trailing(t, p).len() <= t.len(),
        forall|i: int| drop_trailing(t, p).len() <= i < t.len() ==> p(#[trigger] t[i]),
    decreases t.len(),
{
    if t.len() > 0 && p(t.last()) {
        lemma_drop_trailing_rest(t.drop_last(), p);
        assert forall|i: int| drop_trailing(t, p).len() <= i < t.len() implies p(
            #[trigger] t[i],
        ) by {
            if i < t.len() - 1 {
                assert(t[i] == t.drop_last()[i]);
            }
        }
    }
}

/// Collapsing white space never lengthens a text, keeps it non-empty, keeps
/// whether it starts with white space, and brings in no character but the
/// space.
pub proof fn lemma_collapse_whitespace(t: Seq<char>, s: Set<char>)
    requires
        avoids(t, s),
        !s.contains(' '),
    ensures
        collapse_whitespace(t).len() <= t.len(),
        t.len() > 0 ==> collapse_whitespace(t).len() > 0 && (is_whitespace(
            collapse_whitespace(t)[0],
        ) <==> is_whitespace(t[0])),
        is_collapsed(collapse_whitespace(t)),
        avoids(collapse_whitespace(t), s),
    decreases t.len(),
{
    if t.len() == 0 {
    } else {
        let rest = t.skip(1);
        assert forall|i: int| 0 <= i < rest.len() implies !s.contains(#[trigger] rest[i]) by {
            assert(rest[i] == t[i + 1]);
        }
        lemma_collapse_whitespace(rest, s);
        let c = collapse_whitespace(rest);
        let r = collapse_whitespace(t);
        assert(!s.contains(t[0]));
        if is_whitespace(t[0]) && t.len() > 1 && is_whitespace(t[1]) {
            assert(rest[0] == t[1]);
        } else {
            if t.len() > 1 {
                assert(rest[0] == t[1]);
            }
            assert(r.len() == c.len() + 1);
            assert forall|i: int| 0 <= i < r.len() && is_whitespace(#[trigger] r[i]) implies r[i]
                == ' ' && (i + 1 < r.len() ==> !is_whitespace(r[i + 1])) by {
                if i > 0 {
                    assert(r[i] == c[i - 1]);
                    if i + 1 < r.len() {
                        assert(r[i + 1] == c[i]);
                    }
                }
            }
            assert forall|i: int| 0 <= i < r.len() implies !s.contains(#[trigger] r[i]) by {
                if i > 0 {
                    assert(r[i] == c[i - 1]);
                }
            }
        }
    }
}

/// A text in which white space occurs only as single spaces is left unchanged.
pub proof fn lemma_collapse_whitespace_unchanged(t: Seq<char>)
    requires
        is_collapsed(t),
    ensures
        collapse_whitespace(t) == t,
    decreases t.len(),
{
    if t.len() == 0 {
    } else {
        let rest = t.skip(1);
        assert forall|i: int| 0 <= i < rest.len() && is_whitespace(#[trigger] rest[i]) implies
            rest[i] == ' ' && (i + 1 < rest.len() ==> !is_whitespace(rest[i + 1])) by {
            assert(rest[i] == t[i + 1]);
            if i + 1 < rest.len() {
                assert(rest[i + 1] == t[i + 2]);
            }
        }
        lemma_collapse_whitespace_unchanged(rest);
        if is_whitespace(t[0]) {
            assert(t[0] == ' ');
        }
        assert(seq![t[0]] + rest =~= t);
    }
}

/// A part of a text holds no character that the text lacks, and white space
/// occurs in it only as single spaces where that is so of the text.
pub proof fn lemma_subrange_keeps(t: Seq<char>, from: int, to: int, s: Set<char>)
    requires
        0 <= from <= to <= t.len(),
    ensures
        avoids(t, s) ==> avoids(t.subrange(from, to), s),
        is_collapsed(t) ==> is_collapsed(t.subrange(from, to)),
{
    let r = t.subrange(from, to);
    if avoids(t, s) {
        assert forall|i: int| 0 <= i < r.len() implies !s.contains(#[trigger] r[i]) by {
            assert(r[i] == t[from + i]);
        }
    }
    if is_collapsed(t) {
        assert forall|i: int| 0 <= i < r.len() && is_whitespace(#[trigger] r[i]) implies r[i]
            == ' ' && (i + 1 < r.len() ==> !is_whitespace(r[i + 1])) by {
            assert(r[i] == t[from + i]);
            if i + 1 < r.len() {
                assert(r[i + 1] == t[from + i + 1]);
            }
        }
    }
}

} // verus!
