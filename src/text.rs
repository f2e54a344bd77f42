//! Character-level helpers shared by the parsers: conversion between strings
//! and character vectors, splitting, searching, trimming and decimal numbers.

use vstd::prelude::*;
use vstd::std_specs::iter::IteratorSpec;

verus! {

/// Relies on `String::push`: appends one character at the end of the string.
#[verifier::external_body]
pub(crate) fn push_char(s: &mut String, c: char)
    ensures
        final(s)@ == old(s)@.push(c),
{
    s.push(c)
}

/// The characters of `s`, in order.
pub fn to_chars(s: &str) -> (r: Vec<char>)
    ensures
        r@ == s@,
{
    let mut out: Vec<char> = Vec::new();
    let mut it = s.chars();
    loop
        invariant
            it.obeys_prophetic_iter_laws(),
            out@ + it.remaining() == s@,
            it.decrease() is Some,
        ensures
            out@ == s@,
        decreases it.decrease()->0,
    {
        match it.next() {
            Some(c) => {
                out.push(c);
            },
            None => {
                assert(out@ =~= s@);
                break ;
            },
        }
    }
    out
}

/// A string holding the characters `v[lo..hi]`.
pub fn collect_string(v: &Vec<char>, lo: usize, hi: usize) -> (r: String)
    requires
        lo <= hi <= v@.len(),
    ensures
        r@ == v@.subrange(lo as int, hi as int),
{
    let mut s = String::new();
    let mut i = lo;
    while i < hi
        invariant
            lo <= i <= hi <= v@.len(),
            s@ == v@.subrange(lo as int, i as int),
        decreases hi - i,
    {
        push_char(&mut s, v[i]);
        i = i + 1;
        assert(s@ =~= v@.subrange(lo as int, i as int));
    }
    s
}

/// A copy of the characters `v[lo..hi]`.
pub fn sub_chars(v: &Vec<char>, lo: usize, hi: usize) -> (r: Vec<char>)
    requires
        lo <= hi <= v@.len(),
    ensures
        r@ == v@.subrange(lo as int, hi as int),
{
    let mut out: Vec<char> = Vec::new();
    let mut i = lo;
    while i < hi
        invariant
            lo <= i <= hi <= v@.len(),
            out@ == v@.subrange(lo as int, i as int),
        decreases hi - i,
    {
        out.push(v[i]);
        i = i + 1;
        assert(out@ =~= v@.subrange(lo as int, i as int));
    }
    out
}

/// Whether two character vectors hold the same characters.
pub fn same_chars(a: &Vec<char>, b: &Vec<char>) -> (r: bool)
    ensures
        r == (a@ == b@),
{
    if a.len() != b.len() {
        return false;
    }
    let mut i: usize = 0;
    while i < a.len()
        invariant
            a@.len() == b@.len(),
            i <= a@.len(),
            forall|k: int| 0 <= k < i ==> a@[k] == b@[k],
        decreases a@.len() - i,
    {
        if a[i] != b[i] {
            return false;
        }
        i = i + 1;
    }
    assert(a@ =~= b@);
    true
}

// ---------------------------------------------------------------------------
// Searching

/// Index of the first `c` in `s` at or after `i`; `s.len()` when there is none.
pub open spec fn find_from(s: Seq<char>, c: char, i: int) -> int
    decreases s.len() - i,
{
    if i >= s.len() {
        s.len() as int
    } else if s[i] == c {
        i
    } else {
        find_from(s, c, i + 1)
    }
}

/// Index of the first `c` in `s`; `s.len()` when there is none.
pub open spec fn find(s: Seq<char>, c: char) -> int {
    find_from(s, c, 0)
}

/// Index of the last `c` in `s[..j]`; `-1` when there is none.
pub open spec fn rfind_before(s: Seq<char>, c: char, j: int) -> int
    decreases j,
{
    if j <= 0 {
        -1
    } else if s[j - 1] == c {
        j - 1
    } else {
        rfind_before(s, c, j - 1)
    }
}

/// The first `c` at or after `i` is at `k` when none stands in `s[i..k]` and
/// `k` is the end or holds `c`.
pub proof fn lemma_find_from_is(s: Seq<char>, c: char, i: int, k: int)
    requires
        0 <= i <= k <= s.len(),
        forall|m: int| i <= m < k ==> s[m] != c,
        k == s.len() || s[k] == c,
    ensures
        find_from(s, c, i) == k,
    decreases k - i,
{
    if i < k {
        lemma_find_from_is(s, c, i + 1, k);
    }
}

pub proof fn lemma_rfind_before_bounds(s: Seq<char>, c: char, j: int)
    requires
        0 <= j <= s.len(),
    ensures
        -1 <= rfind_before(s, c, j) < j,
        rfind_before(s, c, j) >= 0 ==> s[rfind_before(s, c, j)] == c,
        forall|k: int| rfind_before(s, c, j) < k < j ==> s[k] != c,
    decreases j,
{
    if j > 0 && s[j - 1] != c {
        lemma_rfind_before_bounds(s, c, j - 1);
    }
}

/// Index of the first `c` in `v` at or after `from`; `v.len()` when there is none.
pub fn find_char(v: &Vec<char>, c: char, from: usize) -> (r: usize)
    requires
        from <= v@.len(),
    ensures
        r == find_from(v@, c, from as int),
        from <= r <= v@.len(),
{
    let mut i = from;
    while i < v.len() && v[i] != c
        invariant
            from <= i <= v@.len(),
            find_from(v@, c, i as int) == find_from(v@, c, from as int),
        decreases v@.len() - i,
    {
        i = i + 1;
    }
    i
}

/// Index of the last `c` in `v[..hi]`, if there is one.
pub fn rfind_char(v: &Vec<char>, c: char, hi: usize) -> (r: Option<usize>)
    requires
        hi <= v@.len(),
    ensures
        match r {
            Some(k) => k == rfind_before(v@, c, hi as int),
            None => rfind_before(v@, c, hi as int) < 0,
        },
{
    let mut j = hi;
    while j > 0 && v[j - 1] != c
        invariant
            j <= hi <= v@.len(),
            rfind_before(v@, c, j as int) == rfind_before(v@, c, hi as int),
        decreases j,
    {
        j = j - 1;
    }
    if j == 0 {
        None
    } else {
        Some(j - 1)
    }
}

// ---------------------------------------------------------------------------
// Splitting

/// Whether `sep` occurs in `s` at index `i`.
pub open spec fn separator_at(s: Seq<char>, sep: Seq<char>, i: int) -> bool {
    0 <= i && i + sep.len() <= s.len() && s.subrange(i, i + sep.len()) == sep
}

/// Index of the first occurrence of `sep` in `s` at or after `i`; `s.len()` when there is none.
pub open spec fn next_separator(s: Seq<char>, sep: Seq<char>, i: int) -> int
    decreases s.len() - i,
{
    if i >= s.len() {
        s.len() as int
    } else if separator_at(s, sep, i) {
        i
    } else {
        next_separator(s, sep, i + 1)
    }
}

pub proof fn lemma_next_separator_bounds(s: Seq<char>, sep: Seq<char>, i: int)
    requires
        0 <= i <= s.len(),
    ensures
        i <= next_separator(s, sep, i) <= s.len(),
        next_separator(s, sep, i) < s.len() ==> separator_at(s, sep, next_separator(s, sep, i)),
    decreases s.len() - i,
{
    if i < s.len() && !separator_at(s, sep, i) {
        lemma_next_separator_bounds(s, sep, i + 1);
    }
}

/// The pieces of `s[i..]` between the occurrences of `sep`, taken from the left.
pub open spec fn pieces_from(s: Seq<char>, sep: Seq<char>, i: int) -> Seq<Seq<char>>
    decreases s.len() - i,
    when 0 <= i <= s.len() && sep.len() > 0
{
    let j = next_separator(s, sep, i);
    if j >= s.len() {
        seq![s.subrange(i, s.len() as int)]
    } else {
        proof {
            lemma_next_separator_bounds(s, sep, i);
        }
        seq![s.subrange(i, j)] + pieces_from(s, sep, j + sep.len())
    }
}

/// `s` cut at each occurrence of `sep`: one piece more than there are
/// occurrences, as `str::split` gives them.
pub open spec fn split(s: Seq<char>, sep: Seq<char>) -> Seq<Seq<char>> {
    pieces_from(s, sep, 0)
}

pub proof fn lemma_split_not_empty(s: Seq<char>, sep: Seq<char>)
    requires
        sep.len() > 0,
    ensures
        split(s, sep).len() >= 1,
{
    lemma_next_separator_bounds(s, sep, 0);
}

/// The first occurrence of `sep` at or after `i` is at `k` when none starts
/// in `s[i..k]` and `k` is the end or holds one.
pub proof fn lemma_next_separator_is(s: Seq<char>, sep: Seq<char>, i: int, k: int)
    requires
        0 <= i <= k <= s.len(),
        forall|m: int| i <= m < k ==> !separator_at(s, sep, m),
        k == s.len() || separator_at(s, sep, k),
    ensures
        next_separator(s, sep, i) == k,
    decreases k - i,
{
    if i < k {
        lemma_next_separator_is(s, sep, i + 1, k);
    }
}

proof fn lemma_next_separator_shift(p: Seq<char>, b: Seq<char>, sep: Seq<char>, j: int)
    requires
        0 <= j <= b.len(),
    ensures
        next_separator(p + b, sep, p.len() + j) == p.len() + next_separator(b, sep, j),
    decreases b.len() - j,
{
    if j < b.len() {
        let s = p + b;
        if sep.len() + j <= b.len() {
            assert(s.subrange(p.len() + j, p.len() + j + sep.len()) =~= b.subrange(
                j,
                j + sep.len(),
            ));
        }
        if !separator_at(b, sep, j) {
            lemma_next_separator_shift(p, b, sep, j + 1);
        }
    }
}

proof fn lemma_pieces_shift(p: Seq<char>, b: Seq<char>, sep: Seq<char>, j: int)
    requires
        0 <= j <= b.len(),
        sep.len() > 0,
    ensures
        pieces_from(p + b, sep, p.len() + j) == pieces_from(b, sep, j),
    decreases b.len() - j,
{
    let s = p + b;
    lemma_next_separator_shift(p, b, sep, j);
    lemma_next_separator_bounds(b, sep, j);
    let k = next_separator(b, sep, j);
    if k < b.len() {
        lemma_pieces_shift(p, b, sep, k + sep.len());
        assert(s.subrange(p.len() + j, p.len() + k) =~= b.subrange(j, k));
    } else {
        assert(s.subrange(p.len() + j, s.len() as int) =~= b.subrange(j, b.len() as int));
    }
}

/// Cutting a line that holds no line feed, then a line feed, then `b`, gives
/// the line and then the pieces of `b`.
pub proof fn lemma_split_line(a: Seq<char>, b: Seq<char>)
    requires
        forall|k: int| 0 <= k < a.len() ==> a[k] != '\n',
    ensures
        split(a + seq!['\n'] + b, seq!['\n']) == seq![a] + split(b, seq!['\n']),
{
    let sep = seq!['\n'];
    let s = a + sep + b;
    assert forall|m: int| 0 <= m < a.len() implies !separator_at(s, sep, m) by {
        if separator_at(s, sep, m) {
            assert(s.subrange(m, m + 1)[0] == sep[0]);
        }
    }
    assert(s.subrange(a.len() as int, a.len() + 1 as int) =~= sep);
    lemma_next_separator_is(s, sep, 0, a.len() as int);
    assert(s =~= (a + sep) + b);
    lemma_pieces_shift(a + sep, b, sep, 0);
    assert(s.subrange(0, a.len() as int) =~= a);
}

/// The views of a vector of character vectors.
pub open spec fn views(v: Seq<Vec<char>>) -> Seq<Seq<char>> {
    v.map_values(|p: Vec<char>| p@)
}

/// The views of a vector of strings.
pub open spec fn string_views(v: Seq<String>) -> Seq<Seq<char>> {
    v.map_values(|p: String| p@)
}

/// Whether `sep` occurs in `v` at index `i`.
pub fn occurs_at(v: &Vec<char>, sep: &Vec<char>, i: usize) -> (r: bool)
    requires
        i <= v@.len(),
    ensures
        r == separator_at(v@, sep@, i as int),
{
    if sep.len() > v.len() - i {
        return false;
    }
    let n = v.len();
    let mut k: usize = 0;
    while k < sep.len()
        invariant
            n == v@.len(),
            i <= v@.len(),
            i + sep@.len() <= v@.len(),
            k <= sep@.len(),
            forall|m: int| 0 <= m < k ==> v@[i + m] == sep@[m],
        decreases sep@.len() - k,
    {
        if v[i + k] != sep[k] {
            assert(v@.subrange(i as int, i + sep@.len())[k as int] != sep@[k as int]);
            return false;
        }
        k = k + 1;
    }
    assert(v@.subrange(i as int, i + sep@.len()) =~= sep@);
    true
}

/// `v` cut at each occurrence of `sep`.
pub fn split_chars(v: &Vec<char>, sep: &Vec<char>) -> (r: Vec<Vec<char>>)
    requires
        sep@.len() > 0,
    ensures
        views(r@) == split(v@, sep@),
{
    let mut pieces: Vec<Vec<char>> = Vec::new();
    let mut i: usize = 0;
    loop
        invariant_except_break
            views(pieces@) + pieces_from(v@, sep@, i as int) == split(v@, sep@),
        invariant
            sep@.len() > 0,
            i <= v@.len(),
        ensures
            views(pieces@) == split(v@, sep@),
        decreases v@.len() - i,
    {
        let mut j = i;
        while j < v.len() && !occurs_at(v, sep, j)
            invariant
                i <= j <= v@.len(),
                next_separator(v@, sep@, j as int) == next_separator(v@, sep@, i as int),
            decreases v@.len() - j,
        {
            j = j + 1;
        }
        proof {
            lemma_next_separator_bounds(v@, sep@, i as int);
        }
        let piece = sub_chars(v, i, j);
        let ghost before = pieces@;
        pieces.push(piece);
        assert(views(pieces@) =~= views(before).push(piece@));
        if j >= v.len() {
            assert(views(pieces@) =~= split(v@, sep@));
            break ;
        }
        assert(views(before) + pieces_from(v@, sep@, i as int) =~= views(pieces@)
            + pieces_from(v@, sep@, (j + sep@.len()) as int));
        i = j + sep.len();
    }
    pieces
}

// ---------------------------------------------------------------------------
// White space and trimming

/// The characters with the Unicode `White_Space` property, those that
/// `char::is_whitespace` accepts.
pub open spec fn is_white_space(c: char) -> bool {
    c == ' ' || ('\u{9}' <= c && c <= '\u{d}') || c == '\u{85}' || c == '\u{a0}' || c
        == '\u{1680}' || ('\u{2000}' <= c && c <= '\u{200a}') || c == '\u{2028}' || c
        == '\u{2029}' || c == '\u{202f}' || c == '\u{205f}' || c == '\u{3000}'
}

pub fn white_space(c: char) -> (r: bool)
    ensures
        r == is_white_space(c),
{
    c == ' ' || ('\u{9}' <= c && c <= '\u{d}') || c == '\u{85}' || c == '\u{a0}' || c
        == '\u{1680}' || ('\u{2000}' <= c && c <= '\u{200a}') || c == '\u{2028}' || c
        == '\u{2029}' || c == '\u{202f}' || c == '\u{205f}' || c == '\u{3000}'
}

/// Index of the first character of `s` at or after `i` that is not white space.
pub open spec fn skip_white(s: Seq<char>, i: int) -> int
    decreases s.len() - i,
{
    if 0 <= i < s.len() && is_white_space(s[i]) {
        skip_white(s, i + 1)
    } else {
        i
    }
}

/// End of `s[lo..j]` once its trailing white space is dropped.
pub open spec fn back_white(s: Seq<char>, lo: int, j: int) -> int
    decreases j - lo,
{
    if lo < j && is_white_space(s[j - 1]) {
        back_white(s, lo, j - 1)
    } else {
        j
    }
}

/// `s` without its leading and trailing white space, as `str::trim` gives it.
pub open spec fn trimmed(s: Seq<char>) -> Seq<char> {
    let a = skip_white(s, 0);
    s.subrange(a, back_white(s, a, s.len() as int))
}

/// Whether `s` holds white space only (the empty sequence does).
pub open spec fn is_blank(s: Seq<char>) -> bool {
    forall|k: int| 0 <= k < s.len() ==> is_white_space(s[k])
}

/// `v` without its leading and trailing white space.
pub fn trim(v: &Vec<char>) -> (r: Vec<char>)
    ensures
        r@ == trimmed(v@),
{
    let mut a: usize = 0;
    while a < v.len() && white_space(v[a])
        invariant
            a <= v@.len(),
            skip_white(v@, a as int) == skip_white(v@, 0),
        decreases v@.len() - a,
    {
        a = a + 1;
    }
    let mut b: usize = v.len();
    while b > a && white_space(v[b - 1])
        invariant
            a <= b <= v@.len(),
            back_white(v@, a as int, b as int) == back_white(v@, a as int, v@.len() as int),
        decreases b - a,
    {
        b = b - 1;
    }
    sub_chars(v, a, b)
}

/// Whether `v` holds white space only.
pub fn blank(v: &Vec<char>) -> (r: bool)
    ensures
        r == is_blank(v@),
{
    let mut i: usize = 0;
    while i < v.len()
        invariant
            i <= v@.len(),
            forall|k: int| 0 <= k < i ==> is_white_space(v@[k]),
        decreases v@.len() - i,
    {
        if !white_space(v[i]) {
            return false;
        }
        i = i + 1;
    }
    true
}

// ---------------------------------------------------------------------------
// Decimal numbers

pub open spec fn is_digit(c: char) -> bool {
    '0' <= c && c <= '9'
}

pub open spec fn digit_value(c: char) -> nat {
    (c as int - '0' as int) as nat
}

pub open spec fn digit_char(d: nat) -> char {
    (d + '0' as int) as char
}

pub open spec fn all_digits(s: Seq<char>) -> bool {
    forall|k: int| 0 <= k < s.len() ==> is_digit(s[k])
}

/// The value of the decimal numeral `s`, read from its most significant digit.
pub open spec fn digits_value(s: Seq<char>) -> nat
    decreases s.len(),
{
    if s.len() == 0 {
        0
    } else {
        10 * digits_value(s.drop_last()) + digit_value(s.last())
    }
}

/// The number that `s` writes in decimal, when it is a non-empty run of
/// ASCII digits whose value is at most `limit`.
pub open spec fn decimal_value(s: Seq<char>, limit: nat) -> Option<nat> {
    if s.len() > 0 && all_digits(s) && digits_value(s) <= limit {
        Some(digits_value(s))
    } else {
        None
    }
}

/// `n` written in decimal, without leading zeros.
pub open spec fn decimal(n: nat) -> Seq<char>
    decreases n,
{
    if n < 10 {
        seq![digit_char(n)]
    } else {
        decimal(n / 10).push(digit_char(n % 10))
    }
}

pub proof fn lemma_digits_prefix(s: Seq<char>, k: int)
    requires
        0 <= k <= s.len(),
    ensures
        digits_value(s.subrange(0, k)) <= digits_value(s),
    decreases s.len(),
{
    if k < s.len() {
        lemma_digits_prefix(s.drop_last(), k);
        assert(s.drop_last().subrange(0, k) =~= s.subrange(0, k));
    } else {
        assert(s.subrange(0, k) =~= s);
    }
}

/// Reading back a number written in decimal gives the number.
pub proof fn lemma_decimal_reads_back(n: nat)
    ensures
        decimal(n).len() > 0,
        all_digits(decimal(n)),
        digits_value(decimal(n)) == n,
    decreases n,
{
    let s = decimal(n);
    if n >= 10 {
        lemma_decimal_reads_back(n / 10);
        assert(s.drop_last() =~= decimal(n / 10));
        assert(s.last() == digit_char((n % 10) as nat));
    } else {
        assert(s.drop_last() =~= Seq::<char>::empty());
        assert(s.last() == digit_char(n));
    }
    assert(digit_value(s.last()) == n % 10);
    assert(digits_value(s) == 10 * digits_value(s.drop_last()) + digit_value(s.last()));
}

/// The number written in decimal by `v[lo..hi]`, when it is at most `limit`.
pub fn parse_decimal(v: &Vec<char>, lo: usize, hi: usize, limit: usize) -> (r: Option<usize>)
    requires
        lo <= hi <= v@.len(),
        limit >= 9,
    ensures
        match decimal_value(v@.subrange(lo as int, hi as int), limit as nat) {
            Some(n) => r == Some(n as usize),
            None => r is None,
        },
{
    let ghost s = v@.subrange(lo as int, hi as int);
    if lo == hi {
        return None;
    }
    let mut acc: usize = 0;
    let mut i = lo;
    while i < hi
        invariant
            lo <= i <= hi <= v@.len(),
            limit >= 9,
            s == v@.subrange(lo as int, hi as int),
            all_digits(s.subrange(0, i - lo)),
            acc == digits_value(s.subrange(0, i - lo)),
            acc <= limit,
        decreases hi - i,
    {
        let c = v[i];
        if !('0' <= c && c <= '9') {
            assert(!is_digit(s[i - lo]));
            return None;
        }
        let d = (c as u32 - '0' as u32) as usize;
        assert(s.subrange(0, i + 1 - lo).drop_last() =~= s.subrange(0, i - lo));
        if acc > (limit - d) / 10 {
            proof {
                if all_digits(s) {
                    lemma_digits_prefix(s, i + 1 - lo);
                }
            }
            return None;
        }
        acc = acc * 10 + d;
        i = i + 1;
        assert(all_digits(s.subrange(0, i - lo)));
    }
    assert(s.subrange(0, hi - lo) =~= s);
    Some(acc)
}

/// The number that `s` writes as `str::parse::<usize>` reads it: one optional
/// `+`, then a non-empty run of ASCII digits whose value fits in a `usize`.
pub open spec fn index_value(s: Seq<char>) -> Option<nat> {
    if s.len() > 0 && s[0] == '+' {
        decimal_value(s.subrange(1, s.len() as int), usize::MAX as nat)
    } else {
        decimal_value(s, usize::MAX as nat)
    }
}

/// The number that `s` writes, as `index_value` reads it.
pub fn parse_index(s: &str) -> (r: Option<usize>)
    ensures
        match index_value(s@) {
            Some(n) => r == Some(n as usize),
            None => r is None,
        },
{
    let chars = to_chars(s);
    let start: usize = if chars.len() > 0 && chars[0] == '+' {
        1
    } else {
        0
    };
    assert(chars@.subrange(0, chars@.len() as int) =~= s@);
    parse_decimal(&chars, start, chars.len(), usize::MAX)
}

/// Appends `n` written in decimal to `out`.
pub fn push_decimal(out: &mut String, n: usize)
    ensures
        final(out)@ == old(out)@ + decimal(n as nat),
    decreases n,
{
    if n >= 10 {
        push_decimal(out, n / 10);
    }
    let d = (n % 10) as u8;
    push_char(out, (48u8 + d) as char);
    assert(out@ =~= old(out)@ + decimal(n as nat));
}

} // verus!
