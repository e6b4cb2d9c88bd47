//! Character-level helpers on strings.
//!
//! Strings are modelled by their sequence of characters. The executable
//! functions work on a `Vec<char>` so that every position is reached in
//! constant time.

use vstd::prelude::*;
use vstd::std_specs::iter::IteratorSpec;

verus! {

/// `String::push` appends one character to the end of the string.
pub assume_specification[ String::push ](s: &mut String, c: char)
    ensures
        final(s)@ == old(s)@.push(c),
;

/// The characters of `s`, in order.
pub fn chars_of(s: &str) -> (out: Vec<char>)
    ensures
        out@ == s@,
{
    let mut out: Vec<char> = Vec::new();
    for c in it: s.chars()
        invariant
            out@ == it.seq().subrange(0, it.index() as int),
            it.seq() == s@,
    {
        out.push(c);
    }
    out
}

/// The string made of the characters `chars[from..to]`.
pub fn string_of(chars: &Vec<char>, from: usize, to: usize) -> (out: String)
    requires
        from <= to <= chars.len(),
    ensures
        out@ == chars@.subrange(from as int, to as int),
{
    let mut out = String::new();
    let mut i: usize = from;
    while i < to
        invariant
            from <= i <= to <= chars.len(),
            out@ == chars@.subrange(from as int, i as int),
        decreases to - i,
    {
        out.push(chars[i]);
        i += 1;
    }
    out
}

/// The characters `chars[from..to]`.
pub fn slice(chars: &Vec<char>, from: usize, to: usize) -> (out: Vec<char>)
    requires
        from <= to <= chars.len(),
    ensures
        out@ == chars@.subrange(from as int, to as int),
{
    let mut out: Vec<char> = Vec::new();
    let mut i: usize = from;
    while i < to
        invariant
            from <= i <= to <= chars.len(),
            out@ == chars@.subrange(from as int, i as int),
        decreases to - i,
    {
        out.push(chars[i]);
        i += 1;
    }
    out
}

/// Index of the first `c` in `s` at or after `from`, or `s.len()` if there
/// is none.
pub open spec fn find_char(s: Seq<char>, c: char, from: int) -> int
    decreases s.len() - from,
{
    if from >= s.len() {
        s.len() as int
    } else if s[from] == c {
        from
    } else {
        find_char(s, c, from + 1)
    }
}

/// `find_char` returns the least position at or after `from` that holds `c`.
pub proof fn lemma_find_char(s: Seq<char>, c: char, from: int)
    requires
        0 <= from <= s.len(),
    ensures
        from <= find_char(s, c, from) <= s.len(),
        find_char(s, c, from) < s.len() ==> s[find_char(s, c, from)] == c,
        forall|j: int| from <= j < find_char(s, c, from) ==> s[j] != c,
    decreases s.len() - from,
{
    if from < s.len() && s[from] != c {
        lemma_find_char(s, c, from + 1);
    }
}

/// A position that holds `c` while none before it does, from `from` on, is
/// where `find_char` stops. If no position holds `c`, it stops at the end.
pub proof fn lemma_find_char_at(s: Seq<char>, c: char, from: int, at: int)
    requires
        0 <= from <= at <= s.len(),
        at < s.len() ==> s[at] == c,
        forall|j: int| from <= j < at ==> s[j] != c,
    ensures
        find_char(s, c, from) == at,
    decreases at - from,
{
    if from < at {
        lemma_find_char_at(s, c, from + 1, at);
    }
}

/// Executable form of [`find_char`].
pub fn index_of_char(chars: &Vec<char>, c: char, from: usize) -> (at: usize)
    requires
        from <= chars.len(),
    ensures
        at == find_char(chars@, c, from as int),
        from <= at <= chars.len(),
{
    let mut i: usize = from;
    while i < chars.len() && chars[i] != c
        invariant
            from <= i <= chars.len(),
            find_char(chars@, c, from as int) == find_char(chars@, c, i as int),
        decreases chars.len() - i,
    {
        i += 1;
    }
    i
}

/// Whether `chars` holds `pattern` at position `at`.
pub fn has_at(chars: &Vec<char>, pattern: &Vec<char>, at: usize) -> (b: bool)
    ensures
        b == (at + pattern.len() <= chars.len() && chars@.subrange(
            at as int,
            at + pattern.len(),
        ) == pattern@),
{
    if at > chars.len() || pattern.len() > chars.len() - at {
        return false;
    }
    let mut i: usize = 0;
    while i < pattern.len()
        invariant
            at + pattern.len() <= chars.len(),
            i <= pattern.len(),
            forall|j: int| 0 <= j < i ==> chars@[at + j] == pattern@[j],
        decreases pattern.len() - i,
    {
        if chars[at + i] != pattern[i] {
            proof {
                let sub = chars@.subrange(at as int, at + pattern.len());
                assert(sub[i as int] == chars@[at + i]);
            }
            return false;
        }
        i += 1;
    }
    assert(chars@.subrange(at as int, at + pattern.len()) =~= pattern@);
    true
}

/// The lines of `text` from position `from` on. A line ends at a line
/// feed or at the end of the text; the line feed is no part of it.
pub open spec fn lines_from(text: Seq<char>, from: int) -> Seq<Seq<char>>
    decreases text.len() - from,
{
    if from < 0 || from > text.len() {
        Seq::empty()
    } else {
        let end = find_char(text, '\n', from);
        let line = text.subrange(from, end);
        if from <= end < text.len() {
            seq![line] + lines_from(text, end + 1)
        } else {
            seq![line]
        }
    }
}

/// The lines of `text`. A text that ends in a line feed has an empty last
/// line.
pub open spec fn lines(text: Seq<char>) -> Seq<Seq<char>> {
    lines_from(text, 0)
}

/// A text without a line feed is its one line.
pub proof fn lemma_one_line(text: Seq<char>)
    requires
        !text.contains('\n'),
    ensures
        lines(text) == seq![text],
{
    lemma_find_char(text, '\n', 0);
    let end = find_char(text, '\n', 0);
    if end < text.len() {
        assert(text.contains(text[end]));
    }
    assert(text.subrange(0, end) == text);
}

/// The lines of two texts with a line feed between them are the lines of
/// the first, then the lines of the second.
pub proof fn lemma_lines_concat(a: Seq<char>, b: Seq<char>)
    ensures
        lines(a + seq!['\n'] + b) == lines(a) + lines(b),
{
    let text = a + seq!['\n'] + b;
    assert(text.subrange(0, a.len() as int) == a);
    lemma_lines_before(text, a, 0);
    lemma_lines_shift(text, a.len() as int + 1, 0);
    assert(text.subrange(a.len() as int + 1, text.len() as int) == b);
}

proof fn lemma_lines_shift(text: Seq<char>, k: int, from: int)
    requires
        0 <= k <= text.len(),
        0 <= from <= text.len() - k,
    ensures
        lines_from(text, k + from) == lines_from(text.subrange(k, text.len() as int), from),
    decreases text.len() - k - from,
{
    let t = text.subrange(k, text.len() as int);
    lemma_find_char_shift(text, '\n', k, from);
    lemma_find_char(t, '\n', from);
    let end = find_char(t, '\n', from);
    if end < t.len() {
        lemma_lines_shift(text, k, end + 1);
    }
    assert(text.subrange(k + from, k + end) == t.subrange(from, end));
}

proof fn lemma_lines_before(text: Seq<char>, a: Seq<char>, from: int)
    requires
        a.len() < text.len(),
        a == text.subrange(0, a.len() as int),
        text[a.len() as int] == '\n',
        0 <= from <= a.len(),
    ensures
        lines_from(text, from) == lines_from(a, from) + lines_from(text, a.len() as int + 1),
    decreases a.len() - from,
{
    let n = a.len() as int;
    lemma_find_char(a, '\n', from);
    let end = find_char(a, '\n', from);
    assert forall|j: int| from <= j < end implies text[j] != '\n' by {
        assert(a[j] == text[j]);
    }
    if end < n {
        assert(a[end] == text[end]);
    }
    lemma_find_char_at(text, '\n', from, end);
    assert(text.subrange(from, end) == a.subrange(from, end));
    if end < n {
        lemma_lines_before(text, a, end + 1);
        assert(seq![text.subrange(from, end)] + lines_from(text, end + 1) == (seq![
            a.subrange(from, end),
        ] + lines_from(a, end + 1)) + lines_from(text, n + 1));
    }
}

/// Whether `c` has the Unicode property `White_Space`.
pub open spec fn is_whitespace(c: char) -> bool {
    let n = c as u32;
    (0x09 <= n <= 0x0d) || n == 0x20 || n == 0x85 || n == 0xa0 || n == 0x1680 || (0x2000 <= n
        <= 0x200a) || n == 0x2028 || n == 0x2029 || n == 0x202f || n == 0x205f || n == 0x3000
}

/// Executable form of [`is_whitespace`].
pub fn char_is_whitespace(c: char) -> (b: bool)
    ensures
        b == is_whitespace(c),
{
    let n: u32 = c as u32;
    (0x09 <= n && n <= 0x0d) || n == 0x20 || n == 0x85 || n == 0xa0 || n == 0x1680 || (0x2000 <= n
        && n <= 0x200a) || n == 0x2028 || n == 0x2029 || n == 0x202f || n == 0x205f || n == 0x3000
}

/// `s` without its trailing whitespace.
pub open spec fn trim_end(s: Seq<char>) -> Seq<char>
    decreases s.len(),
{
    if s.len() > 0 && is_whitespace(s.last()) {
        trim_end(s.drop_last())
    } else {
        s
    }
}

/// `trim_end` keeps the longest prefix that does not end in whitespace.
pub proof fn lemma_trim_end(s: Seq<char>)
    ensures
        trim_end(s).len() <= s.len(),
        trim_end(s) == s.subrange(0, trim_end(s).len() as int),
        trim_end(s).len() > 0 ==> !is_whitespace(trim_end(s).last()),
        forall|j: int| trim_end(s).len() <= j < s.len() ==> is_whitespace(s[j]),
    decreases s.len(),
{
    if s.len() > 0 && is_whitespace(s.last()) {
        let t = s.drop_last();
        lemma_trim_end(t);
        assert(trim_end(t) == s.subrange(0, trim_end(t).len() as int));
        assert forall|j: int| trim_end(s).len() <= j < s.len() implies is_whitespace(s[j]) by {
            if j < t.len() {
                assert(t[j] == s[j]);
            }
        }
    } else {
        assert(s == s.subrange(0, s.len() as int));
    }
}

/// Where `chars[from..]` ends once its trailing whitespace is gone.
pub fn trimmed_end(chars: &Vec<char>, from: usize) -> (to: usize)
    requires
        from <= chars.len(),
    ensures
        from <= to <= chars.len(),
        chars@.subrange(from as int, to as int) == trim_end(
            chars@.subrange(from as int, chars.len() as int),
        ),
{
    let mut to: usize = chars.len();
    while to > from && char_is_whitespace(chars[to - 1])
        invariant
            from <= to <= chars.len(),
            trim_end(chars@.subrange(from as int, to as int)) == trim_end(
                chars@.subrange(from as int, chars.len() as int),
            ),
        decreases to,
    {
        proof {
            let cur = chars@.subrange(from as int, to as int);
            assert(cur.last() == chars@[to - 1]);
            assert(cur.drop_last() == chars@.subrange(from as int, to - 1));
        }
        to -= 1;
    }
    proof {
        let cur = chars@.subrange(from as int, to as int);
        if to > from {
            assert(cur.last() == chars@[to - 1]);
        }
    }
    to
}

/// The maximal runs of characters other than `sep` in `s` from `from` on,
/// in order. Empty runs are left out.
pub open spec fn tokens_from(s: Seq<char>, sep: char, from: int) -> Seq<Seq<char>>
    decreases s.len() - from,
{
    if from < 0 || from >= s.len() {
        Seq::empty()
    } else {
        let end = find_char(s, sep, from);
        let rest = if from <= end < s.len() {
            tokens_from(s, sep, end + 1)
        } else {
            Seq::empty()
        };
        if from < end {
            seq![s.subrange(from, end)] + rest
        } else {
            rest
        }
    }
}

/// The non-empty pieces of `s` between occurrences of `sep`.
pub open spec fn tokens(s: Seq<char>, sep: char) -> Seq<Seq<char>> {
    tokens_from(s, sep, 0)
}

/// No token is empty and none holds the separator.
pub proof fn lemma_tokens_from(s: Seq<char>, sep: char, from: int)
    requires
        0 <= from <= s.len(),
    ensures
        forall|i: int|
            0 <= i < tokens_from(s, sep, from).len() ==> {
                &&& (#[trigger] tokens_from(s, sep, from)[i]).len() > 0
                &&& !tokens_from(s, sep, from)[i].contains(sep)
            },
    decreases s.len() - from,
{
    if from < s.len() {
        let end = find_char(s, sep, from);
        lemma_find_char(s, sep, from);
        let rest = if end < s.len() {
            tokens_from(s, sep, end + 1)
        } else {
            Seq::empty()
        };
        if end < s.len() {
            lemma_tokens_from(s, sep, end + 1);
        }
        let all = tokens_from(s, sep, from);
        assert forall|i: int| 0 <= i < all.len() implies (#[trigger] all[i]).len() > 0
            && !all[i].contains(sep) by {
            if from < end {
                if i == 0 {
                    let first = s.subrange(from, end);
                    assert(all[0] == first);
                    assert forall|j: int| 0 <= j < first.len() implies first[j] != sep by {
                        assert(first[j] == s[from + j]);
                    }
                } else {
                    assert(all[i] == rest[i - 1]);
                }
            } else {
                assert(all[i] == rest[i]);
            }
        }
    }
}

/// A string that is not empty and holds no separator is its one token.
pub proof fn lemma_one_token(s: Seq<char>, sep: char)
    requires
        s.len() > 0,
        !s.contains(sep),
    ensures
        tokens(s, sep) == seq![s],
{
    lemma_find_char(s, sep, 0);
    let end = find_char(s, sep, 0);
    if end < s.len() {
        assert(s.contains(s[end]));
    }
    assert(s.subrange(0, end) == s);
}

/// Searching in the part of `s` from `k` on finds what searching in `s`
/// finds, `k` positions further on.
pub proof fn lemma_find_char_shift(s: Seq<char>, c: char, k: int, from: int)
    requires
        0 <= k <= s.len(),
        0 <= from <= s.len() - k,
    ensures
        find_char(s, c, k + from) == k + find_char(s.subrange(k, s.len() as int), c, from),
{
    let t = s.subrange(k, s.len() as int);
    lemma_find_char(t, c, from);
    let at = find_char(t, c, from);
    assert forall|j: int| k + from <= j < k + at implies s[j] != c by {
        assert(t[j - k] == s[j]);
    }
    if at < t.len() {
        assert(t[at] == s[k + at]);
    }
    lemma_find_char_at(s, c, k + from, k + at);
}

/// The tokens of `s` from `k + from` on are those of the part of `s` from
/// `k` on, taken from `from` on.
pub proof fn lemma_tokens_shift(s: Seq<char>, sep: char, k: int, from: int)
    requires
        0 <= k <= s.len(),
        0 <= from <= s.len() - k,
    ensures
        tokens_from(s, sep, k + from) == tokens_from(s.subrange(k, s.len() as int), sep, from),
    decreases s.len() - k - from,
{
    let t = s.subrange(k, s.len() as int);
    if from < t.len() {
        lemma_find_char_shift(s, sep, k, from);
        lemma_find_char(t, sep, from);
        let end = find_char(t, sep, from);
        if end < t.len() {
            lemma_tokens_shift(s, sep, k, end + 1);
        }
        assert(s.subrange(k + from, k + end) == t.subrange(from, end));
    }
}

/// The tokens of two strings with a separator between them are the tokens
/// of the first, then the tokens of the second.
pub proof fn lemma_tokens_concat(a: Seq<char>, b: Seq<char>, sep: char)
    ensures
        tokens(a + seq![sep] + b, sep) == tokens(a, sep) + tokens(b, sep),
{
    let s = a + seq![sep] + b;
    assert(s.subrange(0, a.len() as int) == a);
    lemma_tokens_before(s, a, sep, 0);
    lemma_tokens_shift(s, sep, a.len() as int + 1, 0);
    assert(s.subrange(a.len() as int + 1, s.len() as int) == b);
}

proof fn lemma_tokens_before(s: Seq<char>, a: Seq<char>, sep: char, from: int)
    requires
        a.len() < s.len(),
        a == s.subrange(0, a.len() as int),
        s[a.len() as int] == sep,
        0 <= from <= a.len(),
    ensures
        tokens_from(s, sep, from) == tokens_from(a, sep, from) + tokens_from(
            s,
            sep,
            a.len() as int + 1,
        ),
    decreases a.len() - from,
{
    let n = a.len() as int;
    if from < n {
        lemma_find_char(a, sep, from);
        let end = find_char(a, sep, from);
        assert forall|j: int| from <= j < end implies s[j] != sep by {
            assert(a[j] == s[j]);
        }
        if end < n {
            assert(a[end] == s[end]);
        }
        lemma_find_char_at(s, sep, from, end);
        assert(s.subrange(from, end) == a.subrange(from, end));
        if end < n {
            lemma_tokens_before(s, a, sep, end + 1);
        }
        let rest_a = if end < n {
            tokens_from(a, sep, end + 1)
        } else {
            Seq::empty()
        };
        let rest_s = tokens_from(s, sep, end + 1);
        assert(rest_s == rest_a + tokens_from(s, sep, n + 1));
        if from < end {
            assert(seq![s.subrange(from, end)] + rest_s == (seq![a.subrange(from, end)] + rest_a)
                + tokens_from(s, sep, n + 1));
        }
    } else {
        lemma_find_char_at(s, sep, from, from);
        assert(tokens_from(a, sep, from) + tokens_from(s, sep, n + 1) == tokens_from(
            s,
            sep,
            n + 1,
        ));
    }
}

/// The non-empty pieces of `chars` between occurrences of `sep`.
pub fn split_tokens(chars: &Vec<char>, sep: char) -> (out: Vec<String>)
    ensures
        out.deep_view() == tokens(chars@, sep),
{
    let mut out: Vec<String> = Vec::new();
    let mut from: usize = 0;
    let ghost mut done: Seq<Seq<char>> = Seq::empty();
    while from < chars.len()
        invariant
            from <= chars.len(),
            out.deep_view() == done,
            tokens(chars@, sep) == done + tokens_from(chars@, sep, from as int),
        decreases chars.len() - from,
    {
        let end = index_of_char(chars, sep, from);
        if from < end {
            let token = string_of(chars, from, end);
            proof {
                done = done.push(token@);
            }
            out.push(token);
            assert(out.deep_view() =~= done);
        }
        if end < chars.len() {
            from = end + 1;
        } else {
            from = end;
        }
    }
    assert(out.deep_view() =~= tokens(chars@, sep));
    out
}

/// Whether `c` is one of the digits `0` to `9`.
pub open spec fn is_digit(c: char) -> bool {
    0x30 <= c as u32 <= 0x39
}

/// Whether `s` is a decimal number: one digit or more and nothing else.
pub open spec fn is_decimal(s: Seq<char>) -> bool {
    s.len() > 0 && forall|i: int| 0 <= i < s.len() ==> is_digit(#[trigger] s[i])
}

/// The number that the digits of `s` state in base ten.
pub open spec fn decimal_value(s: Seq<char>) -> nat
    decreases s.len(),
{
    if s.len() == 0 {
        0
    } else {
        decimal_value(s.drop_last()) * 10 + (s.last() as u32 - 0x30) as nat
    }
}

/// The number that `s` states, if `s` is a decimal number that fits in 64
/// bits.
pub open spec fn decimal_u64(s: Seq<char>) -> Option<u64> {
    if is_decimal(s) && decimal_value(s) <= u64::MAX {
        Some(decimal_value(s) as u64)
    } else {
        None
    }
}

/// Among decimal numbers a prefix never states more than the whole.
pub proof fn lemma_decimal_prefix(s: Seq<char>, n: int)
    requires
        is_decimal(s),
        0 <= n <= s.len(),
    ensures
        decimal_value(s.subrange(0, n)) <= decimal_value(s),
    decreases s.len() - n,
{
    if n < s.len() {
        let next = s.subrange(0, n + 1);
        assert(next.drop_last() == s.subrange(0, n));
        assert(is_digit(s[n]));
        lemma_decimal_prefix(s, n + 1);
    } else {
        assert(s.subrange(0, n) == s);
    }
}

/// Executable form of [`decimal_u64`].
pub fn parse_decimal(chars: &Vec<char>) -> (value: Option<u64>)
    ensures
        value == decimal_u64(chars@),
{
    if chars.len() == 0 {
        return None;
    }
    let mut value: u64 = 0;
    let mut i: usize = 0;
    while i < chars.len()
        invariant
            i <= chars.len(),
            is_decimal(chars@.subrange(0, i as int)) || i == 0,
            value == decimal_value(chars@.subrange(0, i as int)),
        decreases chars.len() - i,
    {
        let c = chars[i];
        let n: u32 = c as u32;
        if n < 0x30 || n > 0x39 {
            assert(!is_digit(chars@[i as int]));
            return None;
        }
        let digit: u64 = (n - 0x30) as u64;
        proof {
            let next = chars@.subrange(0, i + 1);
            assert(next.drop_last() == chars@.subrange(0, i as int));
            assert(next.last() == c);
            assert(is_decimal(next)) by {
                assert forall|j: int| 0 <= j < next.len() implies is_digit(#[trigger] next[j]) by {
                    if j < i {
                        assert(chars@.subrange(0, i as int)[j] == next[j]);
                    }
                }
            }
            if is_decimal(chars@) {
                lemma_decimal_prefix(chars@, i + 1);
            }
        }
        if value > (u64::MAX - digit) / 10 {
            return None;
        }
        value = value * 10 + digit;
        i += 1;
    }
    assert(chars@.subrange(0, i as int) == chars@);
    Some(value)
}

} // verus!
