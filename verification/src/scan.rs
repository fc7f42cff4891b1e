//! Reading and writing plain text, one character at a time.
//!
//! Every scan is stated by position: where a run of characters starting at some index ends,
//! and what the characters in between amount to.

use vstd::prelude::*;
use vstd::slice::slice_subrange;

verus! {

/// The characters of a string, in order.
pub fn chars_of(text: &str) -> (chars: Vec<char>)
    ensures
        chars@ == text@,
{
    let mut chars: Vec<char> = Vec::new();
    for c in iter: text.chars()
        invariant
            iter.seq() == text@,
            chars@ == text@.take(iter.index() as int),
    {
        chars.push(c);
    }
    chars
}

/// A string of these characters.
pub fn text_of(chars: &[char]) -> (text: String)
    ensures
        text@ == chars@,
{
    let mut text = String::new();
    let mut at: usize = 0;
    while at < chars.len()
        invariant
            at <= chars@.len(),
            text@ == chars@.take(at as int),
        decreases chars@.len() - at,
    {
        text.push(chars[at]);
        at = at + 1;
    }
    text
}

/// Whether these characters spell exactly `word`.
pub fn spells(chars: &[char], word: &str) -> (same: bool)
    ensures
        same == (chars@ == word@),
{
    let other = chars_of(word);
    if chars.len() != other.len() {
        return false;
    }
    let mut at: usize = 0;
    while at < chars.len()
        invariant
            at <= chars@.len(),
            chars@.len() == other@.len(),
            other@ == word@,
            forall|i: int| 0 <= i < at ==> chars@[i] == word@[i],
        decreases chars@.len() - at,
    {
        if chars[at] != other[at] {
            assert(chars@[at as int] != word@[at as int]);
            return false;
        }
        at = at + 1;
    }
    assert(chars@ =~= word@);
    true
}

/// Whether two texts are the same.
pub fn same_text(a: &str, b: &str) -> (same: bool)
    ensures
        same == (a@ == b@),
{
    let chars = chars_of(a);
    spells(&chars, b)
}

/// The ASCII lower-case form of a character; anything but `A`-`Z` is itself.
pub open spec fn ascii_lower(c: char) -> char {
    if 'A' <= c && c <= 'Z' {
        (c as u8 + 32) as u8 as char
    } else {
        c
    }
}

/// The ASCII lower-case form of a text.
pub open spec fn ascii_lowered(s: Seq<char>) -> Seq<char> {
    Seq::new(s.len(), |i: int| ascii_lower(s[i]))
}

pub fn to_ascii_lower(c: char) -> (lower: char)
    ensures
        lower == ascii_lower(c),
{
    if 'A' <= c && c <= 'Z' {
        (c as u8 + 32) as char
    } else {
        c
    }
}

/// A copy with every ASCII capital lowered.
pub fn lowered(chars: &[char]) -> (lower: Vec<char>)
    ensures
        lower@ == ascii_lowered(chars@),
{
    let mut lower: Vec<char> = Vec::new();
    let mut at: usize = 0;
    while at < chars.len()
        invariant
            at <= chars@.len(),
            lower@ == ascii_lowered(chars@).take(at as int),
        decreases chars@.len() - at,
    {
        lower.push(to_ascii_lower(chars[at]));
        at = at + 1;
    }
    lower
}

/// Unicode white space: the characters with the `White_Space` property.
pub open spec fn white(c: char) -> bool {
    ||| '\u{9}' <= c && c <= '\u{D}'
    ||| c == '\u{20}'
    ||| c == '\u{85}'
    ||| c == '\u{A0}'
    ||| c == '\u{1680}'
    ||| '\u{2000}' <= c && c <= '\u{200A}'
    ||| c == '\u{2028}'
    ||| c == '\u{2029}'
    ||| c == '\u{202F}'
    ||| c == '\u{205F}'
    ||| c == '\u{3000}'
}

pub fn is_white(c: char) -> (b: bool)
    ensures
        b == white(c),
{
    ('\u{9}' <= c && c <= '\u{D}') || c == '\u{20}' || c == '\u{85}' || c == '\u{A0}' || c
        == '\u{1680}' || ('\u{2000}' <= c && c <= '\u{200A}') || c == '\u{2028}' || c == '\u{2029}'
        || c == '\u{202F}' || c == '\u{205F}' || c == '\u{3000}'
}

/// The first index at or after `from` holding `c`, or the length where none does.
pub open spec fn find_from(s: Seq<char>, c: char, from: int) -> int
    decreases s.len() - from,
{
    if from >= s.len() {
        s.len() as int
    } else if s[from] == c {
        from
    } else {
        find_from(s, c, from + 1)
    }
}

pub fn find(s: &[char], c: char, from: usize) -> (at: usize)
    requires
        from <= s@.len(),
    ensures
        at == find_from(s@, c, from as int),
        from <= at <= s@.len(),
        at < s@.len() ==> s@[at as int] == c,
{
    let mut at: usize = from;
    while at < s.len() && s[at] != c
        invariant
            from <= at <= s@.len(),
            find_from(s@, c, from as int) == find_from(s@, c, at as int),
        decreases s@.len() - at,
    {
        at = at + 1;
    }
    at
}

/// The first index at or after `from` that is not white space.
pub open spec fn skip_white(s: Seq<char>, from: int) -> int
    decreases s.len() - from,
{
    if from < s.len() && white(s[from]) {
        skip_white(s, from + 1)
    } else {
        from
    }
}

pub fn next_word(s: &[char], from: usize) -> (at: usize)
    requires
        from <= s@.len(),
    ensures
        at == skip_white(s@, from as int),
        from <= at <= s@.len(),
        at < s@.len() ==> !white(s@[at as int]),
{
    let mut at: usize = from;
    while at < s.len() && is_white(s[at])
        invariant
            from <= at <= s@.len(),
            skip_white(s@, from as int) == skip_white(s@, at as int),
        decreases s@.len() - at,
    {
        at = at + 1;
    }
    at
}

/// The first index at or after `from` that is white space, or the length.
pub open spec fn word_end(s: Seq<char>, from: int) -> int
    decreases s.len() - from,
{
    if from < s.len() && !white(s[from]) {
        word_end(s, from + 1)
    } else {
        from
    }
}

pub fn end_of_word(s: &[char], from: usize) -> (at: usize)
    requires
        from <= s@.len(),
    ensures
        at == word_end(s@, from as int),
        from <= at <= s@.len(),
        from < s@.len() && !white(s@[from as int]) ==> from < at,
{
    let mut at: usize = from;
    while at < s.len() && !is_white(s[at])
        invariant
            from <= at <= s@.len(),
            from < s@.len() && !white(s@[from as int]) ==> (at == from || from < at),
            word_end(s@, from as int) == word_end(s@, at as int),
        decreases s@.len() - at,
    {
        at = at + 1;
    }
    at
}

/// The end of `s[from..to]` once trailing white space is dropped.
pub open spec fn trim_end(s: Seq<char>, from: int, to: int) -> int
    decreases to - from,
{
    if from < to && white(s[to - 1]) {
        trim_end(s, from, to - 1)
    } else {
        to
    }
}

/// A text without its leading and trailing white space.
pub open spec fn trimmed(s: Seq<char>) -> Seq<char> {
    let from = skip_white(s, 0);
    s.subrange(from, trim_end(s, from, s.len() as int))
}

pub fn trim(s: &[char]) -> (t: &[char])
    ensures
        t@ == trimmed(s@),
{
    let from = next_word(s, 0);
    let mut to: usize = s.len();
    while from < to && is_white(s[to - 1])
        invariant
            from <= to <= s@.len(),
            trim_end(s@, from as int, s@.len() as int) == trim_end(s@, from as int, to as int),
        decreases to,
    {
        to = to - 1;
    }
    slice_subrange(s, from, to)
}

/// One line without the carriage return that ends it.
pub open spec fn without_return(s: Seq<char>) -> Seq<char> {
    if s.len() > 0 && s.last() == '\r' {
        s.drop_last()
    } else {
        s
    }
}

/// The lines of the text from index `from` on. A line ends at a line feed, with or without a
/// carriage return before it; the last one needs no ending.
pub open spec fn lines_from(s: Seq<char>, from: int) -> Seq<Seq<char>>
    decreases s.len() - from,
    when from >= 0
{
    if from >= s.len() {
        Seq::empty()
    } else {
        let end = find_from(s, '\n', from);
        if end >= s.len() {
            seq![s.subrange(from, s.len() as int)]
        } else if end < from {
            Seq::empty()
        } else {
            seq![without_return(s.subrange(from, end))] + lines_from(s, end + 1)
        }
    }
}

/// What a list of lines holds.
pub open spec fn texts(v: Seq<Vec<char>>) -> Seq<Seq<char>> {
    Seq::new(v.len(), |i: int| v[i]@)
}

/// A copy of part of a text.
pub fn copy_range(s: &[char], from: usize, to: usize) -> (copy: Vec<char>)
    requires
        from <= to <= s@.len(),
    ensures
        copy@ == s@.subrange(from as int, to as int),
{
    let mut copy: Vec<char> = Vec::new();
    let mut at: usize = from;
    while at < to
        invariant
            from <= at <= to <= s@.len(),
            copy@ == s@.subrange(from as int, at as int),
        decreases to - at,
    {
        copy.push(s[at]);
        at = at + 1;
        assert(copy@ =~= s@.subrange(from as int, at as int));
    }
    copy
}

/// Splits a text into its lines.
pub fn lines(s: &[char]) -> (all: Vec<Vec<char>>)
    ensures
        texts(all@) == lines_from(s@, 0),
{
    let mut all: Vec<Vec<char>> = Vec::new();
    let mut from: usize = 0;
    proof {
        assert(texts(all@) =~= Seq::<Seq<char>>::empty());
    }
    while from < s.len()
        invariant
            from <= s@.len(),
            texts(all@) + lines_from(s@, from as int) == lines_from(s@, 0),
        decreases s@.len() - from,
    {
        let end = find(s, '\n', from);
        let ghost before = all@;
        if end < s.len() {
            let mut stop: usize = end;
            if from < end && s[end - 1] == '\r' {
                stop = end - 1;
            }
            let line = copy_range(s, from, stop);
            proof {
                assert(line@ =~= without_return(s@.subrange(from as int, end as int)));
            }
            let ghost text = line@;
            all.push(line);
            proof {
                assert(texts(all@) =~= texts(before).push(text));
                assert(texts(all@) + lines_from(s@, end + 1) =~= texts(before) + (seq![text]
                    + lines_from(s@, end + 1)));
            }
            from = end + 1;
        } else {
            let line = copy_range(s, from, s.len());
            let ghost text = line@;
            all.push(line);
            proof {
                assert(texts(all@) =~= texts(before).push(text));
                assert(lines_from(s@, from as int) =~= seq![text]);
                assert(lines_from(s@, s@.len() as int) =~= Seq::<Seq<char>>::empty());
                assert(texts(all@) + lines_from(s@, s@.len() as int) =~= texts(before) + seq![
                    text,
                ]);
            }
            from = s.len();
        }
    }
    proof {
        assert(lines_from(s@, from as int) =~= Seq::<Seq<char>>::empty());
        assert(texts(all@) + lines_from(s@, from as int) =~= texts(all@));
    }
    all
}

/// The white-space separated words of the text from index `from` on.
pub open spec fn words_from(s: Seq<char>, from: int) -> Seq<Seq<char>>
    decreases s.len() - from,
    when from >= 0
{
    let start = skip_white(s, from);
    let end = word_end(s, start);
    if start >= s.len() || end <= from || s.len() < end {
        Seq::empty()
    } else {
        seq![s.subrange(start, end)] + words_from(s, end)
    }
}

/// Splits a text into its words.
pub fn words(s: &[char]) -> (all: Vec<Vec<char>>)
    ensures
        texts(all@) == words_from(s@, 0),
{
    let mut all: Vec<Vec<char>> = Vec::new();
    let mut from: usize = 0;
    proof {
        assert(texts(all@) =~= Seq::<Seq<char>>::empty());
        assert(texts(all@) + words_from(s@, 0) =~= words_from(s@, 0));
    }
    loop
        invariant
            from <= s@.len(),
            texts(all@) + words_from(s@, from as int) == words_from(s@, 0),
        decreases s@.len() - from,
    {
        let start = next_word(s, from);
        if start >= s.len() {
            proof {
                assert(texts(all@) + words_from(s@, from as int) =~= texts(all@));
            }
            return all;
        }
        let end = end_of_word(s, start);
        let word = copy_range(s, start, end);
        let ghost before = all@;
        let ghost text = word@;
        all.push(word);
        proof {
            assert(texts(all@) =~= texts(before).push(text));
            assert(texts(all@) + words_from(s@, end as int) =~= texts(before) + (seq![text]
                + words_from(s@, end as int)));
        }
        from = end;
    }
}

/// Whether `word` stands in `s` at index `at`.
pub open spec fn stands_at(s: Seq<char>, word: Seq<char>, at: int) -> bool {
    0 <= at && at + word.len() <= s.len() && s.subrange(at, at + word.len()) == word
}

/// The first index at or after `from` where `word` stands, or the length where it does not.
pub open spec fn find_text_from(s: Seq<char>, word: Seq<char>, from: int) -> int
    decreases s.len() - from,
{
    if from >= s.len() {
        s.len() as int
    } else if stands_at(s, word, from) {
        from
    } else {
        find_text_from(s, word, from + 1)
    }
}

pub fn is_at(s: &[char], word: &[char], at: usize) -> (b: bool)
    requires
        at <= s@.len(),
    ensures
        b == stands_at(s@, word@, at as int),
{
    let size: usize = s.len();
    if word.len() > size - at {
        return false;
    }
    let mut k: usize = 0;
    while k < word.len()
        invariant
            size == s@.len(),
            k <= word@.len(),
            at + word@.len() <= s@.len(),
            forall|i: int| 0 <= i < k ==> s@[at + i] == word@[i],
        decreases word@.len() - k,
    {
        if s[at + k] != word[k] {
            assert(s@.subrange(at as int, at + word@.len())[k as int] != word@[k as int]);
            return false;
        }
        k = k + 1;
    }
    assert(s@.subrange(at as int, at + word@.len()) =~= word@);
    true
}

pub fn find_text(s: &[char], word: &str, from: usize) -> (at: usize)
    requires
        from <= s@.len(),
    ensures
        at == find_text_from(s@, word@, from as int),
        from <= at <= s@.len(),
{
    let needle = chars_of(word);
    let mut at: usize = from;
    while at < s.len() && !is_at(s, needle.as_slice(), at)
        invariant
            from <= at <= s@.len(),
            needle@ == word@,
            find_text_from(s@, word@, from as int) == find_text_from(s@, word@, at as int),
        decreases s@.len() - at,
    {
        at = at + 1;
    }
    at
}

/// Whether a nonempty `word` occurs anywhere in `s`.
pub open spec fn contains_text(s: Seq<char>, word: Seq<char>) -> bool {
    find_text_from(s, word, 0) < s.len()
}

/// One past the last `c` in `s[..to]`, or zero where there is none.
pub open spec fn after_last(s: Seq<char>, c: char, to: int) -> int
    decreases to,
{
    if to <= 0 {
        0
    } else if s[to - 1] == c {
        to
    } else {
        after_last(s, c, to - 1)
    }
}

pub fn find_after_last(s: &[char], c: char, to: usize) -> (at: usize)
    requires
        to <= s@.len(),
    ensures
        at == after_last(s@, c, to as int),
        at <= to,
{
    let mut at: usize = to;
    while at > 0 && s[at - 1] != c
        invariant
            at <= to <= s@.len(),
            after_last(s@, c, to as int) == after_last(s@, c, at as int),
        decreases at,
    {
        at = at - 1;
    }
    at
}

/// What a list of strings holds.
pub open spec fn strings(v: Seq<String>) -> Seq<Seq<char>> {
    Seq::new(v.len(), |i: int| v[i]@)
}

/// Whether a character is one of `0`-`9`.
pub open spec fn digit(c: char) -> bool {
    '0' <= c && c <= '9'
}

/// The number a decimal digit stands for.
pub open spec fn digit_value(c: char) -> nat {
    (c as nat - '0' as nat) as nat
}

/// What a run of decimal digits amounts to.
pub open spec fn value_of(s: Seq<char>) -> nat
    decreases s.len(),
{
    if s.len() == 0 {
        0
    } else {
        value_of(s.drop_last()) * 10 + digit_value(s.last())
    }
}

/// The first index at or after `from` that is not a digit.
pub open spec fn digits_end(s: Seq<char>, from: int) -> int
    decreases s.len() - from,
{
    if from < s.len() && digit(s[from]) {
        digits_end(s, from + 1)
    } else {
        from
    }
}

pub fn end_of_digits(s: &[char], from: usize) -> (at: usize)
    requires
        from <= s@.len(),
    ensures
        at == digits_end(s@, from as int),
        from <= at <= s@.len(),
        forall|i: int| from <= i < at ==> digit(s@[i]),
{
    let mut at: usize = from;
    while at < s.len() && '0' <= s[at] && s[at] <= '9'
        invariant
            from <= at <= s@.len(),
            digits_end(s@, from as int) == digits_end(s@, at as int),
            forall|i: int| from <= i < at ==> digit(s@[i]),
        decreases s@.len() - at,
    {
        at = at + 1;
    }
    at
}

/// The smaller of a value and a cap.
pub open spec fn capped(value: nat, cap: nat) -> nat {
    if value < cap {
        value
    } else {
        cap
    }
}

/// The value of the digits `s[from..to]`, cut off at `cap`.
pub fn capped_value(s: &[char], from: usize, to: usize, cap: u128) -> (value: u128)
    requires
        from <= to <= s@.len(),
        forall|i: int| from <= i < to ==> digit(s@[i]),
        cap <= 10_000_000_000_000_000_000_000_000_000_000_000_000,
    ensures
        value == capped(value_of(s@.subrange(from as int, to as int)), cap as nat),
{
    let mut value: u128 = 0;
    let mut at: usize = from;
    proof {
        assert(s@.subrange(from as int, from as int) =~= Seq::<char>::empty());
    }
    while at < to
        invariant
            from <= at <= to <= s@.len(),
            forall|i: int| from <= i < to ==> digit(s@[i]),
            cap <= 10_000_000_000_000_000_000_000_000_000_000_000_000,
            value == capped(value_of(s@.subrange(from as int, at as int)), cap as nat),
        decreases to - at,
    {
        let ghost before = s@.subrange(from as int, at as int);
        let c = s[at];
        assert(digit(s@[at as int]));
        let next: u128 = value * 10 + (c as u128 - '0' as u128);
        at = at + 1;
        proof {
            let now = s@.subrange(from as int, at as int);
            assert(now.drop_last() =~= before);
            assert(now.last() == c);
        }
        value = if next < cap {
            next
        } else {
            cap
        };
    }
    value
}

/// What an unsigned integer literal says: an optional `+`, then at least one digit.
pub open spec fn natural(s: Seq<char>) -> Option<nat> {
    let from: int = if s.len() > 0 && s[0] == '+' {
        1
    } else {
        0
    };
    if from < s.len() && digits_end(s, from) == s.len() {
        Some(value_of(s.subrange(from, s.len() as int)))
    } else {
        None
    }
}

/// What a signed integer literal says: an optional sign, then at least one digit.
pub open spec fn integer(s: Seq<char>) -> Option<int> {
    let signed = s.len() > 0 && (s[0] == '+' || s[0] == '-');
    let from: int = if signed {
        1
    } else {
        0
    };
    if from < s.len() && digits_end(s, from) == s.len() {
        let magnitude = value_of(s.subrange(from, s.len() as int)) as int;
        Some(
            if signed && s[0] == '-' {
                -magnitude
            } else {
                magnitude
            },
        )
    } else {
        None
    }
}

/// Reads an unsigned integer no greater than `max`.
pub fn parse_natural(s: &[char], max: u64) -> (value: Option<u64>)
    ensures
        value is Some <==> natural(s@) is Some && natural(s@)->0 <= max,
        value is Some ==> value->0 == natural(s@)->0,
{
    let mut from: usize = 0;
    if s.len() > 0 && s[0] == '+' {
        from = 1;
    }
    if from >= s.len() {
        return None;
    }
    let end = end_of_digits(s, from);
    if end != s.len() {
        return None;
    }
    let cap: u128 = max as u128 + 1;
    let value = capped_value(s, from, end, cap);
    if value < cap {
        Some(value as u64)
    } else {
        None
    }
}

/// Reads a 32-bit signed integer.
pub fn parse_i32(s: &[char]) -> (value: Option<i32>)
    ensures
        value is Some <==> integer(s@) is Some && i32::MIN <= integer(s@)->0 <= i32::MAX,
        value is Some ==> value->0 == integer(s@)->0,
{
    let mut from: usize = 0;
    let mut negative = false;
    if s.len() > 0 && (s[0] == '+' || s[0] == '-') {
        from = 1;
        negative = s[0] == '-';
    }
    if from >= s.len() {
        return None;
    }
    let end = end_of_digits(s, from);
    if end != s.len() {
        return None;
    }
    let value = capped_value(s, from, end, 0x8000_0001);
    if negative {
        if value <= 0x8000_0000 {
            Some((-(value as i64)) as i32)
        } else {
            None
        }
    } else if value <= 0x7fff_ffff {
        Some(value as i32)
    } else {
        None
    }
}

/// The decimal digits of a number.
pub open spec fn decimal(n: nat) -> Seq<char>
    decreases n,
{
    if n < 10 {
        seq![('0' as nat + n) as char]
    } else {
        decimal(n / 10).push(('0' as nat + n % 10) as char)
    }
}

/// Appends a number in decimal.
pub fn push_decimal(out: &mut String, n: u64)
    ensures
        final(out)@ == old(out)@ + decimal(n as nat),
    decreases n,
{
    let ghost start = out@;
    if n >= 10 {
        push_decimal(out, n / 10);
    }
    let c: char = (48 + (n % 10) as u8) as char;
    out.push(c);
    proof {
        assert(c == ('0' as nat + (n as nat) % 10) as char);
        assert(out@ =~= start + decimal(n as nat));
    }
}

/// Appends a large number in decimal.
pub fn push_wide(out: &mut String, n: u128)
    ensures
        final(out)@ == old(out)@ + decimal(n as nat),
    decreases n,
{
    let ghost start = out@;
    if n >= 10 {
        push_wide(out, n / 10);
    }
    let c: char = (48 + (n % 10) as u8) as char;
    out.push(c);
    proof {
        assert(c == ('0' as nat + (n as nat) % 10) as char);
        assert(out@ =~= start + decimal(n as nat));
    }
}

/// Appends a text.
pub fn push_text(out: &mut String, text: &str)
    ensures
        final(out)@ == old(out)@ + text@,
{
    out.append(text);
}

/// The digits of a number are digits, and stand for it.
pub proof fn lemma_decimal(n: nat)
    ensures
        decimal(n).len() > 0,
        forall|i: int| 0 <= i < decimal(n).len() ==> digit(#[trigger] decimal(n)[i]),
        value_of(decimal(n)) == n,
    decreases n,
{
    let d = decimal(n);
    let last = ('0' as nat + n % 10) as char;
    assert(digit(last) && digit_value(last) == n % 10);
    if n < 10 {
        assert(d.drop_last() =~= Seq::<char>::empty());
        assert(d.last() == last);
        assert(value_of(d.drop_last()) == 0);
    } else {
        lemma_decimal(n / 10);
        assert(d.drop_last() =~= decimal(n / 10));
    }
}

/// A text of digits has nothing behind them.
pub proof fn lemma_digits_end(s: Seq<char>, from: int)
    requires
        0 <= from <= s.len(),
        forall|i: int| 0 <= i < s.len() ==> digit(#[trigger] s[i]),
    ensures
        digits_end(s, from) == s.len(),
    decreases s.len() - from,
{
    if from < s.len() {
        assert(digit(s[from]));
        lemma_digits_end(s, from + 1);
    }
}

/// A number below ten is one digit, and a larger one is its tenth and one digit more.
pub proof fn digits_are_tenths(n: nat, last: nat)
    requires
        last < 10,
    ensures
        n == 0 ==> decimal(last) == seq![(48 + last) as char],
        n > 0 ==> decimal(10 * n + last) == decimal(n).push((48 + last) as char),
{
    if n > 0 {
        assert((10 * n + last) / 10 == n && (10 * n + last) % 10 == last);
    }
}

/// A number is read from its digits, with or without a plus; and below zero with a minus.
pub proof fn an_integer_reads_back(n: nat)
    ensures
        integer(decimal(n)) == Some(n as int),
        integer(seq!['+'] + decimal(n)) == Some(n as int),
        integer(seq!['-'] + decimal(n)) == Some(-(n as int)),
        natural(decimal(n)) == Some(n),
        natural(seq!['+'] + decimal(n)) == Some(n),
        natural(seq!['-'] + decimal(n)) is None,
        integer(Seq::empty()) is None,
        natural(Seq::empty()) is None,
{
    let d = decimal(n);
    lemma_decimal(n);
    lemma_digits_end(d, 0);
    assert(digit(d[0]));
    assert(d.subrange(0, d.len() as int) =~= d);
    let plus = seq!['+'] + d;
    let minus = seq!['-'] + d;
    lemma_digits_behind(plus, 1);
    lemma_digits_behind(minus, 1);
    assert(plus.subrange(1, plus.len() as int) =~= d);
    assert(minus.subrange(1, minus.len() as int) =~= d);
    assert(!digit(minus[0]));
    assert(digits_end(minus, 0) == 0);
}

proof fn lemma_digits_behind(s: Seq<char>, from: int)
    requires
        1 <= from <= s.len(),
        forall|i: int| 1 <= i < s.len() ==> digit(#[trigger] s[i]),
    ensures
        digits_end(s, from) == s.len(),
    decreases s.len() - from,
{
    if from < s.len() {
        assert(digit(s[from]));
        lemma_digits_behind(s, from + 1);
    }
}

/// A search finds the first place at or behind where it starts, or the end where there is none.
pub proof fn a_search_finds_the_first(s: Seq<char>, c: char, from: int)
    requires
        0 <= from <= s.len(),
    ensures
        from <= find_from(s, c, from) <= s.len(),
        find_from(s, c, from) < s.len() ==> s[find_from(s, c, from)] == c,
        forall|i: int| from <= i < find_from(s, c, from) ==> s[i] != c,
    decreases s.len() - from,
{
    if from < s.len() && s[from] != c {
        a_search_finds_the_first(s, c, from + 1);
    }
}

/// The place behind the last of a character: it stands right before it, and not behind.
pub proof fn a_search_finds_the_last(s: Seq<char>, c: char, to: int)
    requires
        0 <= to <= s.len(),
    ensures
        0 <= after_last(s, c, to) <= to,
        after_last(s, c, to) > 0 ==> s[after_last(s, c, to) - 1] == c,
        forall|i: int| after_last(s, c, to) <= i < to ==> s[i] != c,
    decreases to,
{
    if to > 0 && s[to - 1] != c {
        a_search_finds_the_last(s, c, to - 1);
    }
}

/// A text contains a word exactly where the word stands somewhere in it.
pub proof fn where_a_word_stands(s: Seq<char>, word: Seq<char>, from: int)
    requires
        0 <= from,
    ensures
        find_text_from(s, word, from) < s.len() <==> exists|at: int|
            from <= at < s.len() && #[trigger] stands_at(s, word, at),
        find_text_from(s, word, from) < s.len() ==> stands_at(s, word, find_text_from(s, word, from)),
        forall|at: int|
            from <= at < find_text_from(s, word, from) && at < s.len() ==> !#[trigger] stands_at(s, word, at),
    decreases s.len() - from,
{
    if from < s.len() && !stands_at(s, word, from) {
        where_a_word_stands(s, word, from + 1);
        if exists|at: int| from <= at < s.len() && #[trigger] stands_at(s, word, at) {
            let at = choose|at: int| from <= at < s.len() && #[trigger] stands_at(s, word, at);
            assert(from + 1 <= at);
        }
    }
}

/// A capital is lowered by thirty-two, and everything else stays; twice lowered is once lowered.
pub proof fn only_capitals_are_lowered(c: char, s: Seq<char>)
    ensures
        'A' <= c && c <= 'Z' ==> ascii_lower(c) as int == c as int + 32,
        !('A' <= c && c <= 'Z') ==> ascii_lower(c) == c,
        ascii_lowered(s).len() == s.len(),
        ascii_lowered(ascii_lowered(s)) == ascii_lowered(s),
{
    assert(ascii_lowered(ascii_lowered(s)) =~= ascii_lowered(s));
}

proof fn lemma_trim_start(s: Seq<char>, from: int)
    requires
        0 <= from <= s.len(),
    ensures
        from <= skip_white(s, from) <= s.len(),
        forall|i: int| from <= i < skip_white(s, from) ==> white(s[i]),
        skip_white(s, from) < s.len() ==> !white(s[skip_white(s, from)]),
    decreases s.len() - from,
{
    if from < s.len() && white(s[from]) {
        lemma_trim_start(s, from + 1);
    }
}

proof fn lemma_trim_back(s: Seq<char>, from: int, to: int)
    requires
        0 <= from <= to <= s.len(),
    ensures
        from <= trim_end(s, from, to) <= to,
        forall|i: int| trim_end(s, from, to) <= i < to ==> white(s[i]),
        from < trim_end(s, from, to) ==> !white(s[trim_end(s, from, to) - 1]),
    decreases to - from,
{
    if from < to && white(s[to - 1]) {
        lemma_trim_back(s, from, to - 1);
    }
}

/// Trimming takes away the white space at both ends, all of it and nothing else.
pub proof fn trimming_takes_the_white_space(s: Seq<char>)
    ensures
        exists|from: int, to: int|
            #![trigger s.subrange(from, to)]
            {
                &&& 0 <= from <= to <= s.len()
                &&& trimmed(s) == s.subrange(from, to)
                &&& forall|i: int| 0 <= i < from || to <= i < s.len() ==> white(s[i])
            },
        trimmed(s).len() > 0 ==> !white(trimmed(s)[0]) && !white(trimmed(s).last()),
{
    lemma_trim_start(s, 0);
    let from = skip_white(s, 0);
    lemma_trim_back(s, from, s.len() as int);
    let to = trim_end(s, from, s.len() as int);
    assert(trimmed(s) == s.subrange(from, to));
}

/// What is white space: tab to carriage return, the space, and those that other scripts have.
pub proof fn what_is_white_space(c: char)
    ensures
        (c as int) < 0x80 ==> (white(c) <==> 9 <= c as int <= 13 || c as int == 32),
        (c as int) >= 0x80 ==> (white(c) <==> c as int == 0x85 || c as int == 0xA0 || c as int == 0x1680 || (
        0x2000 <= c as int <= 0x200A) || c as int == 0x2028 || c as int == 0x2029 || c as int == 0x202F
            || c as int == 0x205F || c as int == 0x3000),
{
}

proof fn lemma_word_end(s: Seq<char>, from: int, end: int)
    requires
        0 <= from <= end <= s.len(),
        forall|i: int| from <= i < end ==> !white(#[trigger] s[i]),
        end < s.len() ==> white(s[end]),
    ensures
        word_end(s, from) == end,
    decreases end - from,
{
    if from < end {
        assert(!white(s[from]));
        lemma_word_end(s, from + 1, end);
    }
}

proof fn lemma_word_bounds(s: Seq<char>, from: int)
    requires
        0 <= from <= s.len(),
    ensures
        from <= word_end(s, from) <= s.len(),
        from < s.len() && !white(s[from]) ==> from < word_end(s, from),
    decreases s.len() - from,
{
    if from < s.len() && !white(s[from]) {
        lemma_word_bounds(s, from + 1);
    }
}

/// The words of a text are the runs of other characters between its white space, in order: white
/// space at the front says nothing, and a run that white space or the end closes is one word.
pub proof fn white_space_parts_words(s: Seq<char>, from: int, end: int)
    requires
        0 <= from <= s.len(),
    ensures
        from < s.len() && white(s[from]) ==> words_from(s, from) == words_from(s, from + 1),
        from < end <= s.len() && (forall|i: int| from <= i < end ==> !white(#[trigger] s[i])) && (end < s.len()
            ==> white(s[end])) ==> words_from(s, from) == seq![s.subrange(from, end)] + words_from(s, end),
        from == s.len() ==> words_from(s, from).len() == 0,
{
    if from < s.len() && white(s[from]) {
        lemma_trim_start(s, from + 1);
        let start = skip_white(s, from + 1);
        lemma_word_bounds(s, start);
        assert(skip_white(s, from) == start);
    }
    if from < end <= s.len() && (forall|i: int| from <= i < end ==> !white(#[trigger] s[i])) && (end < s.len()
        ==> white(s[end])) {
        assert(!white(s[from]));
        lemma_word_end(s, from, end);
    }
}

proof fn lemma_find_at(s: Seq<char>, c: char, from: int, at: int)
    requires
        0 <= from <= at <= s.len(),
        forall|i: int| from <= i < at ==> #[trigger] s[i] != c,
        at < s.len() ==> s[at] == c,
    ensures
        find_from(s, c, from) == at,
    decreases at - from,
{
    if from < at {
        assert(s[from] != c);
        lemma_find_at(s, c, from + 1, at);
    }
}

/// A line ends at a line feed, and the next one begins behind it; the last needs none. A carriage
/// return before the line feed belongs to neither.
pub proof fn line_feeds_part_lines(s: Seq<char>, from: int, end: int)
    requires
        0 <= from <= end <= s.len(),
        forall|i: int| from <= i < end ==> #[trigger] s[i] != '\n',
        end < s.len() ==> s[end] == '\n',
    ensures
        end < s.len() ==> lines_from(s, from) == seq![without_return(s.subrange(from, end))] + lines_from(
            s,
            end + 1,
        ),
        from < end == s.len() ==> lines_from(s, from) == seq![s.subrange(from, end)],
        from == s.len() ==> lines_from(s, from).len() == 0,
{
    lemma_find_at(s, '\n', from, end);
}

/// Only a carriage return at the end is taken off.
pub proof fn a_carriage_return_is_taken_off(line: Seq<char>)
    ensures
        without_return(line.push('\r')) == line,
        line.len() == 0 || line.last() != '\r' ==> without_return(line) == line,
{
    assert(line.push('\r').drop_last() =~= line);
}

} // verus!
