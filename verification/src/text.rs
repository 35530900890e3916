//! text: strings as sequences of characters, and numbers written in decimal.

use vstd::prelude::*;
use vstd::utf8::encode_utf8;

verus! {

/// `String::push` appends one character at the end of the string.
pub assume_specification[ String::push ](s: &mut String, c: char)
    ensures
        final(s)@ == old(s)@.push(c),
;

/// The character of a decimal digit.
pub open spec fn digit(d: nat) -> char {
    ((48 + d) as u8) as char
}

/// `n` written in decimal, without leading zeros.
pub open spec fn dec(n: nat) -> Seq<char>
    decreases n,
{
    if n < 10 {
        seq![digit(n)]
    } else {
        dec(n / 10).push(digit(n % 10))
    }
}

/// `n` written in decimal, with a minus sign in front where it is negative.
pub open spec fn dec_int(n: int) -> Seq<char> {
    if n < 0 {
        seq!['-'] + dec((-n) as nat)
    } else {
        dec(n as nat)
    }
}

/// Append `n` in decimal.
pub fn push_dec(s: &mut String, n: u64)
    ensures
        final(s)@ == old(s)@ + dec(n as nat),
    decreases n,
{
    if n >= 10 {
        push_dec(s, n / 10);
    }
    let ghost before = s@;
    s.push((48u8 + (n % 10) as u8) as char);
    proof {
        if n >= 10 {
            assert(s@ =~= old(s)@ + dec((n / 10) as nat).push(digit((n % 10) as nat)));
        } else {
            assert(s@ =~= old(s)@ + dec(n as nat));
        }
    }
}

/// Append `n` in decimal, with its sign where it is negative.
pub fn push_dec_int(s: &mut String, n: i64)
    ensures
        final(s)@ == old(s)@ + dec_int(n as int),
{
    if n < 0 {
        s.push('-');
        let magnitude: u64 = (-(n as i128)) as u64;
        push_dec(s, magnitude);
        assert(s@ =~= old(s)@ + dec_int(n as int));
    } else {
        push_dec(s, n as u64);
    }
}

/// The characters of a string.
pub fn chars_of(s: &str) -> (v: Vec<char>)
    ensures
        v@ == s@,
{
    let mut v: Vec<char> = Vec::new();
    for c in it: s.chars()
        invariant
            v@ =~= it.seq().take(it.index() as int),
            it.seq() == s@,
    {
        v.push(c);
    }
    assert(v@ =~= s@);
    v
}

/// The string made of the given characters.
pub fn string_of(v: &[char]) -> (s: String)
    ensures
        s@ == v@,
{
    let mut s: String = String::new();
    let mut i: usize = 0;
    while i < v.len()
        invariant
            i <= v@.len(),
            s@ =~= v@.take(i as int),
        decreases v@.len() - i,
    {
        s.push(v[i]);
        i += 1;
    }
    assert(s@ =~= v@);
    s
}

/// Whether `v` is the given text.
pub fn is_text(v: &[char], t: &str) -> (b: bool)
    ensures
        b == (v@ == t@),
{
    let w: Vec<char> = chars_of(t);
    if v.len() != w.len() {
        return false;
    }
    let mut i: usize = 0;
    while i < v.len()
        invariant
            v@.len() == w@.len(),
            w@ == t@,
            i <= v@.len(),
            forall|j: int| 0 <= j < i ==> v@[j] == w@[j],
        decreases v@.len() - i,
    {
        if v[i] != w[i] {
            return false;
        }
        i += 1;
    }
    assert(v@ =~= w@);
    true
}

/// A set of characters that separates or pads.
#[derive(Debug, Clone, Copy, PartialEq, Eq, Structural)]
pub enum CharClass {
    /// The characters with Unicode's White_Space property.
    Whitespace,
    /// Space, tab, carriage return and line feed.
    Boundary,
    /// The double quote.
    Quote,
}

impl CharClass {
    pub open spec fn has(self, c: char) -> bool {
        match self {
            CharClass::Whitespace => is_white(c),
            CharClass::Boundary => c == ' ' || c == '\t' || c == '\r' || c == '\n',
            CharClass::Quote => c == '"',
        }
    }

    pub fn contains(self, c: char) -> (b: bool)
        ensures
            b == self.has(c),
    {
        match self {
            CharClass::Whitespace => is_whitespace(c),
            CharClass::Boundary => c == ' ' || c == '\t' || c == '\r' || c == '\n',
            CharClass::Quote => c == '"',
        }
    }
}

/// The characters with Unicode's White_Space property.
pub open spec fn is_white(c: char) -> bool {
    let n = c as u32;
    ||| 0x09 <= n <= 0x0d
    ||| n == 0x20
    ||| n == 0x85
    ||| n == 0xa0
    ||| n == 0x1680
    ||| 0x2000 <= n <= 0x200a
    ||| n == 0x2028
    ||| n == 0x2029
    ||| n == 0x202f
    ||| n == 0x205f
    ||| n == 0x3000
}

pub fn is_whitespace(c: char) -> (b: bool)
    ensures
        b == is_white(c),
{
    let n: u32 = c as u32;
    (0x09 <= n && n <= 0x0d) || n == 0x20 || n == 0x85 || n == 0xa0 || n == 0x1680 || (0x2000 <= n
        && n <= 0x200a) || n == 0x2028 || n == 0x2029 || n == 0x202f || n == 0x205f || n == 0x3000
}

/// `s` without the characters of a class at its front.
pub open spec fn trim_front(s: Seq<char>, class: CharClass) -> Seq<char>
    decreases s.len(),
{
    if s.len() > 0 && class.has(s[0]) {
        trim_front(s.drop_first(), class)
    } else {
        s
    }
}

/// `s` without the characters of a class at its back.
pub open spec fn trim_back(s: Seq<char>, class: CharClass) -> Seq<char>
    decreases s.len(),
{
    if s.len() > 0 && class.has(s.last()) {
        trim_back(s.drop_last(), class)
    } else {
        s
    }
}

/// `s` without the characters of a class at either end.
pub open spec fn trimmed(s: Seq<char>, class: CharClass) -> Seq<char> {
    trim_back(trim_front(s, class), class)
}

/// The characters without those of a class at their front.
pub fn trim_start(v: &[char], class: CharClass) -> (t: &[char])
    ensures
        t@ == trim_front(v@, class),
{
    let mut i: usize = 0;
    assert(v@.skip(0) =~= v@);
    while i < v.len() && class.contains(v[i])
        invariant
            i <= v@.len(),
            trim_front(v@, class) == trim_front(v@.skip(i as int), class),
        decreases v@.len() - i,
    {
        assert(v@.skip(i as int).drop_first() =~= v@.skip(i + 1));
        i += 1;
    }
    let t: &[char] = vstd::slice::slice_subrange(v, i, v.len());
    assert(t@ =~= v@.skip(i as int));
    t
}

/// The characters without those of a class at either end.
pub fn trim(v: &[char], class: CharClass) -> (t: &[char])
    ensures
        t@ == trimmed(v@, class),
{
    let f: &[char] = trim_start(v, class);
    let mut j: usize = f.len();
    assert(f@.take(j as int) =~= f@);
    while j > 0 && class.contains(f[j - 1])
        invariant
            j <= f@.len(),
            trim_back(f@, class) == trim_back(f@.take(j as int), class),
        decreases j,
    {
        assert(f@.take(j as int).drop_last() =~= f@.take(j - 1));
        j -= 1;
    }
    let t: &[char] = vstd::slice::slice_subrange(f, 0, j);
    assert(t@ =~= f@.take(j as int));
    t
}

/// The lower-case form of an ASCII letter; any other character as it is.
pub open spec fn lower(c: char) -> char {
    if 'A' <= c && c <= 'Z' {
        ((c as u32 + 32) as u8) as char
    } else {
        c
    }
}

/// A text with its ASCII letters in lower case.
pub open spec fn lowered(s: Seq<char>) -> Seq<char> {
    s.map_values(|c: char| lower(c))
}

pub fn to_lower(v: &[char]) -> (w: Vec<char>)
    ensures
        w@ == lowered(v@),
{
    let mut w: Vec<char> = Vec::new();
    let mut i: usize = 0;
    while i < v.len()
        invariant
            i <= v@.len(),
            w@ =~= lowered(v@).take(i as int),
        decreases v@.len() - i,
    {
        let c: char = v[i];
        if 'A' <= c && c <= 'Z' {
            w.push(((c as u32 + 32) as u8) as char);
        } else {
            w.push(c);
        }
        i += 1;
    }
    assert(w@ =~= lowered(v@));
    w
}

/// `n` written in decimal, as ASCII bytes.
pub open spec fn dec_bytes(n: nat) -> Seq<u8>
    decreases n,
{
    if n < 10 {
        seq![(48 + n) as u8]
    } else {
        dec_bytes(n / 10).push((48 + n % 10) as u8)
    }
}

/// Append `n` in decimal, as ASCII bytes.
pub fn push_dec_bytes(v: &mut Vec<u8>, n: u32)
    ensures
        final(v)@ == old(v)@ + dec_bytes(n as nat),
    decreases n,
{
    if n >= 10 {
        push_dec_bytes(v, n / 10);
    }
    v.push(48u8 + (n % 10) as u8);
    assert(v@ =~= old(v)@ + dec_bytes(n as nat));
}

/// The UTF-16 units of a character.
pub open spec fn char_units(c: char) -> Seq<u16> {
    let n = c as u32 as int;
    if n < 0x10000 {
        seq![n as u16]
    } else {
        seq![
            (0xd800 + (n - 0x10000) / 0x400) as u16,
            (0xdc00 + (n - 0x10000) % 0x400) as u16,
        ]
    }
}

/// The UTF-16 units of a text.
pub open spec fn units(s: Seq<char>) -> Seq<u16>
    decreases s.len(),
{
    if s.len() == 0 {
        Seq::empty()
    } else {
        units(s.drop_last()) + char_units(s.last())
    }
}

/// A text in UTF-16, with a zero behind it.
pub fn to_wide(s: &str) -> (w: Vec<u16>)
    ensures
        w@ == units(s@).push(0),
{
    let v: Vec<char> = chars_of(s);
    let mut w: Vec<u16> = Vec::new();
    let mut i: usize = 0;
    assert(v@.take(0) =~= Seq::<char>::empty());
    while i < v.len()
        invariant
            i <= v@.len(),
            w@ == units(v@.take(i as int)),
        decreases v@.len() - i,
    {
        let n: u32 = v[i] as u32;
        assert(v@.take(i + 1).drop_last() =~= v@.take(i as int));
        if n < 0x10000 {
            w.push(n as u16);
        } else {
            w.push((0xd800 + (n - 0x10000) / 0x400) as u16);
            w.push((0xdc00 + (n - 0x10000) % 0x400) as u16);
        }
        assert(w@ =~= units(v@.take(i + 1)));
        i += 1;
    }
    assert(v@.take(i as int) =~= s@);
    w.push(0);
    w
}

/// The upper-case character of a hexadecimal digit.
pub open spec fn hex_digit(d: nat) -> char {
    if d < 10 {
        ((48 + d) as u8) as char
    } else {
        ((55 + d) as u8) as char
    }
}

/// `n` in upper-case hexadecimal, with leading zeros up to the given width.
pub open spec fn hex(n: nat, width: nat) -> Seq<char>
    decreases n + width,
{
    if n < 16 && width <= 1 {
        seq![hex_digit(n)]
    } else {
        hex(
            n / 16,
            if width == 0 {
                0
            } else {
                (width - 1) as nat
            },
        ).push(hex_digit(n % 16))
    }
}

/// Append `n` in upper-case hexadecimal, with leading zeros up to the given width.
pub fn push_hex(s: &mut String, n: u32, width: u32)
    ensures
        final(s)@ == old(s)@ + hex(n as nat, width as nat),
    decreases n + width,
{
    if n >= 16 || width > 1 {
        let narrower: u32 = if width == 0 {
            0
        } else {
            width - 1
        };
        push_hex(s, n / 16, narrower);
    }
    let d: u8 = (n % 16) as u8;
    let c: char = if d < 10 {
        (48 + d) as char
    } else {
        (55 + d) as char
    };
    s.push(c);
    assert(s@ =~= old(s)@ + hex(n as nat, width as nat));
}

/// Whether a text begins with another.
pub open spec fn begins_with(s: Seq<char>, t: Seq<char>) -> bool {
    t.len() <= s.len() && s.take(t.len() as int) == t
}

/// Whether `v` begins with the given text.
pub fn starts_with(v: &[char], t: &str) -> (b: bool)
    ensures
        b == begins_with(v@, t@),
{
    let w: Vec<char> = chars_of(t);
    if v.len() < w.len() {
        return false;
    }
    let front: &[char] = vstd::slice::slice_subrange(v, 0, w.len());
    assert(front@ =~= v@.take(t@.len() as int));
    is_text(front, t)
}

/// Whether a string is the given text.
pub fn is_string(s: &str, t: &str) -> (b: bool)
    ensures
        b == (s@ == t@),
{
    let v: Vec<char> = chars_of(s);
    is_text(v.as_slice(), t)
}

/// Whether a text stands in another at a position.
pub open spec fn stands_at(s: Seq<char>, t: Seq<char>, i: int) -> bool {
    0 <= i && i + t.len() <= s.len() && s.subrange(i, i + t.len()) == t
}

/// Whether a text stands anywhere in another.
pub open spec fn holds(s: Seq<char>, t: Seq<char>) -> bool {
    exists|i: int| stands_at(s, t, i)
}

/// Whether the given text stands anywhere in `v`.
pub fn contains_text(v: &[char], t: &str) -> (b: bool)
    ensures
        b == holds(v@, t@),
{
    let w: Vec<char> = chars_of(t);
    let mut i: usize = 0;
    if v.len() < w.len() {
        return false;
    }
    let total: usize = v.len();
    let last: usize = total - w.len();
    while i <= last
        invariant
            w@ == t@,
            total == v@.len(),
            last == v@.len() - w@.len(),
            i <= last + 1,
            forall|j: int| 0 <= j < i ==> !stands_at(v@, t@, j),
        decreases last + 1 - i,
    {
        let here: &[char] = vstd::slice::slice_subrange(v, i, i + w.len());
        if is_text(here, t) {
            assert(stands_at(v@, t@, i as int));
            return true;
        }
        if i == last {
            assert forall|j: int| !stands_at(v@, t@, j) by {}
            return false;
        }
        i += 1;
    }
    false
}

/// Where the line that goes on at `i` ends.
pub open spec fn line_end(s: Seq<char>, i: int) -> int
    decreases s.len() - i,
{
    if i < s.len() && s[i] != '\n' {
        line_end(s, i + 1)
    } else {
        i
    }
}

/// A line without the carriage return before its line feed.
pub open spec fn without_return(line: Seq<char>) -> Seq<char> {
    if line.len() > 0 && line.last() == '\r' {
        line.drop_last()
    } else {
        line
    }
}

/// The lines of a text from position `i` on. A line ends in a line feed, with or without a
/// carriage return before it; the last one may have no end.
pub open spec fn lines_from(s: Seq<char>, i: int) -> Seq<Seq<char>>
    decreases s.len() - i,
    via lines_decrease
{
    if i >= s.len() {
        Seq::empty()
    } else {
        let end = line_end(s, i);
        if end < s.len() {
            seq![without_return(s.subrange(i, end))] + lines_from(s, end + 1)
        } else {
            seq![s.subrange(i, s.len() as int)]
        }
    }
}

#[via_fn]
proof fn lines_decrease(s: Seq<char>, i: int) {
    lemma_line_end(s, i);
}

proof fn lemma_line_end(s: Seq<char>, i: int)
    ensures
        line_end(s, i) >= i,
        i <= s.len() ==> line_end(s, i) <= s.len(),
    decreases s.len() - i,
{
    if i < s.len() && s[i] != '\n' {
        lemma_line_end(s, i + 1);
    }
}

/// The lines of a text.
pub open spec fn lines(s: Seq<char>) -> Seq<Seq<char>> {
    lines_from(s, 0)
}

/// The models of a list of character lists.
pub open spec fn char_lists(v: Seq<Vec<char>>) -> Seq<Seq<char>> {
    v.map_values(|l: Vec<char>| l@)
}

pub fn split_lines(v: &[char]) -> (out: Vec<Vec<char>>)
    ensures
        char_lists(out@) == lines(v@),
{
    let mut out: Vec<Vec<char>> = Vec::new();
    let mut i: usize = 0;
    assert(char_lists(out@) + lines_from(v@, 0) =~= lines(v@));
    while i < v.len()
        invariant
            i <= v@.len(),
            char_lists(out@) + lines_from(v@, i as int) == lines(v@),
        decreases v@.len() - i,
    {
        let mut end: usize = i;
        while end < v.len() && v[end] != '\n'
            invariant
                i <= end <= v@.len(),
                line_end(v@, i as int) == line_end(v@, end as int),
            decreases v@.len() - end,
        {
            end += 1;
        }
        let ghost before = char_lists(out@);
        if end < v.len() {
            let stop: usize = if end > i && v[end - 1] == '\r' {
                end - 1
            } else {
                end
            };
            let line: &[char] = vstd::slice::slice_subrange(v, i, stop);
            assert(line@ =~= without_return(v@.subrange(i as int, end as int)));
            out.push(vstd::slice::slice_to_vec(line));
            proof {
                assert(char_lists(out@) =~= before.push(line@));
                assert(before + (seq![line@] + lines_from(v@, end + 1)) =~= char_lists(out@)
                    + lines_from(v@, end + 1));
            }
            i = end + 1;
        } else {
            let line: &[char] = vstd::slice::slice_subrange(v, i, v.len());
            out.push(vstd::slice::slice_to_vec(line));
            proof {
                assert(char_lists(out@) =~= before.push(line@));
                assert(lines_from(v@, v@.len() as int) =~= Seq::<Seq<char>>::empty());
                assert(before + seq![line@] =~= char_lists(out@) + lines_from(
                    v@,
                    v@.len() as int,
                ));
            }
            i = v.len();
        }
    }
    assert(char_lists(out@) =~= lines(v@));
    out
}

/// Where the word that goes on at `i` ends.
pub open spec fn word_end(s: Seq<char>, i: int) -> int
    decreases s.len() - i,
{
    if i < s.len() && !is_white(s[i]) {
        word_end(s, i + 1)
    } else {
        i
    }
}

/// The words of a text from position `i` on: its runs of characters that are no whitespace.
pub open spec fn words_from(s: Seq<char>, i: int) -> Seq<Seq<char>>
    decreases s.len() - i,
    via words_decrease
{
    if i >= s.len() {
        Seq::empty()
    } else if is_white(s[i]) {
        words_from(s, i + 1)
    } else {
        seq![s.subrange(i, word_end(s, i + 1))] + words_from(s, word_end(s, i + 1))
    }
}

#[via_fn]
proof fn words_decrease(s: Seq<char>, i: int) {
    lemma_word_end(s, i + 1);
}

proof fn lemma_word_end(s: Seq<char>, i: int)
    ensures
        word_end(s, i) >= i,
        i <= s.len() ==> word_end(s, i) <= s.len(),
    decreases s.len() - i,
{
    if i < s.len() && !is_white(s[i]) {
        lemma_word_end(s, i + 1);
    }
}

/// The words of a text.
pub open spec fn words(s: Seq<char>) -> Seq<Seq<char>> {
    words_from(s, 0)
}

pub fn split_words(v: &[char]) -> (out: Vec<Vec<char>>)
    ensures
        char_lists(out@) == words(v@),
{
    let mut out: Vec<Vec<char>> = Vec::new();
    let mut i: usize = 0;
    assert(char_lists(out@) + words_from(v@, 0) =~= words(v@));
    while i < v.len()
        invariant
            i <= v@.len(),
            char_lists(out@) + words_from(v@, i as int) == words(v@),
        decreases v@.len() - i,
    {
        if is_whitespace(v[i]) {
            i += 1;
        } else {
            let mut end: usize = i + 1;
            while end < v.len() && !is_whitespace(v[end])
                invariant
                    i < end <= v@.len(),
                    word_end(v@, i + 1) == word_end(v@, end as int),
                decreases v@.len() - end,
            {
                end += 1;
            }
            let ghost before = char_lists(out@);
            let word: &[char] = vstd::slice::slice_subrange(v, i, end);
            out.push(vstd::slice::slice_to_vec(word));
            proof {
                assert(char_lists(out@) =~= before.push(word@));
                assert(before + (seq![word@] + words_from(v@, end as int)) =~= char_lists(out@)
                    + words_from(v@, end as int));
            }
            i = end;
        }
    }
    assert(char_lists(out@) =~= words(v@));
    out
}

/// Whether every character is a decimal digit.
pub open spec fn all_digits(s: Seq<char>) -> bool {
    forall|i: int| 0 <= i < s.len() ==> '0' <= (#[trigger] s[i]) <= '9'
}

/// The number that decimal digits stand for.
pub open spec fn digits_value(s: Seq<char>) -> nat
    decreases s.len(),
{
    if s.len() == 0 {
        0
    } else {
        (digits_value(s.drop_last()) * 10 + (s.last() as u32 - 48)) as nat
    }
}

/// A text without the plus sign in front of it.
pub open spec fn without_plus(s: Seq<char>) -> Seq<char> {
    if s.len() > 0 && s[0] == '+' {
        s.skip(1)
    } else {
        s
    }
}

/// The number that a text stands for: decimal digits, with or without a plus sign in front, and
/// a value of at most `max`.
pub open spec fn number_in(s: Seq<char>, max: nat) -> Option<nat> {
    let d = without_plus(s);
    if d.len() > 0 && all_digits(d) && digits_value(d) <= max {
        Some(digits_value(d))
    } else {
        None
    }
}

proof fn lemma_prefix_value(s: Seq<char>, n: int)
    requires
        all_digits(s),
        0 <= n <= s.len(),
    ensures
        digits_value(s.take(n)) <= digits_value(s),
    decreases s.len() - n,
{
    if n < s.len() {
        let more = s.take(n + 1);
        assert(more.drop_last() =~= s.take(n));
        assert('0' <= s[n] <= '9');
        assert(digits_value(more) == digits_value(s.take(n)) * 10 + (s[n] as u32 - 48));
        lemma_prefix_value(s, n + 1);
    } else {
        assert(s.take(n) =~= s);
    }
}

/// Read a decimal number of at most `max`.
pub fn parse_number(v: &[char], max: u64) -> (r: Option<u64>)
    ensures
        match number_in(v@, max as nat) {
            Some(n) => r == Some(n as u64),
            None => r is None,
        },
        r is Some ==> r->0 <= max,
{
    let start: usize = if v.len() > 0 && v[0] == '+' {
        1
    } else {
        0
    };
    let d: &[char] = vstd::slice::slice_subrange(v, start, v.len());
    assert(d@ =~= without_plus(v@));
    if d.len() == 0 {
        return None;
    }
    let mut n: u64 = 0;
    let mut i: usize = 0;
    assert(d@.take(0) =~= Seq::<char>::empty());
    while i < d.len()
        invariant
            d@ == without_plus(v@),
            d@.len() > 0,
            i <= d@.len(),
            forall|j: int| 0 <= j < i ==> '0' <= (#[trigger] d@[j]) <= '9',
            n == digits_value(d@.take(i as int)),
            n <= max,
        decreases d@.len() - i,
    {
        let c: char = d[i];
        if c < '0' || c > '9' {
            assert(!all_digits(d@));
            return None;
        }
        let wide: u128 = n as u128 * 10 + (c as u32 - 48) as u128;
        proof {
            let more = d@.take(i + 1);
            assert(more.drop_last() =~= d@.take(i as int));
            assert(wide == digits_value(more));
            if all_digits(d@) {
                lemma_prefix_value(d@, i + 1);
            }
        }
        if wide > max as u128 {
            return None;
        }
        n = wide as u64;
        i += 1;
    }
    assert(d@.take(i as int) =~= d@);
    assert(all_digits(d@));
    Some(n)
}

/// The text that std's `Debug` makes of a string: quoted and escaped.
pub uninterp spec fn debug_text(s: Seq<char>) -> Seq<char>;

/// `format!` with `{:?}` on a string.
#[verifier::external_body]
pub(crate) fn debug_string(s: &str) -> (d: String)
    ensures
        d@ == debug_text(s@),
{
    format!("{:?}", s)
}

/// The text that std's `String::from_utf8_lossy` makes of bytes.
pub uninterp spec fn utf8_lossy_text(b: Seq<u8>) -> Seq<char>;

/// `String::from_utf8_lossy` on bytes. Those of a text give that text; what is made of other bytes
/// has only a name.
#[verifier::external_body]
pub(crate) fn utf8_lossy(b: &[u8]) -> (s: String)
    ensures
        s@ == utf8_lossy_text(b@),
        forall|t: Seq<char>| b@ == #[trigger] encode_utf8(t) ==> s@ == t,
{
    String::from_utf8_lossy(b).into_owned()
}

/// The text that std's `String::from_utf16_lossy` makes of units.
pub uninterp spec fn utf16_lossy_text(u: Seq<u16>) -> Seq<char>;

/// `String::from_utf16_lossy` on units. Those of a text give that text; what is made of other
/// units has only a name.
#[verifier::external_body]
pub(crate) fn utf16_lossy(u: &[u16]) -> (s: String)
    ensures
        s@ == utf16_lossy_text(u@),
        forall|t: Seq<char>| u@ == #[trigger] units(t) ==> s@ == t,
{
    String::from_utf16_lossy(u)
}

// Laws.

/// A number that is written reads back as itself.
pub proof fn law_decimal_round_trip(n: nat, max: nat)
    requires
        n <= max,
    ensures
        number_in(dec(n), max) == Some(n),
{
    lemma_dec_digits(n);
    assert(without_plus(dec(n)) == dec(n));
}

proof fn lemma_dec_digits(n: nat)
    ensures
        dec(n).len() > 0,
        all_digits(dec(n)),
        digits_value(dec(n)) == n,
    decreases n,
{
    if n < 10 {
        assert(dec(n).drop_last() =~= Seq::<char>::empty());
        assert(dec(n).last() == digit(n));
        assert(digits_value(Seq::<char>::empty()) == 0);
        assert(digit(n) as u32 - 48 == n);
    } else {
        lemma_dec_digits(n / 10);
        assert(dec(n).drop_last() =~= dec(n / 10));
        assert(dec(n).last() == digit(n % 10));
        assert(digit(n % 10) as u32 - 48 == n % 10);
    }
}

/// A text without a line feed is one line, unless it is empty.
pub proof fn law_one_line(s: Seq<char>)
    requires
        s.len() > 0,
        forall|i: int| 0 <= i < s.len() ==> (#[trigger] s[i]) != '\n',
    ensures
        lines(s) == seq![s],
{
    lemma_no_line_end(s, 0);
    assert(s.subrange(0, s.len() as int) =~= s);
}

proof fn lemma_no_line_end(s: Seq<char>, i: int)
    requires
        0 <= i <= s.len(),
        forall|j: int| i <= j < s.len() ==> (#[trigger] s[j]) != '\n',
    ensures
        line_end(s, i) == s.len(),
    decreases s.len() - i,
{
    if i < s.len() {
        assert(s[i] != '\n');
        lemma_no_line_end(s, i + 1);
    }
}

/// A word in front of a space is the first of the words.
pub proof fn law_first_word(w: Seq<char>, rest: Seq<char>)
    requires
        w.len() > 0,
        forall|i: int| 0 <= i < w.len() ==> !is_white(#[trigger] w[i]),
    ensures
        words(w + seq![' '] + rest) == seq![w] + words(rest),
        words(w) == seq![w],
{
    let front = w + seq![' '];
    let s = front + rest;
    assert(!is_white(w[0]));
    assert forall|j: int| 0 <= j < w.len() implies !is_white(#[trigger] s[j]) by {
        assert(s[j] == w[j]);
    }
    assert(s[w.len() as int] == ' ');
    assert(s[0] == w[0]);
    lemma_word_end_is(s, 1, w.len() as int);
    assert(s.subrange(0, w.len() as int) =~= w);
    assert(words_from(s, w.len() as int) == words_from(s, w.len() as int + 1));
    lemma_words_shift(front, rest, 0);
    assert(s =~= front + rest);
    lemma_word_end_is(w, 1, w.len() as int);
    assert(w.subrange(0, w.len() as int) =~= w);
    assert(words_from(w, w.len() as int) =~= Seq::<Seq<char>>::empty());
    assert(seq![w] + Seq::<Seq<char>>::empty() =~= seq![w]);
}

proof fn lemma_word_end_is(s: Seq<char>, i: int, n: int)
    requires
        0 <= i <= n <= s.len(),
        forall|j: int| i <= j < n ==> !is_white(#[trigger] s[j]),
        n < s.len() ==> is_white(s[n]),
    ensures
        word_end(s, i) == n,
    decreases n - i,
{
    if i < n {
        assert(!is_white(s[i]));
        lemma_word_end_is(s, i + 1, n);
    }
}

proof fn lemma_word_end_shift(p: Seq<char>, s: Seq<char>, i: int)
    requires
        0 <= i,
    ensures
        word_end(p + s, p.len() + i) == p.len() + word_end(s, i),
    decreases s.len() - i,
{
    if i < s.len() {
        assert((p + s)[p.len() + i] == s[i]);
        if !is_white(s[i]) {
            lemma_word_end_shift(p, s, i + 1);
        }
    }
}

proof fn lemma_words_shift(p: Seq<char>, s: Seq<char>, i: int)
    requires
        0 <= i,
    ensures
        words_from(p + s, p.len() + i) == words_from(s, i),
    decreases s.len() - i,
{
    if i < s.len() {
        assert((p + s)[p.len() + i] == s[i]);
        if is_white(s[i]) {
            lemma_words_shift(p, s, i + 1);
        } else {
            lemma_word_end(s, i + 1);
            lemma_word_end_shift(p, s, i + 1);
            let end = word_end(s, i + 1);
            lemma_words_shift(p, s, end);
            assert((p + s).subrange(p.len() + i, p.len() + end) =~= s.subrange(i, end));
        }
    }
}

/// A line that is put behind whole lines is the last of them.
pub proof fn law_line_behind_lines(text: Seq<char>, line: Seq<char>)
    requires
        text.len() > 0 ==> text.last() == '\n',
        forall|i: int| 0 <= i < line.len() ==> (#[trigger] line[i]) != '\n',
        line.len() > 0 ==> line.last() != '\r',
    ensures
        lines(text + line + seq!['\n']) == lines(text).push(line),
{
    lemma_line_behind(text, line, 0);
}

proof fn lemma_line_behind(text: Seq<char>, line: Seq<char>, i: int)
    requires
        text.len() > 0 ==> text.last() == '\n',
        forall|j: int| 0 <= j < line.len() ==> (#[trigger] line[j]) != '\n',
        line.len() > 0 ==> line.last() != '\r',
        0 <= i <= text.len(),
    ensures
        lines_from(text + line + seq!['\n'], i) == lines_from(text, i).push(line),
    decreases text.len() - i,
{
    let s = text + line + seq!['\n'];
    if i == text.len() {
        let n = text.len() + line.len() as int;
        assert forall|j: int| i <= j < n implies (#[trigger] s[j]) != '\n' by {
            assert(s[j] == line[j - text.len()]);
        }
        assert(s[n] == '\n');
        lemma_line_end_is(s, i, n);
        assert(s.subrange(i, n) =~= line);
        assert(lines_from(s, n + 1) =~= Seq::<Seq<char>>::empty());
        assert(lines_from(text, i) =~= Seq::<Seq<char>>::empty());
        assert(lines_from(s, i) =~= seq![line]);
        assert(lines_from(text, i).push(line) =~= seq![line]);
    } else {
        lemma_line_end(text, i);
        lemma_line_end_ends(text, i);
        let end = line_end(text, i);
        assert(end < text.len());
        assert forall|j: int| i <= j < end implies (#[trigger] s[j]) != '\n' by {
            assert(s[j] == text[j]);
        }
        assert(s[end] == text[end]);
        lemma_line_end_is(s, i, end);
        assert(s.subrange(i, end) =~= text.subrange(i, end));
        lemma_line_behind(text, line, end + 1);
        let one = seq![without_return(text.subrange(i, end))];
        assert(one + lines_from(text, end + 1).push(line) =~= (one + lines_from(
            text,
            end + 1,
        )).push(line));
    }
}

proof fn lemma_line_end_ends(s: Seq<char>, i: int)
    requires
        0 <= i < s.len(),
        s.last() == '\n',
    ensures
        line_end(s, i) < s.len(),
        s[line_end(s, i)] == '\n',
        forall|j: int| i <= j < line_end(s, i) ==> (#[trigger] s[j]) != '\n',
    decreases s.len() - i,
{
    if s[i] != '\n' {
        lemma_line_end_ends(s, i + 1);
    }
}

proof fn lemma_line_end_is(s: Seq<char>, i: int, n: int)
    requires
        0 <= i <= n < s.len(),
        forall|j: int| i <= j < n ==> (#[trigger] s[j]) != '\n',
        s[n] == '\n',
    ensures
        line_end(s, i) == n,
    decreases n - i,
{
    if i < n {
        assert(s[i] != '\n');
        lemma_line_end_is(s, i + 1, n);
    }
}

/// A text whose every character is of a class.
pub open spec fn made_of(s: Seq<char>, class: CharClass) -> bool {
    forall|i: int| 0 <= i < s.len() ==> class.has(#[trigger] s[i])
}

/// Trimming takes a run of the class off either end and nothing else: what is left neither begins
/// nor ends with a character of it, and everything between is kept.
pub proof fn law_trimming_takes_only_the_ends(
    front: Seq<char>,
    t: Seq<char>,
    back: Seq<char>,
    class: CharClass,
)
    requires
        made_of(front, class),
        made_of(back, class),
        t.len() == 0 || !class.has(t[0]) && !class.has(t.last()),
    ensures
        trimmed(front + t + back, class) == t,
{
    if t.len() == 0 {
        let all = front + t + back;
        assert forall|i: int| 0 <= i < all.len() implies class.has(#[trigger] all[i]) by {
            if i < front.len() {
                assert(all[i] == front[i]);
            } else {
                assert(all[i] == back[i - front.len()]);
            }
        }
        lemma_trim_front_run(all, Seq::empty(), class);
        assert(all + Seq::<char>::empty() =~= all);
        assert(trim_front(all, class) =~= Seq::<char>::empty());
        assert(trimmed(all, class) =~= t);
    } else {
        assert(front + t + back =~= front + (t + back));
        assert((t + back)[0] == t[0]);
        lemma_trim_front_run(front, t + back, class);
        lemma_trim_back_run(t, back, class);
    }
}

proof fn lemma_trim_front_run(front: Seq<char>, rest: Seq<char>, class: CharClass)
    requires
        made_of(front, class),
        rest.len() == 0 || !class.has(rest[0]),
    ensures
        trim_front(front + rest, class) == rest,
    decreases front.len(),
{
    let s = front + rest;
    if front.len() == 0 {
        assert(s =~= rest);
    } else {
        let fewer = front.drop_first();
        assert forall|i: int| 0 <= i < fewer.len() implies class.has(#[trigger] fewer[i]) by {
            assert(fewer[i] == front[i + 1]);
        }
        lemma_trim_front_run(fewer, rest, class);
        assert(class.has(front[0]));
        assert(s[0] == front[0]);
        assert(s.drop_first() =~= fewer + rest);
    }
}

proof fn lemma_trim_back_run(t: Seq<char>, back: Seq<char>, class: CharClass)
    requires
        made_of(back, class),
        t.len() > 0,
        !class.has(t.last()),
    ensures
        trim_back(t + back, class) == t,
    decreases back.len(),
{
    let s = t + back;
    if back.len() == 0 {
        assert(s =~= t);
    } else {
        let fewer = back.drop_last();
        assert forall|i: int| 0 <= i < fewer.len() implies class.has(#[trigger] fewer[i]) by {
            assert(fewer[i] == back[i]);
        }
        lemma_trim_back_run(t, fewer, class);
        assert(class.has(back[back.len() - 1]));
        assert(s.last() == back.last());
        assert(s.drop_last() =~= t + fewer);
    }
}

/// The separators around a command are the four that a shell takes for such, and no other
/// whitespace.
pub proof fn law_boundary_is_narrow(c: char)
    ensures
        CharClass::Boundary.has(c) <==> (c == ' ' || c == '\t' || c == '\r' || c == '\n'),
        CharClass::Boundary.has(c) ==> CharClass::Whitespace.has(c),
        CharClass::Whitespace.has('\u{a0}') && !CharClass::Boundary.has('\u{a0}'),
{
}

/// A number is read from digits alone, with or without a plus in front, and only up to the
/// greatest one that is allowed.
pub proof fn law_numbers_are_digits(n: nat, max: nat, s: Seq<char>, i: int)
    ensures
        number_in(seq!['+'] + dec(n), max) == number_in(dec(n), max),
        n > max ==> number_in(dec(n), max) is None,
        number_in(Seq::empty(), max) is None,
        number_in(seq!['+'], max) is None,
        0 < i < s.len() && !('0' <= s[i] <= '9') ==> number_in(s, max) is None,
        number_in(s, max) is Some ==> number_in(s, max)->0 <= max,
{
    lemma_dec_digits(n);
    let plus = seq!['+'] + dec(n);
    assert(plus.skip(1) =~= dec(n));
    assert(without_plus(plus) == dec(n));
    assert(dec(n)[0] != '+');
    assert(without_plus(dec(n)) == dec(n));
    assert(without_plus(seq!['+']) =~= Seq::<char>::empty());
    if 0 < i < s.len() && !('0' <= s[i] <= '9') {
        let d = without_plus(s);
        if s[0] == '+' {
            assert(d[i - 1] == s[i]);
        } else {
            assert(d[i] == s[i]);
        }
    }
}

/// Comparing without regard to case: a text is as its own lower case, a letter as its other case,
/// and nothing else changes.
pub proof fn law_lower_case(s: Seq<char>, c: char)
    ensures
        lowered(lowered(s)) == lowered(s),
        lowered(s).len() == s.len(),
        !('A' <= c <= 'Z') ==> lower(c) == c,
        'A' <= c <= 'Z' ==> 'a' <= lower(c) <= 'z' && lower(c) as u32 == c as u32 + 32,
{
    assert forall|i: int| 0 <= i < s.len() implies lower(lower(#[trigger] s[i])) == lower(s[i]) by {
    }
    assert(lowered(lowered(s)) =~= lowered(s));
}

/// A character in UTF-16 is one unit or a pair from which it can be told; what is one unit is never
/// half of a pair. Texts one behind the other are their units one behind the other.
pub proof fn law_units_tell_the_character(c: char, a: Seq<char>, b: Seq<char>)
    ensures
        (c as u32) < 0x10000 ==> char_units(c).len() == 1 && char_units(c)[0] == c as u32 && !(0xd800
            <= char_units(c)[0] < 0xe000),
        (c as u32) >= 0x10000 ==> {
            let u = char_units(c);
            &&& u.len() == 2
            &&& 0xd800 <= u[0] < 0xdc00
            &&& 0xdc00 <= u[1] < 0xe000
            &&& 0x10000 + (u[0] - 0xd800) * 0x400 + (u[1] - 0xdc00) == c as u32
        },
        units(a + b) == units(a) + units(b),
    decreases b.len(),
{
    let n = c as u32 as int;
    if n >= 0x10000 {
        assert(n <= 0x10ffff);
        let k = n - 0x10000;
        assert(k / 0x400 < 0x400 && k % 0x400 < 0x400 && (k / 0x400) * 0x400 + k % 0x400 == k);
    }
    let all = a + b;
    if b.len() == 0 {
        assert(all =~= a);
        assert(units(a) + units(b) =~= units(a));
    } else {
        law_units_tell_the_character(c, a, b.drop_last());
        assert(all.drop_last() =~= a + b.drop_last());
        assert(units(all) =~= units(a) + units(b));
    }
}

/// What a digit of a hexadecimal number stands for.
pub open spec fn hex_value(s: Seq<char>) -> nat
    decreases s.len(),
{
    if s.len() == 0 {
        0
    } else {
        let d = s.last() as u32;
        (16 * hex_value(s.drop_last()) + if d < 65 {
            d - 48
        } else {
            d - 55
        }) as nat
    }
}

/// A number in hexadecimal stands for itself, with at least as many digits as were asked for.
pub proof fn law_hex_reads_back(n: nat, width: nat)
    ensures
        hex_value(hex(n, width)) == n,
        hex(n, width).len() >= width,
        hex(n, width).len() >= 1,
    decreases n + width,
{
    let s = hex(n, width);
    if n < 16 && width <= 1 {
        assert(s.drop_last() =~= Seq::<char>::empty());
        assert(hex_value(s.drop_last()) == 0);
    } else {
        let w = if width == 0 {
            0
        } else {
            (width - 1) as nat
        };
        law_hex_reads_back(n / 16, w);
        let front = hex(n / 16, w);
        assert(s.drop_last() =~= front);
    }
}

/// A number is written with the same digits as text and as bytes.
pub proof fn law_decimal_bytes(n: nat)
    ensures
        dec_bytes(n).len() == dec(n).len(),
        forall|i: int| 0 <= i < dec(n).len() ==> #[trigger] dec_bytes(n)[i] == dec(n)[i] as u32,
    decreases n,
{
    if n >= 10 {
        law_decimal_bytes(n / 10);
    }
}

/// A negative number is its minus sign and what it lacks to zero.
pub proof fn law_signed_decimal(n: int)
    ensures
        n >= 0 ==> dec_int(n) == dec(n as nat),
        n < 0 ==> dec_int(n) == seq!['-'] + dec((-n) as nat),
{
}

} // verus!
