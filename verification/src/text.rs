//! Text as sequences of characters: trimming, searching and numbers.

use vstd::prelude::*;

verus! {

/// `String::push` puts one character behind the others.
pub assume_specification[ String::push ](s: &mut String, c: char)
    ensures
        final(s)@ == old(s)@.push(c),
;

// ---------------------------------------------------------------------------
// Conversions
// ---------------------------------------------------------------------------

/// The characters of a text.
pub fn chars_of(text: &str) -> (chars: Vec<char>)
    ensures
        chars@ == text@,
{
    let mut chars: Vec<char> = Vec::new();
    for c in it: text.chars()
        invariant
            chars@ == it.seq().take(it.index()),
    {
        chars.push(c);
        assert(chars@ =~= it.seq().take(it.index() + 1));
    }
    assert(chars@ =~= text@);
    chars
}

/// Appends the characters from `start` up to `end`.
pub fn push_range(text: &mut String, chars: &[char], start: usize, end: usize)
    requires
        start <= end <= chars@.len(),
    ensures
        final(text)@ == old(text)@ + chars@.subrange(start as int, end as int),
{
    let ghost before = text@;
    let mut i = start;
    while i < end
        invariant
            start <= i <= end <= chars@.len(),
            text@ =~= before + chars@.subrange(start as int, i as int),
        decreases end - i,
    {
        text.push(chars[i]);
        i = i + 1;
    }
}

/// The characters from `start` up to `end`, as a text.
pub fn text_between(chars: &[char], start: usize, end: usize) -> (text: String)
    requires
        start <= end <= chars@.len(),
    ensures
        text@ == chars@.subrange(start as int, end as int),
{
    let mut text = String::new();
    push_range(&mut text, chars, start, end);
    assert(text@ =~= chars@.subrange(start as int, end as int));
    text
}

/// Appends a text.
pub fn push_text(text: &mut String, more: &str)
    ensures
        final(text)@ == old(text)@ + more@,
{
    let chars = chars_of(more);
    push_range(text, &chars, 0, chars.len());
    assert(more@.subrange(0, more@.len() as int) =~= more@);
}

/// Whether two texts are the same.
pub fn same_text(a: &str, b: &str) -> (same: bool)
    ensures
        same == (a@ == b@),
{
    a.to_owned() == b.to_owned()
}

// ---------------------------------------------------------------------------
// White space
// ---------------------------------------------------------------------------

/// The characters with the Unicode property `White_Space`.
pub open spec fn is_space(c: char) -> bool {
    let code = c as int;
    ||| 0x09 <= code <= 0x0d
    ||| code == 0x20
    ||| code == 0x85
    ||| code == 0xa0
    ||| code == 0x1680
    ||| 0x2000 <= code <= 0x200a
    ||| code == 0x2028
    ||| code == 0x2029
    ||| code == 0x202f
    ||| code == 0x205f
    ||| code == 0x3000
}

/// A text without the white space at its start.
pub open spec fn trimmed_start(s: Seq<char>) -> Seq<char>
    decreases s.len(),
{
    if s.len() > 0 && is_space(s[0]) {
        trimmed_start(s.skip(1))
    } else {
        s
    }
}

/// A text without the white space at its end.
pub open spec fn trimmed_end(s: Seq<char>) -> Seq<char>
    decreases s.len(),
{
    if s.len() > 0 && is_space(s.last()) {
        trimmed_end(s.drop_last())
    } else {
        s
    }
}

/// A text without white space at either end.
pub open spec fn trimmed(s: Seq<char>) -> Seq<char> {
    trimmed_end(trimmed_start(s))
}

/// A text without the slashes at its end.
pub open spec fn without_slashes(s: Seq<char>) -> Seq<char>
    decreases s.len(),
{
    if s.len() > 0 && s.last() == '/' {
        without_slashes(s.drop_last())
    } else {
        s
    }
}

pub fn is_white_space(c: char) -> (yes: bool)
    ensures
        yes == is_space(c),
{
    let code = c as u32;
    (0x09 <= code && code <= 0x0d) || code == 0x20 || code == 0x85 || code == 0xa0 || code == 0x1680
        || (0x2000 <= code && code <= 0x200a) || code == 0x2028 || code == 0x2029 || code == 0x202f
        || code == 0x205f || code == 0x3000
}

/// Where the characters from `start` up to `end` start and end without the
/// white space around them.
pub fn trim_range(chars: &[char], start: usize, end: usize) -> (range: (usize, usize))
    requires
        start <= end <= chars@.len(),
    ensures
        start <= range.0 <= range.1 <= end,
        chars@.subrange(range.0 as int, range.1 as int) == trimmed(
            chars@.subrange(start as int, end as int),
        ),
{
    let ghost all = chars@.subrange(start as int, end as int);
    let mut from = start;
    while from < end && is_white_space(chars[from])
        invariant
            start <= from <= end <= chars@.len(),
            trimmed_start(all) == trimmed_start(chars@.subrange(from as int, end as int)),
        decreases end - from,
    {
        assert(chars@.subrange(from as int, end as int).skip(1) =~= chars@.subrange(
            from + 1,
            end as int,
        ));
        from = from + 1;
    }
    let ghost rest = chars@.subrange(from as int, end as int);
    assert(trimmed_start(all) == rest);
    let mut to = end;
    while to > from && is_white_space(chars[to - 1])
        invariant
            from <= to <= end <= chars@.len(),
            trimmed_end(rest) == trimmed_end(chars@.subrange(from as int, to as int)),
        decreases to,
    {
        assert(chars@.subrange(from as int, to as int).drop_last() =~= chars@.subrange(
            from as int,
            to - 1,
        ));
        to = to - 1;
    }
    (from, to)
}

/// The end of a text without the slashes there.
pub fn end_without_slashes(chars: &[char]) -> (end: usize)
    ensures
        end <= chars@.len(),
        chars@.subrange(0, end as int) == without_slashes(chars@),
{
    let mut end = chars.len();
    assert(chars@.subrange(0, end as int) =~= chars@);
    while end > 0 && chars[end - 1] == '/'
        invariant
            end <= chars@.len(),
            without_slashes(chars@) == without_slashes(chars@.subrange(0, end as int)),
        decreases end,
    {
        assert(chars@.subrange(0, end as int).drop_last() =~= chars@.subrange(0, end - 1));
        end = end - 1;
    }
    end
}

// ---------------------------------------------------------------------------
// Searching
// ---------------------------------------------------------------------------

/// Whether `needle` stands in `s` at position `i`.
pub open spec fn stands_at(s: Seq<char>, needle: Seq<char>, i: int) -> bool {
    0 <= i && i + needle.len() <= s.len() && s.subrange(i, i + needle.len()) == needle
}

/// The first position from `i` on at which `needle` stands in `s`.
pub open spec fn first_at(s: Seq<char>, needle: Seq<char>, i: int) -> Option<int>
    decreases s.len() + 1 - i,
{
    if i + needle.len() > s.len() {
        None
    } else if stands_at(s, needle, i) {
        Some(i)
    } else {
        first_at(s, needle, i + 1)
    }
}

/// Whether `needle` stands in `chars` at position `at`.
pub fn matches_at(chars: &[char], needle: &[char], at: usize) -> (yes: bool)
    ensures
        yes == stands_at(chars@, needle@, at as int),
{
    if at > chars.len() || chars.len() - at < needle.len() {
        return false;
    }
    let mut i: usize = 0;
    while i < needle.len()
        invariant
            i <= needle@.len(),
            at + needle@.len() <= chars@.len(),
            chars@.len() <= usize::MAX,
            forall|j: int| 0 <= j < i ==> chars@[at + j] == #[trigger] needle@[j],
        decreases needle@.len() - i,
    {
        if chars[at + i] != needle[i] {
            assert(chars@.subrange(at as int, at + needle@.len())[i as int] != needle@[i as int]);
            return false;
        }
        i = i + 1;
    }
    assert(chars@.subrange(at as int, at + needle@.len()) =~= needle@);
    true
}

/// The first position from `from` on at which `needle` stands in `chars`.
pub fn find_from(chars: &[char], needle: &[char], from: usize) -> (found: Option<usize>)
    ensures
        match (found, first_at(chars@, needle@, from as int)) {
            (Some(a), Some(b)) => a == b && stands_at(chars@, needle@, b),
            (None, None) => true,
            _ => false,
        },
{
    let mut i = from;
    while i <= chars.len() && chars.len() - i >= needle.len()
        invariant
            i <= chars@.len() + 1 || i == from,
            first_at(chars@, needle@, from as int) == first_at(chars@, needle@, i as int),
        decreases chars@.len() + 1 - i,
    {
        if matches_at(chars, needle, i) {
            return Some(i);
        }
        if i == chars.len() {
            assert(first_at(chars@, needle@, i + 1) is None);
            return None;
        }
        i = i + 1;
    }
    None
}

// ---------------------------------------------------------------------------
// Numbers
// ---------------------------------------------------------------------------

/// The character of a digit.
pub open spec fn digit(d: int) -> char {
    (('0' as int) + d) as char
}

/// A number in decimal.
pub open spec fn decimal(n: int) -> Seq<char>
    decreases n,
{
    if n < 10 {
        seq![digit(n)]
    } else {
        decimal(n / 10).push(digit(n % 10))
    }
}

fn digit_char(d: u64) -> (c: char)
    requires
        d < 10,
    ensures
        c == digit(d as int),
{
    match d {
        0 => '0',
        1 => '1',
        2 => '2',
        3 => '3',
        4 => '4',
        5 => '5',
        6 => '6',
        7 => '7',
        8 => '8',
        _ => '9',
    }
}

/// Appends a number in decimal.
pub fn push_decimal(text: &mut String, n: u64)
    ensures
        final(text)@ == old(text)@ + decimal(n as int),
    decreases n,
{
    let ghost before = text@;
    if n >= 10 {
        push_decimal(text, n / 10);
    }
    text.push(digit_char(n % 10));
    assert(text@ =~= before + decimal(n as int));
}

/// The value of the decimal digits of a text, where it has only digits and at
/// least one.
pub open spec fn decimal_value(s: Seq<char>) -> Option<int>
    decreases s.len(),
{
    if s.len() == 0 {
        None
    } else if !('0' <= s.last() <= '9') {
        None
    } else if s.len() == 1 {
        Some(s.last() as int - '0' as int)
    } else {
        match decimal_value(s.drop_last()) {
            None => None,
            Some(n) => Some(n * 10 + (s.last() as int - '0' as int)),
        }
    }
}

/// Reading a number gives back what was written.
pub proof fn law_decimal_reads_back(n: int)
    requires
        0 <= n,
    ensures
        decimal_value(decimal(n)) == Some(n),
        decimal(n).len() > 0,
    decreases n,
{
    if n >= 10 {
        law_decimal_reads_back(n / 10);
        assert(decimal(n).drop_last() =~= decimal(n / 10));
    }
}

// ---------------------------------------------------------------------------
// Laws
// ---------------------------------------------------------------------------

/// White space is what Unicode calls so: the five control characters from the
/// tab to the carriage return, the space, the next line, the spaces without a
/// break and of Ogham, the typographic spaces, the separators of lines and
/// paragraphs, and the mathematical and ideographic spaces.
pub proof fn law_white_space(c: char)
    ensures
        is_space(c) <==> (c == '\t' || c == '\n' || c == '\u{b}' || c == '\u{c}' || c == '\r' || c
            == ' ' || c == '\u{85}' || c == '\u{a0}' || c == '\u{1680}' || ('\u{2000}' <= c && c
            <= '\u{200a}') || c == '\u{2028}' || c == '\u{2029}' || c == '\u{202f}' || c
            == '\u{205f}' || c == '\u{3000}'),
{
}

/// Whether all characters of a text are white space.
pub open spec fn blank(s: Seq<char>) -> bool {
    forall|i: int| 0 <= i < s.len() ==> is_space(#[trigger] s[i])
}

/// Whether a text neither starts nor ends with white space.
pub open spec fn tight(s: Seq<char>) -> bool {
    s.len() > 0 ==> !is_space(s[0]) && !is_space(s[s.len() - 1])
}

/// Trimming takes off the white space at both ends, all of it and nothing else:
/// whatever white space a text stands between, the text comes out.
pub proof fn law_trimmed_between(before: Seq<char>, s: Seq<char>, behind: Seq<char>)
    requires
        blank(before),
        blank(behind),
        tight(s),
    ensures
        trimmed(before + s + behind) == s,
    decreases before.len() + behind.len(),
{
    let all = before + s + behind;
    if before.len() > 0 {
        assert(is_space(before[0]));
        assert(all.skip(1) =~= before.skip(1) + s + behind);
        assert forall|i: int| 0 <= i < before.skip(1).len() implies is_space(
            #[trigger] before.skip(1)[i],
        ) by {
            assert(is_space(before[i + 1]));
        }
        law_trimmed_between(before.skip(1), s, behind);
    } else if s.len() == 0 {
        assert(all =~= behind);
        if behind.len() > 0 {
            assert(is_space(behind[0]));
            assert(all.skip(1) =~= before + s + behind.skip(1));
            assert forall|i: int| 0 <= i < behind.skip(1).len() implies is_space(
                #[trigger] behind.skip(1)[i],
            ) by {
                assert(is_space(behind[i + 1]));
            }
            law_trimmed_between(before, s, behind.skip(1));
        } else {
            assert(all =~= s);
        }
    } else {
        assert(all[0] == s[0]);
        assert(trimmed_start(all) == all);
        if behind.len() > 0 {
            assert(is_space(behind[behind.len() - 1]));
            assert(all.last() == behind[behind.len() - 1]);
            assert(all.drop_last() =~= before + s + behind.drop_last());
            assert forall|i: int| 0 <= i < behind.drop_last().len() implies is_space(
                #[trigger] behind.drop_last()[i],
            ) by {
                assert(is_space(behind[i]));
            }
            law_trimmed_between(before, s, behind.drop_last());
            assert(trimmed_start(all.drop_last()) == all.drop_last());
        } else {
            assert(all =~= s);
            assert(all.last() == s[s.len() - 1]);
        }
    }
}

proof fn lemma_trimmed_start(s: Seq<char>) -> (n: int)
    ensures
        0 <= n <= s.len(),
        trimmed_start(s) == s.skip(n),
        forall|i: int| 0 <= i < n ==> is_space(#[trigger] s[i]),
        n < s.len() ==> !is_space(s[n]),
    decreases s.len(),
{
    if s.len() > 0 && is_space(s[0]) {
        let m = lemma_trimmed_start(s.skip(1));
        assert(s.skip(1).skip(m) =~= s.skip(m + 1));
        assert forall|i: int| 0 <= i < m + 1 implies is_space(#[trigger] s[i]) by {
            if i > 0 {
                assert(is_space(s.skip(1)[i - 1]));
            }
        }
        m + 1
    } else {
        assert(s.skip(0) =~= s);
        0
    }
}

proof fn lemma_trimmed_end(s: Seq<char>) -> (n: int)
    ensures
        0 <= n <= s.len(),
        trimmed_end(s) == s.take(n),
        forall|i: int| n <= i < s.len() ==> is_space(#[trigger] s[i]),
        n > 0 ==> !is_space(s[n - 1]),
    decreases s.len(),
{
    if s.len() > 0 && is_space(s.last()) {
        let n = lemma_trimmed_end(s.drop_last());
        assert(s.drop_last().take(n) =~= s.take(n));
        assert forall|i: int| n <= i < s.len() implies is_space(#[trigger] s[i]) by {
            if i < s.len() - 1 {
                assert(is_space(s.drop_last()[i]));
            }
        }
        n
    } else {
        assert(s.take(s.len() as int) =~= s);
        s.len() as int
    }
}

/// Every text is what trimming leaves of it, between white space.
pub proof fn law_trimmed_splits(s: Seq<char>) -> (parts: (Seq<char>, Seq<char>))
    ensures
        s == parts.0 + trimmed(s) + parts.1,
        blank(parts.0),
        blank(parts.1),
        tight(trimmed(s)),
{
    let n = lemma_trimmed_start(s);
    let rest = s.skip(n);
    let m = lemma_trimmed_end(rest);
    let parts = (s.take(n), rest.skip(m));
    assert(s =~= parts.0 + trimmed(s) + parts.1);
    assert forall|i: int| 0 <= i < parts.1.len() implies is_space(#[trigger] parts.1[i]) by {
        assert(is_space(rest[m + i]));
    }
    assert forall|i: int| 0 <= i < parts.0.len() implies is_space(#[trigger] parts.0[i]) by {
        assert(is_space(s[i]));
    }
    if trimmed(s).len() > 0 {
        assert(rest[0] == s[n]);
        assert(trimmed(s)[trimmed(s).len() - 1] == rest[m - 1]);
    }
    parts
}

/// Slashes at the end go, all of them and nothing else.
pub proof fn law_without_slashes(s: Seq<char>, slashes: Seq<char>)
    requires
        s.len() > 0 ==> s[s.len() - 1] != '/',
        forall|i: int| 0 <= i < slashes.len() ==> #[trigger] slashes[i] == '/',
    ensures
        without_slashes(s + slashes) == s,
    decreases slashes.len(),
{
    if slashes.len() > 0 {
        assert(slashes[slashes.len() - 1] == '/');
        assert((s + slashes).drop_last() =~= s + slashes.drop_last());
        assert forall|i: int| 0 <= i < slashes.drop_last().len() implies
            #[trigger] slashes.drop_last()[i] == '/' by {
            assert(slashes[i] == '/');
        }
        law_without_slashes(s, slashes.drop_last());
    } else {
        assert(s + slashes =~= s);
    }
}

/// Whether the characters of `needle` are those of `s` from position `at` on.
pub open spec fn occurs(s: Seq<char>, needle: Seq<char>, at: int) -> bool {
    0 <= at && at + needle.len() <= s.len() && forall|j: int|
        0 <= j < needle.len() ==> s[at + j] == #[trigger] needle[j]
}

proof fn lemma_stands_occurs(s: Seq<char>, needle: Seq<char>, at: int)
    ensures
        stands_at(s, needle, at) == occurs(s, needle, at),
{
    if 0 <= at && at + needle.len() <= s.len() {
        if occurs(s, needle, at) {
            assert(s.subrange(at, at + needle.len()) =~= needle);
        }
        if stands_at(s, needle, at) {
            assert forall|j: int| 0 <= j < needle.len() implies s[at + j] == #[trigger] needle[j] by {
                assert(s.subrange(at, at + needle.len())[j] == needle[j]);
            }
        }
    }
}

/// A text stands where its characters stand.
pub proof fn law_stands(s: Seq<char>, needle: Seq<char>, at: int)
    ensures
        stands_at(s, needle, at) <==> occurs(s, needle, at),
{
    lemma_stands_occurs(s, needle, at);
}

/// The search finds a place where the text stands, and none before it from the
/// start of the search on; where it finds none, there is none.
pub proof fn law_search(s: Seq<char>, needle: Seq<char>, from: int)
    requires
        0 <= from,
    ensures
        match first_at(s, needle, from) {
            Some(at) => {
                &&& from <= at
                &&& occurs(s, needle, at)
                &&& forall|p: int| from <= p < at ==> !#[trigger] occurs(s, needle, p)
            },
            None => forall|p: int| from <= p ==> !#[trigger] occurs(s, needle, p),
        },
    decreases s.len() + 1 - from,
{
    lemma_stands_occurs(s, needle, from);
    if from + needle.len() <= s.len() && !stands_at(s, needle, from) {
        law_search(s, needle, from + 1);
    }
}

/// Decimal digits: a digit stands for itself, and a digit behind a number makes
/// it ten times as much and the digit more.
pub proof fn law_decimal_digits(tens: int, d: int)
    requires
        0 <= tens,
        0 <= d < 10,
    ensures
        decimal(d) == seq![('0' as int + d) as char],
        tens > 0 ==> decimal(10 * tens + d) == decimal(tens).push(('0' as int + d) as char),
{
}

/// Reading digits: the value of a text of digits is that of all but the last,
/// times ten, and the last; a text with anything else, or with nothing, has
/// none.
pub proof fn law_decimal_value(s: Seq<char>)
    ensures
        decimal_value(s) is Some <==> s.len() > 0 && forall|i: int|
            0 <= i < s.len() ==> '0' <= #[trigger] s[i] <= '9',
        s.len() == 1 && '0' <= s[0] <= '9' ==> decimal_value(s) == Some(s[0] as int - '0' as int),
        s.len() > 1 && decimal_value(s) is Some ==> decimal_value(s)->0 == decimal_value(
            s.take(s.len() - 1),
        )->0 * 10 + (s[s.len() - 1] as int - '0' as int),
    decreases s.len(),
{
    if s.len() > 1 {
        law_decimal_value(s.drop_last());
        assert(s.drop_last() =~= s.take(s.len() - 1));
        if decimal_value(s) is Some {
            assert forall|i: int| 0 <= i < s.len() implies '0' <= #[trigger] s[i] <= '9' by {
                if i < s.len() - 1 {
                    assert('0' <= s.drop_last()[i] <= '9');
                }
            }
        } else {
            if decimal_value(s.drop_last()) is None {
                let j = choose|j: int|
                    0 <= j < s.drop_last().len() && !('0' <= #[trigger] s.drop_last()[j] <= '9');
                assert(!('0' <= s[j] <= '9'));
            }
        }
    } else if s.len() == 1 {
        assert(s.last() == s[0]);
    }
}

} // verus!
