//! The address that players see.

use crate::text;
use crate::text::{chars_of, is_white_space, matches_at, push_range, push_text, text_between};
use vstd::prelude::*;

verus! {

/// The first position from `i` on with a character that is white space or not,
/// as asked for; the length where there is none.
pub open spec fn next_position(s: Seq<char>, i: int, space: bool) -> int
    decreases s.len() - i,
{
    if i >= s.len() {
        s.len() as int
    } else if text::is_space(s[i]) == space {
        i
    } else {
        next_position(s, i + 1, space)
    }
}

/// Whether a word is an IPv4 address that others can reach: not a loopback
/// address, and with a dot.
pub open spec fn is_reachable(word: Seq<char>) -> bool {
    !text::stands_at(word, "127."@, 0) && word.contains('.')
}

/// The first of the words from position `i` on that is a reachable address.
pub open spec fn reachable_from(s: Seq<char>, i: int) -> Option<Seq<char>>
    decreases s.len() - i,
    when 0 <= i <= s.len()
    via reachable_decreases
{
    let start = next_position(s, i, false);
    if start >= s.len() {
        None
    } else {
        let end = next_position(s, start, true);
        let word = s.subrange(start, end);
        if is_reachable(word) {
            Some(word)
        } else {
            reachable_from(s, end)
        }
    }
}

#[via_fn]
proof fn reachable_decreases(s: Seq<char>, i: int) {
    lemma_next_position(s, i, false);
    lemma_next_position(s, next_position(s, i, false), true);
}

proof fn lemma_next_position(s: Seq<char>, i: int, space: bool)
    requires
        0 <= i <= s.len(),
    ensures
        i <= next_position(s, i, space) <= s.len(),
        next_position(s, i, space) < s.len() ==> text::is_space(s[next_position(s, i, space)])
            == space,
    decreases s.len() - i,
{
    if i < s.len() && text::is_space(s[i]) != space {
        lemma_next_position(s, i + 1, space);
    }
}

fn find_position(chars: &[char], from: usize, space: bool) -> (at: usize)
    requires
        from <= chars@.len(),
    ensures
        at == next_position(chars@, from as int, space),
        from <= at <= chars@.len(),
{
    let mut i = from;
    while i < chars.len() && is_white_space(chars[i]) != space
        invariant
            from <= i <= chars@.len(),
            next_position(chars@, from as int, space) == next_position(chars@, i as int, space),
        decreases chars@.len() - i,
    {
        i = i + 1;
    }
    i
}

/// Picks the address under which others reach this machine from a list of its
/// addresses: the first with a dot that is not a loopback address.
pub fn pick_ipv4(addresses: &str) -> (address: Option<String>)
    ensures
        match (address, reachable_from(addresses@, 0)) {
            (Some(a), Some(b)) => a@ == b,
            (None, None) => true,
            _ => false,
        },
{
    let chars = chars_of(addresses);
    let loopback = chars_of("127.");
    let mut i: usize = 0;
    loop
        invariant
            chars@ == addresses@,
            loopback@ == "127."@,
            i <= chars@.len(),
            reachable_from(addresses@, 0) == reachable_from(addresses@, i as int),
        decreases chars@.len() - i,
    {
        let start = find_position(&chars, i, false);
        if start >= chars.len() {
            return None;
        }
        proof {
            lemma_next_position(chars@, i as int, false);
            lemma_next_position(chars@, start + 1, true);
        }
        let end = find_position(&chars, start, true);
        let word = vstd::slice::slice_subrange(chars.as_slice(), start, end);
        if !matches_at(word, &loopback, 0) && has_dot(word) {
            return Some(text_between(&chars, start, end));
        }
        i = end;
    }
}

fn has_dot(word: &[char]) -> (yes: bool)
    ensures
        yes == word@.contains('.'),
{
    let mut i: usize = 0;
    while i < word.len()
        invariant
            i <= word@.len(),
            forall|j: int| 0 <= j < i ==> word@[j] != '.',
        decreases word@.len() - i,
    {
        if word[i] == '.' {
            assert(word@[i as int] == '.');
            return true;
        }
        i = i + 1;
    }
    false
}

/// What stands behind the last colon; all of it where there is none.
pub open spec fn behind_last_colon(s: Seq<char>) -> Seq<char>
    decreases s.len(),
{
    if s.len() == 0 || s.last() == ':' {
        seq![]
    } else {
        behind_last_colon(s.drop_last()).push(s.last())
    }
}

/// The address that players see where none is configured: this machine, and the
/// port that is listened on.
pub open spec fn default_address(listen: Seq<char>, ip: Option<Seq<char>>) -> Seq<char> {
    "http://"@ + (match ip {
        Some(ip) => ip,
        None => "127.0.0.1"@,
    }) + ":"@ + behind_last_colon(listen)
}

/// The address that players see where none is configured.
pub fn default_base_url(listen: &str, ip: Option<&str>) -> (url: String)
    ensures
        url@ == default_address(
            listen@,
            match ip {
                Some(ip) => Some(ip@),
                None => None,
            },
        ),
{
    let chars = chars_of(listen);
    let mut start = chars.len();
    assert(chars@.subrange(0, start as int) =~= chars@);
    assert(chars@.subrange(start as int, start as int) =~= seq![]);
    assert(behind_last_colon(listen@) =~= behind_last_colon(chars@.subrange(0, start as int))
        + chars@.subrange(start as int, chars@.len() as int));
    while start > 0 && chars[start - 1] != ':'
        invariant
            chars@ == listen@,
            start <= chars@.len(),
            behind_last_colon(listen@) == behind_last_colon(chars@.subrange(0, start as int))
                + chars@.subrange(start as int, chars@.len() as int),
        decreases start,
    {
        let ghost upto = chars@.subrange(0, start as int);
        assert(upto.drop_last() =~= chars@.subrange(0, start - 1));
        assert(behind_last_colon(upto) + chars@.subrange(start as int, chars@.len() as int)
            =~= behind_last_colon(upto.drop_last()) + chars@.subrange(
            start - 1,
            chars@.len() as int,
        ));
        start = start - 1;
    }
    assert(behind_last_colon(chars@.subrange(0, start as int)) =~= seq![]);
    assert(behind_last_colon(listen@) =~= chars@.subrange(start as int, chars@.len() as int));
    let mut url = String::new();
    push_text(&mut url, "http://");
    match ip {
        Some(ip) => push_text(&mut url, ip),
        None => push_text(&mut url, "127.0.0.1"),
    }
    push_text(&mut url, ":");
    push_range(&mut url, &chars, start, chars.len());
    assert(url@ =~= default_address(
        listen@,
        match ip {
            Some(ip) => Some(ip@),
            None => None,
        },
    ));
    url
}

// ---------------------------------------------------------------------------
// Laws
// ---------------------------------------------------------------------------

proof fn lemma_position(s: Seq<char>, i: int, end: int, space: bool)
    requires
        0 <= i <= end <= s.len(),
        end < s.len() ==> text::is_space(s[end]) == space,
        forall|j: int| i <= j < end ==> text::is_space(#[trigger] s[j]) != space,
    ensures
        next_position(s, i, space) == end,
    decreases end - i,
{
    if i < end {
        assert(text::is_space(s[i]) != space);
        lemma_position(s, i + 1, end, space);
    }
}

proof fn lemma_position_behind(front: Seq<char>, s: Seq<char>, i: int, space: bool)
    requires
        0 <= i <= s.len(),
    ensures
        next_position(front + s, front.len() + i, space) == front.len() + next_position(s, i, space),
    decreases s.len() - i,
{
    if i < s.len() {
        assert((front + s)[front.len() + i] == s[i]);
        if text::is_space(s[i]) != space {
            lemma_position_behind(front, s, i + 1, space);
        }
    }
}

proof fn lemma_reachable_behind(front: Seq<char>, s: Seq<char>, i: int)
    requires
        0 <= i <= s.len(),
    ensures
        reachable_from(front + s, front.len() + i) == reachable_from(s, i),
    decreases s.len() - i,
{
    let start = next_position(s, i, false);
    lemma_next_position(s, i, false);
    lemma_position_behind(front, s, i, false);
    if start < s.len() {
        let end = next_position(s, start, true);
        lemma_next_position(s, start, true);
        lemma_next_position(s, start + 1, true);
        lemma_position_behind(front, s, start, true);
        assert((front + s).subrange(front.len() + start, front.len() + end) =~= s.subrange(
            start,
            end,
        ));
        assert(end > start);
        lemma_reachable_behind(front, s, end);
    }
}

/// Whether others can reach a machine at an address: it has a dot and is not the
/// machine itself.
pub open spec fn reaches(word: Seq<char>) -> bool {
    !text::occurs(word, "127."@, 0) && exists|i: int|
        0 <= i < word.len() && #[trigger] word[i] == '.'
}

/// Of a list of addresses with white space between them, the first is taken where
/// others can reach it; else it is the same as for the list of the others.
pub proof fn law_first_reachable(before: Seq<char>, word: Seq<char>, behind: Seq<char>)
    requires
        text::blank(before),
        word.len() > 0,
        forall|i: int| 0 <= i < word.len() ==> !text::is_space(#[trigger] word[i]),
        behind.len() > 0 ==> text::is_space(behind[0]),
    ensures
        reachable_from(before + word + behind, 0) == if reaches(word) {
            Some(word)
        } else {
            reachable_from(behind, 0)
        },
{
    let s = before + word + behind;
    let start = before.len() as int;
    let end = start + word.len();
    assert forall|j: int| 0 <= j < start implies text::is_space(#[trigger] s[j]) != false by {
        assert(s[j] == before[j]);
    }
    assert(s[start] == word[0]);
    lemma_position(s, 0, start, false);
    assert forall|j: int| start <= j < end implies text::is_space(#[trigger] s[j]) != true by {
        assert(s[j] == word[j - start]);
    }
    if behind.len() > 0 {
        assert(s[end] == behind[0]);
    }
    lemma_position(s, start, end, true);
    assert(s.subrange(start, end) =~= word);
    text::law_stands(word, "127."@, 0);
    assert(is_reachable(word) == reaches(word)) by {
        if word.contains('.') {
            let i = word.index_of('.');
            assert(word[i] == '.');
        }
    }
    lemma_reachable_behind(before + word, behind, 0);
}

/// White space alone holds no address.
pub proof fn law_no_address(s: Seq<char>)
    requires
        text::blank(s),
    ensures
        reachable_from(s, 0) is None,
{
    lemma_position(s, 0, s.len() as int, false);
}

proof fn lemma_behind_colon(front: Seq<char>, port: Seq<char>)
    requires
        forall|i: int| 0 <= i < port.len() ==> #[trigger] port[i] != ':',
        front.len() > 0 ==> front[front.len() - 1] == ':',
    ensures
        behind_last_colon(front + port) == port,
    decreases port.len(),
{
    if port.len() > 0 {
        assert(port[port.len() - 1] != ':');
        assert((front + port).drop_last() =~= front + port.drop_last());
        assert forall|i: int| 0 <= i < port.drop_last().len() implies #[trigger] port.drop_last()[i]
            != ':' by {
            assert(port[i] != ':');
        }
        lemma_behind_colon(front, port.drop_last());
        assert(behind_last_colon(front + port) =~= port);
    } else {
        assert(front + port =~= front);
        assert(behind_last_colon(front) =~= port);
    }
}

/// The address that players see has the port behind the last colon of the address
/// that is listened on, or all of it where it has no colon; and the machine's own
/// address, or that of the machine to itself where none is known.
pub proof fn law_default_address(host: Seq<char>, port: Seq<char>, ip: Seq<char>)
    requires
        forall|i: int| 0 <= i < port.len() ==> #[trigger] port[i] != ':',
    ensures
        default_address(host + ":"@ + port, Some(ip)) == "http://"@ + ip + ":"@ + port,
        default_address(host + ":"@ + port, None) == "http://127.0.0.1:"@ + port,
        default_address(port, Some(ip)) == "http://"@ + ip + ":"@ + port,
        default_address(port, None) == "http://127.0.0.1:"@ + port,
{
    reveal_strlit(":");
    reveal_strlit("http://");
    reveal_strlit("127.0.0.1");
    reveal_strlit("http://127.0.0.1:");
    lemma_behind_colon(host + ":"@, port);
    lemma_behind_colon(Seq::<char>::empty(), port);
    assert(Seq::<char>::empty() + port =~= port);
    assert("http://"@ + "127.0.0.1"@ + ":"@ =~= "http://127.0.0.1:"@);
}

} // verus!
