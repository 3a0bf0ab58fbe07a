//! Channel lists: reading an m3u file, writing the playlist that players get,
//! and finding the channel that a player asks for.

use crate::text;
use crate::text::{
    chars_of, end_without_slashes, find_from, matches_at, push_decimal, push_range, push_text,
    text_between, trim_range,
};
use vstd::prelude::*;
use vstd::slice::slice_subrange;

verus! {

/// A channel of the list.
#[derive(Debug, Clone)]
pub struct Channel {
    /// Position in the list, from one on; part of the play address.
    pub index: usize,
    /// The name that players show.
    pub display_name: String,
    /// Where the channel comes from.
    pub source_url: String,
    /// The identifier in the programme guide.
    pub tvg_id: Option<String>,
}

/// What a channel stands for.
pub struct ChannelModel {
    pub index: int,
    pub display_name: Seq<char>,
    pub source_url: Seq<char>,
    pub tvg_id: Option<Seq<char>>,
}

/// The characters of an optional text.
pub open spec fn characters(text: Option<String>) -> Option<Seq<char>> {
    match text {
        Some(text) => Some(text@),
        None => None,
    }
}

impl View for Channel {
    type V = ChannelModel;

    open spec fn view(&self) -> ChannelModel {
        ChannelModel {
            index: self.index as int,
            display_name: self.display_name@,
            source_url: self.source_url@,
            tvg_id: characters(self.tvg_id),
        }
    }
}

/// What a list of channels stands for.
pub open spec fn models(channels: Seq<Channel>) -> Seq<ChannelModel> {
    Seq::new(channels.len(), |i: int| channels[i]@)
}

// ---------------------------------------------------------------------------
// Reading
// ---------------------------------------------------------------------------

/// The value of an attribute: what stands in quotes behind the first
/// occurrence of its name with an equals sign.
pub open spec fn attribute(line: Seq<char>, attr: Seq<char>) -> Option<Seq<char>> {
    let needle = attr + seq!['=', '"'];
    match text::first_at(line, needle, 0) {
        None => None,
        Some(at) => {
            let start = at + needle.len();
            match text::first_at(line, seq!['"'], start as int) {
                None => None,
                Some(end) => Some(line.subrange(start as int, end)),
            }
        },
    }
}

/// Where the text behind the last comma among the first `k` characters starts.
pub open spec fn behind_comma(line: Seq<char>, k: int) -> Option<int>
    decreases k,
{
    if k <= 0 {
        None
    } else if line[k - 1] == ',' {
        Some(k)
    } else {
        behind_comma(line, k - 1)
    }
}

/// The channel name in an information line: the attribute for it, else what
/// stands behind the last comma, else `unknown`.
pub open spec fn name_in(line: Seq<char>) -> Seq<char> {
    match attribute(line, "tvg-name"@) {
        Some(name) => name,
        None => match behind_comma(line, line.len() as int) {
            Some(start) => text::trimmed(line.skip(start)),
            None => "unknown"@,
        },
    }
}

/// The state of reading: the channels so far, and the name and identifier for
/// the next one.
pub struct Reading {
    pub channels: Seq<ChannelModel>,
    pub name: Option<Seq<char>>,
    pub tvg_id: Option<Seq<char>>,
}

/// Reads one line. Empty lines and comments change nothing; an information
/// line names the next channel; any other line is the address of the channel
/// that was named, and nothing where none was.
pub open spec fn with_line(state: Reading, raw: Seq<char>) -> Reading {
    let line = text::trimmed(raw);
    if line.len() == 0 {
        state
    } else if text::stands_at(line, "#EXTINF"@, 0) {
        Reading {
            channels: state.channels,
            name: Some(name_in(line)),
            tvg_id: attribute(line, "tvg-id"@),
        }
    } else if line[0] == '#' {
        state
    } else {
        match state.name {
            None => state,
            Some(name) => Reading {
                channels: state.channels.push(
                    ChannelModel {
                        index: state.channels.len() as int + 1,
                        display_name: name,
                        source_url: line,
                        tvg_id: state.tvg_id,
                    },
                ),
                name: None,
                tvg_id: None,
            },
        }
    }
}

/// Where the line that `i` is in ends.
pub open spec fn line_end(s: Seq<char>, i: int) -> int
    decreases s.len() - i,
{
    if i >= s.len() || s[i] == '\n' {
        i
    } else {
        line_end(s, i + 1)
    }
}

/// Reads the lines from position `i` on.
pub open spec fn with_lines(state: Reading, s: Seq<char>, i: int) -> Reading
    decreases s.len() + 1 - i,
{
    if i < 0 || i >= s.len() {
        state
    } else {
        proof {
            lemma_line_end(s, i);
        }
        with_lines(with_line(state, s.subrange(i, line_end(s, i))), s, line_end(s, i) + 1)
    }
}

/// The channels of a list.
pub open spec fn channels_in(raw: Seq<char>) -> Seq<ChannelModel> {
    with_lines(Reading { channels: seq![], name: None, tvg_id: None }, raw, 0).channels
}

pub proof fn lemma_line_end(s: Seq<char>, i: int)
    requires
        0 <= i,
    ensures
        i <= line_end(s, i),
        i <= s.len() ==> line_end(s, i) <= s.len(),
    decreases s.len() - i,
{
    if i < s.len() && s[i] != '\n' {
        lemma_line_end(s, i + 1);
    }
}

fn attribute_of(line: &[char], attr: &str) -> (value: Option<String>)
    ensures
        characters(value) == attribute(line@, attr@),
{
    let mut needle = chars_of(attr);
    needle.push('=');
    needle.push('"');
    assert(needle@ =~= attr@ + seq!['=', '"']);
    let at = match find_from(line, &needle, 0) {
        Some(at) => at,
        None => return None,
    };
    assert(line@.len() == line.len());
    let start = at + needle.len();
    let mut quote: Vec<char> = Vec::new();
    quote.push('"');
    assert(quote@ =~= seq!['"']);
    match find_from(line, &quote, start) {
        Some(end) => {
            proof {
                lemma_first_at_bound(line@, quote@, start as int);
            }
            Some(text_between(line, start, end))
        },
        None => None,
    }
}

proof fn lemma_first_at_bound(s: Seq<char>, needle: Seq<char>, i: int)
    ensures
        text::first_at(s, needle, i) matches Some(at) ==> i <= at,
    decreases s.len() + 1 - i,
{
    if i + needle.len() <= s.len() && !text::stands_at(s, needle, i) {
        lemma_first_at_bound(s, needle, i + 1);
    }
}

/// The value of attribute `attr` in a line.
pub fn extract_attr(line: &str, attr: &str) -> (value: Option<String>)
    ensures
        characters(value) == attribute(line@, attr@),
{
    attribute_of(&chars_of(line), attr)
}

fn name_of(line: &[char]) -> (name: String)
    ensures
        name@ == name_in(line@),
{
    if let Some(name) = attribute_of(line, "tvg-name") {
        return name;
    }
    let mut k = line.len();
    while k > 0
        invariant
            attribute(line@, "tvg-name"@) is None,
            k <= line@.len(),
            behind_comma(line@, line@.len() as int) == behind_comma(line@, k as int),
        decreases k,
    {
        if line[k - 1] == ',' {
            let (from, to) = trim_range(line, k, line.len());
            assert(line@.subrange(k as int, line@.len() as int) =~= line@.skip(k as int));
            return text_between(line, from, to);
        }
        k = k - 1;
    }
    "unknown".to_owned()
}

/// The channels of an m3u list.
pub fn parse(raw: &str) -> (channels: Vec<Channel>)
    ensures
        models(channels@) == channels_in(raw@),
{
    let chars = chars_of(raw);
    let info = chars_of("#EXTINF");
    let mut out: Vec<Channel> = Vec::new();
    let mut pending_name: Option<String> = None;
    let mut pending_tvg_id: Option<String> = None;
    let mut pos: usize = 0;
    let ghost start = Reading { channels: seq![], name: None, tvg_id: None };
    proof {
        assert(models(out@) =~= seq![]);
        assert(chars@.len() == chars.len());
    }
    while pos < chars.len()
        invariant
            chars@ == raw@,
            info@ == "#EXTINF"@,
            pos <= chars@.len() <= usize::MAX,
            out@.len() <= pos,
            with_lines(start, raw@, 0) == with_lines(
                Reading {
                    channels: models(out@),
                    name: characters(pending_name),
                    tvg_id: characters(pending_tvg_id),
                },
                raw@,
                pos as int,
            ),
        decreases chars@.len() - pos,
    {
        let ghost state = Reading {
            channels: models(out@),
            name: characters(pending_name),
            tvg_id: characters(pending_tvg_id),
        };
        let mut end = pos;
        while end < chars.len() && chars[end] != '\n'
            invariant
                pos <= end <= chars@.len(),
                chars@ == raw@,
                line_end(raw@, pos as int) == line_end(raw@, end as int),
            decreases chars@.len() - end,
        {
            end = end + 1;
        }
        let (from, to) = trim_range(&chars, pos, end);
        let line = slice_subrange(chars.as_slice(), from, to);
        let ghost raw_line = raw@.subrange(pos as int, end as int);
        assert(line@ == text::trimmed(raw_line));
        if line.len() > 0 {
            if matches_at(line, &info, 0) {
                pending_name = Some(name_of(line));
                pending_tvg_id = attribute_of(line, "tvg-id");
            } else if line[0] != '#' {
                if let Some(name) = pending_name.take() {
                    let ghost before = out@;
                    let channel = Channel {
                        index: out.len() + 1,
                        display_name: name,
                        source_url: text_between(line, 0, line.len()),
                        tvg_id: pending_tvg_id.take(),
                    };
                    proof {
                        assert(line@.subrange(0, line@.len() as int) =~= line@);
                    }
                    out.push(channel);
                    assert(models(out@) =~= models(before).push(channel@));
                }
            }
        }
        proof {
            lemma_line_end(raw@, pos as int);
            let after = Reading {
                channels: models(out@),
                name: characters(pending_name),
                tvg_id: characters(pending_tvg_id),
            };
            assert(after == with_line(state, raw_line));
            if end == chars@.len() {
                lemma_line_end(raw@, end as int);
                lemma_line_end(raw@, end + 1);
                assert(with_lines(after, raw@, end + 1) == after);
                assert(with_lines(after, raw@, end as int) == after);
            }
        }
        if end == chars.len() {
            pos = end;
        } else {
            pos = end + 1;
        }
    }
    proof {
        lemma_line_end(raw@, pos as int);
    }
    out
}

// ---------------------------------------------------------------------------
// Writing
// ---------------------------------------------------------------------------

/// The endings of a name that tell the picture quality, in the order in which
/// they are tried.
pub open spec fn quality_endings() -> Seq<Seq<char>> {
    seq![
        "-高清"@,
        "-超清"@,
        "-标清"@,
        "-HD"@,
        "-4K"@,
        "-FHD"@,
        "-SD"@,
        "-666666"@,
        "+高清"@,
    ]
}

/// Whether `s` ends with `ending`.
pub open spec fn ends_with(s: Seq<char>, ending: Seq<char>) -> bool {
    text::stands_at(s, ending, s.len() - ending.len())
}

/// `s` without the first of the endings from number `k` on that it has.
pub open spec fn without_ending(s: Seq<char>, endings: Seq<Seq<char>>, k: int) -> Seq<char>
    decreases endings.len() - k,
{
    if k >= endings.len() {
        s
    } else if ends_with(s, endings[k]) {
        s.take(s.len() - endings[k].len())
    } else {
        without_ending(s, endings, k + 1)
    }
}

/// `s` without its spaces.
pub open spec fn without_spaces(s: Seq<char>) -> Seq<char>
    decreases s.len(),
{
    if s.len() == 0 {
        seq![]
    } else if s.last() == ' ' {
        without_spaces(s.drop_last())
    } else {
        without_spaces(s.drop_last()).push(s.last())
    }
}

/// The name under which the logo of a channel is filed: its name without
/// quality ending and spaces.
pub open spec fn logo_name(display: Seq<char>) -> Seq<char> {
    without_spaces(without_ending(text::trimmed(display), quality_endings(), 0))
}

/// Where the logo of a channel is found.
pub open spec fn logo_address(display: Seq<char>, logo_base: Seq<char>) -> Seq<char> {
    text::without_slashes(logo_base) + seq!['/'] + logo_name(display) + ".png"@
}

/// Where a channel is played.
pub open spec fn play_address(base_url: Seq<char>, index: int) -> Seq<char> {
    text::without_slashes(base_url) + "/play/tv-"@ + text::decimal(index)
}

/// The attribute for the programme guide, where the channel has one.
pub open spec fn guide_attribute(tvg_id: Option<Seq<char>>) -> Seq<char> {
    match tvg_id {
        Some(id) => "tvg-id=\""@ + id + "\" "@,
        None => seq![],
    }
}

/// The two lines of a channel in the playlist.
pub open spec fn playlist_entry(
    channel: ChannelModel,
    base_url: Seq<char>,
    logo_base: Seq<char>,
) -> Seq<char> {
    "#EXTINF:-1 "@ + guide_attribute(channel.tvg_id) + "tvg-name=\""@ + channel.display_name
        + "\" tvg-logo=\""@ + logo_address(channel.display_name, logo_base) + "\","@
        + channel.display_name + "\n"@ + play_address(base_url, channel.index) + "\n"@
}

/// The first line of the playlist.
pub open spec fn playlist_head(epg_url: Option<Seq<char>>) -> Seq<char> {
    match epg_url {
        Some(url) => "#EXTM3U x-tvg-url=\""@ + url + "\"\n"@,
        None => "#EXTM3U\n"@,
    }
}

/// The playlist with the first `n` channels.
pub open spec fn playlist_text(
    channels: Seq<ChannelModel>,
    n: int,
    base_url: Seq<char>,
    logo_base: Seq<char>,
    epg_url: Option<Seq<char>>,
) -> Seq<char>
    decreases n,
{
    if n <= 0 {
        playlist_head(epg_url)
    } else {
        playlist_text(channels, n - 1, base_url, logo_base, epg_url) + playlist_entry(
            channels[n - 1],
            base_url,
            logo_base,
        )
    }
}

/// The characters of an optional text.
pub open spec fn borrowed_characters(text: Option<&str>) -> Option<Seq<char>> {
    match text {
        Some(text) => Some(text@),
        None => None,
    }
}

/// The name under which the logo of a channel is filed.
pub fn logo_file(display: &str) -> (name: String)
    ensures
        name@ == logo_name(display@),
{
    let chars = chars_of(display);
    let (from, mut to) = trim_range(&chars, 0, chars.len());
    assert(chars@.subrange(0, chars@.len() as int) =~= display@);
    let ghost plain = text::trimmed(display@);
    let line = slice_subrange(chars.as_slice(), from, to);
    let endings: Vec<&str> = vec![
        "-高清",
        "-超清",
        "-标清",
        "-HD",
        "-4K",
        "-FHD",
        "-SD",
        "-666666",
        "+高清",
    ];
    let ghost all = quality_endings();
    assert(endings@.len() == 9);
    let mut len = line.len();
    let mut k: usize = 0;
    let mut found = false;
    assert(line@.take(len as int) =~= line@);
    while k < endings.len() && !found
        invariant
            line@ == plain,
            all == quality_endings(),
            endings@.len() == all.len() == 9,
            forall|i: int| 0 <= i < 9 ==> (#[trigger] endings@[i])@ == all[i],
            k <= endings@.len(),
            len <= line@.len(),
            found ==> line@.take(len as int) == without_ending(plain, all, 0),
            !found ==> len == line@.len() && without_ending(plain, all, 0) == without_ending(
                plain,
                all,
                k as int,
            ),
        decreases endings@.len() - k + (if found { 0int } else { 1int }),
    {
        let ending = chars_of(endings[k]);
        if ending.len() <= len && matches_at(line, &ending, len - ending.len()) {
            len = len - ending.len();
            found = true;
        } else {
            k = k + 1;
        }
    }
    assert(line@.take(len as int) =~= without_ending(plain, all, 0));
    let ghost bare = line@.take(len as int);
    let mut name = String::new();
    let mut i: usize = 0;
    assert(bare.take(0) =~= seq![]);
    while i < len
        invariant
            i <= len <= line@.len(),
            bare == line@.take(len as int),
            name@ == without_spaces(bare.take(i as int)),
        decreases len - i,
    {
        assert(bare.take(i + 1).drop_last() =~= bare.take(i as int));
        if line[i] != ' ' {
            name.push(line[i]);
        }
        i = i + 1;
    }
    assert(bare.take(len as int) =~= bare);
    name
}

/// Where the logo of a channel is found.
pub fn logo_url(display: &str, logo_base: &str) -> (url: String)
    ensures
        url@ == logo_address(display@, logo_base@),
{
    let base = chars_of(logo_base);
    let mut url = text_between(&base, 0, end_without_slashes(&base));
    url.push('/');
    let file = logo_file(display);
    push_text(&mut url, file.as_str());
    push_text(&mut url, ".png");
    assert(url@ =~= logo_address(display@, logo_base@));
    url
}

/// The playlist that players get: for each channel its name, its logo and its
/// play address.
pub fn render_master(
    channels: &[Channel],
    base_url: &str,
    logo_base: &str,
    epg_url: Option<&str>,
) -> (playlist: String)
    ensures
        playlist@ == playlist_text(
            models(channels@),
            channels@.len() as int,
            base_url@,
            logo_base@,
            borrowed_characters(epg_url),
        ),
{
    let base = chars_of(base_url);
    let base_end = end_without_slashes(&base);
    let mut s = String::new();
    match epg_url {
        Some(url) => {
            push_text(&mut s, "#EXTM3U x-tvg-url=\"");
            push_text(&mut s, url);
            push_text(&mut s, "\"\n");
        },
        None => push_text(&mut s, "#EXTM3U\n"),
    }
    assert(s@ =~= playlist_head(borrowed_characters(epg_url)));
    let mut i: usize = 0;
    while i < channels.len()
        invariant
            i <= channels@.len(),
            base@ == base_url@,
            base_end <= base@.len(),
            base@.subrange(0, base_end as int) == text::without_slashes(base_url@),
            s@ == playlist_text(
                models(channels@),
                i as int,
                base_url@,
                logo_base@,
                borrowed_characters(epg_url),
            ),
        decreases channels@.len() - i,
    {
        let ghost before = s@;
        push_entry(&mut s, &channels[i], &base, base_end, logo_base);
        assert(s@ == before + playlist_entry(models(channels@)[i as int], base_url@, logo_base@));
        i = i + 1;
    }
    s
}

/// Appends the two lines of a channel.
fn push_entry(s: &mut String, channel: &Channel, base: &Vec<char>, base_end: usize, logo_base: &str)
    requires
        base_end <= base@.len(),
        base@.subrange(0, base_end as int) == text::without_slashes(base@),
    ensures
        final(s)@ == old(s)@ + playlist_entry(channel@, base@, logo_base@),
{
    let ghost before = s@;
    let name = channel.display_name.as_str();
    let logo = logo_url(name, logo_base);
    push_text(s, "#EXTINF:-1 ");
    match &channel.tvg_id {
        Some(id) => {
            push_text(s, "tvg-id=\"");
            push_text(s, id.as_str());
            push_text(s, "\" ");
        },
        None => {},
    }
    assert(s@ =~= before + ("#EXTINF:-1 "@ + guide_attribute(channel@.tvg_id)));
    push_text(s, "tvg-name=\"");
    push_text(s, name);
    push_text(s, "\" tvg-logo=\"");
    push_text(s, logo.as_str());
    push_text(s, "\",");
    push_text(s, name);
    push_text(s, "\n");
    let ghost upto = s@;
    push_range(s, base, 0, base_end);
    push_text(s, "/play/tv-");
    push_decimal(s, channel.index as u64);
    assert(s@ =~= upto + play_address(base@, channel@.index));
    push_text(s, "\n");
    assert(s@ =~= before + playlist_entry(channel@, base@, logo_base@));
}

// ---------------------------------------------------------------------------
// Lookup
// ---------------------------------------------------------------------------

/// Why no channel is played.
#[derive(Clone, Copy, Debug, PartialEq, Eq, Structural)]
pub enum LookupError {
    /// The address names no channel number.
    BadChannel,
    /// There is no channel with that number.
    NoSuchChannel,
}

/// The text of the answer.
pub open spec fn lookup_message(error: LookupError) -> Seq<char> {
    match error {
        LookupError::BadChannel => "bad channel"@,
        LookupError::NoSuchChannel => "no such channel"@,
    }
}

impl LookupError {
    /// The text of the answer.
    pub fn message(&self) -> (text: &'static str)
        ensures
            text@ == lookup_message(*self),
            text@ == match self {
                LookupError::BadChannel => "bad channel"@,
                LookupError::NoSuchChannel => "no such channel"@,
            },
    {
        match self {
            LookupError::BadChannel => "bad channel",
            LookupError::NoSuchChannel => "no such channel",
        }
    }
}

/// A number as it may be written: decimal digits behind an optional plus, up
/// to the largest `usize`.
pub open spec fn number_in(s: Seq<char>) -> Option<int> {
    let digits = if s.len() > 0 && s[0] == '+' {
        s.skip(1)
    } else {
        s
    };
    match text::decimal_value(digits) {
        Some(n) => if n <= usize::MAX {
            Some(n)
        } else {
            None
        },
        None => None,
    }
}

/// The channel number in the last part of a play address.
pub open spec fn slug_number(slug: Seq<char>) -> Option<int> {
    if text::stands_at(slug, "tv-"@, 0) {
        number_in(slug.skip(3))
    } else {
        None
    }
}

/// The first channel from position `i` on with number `index`.
pub open spec fn channel_with(channels: Seq<ChannelModel>, index: int, i: int) -> Option<int>
    decreases channels.len() - i,
{
    if i >= channels.len() {
        None
    } else if channels[i].index == index {
        Some(i)
    } else {
        channel_with(channels, index, i + 1)
    }
}

/// The position of the channel that a play address asks for.
pub open spec fn lookup(channels: Seq<ChannelModel>, slug: Seq<char>) -> Result<int, LookupError> {
    match slug_number(slug) {
        None => Err(LookupError::BadChannel),
        Some(index) => match channel_with(channels, index, 0) {
            None => Err(LookupError::NoSuchChannel),
            Some(i) => Ok(i),
        },
    }
}

/// The number that the characters from `start` on write.
fn number_from(chars: &[char], start: usize) -> (number: Option<usize>)
    requires
        start <= chars@.len(),
    ensures
        match (number, number_in(chars@.skip(start as int))) {
            (Some(a), Some(b)) => a == b,
            (None, None) => true,
            _ => false,
        },
{
    let mut i = start;
    if i < chars.len() && chars[i] == '+' {
        i = i + 1;
    }
    let ghost digits = chars@.skip(i as int);
    assert(digits =~= if chars@.skip(start as int).len() > 0 && chars@.skip(start as int)[0] == '+' {
        chars@.skip(start as int).skip(1)
    } else {
        chars@.skip(start as int)
    });
    let first = i;
    if i == chars.len() {
        return None;
    }
    let mut n: usize = 0;
    let mut fits = true;
    while i < chars.len()
        invariant
            first <= i <= chars@.len(),
            first < chars@.len(),
            digits == chars@.skip(first as int),
            i == first ==> n == 0 && fits,
            i > first ==> text::decimal_value(digits.take(i - first)) is Some,
            i > first && fits ==> text::decimal_value(digits.take(i - first)) == Some(n as int),
            i > first && !fits ==> text::decimal_value(digits.take(i - first))->0 > usize::MAX,
            number_in(chars@.skip(start as int)) == (match text::decimal_value(digits) {
                Some(n) => if n <= usize::MAX {
                    Some(n)
                } else {
                    None
                },
                None => None,
            }),
        decreases chars@.len() - i,
    {
        let c = chars[i];
        proof {
            assert(digits.take(i + 1 - first).drop_last() =~= digits.take(i - first));
            assert(digits.take(i + 1 - first).last() == c);
        }
        if c < '0' || c > '9' {
            proof {
                lemma_not_decimal(digits, i - first);
            }
            return None;
        }
        let d = c as usize - '0' as usize;
        if fits {
            match n.checked_mul(10) {
                Some(tens) => match tens.checked_add(d) {
                    Some(sum) => {
                        n = sum;
                    },
                    None => {
                        fits = false;
                    },
                },
                None => {
                    fits = false;
                },
            }
        }
        i = i + 1;
    }
    assert(digits.take(i - first) =~= digits);
    if fits {
        Some(n)
    } else {
        None
    }
}

/// A text with another character among its digits is no number.
proof fn lemma_not_decimal(s: Seq<char>, i: int)
    requires
        0 <= i < s.len(),
        !('0' <= s[i] <= '9'),
    ensures
        text::decimal_value(s) is None,
    decreases s.len(),
{
    if i < s.len() - 1 {
        lemma_not_decimal(s.drop_last(), i);
    }
}

/// The channel number in the last part of a play address.
pub fn parse_slug(slug: &str) -> (number: Option<usize>)
    ensures
        match (number, slug_number(slug@)) {
            (Some(a), Some(b)) => a == b,
            (None, None) => true,
            _ => false,
        },
{
    let chars = chars_of(slug);
    let prefix = chars_of("tv-");
    if !matches_at(&chars, &prefix, 0) {
        return None;
    }
    proof {
        reveal_strlit("tv-");
    }
    number_from(&chars, 3)
}

/// The position in the list of the channel that a play address asks for.
pub fn find_channel(channels: &[Channel], slug: &str) -> (found: Result<usize, LookupError>)
    ensures
        match (found, lookup(models(channels@), slug@)) {
            (Ok(at), Ok(i)) => at == i,
            (Err(a), Err(b)) => a == b,
            _ => false,
        },
        match slug_number(slug@) {
            None => found == Err::<usize, LookupError>(LookupError::BadChannel),
            Some(index) => match channel_with(models(channels@), index, 0) {
                None => found == Err::<usize, LookupError>(LookupError::NoSuchChannel),
                Some(i) => found == Ok::<usize, LookupError>(i as usize) && 0 <= i < channels@.len(),
            },
        },
{
    let index = match parse_slug(slug) {
        Some(index) => index,
        None => return Err(LookupError::BadChannel),
    };
    let mut i: usize = 0;
    while i < channels.len()
        invariant
            i <= channels@.len(),
            slug_number(slug@) == Some(index as int),
            channel_with(models(channels@), index as int, 0) == channel_with(
                models(channels@),
                index as int,
                i as int,
            ),
        decreases channels@.len() - i,
    {
        if channels[i].index == index {
            return Ok(i);
        }
        i = i + 1;
    }
    Err(LookupError::NoSuchChannel)
}

// ---------------------------------------------------------------------------
// Laws
// ---------------------------------------------------------------------------

/// Whether channels are numbered from one on, in the order of the list.
pub open spec fn numbered(channels: Seq<ChannelModel>) -> bool {
    forall|i: int| 0 <= i < channels.len() ==> (#[trigger] channels[i]).index == i + 1
}

proof fn lemma_lines_numbered(state: Reading, s: Seq<char>, i: int)
    requires
        numbered(state.channels),
    ensures
        numbered(with_lines(state, s, i).channels),
    decreases s.len() + 1 - i,
{
    if 0 <= i < s.len() {
        lemma_line_end(s, i);
        let next = with_line(state, s.subrange(i, line_end(s, i)));
        assert(numbered(next.channels));
        lemma_lines_numbered(next, s, line_end(s, i) + 1);
    }
}

/// The channels of a list are numbered from one on.
pub proof fn law_channels_numbered(raw: Seq<char>)
    ensures
        numbered(channels_in(raw)),
{
    lemma_lines_numbered(Reading { channels: seq![], name: None, tvg_id: None }, raw, 0);
}

proof fn lemma_number_found(channels: Seq<ChannelModel>, i: int, k: int)
    requires
        numbered(channels),
        0 <= k <= i < channels.len(),
    ensures
        channel_with(channels, i + 1, k) == Some(i),
    decreases i - k,
{
    if k < i {
        lemma_number_found(channels, i, k + 1);
    }
}

/// The play address of a channel ends in a part by which the channel is found
/// again: the same channel, among all those of its list.
pub proof fn law_play_address_finds_channel(channels: Seq<ChannelModel>, i: int)
    requires
        numbered(channels),
        0 <= i < channels.len() <= usize::MAX,
    ensures
        ({
            let slug = "tv-"@ + text::decimal(channels[i].index);
            &&& play_address(seq![], channels[i].index) == "/play/"@ + slug
            &&& slug_number(slug) == Some(channels[i].index)
            &&& channel_with(channels, channels[i].index, 0) == Some(i)
        }),
{
    let index = channels[i].index;
    let digits = text::decimal(index);
    let slug = "tv-"@ + digits;
    reveal_strlit("tv-");
    reveal_strlit("/play/");
    reveal_strlit("/play/tv-");
    assert(slug.subrange(0, 3) =~= "tv-"@);
    assert(slug.skip(3) =~= digits);
    text::law_decimal_reads_back(index);
    lemma_decimal_first(index);
    lemma_number_found(channels, i, 0);
    assert(text::without_slashes(Seq::<char>::empty()) =~= seq![]);
    assert(play_address(seq![], index) =~= "/play/"@ + slug);
}

/// A number starts with a digit.
proof fn lemma_decimal_first(n: int)
    requires
        0 <= n,
    ensures
        text::decimal(n).len() > 0,
        '0' <= text::decimal(n)[0] <= '9',
    decreases n,
{
    if n >= 10 {
        lemma_decimal_first(n / 10);
    }
}

} // verus!
