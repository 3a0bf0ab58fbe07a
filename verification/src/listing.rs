//! What reading, writing and looking up channels comes to: laws over the lines
//! of a list and over the texts that players get.

use crate::playlist;
use crate::playlist::{ChannelModel, LookupError, Reading};
use crate::reread::lacks;
use crate::text;
use vstd::prelude::*;

verus! {

// ---------------------------------------------------------------------------
// Lines
// ---------------------------------------------------------------------------

/// Lines one after the other, each with its line feed.
pub open spec fn written(lines: Seq<Seq<char>>) -> Seq<char>
    decreases lines.len(),
{
    if lines.len() == 0 {
        seq![]
    } else {
        lines[0] + seq!['\n'] + written(lines.skip(1))
    }
}

/// Whether no line holds a line feed.
pub open spec fn single_lines(lines: Seq<Seq<char>>) -> bool {
    forall|i: int| 0 <= i < lines.len() ==> lacks(#[trigger] lines[i], '\n')
}

/// The channels of a list with these lines.
pub open spec fn channels_of(lines: Seq<Seq<char>>) -> Seq<ChannelModel> {
    playlist::channels_in(written(lines))
}

/// Whether a line names the next channel.
pub open spec fn informs(line: Seq<char>) -> bool {
    text::occurs(text::trimmed(line), "#EXTINF"@, 0)
}

/// Whether a line is empty, or a comment that names no channel.
pub open spec fn says_nothing(line: Seq<char>) -> bool {
    let plain = text::trimmed(line);
    plain.len() == 0 || (plain[0] == '#' && !informs(line))
}

/// Whether a line is an address: neither empty nor a comment.
pub open spec fn addresses(line: Seq<char>) -> bool {
    text::trimmed(line).len() > 0 && text::trimmed(line)[0] != '#'
}

spec fn nothing_read() -> Reading {
    Reading { channels: seq![], name: None, tvg_id: None }
}

spec fn read_all(state: Reading, lines: Seq<Seq<char>>) -> Reading
    decreases lines.len(),
{
    if lines.len() == 0 {
        state
    } else {
        read_all(playlist::with_line(state, lines[0]), lines.skip(1))
    }
}

proof fn lemma_end_of_line(s: Seq<char>, i: int, end: int)
    requires
        0 <= i <= end < s.len(),
        s[end] == '\n',
        forall|j: int| i <= j < end ==> #[trigger] s[j] != '\n',
    ensures
        playlist::line_end(s, i) == end,
    decreases end - i,
{
    if i < end {
        lemma_end_of_line(s, i + 1, end);
    }
}

proof fn lemma_read_written(state: Reading, front: Seq<char>, lines: Seq<Seq<char>>)
    requires
        single_lines(lines),
    ensures
        playlist::with_lines(state, front + written(lines), front.len() as int) == read_all(
            state,
            lines,
        ),
    decreases lines.len(),
{
    let s = front + written(lines);
    if lines.len() == 0 {
        assert(s =~= front);
    } else {
        let line = lines[0];
        let i = front.len() as int;
        let end = i + line.len();
        assert(lacks(line, '\n'));
        assert(s =~= front + line + seq!['\n'] + written(lines.skip(1)));
        assert forall|j: int| i <= j < end implies #[trigger] s[j] != '\n' by {
            assert(s[j] == line[j - i]);
        }
        lemma_end_of_line(s, i, end);
        assert(s.subrange(i, end) =~= line);
        let more = front + line + seq!['\n'];
        assert(more.len() == end + 1);
        assert(single_lines(lines.skip(1))) by {
            assert forall|k: int| 0 <= k < lines.skip(1).len() implies lacks(
                #[trigger] lines.skip(1)[k],
                '\n',
            ) by {
                assert(lacks(lines[k + 1], '\n'));
            }
        }
        lemma_read_written(playlist::with_line(state, line), more, lines.skip(1));
        assert(s == more + written(lines.skip(1)));
        playlist::lemma_line_end(s, i);
    }
}

proof fn lemma_channels_of(lines: Seq<Seq<char>>)
    requires
        single_lines(lines),
    ensures
        channels_of(lines) == read_all(nothing_read(), lines).channels,
{
    lemma_read_written(nothing_read(), seq![], lines);
    assert(Seq::<char>::empty() + written(lines) =~= written(lines));
}

proof fn lemma_read_behind(state: Reading, a: Seq<Seq<char>>, b: Seq<Seq<char>>)
    ensures
        read_all(state, a + b) == read_all(read_all(state, a), b),
    decreases a.len(),
{
    if a.len() == 0 {
        assert(a + b =~= b);
    } else {
        assert((a + b).skip(1) =~= a.skip(1) + b);
        lemma_read_behind(playlist::with_line(state, a[0]), a.skip(1), b);
    }
}

proof fn lemma_read_one(state: Reading, line: Seq<char>)
    ensures
        read_all(state, seq![line]) == playlist::with_line(state, line),
{
    assert(seq![line].skip(1) =~= seq![]);
    assert(read_all(playlist::with_line(state, line), seq![line].skip(1)) == playlist::with_line(
        state,
        line,
    ));
}

proof fn lemma_read_two(state: Reading, a: Seq<char>, b: Seq<char>)
    ensures
        read_all(state, seq![a, b]) == playlist::with_line(playlist::with_line(state, a), b),
{
    assert(seq![a, b].skip(1) =~= seq![b]);
    lemma_read_one(playlist::with_line(state, a), b);
}

proof fn lemma_single(before: Seq<Seq<char>>, line: Seq<char>, behind: Seq<Seq<char>>)
    requires
        single_lines(before),
        lacks(line, '\n'),
        single_lines(behind),
    ensures
        single_lines(before + seq![line] + behind),
        single_lines(before + seq![line]),
        single_lines(before + behind),
{
    let all = before + seq![line] + behind;
    assert forall|i: int| 0 <= i < all.len() implies lacks(#[trigger] all[i], '\n') by {
        if i < before.len() {
            assert(all[i] == before[i]);
        } else if i > before.len() {
            assert(all[i] == behind[i - before.len() - 1]);
        }
    }
    assert forall|i: int| 0 <= i < (before + behind).len() implies lacks(
        #[trigger] (before + behind)[i],
        '\n',
    ) by {
        if i < before.len() {
            assert((before + behind)[i] == before[i]);
        } else {
            assert((before + behind)[i] == behind[i - before.len()]);
        }
    }
    assert forall|i: int| 0 <= i < (before + seq![line]).len() implies lacks(
        #[trigger] (before + seq![line])[i],
        '\n',
    ) by {
        if i < before.len() {
            assert((before + seq![line])[i] == before[i]);
        }
    }
}

/// The state after some lines with one line among them.
proof fn lemma_with_line_between(
    before: Seq<Seq<char>>,
    line: Seq<char>,
    behind: Seq<Seq<char>>,
)
    requires
        single_lines(before),
        lacks(line, '\n'),
        single_lines(behind),
    ensures
        ({
            let state = read_all(nothing_read(), before);
            &&& channels_of(before + seq![line] + behind) == read_all(
                playlist::with_line(state, line),
                behind,
            ).channels
            &&& channels_of(before + behind) == read_all(state, behind).channels
            &&& channels_of(before + seq![line]) == playlist::with_line(state, line).channels
            &&& channels_of(before) == state.channels
        }),
{
    lemma_single(before, line, behind);
    lemma_channels_of(before + seq![line] + behind);
    lemma_channels_of(before + seq![line]);
    lemma_channels_of(before + behind);
    lemma_channels_of(before);
    lemma_read_behind(nothing_read(), before + seq![line], behind);
    lemma_read_behind(nothing_read(), before, seq![line]);
    lemma_read_behind(nothing_read(), before, behind);
    lemma_read_one(read_all(nothing_read(), before), line);
}

// ---------------------------------------------------------------------------
// Laws of reading
// ---------------------------------------------------------------------------

/// Comments and empty lines are skipped, wherever they stand: the channels are
/// those of the list without them.
pub proof fn law_comments_skipped(
    before: Seq<Seq<char>>,
    line: Seq<char>,
    behind: Seq<Seq<char>>,
)
    requires
        single_lines(before),
        lacks(line, '\n'),
        single_lines(behind),
        says_nothing(line),
    ensures
        channels_of(before + seq![line] + behind) == channels_of(before + behind),
{
    lemma_with_line_between(before, line, behind);
    text::law_stands(text::trimmed(line), "#EXTINF"@, 0);
}

/// An information line with an address behind it is one channel more: with the
/// next number, the name and the identifier of the information line, and that
/// address.
pub proof fn law_channel_read(before: Seq<Seq<char>>, info: Seq<char>, address: Seq<char>)
    requires
        single_lines(before),
        lacks(info, '\n'),
        lacks(address, '\n'),
        informs(info),
        addresses(address),
    ensures
        channels_of(before + seq![info] + seq![address]) == channels_of(before).push(
            ChannelModel {
                index: channels_of(before).len() as int + 1,
                display_name: playlist::name_in(text::trimmed(info)),
                source_url: text::trimmed(address),
                tvg_id: playlist::attribute(text::trimmed(info), "tvg-id"@),
            },
        ),
{
    let none = Seq::<Seq<char>>::empty();
    lemma_with_line_between(before, info, none);
    lemma_single(before, info, none);
    lemma_with_line_between(before + seq![info], address, none);
    lemma_read_behind(nothing_read(), before, seq![info]);
    lemma_read_one(read_all(nothing_read(), before), info);
    lemma_stands_info(info);
    lemma_stands_info(address);
}

proof fn lemma_stands_info(line: Seq<char>)
    ensures
        informs(line) == text::stands_at(text::trimmed(line), "#EXTINF"@, 0),
        informs(line) ==> text::trimmed(line).len() > 0 && text::trimmed(line)[0] == '#',
{
    let plain = text::trimmed(line);
    text::law_stands(plain, "#EXTINF"@, 0);
    reveal_strlit("#EXTINF");
    if informs(line) {
        assert(plain[0int + 0int] == "#EXTINF"@[0int]);
    }
}

/// An information line without an address behind it is no channel.
pub proof fn law_information_alone(before: Seq<Seq<char>>, info: Seq<char>)
    requires
        single_lines(before),
        lacks(info, '\n'),
        informs(info),
    ensures
        channels_of(before + seq![info]) == channels_of(before),
{
    lemma_with_line_between(before, info, seq![]);
    lemma_stands_info(info);
}

/// Of two information lines in a row the second counts.
pub proof fn law_last_information_counts(
    before: Seq<Seq<char>>,
    first: Seq<char>,
    second: Seq<char>,
    behind: Seq<Seq<char>>,
)
    requires
        single_lines(before),
        lacks(first, '\n'),
        lacks(second, '\n'),
        single_lines(behind),
        informs(first),
        informs(second),
    ensures
        channels_of(before + seq![first] + seq![second] + behind) == channels_of(
            before + seq![second] + behind,
        ),
{
    lemma_single(before, first, behind);
    lemma_with_line_between(before + seq![first], second, behind);
    lemma_with_line_between(before, second, behind);
    lemma_read_behind(nothing_read(), before, seq![first]);
    lemma_read_one(read_all(nothing_read(), before), first);
    lemma_stands_info(first);
    lemma_stands_info(second);
}

/// An address counts once: a second address behind it is ignored, and so is one
/// before all information lines.
pub proof fn law_address_alone(
    before: Seq<Seq<char>>,
    first: Seq<char>,
    second: Seq<char>,
    behind: Seq<Seq<char>>,
)
    requires
        single_lines(before),
        lacks(first, '\n'),
        lacks(second, '\n'),
        single_lines(behind),
        addresses(first),
        addresses(second),
    ensures
        channels_of(before + seq![first] + seq![second] + behind) == channels_of(
            before + seq![first] + behind,
        ),
        channels_of(seq![first] + behind) == channels_of(behind),
{
    let none = Seq::<Seq<char>>::empty();
    lemma_single(before, first, behind);
    lemma_with_line_between(before + seq![first], second, behind);
    lemma_read_behind(nothing_read(), before, seq![first]);
    lemma_read_one(read_all(nothing_read(), before), first);
    lemma_stands_info(first);
    lemma_stands_info(second);
    lemma_with_line_between(none, first, behind);
    assert(none + seq![first] + behind =~= seq![first] + behind);
    assert(none + behind =~= behind);
}

/// What is read of the first lines stays, whatever comes behind them.
pub proof fn law_channels_stay(before: Seq<Seq<char>>, behind: Seq<Seq<char>>)
    requires
        single_lines(before),
        single_lines(behind),
    ensures
        channels_of(before).len() <= channels_of(before + behind).len(),
        channels_of(before + behind).take(channels_of(before).len() as int) == channels_of(before),
{
    lemma_single(before, seq![], behind);
    lemma_channels_of(before);
    lemma_channels_of(before + behind);
    lemma_read_behind(nothing_read(), before, behind);
    lemma_channels_grow(read_all(nothing_read(), before), behind);
}

proof fn lemma_channels_grow(state: Reading, lines: Seq<Seq<char>>)
    ensures
        state.channels.len() <= read_all(state, lines).channels.len(),
        read_all(state, lines).channels.take(state.channels.len() as int) == state.channels,
    decreases lines.len(),
{
    let n = state.channels.len() as int;
    if lines.len() == 0 {
        assert(state.channels.take(n) =~= state.channels);
    } else {
        let next = playlist::with_line(state, lines[0]);
        lemma_channels_grow(next, lines.skip(1));
        let all = read_all(state, lines).channels;
        assert(next.channels.take(n) =~= state.channels);
        assert(all.take(n) =~= all.take(next.channels.len() as int).take(n));
    }
}

/// White space around a line does not matter, a carriage return at its end
/// among it.
pub proof fn law_space_around_lines(
    before: Seq<Seq<char>>,
    line: Seq<char>,
    behind: Seq<Seq<char>>,
)
    requires
        single_lines(before),
        lacks(line, '\n'),
        single_lines(behind),
    ensures
        channels_of(before + seq![line] + behind) == channels_of(
            before + seq![text::trimmed(line)] + behind,
        ),
{
    let plain = text::trimmed(line);
    let parts = text::law_trimmed_splits(line);
    let none = Seq::<char>::empty();
    assert(none + plain + none =~= plain);
    text::law_trimmed_between(none, plain, none);
    assert forall|i: int| 0 <= i < plain.len() implies #[trigger] plain[i] != '\n' by {
        assert(line[parts.0.len() + i] == plain[i]);
    }
    lemma_with_line_between(before, line, behind);
    lemma_with_line_between(before, plain, behind);
}

/// The last line needs no line feed.
pub proof fn law_last_line_feed(s: Seq<char>)
    ensures
        playlist::channels_in(s + seq!['\n']) == playlist::channels_in(s),
{
    lemma_last_line_feed(nothing_read(), s, 0);
}

proof fn lemma_same_line_end(s: Seq<char>, i: int)
    requires
        0 <= i <= s.len(),
    ensures
        playlist::line_end(s + seq!['\n'], i) == playlist::line_end(s, i),
    decreases s.len() - i,
{
    if i < s.len() && s[i] != '\n' {
        lemma_same_line_end(s, i + 1);
    }
}

proof fn lemma_last_line_feed(state: Reading, s: Seq<char>, i: int)
    requires
        0 <= i,
    ensures
        playlist::with_lines(state, s + seq!['\n'], i).channels == playlist::with_lines(
            state,
            s,
            i,
        ).channels,
    decreases s.len() + 1 - i,
{
    let longer = s + seq!['\n'];
    if i < s.len() {
        let end = playlist::line_end(s, i);
        playlist::lemma_line_end(s, i);
        lemma_same_line_end(s, i);
        assert(longer.subrange(i, end) =~= s.subrange(i, end));
        lemma_last_line_feed(
            playlist::with_line(state, s.subrange(i, end)),
            s,
            end + 1,
        );
    } else if i == s.len() {
        assert(playlist::line_end(longer, i) == i);
        assert(longer.subrange(i, i) =~= seq![]);
        assert(text::trimmed(Seq::<char>::empty()) =~= seq![]);
        assert(playlist::with_lines(state, longer, i + 1) == state);
    }
}

/// An empty list has no channels.
pub proof fn law_empty_list()
    ensures
        playlist::channels_in(seq![]).len() == 0,
{
}

/// The name of an attribute as it stands before its value.
pub open spec fn opening(attr: Seq<char>) -> Seq<char> {
    attr + seq!['=', '"']
}

/// The value of an attribute stands in quotes behind its name and an equals
/// sign, where these occur first; it holds no quote. There is none exactly where
/// they do not occur with a quote anywhere behind them.
pub proof fn law_attribute(line: Seq<char>, attr: Seq<char>) -> (at: int)
    ensures
        match playlist::attribute(line, attr) {
            Some(value) => {
                &&& text::occurs(line, opening(attr) + value + seq!['"'], at)
                &&& lacks(value, '"')
                &&& forall|p: int|
                    0 <= p < at ==> !#[trigger] text::occurs(line, opening(attr), p)
            },
            None => forall|p: int, q: int|
                #[trigger] text::occurs(line, opening(attr), p) && p + attr.len() + 2 <= q
                    < line.len() ==> #[trigger] line[q] != '"',
        },
{
    let needle = opening(attr);
    let quote = seq!['"'];
    text::law_search(line, needle, 0);
    match text::first_at(line, needle, 0) {
        None => 0,
        Some(at) => {
            let start = at + needle.len();
            text::law_search(line, quote, start as int);
            match text::first_at(line, quote, start as int) {
                None => {
                    assert forall|p: int, q: int|
                        #[trigger] text::occurs(line, needle, p) && p + attr.len() + 2 <= q
                            < line.len() implies #[trigger] line[q] != '"' by {
                        if line[q] == '"' {
                            assert(text::occurs(line, quote, q));
                        }
                    }
                },
                Some(end) => {
                    let value = line.subrange(start as int, end);
                    let all = needle + value + quote;
                    assert(line[end + 0] == quote[0]);
                    assert forall|j: int| 0 <= j < all.len() implies line[at + j]
                        == #[trigger] all[j] by {
                        if j < needle.len() {
                            assert(line[at + j] == needle[j]);
                        }
                    }
                    assert forall|i: int| 0 <= i < value.len() implies #[trigger] value[i] != '"' by {
                        if value[i] == '"' {
                            assert(text::occurs(line, quote, start + i));
                        }
                    }
                    assert(text::occurs(line, all, at));
                },
            }
            at
        },
    }
}

proof fn lemma_behind_comma(line: Seq<char>, k: int, start: int)
    requires
        0 <= start <= k <= line.len(),
        start > 0 ==> line[start - 1] == ',',
        forall|i: int| start <= i < k ==> #[trigger] line[i] != ',',
    ensures
        playlist::behind_comma(line, k) == if start > 0 {
            Some(start)
        } else {
            None
        },
    decreases k - start,
{
    if start < k {
        assert(line[k - 1] != ',');
        lemma_behind_comma(line, k - 1, start);
    }
}

/// A channel is named by the attribute for its name, where the line has it; else
/// by what stands behind the last comma, without white space around it; and is
/// unknown where there is no comma.
pub proof fn law_name(line: Seq<char>, front: Seq<char>, name: Seq<char>)
    requires
        lacks(name, ','),
    ensures
        playlist::attribute(line, "tvg-name"@) matches Some(value) ==> playlist::name_in(line)
            == value,
        line == front + seq![','] + name && playlist::attribute(line, "tvg-name"@) is None
            ==> playlist::name_in(line) == text::trimmed(name),
        line == name && playlist::attribute(line, "tvg-name"@) is None ==> playlist::name_in(line)
            == "unknown"@,
{
    if line == front + seq![','] + name {
        let start = front.len() as int + 1;
        assert forall|i: int| start <= i < line.len() implies #[trigger] line[i] != ',' by {
            assert(line[i] == name[i - start]);
        }
        lemma_behind_comma(line, line.len() as int, start);
        assert(line.skip(start) =~= name);
    }
    if line == name {
        lemma_behind_comma(line, line.len() as int, 0);
    }
}

// ---------------------------------------------------------------------------
// Laws of writing
// ---------------------------------------------------------------------------

/// Spaces go one by one, and every other character stays.
pub proof fn law_without_spaces(a: Seq<char>, b: Seq<char>, c: char)
    ensures
        playlist::without_spaces(Seq::<char>::empty()).len() == 0,
        playlist::without_spaces(seq![c]) == if c == ' ' {
            Seq::<char>::empty()
        } else {
            seq![c]
        },
        playlist::without_spaces(a + b) == playlist::without_spaces(a) + playlist::without_spaces(
            b,
        ),
    decreases b.len(),
{
    assert(playlist::without_spaces(seq![c].drop_last()) =~= seq![]);
    assert(seq![c].last() == c);
    assert(playlist::without_spaces(seq![c]) =~= if c == ' ' {
        Seq::<char>::empty()
    } else {
        seq![c]
    });
    if b.len() == 0 {
        assert(a + b =~= a);
        assert(playlist::without_spaces(a + b) =~= playlist::without_spaces(a)
            + playlist::without_spaces(b));
    } else {
        law_without_spaces(a, b.drop_last(), c);
        assert((a + b).drop_last() =~= a + b.drop_last());
        assert(playlist::without_spaces(a + b) =~= playlist::without_spaces(a)
            + playlist::without_spaces(b));
    }
}

/// What a name may end in to tell the quality of the picture.
pub open spec fn quality_marks() -> Seq<Seq<char>> {
    seq![
        "-高清"@,
        "-超清"@,
        "-标清"@,
        "-HD"@,
        "-4K"@,
        "-FHD"@,
        "-SD"@,
        "-666666"@,
        "+高清"@,
    ]
}

proof fn lemma_ending(bare: Seq<char>, k: int, from: int)
    requires
        0 <= from <= k <= 9,
        k < 9 ==> text::occurs(bare, quality_marks()[k], bare.len() - quality_marks()[k].len()),
        forall|j: int|
            0 <= j < k ==> !text::occurs(
                bare,
                #[trigger] quality_marks()[j],
                bare.len() - quality_marks()[j].len(),
            ),
    ensures
        playlist::without_ending(bare, playlist::quality_endings(), from) == if k < 9 {
            bare.take(bare.len() - quality_marks()[k].len())
        } else {
            bare
        },
    decreases k - from,
{
    assert(playlist::quality_endings() =~= quality_marks());
    if from < 9 {
        let mark = quality_marks()[from];
        text::law_stands(bare, mark, bare.len() - mark.len());
        if from < k {
            lemma_ending(bare, k, from + 1);
        }
    }
}

/// The logo of a channel is filed under its name without the white space around
/// it, without the first of the quality marks that it ends in, and without
/// spaces.
pub proof fn law_logo_name(
    before: Seq<char>,
    bare: Seq<char>,
    behind: Seq<char>,
    k: int,
)
    requires
        text::blank(before),
        text::blank(behind),
        text::tight(bare),
        0 <= k <= 9,
        k < 9 ==> text::occurs(bare, quality_marks()[k], bare.len() - quality_marks()[k].len()),
        forall|j: int|
            0 <= j < k ==> !text::occurs(
                bare,
                #[trigger] quality_marks()[j],
                bare.len() - quality_marks()[j].len(),
            ),
    ensures
        playlist::logo_name(before + bare + behind) == playlist::without_spaces(
            if k < 9 {
                bare.take(bare.len() - quality_marks()[k].len())
            } else {
                bare
            },
        ),
{
    text::law_trimmed_between(before, bare, behind);
    lemma_ending(bare, k, 0);
}

/// The playlist starts with its head line, which names the programme guide where
/// there is one.
pub proof fn law_playlist_head(
    channels: Seq<ChannelModel>,
    base_url: Seq<char>,
    logo_base: Seq<char>,
    epg_url: Option<Seq<char>>,
)
    ensures
        playlist::playlist_text(channels, 0, base_url, logo_base, epg_url) == match epg_url {
            Some(url) => "#EXTM3U x-tvg-url=\""@ + url + "\"\n"@,
            None => "#EXTM3U\n"@,
        },
{
}

/// The playlist holds two lines for each channel: the first with its identifier in
/// the guide, its name, its logo and its name again; the second with its play
/// address.
pub proof fn law_playlist_written(
    channels: Seq<ChannelModel>,
    n: int,
    base_url: Seq<char>,
    logo_base: Seq<char>,
    epg_url: Option<Seq<char>>,
)
    requires
        0 <= n < channels.len(),
    ensures
        ({
            let channel = channels[n];
            let id = match channel.tvg_id {
                Some(id) => "tvg-id=\""@ + id + "\" "@,
                None => Seq::<char>::empty(),
            };
            let logo = text::without_slashes(logo_base) + "/"@ + playlist::logo_name(
                channel.display_name,
            ) + ".png"@;
            let address = text::without_slashes(base_url) + "/play/tv-"@ + text::decimal(
                channel.index,
            );
            playlist::playlist_text(channels, n + 1, base_url, logo_base, epg_url)
                == playlist::playlist_text(channels, n, base_url, logo_base, epg_url)
                + "#EXTINF:-1 "@ + id + "tvg-name=\""@ + channel.display_name + "\" tvg-logo=\""@
                + logo + "\","@ + channel.display_name + "\n"@ + address + "\n"@
        }),
{
    let channel = channels[n];
    let id = match channel.tvg_id {
        Some(id) => "tvg-id=\""@ + id + "\" "@,
        None => Seq::<char>::empty(),
    };
    let logo = text::without_slashes(logo_base) + "/"@ + playlist::logo_name(channel.display_name)
        + ".png"@;
    let address = text::without_slashes(base_url) + "/play/tv-"@ + text::decimal(channel.index);
    reveal_strlit("/");
    assert("/"@ =~= seq!['/']);
    assert(playlist::playlist_text(channels, n + 1, base_url, logo_base, epg_url)
        =~= playlist::playlist_text(channels, n, base_url, logo_base, epg_url) + "#EXTINF:-1 "@ + id
        + "tvg-name=\""@ + channel.display_name + "\" tvg-logo=\""@ + logo + "\","@
        + channel.display_name + "\n"@ + address + "\n"@);
}

// ---------------------------------------------------------------------------
// Laws of looking up
// ---------------------------------------------------------------------------

/// A play address ends in `tv-` and a number: decimal digits, with a plus before
/// them or without, up to the largest `usize`. Nothing else names a channel.
pub proof fn law_slug(slug: Seq<char>, digits: Seq<char>)
    ensures
        !text::occurs(slug, "tv-"@, 0) ==> playlist::slug_number(slug) is None,
        slug == "tv-"@ + digits || (slug == "tv-+"@ + digits) ==> {
            let value = text::decimal_value(digits);
            value is Some ==> playlist::slug_number(slug) == if value->0 <= usize::MAX {
                value
            } else {
                None
            }
        },
        slug == "tv-"@ + digits && text::decimal_value(digits) is None && !(digits.len() > 0
            && digits[0] == '+') ==> playlist::slug_number(slug) is None,
        slug == "tv-+"@ + digits && text::decimal_value(digits) is None
            ==> playlist::slug_number(slug) is None,
{
    text::law_stands(slug, "tv-"@, 0);
    text::law_decimal_value(digits);
    reveal_strlit("tv-");
    reveal_strlit("tv-+");
    if slug == "tv-"@ + digits {
        assert(slug.subrange(0, 3) =~= "tv-"@);
        assert(slug.skip(3) =~= digits);
    }
    if slug == "tv-+"@ + digits {
        assert(slug.subrange(0, 3) =~= "tv-"@);
        assert(slug.skip(3)[0] == '+');
        assert(slug.skip(3).skip(1) =~= digits);
    }
}

/// The channel that is found is the first with the number; where none is found,
/// none has it.
pub proof fn law_channel_found(channels: Seq<ChannelModel>, index: int, from: int)
    requires
        0 <= from,
    ensures
        match playlist::channel_with(channels, index, from) {
            Some(at) => {
                &&& from <= at < channels.len()
                &&& channels[at].index == index
                &&& forall|i: int| from <= i < at ==> (#[trigger] channels[i]).index != index
            },
            None => forall|i: int|
                from <= i < channels.len() ==> (#[trigger] channels[i]).index != index,
        },
    decreases channels.len() - from,
{
    if from < channels.len() && channels[from].index != index {
        law_channel_found(channels, index, from + 1);
    }
}

/// What is played for an address: the first channel with its number. An address
/// without a number is refused as bad, and one with a number that no channel has as
/// unknown.
pub proof fn law_lookup(channels: Seq<ChannelModel>, slug: Seq<char>)
    ensures
        match playlist::lookup(channels, slug) {
            Ok(at) => {
                &&& 0 <= at < channels.len()
                &&& playlist::slug_number(slug) == Some(channels[at].index)
                &&& forall|i: int|
                    0 <= i < at ==> (#[trigger] channels[i]).index != channels[at].index
            },
            Err(LookupError::BadChannel) => playlist::slug_number(slug) is None,
            Err(LookupError::NoSuchChannel) => {
                &&& playlist::slug_number(slug) is Some
                &&& forall|i: int|
                    0 <= i < channels.len() ==> (#[trigger] channels[i]).index
                        != playlist::slug_number(slug)->0
            },
        },
{
    if let Some(index) = playlist::slug_number(slug) {
        law_channel_found(channels, index, 0);
    }
}

/// What a refused player is told.
pub proof fn law_lookup_messages()
    ensures
        playlist::lookup_message(LookupError::BadChannel) == "bad channel"@,
        playlist::lookup_message(LookupError::NoSuchChannel) == "no such channel"@,
{
}

} // verus!
