//! Reading back a playlist that was written: the channels come back.

use crate::playlist;
use crate::playlist::{ChannelModel, Reading};
use crate::text;
use vstd::prelude::*;

verus! {

// ---------------------------------------------------------------------------
// Characters that do not occur
// ---------------------------------------------------------------------------

/// Whether a character does not occur in a text.
pub open spec fn lacks(s: Seq<char>, c: char) -> bool {
    forall|i: int| 0 <= i < s.len() ==> #[trigger] s[i] != c
}

proof fn lemma_trimmed_lacks(s: Seq<char>, c: char)
    requires
        lacks(s, c),
    ensures
        lacks(text::trimmed(s), c),
{
    lemma_trimmed_start_lacks(s, c);
    lemma_trimmed_end_lacks(text::trimmed_start(s), c);
}

proof fn lemma_trimmed_start_lacks(s: Seq<char>, c: char)
    requires
        lacks(s, c),
    ensures
        lacks(text::trimmed_start(s), c),
    decreases s.len(),
{
    if s.len() > 0 && text::is_space(s[0]) {
        lemma_trimmed_start_lacks(s.skip(1), c);
    }
}

proof fn lemma_trimmed_end_lacks(s: Seq<char>, c: char)
    requires
        lacks(s, c),
    ensures
        lacks(text::trimmed_end(s), c),
    decreases s.len(),
{
    if s.len() > 0 && text::is_space(s.last()) {
        lemma_trimmed_end_lacks(s.drop_last(), c);
    }
}

/// A text without the slashes at its end is a beginning of it.
proof fn lemma_without_slashes(s: Seq<char>)
    ensures
        text::without_slashes(s).len() <= s.len(),
        text::without_slashes(s) == s.take(text::without_slashes(s).len() as int),
    decreases s.len(),
{
    if s.len() > 0 && s.last() == '/' {
        lemma_without_slashes(s.drop_last());
        let n = text::without_slashes(s).len() as int;
        assert(s.drop_last().take(n) =~= s.take(n));
    } else {
        assert(s.take(s.len() as int) =~= s);
    }
}

proof fn lemma_without_slashes_lacks(s: Seq<char>, c: char)
    requires
        lacks(s, c),
    ensures
        lacks(text::without_slashes(s), c),
{
    lemma_without_slashes(s);
}

proof fn lemma_without_spaces_lacks(s: Seq<char>, c: char)
    requires
        lacks(s, c),
    ensures
        lacks(playlist::without_spaces(s), c),
    decreases s.len(),
{
    if s.len() > 0 {
        lemma_without_spaces_lacks(s.drop_last(), c);
        assert(s[s.len() - 1] != c);
    }
}

proof fn lemma_without_ending_lacks(s: Seq<char>, endings: Seq<Seq<char>>, k: int, c: char)
    requires
        lacks(s, c),
    ensures
        lacks(playlist::without_ending(s, endings, k), c),
    decreases endings.len() - k,
{
    if k < endings.len() {
        lemma_without_ending_lacks(s, endings, k + 1, c);
    }
}

/// The address of a logo lacks what the name and the base lack.
proof fn lemma_logo_lacks(display: Seq<char>, logo_base: Seq<char>, c: char)
    requires
        lacks(display, c),
        lacks(logo_base, c),
        c == '"' || c == '\n',
    ensures
        lacks(playlist::logo_address(display, logo_base), c),
        playlist::logo_address(display, logo_base).len() > 0,
        playlist::logo_address(display, logo_base).last() == 'g',
{
    let plain = text::trimmed(display);
    let endings = playlist::quality_endings();
    reveal_strlit(".png");
    lemma_trimmed_lacks(display, c);
    lemma_without_ending_lacks(plain, endings, 0, c);
    lemma_without_spaces_lacks(playlist::without_ending(plain, endings, 0), c);
    lemma_without_slashes_lacks(logo_base, c);
}

proof fn lemma_decimal_digits(n: int)
    requires
        0 <= n,
    ensures
        text::decimal(n).len() > 0,
        forall|i: int|
            0 <= i < text::decimal(n).len() ==> '0' <= #[trigger] text::decimal(n)[i] <= '9',
    decreases n,
{
    if n >= 10 {
        lemma_decimal_digits(n / 10);
    }
}

// ---------------------------------------------------------------------------
// Lines
// ---------------------------------------------------------------------------

proof fn lemma_line_ends(s: Seq<char>, i: int, end: int)
    requires
        0 <= i <= end < s.len(),
        s[end] == '\n',
        forall|j: int| i <= j < end ==> #[trigger] s[j] != '\n',
    ensures
        playlist::line_end(s, i) == end,
    decreases end - i,
{
    if i < end {
        lemma_line_ends(s, i + 1, end);
    }
}

/// Reading a line that stands at position `i`.
proof fn lemma_line_read(state: Reading, s: Seq<char>, i: int, line: Seq<char>)
    requires
        0 <= i,
        i + line.len() < s.len(),
        s.subrange(i, i + line.len()) == line,
        s[i + line.len()] == '\n',
        lacks(line, '\n'),
    ensures
        playlist::with_lines(state, s, i) == playlist::with_lines(
            playlist::with_line(state, line),
            s,
            i + line.len() + 1,
        ),
{
    let end = i + line.len();
    assert forall|j: int| i <= j < end implies #[trigger] s[j] != '\n' by {
        assert(line[j - i] == s[j]);
    }
    lemma_line_ends(s, i, end);
}

/// Nothing is cut off before a position behind which no white space ends.
proof fn lemma_trimmed_keeps(s: Seq<char>, k: int) -> (end: int)
    requires
        0 < k <= s.len(),
        !text::is_space(s[0]),
        !text::is_space(s[k - 1]),
    ensures
        k <= end <= s.len(),
        text::trimmed(s) == s.take(end),
{
    let end = lemma_trimmed_end_keeps(s, k);
    end
}

proof fn lemma_trimmed_end_keeps(s: Seq<char>, k: int) -> (end: int)
    requires
        0 < k <= s.len(),
        !text::is_space(s[k - 1]),
    ensures
        k <= end <= s.len(),
        text::trimmed_end(s) == s.take(end),
    decreases s.len(),
{
    if text::is_space(s.last()) {
        let end = lemma_trimmed_end_keeps(s.drop_last(), k);
        assert(s.drop_last().take(end) =~= s.take(end));
        end
    } else {
        assert(s.take(s.len() as int) =~= s);
        s.len() as int
    }
}

// ---------------------------------------------------------------------------
// Attributes
// ---------------------------------------------------------------------------

proof fn lemma_first_at(s: Seq<char>, needle: Seq<char>, from: int, at: int)
    requires
        0 <= from <= at,
        text::stands_at(s, needle, at),
        forall|j: int| from <= j < at ==> !#[trigger] text::stands_at(s, needle, j),
    ensures
        text::first_at(s, needle, from) == Some(at),
    decreases at - from,
{
    if from < at {
        assert(!text::stands_at(s, needle, from));
        lemma_first_at(s, needle, from + 1, at);
    }
}

proof fn lemma_nowhere(s: Seq<char>, needle: Seq<char>, from: int)
    requires
        0 <= from,
        forall|j: int| from <= j ==> !#[trigger] text::stands_at(s, needle, j),
    ensures
        text::first_at(s, needle, from) is None,
    decreases s.len() + 1 - from,
{
    if from + needle.len() <= s.len() {
        assert(!text::stands_at(s, needle, from));
        lemma_nowhere(s, needle, from + 1);
    }
}

/// The value of an attribute that stands at position `at`, where its name with
/// the equals sign and the quote stands nowhere before.
proof fn lemma_attribute(line: Seq<char>, attr: Seq<char>, at: int, value: Seq<char>)
    requires
        ({
            let needle = attr + seq!['=', '"'];
            let start = at + needle.len();
            &&& text::stands_at(line, needle, at)
            &&& forall|j: int| 0 <= j < at ==> !#[trigger] text::stands_at(line, needle, j)
            &&& start + value.len() < line.len()
            &&& line.subrange(start, start + value.len()) == value
            &&& line[start + value.len()] == '"'
        }),
        lacks(value, '"'),
    ensures
        playlist::attribute(line, attr) == Some(value),
{
    let needle = attr + seq!['=', '"'];
    let start = at + needle.len();
    let end = start + value.len();
    lemma_first_at(line, needle, 0, at);
    assert forall|j: int| start <= j < end implies !#[trigger] text::stands_at(line, seq!['"'], j) by {
        assert(value[j - start] == line[j]);
        if text::stands_at(line, seq!['"'], j) {
            assert(line.subrange(j, j + 1)[0] == '"');
        }
    }
    assert(line.subrange(end, end + 1) =~= seq!['"']);
    lemma_first_at(line, seq!['"'], start, end);
}

/// What stands where an attribute does.
proof fn lemma_attribute_signs(line: Seq<char>, attr: Seq<char>, j: int)
    requires
        attr.len() > 0,
        text::stands_at(line, attr + seq!['=', '"'], j),
    ensures
        line[j + attr.len() - 1] == attr.last(),
        line[j + attr.len()] == '=',
        line[j + attr.len() + 1] == '"',
        j + attr.len() + 1 < line.len(),
{
    let needle = attr + seq!['=', '"'];
    let n = attr.len() as int;
    let found = line.subrange(j, j + needle.len());
    assert(found[n - 1] == line[j + n - 1]);
    assert(found[n] == line[j + n]);
    assert(found[n + 1] == line[j + n + 1]);
    assert(needle[n - 1] == attr.last());
}

// ---------------------------------------------------------------------------
// The information line
// ---------------------------------------------------------------------------

/// What stands before the name in an information line.
spec fn front_of(tvg_id: Option<Seq<char>>) -> Seq<char> {
    "#EXTINF:-1 "@ + playlist::guide_attribute(tvg_id)
}

/// An information line up to the name at its end.
spec fn info_before(channel: ChannelModel, logo_base: Seq<char>) -> Seq<char> {
    front_of(channel.tvg_id) + "tvg-name=\""@ + channel.display_name + "\" tvg-logo=\""@
        + playlist::logo_address(channel.display_name, logo_base) + "\","@
}

/// The information line of a channel.
spec fn info_line(channel: ChannelModel, logo_base: Seq<char>) -> Seq<char> {
    info_before(channel, logo_base) + channel.display_name
}

/// Whether a text can stand between quotes and is not mistaken for an attribute.
pub open spec fn plain(s: Seq<char>) -> bool {
    lacks(s, '"') && lacks(s, '=') && lacks(s, '\n')
}

/// Whether a channel can be written so that it can be read back.
pub open spec fn plain_channel(channel: ChannelModel) -> bool {
    plain(channel.display_name) && (channel.tvg_id matches Some(id) ==> plain(id))
}

/// The only equals sign before the name follows the identifier's name.
proof fn lemma_front(tvg_id: Option<Seq<char>>)
    requires
        tvg_id matches Some(id) ==> plain(id),
    ensures
        ({
            let front = front_of(tvg_id);
            &&& front.len() >= 11
            &&& front[0] == '#'
            &&& front.subrange(0, 7) == "#EXTINF"@
            &&& lacks(front, '\n')
            &&& tvg_id is None ==> front.len() == 11 && lacks(front, '=')
            &&& tvg_id matches Some(id) ==> {
                &&& front.len() == 21 + id.len()
                &&& front.subrange(11, 17) == "tvg-id"@
                &&& front[16] == 'd'
                &&& front[17] == '='
                &&& front[18] == '"'
                &&& front.subrange(19, 19int + id.len()) == id
                &&& front[19int + id.len()] == '"'
                &&& forall|q: int| 0 <= q < front.len() && q != 17 ==> #[trigger] front[q] != '='
            }
        }),
{
    reveal_strlit("#EXTINF:-1 ");
    reveal_strlit("#EXTINF");
    reveal_strlit("tvg-id=\"");
    reveal_strlit("tvg-id");
    reveal_strlit("\" ");
    let front = front_of(tvg_id);
    assert(front.subrange(0, 7) =~= "#EXTINF"@);
    if let Some(id) = tvg_id {
        assert(front.subrange(11, 17) =~= "tvg-id"@);
        assert(front.subrange(19, 19int + id.len()) =~= id);
    }
}

/// The name is read back from the line, up to a position behind the quote that
/// closes it.
proof fn lemma_name_read(channel: ChannelModel, logo_base: Seq<char>, line: Seq<char>, end: int)
    requires
        plain_channel(channel),
        line == info_line(channel, logo_base).take(end),
        info_before(channel, logo_base).len() <= end <= info_line(channel, logo_base).len(),
    ensures
        playlist::attribute(line, "tvg-name"@) == Some(channel.display_name),
{
    let front = front_of(channel.tvg_id);
    let name = channel.display_name;
    let attr = "tvg-name"@;
    let needle = attr + seq!['=', '"'];
    let at = front.len() as int;
    reveal_strlit("tvg-name");
    reveal_strlit("tvg-name=\"");
    reveal_strlit("\" tvg-logo=\"");
    reveal_strlit("\",");
    lemma_front(channel.tvg_id);
    assert forall|q: int| 0 <= q < at implies #[trigger] line[q] == front[q] by {}
    assert(line.subrange(at, at + 10) =~= needle);
    assert(line.subrange(at + 10, at + 10 + name.len()) =~= name);
    assert(line[at + 10 + name.len()] == '"');
    assert forall|j: int| 0 <= j < at implies !#[trigger] text::stands_at(line, needle, j) by {
        if text::stands_at(line, needle, j) {
            lemma_attribute_signs(line, attr, j);
            let q = j + 8;
            if q < at {
                assert(line[q] == front[q]);
                assert(line[q - 1] == front[q - 1]);
            } else {
                assert(line.subrange(at, at + 10)[q - at] == line[q]);
            }
        }
    }
    lemma_attribute(line, attr, at, name);
}

/// The identifier is read back from the line.
proof fn lemma_id_read(channel: ChannelModel, logo_base: Seq<char>, line: Seq<char>, end: int)
    requires
        plain_channel(channel),
        lacks(logo_base, '"'),
        line == info_line(channel, logo_base).take(end),
        info_before(channel, logo_base).len() <= end <= info_line(channel, logo_base).len(),
    ensures
        playlist::attribute(line, "tvg-id"@) == channel.tvg_id,
{
    let front = front_of(channel.tvg_id);
    let attr = "tvg-id"@;
    let needle = attr + seq!['=', '"'];
    reveal_strlit("tvg-id");
    lemma_front(channel.tvg_id);
    reveal_strlit("tvg-name=\"");
    assert forall|q: int| 0 <= q < front.len() implies #[trigger] line[q] == front[q] by {}
    match channel.tvg_id {
        Some(id) => {
            assert(line.subrange(11, 19) =~= needle) by {
                assert(front.subrange(11, 17) =~= line.subrange(11, 17));
                assert forall|x: int| 11 <= x < 17 implies line[x] == #[trigger] attr[x - 11] by {
                    assert(front.subrange(11, 17)[x - 11] == front[x]);
                }
                assert(line[17] == front[17] && line[18] == front[18]);
            }
            assert(line.subrange(19, 19int + id.len()) =~= id) by {
                assert forall|x: int| 0 <= x < id.len() implies line[19 + x] == #[trigger] id[x] by {
                    assert(front.subrange(19, 19int + id.len())[x] == front[19 + x]);
                }
            }
            assert(line[19int + id.len()] == front[19int + id.len()]);
            assert forall|j: int| 0 <= j < 11 implies !#[trigger] text::stands_at(line, needle, j) by {
                if text::stands_at(line, needle, j) {
                    lemma_attribute_signs(line, attr, j);
                    assert(line[j + 6] == front[j + 6]);
                }
            }
            lemma_attribute(line, attr, 11, id);
        },
        None => {
            assert forall|j: int| 0 <= j implies !#[trigger] text::stands_at(line, needle, j) by {
                if text::stands_at(line, needle, j) {
                    lemma_attribute_signs(line, attr, j);
                    lemma_no_identifier(channel, logo_base, line, end, j + 6);
                }
            }
            lemma_nowhere(line, needle, 0);
        },
    }
}

/// Without an identifier, no equals sign with a quote behind it follows a `d`.
proof fn lemma_no_identifier(
    channel: ChannelModel,
    logo_base: Seq<char>,
    line: Seq<char>,
    end: int,
    q: int,
)
    requires
        plain_channel(channel),
        channel.tvg_id is None,
        lacks(logo_base, '"'),
        line == info_line(channel, logo_base).take(end),
        info_before(channel, logo_base).len() <= end <= info_line(channel, logo_base).len(),
        0 < q,
        q + 1 < line.len(),
        line[q] == '=',
        line[q + 1] == '"',
    ensures
        line[q - 1] != 'd',
{
    let front = front_of(channel.tvg_id);
    let name = channel.display_name;
    let logo = playlist::logo_address(name, logo_base);
    let a = "tvg-name=\""@;
    let b = "\" tvg-logo=\""@;
    let c = "\","@;
    let raw = info_line(channel, logo_base);
    reveal_strlit("tvg-name=\"");
    reveal_strlit("\" tvg-logo=\"");
    reveal_strlit("\",");
    lemma_front(channel.tvg_id);
    lemma_logo_lacks(name, logo_base, '"');
    let n = name.len() as int;
    let g = logo.len() as int;
    assert(line[q] == raw[q] && line[q + 1] == raw[q + 1] && line[q - 1] == raw[q - 1]);
    if q < 11 {
        assert(raw[q] == front[q]);
    } else if q < 21 {
        assert(raw[q] == a[q - 11]);
        assert(raw[q - 1] == a[q - 12]);
    } else if q < 21 + n {
        assert(raw[q] == name[q - 21]);
    } else if q < 33 + n {
        assert(raw[q] == b[q - 21 - n]);
        assert(q == 31 + n);
        assert(raw[q - 1] == b[9]);
    } else if q < 33 + n + g {
        assert(raw[q] == logo[q - 33 - n]);
        if q + 1 < 33 + n + g {
            assert(raw[q + 1] == logo[q + 1 - 33 - n]);
        } else {
            assert(logo[g - 1] == 'g');
        }
    } else if q < 35 + n + g {
        assert(raw[q] == c[q - 33 - n - g]);
    } else {
        assert(raw[q] == name[q - 35 - n - g]);
    }
}

/// An information line names the next channel.
proof fn lemma_info_read(state: Reading, channel: ChannelModel, logo_base: Seq<char>)
    requires
        plain_channel(channel),
        lacks(logo_base, '"'),
        lacks(logo_base, '\n'),
    ensures
        lacks(info_line(channel, logo_base), '\n'),
        playlist::with_line(state, info_line(channel, logo_base)) == (Reading {
            channels: state.channels,
            name: Some(channel.display_name),
            tvg_id: channel.tvg_id,
        }),
{
    let raw = info_line(channel, logo_base);
    let before = info_before(channel, logo_base);
    let front = front_of(channel.tvg_id);
    reveal_strlit("tvg-name=\"");
    reveal_strlit("\" tvg-logo=\"");
    reveal_strlit("\",");
    lemma_front(channel.tvg_id);
    lemma_logo_lacks(channel.display_name, logo_base, '\n');
    assert(raw[0] == front[0]);
    assert(raw[before.len() - 1] == ',');
    let end = lemma_trimmed_keeps(raw, before.len() as int);
    let line = raw.take(end);
    reveal_strlit("#EXTINF");
    assert(line.subrange(0, 7) =~= front.subrange(0, 7));
    assert(text::stands_at(line, "#EXTINF"@, 0));
    lemma_name_read(channel, logo_base, line, end);
    lemma_id_read(channel, logo_base, line, end);
    assert(playlist::name_in(line) == channel.display_name);
}

// ---------------------------------------------------------------------------
// The address line
// ---------------------------------------------------------------------------

/// Whether play addresses that start so stand on a line of their own and are not
/// mistaken for a comment.
pub open spec fn plain_base(base_url: Seq<char>) -> bool {
    &&& lacks(base_url, '\n')
    &&& base_url.len() > 0 ==> !text::is_space(base_url[0]) && base_url[0] != '#'
}

/// The channel that comes back.
pub open spec fn read_back(channel: ChannelModel, base_url: Seq<char>) -> ChannelModel {
    ChannelModel { source_url: playlist::play_address(base_url, channel.index), ..channel }
}

/// An address line ends the channel that was named.
proof fn lemma_address_read(state: Reading, base_url: Seq<char>, channel: ChannelModel)
    requires
        plain_base(base_url),
        state.name == Some(channel.display_name),
        state.tvg_id == channel.tvg_id,
        channel.index == state.channels.len() + 1,
    ensures
        lacks(playlist::play_address(base_url, channel.index), '\n'),
        playlist::with_line(state, playlist::play_address(base_url, channel.index)) == (Reading {
            channels: state.channels.push(read_back(channel, base_url)),
            name: None,
            tvg_id: None,
        }),
{
    let base = text::without_slashes(base_url);
    let digits = text::decimal(channel.index);
    let url = playlist::play_address(base_url, channel.index);
    reveal_strlit("/play/tv-");
    reveal_strlit("#EXTINF");
    lemma_without_slashes(base_url);
    lemma_decimal_digits(channel.index);
    assert(url[0] == if base.len() > 0 {
        base_url[0]
    } else {
        '/'
    });
    assert(url.last() == digits.last());
    assert(digits[digits.len() - 1] == digits.last());
    let end = lemma_trimmed_keeps(url, url.len() as int);
    assert(url.take(end) =~= url);
    assert(!text::stands_at(url, "#EXTINF"@, 0)) by {
        if text::stands_at(url, "#EXTINF"@, 0) {
            assert(url.subrange(0, 7)[0] == url[0]);
        }
    }
}

// ---------------------------------------------------------------------------
// The playlist
// ---------------------------------------------------------------------------

/// An entry is an information line and an address line.
proof fn lemma_entry(channel: ChannelModel, base_url: Seq<char>, logo_base: Seq<char>)
    ensures
        playlist::playlist_entry(channel, base_url, logo_base) == info_line(channel, logo_base)
            + seq!['\n'] + playlist::play_address(base_url, channel.index) + seq!['\n'],
{
    reveal_strlit("\n");
    assert("\n"@ =~= seq!['\n']);
    let name = channel.display_name;
    let guide = playlist::guide_attribute(channel.tvg_id);
    assert("#EXTINF:-1 "@ + guide + "tvg-name=\""@ + name + "\" tvg-logo=\""@
        + playlist::logo_address(name, logo_base) + "\","@ + name =~= info_line(channel, logo_base));
}

/// Reading an entry that stands at position `i` gives its channel.
proof fn lemma_entry_read(
    state: Reading,
    s: Seq<char>,
    i: int,
    channel: ChannelModel,
    base_url: Seq<char>,
    logo_base: Seq<char>,
)
    requires
        plain_channel(channel),
        plain_base(base_url),
        lacks(logo_base, '"'),
        lacks(logo_base, '\n'),
        channel.index == state.channels.len() + 1,
        0 <= i,
        ({
            let entry = playlist::playlist_entry(channel, base_url, logo_base);
            i + entry.len() <= s.len() && s.subrange(i, i + entry.len()) == entry
        }),
    ensures
        playlist::with_lines(state, s, i) == playlist::with_lines(
            Reading {
                channels: state.channels.push(read_back(channel, base_url)),
                name: None,
                tvg_id: None,
            },
            s,
            i + playlist::playlist_entry(channel, base_url, logo_base).len(),
        ),
{
    let entry = playlist::playlist_entry(channel, base_url, logo_base);
    let info = info_line(channel, logo_base);
    let url = playlist::play_address(base_url, channel.index);
    let named = Reading {
        channels: state.channels,
        name: Some(channel.display_name),
        tvg_id: channel.tvg_id,
    };
    lemma_entry(channel, base_url, logo_base);
    lemma_info_read(state, channel, logo_base);
    lemma_address_read(named, base_url, channel);
    assert forall|x: int| 0 <= x < entry.len() implies s[i + x] == #[trigger] entry[x] by {
        assert(s.subrange(i, i + entry.len())[x] == s[i + x]);
    }
    let n = info.len() as int;
    let second = i + n + 1;
    assert(s.subrange(i, i + n) =~= info) by {
        assert forall|x: int| 0 <= x < n implies s[i + x] == #[trigger] info[x] by {
            assert(entry[x] == info[x]);
        }
    }
    assert(entry[n] == '\n');
    lemma_line_read(state, s, i, info);
    assert(s.subrange(second, second + url.len()) =~= url) by {
        assert forall|x: int| 0 <= x < url.len() implies s[second + x] == #[trigger] url[x] by {
            assert(entry[n + 1 + x] == url[x]);
        }
    }
    assert(entry[n + 1 + url.len()] == '\n');
    lemma_line_read(named, s, second, url);
}

/// The playlist with fewer channels is its beginning.
proof fn lemma_beginning(
    channels: Seq<ChannelModel>,
    k: int,
    n: int,
    base_url: Seq<char>,
    logo_base: Seq<char>,
    epg_url: Option<Seq<char>>,
)
    requires
        0 <= k <= n,
    ensures
        ({
            let part = playlist::playlist_text(channels, k, base_url, logo_base, epg_url);
            let all = playlist::playlist_text(channels, n, base_url, logo_base, epg_url);
            part.len() <= all.len() && all.take(part.len() as int) == part
        }),
    decreases n,
{
    let part = playlist::playlist_text(channels, k, base_url, logo_base, epg_url);
    let all = playlist::playlist_text(channels, n, base_url, logo_base, epg_url);
    if k < n {
        let most = playlist::playlist_text(channels, n - 1, base_url, logo_base, epg_url);
        lemma_beginning(channels, k, n - 1, base_url, logo_base, epg_url);
        assert(all.take(part.len() as int) =~= most.take(part.len() as int));
    } else {
        assert(all.take(part.len() as int) =~= part);
    }
}

/// The channels that come back of the first `k`.
spec fn first_back(channels: Seq<ChannelModel>, k: int, base_url: Seq<char>) -> Seq<ChannelModel> {
    Seq::new(k as nat, |i: int| read_back(channels[i], base_url))
}

/// Reading up to the entry of channel `k`.
proof fn lemma_read_upto(
    channels: Seq<ChannelModel>,
    k: int,
    base_url: Seq<char>,
    logo_base: Seq<char>,
    epg_url: Option<Seq<char>>,
)
    requires
        0 <= k <= channels.len(),
        playlist::numbered(channels),
        forall|i: int| 0 <= i < channels.len() ==> plain_channel(#[trigger] channels[i]),
        plain_base(base_url),
        lacks(logo_base, '"'),
        lacks(logo_base, '\n'),
        epg_url matches Some(url) ==> lacks(url, '\n'),
    ensures
        ({
            let all = playlist::playlist_text(
                channels,
                channels.len() as int,
                base_url,
                logo_base,
                epg_url,
            );
            let part = playlist::playlist_text(channels, k, base_url, logo_base, epg_url);
            playlist::with_lines(
                Reading { channels: seq![], name: None, tvg_id: None },
                all,
                0,
            ) == playlist::with_lines(
                Reading { channels: first_back(channels, k, base_url), name: None, tvg_id: None },
                all,
                part.len() as int,
            )
        }),
    decreases k,
{
    let n = channels.len() as int;
    let all = playlist::playlist_text(channels, n, base_url, logo_base, epg_url);
    let part = playlist::playlist_text(channels, k, base_url, logo_base, epg_url);
    lemma_beginning(channels, k, n, base_url, logo_base, epg_url);
    if k == 0 {
        let start = Reading { channels: seq![], name: None, tvg_id: None };
        assert(first_back(channels, 0, base_url) =~= seq![]);
        lemma_head_read(start, all, epg_url);
    } else {
        let earlier = playlist::playlist_text(channels, k - 1, base_url, logo_base, epg_url);
        let channel = channels[k - 1];
        let entry = playlist::playlist_entry(channel, base_url, logo_base);
        let at = earlier.len() as int;
        lemma_read_upto(channels, k - 1, base_url, logo_base, epg_url);
        assert(all.subrange(at, at + entry.len()) =~= entry) by {
            assert forall|x: int| 0 <= x < entry.len() implies all[at + x] == #[trigger] entry[x] by {
                assert(all.take(part.len() as int)[at + x] == part[at + x]);
            }
        }
        lemma_entry_read(
            Reading {
                channels: first_back(channels, k - 1, base_url),
                name: None,
                tvg_id: None,
            },
            all,
            at,
            channel,
            base_url,
            logo_base,
        );
        assert(first_back(channels, k - 1, base_url).push(read_back(channel, base_url))
            =~= first_back(channels, k, base_url));
    }
}

/// The first line is a comment.
proof fn lemma_head_read(state: Reading, s: Seq<char>, epg_url: Option<Seq<char>>)
    requires
        epg_url matches Some(url) ==> lacks(url, '\n'),
        playlist::playlist_head(epg_url).len() <= s.len(),
        s.take(playlist::playlist_head(epg_url).len() as int) == playlist::playlist_head(epg_url),
    ensures
        playlist::with_lines(state, s, 0) == playlist::with_lines(
            state,
            s,
            playlist::playlist_head(epg_url).len() as int,
        ),
{
    let head = playlist::playlist_head(epg_url);
    let line = head.drop_last();
    reveal_strlit("#EXTM3U x-tvg-url=\"");
    reveal_strlit("\"\n");
    reveal_strlit("#EXTM3U\n");
    reveal_strlit("#EXTINF");
    assert(head[head.len() - 1] == '\n');
    assert(line[0] == '#');
    assert(!text::is_space(line[line.len() - 1]));
    assert(lacks(line, '\n'));
    assert forall|x: int| 0 <= x < head.len() implies s[x] == #[trigger] head[x] by {
        assert(s.take(head.len() as int)[x] == s[x]);
    }
    assert(s.subrange(0, line.len() as int) =~= line);
    lemma_line_read(state, s, 0, line);
    let end = lemma_trimmed_keeps(line, line.len() as int);
    assert(line.take(end) =~= line);
    assert(!text::stands_at(line, "#EXTINF"@, 0)) by {
        if text::stands_at(line, "#EXTINF"@, 0) {
            assert(line.subrange(0, 7)[4] == line[4]);
        }
    }
}

/// Reading a playlist that was written gives the channels back: their numbers,
/// names and identifiers, each with its play address as the source.
pub proof fn law_playlist_reads_back(
    channels: Seq<ChannelModel>,
    base_url: Seq<char>,
    logo_base: Seq<char>,
    epg_url: Option<Seq<char>>,
)
    requires
        playlist::numbered(channels),
        forall|i: int| 0 <= i < channels.len() ==> plain_channel(#[trigger] channels[i]),
        plain_base(base_url),
        lacks(logo_base, '"'),
        lacks(logo_base, '\n'),
        epg_url matches Some(url) ==> lacks(url, '\n'),
    ensures
        playlist::channels_in(
            playlist::playlist_text(
                channels,
                channels.len() as int,
                base_url,
                logo_base,
                epg_url,
            ),
        ) == Seq::new(channels.len(), |i: int| read_back(channels[i], base_url)),
{
    lemma_read_upto(channels, channels.len() as int, base_url, logo_base, epg_url);
    assert(first_back(channels, channels.len() as int, base_url) =~= Seq::new(
        channels.len(),
        |i: int| read_back(channels[i], base_url),
    ));
}

} // verus!
