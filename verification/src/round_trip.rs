//! Reading back what was written: the block that stores an entry is read
//! as that entry.
//!
//! This holds of every entry whose text and written timestamp leave the
//! frame of a block intact. White space at the ends of a text is lost when
//! it is read back; a written timestamp that holds the separator or a line
//! feed breaks the header. A separator within the text does no harm: the
//! header ends at the first one.

use crate::entry::{
    block_body, body_text, decode_spec, encode_spec, header_lines, score_field, score_mark,
    separator, stamp_field, stamp_mark, terminator, without_prefix, Entry, EntryView,
};
use crate::sentiment::{
    icon_of, lemma_score_round_trip, lemma_score_text_shape, score_text,
    sentiment_text, tier_of, Tier,
};
use crate::text::{
    find, is_space, lacks, lemma_find_char, lemma_find_char_none, lemma_find_from,
    lemma_find_is, lemma_find_none, lemma_trim_end_padded, lemma_trim_start_padded,
    lemma_trimmed_ends, matches_at, split, trim, trim_end, trim_start,
};
use crate::notebook::{decode_all, encode_all, load_spec};
use crate::text::split_terminator;
use crate::timestamp::{chrono_format, chrono_parse};
use vstd::prelude::*;

verus! {

/// Whether three dashes stand in `s` from index `j` on.
pub open spec fn dashes_at(s: Seq<char>, j: int) -> bool {
    0 <= j && j + 3 <= s.len() && s[j] == '-' && s[j + 1] == '-' && s[j + 2] == '-'
}

/// Whether `s` holds no three dashes in a row.
pub open spec fn dash_free(s: Seq<char>) -> bool {
    forall|j: int| !#[trigger] dashes_at(s, j)
}

/// The separator occurs where three dashes stand.
pub(crate) proof fn lemma_separator_at(s: Seq<char>, j: int)
    ensures
        matches_at(s, separator(), j) <==> dashes_at(s, j),
{
    if 0 <= j && j + 3 <= s.len() {
        let w = s.subrange(j, j + 3);
        assert(w[0] == s[j] && w[1] == s[j + 1] && w[2] == s[j + 2]);
        if dashes_at(s, j) {
            assert(w =~= separator());
        }
    }
}

/// A sequence holds no separator exactly where it holds no three dashes in
/// a row.
pub(crate) proof fn lemma_no_separator(s: Seq<char>)
    ensures
        find(s, separator()) is None <==> dash_free(s),
{
    lemma_find_from(s, separator(), 0);
    if dash_free(s) {
        assert forall|j: int| 0 <= j implies !matches_at(s, separator(), j) by {
            lemma_separator_at(s, j);
        }
        lemma_find_none(s, separator());
    } else {
        let j = choose|j: int| dashes_at(s, j);
        lemma_separator_at(s, j);
    }
}

/// Two sequences without three dashes in a row, joined where one of them
/// has no dash, make a sequence without three dashes in a row.
pub(crate) proof fn lemma_dash_free_join(a: Seq<char>, b: Seq<char>)
    requires
        dash_free(a),
        dash_free(b),
        a.len() == 0 || b.len() == 0 || a.last() != '-' || b[0] != '-',
    ensures
        dash_free(a + b),
{
    let s = a + b;
    assert forall|j: int| !#[trigger] dashes_at(s, j) by {
        if 0 <= j && j + 3 <= s.len() {
            if j + 3 <= a.len() {
                assert(!dashes_at(a, j));
                assert(s[j] == a[j] && s[j + 1] == a[j + 1] && s[j + 2] == a[j + 2]);
            } else if j >= a.len() {
                let k = j - a.len();
                assert(!dashes_at(b, k));
                assert(s[j] == b[k] && s[j + 1] == b[k + 1] && s[j + 2] == b[k + 2]);
            } else {
                assert(s[a.len() - 1] == a.last());
                assert(s[a.len() as int] == b[0]);
            }
        }
    }
}

/// A sequence without a dash after its first character holds no three
/// dashes in a row.
pub(crate) proof fn lemma_dash_free_after_first(s: Seq<char>)
    requires
        forall|i: int| 1 <= i < s.len() ==> #[trigger] s[i] != '-',
    ensures
        dash_free(s),
{
    assert forall|j: int| !#[trigger] dashes_at(s, j) by {
        if 0 <= j && j + 3 <= s.len() {
            assert(s[j + 1] != '-');
        }
    }
}

/// The glyph of a tier holds no dash, no line feed, no sign of congruence
/// and no white space.
pub(crate) proof fn lemma_icon_shape(tier: Tier)
    ensures
        icon_of(tier).len() > 0,
        forall|i: int|
            0 <= i < icon_of(tier).len() ==> {
                let c = #[trigger] icon_of(tier)[i];
                c != '-' && c != '\n' && c != '\u{2245}' && c != '\u{b6}' && !is_space(c)
            },
{
}

/// The first line of a header: the mark and the written timestamp.
pub open spec fn stamp_line(stamp: Seq<char>) -> Seq<char> {
    stamp_mark() + stamp
}

/// The second line of a header: the mark and the sentiment.
pub open spec fn score_line(compound: int) -> Seq<char> {
    score_mark() + sentiment_text(compound)
}

/// The header of a block, up to the separator.
pub open spec fn head(stamp: Seq<char>, compound: int) -> Seq<char> {
    stamp_line(stamp) + seq!['\n'] + score_line(compound) + seq!['\n']
}

/// What follows the separator in a block.
pub open spec fn tail(text: Seq<char>) -> Seq<char> {
    seq!['\n', '\n'] + text + seq!['\n', '\n']
}

/// Whether a written timestamp can stand in a header: it holds neither the
/// separator nor a line feed.
pub open spec fn fits_header(stamp: Seq<char>) -> bool {
    find(stamp, separator()) is None && find(stamp, seq!['\n']) is None
}

/// Whether a text is read back as it is: trimming leaves it as it is.
pub open spec fn fits_body(text: Seq<char>) -> bool {
    trim(text) == text
}

/// The second line of a header holds no line feed and no three dashes in a
/// row, does not end in white space, and the score with a space after it is
/// what stands between its mark and the sign of congruence.
proof fn lemma_score_line(compound: int)
    ensures
        lacks(score_line(compound), '\n'),
        dash_free(score_line(compound)),
        score_line(compound).len() > 0,
        score_line(compound)[0] == '#',
        !is_space(score_line(compound).last()),
        find(score_line(compound), seq!['\u{2245}']) == Some(
            6 + score_text(compound).len() as int,
        ),
        score_line(compound).take(6 + score_text(compound).len() as int) == score_mark()
            + score_text(compound) + seq![' '],
{
    let st = score_text(compound);
    let ic = icon_of(tier_of(compound));
    let line = score_line(compound);
    let front = score_mark() + st + seq![' '];
    lemma_score_text_shape(compound);
    lemma_icon_shape(tier_of(compound));
    assert(line =~= front + seq!['\u{2245}', ' '] + ic);
    assert forall|i: int| 0 <= i < front.len() implies {
        let c = #[trigger] front[i];
        c != '\n' && c != '\u{2245}' && (c == '-' ==> i == 5)
    } by {
        if i < 5 {
        } else if i < 5 + st.len() {
            assert(front[i] == st[i - 5]);
        } else {
        }
    }
    assert forall|i: int| 0 <= i < line.len() implies #[trigger] line[i] != '\n' by {
        if i < front.len() {
            assert(line[i] == front[i]);
        } else if i < front.len() + 2 {
        } else {
            assert(line[i] == ic[i - front.len() - 2]);
        }
    }
    assert forall|j: int| !#[trigger] dashes_at(line, j) by {
        if 0 <= j && j + 3 <= line.len() {
            if j + 1 < front.len() {
                if j + 1 != 5 {
                    assert(line[j + 1] == front[j + 1]);
                } else {
                    assert(line[j] == front[j]);
                }
            } else if j + 1 < front.len() + 2 {
            } else {
                assert(line[j + 1] == ic[j + 1 - front.len() - 2]);
            }
        }
    }
    assert(line.last() == ic.last());
    assert(line[front.len() as int] == '\u{2245}');
    assert(line.take(front.len() as int) =~= front);
    assert(lacks(line.take(front.len() as int), '\u{2245}'));
    lemma_find_char(line, '\u{2245}', front.len() as int);
}

/// The first line of a header holds no line feed and no three dashes in a
/// row where the written timestamp holds none.
proof fn lemma_stamp_line(stamp: Seq<char>)
    requires
        fits_header(stamp),
    ensures
        lacks(stamp_line(stamp), '\n'),
        dash_free(stamp_line(stamp)),
        stamp_line(stamp)[0] == '#',
        without_prefix(stamp_line(stamp), 4) == stamp,
{
    let line = stamp_line(stamp);
    lemma_find_char_none(stamp, '\n');
    lemma_no_separator(stamp);
    assert forall|i: int| 0 <= i < line.len() implies #[trigger] line[i] != '\n' by {
        if i >= 4 {
            assert(line[i] == stamp[i - 4]);
        }
    }
    lemma_dash_free_after_first(stamp_mark());
    lemma_dash_free_join(stamp_mark(), stamp);
    assert(line.skip(4) =~= stamp);
}

/// The header of a block holds no three dashes in a row, and its lines are
/// the two it was made of.
proof fn lemma_head(stamp: Seq<char>, compound: int)
    requires
        fits_header(stamp),
    ensures
        dash_free(head(stamp, compound)),
        head(stamp, compound).len() > 0,
        head(stamp, compound).last() == '\n',
        split(trim(head(stamp, compound)), seq!['\n']) == seq![
            stamp_line(stamp),
            score_line(compound),
        ],
{
    let a = stamp_line(stamp);
    let b = score_line(compound);
    let feed = seq!['\n'];
    let h = head(stamp, compound);
    lemma_stamp_line(stamp);
    lemma_score_line(compound);
    lemma_dash_free_after_first(feed);
    lemma_dash_free_join(a, feed);
    lemma_dash_free_join(a + feed, b);
    lemma_dash_free_join(a + feed + b, feed);
    // Trimming takes the line feed at the end and nothing else.
    let inner = a + feed + b;
    assert(h =~= inner + feed);
    assert(h[0] == a[0]);
    assert(trim_start(h) == h);
    lemma_trim_end_padded(inner, feed);
    assert(inner.last() == b.last());
    assert(trim_end(inner) == inner);
    assert(trim(h) == inner);
    // The one line feed within stands between the two lines.
    assert(inner[a.len() as int] == '\n');
    assert(inner.take(a.len() as int) =~= a);
    lemma_find_char(inner, '\n', a.len() as int);
    assert(inner.skip(a.len() as int + 1) =~= b);
    lemma_find_char_none(b, '\n');
    assert(split(b, feed) =~= seq![b]);
    assert(split(inner, feed) =~= seq![a] + split(b, feed));
    assert(split(inner, feed) =~= seq![a, b]);
}

/// What follows the separator is trimmed to the text.
proof fn lemma_tail(text: Seq<char>)
    requires
        fits_body(text),
    ensures
        trim(tail(text)) == text,
{
    let pad = seq!['\n', '\n'];
    assert(tail(text) =~= pad + (text + pad));
    lemma_trim_start_padded(pad, text + pad);
    if text.len() > 0 {
        lemma_trimmed_ends(text);
        assert((text + pad)[0] == text[0]);
        assert(trim_start(text + pad) == text + pad);
        lemma_trim_end_padded(text, pad);
        assert(trim_end(text) == text);
    } else {
        assert(text + pad =~= pad);
        lemma_trim_start_padded(pad, Seq::<char>::empty());
        assert(pad + Seq::<char>::empty() =~= pad);
        assert(trim_start(pad) == Seq::<char>::empty());
    }
}

/// The first separator of a block is the one after its header: before it
/// stands the header, and after it what was written for the text.
proof fn lemma_parts(stamp: Seq<char>, compound: int, text: Seq<char>)
    requires
        fits_header(stamp),
    ensures
        find(block_body(stamp, compound, text), separator()) == Some(
            head(stamp, compound).len() as int,
        ),
        block_body(stamp, compound, text).take(head(stamp, compound).len() as int) == head(
            stamp,
            compound,
        ),
        block_body(stamp, compound, text).skip(head(stamp, compound).len() as int + 3) == tail(
            text,
        ),
{
    let h = head(stamp, compound);
    let t = tail(text);
    let sep = separator();
    let block = block_body(stamp, compound, text);
    lemma_head(stamp, compound);
    assert(block =~= h + sep + t);
    let at = h.len() as int;
    assert(dashes_at(block, at));
    lemma_separator_at(block, at);
    assert forall|j: int| 0 <= j < at implies !matches_at(block, sep, j) by {
        lemma_separator_at(block, j);
        if j + 3 <= at {
            assert(!dashes_at(h, j));
            assert(block[j] == h[j] && block[j + 1] == h[j + 1] && block[j + 2] == h[j + 2]);
        } else {
            assert(block[at - 1] == h.last());
        }
    }
    lemma_find_is(block, sep, at);
    assert(block.take(at) =~= h);
    assert(block.skip(at + 3) =~= t);
}

/// The block that stores an entry, written with the timestamp `stamp`, is
/// read back as the entry with the timestamp that `stamp` is read as, and
/// is no entry where `stamp` is read as none. This is stated of a written
/// timestamp that fits the header and a text that fits the body.
pub proof fn lemma_block_read_back(
    stamp: Seq<char>,
    compound: int,
    text: Seq<char>,
    format: Seq<char>,
)
    requires
        i64::MIN <= compound <= i64::MAX,
        fits_header(stamp),
        fits_body(text),
    ensures
        decode_spec(block_body(stamp, compound, text), format) == match chrono_parse(
            stamp,
            format,
        ) {
            Some(timestamp) => Some(EntryView { text, timestamp, compound }),
            None => None,
        },
{
    let block = block_body(stamp, compound, text);
    lemma_parts(stamp, compound, text);
    lemma_head(stamp, compound);
    lemma_tail(text);
    lemma_stamp_line(stamp);
    lemma_score_line(compound);
    lemma_score_text_shape(compound);
    lemma_score_round_trip(compound);
    let lines = header_lines(block);
    assert(lines == seq![stamp_line(stamp), score_line(compound)]);
    assert(body_text(block) == text);
    assert(lines[0] == stamp_line(stamp));
    assert(lines[1] == score_line(compound));
    assert(stamp_field(lines) == stamp);
    let st = score_text(compound);
    let found = split(lines[1], seq!['\u{2245}'])[0];
    assert(found == score_mark() + st + seq![' ']);
    assert(without_prefix(found, 5) =~= st + seq![' ']);
    lemma_trim_end_padded(st, seq![' ']);
    assert(!is_space(st[0]));
    assert(trim_start(st + seq![' ']) == st + seq![' ']) by {
        assert((st + seq![' '])[0] == st[0]);
    }
    assert(!is_space(st.last()));
    assert(trim_end(st) == st);
    assert(score_field(lines) == st);
}

/// Writing an entry and reading the block back gives the entry again: its
/// text, its score, and the timestamp as far as the format writes it, that
/// is, the timestamp that chrono reads from what it wrote. The block is
/// read without its terminator, as it is when a file is cut into blocks.
pub proof fn lemma_entry_round_trip(e: Entry, format: Seq<char>)
    requires
        chrono_format(e.timestamp, format) matches Some(stamp) && fits_header(stamp),
        fits_body(e@.text),
    ensures
        ({
            let stamp = chrono_format(e.timestamp, format).unwrap();
            let body = block_body(stamp, e@.compound, e@.text);
            &&& encode_spec(e@, format) == Some(body + terminator())
            &&& decode_spec(body, format) == match chrono_parse(stamp, format) {
                Some(timestamp) => Some(EntryView { timestamp, ..e@ }),
                None => None,
            }
        }),
{
    let stamp = chrono_format(e.timestamp, format).unwrap();
    lemma_block_read_back(stamp, e@.compound, e@.text, format);
}

/// Whether a terminator stands in `s` from index `j` on.
pub open spec fn ends_at(s: Seq<char>, j: int) -> bool {
    0 <= j && j + 2 <= s.len() && s[j] == '\u{b6}' && s[j + 1] == '\n'
}

/// The terminator occurs where a pilcrow and a line feed stand.
pub(crate) proof fn lemma_terminator_at(s: Seq<char>, j: int)
    ensures
        matches_at(s, terminator(), j) <==> ends_at(s, j),
{
    if 0 <= j && j + 2 <= s.len() {
        let w = s.subrange(j, j + 2);
        assert(w[0] == s[j] && w[1] == s[j + 1]);
        if ends_at(s, j) {
            assert(w =~= terminator());
        }
    }
}

/// Whether a part of a block keeps the blocks of a file apart: with the
/// line feed that follows it in the block, it holds no terminator.
pub open spec fn fits_file(part: Seq<char>) -> bool {
    find(part + seq!['\n'], terminator()) is None
}

/// A part that keeps the blocks apart has no pilcrow before a line feed,
/// nor at its end.
proof fn lemma_fits_file(part: Seq<char>, k: int)
    requires
        fits_file(part),
        0 <= k < part.len(),
        part[k] == '\u{b6}',
    ensures
        k + 1 < part.len(),
        part[k + 1] != '\n',
{
    let s = part + seq!['\n'];
    lemma_find_from(s, terminator(), 0);
    lemma_terminator_at(s, k);
    assert(s[k] == part[k]);
    if k + 1 < part.len() {
        assert(s[k + 1] == part[k + 1]);
    } else {
        assert(s[k + 1] == '\n');
    }
}

/// A block holds no terminator before its own where the written timestamp
/// and the text keep the blocks apart.
proof fn lemma_body_keeps_frame(stamp: Seq<char>, compound: int, text: Seq<char>)
    requires
        fits_file(stamp),
        fits_file(text),
    ensures
        find(block_body(stamp, compound, text), terminator()) is None,
        block_body(stamp, compound, text).len() > 0,
        block_body(stamp, compound, text).last() == '\n',
{
    let body = block_body(stamp, compound, text);
    let st = score_text(compound);
    let ic = icon_of(tier_of(compound));
    let front = stamp_mark();
    let middle = seq!['\n'] + score_mark() + st + seq![' ', '\u{2245}', ' '] + ic + seq!['\n']
        + separator() + seq!['\n', '\n'];
    let back = seq!['\n', '\n'];
    lemma_score_text_shape(compound);
    lemma_icon_shape(tier_of(compound));
    assert(body =~= front + stamp + middle + text + back);
    assert forall|i: int| 0 <= i < middle.len() implies #[trigger] middle[i] != '\u{b6}' by {
        if i < 6 {
        } else if i < 6 + st.len() {
            assert(middle[i] == st[i - 6]);
        } else if i < 9 + st.len() {
        } else if i < 9 + st.len() + ic.len() {
            assert(middle[i] == ic[i - 9 - st.len()]);
        } else {
        }
    }
    assert(middle[0] == '\n');
    let a = front.len() as int;
    let b = a + stamp.len();
    let c = b + middle.len();
    let d = c + text.len();
    assert forall|j: int| 0 <= j implies !matches_at(body, terminator(), j) by {
        lemma_terminator_at(body, j);
        if j + 2 <= body.len() && body[j] == '\u{b6}' {
            if j < a {
            } else if j < b {
                assert(body[j] == stamp[j - a]);
                lemma_fits_file(stamp, j - a);
                assert(body[j + 1] == stamp[j + 1 - a]);
            } else if j < c {
                assert(body[j] == middle[j - b]);
            } else if j < d {
                assert(body[j] == text[j - c]);
                lemma_fits_file(text, j - c);
                assert(body[j + 1] == text[j + 1 - c]);
            } else {
            }
        }
    }
    lemma_find_none(body, terminator());
}

/// The blocks `blocks`, each with a terminator after it, one after another.
pub open spec fn joined(blocks: Seq<Seq<char>>) -> Seq<char>
    decreases blocks.len(),
{
    if blocks.len() == 0 {
        Seq::<char>::empty()
    } else {
        blocks[0] + terminator() + joined(blocks.skip(1))
    }
}

/// Joining one block more adds it, with its terminator, at the end.
proof fn lemma_joined_push(blocks: Seq<Seq<char>>, block: Seq<char>)
    ensures
        joined(blocks.push(block)) == joined(blocks) + block + terminator(),
    decreases blocks.len(),
{
    let more = blocks.push(block);
    if blocks.len() == 0 {
        assert(more.skip(1) =~= Seq::<Seq<char>>::empty());
        assert(more[0] == block);
        assert(joined(more.skip(1)) =~= Seq::<char>::empty());
        assert(joined(blocks) =~= Seq::<char>::empty());
        assert(joined(more) =~= joined(blocks) + block + terminator());
    } else {
        assert(more.skip(1) =~= blocks.skip(1).push(block));
        lemma_joined_push(blocks.skip(1), block);
        assert(joined(more) =~= joined(blocks) + block + terminator());
    }
}

/// A file of blocks that hold no terminator and end in a line feed is cut
/// into these blocks.
proof fn lemma_split_joined(blocks: Seq<Seq<char>>)
    requires
        forall|i: int|
            0 <= i < blocks.len() ==> find(#[trigger] blocks[i], terminator()) is None
                && blocks[i].len() > 0 && blocks[i].last() == '\n',
    ensures
        split(joined(blocks), terminator()) == blocks.push(Seq::<char>::empty()),
    decreases blocks.len(),
{
    let end = terminator();
    let whole = joined(blocks);
    if blocks.len() == 0 {
        assert forall|j: int| 0 <= j implies !matches_at(whole, end, j) by {
            lemma_terminator_at(whole, j);
        }
        lemma_find_none(whole, end);
        assert(split(whole, end) =~= blocks.push(Seq::<char>::empty()));
    } else {
        let first = blocks[0];
        let rest = joined(blocks.skip(1));
        let at = first.len() as int;
        assert(whole =~= first + end + rest);
        lemma_find_from(first, end, 0);
        lemma_terminator_at(whole, at);
        assert(whole[at] == end[0] && whole[at + 1] == end[1]);
        assert forall|j: int| 0 <= j < at implies !matches_at(whole, end, j) by {
            lemma_terminator_at(whole, j);
            lemma_terminator_at(first, j);
            assert(whole[j] == first[j]);
            if j + 1 < at {
                assert(whole[j + 1] == first[j + 1]);
            } else {
                assert(whole[j] == first.last());
            }
        }
        lemma_find_is(whole, end, at);
        assert(whole.take(at) =~= first);
        assert(whole.skip(at + 2) =~= rest);
        assert forall|i: int| 0 <= i < blocks.skip(1).len() implies find(
            #[trigger] blocks.skip(1)[i],
            end,
        ) is None && blocks.skip(1)[i].len() > 0 && blocks.skip(1)[i].last() == '\n' by {
            assert(blocks.skip(1)[i] == blocks[i + 1]);
        }
        lemma_split_joined(blocks.skip(1));
        assert(split(whole, end) =~= seq![first] + split(rest, end));
        assert(split(whole, end) =~= blocks.push(Seq::<char>::empty()));
    }
}

/// Whether an entry is stored by `format` so that it can be read back: its
/// timestamp can be written and read again, what is written fits the
/// header, the text fits the body, and both keep the blocks of a file
/// apart.
pub open spec fn storable(e: EntryView, format: Seq<char>) -> bool {
    &&& i64::MIN <= e.compound <= i64::MAX
    &&& chrono_format(e.timestamp, format) matches Some(stamp) && fits_header(stamp) && fits_file(
        stamp,
    ) && chrono_parse(stamp, format) is Some
    &&& fits_body(e.text)
    &&& fits_file(e.text)
}

/// An entry as it is read back: with the timestamp that chrono reads from
/// what it wrote for the entry's own.
pub open spec fn read_back(e: EntryView, format: Seq<char>) -> EntryView {
    EntryView {
        timestamp: chrono_parse(chrono_format(e.timestamp, format).unwrap(), format).unwrap(),
        ..e
    }
}

/// The block of an entry without its terminator.
pub open spec fn body_of(e: EntryView, format: Seq<char>) -> Seq<char> {
    block_body(chrono_format(e.timestamp, format).unwrap(), e.compound, e.text)
}

/// The text of a file is the blocks of its entries, joined.
proof fn lemma_encode_all_joined(entries: Seq<EntryView>, format: Seq<char>)
    requires
        forall|i: int| 0 <= i < entries.len() ==> storable(#[trigger] entries[i], format),
    ensures
        encode_all(entries, format) == Some(
            joined(entries.map_values(|e: EntryView| body_of(e, format))),
        ),
    decreases entries.len(),
{
    let bodies = entries.map_values(|e: EntryView| body_of(e, format));
    if entries.len() > 0 {
        let shorter = entries.drop_last();
        assert forall|i: int| 0 <= i < shorter.len() implies storable(
            #[trigger] shorter[i],
            format,
        ) by {
            assert(shorter[i] == entries[i]);
        }
        lemma_encode_all_joined(shorter, format);
        let fewer = shorter.map_values(|e: EntryView| body_of(e, format));
        assert(bodies =~= fewer.push(body_of(entries.last(), format)));
        lemma_joined_push(fewer, body_of(entries.last(), format));
        assert(storable(entries[entries.len() - 1], format));
        assert(encode_all(entries, format).unwrap() =~= joined(bodies));
    } else {
        assert(bodies =~= Seq::<Seq<char>>::empty());
    }
}

/// The blocks of entries that can be stored are read back as these entries.
proof fn lemma_decode_bodies(entries: Seq<EntryView>, format: Seq<char>)
    requires
        forall|i: int| 0 <= i < entries.len() ==> storable(#[trigger] entries[i], format),
    ensures
        decode_all(entries.map_values(|e: EntryView| body_of(e, format)), format) == Ok::<
            Seq<EntryView>,
            Seq<char>,
        >(entries.map_values(|e: EntryView| read_back(e, format))),
    decreases entries.len(),
{
    let bodies = entries.map_values(|e: EntryView| body_of(e, format));
    let read = entries.map_values(|e: EntryView| read_back(e, format));
    if entries.len() > 0 {
        let shorter = entries.drop_last();
        let last = entries.last();
        assert forall|i: int| 0 <= i < shorter.len() implies storable(
            #[trigger] shorter[i],
            format,
        ) by {
            assert(shorter[i] == entries[i]);
        }
        lemma_decode_bodies(shorter, format);
        assert(bodies.drop_last() =~= shorter.map_values(|e: EntryView| body_of(e, format)));
        assert(storable(entries[entries.len() - 1], format));
        let stamp = chrono_format(last.timestamp, format).unwrap();
        lemma_block_read_back(stamp, last.compound, last.text, format);
        lemma_body_keeps_frame(stamp, last.compound, last.text);
        assert(bodies.last() == body_of(last, format));
        assert(read =~= shorter.map_values(|e: EntryView| read_back(e, format)).push(
            read_back(last, format),
        ));
    } else {
        assert(bodies =~= Seq::<Seq<char>>::empty());
        assert(read =~= Seq::<EntryView>::empty());
    }
}

/// Storing a notebook and loading what was stored gives its entries again,
/// in their order: each with its text, its score, and its timestamp as far
/// as the format writes it. This is stated of entries that can be stored.
pub proof fn lemma_notebook_round_trip(entries: Seq<EntryView>, format: Seq<char>)
    requires
        forall|i: int| 0 <= i < entries.len() ==> storable(#[trigger] entries[i], format),
    ensures
        encode_all(entries, format) matches Some(stored) && load_spec(stored, format) == Ok::<
            Seq<EntryView>,
            Seq<char>,
        >(entries.map_values(|e: EntryView| read_back(e, format))),
{
    let bodies = entries.map_values(|e: EntryView| body_of(e, format));
    lemma_encode_all_joined(entries, format);
    assert forall|i: int| 0 <= i < bodies.len() implies find(#[trigger] bodies[i], terminator())
        is None && bodies[i].len() > 0 && bodies[i].last() == '\n' by {
        let e = entries[i];
        assert(storable(e, format));
        lemma_body_keeps_frame(chrono_format(e.timestamp, format).unwrap(), e.compound, e.text);
    }
    lemma_split_joined(bodies);
    let pieces = split(joined(bodies), terminator());
    assert(pieces.drop_last() =~= bodies);
    assert(split_terminator(joined(bodies), terminator()) == bodies);
    lemma_decode_bodies(entries, format);
}

} // verus!
