//! One entry of the notebook, and the block of text that stores it.
//!
//! A stored entry is a header of two lines, a separator and the text:
//!
//! ```text
//! ### <timestamp>
//! #### <score> ≅ <glyph>
//! ---
//!
//! <text>
//!
//! ¶
//! ```
//!
//! The last line ends the block; a file is a run of such blocks.

use crate::error::NotebookError;
use crate::sentiment::{
    in_range, parse_score, parse_score_chars, push_sentiment, sentiment_text, tier_of, Sentiment,
    Tier,
};
use crate::text::{
    find, find_first, from_chars, push_str, split, split_on, to_chars, trim, trimmed, views,
};
use crate::timestamp::{chrono_format, chrono_parse, format_timestamp, parse_timestamp, Timestamp};
use vstd::prelude::*;
use vstd::slice::slice_subrange;

verus! {

/// A note with the time it was written and the sentiment of its text.
#[derive(Clone, Debug)]
pub struct Entry {
    pub text: String,
    pub timestamp: Timestamp,
    pub sentiment: Sentiment,
}

/// What an entry holds, as plain values.
pub struct EntryView {
    pub text: Seq<char>,
    pub timestamp: Timestamp,
    /// The compound score in thousandths.
    pub compound: int,
}

impl View for Entry {
    type V = EntryView;

    open spec fn view(&self) -> EntryView {
        EntryView {
            text: self.text@,
            timestamp: self.timestamp,
            compound: self.sentiment.compound as int,
        }
    }
}

/// The mark before the timestamp: three hashes and a space.
pub open spec fn stamp_mark() -> Seq<char> {
    seq!['#', '#', '#', ' ']
}

/// The mark before the score: four hashes and a space.
pub open spec fn score_mark() -> Seq<char> {
    seq!['#', '#', '#', '#', ' ']
}

/// The line between header and text.
pub open spec fn separator() -> Seq<char> {
    seq!['-', '-', '-']
}

/// What ends a block: a pilcrow and a line feed.
pub open spec fn terminator() -> Seq<char> {
    seq!['\u{b6}', '\n']
}

/// A block without its terminator, for a timestamp already written out.
pub open spec fn block_body(stamp: Seq<char>, compound: int, text: Seq<char>) -> Seq<char> {
    stamp_mark() + stamp + seq!['\n'] + score_mark() + sentiment_text(compound) + seq!['\n']
        + separator() + seq!['\n', '\n'] + text + seq!['\n', '\n']
}

/// The block that stores an entry, where its timestamp can be written by
/// `format`.
pub open spec fn encode_spec(e: EntryView, format: Seq<char>) -> Option<Seq<char>> {
    match chrono_format(e.timestamp, format) {
        Some(stamp) => Some(block_body(stamp, e.compound, e.text) + terminator()),
        None => None,
    }
}

/// `s` without its first `n` characters; empty where `s` has fewer.
pub open spec fn without_prefix(s: Seq<char>, n: int) -> Seq<char> {
    if n <= s.len() {
        s.skip(n)
    } else {
        Seq::<char>::empty()
    }
}

/// The header lines of a block: what stands before the first separator,
/// trimmed and cut at the line feeds. A block without separator has none.
pub open spec fn header_lines(block: Seq<char>) -> Seq<Seq<char>> {
    match find(block, separator()) {
        Some(i) => split(trim(block.take(i)), seq!['\n']),
        None => Seq::<Seq<char>>::empty(),
    }
}

/// The text of a block: all that follows the first separator, trimmed. A
/// separator within the text belongs to the text.
pub open spec fn body_text(block: Seq<char>) -> Seq<char> {
    match find(block, separator()) {
        Some(i) => trim(block.skip(i + 3)),
        None => Seq::<char>::empty(),
    }
}

/// The written timestamp in a header: the first line without its mark.
pub open spec fn stamp_field(lines: Seq<Seq<char>>) -> Seq<char> {
    without_prefix(lines[0], 4)
}

/// The written score in a header: the second line up to the sign of
/// congruence, without its mark and trimmed.
pub open spec fn score_field(lines: Seq<Seq<char>>) -> Seq<char> {
    trim(without_prefix(split(lines[1], seq!['\u{2245}'])[0], 5))
}

/// The entry that a block, given without its terminator, stores; `None`
/// where the separator is missing, the header has fewer than two lines, or
/// timestamp or score cannot be read. The header ends at the first
/// separator, and all that follows is the text. The glyph in the block is
/// not looked at.
pub open spec fn decode_spec(block: Seq<char>, format: Seq<char>) -> Option<EntryView> {
    let lines = header_lines(block);
    if find(block, separator()) is None || lines.len() < 2 {
        None
    } else {
        match (chrono_parse(stamp_field(lines), format), parse_score(score_field(lines))) {
            (Some(timestamp), Some(compound)) => Some(
                EntryView { text: body_text(block), timestamp, compound },
            ),
            _ => None,
        }
    }
}

/// `s` without its first `n` characters.
fn drop_prefix(s: &[char], n: usize) -> (out: &[char])
    ensures
        out@ == without_prefix(s@, n as int),
{
    if n <= s.len() {
        slice_subrange(s, n, s.len())
    } else {
        slice_subrange(s, 0, 0)
    }
}

impl Entry {
    /// An entry of the given parts.
    pub fn from_parts(text: String, timestamp: Timestamp, sentiment: Sentiment) -> (e: Entry)
        ensures
            e.text == text,
            e.timestamp == timestamp,
            e.sentiment == sentiment,
    {
        Entry { text, timestamp, sentiment }
    }

    /// A new entry of `text`, written at `timestamp`, with the sentiment that
    /// the classifier finds in the text. The score of a new entry lies in
    /// the classifier's range, from -1 to 1, so its tier is never the
    /// invalid one.
    pub fn new(text: String, timestamp: Timestamp) -> (e: Entry)
        ensures
            e.text == text,
            e.timestamp == timestamp,
            in_range(e.sentiment.compound as int),
            tier_of(e.sentiment.compound as int) != Tier::Invalid,
    {
        let sentiment = Sentiment::of_text(text.as_str());
        Entry::from_parts(text, timestamp, sentiment)
    }

    /// Puts `text` in the place of the entry's text. Timestamp and sentiment
    /// stay as they are.
    pub fn replace_text(&mut self, text: &str)
        ensures
            final(self)@.text == text@,
            final(self).timestamp == old(self).timestamp,
            final(self).sentiment == old(self).sentiment,
    {
        self.text = text.to_owned();
    }

    /// The block that stores this entry, its timestamp written by `format`.
    /// Fails where the timestamp cannot be written so.
    pub fn encode(&self, format: &str) -> (r: Result<String, NotebookError>)
        ensures
            match r {
                Ok(block) => encode_spec(self@, format@) == Some(block@),
                Err(e) => encode_spec(self@, format@) is None && (e matches NotebookError::DateFormat(
                    f,
                ) && f@ == format@),
            },
    {
        let stamp = match format_timestamp(&self.timestamp, format) {
            Some(stamp) => stamp,
            None => {
                return Err(NotebookError::DateFormat(format.to_owned()));
            },
        };
        let mut buf: Vec<char> = Vec::new();
        push_str(&mut buf, "### ");
        push_str(&mut buf, stamp.as_str());
        push_str(&mut buf, "\n#### ");
        push_sentiment(&mut buf, &self.sentiment);
        push_str(&mut buf, "\n---\n\n");
        push_str(&mut buf, self.text.as_str());
        push_str(&mut buf, "\n\n\u{b6}\n");
        proof {
            reveal_strlit("### ");
            reveal_strlit("\n#### ");
            reveal_strlit("\n---\n\n");
            reveal_strlit("\n\n\u{b6}\n");
            assert(buf@ =~= block_body(stamp@, self@.compound, self@.text) + terminator());
        }
        Ok(from_chars(buf.as_slice()))
    }

    /// The entry that `block` stores, its timestamp read by `format`. The
    /// block is given without its terminator. Fails where it stores no
    /// entry; the error carries the block.
    pub fn decode(block: &str, format: &str) -> (r: Result<Entry, NotebookError>)
        ensures
            match r {
                Ok(e) => decode_spec(block@, format@) == Some(e@),
                Err(e) => decode_spec(block@, format@) is None && (e matches NotebookError::Format(
                    b,
                ) && b@ == block@),
            },
    {
        let chars = to_chars(block);
        match decode_chars(chars.as_slice(), format) {
            Some(e) => Ok(e),
            None => Err(NotebookError::Format(block.to_owned())),
        }
    }
}

/// The entry that `block` stores, its timestamp read by `format`.
pub(crate) fn decode_chars(block: &[char], format: &str) -> (r: Option<Entry>)
    ensures
        match r {
            Some(e) => decode_spec(block@, format@) == Some(e@),
            None => decode_spec(block@, format@) is None,
        },
{
    let dashes: Vec<char> = vec!['-', '-', '-'];
    let feed: Vec<char> = vec!['\n'];
    let congruent: Vec<char> = vec!['\u{2245}'];
    assert(dashes@ =~= separator());
    assert(feed@ =~= seq!['\n']);
    assert(congruent@ =~= seq!['\u{2245}']);
    let at: usize = match find_first(block, dashes.as_slice()) {
        Some(at) => at,
        None => {
            return None;
        },
    };
    let header = slice_subrange(block, 0, at);
    let body = slice_subrange(block, at + 3, block.len());
    assert(header@ =~= block@.take(at as int));
    assert(body@ =~= block@.skip(at + 3));
    let lines = split_on(trimmed(header), feed.as_slice());
    if lines.len() < 2 {
        return None;
    }
    assert(views(lines@) == header_lines(block@));
    assert(views(lines@)[0] == lines@[0]@);
    assert(views(lines@)[1] == lines@[1]@);
    let stamp = from_chars(drop_prefix(lines[0].as_slice(), 4));
    assert(stamp@ == stamp_field(header_lines(block@)));
    let pieces = split_on(lines[1].as_slice(), congruent.as_slice());
    proof {
        crate::text::lemma_split_first(lines@[1]@, congruent@);
    }
    assert(views(pieces@)[0] == pieces@[0]@);
    let score = parse_score_chars(trimmed(drop_prefix(pieces[0].as_slice(), 5)));
    let timestamp = parse_timestamp(stamp.as_str(), format);
    match (timestamp, score) {
        (Some(timestamp), Some(compound)) => {
            let text = from_chars(trimmed(body));
            Some(Entry { text, timestamp, sentiment: Sentiment::new(compound) })
        },
        _ => None,
    }
}

} // verus!
