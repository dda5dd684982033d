//! The notebook: entries in the order in which they were written, the file
//! that stores them and the format of their timestamps.
//!
//! The notebook does no reading or writing of files. Loading takes the
//! file's text, and storing hands the new text back; between the two the
//! entries in memory are all there is.

use crate::entry::{
    decode_chars, decode_spec, encode_spec, terminator, Entry, EntryView,
};
use crate::error::NotebookError;
use crate::pattern::{
    find_matches, regex_accepts, regex_matches, regex_pieces, split_text, string_views, Pattern,
};
use crate::style::{bold, bold_text, red, red_text};
use crate::text::{
    decimal, from_chars, push_all, push_decimal, push_str, split_ended_by, split_terminator,
    to_chars, views,
};
use crate::timestamp::{chrono_format, format_timestamp, plain_format};
use vstd::prelude::*;
use vstd::slice::slice_subrange;

verus! {

/// The matches of one search in one entry.
#[derive(Clone, Debug)]
pub struct SearchResult {
    pub pattern: Pattern,
    pub entry_idx: usize,
    /// The substrings matched, from the left.
    pub location: Vec<String>,
}

/// What a search result holds, as plain values.
pub struct ResultView {
    /// The source of the pattern.
    pub pattern: Seq<char>,
    pub entry_idx: int,
    pub location: Seq<Seq<char>>,
}

impl View for SearchResult {
    type V = ResultView;

    open spec fn view(&self) -> ResultView {
        ResultView {
            pattern: self.pattern@,
            entry_idx: self.entry_idx as int,
            location: string_views(self.location@),
        }
    }
}

impl SearchResult {
    /// A search result of the given parts.
    pub fn new(pattern: Pattern, entry_idx: usize, location: Vec<String>) -> (r: SearchResult)
        ensures
            r.pattern == pattern,
            r.entry_idx == entry_idx,
            r.location == location,
    {
        SearchResult { pattern, entry_idx, location }
    }
}

/// A notebook in memory.
#[derive(Clone, Debug)]
pub struct Notebook {
    /// The path of the file that stores the notebook.
    pub file: String,
    /// The format string by which timestamps are written and read.
    pub dt_format: String,
    /// The entries, oldest first. An entry's index is its place here.
    pub entries: Vec<Entry>,
    /// What the last search found. It is kept until the entries change:
    /// adding, editing, deleting and loading leave no results behind.
    pub search_result: Vec<SearchResult>,
}

/// What the entries of `entries` hold.
pub open spec fn entry_views(entries: Seq<Entry>) -> Seq<EntryView> {
    entries.map_values(|e: Entry| e@)
}

/// What the search results of `results` hold.
pub open spec fn result_views(results: Seq<SearchResult>) -> Seq<ResultView> {
    results.map_values(|r: SearchResult| r@)
}

/// The blocks of all entries, one after another; `None` where the
/// timestamp of one of them cannot be written by `format`.
pub open spec fn encode_all(entries: Seq<EntryView>, format: Seq<char>) -> Option<Seq<char>>
    decreases entries.len(),
{
    if entries.len() == 0 {
        Some(Seq::<char>::empty())
    } else {
        match (encode_all(entries.drop_last(), format), encode_spec(entries.last(), format)) {
            (Some(before), Some(block)) => Some(before + block),
            _ => None,
        }
    }
}

/// If the first `k` entries cannot all be written, neither can all.
pub(crate) proof fn lemma_encode_all_prefix(entries: Seq<EntryView>, format: Seq<char>, k: int)
    requires
        0 <= k <= entries.len(),
        encode_all(entries.take(k), format) is None,
    ensures
        encode_all(entries, format) is None,
    decreases entries.len() - k,
{
    if k < entries.len() {
        assert(entries.take(k + 1).drop_last() =~= entries.take(k));
        lemma_encode_all_prefix(entries, format, k + 1);
    } else {
        assert(entries.take(k) =~= entries);
    }
}

/// What is shown in place of an entry that the notebook does not have.
pub open spec fn no_such_entry() -> Seq<char> {
    seq!['N', 'o', ' ', 's', 'u', 'c', 'h', ' ', 'e', 'n', 't', 'r', 'y', '.', '\n']
}

/// The entries that the blocks store, in the order of the blocks. Empty
/// blocks are passed over. Where a block stores no entry the result is that
/// block, the first such.
pub open spec fn decode_all(blocks: Seq<Seq<char>>, format: Seq<char>) -> Result<
    Seq<EntryView>,
    Seq<char>,
>
    decreases blocks.len(),
{
    if blocks.len() == 0 {
        Ok(Seq::<EntryView>::empty())
    } else {
        match decode_all(blocks.drop_last(), format) {
            Err(block) => Err(block),
            Ok(before) => if blocks.last().len() == 0 {
                Ok(before)
            } else {
                match decode_spec(blocks.last(), format) {
                    Some(e) => Ok(before.push(e)),
                    None => Err(blocks.last()),
                }
            },
        }
    }
}

/// The entries that the text of a file stores: the text is cut where a
/// block ends, and the blocks are read in order.
pub open spec fn load_spec(contents: Seq<char>, format: Seq<char>) -> Result<
    Seq<EntryView>,
    Seq<char>,
> {
    decode_all(split_terminator(contents, terminator()), format)
}

/// A block among the first `k` that stores no entry fails the whole.
pub(crate) proof fn lemma_decode_all_prefix(blocks: Seq<Seq<char>>, format: Seq<char>, k: int)
    requires
        0 <= k <= blocks.len(),
        decode_all(blocks.take(k), format) is Err,
    ensures
        decode_all(blocks, format) == decode_all(blocks.take(k), format),
    decreases blocks.len() - k,
{
    if k < blocks.len() {
        assert(blocks.take(k + 1).drop_last() =~= blocks.take(k));
        lemma_decode_all_prefix(blocks, format, k + 1);
    } else {
        assert(blocks.take(k) =~= blocks);
    }
}

/// The index of the first entry that a listing of the last `n` shows.
pub open spec fn first_listed(len: nat, n: nat) -> nat {
    if n < len {
        (len - n) as nat
    } else {
        0
    }
}

/// The start of a text that a wordy listing shows: its first 30 characters,
/// or all of it where it has fewer.
pub open spec fn opening(text: Seq<char>) -> Seq<char> {
    if text.len() <= 30 {
        text
    } else {
        text.take(30)
    }
}

/// The line of a listing for the entry at `index`, its timestamp already
/// written out as `stamp`.
pub open spec fn list_line(index: nat, text: Seq<char>, stamp: Seq<char>, wordy: bool) -> Seq<
    char,
> {
    if wordy {
        decimal(index) + seq!['.', ' '] + opening(text) + seq!['.', '.', '.', ' ', '|', ' ']
            + stamp + seq!['\n']
    } else {
        decimal(index) + seq!['.', ' '] + stamp + seq!['\n']
    }
}

/// The line of a listing for entry `i` of `entries`; `None` where its
/// timestamp cannot be written by `format`.
pub open spec fn listed_line(entries: Seq<EntryView>, format: Seq<char>, wordy: bool, i: int)
    -> Option<Seq<char>> {
    match chrono_format(entries[i].timestamp, format) {
        Some(stamp) => Some(list_line(i as nat, entries[i].text, stamp, wordy)),
        None => None,
    }
}

/// What a search for `pattern` finds in `entries`: for each entry with at
/// least one match, in the order of the entries, its index and all its
/// matches.
pub open spec fn hits(pattern: Seq<char>, entries: Seq<EntryView>) -> Seq<ResultView>
    decreases entries.len(),
{
    if entries.len() == 0 {
        Seq::<ResultView>::empty()
    } else {
        let before = hits(pattern, entries.drop_last());
        let found = regex_matches(pattern, entries.last().text);
        if found.len() > 0 {
            before.push(ResultView { pattern, entry_idx: entries.len() - 1, location: found })
        } else {
            before
        }
    }
}

/// A text with its matches set off: the pieces between the matches, each
/// followed by the match that stood after it, in red.
pub open spec fn highlighted(pieces: Seq<Seq<char>>, found: Seq<Seq<char>>) -> Seq<char>
    decreases pieces.len(),
{
    if pieces.len() == 0 {
        Seq::<char>::empty()
    } else {
        let k = pieces.len() - 1;
        highlighted(pieces.drop_last(), found) + pieces.last() + if k < found.len() {
            red_text(found[k])
        } else {
            Seq::<char>::empty()
        }
    }
}

/// The line that shows one search result: index and timestamp in bold, then
/// the text of the entry with the matches set off.
pub open spec fn result_line(index: nat, stamp: Seq<char>, shown: Seq<char>) -> Seq<char> {
    bold_text(decimal(index)) + seq![':', ' '] + bold_text(stamp) + seq!['\t'] + shown + seq![
        '\n',
    ]
}

/// The line that shows the search result `r`; `None` where `entries` has no
/// entry at its index, or the timestamp of the entry cannot be written in
/// the plain format.
pub open spec fn shown_result(r: ResultView, entries: Seq<EntryView>) -> Option<Seq<char>> {
    if 0 <= r.entry_idx < entries.len() {
        let e = entries[r.entry_idx];
        match chrono_format(e.timestamp, plain_format()) {
            Some(stamp) => Some(
                result_line(
                    r.entry_idx as nat,
                    stamp,
                    highlighted(regex_pieces(r.pattern, e.text), r.location),
                ),
            ),
            None => None,
        }
    } else {
        None
    }
}

/// The lines that show all search results, in their order; `None` where one
/// of them cannot be shown.
pub open spec fn shown_results(results: Seq<ResultView>, entries: Seq<EntryView>) -> Option<
    Seq<char>,
>
    decreases results.len(),
{
    if results.len() == 0 {
        Some(Seq::<char>::empty())
    } else {
        match (shown_results(results.drop_last(), entries), shown_result(results.last(), entries)) {
            (Some(before), Some(line)) => Some(before + line),
            _ => None,
        }
    }
}

/// If the first `k` results cannot all be shown, neither can all.
pub(crate) proof fn lemma_shown_results_prefix(
    results: Seq<ResultView>,
    entries: Seq<EntryView>,
    k: int,
)
    requires
        0 <= k <= results.len(),
        shown_results(results.take(k), entries) is None,
    ensures
        shown_results(results, entries) is None,
    decreases results.len() - k,
{
    if k < results.len() {
        assert(results.take(k + 1).drop_last() =~= results.take(k));
        lemma_shown_results_prefix(results, entries, k + 1);
    } else {
        assert(results.take(k) =~= results);
    }
}

/// Whether `results` holds a result for entry `i`.
pub open spec fn has_result_for(results: Seq<ResultView>, i: int) -> bool {
    exists|k: int| 0 <= k < results.len() && (#[trigger] results[k]).entry_idx == i
}

/// What a search finds: one result for each entry in which the pattern has
/// a match and none for any other, in the order of the entries, each with
/// all the matches in its entry, which are at least one.
pub proof fn lemma_hits(pattern: Seq<char>, entries: Seq<EntryView>)
    ensures
        hits(pattern, entries).len() <= entries.len(),
        forall|k: int|
            0 <= k < hits(pattern, entries).len() ==> {
                let r = #[trigger] hits(pattern, entries)[k];
                &&& 0 <= r.entry_idx < entries.len()
                &&& r.pattern == pattern
                &&& r.location == regex_matches(pattern, entries[r.entry_idx].text)
                &&& r.location.len() > 0
            },
        forall|j: int, k: int|
            0 <= j < k < hits(pattern, entries).len() ==> (#[trigger] hits(
                pattern,
                entries,
            )[j]).entry_idx < (#[trigger] hits(pattern, entries)[k]).entry_idx,
        forall|i: int|
            0 <= i < entries.len() && regex_matches(pattern, (#[trigger] entries[i]).text).len()
                > 0 ==> has_result_for(hits(pattern, entries), i),
    decreases entries.len(),
{
    if entries.len() > 0 {
        let shorter = entries.drop_last();
        let before = hits(pattern, shorter);
        let now = hits(pattern, entries);
        let last = entries.len() - 1;
        lemma_hits(pattern, shorter);
        assert forall|k: int| 0 <= k < now.len() implies {
            let r = #[trigger] now[k];
            &&& 0 <= r.entry_idx < entries.len()
            &&& r.pattern == pattern
            &&& r.location == regex_matches(pattern, entries[r.entry_idx].text)
            &&& r.location.len() > 0
        } by {
            if k < before.len() {
                assert(now[k] == before[k]);
                assert(shorter[before[k].entry_idx] == entries[before[k].entry_idx]);
            }
        }
        assert forall|j: int, k: int| 0 <= j < k < now.len() implies (#[trigger] now[j]).entry_idx
            < (#[trigger] now[k]).entry_idx by {
            assert(now[j] == before[j]);
            if k < before.len() {
                assert(now[k] == before[k]);
            }
        }
        assert forall|i: int|
            0 <= i < entries.len() && regex_matches(pattern, (#[trigger] entries[i]).text).len()
                > 0 implies has_result_for(now, i) by {
            if i < last {
                assert(shorter[i] == entries[i]);
                assert(has_result_for(before, i));
                let k = choose|k: int| 0 <= k < before.len() && (#[trigger] before[k]).entry_idx
                    == i;
                assert(now[k] == before[k]);
            } else {
                assert(now[now.len() - 1].entry_idx == i);
            }
        }
    }
}

/// Where the pattern has no match in any entry, a search finds nothing.
pub proof fn lemma_no_match_no_result(pattern: Seq<char>, entries: Seq<EntryView>)
    requires
        forall|i: int|
            0 <= i < entries.len() ==> regex_matches(pattern, (#[trigger] entries[i]).text).len()
                == 0,
    ensures
        hits(pattern, entries).len() == 0,
{
    lemma_hits(pattern, entries);
    if hits(pattern, entries).len() > 0 {
        let r = hits(pattern, entries)[0];
        assert(regex_matches(pattern, entries[r.entry_idx].text).len() > 0);
    }
}

impl Default for Notebook {
    fn default() -> (nb: Notebook)
        ensures
            nb.file@.len() == 0,
            nb.dt_format@.len() == 0,
            nb.entries@.len() == 0,
            nb.search_result@.len() == 0,
    {
        Notebook::new()
    }
}

impl Notebook {
    /// A notebook without entries, with an empty path and an empty format.
    pub fn new() -> (nb: Notebook)
        ensures
            nb.file@.len() == 0,
            nb.dt_format@.len() == 0,
            nb.entries@.len() == 0,
            nb.search_result@.len() == 0,
    {
        Notebook {
            file: String::new(),
            dt_format: String::new(),
            entries: Vec::new(),
            search_result: Vec::new(),
        }
    }

    /// The block that stores `entry` in this notebook's file.
    pub fn write_entry(&self, entry: &Entry) -> (r: Result<String, NotebookError>)
        ensures
            match r {
                Ok(block) => encode_spec(entry@, self.dt_format@) == Some(block@),
                Err(e) => encode_spec(entry@, self.dt_format@) is None && (
                e matches NotebookError::DateFormat(f) && f@ == self.dt_format@),
            },
    {
        entry.encode(self.dt_format.as_str())
    }

    /// Adds `entry` as the last entry. Nothing is stored by this. What an
    /// earlier search found is not kept.
    pub fn new_entry(&mut self, entry: Entry)
        ensures
            final(self).entries@ == old(self).entries@.push(entry),
            final(self).file == old(self).file,
            final(self).dt_format == old(self).dt_format,
            final(self).search_result@.len() == 0,
    {
        self.entries.push(entry);
        self.search_result = Vec::new();
    }

    /// The text of the whole file: the blocks of all entries in their
    /// order. Fails, with nothing to write, where a timestamp cannot be
    /// written by the notebook's format.
    pub fn write_all_entries(&self) -> (r: Result<String, NotebookError>)
        ensures
            match r {
                Ok(text) => encode_all(entry_views(self.entries@), self.dt_format@) == Some(
                    text@,
                ),
                Err(e) => encode_all(entry_views(self.entries@), self.dt_format@) is None && (
                e matches NotebookError::DateFormat(f) && f@ == self.dt_format@),
            },
    {
        let ghost all = entry_views(self.entries@);
        let mut buf: Vec<char> = Vec::new();
        let mut i: usize = 0;
        assert(all.take(0) =~= Seq::<EntryView>::empty());
        while i < self.entries.len()
            invariant
                i <= self.entries.len(),
                all == entry_views(self.entries@),
                encode_all(all.take(i as int), self.dt_format@) == Some(buf@),
            decreases self.entries.len() - i,
        {
            proof {
                assert(all.take(i + 1).drop_last() =~= all.take(i as int));
                assert(all.take(i + 1).last() == self.entries@[i as int]@);
            }
            match self.entries[i].encode(self.dt_format.as_str()) {
                Ok(block) => {
                    push_str(&mut buf, block.as_str());
                },
                Err(e) => {
                    proof {
                        lemma_encode_all_prefix(all, self.dt_format@, i + 1);
                    }
                    return Err(e);
                },
            }
            i += 1;
        }
        assert(all.take(i as int) =~= all);
        Ok(from_chars(buf.as_slice()))
    }

    /// What is shown for entry `n`: its block, or `No such entry.` where the
    /// notebook has no entry `n`, which is no error.
    pub fn read_entry(&self, n: usize) -> (r: Result<String, NotebookError>)
        ensures
            n >= self.entries@.len() ==> (r matches Ok(shown) && shown@ == no_such_entry()),
            n < self.entries@.len() ==> match r {
                Ok(shown) => encode_spec(self.entries@[n as int]@, self.dt_format@) == Some(
                    shown@,
                ),
                Err(e) => encode_spec(self.entries@[n as int]@, self.dt_format@) is None && (
                e matches NotebookError::DateFormat(f) && f@ == self.dt_format@),
            },
    {
        if n < self.entries.len() {
            self.entries[n].encode(self.dt_format.as_str())
        } else {
            proof {
                reveal_strlit("No such entry.\n");
            }
            let shown = "No such entry.\n".to_owned();
            assert(shown@ =~= no_such_entry());
            Ok(shown)
        }
    }

    /// Puts `text` in the place of the text of entry `n`. The entry keeps
    /// its timestamp and its sentiment. What an earlier search found is not
    /// kept. Fails, and changes nothing, where the notebook has no entry
    /// `n`.
    pub fn edit_entry(&mut self, n: usize, text: &str) -> (r: Result<(), NotebookError>)
        ensures
            r is Ok <==> n < old(self).entries@.len(),
            r matches Err(e) ==> e == NotebookError::NotFound(n) && *final(self) == *old(self),
            r is Ok ==> {
                &&& final(self).entries@.len() == old(self).entries@.len()
                &&& final(self).entries@[n as int]@ == (EntryView {
                    text: text@,
                    ..old(self).entries@[n as int]@
                })
                &&& forall|i: int|
                    0 <= i < old(self).entries@.len() && i != n ==> final(self).entries@[i] == old(
                        self,
                    ).entries@[i]
                &&& final(self).file == old(self).file
                &&& final(self).dt_format == old(self).dt_format
                &&& final(self).search_result@.len() == 0
            },
    {
        if n >= self.entries.len() {
            return Err(NotebookError::NotFound(n));
        }
        let mut entry = self.entries.remove(n);
        entry.replace_text(text);
        self.entries.insert(n, entry);
        self.search_result = Vec::new();
        Ok(())
    }

    /// Removes entry `n`, unless a confirmation is required and was not
    /// given; returns whether it was removed. `confirmed` is the answer to
    /// the question whether to delete, and counts only where `conf_req`
    /// holds. The entries after `n` move down by one. What an earlier search
    /// found is not kept, whether the entry was removed or not. Fails, and
    /// changes nothing, where the notebook has no entry `n`.
    pub fn delete_entry(&mut self, n: usize, conf_req: bool, confirmed: bool) -> (r: Result<
        bool,
        NotebookError,
    >)
        ensures
            r is Ok <==> n < old(self).entries@.len(),
            r matches Err(e) ==> e == NotebookError::NotFound(n) && *final(self) == *old(self),
            r matches Ok(removed) ==> {
                &&& removed == (!conf_req || confirmed)
                &&& removed ==> {
                    &&& final(self).entries@ == old(self).entries@.remove(n as int)
                    &&& final(self).entries@.len() == old(self).entries@.len() - 1
                    &&& forall|i: int|
                        0 <= i < n ==> final(self).entries@[i] == old(self).entries@[i]
                    &&& forall|i: int|
                        n < i < old(self).entries@.len() ==> final(self).entries@[i - 1] == old(
                            self,
                        ).entries@[i]
                }
                &&& !removed ==> final(self).entries@ == old(self).entries@
                &&& final(self).file == old(self).file
                &&& final(self).dt_format == old(self).dt_format
                &&& final(self).search_result@.len() == 0
            },
    {
        if n >= self.entries.len() {
            return Err(NotebookError::NotFound(n));
        }
        self.search_result = Vec::new();
        if conf_req && !confirmed {
            return Ok(false);
        }
        self.entries.remove(n);
        Ok(true)
    }

    /// Reads the entries that `contents`, the text of the notebook's file,
    /// stores, and adds them after those that the notebook has. What an
    /// earlier search found is not kept. Fails where a block stores no
    /// entry; the error carries that block.
    pub fn populate_notebook(self, contents: &str) -> (r: Result<Notebook, NotebookError>)
        ensures
            match r {
                Ok(nb) => {
                    &&& load_spec(contents@, self.dt_format@) matches Ok(loaded)
                    &&& entry_views(nb.entries@) == entry_views(self.entries@) + loaded
                    &&& nb.file == self.file
                    &&& nb.dt_format == self.dt_format
                    &&& nb.search_result@.len() == 0
                },
                Err(e) => {
                    &&& load_spec(contents@, self.dt_format@) matches Err(block)
                    &&& e matches NotebookError::Format(b)
                    &&& b@ == block
                },
            },
    {
        let ghost start = entry_views(self.entries@);
        let Notebook { file, dt_format, mut entries, search_result: _ } = self;
        let chars = to_chars(contents);
        let end: Vec<char> = vec!['\u{b6}', '\n'];
        assert(end@ =~= terminator());
        let blocks = split_ended_by(chars.as_slice(), end.as_slice());
        let ghost all = views(blocks@);
        let ghost mut loaded = Seq::<EntryView>::empty();
        let mut i: usize = 0;
        assert(all.take(0) =~= Seq::<Seq<char>>::empty());
        assert(entry_views(entries@) =~= start + loaded);
        while i < blocks.len()
            invariant
                i <= blocks.len(),
                all == views(blocks@),
                all == split_terminator(contents@, terminator()),
                dt_format == self.dt_format,
                decode_all(all.take(i as int), dt_format@) == Ok::<Seq<EntryView>, Seq<char>>(
                    loaded,
                ),
                entry_views(entries@) == start + loaded,
            decreases blocks.len() - i,
        {
            proof {
                assert(all.take(i + 1).drop_last() =~= all.take(i as int));
                assert(all.take(i + 1).last() == blocks@[i as int]@);
            }
            if blocks[i].len() > 0 {
                match decode_chars(blocks[i].as_slice(), dt_format.as_str()) {
                    Some(entry) => {
                        let ghost before = entries@;
                        proof {
                            loaded = loaded.push(entry@);
                        }
                        entries.push(entry);
                        assert(entry_views(entries@) =~= entry_views(before).push(entry@));
                        assert(entry_views(entries@) =~= start + loaded);
                    },
                    None => {
                        proof {
                            lemma_decode_all_prefix(all, dt_format@, i + 1);
                        }
                        return Err(NotebookError::Format(from_chars(blocks[i].as_slice())));
                    },
                }
            }
            i += 1;
        }
        assert(all.take(i as int) =~= all);
        Ok(Notebook { file, dt_format, entries, search_result: Vec::new() })
    }

    /// The lines of a listing of the last `n` entries, oldest first: one
    /// line for each, with its index and its timestamp, and with the start
    /// of its text where `l_verbose` is above 0. Where the notebook has
    /// fewer than `n` entries, all are listed. Fails where a timestamp
    /// cannot be written by the notebook's format.
    pub fn list_entries(&self, n: usize, l_verbose: u64) -> (r: Result<Vec<String>, NotebookError>)
        ensures
            match r {
                Ok(lines) => {
                    let first = first_listed(self.entries@.len(), n as nat);
                    &&& lines@.len() == if n < self.entries@.len() {
                        n as int
                    } else {
                        self.entries@.len() as int
                    }
                    &&& first == self.entries@.len() - lines@.len()
                    &&& forall|k: int|
                        0 <= k < lines@.len() ==> listed_line(
                            entry_views(self.entries@),
                            self.dt_format@,
                            l_verbose > 0,
                            first + k,
                        ) == Some(#[trigger] lines@[k]@)
                },
                Err(e) => {
                    let wordy = l_verbose > 0;
                    &&& e matches NotebookError::DateFormat(f)
                    &&& f@ == self.dt_format@
                    &&& exists|i: int|
                        first_listed(self.entries@.len(), n as nat) <= i < self.entries@.len() && (
                        #[trigger] listed_line(
                            entry_views(self.entries@),
                            self.dt_format@,
                            wordy,
                            i,
                        )) is None
                },
            },
    {
        let len: usize = self.entries.len();
        let first: usize = if n < len {
            len - n
        } else {
            0
        };
        let wordy: bool = l_verbose > 0;
        let ghost all = entry_views(self.entries@);
        let mut lines: Vec<String> = Vec::new();
        let mut i: usize = first;
        while i < len
            invariant
                first <= i <= len,
                len == self.entries@.len(),
                first == first_listed(self.entries@.len(), n as nat),
                all == entry_views(self.entries@),
                wordy == (l_verbose > 0),
                lines@.len() == i - first,
                forall|k: int|
                    0 <= k < lines@.len() ==> listed_line(all, self.dt_format@, wordy, first + k)
                        == Some(#[trigger] lines@[k]@),
            decreases len - i,
        {
            let entry = &self.entries[i];
            assert(all[i as int] == entry@);
            let stamp = match format_timestamp(&entry.timestamp, self.dt_format.as_str()) {
                Some(stamp) => stamp,
                None => {
                    assert(listed_line(all, self.dt_format@, wordy, i as int) is None);
                    return Err(NotebookError::DateFormat(self.dt_format.clone()));
                },
            };
            let mut buf: Vec<char> = Vec::new();
            push_decimal(&mut buf, i as u64);
            buf.push('.');
            buf.push(' ');
            if wordy {
                let text = to_chars(entry.text.as_str());
                let shown: usize = if text.len() <= 30 {
                    text.len()
                } else {
                    30
                };
                push_all(&mut buf, slice_subrange(text.as_slice(), 0, shown));
                assert(text@.subrange(0, shown as int) =~= opening(entry@.text));
                push_str(&mut buf, "... | ");
                proof {
                    reveal_strlit("... | ");
                }
            }
            push_str(&mut buf, stamp.as_str());
            buf.push('\n');
            assert(buf@ =~= list_line(i as nat, entry@.text, stamp@, wordy));
            lines.push(from_chars(buf.as_slice()));
            i += 1;
        }
        Ok(lines)
    }

    /// Searches the texts of all entries for the regular expression `q` and
    /// keeps what was found in place of what an earlier search found: one
    /// result for each entry with a match, with all its matches. Fails, and
    /// changes nothing, where `q` is no regular expression; the error
    /// carries `q`.
    pub fn search(&mut self, q: String) -> (r: Result<(), NotebookError>)
        ensures
            r is Ok <==> regex_accepts(q@),
            r matches Err(e) ==> (e matches NotebookError::Pattern(p) && p@ == q@) && *final(self)
                == *old(self),
            r is Ok ==> {
                &&& result_views(final(self).search_result@) == hits(
                    q@,
                    entry_views(old(self).entries@),
                )
                &&& final(self).entries == old(self).entries
                &&& final(self).file == old(self).file
                &&& final(self).dt_format == old(self).dt_format
            },
    {
        let pattern = match Pattern::compile(q.as_str()) {
            Some(pattern) => pattern,
            None => {
                return Err(NotebookError::Pattern(q));
            },
        };
        let ghost all = entry_views(self.entries@);
        let mut results: Vec<SearchResult> = Vec::new();
        let mut i: usize = 0;
        assert(all.take(0) =~= Seq::<EntryView>::empty());
        assert(result_views(results@) =~= hits(q@, all.take(0)));
        while i < self.entries.len()
            invariant
                i <= self.entries.len(),
                all == entry_views(self.entries@),
                pattern@ == q@,
                result_views(results@) == hits(q@, all.take(i as int)),
            decreases self.entries.len() - i,
        {
            proof {
                assert(all.take(i + 1).drop_last() =~= all.take(i as int));
                assert(all.take(i + 1).last() == self.entries@[i as int]@);
            }
            let found = find_matches(&pattern, self.entries[i].text.as_str());
            if found.len() > 0 {
                let ghost before = results@;
                let result = SearchResult::new(pattern.clone(), i, found);
                results.push(result);
                assert(result_views(results@) =~= result_views(before).push(result@));
            }
            i += 1;
        }
        assert(all.take(i as int) =~= all);
        self.search_result = results;
        Ok(())
    }

    /// The text that shows what the last search found: for each result a
    /// line with the index and the timestamp of the entry, both in bold,
    /// and the text of the entry with each match in red. Fails where a
    /// result names an entry that the notebook does not have, or a
    /// timestamp cannot be written.
    pub fn output_search_results(&self) -> (r: Result<String, NotebookError>)
        ensures
            match r {
                Ok(shown) => shown_results(
                    result_views(self.search_result@),
                    entry_views(self.entries@),
                ) == Some(shown@),
                Err(e) => {
                    &&& shown_results(
                        result_views(self.search_result@),
                        entry_views(self.entries@),
                    ) is None
                    &&& match e {
                        NotebookError::NotFound(i) => i >= self.entries@.len(),
                        NotebookError::DateFormat(f) => f@ == plain_format(),
                        _ => false,
                    }
                },
            },
    {
        let ghost results = result_views(self.search_result@);
        let ghost all = entry_views(self.entries@);
        let mut buf: Vec<char> = Vec::new();
        let mut k: usize = 0;
        assert(results.take(0) =~= Seq::<ResultView>::empty());
        while k < self.search_result.len()
            invariant
                k <= self.search_result.len(),
                results == result_views(self.search_result@),
                all == entry_views(self.entries@),
                shown_results(results.take(k as int), all) == Some(buf@),
            decreases self.search_result.len() - k,
        {
            let result = &self.search_result[k];
            proof {
                assert(results.take(k + 1).drop_last() =~= results.take(k as int));
                assert(results.take(k + 1).last() == result@);
            }
            if result.entry_idx >= self.entries.len() {
                proof {
                    lemma_shown_results_prefix(results, all, k + 1);
                }
                return Err(NotebookError::NotFound(result.entry_idx));
            }
            let entry = &self.entries[result.entry_idx];
            assert(all[result.entry_idx as int] == entry@);
            let stamp = match entry.timestamp.plain() {
                Some(stamp) => stamp,
                None => {
                    proof {
                        lemma_shown_results_prefix(results, all, k + 1);
                        reveal_strlit("%Y-%m-%d %H:%M:%S%.f");
                    }
                    let format = "%Y-%m-%d %H:%M:%S%.f".to_owned();
                    assert(format@ =~= plain_format());
                    return Err(NotebookError::DateFormat(format));
                },
            };
            let ghost before = buf@;
            let mut index: Vec<char> = Vec::new();
            push_decimal(&mut index, result.entry_idx as u64);
            let index = from_chars(index.as_slice());
            push_str(&mut buf, bold(index.as_str()).as_str());
            buf.push(':');
            buf.push(' ');
            push_str(&mut buf, bold(stamp.as_str()).as_str());
            buf.push('\t');
            let pieces = split_text(&result.pattern, entry.text.as_str());
            let ghost mid = buf@;
            push_highlighted(&mut buf, &pieces, &result.location);
            buf.push('\n');
            assert(buf@ =~= before + shown_result(result@, all).unwrap()) by {
                assert(decimal(result.entry_idx as nat) =~= Seq::<char>::empty() + decimal(
                    result.entry_idx as nat,
                ));
            }
            k += 1;
        }
        assert(results.take(k as int) =~= results);
        Ok(from_chars(buf.as_slice()))
    }
}

/// Appends to `buf` the pieces of a text, each followed by the match that
/// stood after it, in red.
fn push_highlighted(buf: &mut Vec<char>, pieces: &Vec<String>, found: &Vec<String>)
    ensures
        final(buf)@ == old(buf)@ + highlighted(string_views(pieces@), string_views(found@)),
{
    let ghost p = string_views(pieces@);
    let ghost f = string_views(found@);
    let mut i: usize = 0;
    assert(p.take(0) =~= Seq::<Seq<char>>::empty());
    assert(buf@ =~= old(buf)@ + highlighted(p.take(0), f));
    while i < pieces.len()
        invariant
            i <= pieces.len(),
            p == string_views(pieces@),
            f == string_views(found@),
            buf@ == old(buf)@ + highlighted(p.take(i as int), f),
        decreases pieces.len() - i,
    {
        proof {
            assert(p.take(i + 1).drop_last() =~= p.take(i as int));
            assert(p.take(i + 1).last() == pieces@[i as int]@);
        }
        let ghost before = buf@;
        push_str(buf, pieces[i].as_str());
        if i < found.len() {
            push_str(buf, red(found[i].as_str()).as_str());
        }
        assert(buf@ =~= old(buf)@ + highlighted(p.take(i + 1), f));
        i += 1;
    }
    assert(p.take(i as int) =~= p);
}

} // verus!
