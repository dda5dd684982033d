//! Character-sequence helpers shared by the codec and the notebook.
//!
//! Text is handled as sequences of characters: a `&str` is turned into a
//! `Vec<char>` on the way in and back into a `String` on the way out, and
//! everything between is stated over `Seq<char>`.

use vstd::prelude::*;
use vstd::slice::{slice_subrange, slice_to_vec};

verus! {

/// `String::push` appends one character to the end of the string.
pub assume_specification[ String::push ](s: &mut String, c: char)
    ensures
        final(s)@ == old(s)@.push(c),
;

/// The characters of `s`, in order.
pub(crate) fn to_chars(s: &str) -> (out: Vec<char>)
    ensures
        out@ == s@,
{
    let mut out: Vec<char> = Vec::new();
    let it = s.chars();
    for c in iter: it
        invariant
            out@ == iter.seq().take(iter.index() as int),
            iter.seq() == s@,
    {
        out.push(c);
    }
    out
}

/// The string made of the characters of `chars`, in order.
pub(crate) fn from_chars(chars: &[char]) -> (out: String)
    ensures
        out@ == chars@,
{
    let mut out = String::new();
    let mut i: usize = 0;
    while i < chars.len()
        invariant
            i <= chars.len(),
            out@ == chars@.take(i as int),
        decreases chars.len() - i,
    {
        out.push(chars[i]);
        i += 1;
    }
    out
}

/// Appends the characters of `tail` to `buf`.
pub(crate) fn push_all(buf: &mut Vec<char>, tail: &[char])
    ensures
        final(buf)@ == old(buf)@ + tail@,
{
    let mut i: usize = 0;
    while i < tail.len()
        invariant
            i <= tail.len(),
            buf@ == old(buf)@ + tail@.take(i as int),
        decreases tail.len() - i,
    {
        buf.push(tail[i]);
        i += 1;
    }
}

/// Appends the characters of `tail` to `buf`.
pub(crate) fn push_str(buf: &mut Vec<char>, tail: &str)
    ensures
        final(buf)@ == old(buf)@ + tail@,
{
    let chars = to_chars(tail);
    push_all(buf, chars.as_slice());
}

/// Whether `c` is white space: the characters that trimming removes.
pub open spec fn is_space(c: char) -> bool {
    let u = c as u32;
    ||| 0x09 <= u <= 0x0d
    ||| u == 0x20
    ||| u == 0x85
    ||| u == 0xa0
    ||| u == 0x1680
    ||| 0x2000 <= u <= 0x200a
    ||| u == 0x2028
    ||| u == 0x2029
    ||| u == 0x202f
    ||| u == 0x205f
    ||| u == 0x3000
}

/// Decides `is_space`.
pub(crate) fn char_is_space(c: char) -> (b: bool)
    ensures
        b == is_space(c),
{
    let u: u32 = c as u32;
    (0x09 <= u && u <= 0x0d) || u == 0x20 || u == 0x85 || u == 0xa0 || u == 0x1680 || (0x2000 <= u
        && u <= 0x200a) || u == 0x2028 || u == 0x2029 || u == 0x202f || u == 0x205f || u == 0x3000
}

/// `s` without its leading white space.
pub open spec fn trim_start(s: Seq<char>) -> Seq<char>
    decreases s.len(),
{
    if s.len() > 0 && is_space(s[0]) {
        trim_start(s.skip(1))
    } else {
        s
    }
}

/// `s` without its trailing white space.
pub open spec fn trim_end(s: Seq<char>) -> Seq<char>
    decreases s.len(),
{
    if s.len() > 0 && is_space(s.last()) {
        trim_end(s.drop_last())
    } else {
        s
    }
}

/// `s` without leading and trailing white space.
pub open spec fn trim(s: Seq<char>) -> Seq<char> {
    trim_end(trim_start(s))
}

/// The part of `s` that is left when white space is removed from both ends.
pub(crate) fn trimmed(s: &[char]) -> (out: &[char])
    ensures
        out@ == trim(s@),
{
    let mut lo: usize = 0;
    assert(s@.skip(0) =~= s@);
    while lo < s.len() && char_is_space(s[lo])
        invariant
            lo <= s.len(),
            trim_start(s@) == trim_start(s@.skip(lo as int)),
        decreases s.len() - lo,
    {
        assert(s@.skip(lo as int).skip(1) =~= s@.skip(lo as int + 1));
        lo += 1;
    }
    assert(trim_start(s@) == s@.skip(lo as int));
    assert(s@.skip(lo as int) =~= s@.subrange(lo as int, s.len() as int));
    let mut hi: usize = s.len();
    while hi > lo && char_is_space(s[hi - 1])
        invariant
            lo <= hi <= s.len(),
            trim(s@) == trim_end(s@.subrange(lo as int, hi as int)),
        decreases hi - lo,
    {
        assert(s@.subrange(lo as int, hi as int).drop_last() =~= s@.subrange(
            lo as int,
            hi as int - 1,
        ));
        hi -= 1;
    }
    slice_subrange(s, lo, hi)
}

/// Whether `pat` occurs in `s` at index `i`.
pub open spec fn matches_at(s: Seq<char>, pat: Seq<char>, i: int) -> bool {
    0 <= i && i + pat.len() <= s.len() && s.subrange(i, i + pat.len()) == pat
}

/// The least index at or after `from` at which `pat` occurs in `s`.
pub open spec fn find_from(s: Seq<char>, pat: Seq<char>, from: int) -> Option<int>
    decreases s.len() - from + 1,
{
    if from < 0 || from + pat.len() > s.len() {
        None
    } else if matches_at(s, pat, from) {
        Some(from)
    } else {
        find_from(s, pat, from + 1)
    }
}

/// The least index at which `pat` occurs in `s`.
pub open spec fn find(s: Seq<char>, pat: Seq<char>) -> Option<int> {
    find_from(s, pat, 0)
}

/// What `find_from` returns is the first occurrence at or after `from`.
pub(crate) proof fn lemma_find_from(s: Seq<char>, pat: Seq<char>, from: int)
    requires
        0 <= from,
    ensures
        match find_from(s, pat, from) {
            Some(i) => from <= i && matches_at(s, pat, i) && forall|j: int|
                from <= j < i ==> !matches_at(s, pat, j),
            None => forall|j: int| from <= j ==> !matches_at(s, pat, j),
        },
    decreases s.len() - from + 1,
{
    if from + pat.len() > s.len() {
    } else if matches_at(s, pat, from) {
    } else {
        lemma_find_from(s, pat, from + 1);
    }
}

/// An occurrence of `pat` at `i` with none before it is what `find` returns.
pub(crate) proof fn lemma_find_is(s: Seq<char>, pat: Seq<char>, i: int)
    requires
        matches_at(s, pat, i),
        forall|j: int| 0 <= j < i ==> !matches_at(s, pat, j),
    ensures
        find(s, pat) == Some(i),
{
    lemma_find_from(s, pat, 0);
}

/// Without an occurrence of `pat` in `s`, `find` returns `None`.
pub(crate) proof fn lemma_find_none(s: Seq<char>, pat: Seq<char>)
    requires
        forall|j: int| 0 <= j ==> !matches_at(s, pat, j),
    ensures
        find(s, pat) is None,
{
    lemma_find_from(s, pat, 0);
}

/// Decides `matches_at`.
pub(crate) fn occurs_at(hay: &[char], pat: &[char], i: usize) -> (b: bool)
    ensures
        b == matches_at(hay@, pat@, i as int),
{
    if pat.len() > hay.len() || i > hay.len() - pat.len() {
        return false;
    }
    let mut k: usize = 0;
    while k < pat.len()
        invariant
            k <= pat.len(),
            i + pat.len() <= hay.len(),
            forall|j: int| 0 <= j < k ==> hay@[i + j] == pat@[j],
        decreases pat.len() - k,
    {
        if hay[i + k] != pat[k] {
            assert(hay@.subrange(i as int, i + pat.len())[k as int] != pat@[k as int]);
            return false;
        }
        k += 1;
    }
    assert(hay@.subrange(i as int, i + pat.len()) =~= pat@);
    true
}

/// The index of the first occurrence of `pat` in `hay`.
pub(crate) fn find_first(hay: &[char], pat: &[char]) -> (r: Option<usize>)
    ensures
        match r {
            Some(i) => find(hay@, pat@) == Some(i as int) && i + pat.len() <= hay.len(),
            None => find(hay@, pat@) is None,
        },
{
    if pat.len() > hay.len() {
        return None;
    }
    let last: usize = hay.len() - pat.len();
    let mut i: usize = 0;
    loop
        invariant
            last == hay.len() - pat.len(),
            i <= last,
            find(hay@, pat@) == find_from(hay@, pat@, i as int),
        decreases last - i,
    {
        if occurs_at(hay, pat, i) {
            return Some(i);
        }
        if i == last {
            assert(find_from(hay@, pat@, i as int + 1) is None);
            return None;
        }
        i += 1;
    }
}

/// The pieces of `s` between the occurrences of `pat`, taken from the left
/// and without overlap. With an empty `pat` the one piece is `s`.
pub open spec fn split(s: Seq<char>, pat: Seq<char>) -> Seq<Seq<char>>
    decreases s.len(),
    via split_decreases
{
    match find(s, pat) {
        Some(i) => if pat.len() == 0 {
            seq![s]
        } else {
            seq![s.take(i)] + split(s.skip(i + pat.len()), pat)
        },
        None => seq![s],
    }
}

#[via_fn]
proof fn split_decreases(s: Seq<char>, pat: Seq<char>) {
    lemma_find_from(s, pat, 0);
}

/// The pieces that `pat` ends: as `split`, without a last piece that is empty.
pub open spec fn split_terminator(s: Seq<char>, pat: Seq<char>) -> Seq<Seq<char>> {
    let pieces = split(s, pat);
    if pieces.len() > 0 && pieces.last().len() == 0 {
        pieces.drop_last()
    } else {
        pieces
    }
}

/// The character sequences that the vectors of `v` hold.
pub open spec fn views(v: Seq<Vec<char>>) -> Seq<Seq<char>> {
    v.map_values(|x: Vec<char>| x@)
}

/// Splits `hay` at each occurrence of `pat`.
pub(crate) fn split_on(hay: &[char], pat: &[char]) -> (out: Vec<Vec<char>>)
    ensures
        views(out@) == split(hay@, pat@),
{
    let mut out: Vec<Vec<char>> = Vec::new();
    let mut rest: &[char] = hay;
    loop
        invariant_except_break
            split(hay@, pat@) == views(out@) + split(rest@, pat@),
        ensures
            views(out@) == split(hay@, pat@),
        decreases rest.len(),
    {
        let ghost before = out@;
        let hit = find_first(rest, pat);
        proof {
            lemma_find_from(rest@, pat@, 0);
        }
        match hit {
            Some(i) => {
                if pat.len() == 0 {
                    out.push(slice_to_vec(rest));
                    assert(views(out@) =~= views(before) + seq![rest@]);
                    break ;
                }
                out.push(slice_to_vec(slice_subrange(rest, 0, i)));
                assert(views(out@) =~= views(before) + seq![rest@.take(i as int)]);
                rest = slice_subrange(rest, i + pat.len(), rest.len());
            },
            None => {
                out.push(slice_to_vec(rest));
                assert(views(out@) =~= views(before) + seq![rest@]);
                break ;
            },
        }
    }
    out
}

/// Splits `hay` into the pieces that `pat` ends.
pub(crate) fn split_ended_by(hay: &[char], pat: &[char]) -> (out: Vec<Vec<char>>)
    ensures
        views(out@) == split_terminator(hay@, pat@),
{
    let mut out = split_on(hay, pat);
    let n: usize = out.len();
    if n > 0 && out[n - 1].len() == 0 {
        let ghost before = out@;
        out.pop();
        assert(views(out@) =~= views(before).drop_last());
    }
    out
}

/// Whether `c` is one of the decimal digits `0` to `9`.
pub open spec fn is_digit(c: char) -> bool {
    0x30 <= c as u32 <= 0x39
}

/// The number that the digit `c` stands for.
pub open spec fn digit_value(c: char) -> nat {
    (c as u32 - 0x30) as nat
}

/// The digit that stands for `d`, for `d` below ten.
pub open spec fn digit_char(d: nat) -> char {
    ((0x30 + d) as u8) as char
}

/// Whether `s` holds decimal digits only.
pub open spec fn all_digits(s: Seq<char>) -> bool {
    forall|i: int| 0 <= i < s.len() ==> is_digit(#[trigger] s[i])
}

/// The number that the decimal digits `s` write; 0 for no digits.
pub open spec fn digits_value(s: Seq<char>) -> nat
    decreases s.len(),
{
    if s.len() == 0 {
        0
    } else {
        digits_value(s.drop_last()) * 10 + digit_value(s.last())
    }
}

/// `n` in decimal, without leading zeros.
pub open spec fn decimal(n: nat) -> Seq<char>
    decreases n,
{
    if n < 10 {
        seq![digit_char(n)]
    } else {
        decimal(n / 10).push(digit_char(n % 10))
    }
}

/// Reading back what `decimal` wrote gives the number again.
pub proof fn lemma_decimal_round_trip(n: nat)
    ensures
        decimal(n).len() > 0,
        all_digits(decimal(n)),
        digits_value(decimal(n)) == n,
    decreases n,
{
    if n < 10 {
        assert(decimal(n).drop_last() =~= Seq::<char>::empty());
        assert(digits_value(Seq::<char>::empty()) == 0);
    } else {
        lemma_decimal_round_trip(n / 10);
        assert(decimal(n).drop_last() =~= decimal(n / 10));
    }
}

/// Appends `n` in decimal to `buf`.
pub(crate) fn push_decimal(buf: &mut Vec<char>, n: u64)
    ensures
        final(buf)@ == old(buf)@ + decimal(n as nat),
    decreases n,
{
    if n < 10 {
        let d: u8 = n as u8;
        buf.push((0x30 + d) as char);
        assert(buf@ =~= old(buf)@ + decimal(n as nat));
    } else {
        push_decimal(buf, n / 10);
        let d: u8 = (n % 10) as u8;
        buf.push((0x30 + d) as char);
        assert(buf@ =~= old(buf)@ + decimal(n as nat));
    }
}

/// Whether `c` is a decimal digit.
pub(crate) fn char_is_digit(c: char) -> (b: bool)
    ensures
        b == is_digit(c),
{
    let u: u32 = c as u32;
    0x30 <= u && u <= 0x39
}

/// The number that the decimal digits `s` write, where `s` holds digits only
/// and the number fits.
pub(crate) fn parse_digits(s: &[char]) -> (r: Option<u64>)
    ensures
        r is Some <==> all_digits(s@) && digits_value(s@) <= u64::MAX,
        r matches Some(v) ==> v == digits_value(s@),
{
    let mut acc: u64 = 0;
    let mut i: usize = 0;
    while i < s.len()
        invariant
            i <= s.len(),
            all_digits(s@.take(i as int)),
            acc == digits_value(s@.take(i as int)),
        decreases s.len() - i,
    {
        let c = s[i];
        if !char_is_digit(c) {
            return None;
        }
        let d: u64 = (c as u32 - 0x30) as u64;
        proof {
            assert(s@.take(i + 1).drop_last() =~= s@.take(i as int));
            lemma_digits_value_grows(s@, i + 1);
        }
        if acc > (u64::MAX - d) / 10 {
            return None;
        }
        acc = acc * 10 + d;
        i += 1;
    }
    assert(s@.take(s.len() as int) =~= s@);
    Some(acc)
}

/// The value of a prefix of digits is at most the value of the whole.
pub(crate) proof fn lemma_digits_value_grows(s: Seq<char>, k: int)
    requires
        0 <= k <= s.len(),
    ensures
        digits_value(s.take(k)) <= digits_value(s),
    decreases s.len() - k,
{
    if k < s.len() {
        lemma_digits_value_grows(s, k + 1);
        assert(s.take(k + 1).drop_last() =~= s.take(k));
    } else {
        assert(s.take(k) =~= s);
    }
}

/// `split` gives at least one piece, and the first ends where `pat` first
/// occurs.
pub(crate) proof fn lemma_split_first(s: Seq<char>, pat: Seq<char>)
    ensures
        split(s, pat).len() >= 1,
        split(s, pat)[0] == match find(s, pat) {
            Some(i) => if pat.len() == 0 {
                s
            } else {
                s.take(i)
            },
            None => s,
        },
{
}

/// Whether `c` occurs nowhere in `s`.
pub open spec fn lacks(s: Seq<char>, c: char) -> bool {
    forall|i: int| 0 <= i < s.len() ==> #[trigger] s[i] != c
}

/// A pattern of one character occurs where that character stands.
pub(crate) proof fn lemma_matches_at_char(s: Seq<char>, c: char, j: int)
    ensures
        matches_at(s, seq![c], j) <==> 0 <= j < s.len() && s[j] == c,
{
    if 0 <= j < s.len() {
        assert(s.subrange(j, j + 1)[0] == s[j]);
        if s[j] == c {
            assert(s.subrange(j, j + 1) =~= seq![c]);
        }
    }
}

/// The first occurrence of a character, where all before it are others.
pub(crate) proof fn lemma_find_char(s: Seq<char>, c: char, i: int)
    requires
        0 <= i < s.len(),
        s[i] == c,
        lacks(s.take(i), c),
    ensures
        find(s, seq![c]) == Some(i),
{
    lemma_matches_at_char(s, c, i);
    assert forall|j: int| 0 <= j < i implies !matches_at(s, seq![c], j) by {
        lemma_matches_at_char(s, c, j);
        assert(s.take(i)[j] == s[j]);
    }
    lemma_find_is(s, seq![c], i);
}

/// A character that does not occur is not found, and one that is not found
/// does not occur.
pub(crate) proof fn lemma_find_char_none(s: Seq<char>, c: char)
    ensures
        find(s, seq![c]) is None <==> lacks(s, c),
{
    lemma_find_from(s, seq![c], 0);
    if lacks(s, c) {
        assert forall|j: int| 0 <= j implies !matches_at(s, seq![c], j) by {
            lemma_matches_at_char(s, c, j);
        }
        lemma_find_none(s, seq![c]);
    } else {
        let i = choose|i: int| 0 <= i < s.len() && s[i] == c;
        lemma_matches_at_char(s, c, i);
    }
}

/// Trimming at the start leaves a sequence that is no longer.
pub(crate) proof fn lemma_trim_start_len(s: Seq<char>)
    ensures
        trim_start(s).len() <= s.len(),
    decreases s.len(),
{
    if s.len() > 0 && is_space(s[0]) {
        lemma_trim_start_len(s.skip(1));
    }
}

/// Trimming at the end leaves a sequence that is no longer.
pub(crate) proof fn lemma_trim_end_len(s: Seq<char>)
    ensures
        trim_end(s).len() <= s.len(),
    decreases s.len(),
{
    if s.len() > 0 && is_space(s.last()) {
        lemma_trim_end_len(s.drop_last());
    }
}

/// What trimming leaves as it is has no white space at either end.
pub(crate) proof fn lemma_trimmed_ends(s: Seq<char>)
    requires
        trim(s) == s,
        s.len() > 0,
    ensures
        !is_space(s[0]),
        !is_space(s.last()),
{
    lemma_trim_start_len(s);
    lemma_trim_end_len(trim_start(s));
    if is_space(s[0]) {
        lemma_trim_start_len(s.skip(1));
    } else if is_space(s.last()) {
        lemma_trim_end_len(s.drop_last());
    }
}

/// White space before a sequence is trimmed away.
pub(crate) proof fn lemma_trim_start_padded(pad: Seq<char>, s: Seq<char>)
    requires
        forall|i: int| 0 <= i < pad.len() ==> is_space(#[trigger] pad[i]),
    ensures
        trim_start(pad + s) == trim_start(s),
    decreases pad.len(),
{
    if pad.len() > 0 {
        assert((pad + s).skip(1) =~= pad.skip(1) + s);
        assert((pad + s)[0] == pad[0]);
        assert forall|i: int| 0 <= i < pad.skip(1).len() implies is_space(
            #[trigger] pad.skip(1)[i],
        ) by {
            assert(pad.skip(1)[i] == pad[i + 1]);
        }
        lemma_trim_start_padded(pad.skip(1), s);
    } else {
        assert(pad + s =~= s);
    }
}

/// White space after a sequence is trimmed away.
pub(crate) proof fn lemma_trim_end_padded(s: Seq<char>, pad: Seq<char>)
    requires
        forall|i: int| 0 <= i < pad.len() ==> is_space(#[trigger] pad[i]),
    ensures
        trim_end(s + pad) == trim_end(s),
    decreases pad.len(),
{
    if pad.len() > 0 {
        assert((s + pad).drop_last() =~= s + pad.drop_last());
        assert((s + pad).last() == pad.last());
        assert forall|i: int| 0 <= i < pad.drop_last().len() implies is_space(
            #[trigger] pad.drop_last()[i],
        ) by {
            assert(pad.drop_last()[i] == pad[i]);
        }
        lemma_trim_end_padded(s, pad.drop_last());
    } else {
        assert(s + pad =~= s);
    }
}

} // verus!
