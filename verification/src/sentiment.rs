//! Sentiment of an entry: a compound score and the tier it falls in.
//!
//! The score is kept in thousandths, the precision at which it is stored:
//! a compound score of `-0.25` is the integer `-250`.

use crate::text::{
    all_digits, char_is_digit, decimal, digit_char, digit_value, digits_value, find, find_first,
    is_digit, lemma_decimal_round_trip, parse_digits, push_decimal, push_str,
};
use vader_sentiment::SentimentIntensityAnalyzer;
use vstd::prelude::*;
use vstd::slice::slice_subrange;

verus! {

/// The qualitative bucket of a compound score.
#[derive(Clone, Copy, Debug, PartialEq, Eq, Structural)]
pub enum Tier {
    VeryNegative,
    Negative,
    Neutral,
    Positive,
    VeryPositive,
    /// The score lies above 1.0: it is outside the domain.
    Invalid,
}

/// The tier of a score given in thousandths. Each bucket includes its upper
/// bound.
pub open spec fn tier_of(compound: int) -> Tier {
    if compound <= -700 {
        Tier::VeryNegative
    } else if compound <= -200 {
        Tier::Negative
    } else if compound <= 200 {
        Tier::Neutral
    } else if compound <= 700 {
        Tier::Positive
    } else if compound <= 1000 {
        Tier::VeryPositive
    } else {
        Tier::Invalid
    }
}

/// The glyph that stands for a tier in the stored form.
pub open spec fn icon_of(tier: Tier) -> Seq<char> {
    match tier {
        Tier::VeryNegative => seq!['\u{1F63F}'],
        Tier::Negative => seq!['\u{1F63E}'],
        Tier::Neutral => seq!['\u{1F431}'],
        Tier::Positive => seq!['\u{1F63A}'],
        Tier::VeryPositive => seq!['\u{1F638}'],
        Tier::Invalid => seq!['P', 'r', 'o', 'b', 'l', 'e', 'm', 'o'],
    }
}

impl Tier {
    /// The glyph that stands for this tier.
    pub fn icon(&self) -> (s: &'static str)
        ensures
            s@ == icon_of(*self),
    {
        proof {
            reveal_strlit("\u{1F63F}");
            reveal_strlit("\u{1F63E}");
            reveal_strlit("\u{1F431}");
            reveal_strlit("\u{1F63A}");
            reveal_strlit("\u{1F638}");
            reveal_strlit("Problemo");
        }
        let s = match self {
            Tier::VeryNegative => "\u{1F63F}",
            Tier::Negative => "\u{1F63E}",
            Tier::Neutral => "\u{1F431}",
            Tier::Positive => "\u{1F63A}",
            Tier::VeryPositive => "\u{1F638}",
            Tier::Invalid => "Problemo",
        };
        assert(s@ =~= icon_of(*self));
        s
    }
}

/// The absolute value of `c`.
pub open spec fn magnitude(c: int) -> nat {
    if c < 0 {
        (-c) as nat
    } else {
        c as nat
    }
}

/// A score in thousandths as it is stored: an optional minus sign, the whole
/// part, a point and three decimals.
pub open spec fn score_text(c: int) -> Seq<char> {
    let m = magnitude(c);
    let sign = if c < 0 {
        seq!['-']
    } else {
        Seq::<char>::empty()
    };
    sign + decimal(m / 1000) + seq![
        '.',
        digit_char(m % 1000 / 100),
        digit_char(m % 100 / 10),
        digit_char(m % 10),
    ]
}

/// Whether a score text starts with a minus sign.
pub open spec fn is_negative(s: Seq<char>) -> bool {
    s.len() > 0 && s[0] == '-'
}

/// A score text without its sign.
pub open spec fn unsigned_part(s: Seq<char>) -> Seq<char> {
    if s.len() > 0 && (s[0] == '-' || s[0] == '+') {
        s.skip(1)
    } else {
        s
    }
}

/// What stands before the decimal point.
pub open spec fn whole_part(body: Seq<char>) -> Seq<char> {
    match find(body, seq!['.']) {
        Some(i) => body.take(i),
        None => body,
    }
}

/// What stands after the decimal point.
pub open spec fn fraction_part(body: Seq<char>) -> Seq<char> {
    match find(body, seq!['.']) {
        Some(i) => body.skip(i + 1),
        None => Seq::<char>::empty(),
    }
}

/// The digit at place `i` of `frac`, or 0 where `frac` ends before it.
pub open spec fn place(frac: Seq<char>, i: int) -> nat {
    if i < frac.len() {
        digit_value(frac[i])
    } else {
        0
    }
}

/// The first three decimals of `frac` as a number of thousandths.
pub open spec fn thousandths(frac: Seq<char>) -> nat {
    place(frac, 0) * 100 + place(frac, 1) * 10 + place(frac, 2)
}

/// The decimals `frac` as a number of thousandths, rounded to the nearest:
/// a fourth decimal of 5 or more adds one thousandth, and what follows the
/// fourth decimal does not count.
pub open spec fn rounded_thousandths(frac: Seq<char>) -> nat {
    if place(frac, 3) >= 5 {
        thousandths(frac) + 1
    } else {
        thousandths(frac)
    }
}

/// The score that a text writes, in thousandths, rounded to the nearest. A
/// score is an optional sign, digits, and optionally a point and more
/// digits, with at least one digit in all; its value must fit in an `i64`.
/// Nothing else is read as a score: a text with an exponent, as `1e-1`,
/// and the words for infinity and for what is not a number write none.
pub open spec fn parse_score(s: Seq<char>) -> Option<int> {
    let body = unsigned_part(s);
    let whole = whole_part(body);
    let frac = fraction_part(body);
    if all_digits(whole) && all_digits(frac) && whole.len() + frac.len() > 0 {
        let m = digits_value(whole) * 1000 + rounded_thousandths(frac);
        let v: int = if is_negative(s) {
            -m
        } else {
            m as int
        };
        if i64::MIN <= v <= i64::MAX {
            Some(v)
        } else {
            None
        }
    } else {
        None
    }
}

/// A compound score with its tier.
#[derive(Clone, Copy, Debug, PartialEq, Eq, Structural)]
pub struct Sentiment {
    /// The compound score in thousandths.
    pub compound: i64,
}

/// Whether a score in thousandths lies in the classifier's range, from -1
/// to 1.
pub open spec fn in_range(compound: int) -> bool {
    -1000 <= compound <= 1000
}

/// Calls `vader_sentiment::SentimentIntensityAnalyzer::polarity_scores` on
/// `text` and writes the compound score it returns with `to_string`.
/// Trusted: the result writes a score, and the score lies in the range from
/// -1 to 1. The classifier sets the compound score to 0 or to what its
/// `normalize_score` returns for a sum of the scores of the words, which
/// replaces what lies below -1 by -1 and what lies above 1 by 1; and such a
/// number is written by std as a minus sign or none, digits, and a point
/// and more digits or none. Which score it is, is not claimed: the
/// classifier walks hash maps, so one text may score differently from run
/// to run.
#[verifier::external_body]
fn classify(text: &str) -> (score: String)
    ensures
        parse_score(score@) is Some,
        parse_score(score@) matches Some(compound) ==> in_range(compound),
{
    match SentimentIntensityAnalyzer::new().polarity_scores(text).get("compound") {
        Some(score) => score.to_string(),
        None => String::new(),
    }
}

impl Sentiment {
    /// The sentiment of a compound score given in thousandths.
    pub fn new(compound: i64) -> (s: Sentiment)
        ensures
            s.compound == compound,
    {
        Sentiment { compound }
    }

    /// The sentiment of a score written in decimal, rounded to thousandths;
    /// `None` where `score` writes no score.
    pub fn from_score_text(score: &str) -> (r: Option<Sentiment>)
        ensures
            r is Some <==> parse_score(score@) is Some,
            r matches Some(s) ==> parse_score(score@) == Some(s.compound as int),
    {
        match parse_score_str(score) {
            Some(compound) => Some(Sentiment::new(compound)),
            None => None,
        }
    }

    /// The sentiment that the classifier finds in `text`: its compound
    /// score, rounded to thousandths. The score lies in the classifier's
    /// range, so its tier is one of the five of that range.
    pub(crate) fn of_text(text: &str) -> (s: Sentiment)
        ensures
            in_range(s.compound as int),
            tier_of(s.compound as int) != Tier::Invalid,
    {
        let score = classify(text);
        Sentiment::from_score_text(score.as_str()).unwrap()
    }

    /// The tier that the score falls in.
    pub fn tier(&self) -> (t: Tier)
        ensures
            t == tier_of(self.compound as int),
    {
        let c: i64 = self.compound;
        if c <= -700 {
            Tier::VeryNegative
        } else if c <= -200 {
            Tier::Negative
        } else if c <= 200 {
            Tier::Neutral
        } else if c <= 700 {
            Tier::Positive
        } else if c <= 1000 {
            Tier::VeryPositive
        } else {
            Tier::Invalid
        }
    }

    /// The glyph of the tier that the score falls in.
    pub fn icon(&self) -> (s: &'static str)
        ensures
            s@ == icon_of(tier_of(self.compound as int)),
    {
        self.tier().icon()
    }
}

/// The sentiment line of an entry: score, the sign of congruence, glyph.
pub open spec fn sentiment_text(compound: int) -> Seq<char> {
    score_text(compound) + seq![' ', '\u{2245}', ' '] + icon_of(tier_of(compound))
}

/// Appends the stored form of the score `c` to `buf`.
pub(crate) fn push_score(buf: &mut Vec<char>, c: i64)
    ensures
        final(buf)@ == old(buf)@ + score_text(c as int),
{
    let m: u64 = if c < 0 {
        (-(c as i128)) as u64
    } else {
        c as u64
    };
    assert(m == magnitude(c as int));
    let ghost start = buf@;
    if c < 0 {
        buf.push('-');
    }
    push_decimal(buf, m / 1000);
    buf.push('.');
    let h: u8 = (m % 1000 / 100) as u8;
    let t: u8 = (m % 100 / 10) as u8;
    let u: u8 = (m % 10) as u8;
    buf.push((0x30 + h) as char);
    buf.push((0x30 + t) as char);
    buf.push((0x30 + u) as char);
    assert(buf@ =~= start + score_text(c as int));
}

/// Appends the sentiment line of the score `c` to `buf`.
pub(crate) fn push_sentiment(buf: &mut Vec<char>, sentiment: &Sentiment)
    ensures
        final(buf)@ == old(buf)@ + sentiment_text(sentiment.compound as int),
{
    let ghost start = buf@;
    push_score(buf, sentiment.compound);
    buf.push(' ');
    buf.push('\u{2245}');
    buf.push(' ');
    push_str(buf, sentiment.icon());
    assert(buf@ =~= start + sentiment_text(sentiment.compound as int));
}

/// Whether `s` holds decimal digits only.
pub(crate) fn only_digits(s: &[char]) -> (b: bool)
    ensures
        b == all_digits(s@),
{
    let mut i: usize = 0;
    while i < s.len()
        invariant
            i <= s.len(),
            all_digits(s@.take(i as int)),
        decreases s.len() - i,
    {
        if !char_is_digit(s[i]) {
            return false;
        }
        assert(forall|j: int| 0 <= j < i + 1 ==> s@.take(i + 1)[j] == s@[j]);
        assert forall|j: int| 0 <= j < i + 1 implies is_digit(#[trigger] s@.take(i + 1)[j]) by {
            if j < i {
                assert(s@.take(i as int)[j] == s@[j]);
            }
        }
        i += 1;
    }
    assert(s@.take(s.len() as int) =~= s@);
    true
}

/// The digit of `frac` at place `i` as a number, or 0 where `frac` ends
/// before it.
fn place_at(frac: &[char], i: usize) -> (d: u64)
    requires
        all_digits(frac@),
    ensures
        d == place(frac@, i as int),
        d <= 9,
{
    if i < frac.len() {
        (frac[i] as u32 - 0x30) as u64
    } else {
        0
    }
}

/// The score that `s` writes, in thousandths.
pub(crate) fn parse_score_chars(s: &[char]) -> (r: Option<i64>)
    ensures
        r is Some <==> parse_score(s@) is Some,
        r matches Some(v) ==> parse_score(s@) == Some(v as int),
{
    let n: usize = s.len();
    let negative: bool = n > 0 && s[0] == '-';
    let start: usize = if n > 0 && (s[0] == '-' || s[0] == '+') {
        1
    } else {
        0
    };
    let body = slice_subrange(s, start, n);
    assert(body@ =~= unsigned_part(s@));
    let dot: Vec<char> = vec!['.'];
    assert(dot@ =~= seq!['.']);
    let hit = find_first(body, dot.as_slice());
    let whole = match hit {
        Some(i) => slice_subrange(body, 0, i),
        None => body,
    };
    let frac = match hit {
        Some(i) => slice_subrange(body, i + 1, body.len()),
        None => slice_subrange(body, 0, 0),
    };
    assert(whole@ =~= whole_part(body@));
    assert(frac@ =~= fraction_part(body@));
    if !only_digits(frac) || whole.len() + frac.len() == 0 {
        return None;
    }
    let w: u64 = match parse_digits(whole) {
        Some(w) => w,
        None => {
            return None;
        },
    };
    let up: u64 = if place_at(frac, 3) >= 5 {
        1
    } else {
        0
    };
    let t: u64 = place_at(frac, 0) * 100 + place_at(frac, 1) * 10 + place_at(frac, 2) + up;
    let m: u128 = w as u128 * 1000 + t as u128;
    if negative {
        if m > 0x8000_0000_0000_0000 {
            None
        } else {
            Some((-(m as i128)) as i64)
        }
    } else {
        if m > 0x7fff_ffff_ffff_ffff {
            None
        } else {
            Some(m as i64)
        }
    }
}

/// The score that `s` writes, in thousandths; `None` where `s` writes none.
pub fn parse_score_str(s: &str) -> (r: Option<i64>)
    ensures
        r is Some <==> parse_score(s@) is Some,
        r matches Some(v) ==> parse_score(s@) == Some(v as int),
{
    let chars = crate::text::to_chars(s);
    parse_score_chars(chars.as_slice())
}

/// A stored score is a minus sign or nothing, then digits and one point.
pub(crate) proof fn lemma_score_text_shape(c: int)
    ensures
        score_text(c).len() >= 5,
        forall|i: int|
            0 <= i < score_text(c).len() ==> {
                let ch = #[trigger] score_text(c)[i];
                is_digit(ch) || ch == '.' || (i == 0 && ch == '-')
            },
        is_digit(score_text(c).last()),
{
    let m = magnitude(c);
    lemma_decimal_round_trip(m / 1000);
    let w = decimal(m / 1000);
    let tail = seq![
        '.',
        digit_char(m % 1000 / 100),
        digit_char(m % 100 / 10),
        digit_char(m % 10),
    ];
    let s = score_text(c);
    assert forall|i: int| 0 <= i < s.len() implies {
        let ch = #[trigger] s[i];
        is_digit(ch) || ch == '.' || (i == 0 && ch == '-')
    } by {
        if c < 0 {
            if i == 0 {
            } else if i < 1 + w.len() {
                assert(s[i] == w[i - 1]);
            } else {
                assert(s[i] == tail[i - 1 - w.len()]);
            }
        } else {
            if i < w.len() {
                assert(s[i] == w[i]);
            } else {
                assert(s[i] == tail[i - w.len()]);
            }
        }
    }
    assert(s.last() == tail[3]);
}

/// The three decimals of a stored score.
pub open spec fn decimals(m: nat) -> Seq<char> {
    seq![digit_char(m % 1000 / 100), digit_char(m % 100 / 10), digit_char(m % 10)]
}

/// The three decimals of a stored score are digits, and are read as the
/// thousandths they write.
proof fn lemma_decimals(m: nat)
    ensures
        all_digits(decimals(m)),
        rounded_thousandths(decimals(m)) == m % 1000,
{
    let frac = decimals(m);
    assert(frac[0] == digit_char(m % 1000 / 100));
    assert(frac[1] == digit_char(m % 100 / 10));
    assert(frac[2] == digit_char(m % 10));
    assert(digit_value(frac[0]) == m % 1000 / 100);
    assert(digit_value(frac[1]) == m % 100 / 10);
    assert(digit_value(frac[2]) == m % 10);
}

/// Digits, a point and more digits are cut at the point.
proof fn lemma_cut_at_point(whole: Seq<char>, frac: Seq<char>)
    requires
        all_digits(whole),
    ensures
        whole_part(whole + seq!['.'] + frac) == whole,
        fraction_part(whole + seq!['.'] + frac) == frac,
{
    let body = whole + seq!['.'] + frac;
    let at = whole.len() as int;
    assert(body[at] == '.');
    assert(body.take(at) =~= whole);
    assert forall|i: int| 0 <= i < body.take(at).len() implies #[trigger] body.take(at)[i]
        != '.' by {
        assert(is_digit(whole[i]));
    }
    crate::text::lemma_find_char(body, '.', at);
    assert(body.skip(at + 1) =~= frac);
}

/// A stored score without its sign is the whole part, a point and the three
/// decimals; it has a minus sign exactly where the score is below 0.
proof fn lemma_score_text_parts(c: int)
    ensures
        unsigned_part(score_text(c)) == decimal(magnitude(c) / 1000) + seq!['.'] + decimals(
            magnitude(c),
        ),
        is_negative(score_text(c)) == (c < 0),
{
    let m = magnitude(c);
    lemma_decimal_round_trip(m / 1000);
    let w = decimal(m / 1000);
    let s = score_text(c);
    let body = w + seq!['.'] + decimals(m);
    if c < 0 {
        assert(s[0] == '-');
        assert(s.skip(1) =~= body);
    } else {
        assert(s[0] == w[0]);
        assert(is_digit(w[0]));
        assert(s =~= body);
    }
}

/// Reading back a stored score gives the score again.
pub proof fn lemma_score_round_trip(c: int)
    requires
        i64::MIN <= c <= i64::MAX,
    ensures
        parse_score(score_text(c)) == Some(c),
{
    let m = magnitude(c);
    let w = decimal(m / 1000);
    let frac = decimals(m);
    lemma_decimal_round_trip(m / 1000);
    lemma_score_text_parts(c);
    lemma_cut_at_point(w, frac);
    lemma_decimals(m);
    assert(w.len() + frac.len() > 0);
    assert(digits_value(w) * 1000 + rounded_thousandths(frac) == m);
}

} // verus!
