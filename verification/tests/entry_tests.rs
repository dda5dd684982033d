use chrono::{Datelike, Local, Timelike};
use notebook_rs::confirm::{confirm_prompt, delete_notice, delete_prompt, get_user_confirm};
use notebook_rs::entry::Entry;
use notebook_rs::error::NotebookError;
use notebook_rs::sentiment::{parse_score_str, Sentiment, Tier};
use notebook_rs::timestamp::Timestamp;

const FORMAT: &str = "%A %e %B, %Y - %H:%M";

fn noon() -> Timestamp {
    Timestamp { year: 2021, month: 5, day: 13, hour: 12, minute: 0, second: 0, nanosecond: 0 }
}

fn now() -> (chrono::NaiveDateTime, Timestamp) {
    let t = Local::now().naive_local();
    let stamp = Timestamp {
        year: t.year(),
        month: t.month(),
        day: t.day(),
        hour: t.hour(),
        minute: t.minute(),
        second: t.second(),
        nanosecond: t.nanosecond(),
    };
    (t, stamp)
}

#[test]
fn test_entry_text() {
    let e = Entry::new("Testing this entry".into(), now().1);
    assert_eq!(e.text, "Testing this entry");
}

#[test]
fn test_timestamp_is_now() {
    let (t, stamp) = now();
    let e = Entry::new("Testing the timestamp".into(), stamp);
    assert_eq!(e.timestamp, stamp);
    let block = e.encode(FORMAT).unwrap();
    let first_line = block.lines().next().unwrap();
    assert_eq!(first_line, format!("### {}", t.format(FORMAT)));
}

#[test]
fn test_sentiment_positive() {
    let e = Entry::new(
        "This is amazing and should have a really high and awesome compound sentiment!".into(),
        noon(),
    );
    assert_eq!(e.sentiment.compound, 867);
    assert!((e.sentiment.compound as f64 / 1000.0 - 0.86732358124633).abs() <= 0.0005);
    assert!(e.encode(FORMAT).unwrap().contains(&format!("#### {:.3} ", 0.86732358124633)));
}

#[test]
fn test_sentiment_negative() {
    let e = Entry::new(
        "This is awful and should have a really low and terrible compound sentiment!".into(),
        noon(),
    );
    assert_eq!(e.sentiment.compound, -816);
    assert!((e.sentiment.compound as f64 / 1000.0 - -0.8157728811846393).abs() <= 0.0005);
    assert!(e.encode(FORMAT).unwrap().contains(&format!("#### {:.3} ", -0.8157728811846393)));
}

#[test]
fn test_replace_text() {
    let mut e = Entry::new("Going to replace some words in this.".into(), noon());
    e.replace_text("Replaced some words.");
    assert_eq!(e.text, "Replaced some words.");
}

#[test]
fn test_user_confirm_pos() {
    assert!(get_user_confirm("Y"))
}

#[test]
fn test_user_confirm_neg() {
    assert_eq!(get_user_confirm("n"), false)
}

// Confirmation.

#[test]
fn only_a_capital_y_at_the_start_confirms() {
    assert!(get_user_confirm("Yes\n"));
    assert!(get_user_confirm("Y\n"));
    assert!(!get_user_confirm("y"));
    assert!(!get_user_confirm(" Y"));
    assert!(!get_user_confirm(""));
    assert!(!get_user_confirm("\n"));
}

#[test]
fn prompts_are_written_out() {
    assert_eq!(confirm_prompt("Prompt"), "Prompt (Y/n) ");
    assert_eq!(delete_prompt(12), "Confirm delete entry 12?");
    assert_eq!(confirm_prompt(&delete_prompt(0)), "Confirm delete entry 0? (Y/n) ");
    assert_eq!(delete_notice(3), "Deleted entry 3\n");
    assert_eq!(delete_notice(1000), "Deleted entry 1000\n");
}

// Tiers.

#[test]
fn tiers_include_their_upper_bounds() {
    assert_eq!(Sentiment::new(-1000).tier(), Tier::VeryNegative);
    assert_eq!(Sentiment::new(-700).tier(), Tier::VeryNegative);
    assert_eq!(Sentiment::new(-699).tier(), Tier::Negative);
    assert_eq!(Sentiment::new(-200).tier(), Tier::Negative);
    assert_eq!(Sentiment::new(-199).tier(), Tier::Neutral);
    assert_eq!(Sentiment::new(0).tier(), Tier::Neutral);
    assert_eq!(Sentiment::new(200).tier(), Tier::Neutral);
    assert_eq!(Sentiment::new(201).tier(), Tier::Positive);
    assert_eq!(Sentiment::new(700).tier(), Tier::Positive);
    assert_eq!(Sentiment::new(701).tier(), Tier::VeryPositive);
    assert_eq!(Sentiment::new(1000).tier(), Tier::VeryPositive);
    assert_eq!(Sentiment::new(1001).tier(), Tier::Invalid);
    assert_eq!(Sentiment::new(-5000).tier(), Tier::VeryNegative);
    assert_eq!(Sentiment::new(i64::MAX).tier(), Tier::Invalid);
}

#[test]
fn each_tier_has_its_glyph() {
    assert_eq!(Sentiment::new(-700).icon(), "\u{1F63F}");
    assert_eq!(Sentiment::new(-200).icon(), "\u{1F63E}");
    assert_eq!(Sentiment::new(200).icon(), "\u{1F431}");
    assert_eq!(Sentiment::new(700).icon(), "\u{1F63A}");
    assert_eq!(Sentiment::new(1000).icon(), "\u{1F638}");
    assert_eq!(Sentiment::new(1001).icon(), "Problemo");
    assert_eq!(Tier::Neutral.icon(), "\u{1F431}");
}

// Scores.

#[test]
fn scores_are_read_in_thousandths() {
    assert_eq!(parse_score_str("0.867"), Some(867));
    assert_eq!(parse_score_str("-0.816"), Some(-816));
    assert_eq!(parse_score_str("1"), Some(1000));
    assert_eq!(parse_score_str("+1.5"), Some(1500));
    assert_eq!(parse_score_str("-0"), Some(0));
    assert_eq!(parse_score_str(".5"), Some(500));
    assert_eq!(parse_score_str("5."), Some(5000));
    assert_eq!(parse_score_str("0.25"), Some(250));
    assert_eq!(parse_score_str("007.010"), Some(7010));
}

#[test]
fn scores_are_rounded_to_the_nearest_thousandth() {
    assert_eq!(parse_score_str("0.86732358124633"), Some(867));
    assert_eq!(parse_score_str("-0.8157728811846393"), Some(-816));
    assert_eq!(parse_score_str("0.9999"), Some(1000));
    assert_eq!(parse_score_str("-0.9996"), Some(-1000));
    assert_eq!(parse_score_str("-0.0004"), Some(0));
    assert_eq!(parse_score_str("0.0005"), Some(1));
    assert_eq!(parse_score_str("-0.0005"), Some(-1));
    assert_eq!(parse_score_str("0.00049999"), Some(0));
    assert_eq!(parse_score_str("0.0625"), Some(63));
    assert_eq!(parse_score_str("0.1994"), Some(199));
    assert_eq!(parse_score_str("0.1995"), Some(200));
    assert_eq!(parse_score_str("1.9995"), Some(2000));
}

#[test]
fn what_is_no_score_is_not_read() {
    for text in ["", "-", "+", ".", "-.", "abc", "0.5x", "1e3", "inf", "NaN", "1.2.3", " 1", "--1", "0,5"] {
        assert_eq!(parse_score_str(text), None, "{:?}", text);
    }
}

#[test]
fn a_score_must_fit() {
    assert_eq!(parse_score_str("9223372036854775.807"), Some(i64::MAX));
    assert_eq!(parse_score_str("9223372036854775.808"), None);
    assert_eq!(parse_score_str("9223372036854775.8074"), Some(i64::MAX));
    assert_eq!(parse_score_str("9223372036854775.8075"), None);
    assert_eq!(parse_score_str("-9223372036854775.808"), Some(i64::MIN));
    assert_eq!(parse_score_str("-9223372036854775.809"), None);
    assert_eq!(parse_score_str("99999999999999999999999999"), None);
}

#[test]
fn a_sentiment_is_made_of_a_written_score() {
    assert_eq!(Sentiment::from_score_text("0.7"), Some(Sentiment::new(700)));
    assert_eq!(Sentiment::from_score_text("seven"), None);
    assert!(Entry::new("What a wonderful, happy day!".into(), noon()).sentiment.compound > 200);
    assert_eq!(Entry::new("".into(), noon()).sentiment, Sentiment::new(0));
}

// The stored form.

#[test]
fn an_entry_is_written_as_a_block() {
    let e = Entry::from_parts("Two\nlines.".into(), noon(), Sentiment::new(-250));
    assert_eq!(
        e.encode("%Y-%m-%d %H:%M").unwrap(),
        "### 2021-05-13 12:00\n#### -0.250 \u{2245} \u{1F63E}\n---\n\nTwo\nlines.\n\n\u{b6}\n"
    );
}

#[test]
fn scores_are_written_with_three_decimals() {
    let cases = [
        (0, "0.000"),
        (5, "0.005"),
        (-5, "-0.005"),
        (50, "0.050"),
        (999, "0.999"),
        (1000, "1.000"),
        (-1000, "-1.000"),
        (12345, "12.345"),
        (i64::MAX, "9223372036854775.807"),
        (i64::MIN, "-9223372036854775.808"),
    ];
    for (score, text) in cases {
        let e = Entry::from_parts("x".into(), noon(), Sentiment::new(score));
        let block = e.encode("%Y").unwrap();
        let line = block.lines().nth(1).unwrap();
        let written = line.strip_prefix("#### ").unwrap().split(' ').next().unwrap();
        assert_eq!(written, text);
        assert_eq!(parse_score_str(written), Some(score));
    }
}

#[test]
fn a_block_is_read_back() {
    let e = Entry::from_parts("Two\nlines.".into(), noon(), Sentiment::new(867));
    let block = e.encode(FORMAT).unwrap();
    let body = block.strip_suffix("\u{b6}\n").unwrap();
    let back = Entry::decode(body, FORMAT).unwrap();
    assert_eq!(back.text, "Two\nlines.");
    assert_eq!(back.timestamp, noon());
    assert_eq!(back.sentiment, Sentiment::new(867));
}

#[test]
fn reading_back_keeps_the_timestamp_as_far_as_the_format_writes_it() {
    let t = Timestamp { year: 2021, month: 5, day: 13, hour: 12, minute: 34, second: 56, nanosecond: 789 };
    let e = Entry::from_parts("x".into(), t, Sentiment::new(0));
    let block = e.encode(FORMAT).unwrap();
    let back = Entry::decode(block.strip_suffix("\u{b6}\n").unwrap(), FORMAT).unwrap();
    assert_eq!(back.timestamp, Timestamp { second: 0, nanosecond: 0, ..t });
}

#[test]
fn the_glyph_in_a_block_is_not_trusted() {
    let block = "### 2021-05-13 12:00\n#### 0.900 \u{2245} \u{1F63F}\n---\n\ntext\n\n";
    let e = Entry::decode(block, "%Y-%m-%d %H:%M").unwrap();
    assert_eq!(e.sentiment.tier(), Tier::VeryPositive);
    let again = e.encode("%Y-%m-%d %H:%M").unwrap();
    assert!(again.contains("0.900 \u{2245} \u{1F638}\n"));
    let bare = "### 2021-05-13 12:00\n#### 0.1\n---\ntext";
    assert_eq!(Entry::decode(bare, "%Y-%m-%d %H:%M").unwrap().sentiment, Sentiment::new(100));
}

#[test]
fn the_text_of_a_block_is_all_that_follows_the_first_separator_trimmed() {
    let block = "### 2021-05-13 12:00\n#### 0.000 \u{2245} \u{1F431}\n---\n \t first\n\n---\nsecond\n";
    let e = Entry::decode(block, "%Y-%m-%d %H:%M").unwrap();
    assert_eq!(e.text, "first\n\n---\nsecond");
}

#[test]
fn a_text_that_holds_the_separator_is_read_back_whole() {
    let s = "### Friday 20 November, 2020 - 20:16\n#### 0.000 \u{2245} \u{1F431}\n---\n\nbefore --- after\n\n";
    let d = Entry::decode(s, FORMAT).unwrap();
    assert_eq!(d.text, "before --- after");
    for text in ["before --- after", "---", "--- at the start", "at the end ---", "a\n---\n\nb", "------"] {
        let e = Entry::from_parts(text.into(), noon(), Sentiment::new(5));
        let block = e.encode(FORMAT).unwrap();
        let back = Entry::decode(block.strip_suffix("\u{b6}\n").unwrap(), FORMAT).unwrap();
        assert_eq!(back.text, text);
        assert_eq!(back.timestamp, noon());
        assert_eq!(back.sentiment, Sentiment::new(5));
    }
}

#[test]
fn a_block_without_separator_is_no_entry() {
    let block = "### 2021-05-13 12:00\n#### 0.000 \u{2245} \u{1F431}\n\ntext\n";
    match Entry::decode(block, "%Y-%m-%d %H:%M") {
        Err(NotebookError::Format(raw)) => assert_eq!(raw, block),
        _ => panic!("the block should not be read"),
    }
}

#[test]
fn a_header_of_one_line_is_no_entry() {
    let block = "### 2021-05-13 12:00\n---\n\ntext\n";
    assert!(matches!(Entry::decode(block, "%Y-%m-%d %H:%M"), Err(NotebookError::Format(_))));
}

#[test]
fn a_score_that_cannot_be_read_is_no_entry() {
    let block = "### 2021-05-13 12:00\n#### high \u{2245} \u{1F431}\n---\n\ntext\n";
    assert!(matches!(Entry::decode(block, "%Y-%m-%d %H:%M"), Err(NotebookError::Format(_))));
    let short = "### 2021-05-13 12:00\n###\n---\n\ntext\n";
    assert!(matches!(Entry::decode(short, "%Y-%m-%d %H:%M"), Err(NotebookError::Format(_))));
}

#[test]
fn a_timestamp_that_cannot_be_read_is_no_entry() {
    let block = "### yesterday\n#### 0.000 \u{2245} \u{1F431}\n---\n\ntext\n";
    assert!(matches!(Entry::decode(block, "%Y-%m-%d %H:%M"), Err(NotebookError::Format(_))));
    let short = "##\n#### 0.000 \u{2245} \u{1F431}\n---\n\ntext\n";
    assert!(matches!(Entry::decode(short, "%Y-%m-%d %H:%M"), Err(NotebookError::Format(_))));
}

#[test]
fn a_timestamp_that_is_no_date_cannot_be_written() {
    let t = Timestamp { year: 2021, month: 2, day: 30, hour: 0, minute: 0, second: 0, nanosecond: 0 };
    let e = Entry::from_parts("x".into(), t, Sentiment::new(0));
    match e.encode("%Y-%m-%d") {
        Err(NotebookError::DateFormat(f)) => assert_eq!(f, "%Y-%m-%d"),
        _ => panic!("the entry should not be written"),
    }
}

#[test]
fn the_plain_form_of_a_timestamp() {
    assert_eq!(noon().plain().unwrap(), "2021-05-13 12:00:00");
    let t = Timestamp { year: 2021, month: 5, day: 13, hour: 1, minute: 2, second: 3, nanosecond: 500_000_000 };
    assert_eq!(t.plain().unwrap(), "2021-05-13 01:02:03.500");
}

// Errors.

#[test]
fn every_error_names_what_it_is_about() {
    assert_eq!(
        NotebookError::Format("### x\n".into()).message(),
        "could not read entry '### x\n'"
    );
    assert_eq!(NotebookError::Pattern("foo(".into()).message(), "invalid search pattern 'foo('");
    assert_eq!(
        NotebookError::DateFormat("%Q".into()).message(),
        "unable to write a timestamp as '%Q'"
    );
    assert_eq!(NotebookError::NotFound(42).message(), "no entry 42");
    assert_eq!(NotebookError::NotFound(0).message(), "no entry 0");
}

// Formats.

#[test]
fn a_format_is_written_or_refused_and_never_more() {
    let e = Entry::from_parts("x".into(), noon(), Sentiment::new(0));
    for format in ["", "%", "%%", "%Q", "%z", "%Z", "%:z", "%+", "%s", "%c", "%D %T", "%-d.%-m.%y", "%Y%"] {
        match e.encode(format) {
            Ok(block) => assert!(block.starts_with("### "), "{:?}", format),
            Err(NotebookError::DateFormat(f)) => assert_eq!(f, format),
            Err(_) => panic!("{:?} gave another error", format),
        }
    }
    assert_eq!(e.encode("%D %T").unwrap().lines().next().unwrap(), "### 05/13/21 12:00:00");
    assert!(matches!(e.encode("%z"), Err(NotebookError::DateFormat(_))));
}

#[test]
fn a_format_that_reads_no_full_date_and_time_reads_no_entry() {
    let block = "### 2021\n#### 0.000 \u{2245} \u{1F431}\n---\n\ntext\n\n";
    assert!(matches!(Entry::decode(block, "%Y"), Err(NotebookError::Format(_))));
    assert!(matches!(Entry::decode(block, "%"), Err(NotebookError::Format(_))));
    assert!(matches!(Entry::decode(block, ""), Err(NotebookError::Format(_))));
}

// The classifier's range.

#[test]
fn the_score_of_a_new_entry_lies_in_the_range_of_the_classifier() {
    let texts = [
        "",
        "x",
        "Nothing much happened.",
        "best best best best best best best best best best best best best best best best!!!!",
        "worst worst worst worst worst worst worst worst worst worst worst worst worst worst!!!!",
        "GREAT great AMAZING amazing WONDERFUL wonderful love LOVE joy JOY superb SUPERB",
        "not good, but not bad either???",
    ];
    for text in texts {
        let e = Entry::new(text.into(), noon());
        assert!(-1000 <= e.sentiment.compound && e.sentiment.compound <= 1000, "{:?}", text);
        assert_ne!(e.sentiment.tier(), Tier::Invalid, "{:?}", text);
        assert_eq!(e.text, text);
        assert_eq!(e.timestamp, noon());
    }
    let high = Entry::new("best best best best best best best best best best best best!!!!".into(), noon());
    assert_eq!(high.sentiment.tier(), Tier::VeryPositive);
    let low = Entry::new("worst worst worst worst worst worst worst worst worst worst!!!!".into(), noon());
    assert_eq!(low.sentiment.tier(), Tier::VeryNegative);
}
