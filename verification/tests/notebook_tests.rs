use notebook_rs::entry::Entry;
use notebook_rs::error::NotebookError;
use notebook_rs::notebook::{Notebook, SearchResult};
use notebook_rs::pattern::Pattern;
use notebook_rs::sentiment::Sentiment;
use notebook_rs::timestamp::Timestamp;

const FORMAT: &str = "%A %e %B, %Y - %H:%M";

const DIARY: &str = "### Friday 20 November, 2020 - 20:16
#### 0.000 \u{2245} \u{1F431}
---

Have seen nothing of Lupin the whole day. Bought a cheap address-book. I spent the evening copying in the names and addresses of my friends and acquaintances. Left out the Mutlars of course.

\u{b6}
### Saturday 21 November, 2020 - 09:30
#### 0.440 \u{2245} \u{1F63A}
---

Carrie\u{2019}s mother returned the Lord Mayor\u{2019}s invitation, which was sent to her to look at, with apologies for having upset a glass of wine over it. I was too angry to say anything.

\u{b6}
### Monday  4 January, 2021 - 18:05
#### -0.361 \u{2245} \u{1F63E}
---

Lupin came home late. Gowing\u{2019}s manner was rude, and he had plainly been at the brandy; Carrie\u{2019}s temper was not improved by it.

\u{b6}
### Thursday 13 May, 2021 - 22:17
#### -0.862 \u{2245} \u{1F63F}
---

A terrible misfortune has happened: Lupin is discharged from Mr. Perkupp\u{2019}s office, and I scarcely know how I am writing my diary. I was away from office last Sat., the first time I have been absent through illness for twenty years. I believe I was poisoned by some lobster. Mr. Perkupp was also absent, as Fate would have it; and our most valued customer, Mr. Crowbillon, went to the office in a rage, and withdrew his custom. My boy Lupin not only had the assurance to receive him, but recommended him the firm of Gylterson, Sons and Co. Limited. In my own humble judgment, and though I have to say it against my own son, this seems an act of treachery.

\u{b6}
";

fn create_notebook() -> Notebook {
    let mut nb = Notebook::new();
    nb.file = "data/test.md".into();
    nb.dt_format = FORMAT.into();
    nb.populate_notebook(DIARY).expect("Error reading notebook.")
}

fn stamp(year: i32, month: u32, day: u32, hour: u32, minute: u32) -> Timestamp {
    Timestamp { year, month, day, hour, minute, second: 0, nanosecond: 0 }
}

#[test]
fn test_populate_notebook() {
    let mut nb = Notebook::new();
    nb.file = "data/test.md".into();
    nb.dt_format = FORMAT.into();
    let nb = nb.populate_notebook(DIARY).expect("Error reading notebook.");
    assert_eq!(nb.entries.len(), 4);
}

#[test]
fn test_populate_blank_notebook() {
    let mut nb = Notebook::new();
    nb.file = "data/empty.md".into();
    nb.dt_format = FORMAT.into();
    let nb = nb.populate_notebook("").expect("Error reading notebook.");
    assert_eq!(nb.entries.len(), 0);
}

#[test]
fn test_new_entry() {
    let e = Entry::new("Testing this entry".into(), stamp(2021, 5, 14, 8, 0));
    let mut nb = create_notebook();
    nb.new_entry(e);
    assert_eq!(nb.entries.len(), 5);
    assert_eq!(nb.entries[4].text, "Testing this entry");
}

#[test]
fn test_list_one_entry() {
    let nb = create_notebook();
    let stdout = nb.list_entries(1, 0).unwrap().concat();
    assert_eq!(stdout.as_bytes(), b"3. Thursday 13 May, 2021 - 22:17\n");
}

#[test]
fn test_list_one_entry_verbose() {
    let nb = create_notebook();
    let stdout = nb.list_entries(1, 1).unwrap().concat();
    assert_eq!(
        stdout.as_bytes(),
        b"3. A terrible misfortune has happ... | Thursday 13 May, 2021 - 22:17\n"
    )
}

#[test]
fn test_read_first_entry() {
    let nb = create_notebook();
    let stdout = nb.read_entry(0).unwrap().into_bytes();
    assert!(stdout.starts_with("### Friday 20 November, 2020 - 20:16".as_bytes()));
    assert!(stdout.ends_with("Left out the Mutlars of course.\n\n\u{b6}\n".as_bytes()));
}

#[test]
fn test_read_outside_upper_bound() {
    let nb = create_notebook();
    let stdout = nb.read_entry(4).unwrap().into_bytes();
    assert_eq!(stdout, b"No such entry.\n");
}

#[test]
fn test_read_inside_upper_bound() {
    let nb = create_notebook();
    let stdout = nb.read_entry(3).unwrap().into_bytes();
    assert!(stdout.starts_with("### Thursday 13 May, 2021 - 22:17".as_bytes()));
    assert!(stdout.ends_with("this seems an act of treachery.\n\n\u{b6}\n".as_bytes()));
}

#[test]
fn test_delete_entry() {
    let mut nb = create_notebook();
    assert_eq!(nb.entries.len(), 4);
    nb.read_entry(0).unwrap();
    nb.delete_entry(2, false, false).unwrap();
    assert_eq!(nb.entries.len(), 3);
}

#[test]
fn test_search_word_single_result() {
    let mut nb = create_notebook();
    nb.search("brandy".into()).unwrap();
    assert_eq!(nb.search_result.len(), 1);
}

#[test]
fn test_search_phrase_single_result() {
    let mut nb = create_notebook();
    nb.search("poisoned by some lobster".into()).unwrap();
    assert_eq!(nb.search_result.len(), 1);
}

#[test]
fn test_search_multiple_results() {
    let mut nb = create_notebook();
    nb.search("Lupin".into()).unwrap();
    assert_eq!(nb.search_result.len(), 3);
}

#[test]
fn test_search_zero_results() {
    let mut nb = create_notebook();
    nb.search("zebra".into()).unwrap();
    assert_eq!(nb.search_result.len(), 0);
}

#[test]
fn test_search_correct_location() {
    let mut nb = create_notebook();
    nb.search("Crowbillon".into()).unwrap();
    assert_eq!(nb.search_result[0].location[0], "Crowbillon");
    nb.search("\u{2019}".into()).unwrap();
    assert_eq!(nb.search_result[1].location[1], "\u{2019}");
}

#[test]
fn test_search_output() {
    let mut nb = create_notebook();
    nb.search("Crowbillon".into()).unwrap();
    let stdout = nb.output_search_results().unwrap().into_bytes();
    assert!(&stdout.starts_with("\u{1b}[1m3\u{1b}[0m: \u{1b}[1m2021-05-13 22:17:00\u{1b}[0m\tA terrible misfortune has happened:".as_bytes()));
}

// The notebook as a whole.

#[test]
fn loading_keeps_the_order_and_the_parts_of_the_entries() {
    let nb = create_notebook();
    assert_eq!(nb.entries[0].timestamp, stamp(2020, 11, 20, 20, 16));
    assert_eq!(nb.entries[1].timestamp, stamp(2020, 11, 21, 9, 30));
    assert_eq!(nb.entries[2].timestamp, stamp(2021, 1, 4, 18, 5));
    assert_eq!(nb.entries[3].timestamp, stamp(2021, 5, 13, 22, 17));
    assert_eq!(nb.entries[0].sentiment, Sentiment::new(0));
    assert_eq!(nb.entries[1].sentiment, Sentiment::new(440));
    assert_eq!(nb.entries[2].sentiment, Sentiment::new(-361));
    assert_eq!(nb.entries[3].sentiment, Sentiment::new(-862));
    assert!(nb.entries[2].text.starts_with("Lupin came home late."));
    assert!(nb.entries[2].text.ends_with("not improved by it."));
}

#[test]
fn storing_what_was_loaded_gives_the_file_again() {
    let nb = create_notebook();
    assert_eq!(nb.write_all_entries().unwrap(), DIARY);
}

#[test]
fn loading_what_was_stored_gives_the_entries_again() {
    let nb = create_notebook();
    let stored = nb.write_all_entries().unwrap();
    let mut again = Notebook::new();
    again.dt_format = FORMAT.into();
    let again = again.populate_notebook(&stored).unwrap();
    assert_eq!(again.entries.len(), nb.entries.len());
    for i in 0..nb.entries.len() {
        assert_eq!(again.entries[i].text, nb.entries[i].text);
        assert_eq!(again.entries[i].timestamp, nb.entries[i].timestamp);
        assert_eq!(again.entries[i].sentiment, nb.entries[i].sentiment);
    }
}

#[test]
fn write_entry_gives_the_block_of_one_entry() {
    let nb = create_notebook();
    let block = nb.write_entry(&nb.entries[2]).unwrap();
    assert_eq!(
        block,
        "### Monday  4 January, 2021 - 18:05\n#### -0.361 \u{2245} \u{1F63E}\n---\n\nLupin came home late. Gowing\u{2019}s manner was rude, and he had plainly been at the brandy; Carrie\u{2019}s temper was not improved by it.\n\n\u{b6}\n"
    );
}

#[test]
fn a_block_that_is_no_entry_fails_the_load_and_is_carried() {
    let mut nb = Notebook::new();
    nb.dt_format = FORMAT.into();
    let broken = format!("{}no entry here\n\u{b6}\n", DIARY);
    match nb.populate_notebook(&broken) {
        Err(NotebookError::Format(block)) => assert_eq!(block, "no entry here\n"),
        _ => panic!("the load should fail on the last block"),
    }
}

#[test]
fn empty_blocks_are_passed_over() {
    let mut nb = Notebook::new();
    nb.dt_format = FORMAT.into();
    let text = format!("\u{b6}\n{}\u{b6}\n", DIARY);
    let nb = nb.populate_notebook(&text).unwrap();
    assert_eq!(nb.entries.len(), 4);
}

#[test]
fn list_shows_the_last_n_in_ascending_order() {
    let nb = create_notebook();
    let lines = nb.list_entries(3, 0).unwrap();
    assert_eq!(
        lines,
        vec![
            "1. Saturday 21 November, 2020 - 09:30\n",
            "2. Monday  4 January, 2021 - 18:05\n",
            "3. Thursday 13 May, 2021 - 22:17\n",
        ]
    );
}

#[test]
fn list_of_more_than_there_are_shows_all() {
    let nb = create_notebook();
    let lines = nb.list_entries(9, 0).unwrap();
    assert_eq!(lines.len(), 4);
    assert!(lines[0].starts_with("0. Friday 20 November"));
    assert!(lines[3].starts_with("3. Thursday 13 May"));
    assert_eq!(nb.list_entries(0, 0).unwrap().len(), 0);
}

#[test]
fn wordy_list_shows_a_short_text_whole() {
    let mut nb = Notebook::new();
    nb.dt_format = "%Y-%m-%d".into();
    nb.new_entry(Entry::from_parts("Short.".into(), stamp(2022, 2, 2, 2, 2), Sentiment::new(0)));
    assert_eq!(nb.list_entries(5, 2).unwrap(), vec!["0. Short.... | 2022-02-02\n"]);
}

#[test]
fn wordy_list_counts_characters() {
    let mut nb = Notebook::new();
    nb.dt_format = "%Y".into();
    let text = "\u{e9}".repeat(40);
    nb.new_entry(Entry::from_parts(text, stamp(2022, 2, 2, 2, 2), Sentiment::new(0)));
    let expected = format!("0. {}... | 2022\n", "\u{e9}".repeat(30));
    assert_eq!(nb.list_entries(1, 1).unwrap(), vec![expected]);
}

#[test]
fn a_format_that_cannot_be_written_is_an_error() {
    let mut nb = create_notebook();
    nb.dt_format = "%Q".into();
    match nb.list_entries(1, 0) {
        Err(NotebookError::DateFormat(f)) => assert_eq!(f, "%Q"),
        _ => panic!("the listing should fail"),
    }
    assert!(matches!(nb.read_entry(0), Err(NotebookError::DateFormat(_))));
    assert!(matches!(nb.write_all_entries(), Err(NotebookError::DateFormat(_))));
    assert_eq!(nb.read_entry(7).unwrap(), "No such entry.\n");
}

#[test]
fn delete_moves_the_later_entries_down() {
    let mut nb = create_notebook();
    let before: Vec<String> = nb.entries.iter().map(|e| e.text.clone()).collect();
    assert_eq!(nb.delete_entry(2, false, false).unwrap(), true);
    assert_eq!(nb.entries.len(), 3);
    assert_eq!(nb.entries[0].text, before[0]);
    assert_eq!(nb.entries[1].text, before[1]);
    assert_eq!(nb.entries[2].text, before[3]);
    assert_eq!(nb.entries[2].timestamp, stamp(2021, 5, 13, 22, 17));
}

#[test]
fn delete_waits_for_a_confirmation_that_is_required() {
    let mut nb = create_notebook();
    assert_eq!(nb.delete_entry(1, true, false).unwrap(), false);
    assert_eq!(nb.entries.len(), 4);
    assert_eq!(nb.delete_entry(1, true, true).unwrap(), true);
    assert_eq!(nb.entries.len(), 3);
    assert_eq!(nb.delete_entry(0, false, true).unwrap(), true);
    assert_eq!(nb.entries.len(), 2);
}

#[test]
fn delete_and_edit_of_a_missing_entry_are_not_found() {
    let mut nb = create_notebook();
    assert!(matches!(nb.delete_entry(4, false, false), Err(NotebookError::NotFound(4))));
    assert!(matches!(nb.edit_entry(9, "x"), Err(NotebookError::NotFound(9))));
    assert_eq!(nb.entries.len(), 4);
}

#[test]
fn edit_replaces_the_text_and_nothing_else() {
    let mut nb = create_notebook();
    nb.edit_entry(1, "All is forgiven.").unwrap();
    assert_eq!(nb.entries.len(), 4);
    assert_eq!(nb.entries[1].text, "All is forgiven.");
    assert_eq!(nb.entries[1].timestamp, stamp(2020, 11, 21, 9, 30));
    assert_eq!(nb.entries[1].sentiment, Sentiment::new(440));
    assert!(nb.entries[0].text.starts_with("Have seen nothing"));
    assert!(nb.entries[2].text.starts_with("Lupin came home late."));
}

#[test]
fn search_is_case_sensitive() {
    let mut nb = create_notebook();
    nb.search("lupin".into()).unwrap();
    assert_eq!(nb.search_result.len(), 0);
    nb.search("(?i)lupin".into()).unwrap();
    assert_eq!(nb.search_result.len(), 3);
}

#[test]
fn search_gives_every_match_of_every_matching_entry() {
    let mut nb = create_notebook();
    nb.search("Lupin".into()).unwrap();
    let found: Vec<(usize, usize)> =
        nb.search_result.iter().map(|r| (r.entry_idx, r.location.len())).collect();
    assert_eq!(found, vec![(0, 1), (2, 1), (3, 2)]);
    assert_eq!(nb.search_result[2].pattern.as_str(), "Lupin");
    nb.search("[A-Z]r\\. [A-Z][a-z]+".into()).unwrap();
    assert_eq!(nb.search_result.len(), 1);
    assert_eq!(nb.search_result[0].entry_idx, 3);
    assert_eq!(
        nb.search_result[0].location,
        vec!["Mr. Perkupp", "Mr. Perkupp", "Mr. Crowbillon"]
    );
}

#[test]
fn a_new_search_replaces_the_results_of_the_last() {
    let mut nb = create_notebook();
    nb.search("Lupin".into()).unwrap();
    assert_eq!(nb.search_result.len(), 3);
    nb.search("brandy".into()).unwrap();
    assert_eq!(nb.search_result.len(), 1);
    assert_eq!(nb.search_result[0].entry_idx, 2);
}

#[test]
fn a_pattern_that_is_no_regular_expression_is_an_error() {
    let mut nb = create_notebook();
    nb.search("Lupin".into()).unwrap();
    match nb.search("foo(bar".into()) {
        Err(NotebookError::Pattern(p)) => assert_eq!(p, "foo(bar"),
        _ => panic!("the search should fail"),
    }
    assert_eq!(nb.search_result.len(), 3);
}

#[test]
fn search_output_sets_each_match_in_red() {
    let mut nb = Notebook::new();
    nb.new_entry(Entry::from_parts(
        "one two one".into(),
        Timestamp { year: 2021, month: 5, day: 13, hour: 22, minute: 17, second: 5, nanosecond: 0 },
        Sentiment::new(0),
    ));
    nb.new_entry(Entry::from_parts("three".into(), stamp(2021, 5, 14, 1, 2), Sentiment::new(0)));
    nb.new_entry(Entry::from_parts("two".into(), stamp(2021, 5, 15, 3, 4), Sentiment::new(0)));
    nb.search("one|three".into()).unwrap();
    assert_eq!(
        nb.output_search_results().unwrap(),
        "\u{1b}[1m0\u{1b}[0m: \u{1b}[1m2021-05-13 22:17:05\u{1b}[0m\t\u{1b}[31mone\u{1b}[0m two \u{1b}[31mone\u{1b}[0m\n\
         \u{1b}[1m1\u{1b}[0m: \u{1b}[1m2021-05-14 01:02:00\u{1b}[0m\t\u{1b}[31mthree\u{1b}[0m\n"
    );
}

#[test]
fn search_output_of_a_result_without_entry_is_not_found() {
    let mut nb = create_notebook();
    let pattern = Pattern::compile("x").unwrap();
    nb.search_result.push(SearchResult::new(pattern, 4, vec!["x".to_string()]));
    assert!(matches!(nb.output_search_results(), Err(NotebookError::NotFound(4))));
}

#[test]
fn search_results_are_not_kept_when_the_entries_change() {
    let mut nb = create_notebook();
    nb.search("Lupin".into()).unwrap();
    assert_eq!(nb.search_result.len(), 3);
    nb.delete_entry(0, false, false).unwrap();
    assert_eq!(nb.search_result.len(), 0);
    assert_eq!(nb.output_search_results().unwrap(), "");

    nb.search("Lupin".into()).unwrap();
    assert_eq!(nb.search_result.len(), 2);
    nb.edit_entry(0, "nothing").unwrap();
    assert_eq!(nb.search_result.len(), 0);

    nb.search("Lupin".into()).unwrap();
    nb.new_entry(Entry::from_parts("Lupin again".into(), stamp(2021, 6, 1, 1, 1), Sentiment::new(0)));
    assert_eq!(nb.search_result.len(), 0);

    nb.search("Lupin".into()).unwrap();
    assert_eq!(nb.search_result.len(), 3);
    assert_eq!(nb.delete_entry(0, true, false).unwrap(), false);
    assert_eq!(nb.search_result.len(), 0);

    nb.search("Lupin".into()).unwrap();
    assert!(nb.delete_entry(9, false, false).is_err());
    assert!(nb.edit_entry(9, "x").is_err());
    assert_eq!(nb.search_result.len(), 3);
    let nb = nb.populate_notebook("").unwrap();
    assert_eq!(nb.search_result.len(), 0);
}

#[test]
fn a_note_that_holds_the_separator_survives_storing_and_loading() {
    let mut nb = create_notebook();
    let text = "before --- after\n---\nand more";
    nb.new_entry(Entry::from_parts(text.into(), stamp(2021, 6, 1, 7, 30), Sentiment::new(12)));
    let stored = nb.write_all_entries().unwrap();
    let mut again = Notebook::new();
    again.dt_format = FORMAT.into();
    let again = again.populate_notebook(&stored).unwrap();
    assert_eq!(again.entries.len(), 5);
    assert_eq!(again.entries[4].text, text);
    assert_eq!(again.entries[4].sentiment, Sentiment::new(12));
    assert_eq!(again.write_all_entries().unwrap(), stored);
}
