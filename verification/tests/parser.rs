use langl::collection::Collection;
use langl::collection::ParseWarning;

fn entry<'a>(c: &'a Collection, w: &str) -> Option<&'a Vec<String>> {
    for (key, ms) in c.words().iter() {
        if key == w {
            return Some(ms);
        }
    }
    None
}

fn variable<'a>(c: &'a Collection, n: &str) -> Option<&'a String> {
    for (name, value) in c.variables().iter() {
        if name == n {
            return Some(value);
        }
    }
    None
}

#[test]
fn basic_scenario_parses() {
    let text = "@ lang(en)\n$ name=Basics\ncat | kot / kotek\ndog | pies\n";
    let (c, warns) = Collection::new_from_text(text, 1);
    assert_eq!(c.id(), 1);
    // The tag is the trimmed remainder of the `@` line.
    assert_eq!(c.language(), "lang(en)");
    assert_eq!(variable(&c, "name").unwrap(), "Basics");
    assert_eq!(entry(&c, "cat").unwrap(), &vec!["kot".to_string(), "kotek".to_string()]);
    assert_eq!(entry(&c, "dog").unwrap(), &vec!["pies".to_string()]);
    assert_eq!(c.words().len(), 2);
    assert_eq!(warns.len(), 0);
}

#[test]
fn plain_tag_parses() {
    let (c, _) = Collection::new_from_text("@ en\nsun | slonce\n", 7);
    assert_eq!(c.language(), "en");
}

#[test]
fn word_line_segments_are_trimmed() {
    let (c, warns) = Collection::new_from_text("  word |  m1 / m2  /m3 \n", 1);
    assert_eq!(
        entry(&c, "word").unwrap(),
        &vec!["m1".to_string(), "m2".to_string(), "m3".to_string()]
    );
    assert_eq!(warns.len(), 0);
}

#[test]
fn empty_segments_are_dropped() {
    let (c, _) = Collection::new_from_text("cat | / kot //\n", 1);
    assert_eq!(entry(&c, "cat").unwrap(), &vec!["kot".to_string()]);
}

#[test]
fn word_without_pipe_has_no_meanings() {
    let (c, _) = Collection::new_from_text("lonely\n", 1);
    assert_eq!(entry(&c, "lonely").unwrap(), &Vec::<String>::new());
}

#[test]
fn comments_and_blank_lines_are_skipped() {
    let (c, warns) = Collection::new_from_text("# a comment\n\n   \n  # more\ncat | kot\n", 1);
    assert_eq!(c.words().len(), 1);
    assert_eq!(warns.len(), 0);
}

#[test]
fn duplicate_word_last_wins_and_warns() {
    let text = "cat | kot\ndog | pies\ncat | chat\n";
    let (c, warns) = Collection::new_from_text(text, 1);
    assert_eq!(entry(&c, "cat").unwrap(), &vec!["chat".to_string()]);
    assert_eq!(c.words().len(), 2);
    let dup_warns = warns
        .iter()
        .filter(|w| matches!(w, ParseWarning::WordChanged { .. }))
        .count();
    assert_eq!(dup_warns, 1);
    match &warns[0] {
        ParseWarning::WordChanged { line, word, old_meanings, new_meanings } => {
            assert_eq!(*line, 3);
            assert_eq!(word, "cat");
            assert_eq!(old_meanings, &vec!["kot".to_string()]);
            assert_eq!(new_meanings, &vec!["chat".to_string()]);
        },
        _ => panic!("expected a word warning"),
    }
}

#[test]
fn duplicate_warning_count_matches_duplicates() {
    let text = "a | 1\na | 2\na | 3\nb | 4\nb | 5\n";
    let (c, warns) = Collection::new_from_text(text, 1);
    assert_eq!(c.words().len(), 2);
    let dup_warns = warns
        .iter()
        .filter(|w| matches!(w, ParseWarning::WordChanged { .. }))
        .count();
    assert_eq!(dup_warns, 3);
    assert_eq!(entry(&c, "a").unwrap(), &vec!["3".to_string()]);
    assert_eq!(entry(&c, "b").unwrap(), &vec!["5".to_string()]);
}

#[test]
fn duplicate_variable_warns_with_values() {
    let text = "$x=1\n$ x = 2\n";
    let (c, warns) = Collection::new_from_text(text, 1);
    assert_eq!(variable(&c, "x").unwrap(), "2");
    assert_eq!(warns.len(), 1);
    match &warns[0] {
        ParseWarning::VariableChanged { line, name, old_value, new_value } => {
            assert_eq!(*line, 2);
            assert_eq!(name, "x");
            assert_eq!(old_value, "1");
            assert_eq!(new_value, "2");
        },
        _ => panic!("expected a variable warning"),
    }
}

#[test]
fn variable_value_may_hold_equals_sign() {
    let (c, _) = Collection::new_from_text("$formula=a=b=c\n", 1);
    assert_eq!(variable(&c, "formula").unwrap(), "a=b=c");
}

#[test]
fn variable_without_equals_has_empty_value() {
    let (c, _) = Collection::new_from_text("$flag\n", 1);
    assert_eq!(variable(&c, "flag").unwrap(), "");
}

#[test]
fn extra_pipe_warns_and_is_dropped() {
    let (c, warns) = Collection::new_from_text("a | b | c\n", 1);
    let extra = warns
        .iter()
        .filter(|w| matches!(w, ParseWarning::ExtraPipe { .. }))
        .count();
    assert_eq!(extra, 1);
    assert_eq!(entry(&c, "a").unwrap(), &vec!["b  c".to_string()]);
}

#[test]
fn repeated_tag_line_overwrites_silently() {
    let (c, warns) = Collection::new_from_text("@one\n@two\n", 1);
    assert_eq!(c.language(), "two");
    assert_eq!(warns.len(), 0);
}

#[test]
fn reparsing_serialized_form_keeps_entries() {
    let text = "@ en\n$ name=Basics\ncat | kot / kotek\ndog | pies\ncat | chat\n# note\n";
    let (c, _) = Collection::new_from_text(text, 1);
    let again = c.to_text();
    let (c2, warns2) = Collection::new_from_text(again.as_str(), 1);
    assert_eq!(warns2.len(), 0);
    assert_eq!(c.language(), c2.language());
    assert_eq!(c.variables(), c2.variables());
    assert_eq!(c.words(), c2.words());
}

#[test]
fn reparsing_empty_collection_round_trips() {
    let (c, _) = Collection::new_from_text("", 3);
    let (c2, _) = Collection::new_from_text(c.to_text().as_str(), 3);
    assert_eq!(c2.language(), "");
    assert_eq!(c2.words().len(), 0);
    assert_eq!(c2.variables().len(), 0);
}

#[test]
fn empty_collection_is_legal() {
    let c = Collection::new(9);
    assert_eq!(c.id(), 9);
    assert_eq!(c.words().len(), 0);
    assert_eq!(c.variables().len(), 0);
    assert_eq!(c.language(), "");
}

#[test]
fn answer_check_is_verbatim() {
    let text = "cat | kot / kotek\ndog | pies\n";
    let (c, _) = Collection::new_from_text(text, 1);
    assert!(c.check_answer(&"cat".to_string(), &"kot".to_string()));
    assert!(!c.check_answer(&"cat".to_string(), &"Kot".to_string()));
    assert!(c.check_answer(&"cat".to_string(), &"kotek".to_string()));
    assert!(!c.check_answer(&"cat".to_string(), &"pies".to_string()));
    assert!(!c.check_answer(&"mouse".to_string(), &"mysz".to_string()));
}
