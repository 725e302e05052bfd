use langl::collection::Collection;
use langl::export::export_text;
use langl::session::Action;
use langl::session::App;
use langl::session::KeyInput;
use langl::session::LearnMessage;
use langl::session::LearnPhase;
use langl::session::LearnWidget;
use langl::session::ScreenName;
use langl::session::SetupMessage;
use langl::session::SetupWidget;
use langl::session::TestMessage;
use langl::session::TestPhase;
use langl::session::TestWidget;
use langl::session::UpdateOutcome;
use langl::session::WorkMode;

fn two_entry_collection() -> Collection {
    let (c, _) = Collection::new_from_text("@ en\ncat | kot / kotek\ndog | pies\n", 1);
    c
}

fn five_entry_collection() -> Collection {
    let (c, _) = Collection::new_from_text("a | 1\nb | 2\nc | 3\nd | 4\ne | 5\n", 2);
    c
}

#[test]
fn test_mode_clamps_pool_to_collection_size() {
    let mut w = TestWidget::new();
    let clamped = w.start(two_entry_collection(), 5);
    assert!(clamped);
    assert_eq!(w.word_pool().len(), 2);
    assert_ne!(w.word_pool()[0], w.word_pool()[1]);
    for word in w.word_pool().iter() {
        assert!(word == "cat" || word == "dog");
    }
    assert_eq!(w.phase(), TestPhase::NotStarted);
}

#[test]
fn test_mode_samples_distinct_words_from_keys() {
    let mut w = TestWidget::new();
    let clamped = w.start(five_entry_collection(), 3);
    assert!(!clamped);
    let pool = w.word_pool();
    assert_eq!(pool.len(), 3);
    for i in 0..pool.len() {
        for j in 0..pool.len() {
            if i != j {
                assert_ne!(pool[i], pool[j]);
            }
        }
    }
    for word in pool.iter() {
        assert!(["a", "b", "c", "d", "e"].contains(&word.as_str()));
    }
}

#[test]
fn test_mode_finishes_after_pool_many_submissions() {
    let mut w = TestWidget::new();
    w.start(five_entry_collection(), 5);
    assert_eq!(w.phase(), TestPhase::NotStarted);
    w.update(TestMessage::KeyPressed(KeyInput::Enter));
    assert_eq!(w.phase(), TestPhase::InProgress);
    for k in 0..5 {
        assert_eq!(w.answers().len(), k);
        w.update(TestMessage::InputChanged(format!("guess{}", k)));
        w.update(TestMessage::InputSubmit);
    }
    assert_eq!(w.phase(), TestPhase::Finished);
    assert_eq!(w.answers().len(), 5);
    // Submissions once finished change nothing.
    w.update(TestMessage::InputSubmit);
    assert_eq!(w.answers().len(), 5);
}

#[test]
fn test_mode_records_verbatim_answers() {
    let mut w = TestWidget::new();
    w.start(two_entry_collection(), 2);
    w.update(TestMessage::KeyPressed(KeyInput::Enter));
    let first = w.word_pool()[0].clone();
    let answer = if first == "cat" { "kot" } else { "pies" };
    w.update(TestMessage::InputChanged(answer.to_string()));
    w.update(TestMessage::InputSubmit);
    let (word, typed, correct, _t) = &w.answers()[0];
    assert_eq!(word, &first);
    assert_eq!(typed, answer);
    assert!(*correct);
    // An empty submission is recorded, as incorrect, in test mode.
    w.update(TestMessage::InputSubmit);
    let (_w2, typed2, correct2, _t2) = &w.answers()[1];
    assert_eq!(typed2, "");
    assert!(!*correct2);
    assert_eq!(w.phase(), TestPhase::Finished);
}

#[test]
fn test_mode_escape_asks_for_setup() {
    let mut w = TestWidget::new();
    w.start(two_entry_collection(), 2);
    let r = w.update(TestMessage::KeyPressed(KeyInput::Escape));
    assert!(matches!(r, UpdateOutcome::Emit(Action::ChangeScreen(ScreenName::SetupScreen))));
}

#[test]
fn learn_mode_pools_every_key_in_order() {
    let mut w = LearnWidget::new();
    w.update(LearnMessage::Start(two_entry_collection()));
    assert_eq!(w.word_pool(), &vec!["cat".to_string(), "dog".to_string()]);
    assert_eq!(w.cursor(), 0);
    assert_eq!(w.phase(), LearnPhase::AwaitingAnswer);
}

#[test]
fn learn_mode_cursor_wraps_after_pool_many_submissions() {
    let mut w = LearnWidget::new();
    w.update(LearnMessage::Start(five_entry_collection()));
    assert_eq!(w.cursor(), 0);
    for k in 1..=5 {
        w.update(LearnMessage::InputChanged("x".to_string()));
        w.update(LearnMessage::InputSubmit);
        assert_eq!(w.cursor(), k % 5);
        w.update(LearnMessage::KeyPressed(KeyInput::Enter));
    }
    assert_eq!(w.cursor(), 0);
}

#[test]
fn learn_mode_checks_answers_verbatim() {
    let mut w = LearnWidget::new();
    w.update(LearnMessage::Start(two_entry_collection()));
    assert_eq!(w.word_pool()[0], "cat");
    w.update(LearnMessage::InputChanged("kot".to_string()));
    w.update(LearnMessage::InputSubmit);
    assert_eq!(w.phase(), LearnPhase::ShowingCorrect);
    w.update(LearnMessage::KeyPressed(KeyInput::Enter));
    assert_eq!(w.phase(), LearnPhase::AwaitingAnswer);
    w.update(LearnMessage::InputChanged("Kot".to_string()));
    w.update(LearnMessage::InputSubmit);
    assert_eq!(w.phase(), LearnPhase::ShowingIncorrect);
}

#[test]
fn learn_mode_ignores_empty_submission() {
    let mut w = LearnWidget::new();
    w.update(LearnMessage::Start(two_entry_collection()));
    w.update(LearnMessage::InputSubmit);
    assert_eq!(w.cursor(), 0);
    assert_eq!(w.phase(), LearnPhase::AwaitingAnswer);
}

#[test]
fn export_matches_template_byte_for_byte() {
    let answers = vec![
        ("cat".to_string(), "kot".to_string(), true, 100i64),
        ("dog".to_string(), "".to_string(), false, 200i64),
    ];
    let text = export_text(&answers, 50);
    assert_eq!(
        text,
        "Start time\n50\n\nCorrect\tAll\n1\t2\n\ncat\tkot\t1\t100\ndog\t-\t0\t200\n"
    );
}

#[test]
fn export_of_no_answers_and_negative_time() {
    let text = export_text(&Vec::new(), -5);
    assert_eq!(text, "Start time\n-5\n\nCorrect\tAll\n0\t0\n\n");
}

#[test]
fn export_through_widget_uses_session_state() {
    let mut w = TestWidget::new();
    let (c, _) = Collection::new_from_text("cat | kot\n", 1);
    w.start(c, 1);
    w.update(TestMessage::KeyPressed(KeyInput::Enter));
    w.update(TestMessage::InputChanged("kot".to_string()));
    w.update(TestMessage::InputSubmit);
    let text = w.export_text();
    assert!(text.starts_with("Start time\n"));
    assert!(text.contains("\n\nCorrect\tAll\n1\t1\n\n"));
    assert!(text.contains("cat\tkot\t1\t"));
}

#[test]
fn setup_defaults_and_choices() {
    let mut s = SetupWidget::new();
    assert_eq!(s.work_mode(), WorkMode::LearnMode);
    assert_eq!(s.word_count(), 5);
    assert!(s.selected_collection().is_none());
    s.update(SetupMessage::SelectedMode(WorkMode::TestMode));
    s.update(SetupMessage::SelectedNumberOfWords(12));
    assert_eq!(s.work_mode(), WorkMode::TestMode);
    assert_eq!(s.word_count(), 12);
}

#[test]
fn setup_selects_first_loaded_collection() {
    let mut s = SetupWidget::new();
    let loaded = vec![two_entry_collection(), five_entry_collection()];
    s.update(SetupMessage::CollectionsLoaded(Some(loaded)));
    assert_eq!(s.collections().len(), 2);
    assert_eq!(s.selected_collection().as_ref().unwrap().id(), 1);
    // A later load keeps the earlier selection.
    s.update(SetupMessage::CollectionsLoaded(Some(vec![five_entry_collection()])));
    assert_eq!(s.selected_collection().as_ref().unwrap().id(), 1);
    // An empty or missing load changes nothing.
    s.update(SetupMessage::CollectionsLoaded(Some(Vec::new())));
    s.update(SetupMessage::CollectionsLoaded(None));
    assert_eq!(s.collections().len(), 1);
}

#[test]
fn setup_start_emits_the_chosen_mode() {
    let mut s = SetupWidget::new();
    assert!(matches!(s.update(SetupMessage::StartButtonClicked), UpdateOutcome::Carry));
    s.update(SetupMessage::SelectedCollection(two_entry_collection()));
    let r = s.update(SetupMessage::StartButtonClicked);
    assert!(matches!(r, UpdateOutcome::Emit(Action::StartLearnMode(_))));
    s.update(SetupMessage::SelectedMode(WorkMode::TestMode));
    s.update(SetupMessage::SelectedNumberOfWords(7));
    let r2 = s.update(SetupMessage::StartButtonClicked);
    match r2 {
        UpdateOutcome::Emit(Action::StartTestMode(c, n)) => {
            assert_eq!(c.id(), 1);
            assert_eq!(n, 7);
        },
        _ => panic!("expected a test-mode start"),
    }
}

#[test]
fn app_performs_actions() {
    let mut app = App::new();
    assert_eq!(app.active_screen, ScreenName::SetupScreen);
    app.perform_action(Action::ChangeScreen(ScreenName::LearnScreen));
    assert_eq!(app.active_screen, ScreenName::LearnScreen);
    app.perform_action(Action::StartLearnMode(two_entry_collection()));
    assert_eq!(app.active_screen, ScreenName::LearnScreen);
    assert_eq!(app.learn_screen.word_pool().len(), 2);
    app.perform_action(Action::StartTestMode(five_entry_collection(), 3));
    assert_eq!(app.active_screen, ScreenName::TestingScreen);
    assert_eq!(app.testing_screen.word_pool().len(), 3);
}

#[test]
fn app_default_shows_setup() {
    let app = App::default();
    assert_eq!(app.active_screen, ScreenName::SetupScreen);
    assert!(app.setup_screen.selected_collection().is_none());
}
