//! The quiz-session engine over a parsed collection: an endless drill
//! (learn mode) and a finite randomized quiz (test mode), driven by plain
//! input events and answering with plain outcomes.
use vstd::prelude::*;

use crate::collection::assoc_ix;
use crate::collection::answer_correct;
use crate::collection::strs_view;
use crate::collection::Collection;

verus! {

/// Which flow a session runs.
#[derive(Debug, PartialEq, Eq, Clone, Copy, Structural)]
pub enum WorkMode {
    LearnMode,
    TestMode,
}

/// The closed set of screens.
#[derive(Debug, PartialEq, Eq, Clone, Copy, Structural)]
pub enum ScreenName {
    LearnScreen,
    SetupScreen,
    TestingScreen,
}

/// A cross-screen action a widget asks the application to perform.
pub enum Action {
    ChangeScreen(ScreenName),
    StartLearnMode(Collection),
    StartTestMode(Collection, usize),
}

/// What one update step asks of the surrounding shell: nothing, moving the
/// focus to the answer box, or a cross-screen action.
pub enum UpdateOutcome {
    Carry,
    FocusInput,
    Emit(Action),
}

/// A key event, reduced to what the engine reacts to.
#[derive(Debug, PartialEq, Eq, Clone, Copy, Structural)]
pub enum KeyInput {
    Enter,
    Escape,
    Other,
}

/// Where a learn-mode session stands.
#[derive(Debug, PartialEq, Eq, Clone, Copy, Structural)]
pub enum LearnPhase {
    AwaitingAnswer,
    ShowingCorrect,
    ShowingIncorrect,
}

/// An input event for the learn screen.
pub enum LearnMessage {
    InputChanged(String),
    InputSubmit,
    Start(Collection),
    KeyPressed(KeyInput),
}

/// The word keys of the entries, in order.
pub open spec fn keys_of(s: Seq<(Seq<char>, Seq<Seq<char>>)>) -> Seq<Seq<char>> {
    Seq::new(s.len(), |i: int| s[i].0)
}

/// The cursor after one submission: one step forward, wrapping at the end.
pub open spec fn next_cursor_wrapping(cur: int, len: int) -> int {
    if cur + 1 < len {
        cur + 1
    } else {
        0
    }
}

/// The untimed, non-terminating drill over every word of a collection.
pub struct LearnWidget {
    selected_collection: Option<Collection>,
    word_pool: Vec<String>,
    phase: LearnPhase,
    cursor: usize,
    input: String,
}

impl LearnWidget {
    pub closed spec fn coll_view(&self) -> Option<Collection> {
        self.selected_collection
    }

    /// The words of this session, in presentation order.
    pub closed spec fn pool_view(&self) -> Seq<Seq<char>> {
        strs_view(self.word_pool@)
    }

    pub closed spec fn phase_view(&self) -> LearnPhase {
        self.phase
    }

    /// The index of the word now presented.
    pub closed spec fn cursor_view(&self) -> int {
        self.cursor as int
    }

    pub closed spec fn input_view(&self) -> Seq<char> {
        self.input@
    }

    /// The session invariant: the cursor stays inside the pool, and every
    /// pooled word is a key of the selected, well-formed collection.
    pub open spec fn wf(&self) -> bool {
        &&& (self.pool_view().len() == 0 ==> self.cursor_view() == 0)
        &&& (self.pool_view().len() > 0 ==> self.cursor_view() < self.pool_view().len())
        &&& match self.coll_view() {
            Option::Some(c) => c.wf() && forall|i: int|
                0 <= i < self.pool_view().len() ==> assoc_ix(
                    c.words_view(),
                    #[trigger] self.pool_view()[i],
                ) >= 0,
            Option::None => self.pool_view().len() == 0,
        }
    }

    /// A freshly started drill over `c`: the pool is every key in order.
    pub open spec fn started_with(&self, c: Collection) -> bool {
        &&& self.coll_view() == Option::Some(c)
        &&& self.pool_view() == keys_of(c.words_view())
        &&& self.cursor_view() == 0
        &&& self.phase_view() == LearnPhase::AwaitingAnswer
        &&& self.input_view() == Seq::<char>::empty()
    }

    /// An idle drill: nothing selected, nothing pooled.
    pub fn new() -> (w: LearnWidget)
        ensures
            w.wf(),
            w.coll_view() == Option::<Collection>::None,
            w.pool_view() == Seq::<Seq<char>>::empty(),
            w.cursor_view() == 0,
            w.phase_view() == LearnPhase::AwaitingAnswer,
            w.input_view() == Seq::<char>::empty(),
    {
        let w = LearnWidget {
            selected_collection: Option::None,
            word_pool: Vec::new(),
            phase: LearnPhase::AwaitingAnswer,
            cursor: 0,
            input: String::new(),
        };
        proof {
            assert(w.pool_view() =~= Seq::<Seq<char>>::empty());
        }
        w
    }

    /// Begins a drill over `c`, pooling every key in insertion order.
    pub fn start(&mut self, c: Collection)
        requires
            c.wf(),
        ensures
            final(self).wf(),
            final(self).started_with(c),
    {
        let keys = c.words();
        let n = keys.len();
        let mut pool: Vec<String> = Vec::new();
        let mut i: usize = 0;
        while i < n
            invariant
                n == keys@.len(),
                n == c.words_view().len(),
                i <= n,
                pool@.len() == i,
                forall|j: int| 0 <= j < n ==> (#[trigger] keys@[j]).0@ == c.words_view()[j].0,
                forall|j: int| 0 <= j < i ==> (#[trigger] pool@[j])@ == c.words_view()[j].0,
            decreases n - i,
        {
            proof {
                assert(keys@[i as int].0@ == c.words_view()[i as int].0);
            }
            pool.push(keys[i].0.clone());
            i = i + 1;
        }
        self.word_pool = pool;
        self.selected_collection = Option::Some(c);
        self.phase = LearnPhase::AwaitingAnswer;
        self.cursor = 0;
        self.input = String::new();
        proof {
            assert(self.pool_view() =~= keys_of(self.coll_view()->Some_0.words_view()));
            let cc = self.coll_view()->Some_0;
            assert forall|i2: int| 0 <= i2 < self.pool_view().len() implies assoc_ix(
                cc.words_view(),
                #[trigger] self.pool_view()[i2],
            ) >= 0 by {
                crate::collection::lemma_assoc_ix_of_key(cc.words_view(), i2);
            }
        }
    }


    /// The words of this session, in presentation order.
    pub fn word_pool(&self) -> (r: &Vec<String>)
        ensures
            strs_view(r@) == self.pool_view(),
    {
        &self.word_pool
    }

    /// The index of the word now presented.
    pub fn cursor(&self) -> (r: usize)
        ensures
            r as int == self.cursor_view(),
    {
        self.cursor
    }

    /// Where the drill stands.
    pub fn phase(&self) -> (r: LearnPhase)
        ensures
            r == self.phase_view(),
    {
        self.phase
    }

    /// One input event applied to the drill, exactly as the contract's case
    /// split states: typing replaces the draft answer; submitting a non-empty
    /// answer checks it verbatim against the current word's meanings, shows
    /// the verdict and moves the cursor one step, wrapping at the end of the
    /// pool; Enter dismisses the verdict; Escape asks for the setup screen.
    pub fn update(&mut self, message: LearnMessage) -> (r: UpdateOutcome)
        requires
            old(self).wf(),
            match message {
                LearnMessage::Start(c) => c.wf(),
                _ => true,
            },
        ensures
            final(self).wf(),
            match message {
                LearnMessage::InputChanged(s) => {
                    &&& final(self).input_view() == s@
                    &&& final(self).pool_view() == old(self).pool_view()
                    &&& final(self).cursor_view() == old(self).cursor_view()
                    &&& final(self).phase_view() == old(self).phase_view()
                    &&& final(self).coll_view() == old(self).coll_view()
                    &&& r is Carry
                },
                LearnMessage::InputSubmit => {
                    if old(self).input_view().len() == 0 || old(self).pool_view().len() == 0 || old(
                        self,
                    ).coll_view() is None {
                        *final(self) == *old(self) && r is Carry
                    } else {
                        let ok = answer_correct(
                            old(self).coll_view()->Some_0,
                            old(self).pool_view()[old(self).cursor_view()],
                            old(self).input_view(),
                        );
                        &&& final(self).phase_view() == (if ok {
                            LearnPhase::ShowingCorrect
                        } else {
                            LearnPhase::ShowingIncorrect
                        })
                        &&& final(self).cursor_view() == next_cursor_wrapping(
                            old(self).cursor_view(),
                            old(self).pool_view().len() as int,
                        )
                        &&& final(self).input_view() == Seq::<char>::empty()
                        &&& final(self).pool_view() == old(self).pool_view()
                        &&& final(self).coll_view() == old(self).coll_view()
                        &&& r is Carry
                    }
                },
                LearnMessage::Start(c) => final(self).started_with(c) && r is Carry,
                LearnMessage::KeyPressed(k) => match k {
                    KeyInput::Escape => *final(self) == *old(self) && (r matches UpdateOutcome::Emit(
                        Action::ChangeScreen(ScreenName::SetupScreen),
                    )),
                    KeyInput::Enter => {
                        if old(self).phase_view() == LearnPhase::AwaitingAnswer {
                            *final(self) == *old(self) && r is Carry
                        } else {
                            &&& final(self).phase_view() == LearnPhase::AwaitingAnswer
                            &&& final(self).pool_view() == old(self).pool_view()
                            &&& final(self).cursor_view() == old(self).cursor_view()
                            &&& final(self).input_view() == old(self).input_view()
                            &&& final(self).coll_view() == old(self).coll_view()
                            &&& r is FocusInput
                        }
                    },
                    KeyInput::Other => *final(self) == *old(self) && r is Carry,
                },
            },
    {
        match message {
            LearnMessage::InputChanged(s) => {
                self.input = s;
                UpdateOutcome::Carry
            },
            LearnMessage::InputSubmit => {
                if self.input.as_str().is_empty() {
                    return UpdateOutcome::Carry;
                }
                if self.word_pool.len() == 0 {
                    return UpdateOutcome::Carry;
                }
                let is_correct = match &self.selected_collection {
                    Option::Some(c) => c.check_answer(&self.word_pool[self.cursor], &self.input),
                    Option::None => {
                        return UpdateOutcome::Carry;
                    },
                };
                proof {
                    assert(self.pool_view()[self.cursor_view()] == self.word_pool@[
                        self.cursor as int]@);
                }
                self.phase = if is_correct {
                    LearnPhase::ShowingCorrect
                } else {
                    LearnPhase::ShowingIncorrect
                };
                if self.cursor + 1 < self.word_pool.len() {
                    self.cursor = self.cursor + 1;
                } else {
                    self.cursor = 0;
                }
                self.input = String::new();
                UpdateOutcome::Carry
            },
            LearnMessage::Start(c) => {
                self.start(c);
                UpdateOutcome::Carry
            },
            LearnMessage::KeyPressed(k) => {
                match k {
                    KeyInput::Escape => UpdateOutcome::Emit(
                        Action::ChangeScreen(ScreenName::SetupScreen),
                    ),
                    KeyInput::Enter => {
                        match self.phase {
                            LearnPhase::AwaitingAnswer => UpdateOutcome::Carry,
                            _ => {
                                self.phase = LearnPhase::AwaitingAnswer;
                                UpdateOutcome::FocusInput
                            },
                        }
                    },
                    KeyInput::Other => UpdateOutcome::Carry,
                }
            },
        }
    }
}

/// Relies on `rand::random_range` over `0..n`: a uniformly drawn index
/// below `n`. The range must be non-empty, else the call panics.
#[verifier::external_body]
fn random_index(n: usize) -> (r: usize)
    requires
        n > 0,
    ensures
        r < n,
{
    rand::random_range(0..n)
}

/// Relies on `chrono::Utc::now` and `DateTime::timestamp`: the current
/// moment as whole seconds since the Unix epoch. Nothing is promised of the
/// value.
#[verifier::external_body]
fn now_timestamp() -> i64 {
    chrono::Utc::now().timestamp()
}

/// Where a test-mode session stands.
#[derive(Debug, PartialEq, Eq, Clone, Copy, Structural)]
pub enum TestPhase {
    NotStarted,
    InProgress,
    Finished,
}

/// An input event for the testing screen.
pub enum TestMessage {
    InputChanged(String),
    InputSubmit,
    Start(Collection, usize),
    KeyPressed(KeyInput),
}

/// The views of one submission record: word, typed answer, verdict, time.
pub open spec fn recs_view(v: Seq<(String, String, bool, i64)>) -> Seq<
    (Seq<char>, Seq<char>, bool, i64),
> {
    Seq::new(v.len(), |i: int| (v[i].0@, v[i].1@, v[i].2, v[i].3))
}

/// How far a test has come: presented index, submissions made, done or not.
pub struct TestProg {
    pub cursor: int,
    pub count: int,
    pub finished: bool,
}

/// One submission's effect on the progress: one more answer, the cursor one
/// step forward, and the test finished when the last word was answered.
pub open spec fn test_submit_step(p: TestProg, len: int) -> TestProg {
    if p.finished {
        p
    } else {
        TestProg {
            cursor: if p.cursor + 1 < len {
                p.cursor + 1
            } else {
                p.cursor
            },
            count: p.count + 1,
            finished: p.cursor + 1 >= len,
        }
    }
}

/// The timed, finite quiz over a random subset of a collection's words.
pub struct TestWidget {
    selected_collection: Option<Collection>,
    word_pool: Vec<String>,
    answers: Vec<(String, String, bool, i64)>,
    phase: TestPhase,
    cursor: usize,
    input: String,
    requested_count: usize,
    start_time: i64,
}

impl TestWidget {
    pub closed spec fn coll_view(&self) -> Option<Collection> {
        self.selected_collection
    }

    /// The words of this session, in presentation order.
    pub closed spec fn pool_view(&self) -> Seq<Seq<char>> {
        strs_view(self.word_pool@)
    }

    /// The submissions so far, in submission order.
    pub closed spec fn answers_view(&self) -> Seq<(Seq<char>, Seq<char>, bool, i64)> {
        recs_view(self.answers@)
    }

    pub closed spec fn phase_view(&self) -> TestPhase {
        self.phase
    }

    /// The index of the word now presented.
    pub closed spec fn cursor_view(&self) -> int {
        self.cursor as int
    }

    pub closed spec fn input_view(&self) -> Seq<char> {
        self.input@
    }

    /// The word count the user asked for, before clamping.
    pub closed spec fn requested_view(&self) -> int {
        self.requested_count as int
    }

    pub closed spec fn start_time_view(&self) -> i64 {
        self.start_time
    }

    /// The session invariant: the cursor stays inside the pool, and every
    /// pooled word is a key of the selected, well-formed collection.
    pub open spec fn wf(&self) -> bool {
        &&& (self.pool_view().len() == 0 ==> self.cursor_view() == 0)
        &&& (self.pool_view().len() > 0 ==> self.cursor_view() < self.pool_view().len())
        &&& match self.coll_view() {
            Option::Some(c) => c.wf() && forall|i: int|
                0 <= i < self.pool_view().len() ==> assoc_ix(
                    c.words_view(),
                    #[trigger] self.pool_view()[i],
                ) >= 0,
            Option::None => self.pool_view().len() == 0,
        }
    }

    /// A freshly started test over `c`: the pool holds
    /// `min(requested, |entries|)` distinct words, each drawn from the keys.
    pub open spec fn started_with(&self, c: Collection, n: int) -> bool {
        &&& self.coll_view() == Option::Some(c)
        &&& self.pool_view().len() == (if n <= c.words_view().len() as int {
            n
        } else {
            c.words_view().len() as int
        })
        &&& (forall|i: int, j: int|
            0 <= i < j < self.pool_view().len() ==> (#[trigger] self.pool_view()[i]) != (
            #[trigger] self.pool_view()[j]))
        &&& (forall|i: int|
            0 <= i < self.pool_view().len() ==> assoc_ix(
                c.words_view(),
                #[trigger] self.pool_view()[i],
            ) >= 0)
        &&& self.cursor_view() == 0
        &&& self.answers_view() == Seq::<(Seq<char>, Seq<char>, bool, i64)>::empty()
        &&& self.phase_view() == TestPhase::NotStarted
        &&& self.input_view() == Seq::<char>::empty()
        &&& self.requested_view() == n
    }

    /// An idle test: nothing selected, nothing pooled.
    pub fn new() -> (w: TestWidget)
        ensures
            w.wf(),
            w.coll_view() == Option::<Collection>::None,
            w.pool_view() == Seq::<Seq<char>>::empty(),
            w.answers_view() == Seq::<(Seq<char>, Seq<char>, bool, i64)>::empty(),
            w.cursor_view() == 0,
            w.phase_view() == TestPhase::NotStarted,
            w.input_view() == Seq::<char>::empty(),
            w.start_time_view() == 0i64,
    {
        let w = TestWidget {
            selected_collection: Option::None,
            word_pool: Vec::new(),
            answers: Vec::new(),
            phase: TestPhase::NotStarted,
            cursor: 0,
            input: String::new(),
            requested_count: 0,
            start_time: 0,
        };
        proof {
            assert(w.pool_view() =~= Seq::<Seq<char>>::empty());
            assert(w.answers_view() =~= Seq::<(Seq<char>, Seq<char>, bool, i64)>::empty());
        }
        w
    }

    /// Begins a test over `c`: draws `min(n, |entries|)` distinct words at
    /// random, without replacement, from the keys. A request beyond the
    /// collection's size is clamped; the result says whether it was.
    pub fn start(&mut self, c: Collection, n: usize) -> (clamped: bool)
        requires
            c.wf(),
        ensures
            final(self).wf(),
            final(self).started_with(c, n as int),
            final(self).start_time_view() == old(self).start_time_view(),
            clamped == (c.words_view().len() < n as int),
    {
        let keys = c.words();
        let total = keys.len();
        let clamped = total < n;
        let count = if n < total {
            n
        } else {
            total
        };
        let mut remaining: Vec<usize> = Vec::new();
        let mut i: usize = 0;
        while i < total
            invariant
                i <= total,
                remaining@.len() == i,
                forall|a: int| 0 <= a < i ==> remaining@[a] == a,
            decreases total - i,
        {
            remaining.push(i);
            i = i + 1;
        }
        let mut pool: Vec<String> = Vec::new();
        let ghost mut taken: Seq<int> = Seq::empty();
        while pool.len() < count
            invariant
                count <= total,
                pool@.len() <= count,
                total == c.words_view().len(),
                total == keys@.len(),
                forall|j: int| 0 <= j < total ==> (#[trigger] keys@[j]).0@ == c.words_view()[j].0,
                remaining@.len() + pool@.len() == total,
                pool@.len() == taken.len(),
                forall|a: int| 0 <= a < remaining@.len() ==> (#[trigger] remaining@[a]) < total,
                forall|a: int, b: int|
                    0 <= a < b < remaining@.len() ==> (#[trigger] remaining@[a]) != (
                    #[trigger] remaining@[b]),
                forall|t: int| 0 <= t < taken.len() ==> 0 <= (#[trigger] taken[t]) < total,
                forall|t: int, a: int|
                    0 <= t < taken.len() && 0 <= a < remaining@.len() ==> (#[trigger] taken[t]) != (
                    #[trigger] remaining@[a]) as int,
                forall|t1: int, t2: int|
                    0 <= t1 < t2 < taken.len() ==> (#[trigger] taken[t1]) != (#[trigger] taken[t2]),
                forall|t: int|
                    0 <= t < taken.len() ==> (#[trigger] pool@[t])@ == c.words_view()[taken[t]].0,
            decreases count - pool.len(),
        {
            let j = random_index(remaining.len());
            let ghost old_rem = remaining@;
            let idx = remaining.remove(j);
            proof {
                assert(idx == old_rem[j as int]);
                assert forall|a: int| 0 <= a < remaining@.len() implies (#[trigger] remaining@[a])
                    != idx by {
                    if a < j {
                        assert(remaining@[a] == old_rem[a]);
                    } else {
                        assert(remaining@[a] == old_rem[a + 1]);
                    }
                }
                assert forall|a: int, b: int|
                    0 <= a < b < remaining@.len() implies (#[trigger] remaining@[a]) != (
                #[trigger] remaining@[b]) by {
                    if b < j {
                    } else if a < j {
                        assert(remaining@[a] == old_rem[a] && remaining@[b] == old_rem[b + 1]);
                    } else {
                        assert(remaining@[a] == old_rem[a + 1] && remaining@[b] == old_rem[b + 1]);
                    }
                }
                taken = taken.push(idx as int);
            }
            pool.push(keys[idx].0.clone());
        }
        self.word_pool = pool;
        self.selected_collection = Option::Some(c);
        self.answers = Vec::new();
        self.phase = TestPhase::NotStarted;
        self.cursor = 0;
        self.input = String::new();
        self.requested_count = n;
        proof {
            let cc = self.coll_view()->Some_0;
            assert(self.answers_view() =~= Seq::<(Seq<char>, Seq<char>, bool, i64)>::empty());
            assert forall|a: int, b: int|
                0 <= a < b < self.pool_view().len() implies (#[trigger] self.pool_view()[a]) != (
            #[trigger] self.pool_view()[b]) by {
                assert(self.pool_view()[a] == cc.words_view()[taken[a]].0);
                assert(self.pool_view()[b] == cc.words_view()[taken[b]].0);
                if taken[a] < taken[b] {
                    assert(cc.words_view()[taken[a]].0 != cc.words_view()[taken[b]].0);
                } else {
                    assert(cc.words_view()[taken[b]].0 != cc.words_view()[taken[a]].0);
                }
            }
            assert forall|i2: int| 0 <= i2 < self.pool_view().len() implies assoc_ix(
                cc.words_view(),
                #[trigger] self.pool_view()[i2],
            ) >= 0 by {
                crate::collection::lemma_assoc_ix_of_key(cc.words_view(), taken[i2]);
            }
        }
        clamped
    }

    /// One input event applied to the test, exactly as the contract's case
    /// split states: typing replaces the draft answer; submitting while the
    /// test runs records `(word, typed, verdict, time)` and advances as
    /// `test_submit_step` describes, finishing on the last word; Enter
    /// starts the timer from the start notice, or leaves a finished test for
    /// the setup screen; Escape always asks for the setup screen.
    pub fn update(&mut self, message: TestMessage) -> (r: UpdateOutcome)
        requires
            old(self).wf(),
            match message {
                TestMessage::Start(c, n) => c.wf(),
                _ => true,
            },
        ensures
            final(self).wf(),
            match message {
                TestMessage::InputChanged(s) => {
                    &&& final(self).input_view() == s@
                    &&& final(self).pool_view() == old(self).pool_view()
                    &&& final(self).cursor_view() == old(self).cursor_view()
                    &&& final(self).answers_view() == old(self).answers_view()
                    &&& final(self).phase_view() == old(self).phase_view()
                    &&& final(self).coll_view() == old(self).coll_view()
                    &&& final(self).start_time_view() == old(self).start_time_view()
                    &&& r is Carry
                },
                TestMessage::InputSubmit => {
                    if old(self).phase_view() == TestPhase::InProgress && old(
                        self,
                    ).pool_view().len() > 0 && old(self).coll_view() is Some {
                        let w = old(self).pool_view()[old(self).cursor_view()];
                        let ok = answer_correct(
                            old(self).coll_view()->Some_0,
                            w,
                            old(self).input_view(),
                        );
                        let p = test_submit_step(
                            TestProg {
                                cursor: old(self).cursor_view(),
                                count: old(self).answers_view().len() as int,
                                finished: false,
                            },
                            old(self).pool_view().len() as int,
                        );
                        &&& (exists|t: i64|
                            final(self).answers_view() == old(self).answers_view().push(
                                (w, old(self).input_view(), ok, t),
                            ))
                        &&& final(self).cursor_view() == p.cursor
                        &&& final(self).answers_view().len() == p.count
                        &&& (final(self).phase_view() == TestPhase::Finished <==> p.finished)
                        &&& (!p.finished ==> final(self).phase_view() == TestPhase::InProgress)
                        &&& final(self).input_view() == Seq::<char>::empty()
                        &&& final(self).pool_view() == old(self).pool_view()
                        &&& final(self).coll_view() == old(self).coll_view()
                        &&& final(self).start_time_view() == old(self).start_time_view()
                        &&& r is Carry
                    } else {
                        *final(self) == *old(self) && r is Carry
                    }
                },
                TestMessage::Start(c, n) => {
                    &&& final(self).started_with(c, n as int)
                    &&& final(self).start_time_view() == old(self).start_time_view()
                    &&& r is FocusInput
                },
                TestMessage::KeyPressed(k) => match k {
                    KeyInput::Escape => *final(self) == *old(self) && (r matches UpdateOutcome::Emit(
                        Action::ChangeScreen(ScreenName::SetupScreen),
                    )),
                    KeyInput::Enter => match old(self).phase_view() {
                        TestPhase::NotStarted => {
                            &&& final(self).phase_view() == TestPhase::InProgress
                            &&& final(self).pool_view() == old(self).pool_view()
                            &&& final(self).cursor_view() == old(self).cursor_view()
                            &&& final(self).answers_view() == old(self).answers_view()
                            &&& final(self).input_view() == old(self).input_view()
                            &&& final(self).coll_view() == old(self).coll_view()
                            &&& r is Carry
                        },
                        TestPhase::InProgress => *final(self) == *old(self) && r is Carry,
                        TestPhase::Finished => {
                            &&& final(self).phase_view() == TestPhase::NotStarted
                            &&& final(self).pool_view() == old(self).pool_view()
                            &&& final(self).cursor_view() == old(self).cursor_view()
                            &&& final(self).answers_view() == old(self).answers_view()
                            &&& final(self).input_view() == old(self).input_view()
                            &&& final(self).coll_view() == old(self).coll_view()
                            &&& final(self).start_time_view() == old(self).start_time_view()
                            &&& (r matches UpdateOutcome::Emit(
                                Action::ChangeScreen(ScreenName::SetupScreen),
                            ))
                        },
                    },
                    KeyInput::Other => *final(self) == *old(self) && r is Carry,
                },
            },
    {
        match message {
            TestMessage::InputChanged(s) => {
                self.input = s;
                UpdateOutcome::Carry
            },
            TestMessage::InputSubmit => {
                match self.phase {
                    TestPhase::InProgress => {},
                    _ => {
                        return UpdateOutcome::Carry;
                    },
                }
                if self.word_pool.len() == 0 {
                    return UpdateOutcome::Carry;
                }
                let is_correct = match &self.selected_collection {
                    Option::Some(c) => c.check_answer(&self.word_pool[self.cursor], &self.input),
                    Option::None => {
                        return UpdateOutcome::Carry;
                    },
                };
                let sub_time = now_timestamp();
                let word = self.word_pool[self.cursor].clone();
                let typed = self.input.clone();
                proof {
                    assert(self.pool_view()[self.cursor_view()] == self.word_pool@[
                    self.cursor as int]@);
                }
                let ghost prev = self.answers@;
                self.answers.push((word, typed, is_correct, sub_time));
                proof {
                    assert(self.answers_view() =~= recs_view(prev).push(
                        (
                            self.pool_view()[self.cursor_view()],
                            old(self).input_view(),
                            is_correct,
                            sub_time,
                        ),
                    ));
                }
                if self.cursor + 1 < self.word_pool.len() {
                    self.cursor = self.cursor + 1;
                } else {
                    self.phase = TestPhase::Finished;
                }
                self.input = String::new();
                UpdateOutcome::Carry
            },
            TestMessage::Start(c, n) => {
                self.start(c, n);
                UpdateOutcome::FocusInput
            },
            TestMessage::KeyPressed(k) => {
                match k {
                    KeyInput::Escape => UpdateOutcome::Emit(
                        Action::ChangeScreen(ScreenName::SetupScreen),
                    ),
                    KeyInput::Enter => {
                        match self.phase {
                            TestPhase::NotStarted => {
                                self.start_time = now_timestamp();
                                self.phase = TestPhase::InProgress;
                                UpdateOutcome::Carry
                            },
                            TestPhase::InProgress => UpdateOutcome::Carry,
                            TestPhase::Finished => {
                                self.phase = TestPhase::NotStarted;
                                UpdateOutcome::Emit(Action::ChangeScreen(ScreenName::SetupScreen))
                            },
                        }
                    },
                    KeyInput::Other => UpdateOutcome::Carry,
                }
            },
        }
    }


    /// The export text for this session's submissions and start time.
    pub fn export_text(&self) -> (r: String)
        ensures
            r@ == crate::export::export_view(self.answers_view(), self.start_time_view()),
    {
        crate::export::export_text(&self.answers, self.start_time)
    }

    /// The submissions so far: word, typed answer, verdict, time.
    pub fn answers(&self) -> (r: &Vec<(String, String, bool, i64)>)
        ensures
            recs_view(r@) == self.answers_view(),
    {
        &self.answers
    }

    /// The words of this session, in presentation order.
    pub fn word_pool(&self) -> (r: &Vec<String>)
        ensures
            strs_view(r@) == self.pool_view(),
    {
        &self.word_pool
    }

    /// Where the session stands.
    pub fn phase(&self) -> (r: TestPhase)
        ensures
            r == self.phase_view(),
    {
        self.phase
    }

    /// The index of the word now presented.
    pub fn cursor(&self) -> (r: usize)
        ensures
            r as int == self.cursor_view(),
    {
        self.cursor
    }

    /// When the run was started, as Unix seconds.
    pub fn start_time(&self) -> (r: i64)
        ensures
            r == self.start_time_view(),
    {
        self.start_time
    }
}

/// Whether two collections hold the same content: same id, tag, variables
/// and entries.
pub open spec fn same_content(a: Collection, b: Collection) -> bool {
    &&& a.id_view() == b.id_view()
    &&& a.lang_view() == b.lang_view()
    &&& a.vars_view() == b.vars_view()
    &&& a.words_view() == b.words_view()
}

/// An input event for the setup screen.
pub enum SetupMessage {
    SelectedCollection(Collection),
    SelectedMode(WorkMode),
    SelectedNumberOfWords(u8),
    CollectionsLoaded(Option<Vec<Collection>>),
    StartButtonClicked,
}

/// The setup screen's state: the loaded collections and the user's choices.
pub struct SetupWidget {
    selected_collection: Option<Collection>,
    selected_work_mode: WorkMode,
    selected_number_of_test_words: u8,
    collections: Vec<Collection>,
}

impl SetupWidget {
    pub closed spec fn selected_view(&self) -> Option<Collection> {
        self.selected_collection
    }

    pub closed spec fn mode_view(&self) -> WorkMode {
        self.selected_work_mode
    }

    /// The requested test word count.
    pub closed spec fn count_view(&self) -> int {
        self.selected_number_of_test_words as int
    }

    pub closed spec fn collections_view(&self) -> Seq<Collection> {
        self.collections@
    }

    /// The selected collection, if any, is well-formed.
    pub open spec fn wf(&self) -> bool {
        match self.selected_view() {
            Option::Some(c) => c.wf(),
            Option::None => true,
        }
    }

    /// A fresh setup screen: learn mode, five words, nothing loaded.
    pub fn new() -> (w: SetupWidget)
        ensures
            w.wf(),
            w.selected_view() == Option::<Collection>::None,
            w.mode_view() == WorkMode::LearnMode,
            w.count_view() == 5,
            w.collections_view() == Seq::<Collection>::empty(),
    {
        let w = SetupWidget {
            selected_collection: Option::None,
            selected_work_mode: WorkMode::LearnMode,
            selected_number_of_test_words: 5,
            collections: Vec::new(),
        };
        proof {
            assert(w.collections_view() =~= Seq::<Collection>::empty());
        }
        w
    }


    /// The chosen mode.
    pub fn work_mode(&self) -> (r: WorkMode)
        ensures
            r == self.mode_view(),
    {
        self.selected_work_mode
    }

    /// The requested test word count.
    pub fn word_count(&self) -> (r: u8)
        ensures
            r as int == self.count_view(),
    {
        self.selected_number_of_test_words
    }

    /// The chosen collection, if any.
    pub fn selected_collection(&self) -> (r: &Option<Collection>)
        ensures
            *r == self.selected_view(),
    {
        &self.selected_collection
    }

    /// The loaded collections.
    pub fn collections(&self) -> (r: &Vec<Collection>)
        ensures
            r@ == self.collections_view(),
    {
        &self.collections
    }

    /// One input event applied to the setup screen: choices are stored;
    /// freshly loaded, non-empty collection lists replace the old list and
    /// select the first entry when none was selected; the start button emits
    /// the start action for the chosen mode with the chosen collection,
    /// copied, and does nothing when none is chosen.
    pub fn update(&mut self, message: SetupMessage) -> (r: UpdateOutcome)
        requires
            old(self).wf(),
            match message {
                SetupMessage::SelectedCollection(c) => c.wf(),
                SetupMessage::CollectionsLoaded(colls) => match colls {
                    Option::Some(cs) => forall|i: int|
                        0 <= i < cs@.len() ==> (#[trigger] cs@[i]).wf(),
                    Option::None => true,
                },
                _ => true,
            },
        ensures
            final(self).wf(),
            match message {
                SetupMessage::SelectedCollection(c) => {
                    &&& final(self).selected_view() == Option::Some(c)
                    &&& final(self).mode_view() == old(self).mode_view()
                    &&& final(self).count_view() == old(self).count_view()
                    &&& final(self).collections_view() == old(self).collections_view()
                    &&& r is Carry
                },
                SetupMessage::SelectedMode(m) => {
                    &&& final(self).mode_view() == m
                    &&& final(self).selected_view() == old(self).selected_view()
                    &&& final(self).count_view() == old(self).count_view()
                    &&& final(self).collections_view() == old(self).collections_view()
                    &&& r is Carry
                },
                SetupMessage::SelectedNumberOfWords(num) => {
                    &&& final(self).count_view() == num as int
                    &&& final(self).selected_view() == old(self).selected_view()
                    &&& final(self).mode_view() == old(self).mode_view()
                    &&& final(self).collections_view() == old(self).collections_view()
                    &&& r is Carry
                },
                SetupMessage::CollectionsLoaded(colls) => {
                    match colls {
                        Option::Some(cs) => {
                            if cs@.len() > 0 {
                                &&& final(self).collections_view() == cs@
                                &&& (old(self).selected_view() is Some
                                    ==> final(self).selected_view() == old(self).selected_view())
                                &&& (old(self).selected_view() is None ==> (
                                match final(self).selected_view() {
                                    Option::Some(c2) => same_content(c2, cs@[0]),
                                    Option::None => false,
                                }))
                                &&& final(self).mode_view() == old(self).mode_view()
                                &&& final(self).count_view() == old(self).count_view()
                                &&& r is Carry
                            } else {
                                *final(self) == *old(self) && r is Carry
                            }
                        },
                        Option::None => *final(self) == *old(self) && r is Carry,
                    }
                },
                SetupMessage::StartButtonClicked => {
                    match old(self).selected_view() {
                        Option::Some(c) => {
                            &&& *final(self) == *old(self)
                            &&& (old(self).mode_view() == WorkMode::LearnMode ==> (match r {
                                UpdateOutcome::Emit(a) => match a {
                                    Action::StartLearnMode(c2) => same_content(c2, c),
                                    _ => false,
                                },
                                _ => false,
                            }))
                            &&& (old(self).mode_view() == WorkMode::TestMode ==> (match r {
                                UpdateOutcome::Emit(a) => match a {
                                    Action::StartTestMode(c2, n) => same_content(c2, c) && n as int
                                        == old(self).count_view(),
                                    _ => false,
                                },
                                _ => false,
                            }))
                        },
                        Option::None => *final(self) == *old(self) && r is Carry,
                    }
                },
            },
    {
        match message {
            SetupMessage::SelectedCollection(c) => {
                self.selected_collection = Option::Some(c);
                UpdateOutcome::Carry
            },
            SetupMessage::SelectedMode(m) => {
                self.selected_work_mode = m;
                UpdateOutcome::Carry
            },
            SetupMessage::SelectedNumberOfWords(num) => {
                self.selected_number_of_test_words = num;
                UpdateOutcome::Carry
            },
            SetupMessage::CollectionsLoaded(colls) => {
                match colls {
                    Option::Some(cs) => {
                        if cs.len() > 0 {
                            self.collections = cs;
                            match &self.selected_collection {
                                Option::Some(_) => {},
                                Option::None => {
                                    self.selected_collection = Option::Some(
                                        self.collections[0].duplicate(),
                                    );
                                },
                            }
                        }
                    },
                    Option::None => {},
                }
                UpdateOutcome::Carry
            },
            SetupMessage::StartButtonClicked => {
                match &self.selected_collection {
                    Option::Some(c) => {
                        match self.selected_work_mode {
                            WorkMode::LearnMode => UpdateOutcome::Emit(
                                Action::StartLearnMode(c.duplicate()),
                            ),
                            WorkMode::TestMode => UpdateOutcome::Emit(
                                Action::StartTestMode(
                                    c.duplicate(),
                                    self.selected_number_of_test_words as usize,
                                ),
                            ),
                        }
                    },
                    Option::None => UpdateOutcome::Carry,
                }
            },
        }
    }
}

/// One screen's state, as a tagged union for a shell's screen registry.
pub enum AppScreen {
    LearnScreen(LearnWidget),
    SetupScreen(SetupWidget),
    TestingScreen(TestWidget),
    NoScreen,
}

/// The application: the three screens and which of them is active.
pub struct App {
    pub active_screen: ScreenName,
    pub learn_screen: LearnWidget,
    pub setup_screen: SetupWidget,
    pub testing_screen: TestWidget,
}

impl App {
    /// Every screen's invariant holds.
    pub open spec fn wf(&self) -> bool {
        self.learn_screen.wf() && self.setup_screen.wf() && self.testing_screen.wf()
    }

    /// A fresh application showing the setup screen.
    pub fn new() -> (a: App)
        ensures
            a.wf(),
            a.active_screen == ScreenName::SetupScreen,
            a.learn_screen.coll_view() == Option::<Collection>::None,
            a.setup_screen.selected_view() == Option::<Collection>::None,
            a.testing_screen.coll_view() == Option::<Collection>::None,
    {
        App {
            active_screen: ScreenName::SetupScreen,
            learn_screen: LearnWidget::new(),
            setup_screen: SetupWidget::new(),
            testing_screen: TestWidget::new(),
        }
    }

    /// A cross-screen action applied to the application: switching the
    /// active screen, or starting the chosen mode on its screen with the
    /// chosen collection and switching to it.
    pub fn perform_action(&mut self, action: Action)
        requires
            old(self).wf(),
            match action {
                Action::StartLearnMode(c) => c.wf(),
                Action::StartTestMode(c, n) => c.wf(),
                Action::ChangeScreen(s) => true,
            },
        ensures
            final(self).wf(),
            match action {
                Action::ChangeScreen(s) => {
                    &&& final(self).active_screen == s
                    &&& final(self).learn_screen == old(self).learn_screen
                    &&& final(self).setup_screen == old(self).setup_screen
                    &&& final(self).testing_screen == old(self).testing_screen
                },
                Action::StartLearnMode(c) => {
                    &&& final(self).active_screen == ScreenName::LearnScreen
                    &&& final(self).learn_screen.started_with(c)
                    &&& final(self).setup_screen == old(self).setup_screen
                    &&& final(self).testing_screen == old(self).testing_screen
                },
                Action::StartTestMode(c, n) => {
                    &&& final(self).active_screen == ScreenName::TestingScreen
                    &&& final(self).testing_screen.started_with(c, n as int)
                    &&& final(self).setup_screen == old(self).setup_screen
                    &&& final(self).learn_screen == old(self).learn_screen
                },
            },
    {
        match action {
            Action::ChangeScreen(screen_name) => {
                self.active_screen = screen_name;
            },
            Action::StartLearnMode(coll) => {
                self.learn_screen.update(LearnMessage::Start(coll));
                self.active_screen = ScreenName::LearnScreen;
            },
            Action::StartTestMode(coll, num) => {
                self.testing_screen.update(TestMessage::Start(coll, num));
                self.active_screen = ScreenName::TestingScreen;
            },
        }
    }
}

impl Default for App {
    /// A fresh application showing the setup screen.
    fn default() -> (a: App)
        ensures
            a.wf(),
            a.active_screen == ScreenName::SetupScreen,
    {
        App::new()
    }
}

/// The learn-mode cursor after `k` submissions, each stepping as
/// `next_cursor_wrapping` — the step `LearnWidget::update` takes on submit.
pub open spec fn cursor_after_submits(c0: int, len: int, k: nat) -> int
    decreases k,
{
    if k == 0 {
        c0
    } else {
        next_cursor_wrapping(cursor_after_submits(c0, len, (k - 1) as nat), len)
    }
}

proof fn lemma_cursor_formula(c0: int, len: int, k: nat)
    requires
        0 <= c0 < len,
        k <= len,
    ensures
        cursor_after_submits(c0, len, k) == if c0 + k < len {
            c0 + k
        } else {
            c0 + k - len
        },
    decreases k,
{
    if k > 0 {
        lemma_cursor_formula(c0, len, (k - 1) as nat);
    }
}

/// The learn-mode cursor wraps: starting anywhere in a pool of `len` words,
/// after exactly `len` submissions the cursor is back where it started.
pub proof fn lemma_learn_cursor_wraps(c0: int, len: int)
    requires
        0 <= c0 < len,
    ensures
        cursor_after_submits(c0, len, len as nat) == c0,
{
    lemma_cursor_formula(c0, len, len as nat);
}

/// A test's progress after `k` submissions from a fresh start, each stepping
/// as `test_submit_step` — the step `TestWidget::update` takes on submit.
pub open spec fn test_prog_after(len: int, k: nat) -> TestProg
    decreases k,
{
    if k == 0 {
        TestProg { cursor: 0, count: 0, finished: false }
    } else {
        test_submit_step(test_prog_after(len, (k - 1) as nat), len)
    }
}

proof fn lemma_test_prog_formula(len: int, k: nat)
    requires
        len >= 1,
        k <= len,
    ensures
        test_prog_after(len, k).count == k,
        test_prog_after(len, k).cursor == if (k as int) < len {
            k as int
        } else {
            len - 1
        },
        test_prog_after(len, k).finished == (k as int == len),
    decreases k,
{
    if k > 0 {
        lemma_test_prog_formula(len, (k - 1) as nat);
    }
}

/// A test terminates: over a pool of `len` words, after exactly `len`
/// submissions the phase is finished and exactly `len` answers are recorded.
pub proof fn lemma_test_terminates(len: int)
    requires
        len >= 1,
    ensures
        test_prog_after(len, len as nat).finished,
        test_prog_after(len, len as nat).count == len,
{
    lemma_test_prog_formula(len, len as nat);
}

} // verus!
