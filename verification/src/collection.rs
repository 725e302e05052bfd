//! One vocabulary collection: a language tag, named variables, and a mapping
//! from each word to its ordered list of acceptable meanings, parsed from a
//! line-oriented text format.
//!
//! The format, applied to each line after trimming:
//! - an empty line, or one starting with `#`, is skipped;
//! - `@tag` sets the language tag to the trimmed remainder;
//! - `$name=value` declares a variable, split at the first `=`, both sides
//!   trimmed; a re-declaration warns and overwrites;
//! - anything else is `word | m1 / m2 / ...`: the word is the trimmed text
//!   before the first `|`; the meanings are the remainder split on `/`, each
//!   trimmed, empty segments dropped; a second `|` warns and is dropped; a
//!   repeated word warns and its meaning list is replaced.
use vstd::prelude::*;

use crate::text::count_char;
use crate::text::is_space;
use crate::text::find_char;
use crate::text::remove_and_count;
use crate::text::remove_char;
use crate::text::split_chars;
use crate::text::split_on;
use crate::text::string_from_chars;
use crate::text::subrange_vec;
use crate::text::trim;
use crate::text::trim_front;
use crate::text::trim_chars;
use crate::text::chars_vec;
use crate::text::append_str;

verus! {

/// An immutable snapshot of one vocabulary set.
pub struct Collection {
    id: usize,
    lang: String,
    variables: Vec<(String, String)>,
    words: Vec<(String, Vec<String>)>,
}

/// A non-fatal oddity met while parsing; parsing always continues.
pub enum ParseWarning {
    /// A `$` line re-declared a variable; the new value replaced the old.
    VariableChanged { line: usize, name: String, old_value: String, new_value: String },
    /// A word line re-defined a word; the new meaning list replaced the old.
    WordChanged { line: usize, word: String, old_meanings: Vec<String>, new_meanings: Vec<String> },
    /// A word line held a second `|`; that character was dropped.
    ExtraPipe { line: usize },
}

/// The mathematical shape of a `ParseWarning`.
pub enum WarningView {
    VariableChanged { line: int, name: Seq<char>, old_value: Seq<char>, new_value: Seq<char> },
    WordChanged {
        line: int,
        word: Seq<char>,
        old_meanings: Seq<Seq<char>>,
        new_meanings: Seq<Seq<char>>,
    },
    ExtraPipe { line: int },
}

/// The views of a sequence of strings.
pub open spec fn strs_view(v: Seq<String>) -> Seq<Seq<char>> {
    Seq::new(v.len(), |i: int| v[i]@)
}

pub open spec fn warn_view(w: ParseWarning) -> WarningView {
    match w {
        ParseWarning::VariableChanged { line, name, old_value, new_value } => {
            WarningView::VariableChanged {
                line: line as int,
                name: name@,
                old_value: old_value@,
                new_value: new_value@,
            }
        },
        ParseWarning::WordChanged { line, word, old_meanings, new_meanings } => {
            WarningView::WordChanged {
                line: line as int,
                word: word@,
                old_meanings: strs_view(old_meanings@),
                new_meanings: strs_view(new_meanings@),
            }
        },
        ParseWarning::ExtraPipe { line } => WarningView::ExtraPipe { line: line as int },
    }
}

pub open spec fn warns_view(v: Seq<ParseWarning>) -> Seq<WarningView> {
    Seq::new(v.len(), |i: int| warn_view(v[i]))
}

/// The mathematical state that parsing builds line by line.
#[verifier::ext_equal]
pub struct PState {
    pub lang: Seq<char>,
    pub vars: Seq<(Seq<char>, Seq<char>)>,
    pub words: Seq<(Seq<char>, Seq<Seq<char>>)>,
    pub warns: Seq<WarningView>,
}

/// The position of key `k` in the association list `s`, or `-1`.
pub open spec fn assoc_ix<V>(s: Seq<(Seq<char>, V)>, k: Seq<char>) -> int
    decreases s.len(),
{
    if s.len() == 0 {
        -1
    } else if s[0].0 == k {
        0
    } else if assoc_ix(s.drop_first(), k) < 0 {
        -1
    } else {
        1 + assoc_ix(s.drop_first(), k)
    }
}

pub proof fn assoc_ix_ensures<V>(s: Seq<(Seq<char>, V)>, k: Seq<char>)
    ensures
        assoc_ix(s, k) == -1 ==> forall|j: int| 0 <= j < s.len() ==> (#[trigger] s[j]).0 != k,
        assoc_ix(s, k) != -1 ==> 0 <= assoc_ix(s, k) < s.len() && s[assoc_ix(s, k)].0 == k
            && forall|j: int| 0 <= j < assoc_ix(s, k) ==> (#[trigger] s[j]).0 != k,
    decreases s.len(),
{
    if s.len() > 0 && s[0].0 != k {
        let st = s.drop_first();
        assoc_ix_ensures(st, k);
        if assoc_ix(st, k) < 0 {
            assert forall|j: int| 0 <= j < s.len() implies (#[trigger] s[j]).0 != k by {
                if j > 0 {
                    assert(s[j] == st[j - 1]);
                }
            }
        } else {
            let ix = 1 + assoc_ix(st, k);
            assert(s[ix] == st[ix - 1]);
            assert forall|j: int| 0 <= j < ix implies (#[trigger] s[j]).0 != k by {
                if j > 0 {
                    assert(s[j] == st[j - 1]);
                }
            }
        }
    }
}

/// Every key occurs at most once.
pub open spec fn uniq_keys<V>(s: Seq<(Seq<char>, V)>) -> bool {
    forall|i: int, j: int| 0 <= i < j < s.len() ==> (#[trigger] s[i]).0 != (#[trigger] s[j]).0
}

/// The name and value of a `$` line, given the text after the `$`.
pub open spec fn var_parts(rest: Seq<char>) -> (Seq<char>, Seq<char>) {
    match rest.index_of_first('=') {
        Option::None => (trim(rest), Seq::<char>::empty()),
        Option::Some(i) => (trim(rest.take(i)), trim(rest.skip(i + 1))),
    }
}

/// The word key of a word line, given the trimmed line.
pub open spec fn word_of(t: Seq<char>) -> Seq<char> {
    match t.index_of_first('|') {
        Option::None => trim(t),
        Option::Some(i) => trim(t.take(i)),
    }
}

/// Each segment trimmed, empty segments dropped.
pub open spec fn clean_meanings(parts: Seq<Seq<char>>) -> Seq<Seq<char>>
    decreases parts.len(),
{
    if parts.len() == 0 {
        Seq::empty()
    } else {
        let r = clean_meanings(parts.drop_last());
        if trim(parts.last()).len() > 0 {
            r.push(trim(parts.last()))
        } else {
            r
        }
    }
}

/// The meaning list of a word line, given the trimmed line: the text after
/// the first `|`, stray `|` characters dropped, split on `/`, each segment
/// trimmed, empty segments dropped. A line without `|` has no meanings.
pub open spec fn meanings_of(t: Seq<char>) -> Seq<Seq<char>> {
    match t.index_of_first('|') {
        Option::None => Seq::empty(),
        Option::Some(i) => clean_meanings(split_on(remove_char(t.skip(i + 1), '|'), '/')),
    }
}

/// How many stray `|` characters a word line holds after the first.
pub open spec fn extra_pipes(t: Seq<char>) -> int {
    match t.index_of_first('|') {
        Option::None => 0,
        Option::Some(i) => count_char(t.skip(i + 1), '|'),
    }
}

/// Whether the trimmed line is a word-definition line.
pub open spec fn is_word_line(t: Seq<char>) -> bool {
    t.len() > 0 && t[0] != '#' && t[0] != '@' && t[0] != '$'
}

/// One line applied to the parse state. `line_no` is 1-based.
pub open spec fn step_line(st: PState, line: Seq<char>, line_no: int) -> PState {
    let t = trim(line);
    if t.len() == 0 || t[0] == '#' {
        st
    } else if t[0] == '@' {
        PState { lang: trim(t.drop_first()), ..st }
    } else if t[0] == '$' {
        let np = var_parts(t.drop_first());
        let ix = assoc_ix(st.vars, np.0);
        if ix < 0 {
            PState { vars: st.vars.push(np), ..st }
        } else {
            PState {
                vars: st.vars.update(ix, np),
                warns: st.warns.push(
                    WarningView::VariableChanged {
                        line: line_no,
                        name: np.0,
                        old_value: st.vars[ix].1,
                        new_value: np.1,
                    },
                ),
                ..st
            }
        }
    } else {
        let w = word_of(t);
        let ms = meanings_of(t);
        let warns1 = st.warns + Seq::new(
            extra_pipes(t) as nat,
            |k: int| WarningView::ExtraPipe { line: line_no },
        );
        let ix = assoc_ix(st.words, w);
        if ix < 0 {
            PState { words: st.words.push((w, ms)), warns: warns1, ..st }
        } else {
            PState {
                words: st.words.update(ix, (w, ms)),
                warns: warns1.push(
                    WarningView::WordChanged {
                        line: line_no,
                        word: w,
                        old_meanings: st.words[ix].1,
                        new_meanings: ms,
                    },
                ),
                ..st
            }
        }
    }
}

pub open spec fn empty_pstate() -> PState {
    PState { lang: Seq::empty(), vars: Seq::empty(), words: Seq::empty(), warns: Seq::empty() }
}

/// The parse state after the first `n` lines.
pub open spec fn parse_fold(lines: Seq<Seq<char>>, n: int) -> PState
    decreases n,
{
    if n <= 0 {
        empty_pstate()
    } else {
        step_line(parse_fold(lines, n - 1), lines[n - 1], n)
    }
}

/// What parsing a whole text yields: the lines are the text split on `'\n'`.
pub open spec fn parse_spec(text: Seq<char>) -> PState {
    let lines = split_on(text, '\n');
    parse_fold(lines, lines.len() as int)
}

impl Collection {
    /// The id assigned by load order; identity, not content.
    pub closed spec fn id_view(&self) -> usize {
        self.id
    }

    /// The id assigned by load order.
    pub fn id(&self) -> (r: usize)
        ensures
            r == self.id_view(),
    {
        self.id
    }

    /// The language tag, as a character sequence.
    pub closed spec fn lang_view(&self) -> Seq<char> {
        self.lang@
    }

    /// The declared variables, in insertion order.
    pub closed spec fn vars_view(&self) -> Seq<(Seq<char>, Seq<char>)> {
        vars_pairs_view(self.variables@)
    }

    /// The word entries, in insertion order.
    pub closed spec fn words_view(&self) -> Seq<(Seq<char>, Seq<Seq<char>>)> {
        words_pairs_view(self.words@)
    }

    /// Variable names and word keys are unique.
    pub open spec fn wf(&self) -> bool {
        uniq_keys(self.vars_view()) && uniq_keys(self.words_view())
    }

    /// The meaning list of `w`, if `w` is a key.
    pub open spec fn lookup(&self, w: Seq<char>) -> Option<Seq<Seq<char>>> {
        if assoc_ix(self.words_view(), w) >= 0 {
            Option::Some(self.words_view()[assoc_ix(self.words_view(), w)].1)
        } else {
            Option::None
        }
    }

    /// An empty collection under the given id.
    pub fn new(id: usize) -> (c: Collection)
        ensures
            c.id_view() == id,
            c.lang_view() == Seq::<char>::empty(),
            c.vars_view() == Seq::<(Seq<char>, Seq<char>)>::empty(),
            c.words_view() == Seq::<(Seq<char>, Seq<Seq<char>>)>::empty(),
            c.wf(),
    {
        let c = Collection { id, lang: String::new(), variables: Vec::new(), words: Vec::new() };
        proof {
            assert(c.vars_view() =~= Seq::<(Seq<char>, Seq<char>)>::empty());
            assert(c.words_view() =~= Seq::<(Seq<char>, Seq<Seq<char>>)>::empty());
        }
        c
    }

    /// The word entries: each word with its ordered meanings.
    pub fn words(&self) -> (r: &Vec<(String, Vec<String>)>)
        ensures
            r@.len() == self.words_view().len(),
            forall|i: int| 0 <= i < r@.len() ==> (#[trigger] r@[i]).0@ == self.words_view()[i].0
                && strs_view(r@[i].1@) == self.words_view()[i].1,
    {
        &self.words
    }

    /// The language tag.
    pub fn language(&self) -> (r: &String)
        ensures
            r@ == self.lang_view(),
    {
        &self.lang
    }

    /// The declared variables: each name with its value.
    pub fn variables(&self) -> (r: &Vec<(String, String)>)
        ensures
            r@.len() == self.vars_view().len(),
            forall|i: int| 0 <= i < r@.len() ==> (#[trigger] r@[i]).0@ == self.vars_view()[i].0
                && r@[i].1@ == self.vars_view()[i].1,
    {
        &self.variables
    }
}

/// The whole parse state a collection and its warnings stand for.
pub open spec fn col_state(c: Collection, ws: Seq<ParseWarning>) -> PState {
    PState { lang: c.lang_view(), vars: c.vars_view(), words: c.words_view(), warns: warns_view(ws) }
}

/// The position of variable `name`, as `assoc_ix` on the variable views.
fn find_var(vars: &Vec<(String, String)>, name: &String) -> (r: Option<usize>)
    ensures
        match r {
            Option::Some(i) => assoc_ix(vars_pairs_view(vars@), name@) == i as int && i < vars@.len(),
            Option::None => assoc_ix(vars_pairs_view(vars@), name@) == -1,
        },
{
    let ghost gv = vars_pairs_view(vars@);
    proof {
        assoc_ix_ensures(gv, name@);
    }
    let n = vars.len();
    let mut i: usize = 0;
    while i < n
        invariant
            n == vars@.len(),
            i <= n,
            gv == vars_pairs_view(vars@),
            gv.len() == n,
            forall|j: int| 0 <= j < i ==> (#[trigger] gv[j]).0 != name@,
            assoc_ix(gv, name@) == -1 ==> forall|j: int| 0 <= j < gv.len() ==> (
            #[trigger] gv[j]).0 != name@,
            assoc_ix(gv, name@) != -1 ==> 0 <= assoc_ix(gv, name@) < gv.len() && gv[assoc_ix(
                gv,
                name@,
            )].0 == name@ && forall|j: int| 0 <= j < assoc_ix(gv, name@) ==> (
            #[trigger] gv[j]).0 != name@,
        decreases n - i,
    {
        proof {
            assert(gv[i as int] == (vars@[i as int].0@, vars@[i as int].1@));
        }
        if vars[i].0 == *name {
            return Option::Some(i);
        }
        i = i + 1;
    }
    Option::None
}

/// The position of word `w`, as `assoc_ix` on the word views.
pub(crate) fn find_word(words: &Vec<(String, Vec<String>)>, w: &String) -> (r: Option<usize>)
    ensures
        match r {
            Option::Some(i) => assoc_ix(words_pairs_view(words@), w@) == i as int && i
                < words@.len(),
            Option::None => assoc_ix(words_pairs_view(words@), w@) == -1,
        },
{
    let ghost gv = words_pairs_view(words@);
    proof {
        assoc_ix_ensures(gv, w@);
    }
    let n = words.len();
    let mut i: usize = 0;
    while i < n
        invariant
            n == words@.len(),
            i <= n,
            gv == words_pairs_view(words@),
            gv.len() == n,
            forall|j: int| 0 <= j < i ==> (#[trigger] gv[j]).0 != w@,
            assoc_ix(gv, w@) == -1 ==> forall|j: int| 0 <= j < gv.len() ==> (#[trigger] gv[j]).0
                != w@,
            assoc_ix(gv, w@) != -1 ==> 0 <= assoc_ix(gv, w@) < gv.len() && gv[assoc_ix(gv, w@)].0
                == w@ && forall|j: int| 0 <= j < assoc_ix(gv, w@) ==> (#[trigger] gv[j]).0 != w@,
        decreases n - i,
    {
        proof {
            assert(gv[i as int] == (words@[i as int].0@, strs_view(words@[i as int].1@)));
        }
        if words[i].0 == *w {
            return Option::Some(i);
        }
        i = i + 1;
    }
    Option::None
}

/// The views of a variable list.
pub open spec fn vars_pairs_view(v: Seq<(String, String)>) -> Seq<(Seq<char>, Seq<char>)> {
    Seq::new(v.len(), |i: int| (v[i].0@, v[i].1@))
}

/// The views of a word list.
pub open spec fn words_pairs_view(v: Seq<(String, Vec<String>)>) -> Seq<
    (Seq<char>, Seq<Seq<char>>),
> {
    Seq::new(v.len(), |i: int| (v[i].0@, strs_view(v[i].1@)))
}

/// Each segment trimmed, empty segments dropped, as `clean_meanings` describes.
fn clean_parts(parts: &Vec<Vec<char>>) -> (r: Vec<String>)
    ensures
        strs_view(r@) == clean_meanings(crate::text::vecs_view(parts@)),
{
    let ghost gparts = crate::text::vecs_view(parts@);
    let n = parts.len();
    let mut r: Vec<String> = Vec::new();
    let mut i: usize = 0;
    proof {
        assert(gparts.take(0) =~= Seq::<Seq<char>>::empty());
        assert(strs_view(r@) =~= clean_meanings(gparts.take(0)));
    }
    while i < n
        invariant
            n == parts@.len(),
            i <= n,
            gparts == crate::text::vecs_view(parts@),
            gparts.len() == n,
            strs_view(r@) == clean_meanings(gparts.take(i as int)),
        decreases n - i,
    {
        proof {
            assert(gparts.take(i + 1).drop_last() =~= gparts.take(i as int));
            assert(gparts.take(i + 1).last() == gparts[i as int]);
            assert(gparts[i as int] == parts@[i as int]@);
        }
        let tm = trim_chars(&parts[i]);
        if tm.len() > 0 {
            let s = string_from_chars(&tm);
            r.push(s);
            proof {
                assert(strs_view(r@) =~= clean_meanings(gparts.take(i + 1)));
            }
        } else {
            proof {
                assert(strs_view(r@) =~= clean_meanings(gparts.take(i + 1)));
            }
        }
        i = i + 1;
    }
    proof {
        assert(gparts.take(n as int) =~= gparts);
    }
    r
}

/// A copy of each string in `v`.
fn clone_strings(v: &Vec<String>) -> (r: Vec<String>)
    ensures
        strs_view(r@) == strs_view(v@),
{
    let n = v.len();
    let mut r: Vec<String> = Vec::new();
    let mut i: usize = 0;
    while i < n
        invariant
            n == v@.len(),
            i <= n,
            r@.len() == i,
            forall|j: int| 0 <= j < i ==> (#[trigger] r@[j])@ == v@[j]@,
        decreases n - i,
    {
        r.push(v[i].clone());
        i = i + 1;
    }
    proof {
        assert(strs_view(r@) =~= strs_view(v@));
    }
    r
}

/// Whether `k` occurs at some position: the key at any index is found.
pub proof fn lemma_assoc_ix_of_key<V>(s: Seq<(Seq<char>, V)>, i: int)
    requires
        0 <= i < s.len(),
    ensures
        assoc_ix(s, s[i].0) >= 0,
{
    assoc_ix_ensures(s, s[i].0);
}

/// Whether typing `typed` for word `w` counts as correct: `w` is a key and
/// `typed` is, verbatim, one of its meanings.
pub open spec fn answer_correct(c: Collection, w: Seq<char>, typed: Seq<char>) -> bool {
    match c.lookup(w) {
        Option::Some(ms) => ms.contains(typed),
        Option::None => false,
    }
}

/// Whether `s` is, verbatim, an element of `v`.
fn contains_string(v: &Vec<String>, s: &String) -> (r: bool)
    ensures
        r == strs_view(v@).contains(s@),
{
    let n = v.len();
    let mut i: usize = 0;
    while i < n
        invariant
            n == v@.len(),
            i <= n,
            forall|j: int| 0 <= j < i ==> (#[trigger] v@[j])@ != s@,
        decreases n - i,
    {
        if v[i] == *s {
            proof {
                assert(strs_view(v@)[i as int] == s@);
            }
            return true;
        }
        i = i + 1;
    }
    proof {
        if strs_view(v@).contains(s@) {
            let j = choose|j: int| 0 <= j < strs_view(v@).len() && strs_view(v@)[j] == s@;
            assert(v@[j]@ == s@);
            assert(false);
        }
    }
    false
}

/// Appends one serialized word line, closed by a newline.
fn append_word_line(out: &mut Vec<char>, word: &String, ms: &Vec<String>)
    ensures
        final(out)@ == old(out)@ + word_line_of((word@, strs_view(ms@))) + seq!['\n'],
{
    let ghost msv = strs_view(ms@);
    let ghost pre = out@;
    append_str(out, word.as_str());
    out.push('|');
    let nm = ms.len();
    let mut j: usize = 0;
    proof {
        assert(crate::text::join_with(msv.take(0), '/') =~= Seq::<char>::empty());
        assert(out@ =~= pre + word@ + seq!['|'] + crate::text::join_with(msv.take(0), '/'));
    }
    while j < nm
        invariant
            nm == ms@.len(),
            j <= nm,
            msv == strs_view(ms@),
            nm == msv.len(),
            pre == old(out)@,
            out@ == pre + word@ + seq!['|'] + crate::text::join_with(msv.take(j as int), '/'),
        decreases nm - j,
    {
        if j > 0 {
            out.push('/');
        }
        append_str(out, ms[j].as_str());
        proof {
            assert(ms@[j as int]@ == msv[j as int]);
            if j == 0 {
                assert(msv.take(1) =~= seq![msv[0]]);
                assert(crate::text::join_with(seq![msv[0]], '/') == msv[0]);
            } else {
                crate::text::lemma_join_push(msv.take(j as int), '/', msv[j as int]);
                assert(msv.take(j as int).push(msv[j as int]) =~= msv.take(j + 1));
            }
            assert(out@ =~= pre + word@ + seq!['|'] + crate::text::join_with(msv.take(j + 1), '/'));
        }
        j = j + 1;
    }
    out.push('\n');
    proof {
        assert(msv.take(nm as int) =~= msv);
        assert(out@ =~= pre + word_line_of((word@, msv)) + seq!['\n']);
    }
}

impl Collection {
    /// One line folded into the collection and its warnings, as `step_line`
    /// describes. `line_no` is 1-based.
    fn apply_line(&mut self, warns: &mut Vec<ParseWarning>, line: &Vec<char>, line_no: usize)
        requires
            old(self).wf(),
        ensures
            final(self).wf(),
            final(self).id_view() == old(self).id_view(),
            col_state(*final(self), final(warns)@) == step_line(
                col_state(*old(self), old(warns)@),
                line@,
                line_no as int,
            ),
    {
        let ghost st0 = col_state(*old(self), old(warns)@);
        let t = trim_chars(line);
        let n = t.len();
        if n == 0 {
            return ;
        }
        let c0 = t[0];
        if c0 == '#' {
            return ;
        }
        if c0 == '@' {
            let rest = subrange_vec(&t, 1, n);
            proof {
                assert(rest@ =~= trim(line@).drop_first());
            }
            let ltrim = trim_chars(&rest);
            self.lang = string_from_chars(&ltrim);
            proof {
                assert(col_state(*self, warns@) =~= step_line(st0, line@, line_no as int));
            }
            return ;
        }
        if c0 == '$' {
            let rest = subrange_vec(&t, 1, n);
            proof {
                assert(rest@ =~= trim(line@).drop_first());
            }
            let ghost np = var_parts(rest@);
            let mut name_v: Vec<char>;
            let mut value_v: Vec<char>;
            match find_char(&rest, '=') {
                Option::None => {
                    name_v = trim_chars(&rest);
                    value_v = Vec::new();
                },
                Option::Some(i) => {
                    proof {
                        rest@.index_of_first_ensures('=');
                        assert(rest@.subrange(0, i as int) =~= rest@.take(i as int));
                        assert(rest@.subrange(i + 1, rest@.len() as int) =~= rest@.skip(i + 1));
                    }
                    let left = subrange_vec(&rest, 0, i);
                    let right = subrange_vec(&rest, i + 1, rest.len());
                    name_v = trim_chars(&left);
                    value_v = trim_chars(&right);
                },
            }
            proof {
                assert(name_v@ == np.0 && value_v@ == np.1);
            }
            let name = string_from_chars(&name_v);
            let value = string_from_chars(&value_v);
            match find_var(&self.variables, &name) {
                Option::None => {
                    proof {
                        let gv = self.vars_view();
                        assoc_ix_ensures(gv, name@);
                    }
                    self.variables.push((name, value));
                    proof {
                        assert(self.vars_view() =~= old(self).vars_view().push((np.0, np.1)));
                        assert(uniq_keys(self.vars_view()));
                        assert(col_state(*self, warns@) =~= step_line(st0, line@, line_no as int));
                    }
                },
                Option::Some(ix) => {
                    proof {
                        assoc_ix_ensures(self.vars_view(), name@);
                    }
                    let old_value = self.variables[ix].1.clone();
                    proof {
                        assert(old_value@ == old(self).vars_view()[ix as int].1);
                    }
                    warns.push(
                        ParseWarning::VariableChanged {
                            line: line_no,
                            name: name.clone(),
                            old_value,
                            new_value: value.clone(),
                        },
                    );
                    self.variables.set(ix, (name, value));
                    proof {
                        let gv0 = old(self).vars_view();
                        assert(self.vars_view() =~= gv0.update(ix as int, (np.0, np.1)));
                        assert(gv0[ix as int].0 == np.0);
                        assert forall|a: int, b: int|
                            0 <= a < b < self.vars_view().len() implies (
                        #[trigger] self.vars_view()[a]).0 != (#[trigger] self.vars_view()[b]).0 by {
                            assert(gv0[a].0 != gv0[b].0);
                        }
                        assert(warns_view(warns@) =~= st0.warns.push(
                            WarningView::VariableChanged {
                                line: line_no as int,
                                name: np.0,
                                old_value: gv0[ix as int].1,
                                new_value: np.1,
                            },
                        ));
                        assert(col_state(*self, warns@) =~= step_line(st0, line@, line_no as int));
                    }
                },
            }
            return ;
        }
        let ghost w_spec = word_of(t@);
        let ghost ms_spec = meanings_of(t@);
        let ghost ep_spec = extra_pipes(t@);
        let mut word_v: Vec<char>;
        let mut ms: Vec<String>;
        let mut ep: usize;
        match find_char(&t, '|') {
            Option::None => {
                proof {
                    t@.index_of_first_ensures('|');
                }
                word_v = trim_chars(&t);
                ms = Vec::new();
                ep = 0;
                proof {
                    assert(strs_view(ms@) =~= Seq::<Seq<char>>::empty());
                }
            },
            Option::Some(i) => {
                proof {
                    t@.index_of_first_ensures('|');
                    assert(t@.subrange(0, i as int) =~= t@.take(i as int));
                    assert(t@.subrange(i + 1, t@.len() as int) =~= t@.skip(i + 1));
                }
                let left = subrange_vec(&t, 0, i);
                word_v = trim_chars(&left);
                let rest = subrange_vec(&t, i + 1, t.len());
                let rc = remove_and_count(&rest, '|');
                let parts = split_chars(&rc.0, '/');
                ms = clean_parts(&parts);
                ep = rc.1;
            },
        }
        proof {
            assert(word_v@ == w_spec && strs_view(ms@) == ms_spec && ep == ep_spec);
        }
        let word = string_from_chars(&word_v);
        let mut k: usize = 0;
        proof {
            assert(warns_view(warns@) =~= st0.warns + Seq::<WarningView>::new(
                0 as nat,
                |q: int| WarningView::ExtraPipe { line: line_no as int },
            ));
        }
        while k < ep
            invariant
                k <= ep,
                *self == *old(self),
                warns_view(warns@) == st0.warns + Seq::<WarningView>::new(
                    k as nat,
                    |q: int| WarningView::ExtraPipe { line: line_no as int },
                ),
            decreases ep - k,
        {
            let ghost prev = warns@;
            warns.push(ParseWarning::ExtraPipe { line: line_no });
            k = k + 1;
            proof {
                let lhs = warns_view(warns@);
                let rhs = st0.warns + Seq::<WarningView>::new(
                    k as nat,
                    |q: int| WarningView::ExtraPipe { line: line_no as int },
                );
                let prev_rhs = st0.warns + Seq::<WarningView>::new(
                    (k - 1) as nat,
                    |q: int| WarningView::ExtraPipe { line: line_no as int },
                );
                assert(warns_view(prev).len() == prev.len());
                assert(warns_view(prev).len() == prev_rhs.len());
                assert(lhs.len() == warns@.len());
                assert(lhs.len() == rhs.len());
                assert forall|j: int| 0 <= j < lhs.len() implies lhs[j] == rhs[j] by {
                    assert(lhs[j] == warn_view(warns@[j]));
                    if j < prev.len() {
                        assert(warns@[j] == prev[j]);
                        assert(warns_view(prev)[j] == warn_view(prev[j]));
                        assert(warns_view(prev)[j] == prev_rhs[j]);
                    } else {
                        assert(warns@[j] == ParseWarning::ExtraPipe { line: line_no });
                    }
                }
                assert(lhs =~= rhs);
            }
        }
        let ghost warns1 = st0.warns + Seq::<WarningView>::new(
            ep_spec as nat,
            |q: int| WarningView::ExtraPipe { line: line_no as int },
        );
        match find_word(&self.words, &word) {
            Option::None => {
                proof {
                    let gw = self.words_view();
                    assoc_ix_ensures(gw, word@);
                }
                self.words.push((word, ms));
                proof {
                    assert(self.words_view() =~= old(self).words_view().push((w_spec, ms_spec)));
                    assert(uniq_keys(self.words_view()));
                    assert(col_state(*self, warns@) =~= step_line(st0, line@, line_no as int));
                }
            },
            Option::Some(ix) => {
                proof {
                    assoc_ix_ensures(self.words_view(), word@);
                }
                let old_meanings = clone_strings(&self.words[ix].1);
                proof {
                    assert(strs_view(old_meanings@) == old(self).words_view()[ix as int].1);
                }
                warns.push(
                    ParseWarning::WordChanged {
                        line: line_no,
                        word: word.clone(),
                        old_meanings,
                        new_meanings: clone_strings(&ms),
                    },
                );
                self.words.set(ix, (word, ms));
                proof {
                    let gw0 = old(self).words_view();
                    assert(self.words_view() =~= gw0.update(ix as int, (w_spec, ms_spec)));
                    assert(gw0[ix as int].0 == w_spec);
                    assert forall|a: int, b: int|
                        0 <= a < b < self.words_view().len() implies (
                    #[trigger] self.words_view()[a]).0 != (#[trigger] self.words_view()[b]).0 by {
                        assert(gw0[a].0 != gw0[b].0);
                    }
                    assert(warns_view(warns@) =~= warns1.push(
                        WarningView::WordChanged {
                            line: line_no as int,
                            word: w_spec,
                            old_meanings: gw0[ix as int].1,
                            new_meanings: ms_spec,
                        },
                    ));
                    assert(col_state(*self, warns@) =~= step_line(st0, line@, line_no as int));
                }
            },
        }
    }


    /// A content-equal copy: same id, tag, variables and entries.
    pub fn duplicate(&self) -> (c: Collection)
        ensures
            c.id_view() == self.id_view(),
            c.lang_view() == self.lang_view(),
            c.vars_view() == self.vars_view(),
            c.words_view() == self.words_view(),
    {
        let mut variables: Vec<(String, String)> = Vec::new();
        let nv = self.variables.len();
        let mut i: usize = 0;
        while i < nv
            invariant
                nv == self.variables@.len(),
                i <= nv,
                variables@.len() == i,
                forall|j: int| 0 <= j < i ==> (#[trigger] variables@[j]).0@ == self.variables@[j].0@
                    && variables@[j].1@ == self.variables@[j].1@,
            decreases nv - i,
        {
            variables.push((self.variables[i].0.clone(), self.variables[i].1.clone()));
            i = i + 1;
        }
        let mut words: Vec<(String, Vec<String>)> = Vec::new();
        let nw = self.words.len();
        let mut k: usize = 0;
        while k < nw
            invariant
                nw == self.words@.len(),
                k <= nw,
                words@.len() == k,
                forall|j: int| 0 <= j < k ==> (#[trigger] words@[j]).0@ == self.words@[j].0@
                    && strs_view(words@[j].1@) == strs_view(self.words@[j].1@),
            decreases nw - k,
        {
            words.push((self.words[k].0.clone(), clone_strings(&self.words[k].1)));
            k = k + 1;
        }
        let c = Collection { id: self.id, lang: self.lang.clone(), variables, words };
        proof {
            assert(c.vars_view() =~= self.vars_view());
            assert(c.words_view() =~= self.words_view());
        }
        c
    }


    /// The collection's content written back in the line format: the tag
    /// line, one line per variable, one line per entry, exactly as
    /// `serialize_view` states.
    pub fn to_text(&self) -> (r: String)
        ensures
            r@ == serialize_view(self.lang_view(), self.vars_view(), self.words_view()),
    {
        let ghost ls = ser_lines_nt(self.lang_view(), self.vars_view(), self.words_view());
        let mut out: Vec<char> = Vec::new();
        out.push('@');
        append_str(&mut out, self.lang.as_str());
        out.push('\n');
        proof {
            lemma_cat_snoc(Seq::<Seq<char>>::empty(), lang_line_of(self.lang_view()));
            assert(Seq::<Seq<char>>::empty().push(lang_line_of(self.lang_view())) =~= ls.take(1));
            assert(cat_lines(Seq::<Seq<char>>::empty()) == Seq::<char>::empty());
            assert(out@ =~= cat_lines(ls.take(1)));
        }
        let nv = self.variables.len();
        let mut i: usize = 0;
        while i < nv
            invariant
                nv == self.variables@.len(),
                i <= nv,
                ls == ser_lines_nt(self.lang_view(), self.vars_view(), self.words_view()),
                ls.len() == 1 + self.vars_view().len() + self.words_view().len(),
                nv == self.vars_view().len(),
                out@ == cat_lines(ls.take(1 + i as int)),
            decreases nv - i,
        {
            let ghost pre = out@;
            out.push('$');
            append_str(&mut out, self.variables[i].0.as_str());
            out.push('=');
            append_str(&mut out, self.variables[i].1.as_str());
            out.push('\n');
            proof {
                let p = self.vars_view()[i as int];
                assert(ls[1 + i as int] == var_line_of(p));
                assert(out@ =~= pre + var_line_of(p) + seq!['\n']);
                lemma_cat_snoc(ls.take(1 + i as int), var_line_of(p));
                assert(ls.take(1 + i as int).push(var_line_of(p)) =~= ls.take(2 + i as int));
            }
            i = i + 1;
        }
        let nw = self.words.len();
        let mut k: usize = 0;
        while k < nw
            invariant
                nw == self.words@.len(),
                k <= nw,
                nv == self.vars_view().len(),
                ls == ser_lines_nt(self.lang_view(), self.vars_view(), self.words_view()),
                ls.len() == 1 + self.vars_view().len() + self.words_view().len(),
                nw == self.words_view().len(),
                out@ == cat_lines(ls.take(1 + nv as int + k as int)),
            decreases nw - k,
        {
            let ghost pre = out@;
            append_word_line(&mut out, &self.words[k].0, &self.words[k].1);
            proof {
                let p = self.words_view()[k as int];
                assert(strs_view(self.words@[k as int].1@) == p.1);
                assert(self.words@[k as int].0@ == p.0);
                assert(ls[1 + nv as int + k as int] == word_line_of(p));
                assert(out@ =~= pre + word_line_of(p) + seq!['\n']);
                lemma_cat_snoc(ls.take(1 + nv as int + k as int), word_line_of(p));
                assert(ls.take(1 + nv as int + k as int).push(word_line_of(p)) =~= ls.take(
                    2 + nv as int + k as int,
                ));
            }
            k = k + 1;
        }
        proof {
            assert(ls.take(ls.len() as int) =~= ls);
        }
        string_from_chars(&out)
    }

    /// Whether typing `typed` for word `w` is correct: `typed` is, verbatim,
    /// one of `w`'s meanings. An unknown word is never answered correctly.
    pub fn check_answer(&self, w: &String, typed: &String) -> (r: bool)
        ensures
            r == answer_correct(*self, w@, typed@),
    {
        match find_word(&self.words, w) {
            Option::None => false,
            Option::Some(ix) => {
                proof {
                    assoc_ix_ensures(self.words_view(), w@);
                }
                contains_string(&self.words[ix].1, typed)
            },
        }
    }

    /// Parses one collection file's text under the given id, never failing:
    /// oddities become warnings and parsing continues. The result is exactly
    /// the line-by-line fold that `parse_spec` describes.
    pub fn new_from_text(text: &str, id: usize) -> (r: (Collection, Vec<ParseWarning>))
        ensures
            r.0.id_view() == id,
            r.0.wf(),
            col_state(r.0, r.1@) == parse_spec(text@),
            serializable(r.0.lang_view(), r.0.vars_view(), r.0.words_view()),
    {
        proof {
            lemma_parse_serializable(text@);
        }
        let tv = chars_vec(text);
        let lines = split_chars(&tv, '\n');
        let ghost glines = split_on(text@, '\n');
        let mut coll = Collection::new(id);
        let mut warns: Vec<ParseWarning> = Vec::new();
        let mut i: usize = 0;
        proof {
            assert(warns_view(warns@) =~= Seq::<WarningView>::empty());
            assert(col_state(coll, warns@) =~= parse_fold(glines, 0));
        }
        let n = lines.len();
        while i < n
            invariant
                n == lines@.len(),
                i <= n,
                crate::text::vecs_view(lines@) == glines,
                glines.len() == n,
                coll.wf(),
                coll.id_view() == id,
                col_state(coll, warns@) == parse_fold(glines, i as int),
            decreases n - i,
        {
            proof {
                assert(lines@[i as int]@ == glines[i as int]);
            }
            coll.apply_line(&mut warns, &lines[i], i + 1);
            i = i + 1;
        }
        (coll, warns)
    }
}

/// `remove_char` leaves a sequence without the character unchanged.
pub proof fn lemma_remove_noop(s: Seq<char>, c: char)
    requires
        crate::text::no_char(s, c),
    ensures
        remove_char(s, c) == s,
    decreases s.len(),
{
    if s.len() > 0 {
        lemma_remove_noop(s.drop_last(), c);
        assert(remove_char(s, c) =~= s);
    }
}

/// Joining segments without `c` on a separator other than `c` yields a
/// sequence without `c`.
pub proof fn lemma_join_no_char(parts: Seq<Seq<char>>, sep: char, c: char)
    requires
        sep != c,
        forall|i: int| 0 <= i < parts.len() ==> crate::text::no_char(#[trigger] parts[i], c),
    ensures
        crate::text::no_char(crate::text::join_with(parts, sep), c),
    decreases parts.len(),
{
    if parts.len() > 1 {
        lemma_join_no_char(parts.drop_first(), sep, c);
    }
}

/// Cleaning trims each segment: with every trimmed segment non-empty, the
/// meanings are exactly the segments, each with surrounding whitespace
/// stripped.
pub proof fn lemma_clean_trims(parts: Seq<Seq<char>>)
    requires
        forall|i: int| 0 <= i < parts.len() ==> trim(#[trigger] parts[i]).len() > 0,
    ensures
        clean_meanings(parts) == parts.map_values(|m: Seq<char>| trim(m)),
    decreases parts.len(),
{
    if parts.len() > 0 {
        lemma_clean_trims(parts.drop_last());
        assert(parts.drop_last().map_values(|m: Seq<char>| trim(m)) =~= parts.map_values(
            |m: Seq<char>| trim(m),
        ).drop_last());
        assert(clean_meanings(parts) =~= parts.map_values(|m: Seq<char>| trim(m)));
    }
}

/// What a word line means: in a line `w|m1/m2/.../mk` whose word part holds
/// no `|` and whose segments hold no `/` or `|` and do not trim to nothing,
/// the word is `trim(w)` and the meanings are the segments, each with
/// surrounding whitespace stripped.
pub proof fn lemma_word_line_parts(w: Seq<char>, parts: Seq<Seq<char>>)
    requires
        crate::text::no_char(w, '|'),
        parts.len() > 0,
        forall|i: int| 0 <= i < parts.len() ==> crate::text::no_char(#[trigger] parts[i], '/')
            && crate::text::no_char(parts[i], '|') && trim(parts[i]).len() > 0,
    ensures
        word_of(w + seq!['|'] + crate::text::join_with(parts, '/')) == trim(w),
        meanings_of(w + seq!['|'] + crate::text::join_with(parts, '/')) == parts.map_values(
            |m: Seq<char>| trim(m),
        ),
{
    let j = crate::text::join_with(parts, '/');
    let t = w + seq!['|'] + j;
    crate::text::lemma_first_ix_append(w, '|', j);
    assert(t.take(w.len() as int) =~= w);
    assert(t.skip(w.len() as int + 1) =~= j);
    lemma_join_no_char(parts, '/', '|');
    lemma_remove_noop(j, '|');
    crate::text::lemma_split_of_join(parts, '/');
    lemma_clean_trims(parts);
}

/// After any word line, the line's word maps to the line's meanings: the
/// latest definition of a word is the one that counts. Key uniqueness is
/// kept.
pub proof fn lemma_step_word_line(st: PState, line: Seq<char>, n: int)
    requires
        uniq_keys(st.words),
        is_word_line(trim(line)),
    ensures
        ({
            let t = trim(line);
            let st1 = step_line(st, line, n);
            &&& assoc_ix(st1.words, word_of(t)) >= 0
            &&& st1.words[assoc_ix(st1.words, word_of(t))].1 == meanings_of(t)
            &&& uniq_keys(st1.words)
        }),
{
    let t = trim(line);
    let w = word_of(t);
    let ms = meanings_of(t);
    let st1 = step_line(st, line, n);
    let ix = assoc_ix(st.words, w);
    assoc_ix_ensures(st.words, w);
    if ix < 0 {
        let s2 = st.words.push((w, ms));
        assert(st1.words == s2);
        assoc_ix_ensures(s2, w);
        let ix2 = assoc_ix(s2, w);
        assert(s2[st.words.len() as int].0 == w);
        assert(ix2 != -1);
        if ix2 < st.words.len() {
            assert(s2[ix2] == st.words[ix2]);
            assert(false);
        }
        assert(ix2 == st.words.len() as int);
        assert forall|a: int, b: int| 0 <= a < b < s2.len() implies (#[trigger] s2[a]).0 != (
        #[trigger] s2[b]).0 by {
            if b < st.words.len() {
                assert(s2[a] == st.words[a] && s2[b] == st.words[b]);
            } else {
                assert(s2[a] == st.words[a]);
            }
        }
    } else {
        let s2 = st.words.update(ix, (w, ms));
        assert(st1.words == s2);
        assoc_ix_ensures(s2, w);
        let ix2 = assoc_ix(s2, w);
        assert(s2[ix].0 == w);
        assert(ix2 != -1);
        if ix2 < ix {
            assert(s2[ix2] == st.words[ix2]);
            assert(false);
        }
        if ix2 > ix {
            assert(false);
        }
        assert forall|a: int, b: int| 0 <= a < b < s2.len() implies (#[trigger] s2[a]).0 != (
        #[trigger] s2[b]).0 by {
            assert(st.words[a].0 != st.words[b].0);
            assert(s2[a].0 == st.words[a].0);
            assert(s2[b].0 == st.words[b].0);
        }
    }
}

/// Pushing a pair with another key changes no lookup of `w`.
proof fn lemma_assoc_push_other<V>(s: Seq<(Seq<char>, V)>, w0: Seq<char>, v: V, w: Seq<char>)
    requires
        w0 != w,
    ensures
        assoc_ix(s.push((w0, v)), w) == assoc_ix(s, w),
        assoc_ix(s, w) >= 0 ==> s.push((w0, v))[assoc_ix(s, w)] == s[assoc_ix(s, w)],
{
    let s2 = s.push((w0, v));
    let a = assoc_ix(s, w);
    assoc_ix_ensures(s, w);
    assoc_ix_ensures(s2, w);
    let a2 = assoc_ix(s2, w);
    if a == -1 {
        if a2 != -1 {
            if a2 < s.len() {
                assert(s2[a2] == s[a2]);
            }
            assert(false);
        }
    } else {
        assert(s2[a] == s[a]);
        if a2 == -1 {
            assert(false);
        }
        if a2 < a {
            assert(s2[a2] == s[a2]);
            assert(false);
        }
        if a2 > a {
            assert(false);
        }
    }
}

/// Replacing the pair at a position whose key differs from `w` changes no
/// lookup of `w`.
proof fn lemma_assoc_update_other<V>(
    s: Seq<(Seq<char>, V)>,
    ix: int,
    w0: Seq<char>,
    v: V,
    w: Seq<char>,
)
    requires
        0 <= ix < s.len(),
        s[ix].0 == w0,
        w0 != w,
    ensures
        assoc_ix(s.update(ix, (w0, v)), w) == assoc_ix(s, w),
        assoc_ix(s, w) >= 0 ==> s.update(ix, (w0, v))[assoc_ix(s, w)] == s[assoc_ix(s, w)],
{
    let s2 = s.update(ix, (w0, v));
    let a = assoc_ix(s, w);
    assoc_ix_ensures(s, w);
    assoc_ix_ensures(s2, w);
    let a2 = assoc_ix(s2, w);
    assert(forall|j: int| 0 <= j < s.len() ==> (#[trigger] s2[j]).0 == s[j].0);
    if a == -1 {
        if a2 != -1 {
            assert(s2[a2].0 == s[a2].0);
            assert(false);
        }
    } else {
        assert(a != ix);
        assert(s2[a] == s[a]);
        if a2 == -1 {
            assert(false);
        }
        if a2 < a {
            assert(s2[a2].0 == s[a2].0);
            assert(false);
        }
        if a2 > a {
            assert(false);
        }
    }
}

/// One line keeps both key sets unique.
proof fn lemma_step_uniq(st: PState, line: Seq<char>, n: int)
    requires
        uniq_keys(st.vars),
        uniq_keys(st.words),
    ensures
        uniq_keys(step_line(st, line, n).vars),
        uniq_keys(step_line(st, line, n).words),
{
    let t = trim(line);
    if t.len() == 0 || t[0] == '#' || t[0] == '@' {
    } else if t[0] == '$' {
        let np = var_parts(t.drop_first());
        let ix = assoc_ix(st.vars, np.0);
        assoc_ix_ensures(st.vars, np.0);
        if ix < 0 {
            let s2 = st.vars.push(np);
            assert forall|a: int, b: int| 0 <= a < b < s2.len() implies (#[trigger] s2[a]).0 != (
            #[trigger] s2[b]).0 by {
                if b < st.vars.len() {
                    assert(s2[a] == st.vars[a] && s2[b] == st.vars[b]);
                } else {
                    assert(s2[a] == st.vars[a]);
                }
            }
        } else {
            let s2 = st.vars.update(ix, np);
            assert forall|a: int, b: int| 0 <= a < b < s2.len() implies (#[trigger] s2[a]).0 != (
            #[trigger] s2[b]).0 by {
                assert(st.vars[a].0 != st.vars[b].0);
                assert(s2[a].0 == st.vars[a].0);
                assert(s2[b].0 == st.vars[b].0);
            }
        }
    } else {
        lemma_step_word_line(st, line, n);
    }
}

/// Parsing keeps both key sets unique, however many lines are folded in.
pub proof fn lemma_fold_uniq(lines: Seq<Seq<char>>, n: int)
    ensures
        uniq_keys(parse_fold(lines, n).vars),
        uniq_keys(parse_fold(lines, n).words),
    decreases n,
{
    if n <= 0 {
    } else {
        lemma_fold_uniq(lines, n - 1);
        lemma_step_uniq(parse_fold(lines, n - 1), lines[n - 1], n);
    }
}

/// A line that does not define `w` leaves `w`'s entry alone.
proof fn lemma_step_other_word(st: PState, line: Seq<char>, n: int, w: Seq<char>)
    requires
        uniq_keys(st.words),
        !(is_word_line(trim(line)) && word_of(trim(line)) == w),
    ensures
        assoc_ix(step_line(st, line, n).words, w) == assoc_ix(st.words, w),
        assoc_ix(st.words, w) >= 0 ==> step_line(st, line, n).words[assoc_ix(st.words, w)]
            == st.words[assoc_ix(st.words, w)],
{
    let t = trim(line);
    if t.len() == 0 || t[0] == '#' || t[0] == '@' || t[0] == '$' {
    } else {
        let w0 = word_of(t);
        let ms = meanings_of(t);
        let ix = assoc_ix(st.words, w0);
        assoc_ix_ensures(st.words, w0);
        if ix < 0 {
            lemma_assoc_push_other(st.words, w0, ms, w);
        } else {
            lemma_assoc_update_other(st.words, ix, w0, ms, w);
        }
    }
}

/// The last definition of a word wins: when line `i` defines a word that no
/// later line redefines, the parsed entry for that word is line `i`'s
/// meaning list.
pub proof fn lemma_last_definition_wins(lines: Seq<Seq<char>>, n: int, i: int)
    requires
        0 <= i < n <= lines.len(),
        is_word_line(trim(lines[i])),
        forall|j: int|
            i < j < n && is_word_line(trim(#[trigger] lines[j])) ==> word_of(trim(lines[j]))
                != word_of(trim(lines[i])),
    ensures
        ({
            let st = parse_fold(lines, n);
            let w = word_of(trim(lines[i]));
            &&& assoc_ix(st.words, w) >= 0
            &&& st.words[assoc_ix(st.words, w)].1 == meanings_of(trim(lines[i]))
        }),
    decreases n,
{
    let w = word_of(trim(lines[i]));
    lemma_fold_uniq(lines, n - 1);
    if n == i + 1 {
        lemma_step_word_line(parse_fold(lines, n - 1), lines[n - 1], n);
    } else {
        lemma_last_definition_wins(lines, n - 1, i);
        lemma_step_other_word(parse_fold(lines, n - 1), lines[n - 1], n, w);
    }
}

/// How many of the warnings are word redefinitions.
pub open spec fn count_word_warns(ws: Seq<WarningView>) -> int
    decreases ws.len(),
{
    if ws.len() == 0 {
        0
    } else {
        count_word_warns(ws.drop_last()) + (match ws.last() {
            WarningView::WordChanged { .. } => 1int,
            _ => 0int,
        })
    }
}

proof fn lemma_cww_concat(a: Seq<WarningView>, b: Seq<WarningView>)
    ensures
        count_word_warns(a + b) == count_word_warns(a) + count_word_warns(b),
    decreases b.len(),
{
    if b.len() == 0 {
        assert(a + b =~= a);
    } else {
        assert((a + b).drop_last() =~= a + b.drop_last());
        lemma_cww_concat(a, b.drop_last());
    }
}

proof fn lemma_cww_extra_pipes(k: nat, n: int)
    ensures
        count_word_warns(Seq::new(k, |q: int| WarningView::ExtraPipe { line: n })) == 0,
    decreases k,
{
    if k > 0 {
        let ws = Seq::new(k, |q: int| WarningView::ExtraPipe { line: n });
        assert(ws.drop_last() =~= Seq::new((k - 1) as nat, |q: int| WarningView::ExtraPipe { line: n }));
        lemma_cww_extra_pipes((k - 1) as nat, n);
    }
}

/// How many of the first `n` lines redefine a word some earlier line already
/// defined.
pub open spec fn dup_word_count(lines: Seq<Seq<char>>, n: int) -> int
    decreases n,
{
    if n <= 0 {
        0
    } else {
        dup_word_count(lines, n - 1) + (if is_word_line(trim(lines[n - 1])) && (exists|j: int|
            0 <= j < n - 1 && is_word_line(trim(#[trigger] lines[j])) && word_of(trim(lines[j]))
                == word_of(trim(lines[n - 1]))) {
            1int
        } else {
            0int
        })
    }
}

/// A word is defined after `n` lines exactly when one of them defines it.
proof fn lemma_fold_keys(lines: Seq<Seq<char>>, n: int, w: Seq<char>)
    requires
        n >= 0,
    ensures
        assoc_ix(parse_fold(lines, n).words, w) >= 0 <==> (exists|j: int|
            0 <= j < n && is_word_line(trim(#[trigger] lines[j])) && word_of(trim(lines[j])) == w),
    decreases n,
{
    if n == 0 {
        assoc_ix_ensures(parse_fold(lines, 0).words, w);
        assert(parse_fold(lines, 0).words.len() == 0);
    } else {
        lemma_fold_keys(lines, n - 1, w);
        lemma_fold_uniq(lines, n - 1);
        let st = parse_fold(lines, n - 1);
        if is_word_line(trim(lines[n - 1])) && word_of(trim(lines[n - 1])) == w {
            lemma_step_word_line(st, lines[n - 1], n);
            assert(is_word_line(trim(lines[n - 1])) && word_of(trim(lines[n - 1])) == w);
        } else {
            lemma_step_other_word(st, lines[n - 1], n, w);
            assert forall|j: int|
                0 <= j < n && is_word_line(trim(#[trigger] lines[j])) && word_of(trim(lines[j]))
                    == w implies j < n - 1 by {}
        }
    }
}

/// Each duplicate word definition is warned about, once: the number of
/// word-redefinition warnings equals the number of duplicate occurrences.
pub proof fn lemma_dup_warn_count(lines: Seq<Seq<char>>, n: int)
    requires
        0 <= n <= lines.len(),
    ensures
        count_word_warns(parse_fold(lines, n).warns) == dup_word_count(lines, n),
    decreases n,
{
    if n > 0 {
        lemma_dup_warn_count(lines, n - 1);
        lemma_fold_uniq(lines, n - 1);
        let st = parse_fold(lines, n - 1);
        let line = lines[n - 1];
        let t = trim(line);
        let st1 = step_line(st, line, n);
        if t.len() == 0 || t[0] == '#' || t[0] == '@' {
        } else if t[0] == '$' {
            let np = var_parts(t.drop_first());
            if assoc_ix(st.vars, np.0) < 0 {
            } else {
                assert(st1.warns.drop_last() =~= st.warns);
            }
        } else {
            let w = word_of(t);
            lemma_fold_keys(lines, n - 1, w);
            let extras = Seq::new(
                extra_pipes(t) as nat,
                |k: int| WarningView::ExtraPipe { line: n },
            );
            lemma_cww_concat(st.warns, extras);
            lemma_cww_extra_pipes(extra_pipes(t) as nat, n);
            let warns1 = st.warns + extras;
            if assoc_ix(st.words, w) < 0 {
                assert(st1.warns == warns1);
                assert(!(exists|j: int|
                    0 <= j < n - 1 && is_word_line(trim(#[trigger] lines[j])) && word_of(
                        trim(lines[j]),
                    ) == w));
            } else {
                assert(st1.warns.drop_last() =~= warns1);
                assert(count_word_warns(st1.warns) == count_word_warns(warns1) + 1);
            }
        }
    }
}

/// The serialized language-tag line.
pub open spec fn lang_line_of(lang: Seq<char>) -> Seq<char> {
    seq!['@'] + lang
}

/// The serialized variable line.
pub open spec fn var_line_of(p: (Seq<char>, Seq<char>)) -> Seq<char> {
    seq!['$'] + p.0 + seq!['='] + p.1
}

/// The serialized word line.
pub open spec fn word_line_of(p: (Seq<char>, Seq<Seq<char>>)) -> Seq<char> {
    p.0 + seq!['|'] + crate::text::join_with(p.1, '/')
}

/// Lines concatenated, each closed by a newline.
pub open spec fn cat_lines(ls: Seq<Seq<char>>) -> Seq<char>
    decreases ls.len(),
{
    if ls.len() == 0 {
        Seq::empty()
    } else {
        ls[0] + seq!['\n'] + cat_lines(ls.drop_first())
    }
}

/// The serialized form of a collection's content: the tag line, then one
/// line per variable, then one line per entry, each closed by a newline.
pub open spec fn serialize_view(
    lang: Seq<char>,
    vars: Seq<(Seq<char>, Seq<char>)>,
    words: Seq<(Seq<char>, Seq<Seq<char>>)>,
) -> Seq<char> {
    cat_lines(ser_lines_nt(lang, vars, words))
}

/// The serialized lines, in order, without the closing empty segment.
pub open spec fn ser_lines_nt(
    lang: Seq<char>,
    vars: Seq<(Seq<char>, Seq<char>)>,
    words: Seq<(Seq<char>, Seq<Seq<char>>)>,
) -> Seq<Seq<char>> {
    seq![lang_line_of(lang)] + vars.map_values(|p: (Seq<char>, Seq<char>)| var_line_of(p))
        + words.map_values(|p: (Seq<char>, Seq<Seq<char>>)| word_line_of(p))
}

/// A language tag that a parse could have produced.
pub open spec fn tag_ok(lang: Seq<char>) -> bool {
    trim(lang) == lang && crate::text::no_char(lang, '\n')
}

/// A variable that a parse could have produced.
pub open spec fn var_ok(p: (Seq<char>, Seq<char>)) -> bool {
    &&& trim(p.0) == p.0
    &&& crate::text::no_char(p.0, '=')
    &&& crate::text::no_char(p.0, '\n')
    &&& trim(p.1) == p.1
    &&& crate::text::no_char(p.1, '\n')
}

/// A meaning that a parse could have produced.
pub open spec fn meaning_ok(m: Seq<char>) -> bool {
    &&& trim(m) == m
    &&& m.len() > 0
    &&& crate::text::no_char(m, '/')
    &&& crate::text::no_char(m, '|')
    &&& crate::text::no_char(m, '\n')
}

/// An entry that a parse could have produced.
pub open spec fn word_ok(p: (Seq<char>, Seq<Seq<char>>)) -> bool {
    &&& trim(p.0) == p.0
    &&& crate::text::no_char(p.0, '|')
    &&& crate::text::no_char(p.0, '\n')
    &&& (p.0.len() > 0 ==> p.0[0] != '#' && p.0[0] != '@' && p.0[0] != '$')
    &&& forall|i: int| 0 <= i < p.1.len() ==> meaning_ok(#[trigger] p.1[i])
}

/// Content that a parse could have produced: this is what `new_from_text`
/// guarantees of its result, and what serialization inverts.
pub open spec fn serializable(
    lang: Seq<char>,
    vars: Seq<(Seq<char>, Seq<char>)>,
    words: Seq<(Seq<char>, Seq<Seq<char>>)>,
) -> bool {
    &&& tag_ok(lang)
    &&& forall|i: int| 0 <= i < vars.len() ==> var_ok(#[trigger] vars[i])
    &&& forall|i: int| 0 <= i < words.len() ==> word_ok(#[trigger] words[i])
    &&& uniq_keys(vars)
    &&& uniq_keys(words)
}

proof fn lemma_cat_snoc(ls: Seq<Seq<char>>, x: Seq<char>)
    ensures
        cat_lines(ls.push(x)) == cat_lines(ls) + x + seq!['\n'],
    decreases ls.len(),
{
    if ls.len() == 0 {
        assert(ls.push(x).drop_first() =~= Seq::<Seq<char>>::empty());
        assert(cat_lines(Seq::<Seq<char>>::empty()) == Seq::<char>::empty());
        assert(ls =~= Seq::<Seq<char>>::empty());
        assert(ls.push(x)[0] == x);
        assert(cat_lines(ls.push(x)) =~= cat_lines(ls) + x + seq!['\n']);
    } else {
        assert(ls.push(x).drop_first() =~= ls.drop_first().push(x));
        lemma_cat_snoc(ls.drop_first(), x);
        assert(cat_lines(ls.push(x)) =~= cat_lines(ls) + x + seq!['\n']);
    }
}

/// Splitting lines that hold no newline, each closed by one, recovers the
/// lines with one final empty segment.
proof fn lemma_split_cat(ls: Seq<Seq<char>>)
    requires
        forall|k: int| 0 <= k < ls.len() ==> crate::text::no_char(#[trigger] ls[k], '\n'),
    ensures
        split_on(cat_lines(ls), '\n') == ls.push(Seq::<char>::empty()),
    decreases ls.len(),
{
    if ls.len() == 0 {
        crate::text::lemma_split_no_sep(Seq::empty(), '\n');
        assert(seq![Seq::<char>::empty()] =~= ls.push(Seq::<char>::empty()));
    } else {
        crate::text::lemma_split_append(ls[0], '\n', cat_lines(ls.drop_first()));
        lemma_split_cat(ls.drop_first());
        assert(seq![ls[0]] + ls.drop_first().push(Seq::<char>::empty()) =~= ls.push(
            Seq::<char>::empty(),
        ));
    }
}

/// How a serialized language line parses back.
proof fn lemma_lang_line_parses(lang: Seq<char>)
    requires
        tag_ok(lang),
    ensures
        trim(lang_line_of(lang)) == lang_line_of(lang),
        lang_line_of(lang).len() > 0,
        lang_line_of(lang)[0] == '@',
        trim(lang_line_of(lang).drop_first()) == lang,
{
    let l = lang_line_of(lang);
    if lang.len() > 0 {
        crate::text::lemma_trimmed_ends(lang);
    }
    crate::text::lemma_trim_id(l);
    assert(l.drop_first() =~= lang);
}

/// How a serialized variable line parses back.
proof fn lemma_var_line_parses(p: (Seq<char>, Seq<char>))
    requires
        var_ok(p),
    ensures
        trim(var_line_of(p)) == var_line_of(p),
        var_line_of(p).len() > 0,
        var_line_of(p)[0] == '$',
        var_parts(var_line_of(p).drop_first()) == p,
{
    let l = var_line_of(p);
    if p.1.len() > 0 {
        crate::text::lemma_trimmed_ends(p.1);
    }
    crate::text::lemma_trim_id(l);
    let rest = l.drop_first();
    assert(rest =~= p.0 + seq!['='] + p.1);
    crate::text::lemma_first_ix_append(p.0, '=', p.1);
    assert(rest.take(p.0.len() as int) =~= p.0);
    assert(rest.skip(p.0.len() as int + 1) =~= p.1);
}

/// How a serialized word line parses back.
proof fn lemma_word_line_parses(p: (Seq<char>, Seq<Seq<char>>))
    requires
        word_ok(p),
    ensures
        trim(word_line_of(p)) == word_line_of(p),
        is_word_line(word_line_of(p)),
        word_of(word_line_of(p)) == p.0,
        meanings_of(word_line_of(p)) == p.1,
{
    let w = p.0;
    let ms = p.1;
    let j = crate::text::join_with(ms, '/');
    let l = word_line_of(p);
    assert(l == w + seq!['|'] + j);
    if w.len() > 0 {
        crate::text::lemma_trimmed_ends(w);
        assert(l[0] == w[0]);
        assert(!is_space(l[0]));
    } else {
        assert(l[0] == '|');
    }
    if ms.len() > 0 {
        lemma_join_last(ms, '/');
        assert(ms.last().len() > 0);
        crate::text::lemma_trimmed_ends(ms.last());
        assert(l.last() == j.last());
        assert(!is_space(l.last()));
    } else {
        assert(j =~= Seq::<char>::empty());
        assert(l.last() == '|');
    }
    crate::text::lemma_trim_id(l);
    crate::text::lemma_first_ix_append(w, '|', j);
    assert(l.take(w.len() as int) =~= w);
    assert(l.skip(w.len() as int + 1) =~= j);
    if ms.len() > 0 {
        lemma_word_line_parts(w, ms);
        assert forall|i: int| 0 <= i < ms.len() implies ms.map_values(|m: Seq<char>| trim(m))[i]
            == ms[i] by {
            assert(trim(ms[i]) == ms[i]);
        }
        assert(ms.map_values(|m: Seq<char>| trim(m)) =~= ms);
    } else {
        lemma_remove_noop(j, '|');
        crate::text::lemma_split_no_sep(j, '/');
        assert(seq![Seq::<char>::empty()].drop_last() =~= Seq::<Seq<char>>::empty());
        assert(clean_meanings(Seq::<Seq<char>>::empty()) == Seq::<Seq<char>>::empty());
        assert(trim(Seq::<char>::empty()).len() == 0);
        assert(clean_meanings(seq![Seq::<char>::empty()]).len() == 0);
        assert(meanings_of(l) =~= ms);
    }
}

/// A non-empty join ends as its last segment ends.
proof fn lemma_join_last(parts: Seq<Seq<char>>, c: char)
    requires
        parts.len() > 0,
        parts.last().len() > 0,
    ensures
        crate::text::join_with(parts, c).len() > 0,
        crate::text::join_with(parts, c).last() == parts.last().last(),
    decreases parts.len(),
{
    if parts.len() > 1 {
        lemma_join_last(parts.drop_first(), c);
        assert(parts.drop_first().last() == parts.last());
    }
}

/// Every serialized line is free of newlines.
proof fn lemma_ser_lines_free(
    lang: Seq<char>,
    vars: Seq<(Seq<char>, Seq<char>)>,
    words: Seq<(Seq<char>, Seq<Seq<char>>)>,
)
    requires
        serializable(lang, vars, words),
    ensures
        forall|k: int| 0 <= k < ser_lines_nt(lang, vars, words).len() ==> crate::text::no_char(
            #[trigger] ser_lines_nt(lang, vars, words)[k],
            '\n',
        ),
{
    let ls = ser_lines_nt(lang, vars, words);
    assert forall|k: int| 0 <= k < ls.len() implies crate::text::no_char(
        #[trigger] ls[k],
        '\n',
    ) by {
        if k == 0 {
            assert(ls[k] == lang_line_of(lang));
        } else if k < 1 + vars.len() {
            assert(ls[k] == var_line_of(vars[k - 1]));
            assert(var_ok(vars[k - 1]));
        } else {
            let p = words[k - 1 - vars.len()];
            assert(ls[k] == word_line_of(p));
            assert(word_ok(p));
            lemma_join_no_char(p.1, '/', '\n');
        }
    }
}

/// Parsing the serialization, line by line: after `n` of the serialized
/// lines the state holds the tag (once past the first line), the first
/// variables, and the first entries.
proof fn lemma_ser_fold(
    lang: Seq<char>,
    vars: Seq<(Seq<char>, Seq<char>)>,
    words: Seq<(Seq<char>, Seq<Seq<char>>)>,
    n: int,
)
    requires
        serializable(lang, vars, words),
        0 <= n <= 1 + vars.len() + words.len(),
    ensures
        ({
            let st = parse_fold(ser_lines_nt(lang, vars, words), n);
            &&& st.lang == (if n >= 1 {
                lang
            } else {
                Seq::<char>::empty()
            })
            &&& st.vars == vars.take(
                if n <= 1 {
                    0
                } else if n - 1 <= vars.len() {
                    n - 1
                } else {
                    vars.len() as int
                },
            )
            &&& st.words == words.take(
                if n <= 1 + vars.len() {
                    0
                } else {
                    n - 1 - vars.len()
                },
            )
        }),
    decreases n,
{
    let ls = ser_lines_nt(lang, vars, words);
    if n == 0 {
        assert(parse_fold(ls, 0).vars =~= vars.take(0));
        assert(parse_fold(ls, 0).words =~= words.take(0));
    } else {
        lemma_ser_fold(lang, vars, words, n - 1);
        let st = parse_fold(ls, n - 1);
        let line = ls[n - 1];
        if n == 1 {
            assert(line == lang_line_of(lang));
            lemma_lang_line_parses(lang);
            assert(trim(line)[0] != '#');
        } else if n - 1 <= vars.len() {
            let k = n - 2;
            assert(line == var_line_of(vars[k]));
            assert(var_ok(vars[k]));
            lemma_var_line_parses(vars[k]);
            let t = trim(line);
            assert(t[0] == '$' && t[0] != '#' && t[0] != '@');
            assert(st.vars == vars.take(k));
            assoc_ix_ensures(st.vars, vars[k].0);
            if assoc_ix(st.vars, vars[k].0) >= 0 {
                let a = assoc_ix(st.vars, vars[k].0);
                assert(vars.take(k)[a] == vars[a]);
                assert(false);
            }
            assert(vars.take(k).push(vars[k]) =~= vars.take(k + 1));
        } else {
            let k = n - 2 - vars.len();
            assert(line == word_line_of(words[k]));
            assert(word_ok(words[k]));
            lemma_word_line_parses(words[k]);
            let t = trim(line);
            assert(st.words == words.take(k));
            assoc_ix_ensures(st.words, words[k].0);
            if assoc_ix(st.words, words[k].0) >= 0 {
                let a = assoc_ix(st.words, words[k].0);
                assert(words.take(k)[a] == words[a]);
                assert(false);
            }
            assert(words.take(k).push(words[k]) =~= words.take(k + 1));
        }
    }
}

/// Parsing is idempotent: parsing the serialized form of parsed content
/// yields the same language tag, the same variables, and the same entries.
pub proof fn lemma_parse_round_trip(
    lang: Seq<char>,
    vars: Seq<(Seq<char>, Seq<char>)>,
    words: Seq<(Seq<char>, Seq<Seq<char>>)>,
)
    requires
        serializable(lang, vars, words),
    ensures
        parse_spec(serialize_view(lang, vars, words)).lang == lang,
        parse_spec(serialize_view(lang, vars, words)).vars == vars,
        parse_spec(serialize_view(lang, vars, words)).words == words,
{
    let ls = ser_lines_nt(lang, vars, words);
    lemma_ser_lines_free(lang, vars, words);
    lemma_split_cat(ls);
    let all = ls.push(Seq::<char>::empty());
    let total = ls.len() as int;
    lemma_ser_fold(lang, vars, words, total);
    lemma_fold_same_lines(ls, all, total);
    assert(trim(all[total]) =~= Seq::<char>::empty());
    assert(parse_fold(all, total + 1) == step_line(parse_fold(all, total), all[total], total + 1));
    assert(vars.take(vars.len() as int) =~= vars);
    assert(words.take(words.len() as int) =~= words);
}

/// Folds agree on any shared prefix of the line sequences.
proof fn lemma_fold_same_lines(a: Seq<Seq<char>>, b: Seq<Seq<char>>, n: int)
    requires
        0 <= n <= a.len(),
        n <= b.len(),
        forall|j: int| 0 <= j < n ==> a[j] == b[j],
    ensures
        parse_fold(a, n) == parse_fold(b, n),
    decreases n,
{
    if n > 0 {
        lemma_fold_same_lines(a, b, n - 1);
    }
}

/// Cleaned segments are meanings a parse could have produced, as long as no
/// segment holds `/`, `|`, or a newline.
proof fn lemma_clean_ok(parts: Seq<Seq<char>>)
    requires
        forall|i: int| 0 <= i < parts.len() ==> crate::text::no_char(#[trigger] parts[i], '/')
            && crate::text::no_char(parts[i], '|') && crate::text::no_char(parts[i], '\n'),
    ensures
        forall|k: int| 0 <= k < clean_meanings(parts).len() ==> meaning_ok(
            #[trigger] clean_meanings(parts)[k],
        ),
    decreases parts.len(),
{
    if parts.len() > 0 {
        lemma_clean_ok(parts.drop_last());
        let last = parts.last();
        if trim(last).len() > 0 {
            crate::text::lemma_trim_idem(last);
            crate::text::lemma_trim_no_char(last, '/');
            crate::text::lemma_trim_no_char(last, '|');
            crate::text::lemma_trim_no_char(last, '\n');
            assert(meaning_ok(trim(last)));
            assert forall|k: int| 0 <= k < clean_meanings(parts).len() implies meaning_ok(
                #[trigger] clean_meanings(parts)[k],
            ) by {
                if k + 1 < clean_meanings(parts).len() {
                    assert(clean_meanings(parts)[k] == clean_meanings(parts.drop_last())[k]);
                }
                if k == clean_meanings(parts).len() - 1 {
                    assert(clean_meanings(parts)[k] == trim(last));
                }
            }
        } else {
            assert(clean_meanings(parts) == clean_meanings(parts.drop_last()));
            assert forall|k: int| 0 <= k < clean_meanings(parts).len() implies meaning_ok(
                #[trigger] clean_meanings(parts)[k],
            ) by {
                assert(clean_meanings(parts)[k] == clean_meanings(parts.drop_last())[k]);
            }
        }
    }
}

/// One line keeps the state's content parse-shaped.
proof fn lemma_step_serializable(st: PState, line: Seq<char>, n: int)
    requires
        serializable(st.lang, st.vars, st.words),
        crate::text::no_char(line, '\n'),
    ensures
        ({
            let st1 = step_line(st, line, n);
            serializable(st1.lang, st1.vars, st1.words)
        }),
{
    lemma_step_uniq(st, line, n);
    let t = trim(line);
    crate::text::lemma_trim_no_char(line, '\n');
    crate::text::lemma_trim_idem(line);
    if t.len() == 0 || t[0] == '#' {
    } else if t[0] == '@' {
        let rest = t.drop_first();
        assert(crate::text::no_char(rest, '\n'));
        crate::text::lemma_trim_idem(rest);
        crate::text::lemma_trim_no_char(rest, '\n');
    } else if t[0] == '$' {
        let rest = t.drop_first();
        assert(crate::text::no_char(rest, '\n'));
        let np = var_parts(rest);
        rest.index_of_first_ensures('=');
        match rest.index_of_first('=') {
            Option::None => {
                crate::text::lemma_trim_idem(rest);
                crate::text::lemma_trim_no_char(rest, '\n');
                assert forall|q: int| 0 <= q < trim(rest).len() implies trim(rest)[q] != '=' by {
                    crate::text::lemma_trim_no_char(rest, '=');
                }
                assert(var_ok(np));
            },
            Option::Some(ix) => {
                let left = rest.take(ix);
                let right = rest.skip(ix + 1);
                assert(crate::text::no_char(left, '='));
                assert(crate::text::no_char(left, '\n'));
                assert(crate::text::no_char(right, '\n'));
                crate::text::lemma_trim_idem(left);
                crate::text::lemma_trim_no_char(left, '=');
                crate::text::lemma_trim_no_char(left, '\n');
                crate::text::lemma_trim_idem(right);
                crate::text::lemma_trim_no_char(right, '\n');
                assert(var_ok(np));
            },
        }
        let st1 = step_line(st, line, n);
        assoc_ix_ensures(st.vars, np.0);
        assert forall|i: int| 0 <= i < st1.vars.len() implies var_ok(#[trigger] st1.vars[i]) by {
            if assoc_ix(st.vars, np.0) < 0 {
                if i < st.vars.len() {
                    assert(st1.vars[i] == st.vars[i]);
                } else {
                    assert(st1.vars[i] == np);
                }
            } else {
                if i != assoc_ix(st.vars, np.0) {
                    assert(st1.vars[i] == st.vars[i]);
                } else {
                    assert(st1.vars[i] == np);
                }
            }
        }
    } else {
        let w = word_of(t);
        let ms = meanings_of(t);
        crate::text::lemma_trimmed_ends(t);
        t.index_of_first_ensures('|');
        match t.index_of_first('|') {
            Option::None => {
                crate::text::lemma_trim_idem(t);
                crate::text::lemma_trim_no_char(t, '|');
                crate::text::lemma_trim_no_char(t, '\n');
                assert(w == t);
                assert(word_ok((w, ms)));
            },
            Option::Some(ix) => {
                let left = t.take(ix);
                assert(crate::text::no_char(left, '|'));
                assert(crate::text::no_char(left, '\n'));
                crate::text::lemma_trim_idem(left);
                crate::text::lemma_trim_no_char(left, '|');
                crate::text::lemma_trim_no_char(left, '\n');
                if w.len() > 0 {
                    assert(ix > 0);
                    assert(left[0] == t[0]);
                    assert(!is_space(left[0]));
                    assert(trim_front(left) == left);
                    crate::text::lemma_trim_back_prefix(left);
                    assert(w[0] == left[0]);
                }
                let rest = t.skip(ix + 1);
                assert(crate::text::no_char(rest, '\n'));
                let cleaned = remove_char(rest, '|');
                crate::text::lemma_remove_char_free(rest, '|', '\n');
                let parts = split_on(cleaned, '/');
                crate::text::lemma_split_parts_free(cleaned, '/', '|');
                crate::text::lemma_split_parts_free(cleaned, '/', '\n');
                lemma_clean_ok(parts);
                assert(word_ok((w, ms)));
            },
        }
        let st1 = step_line(st, line, n);
        assoc_ix_ensures(st.words, w);
        assert forall|i: int| 0 <= i < st1.words.len() implies word_ok(#[trigger] st1.words[i]) by {
            if assoc_ix(st.words, w) < 0 {
                if i < st.words.len() {
                    assert(st1.words[i] == st.words[i]);
                } else {
                    assert(st1.words[i] == (w, ms));
                }
            } else {
                if i != assoc_ix(st.words, w) {
                    assert(st1.words[i] == st.words[i]);
                } else {
                    assert(st1.words[i] == (w, ms));
                }
            }
        }
    }
}

proof fn lemma_fold_serializable(lines: Seq<Seq<char>>, n: int)
    requires
        0 <= n <= lines.len(),
        forall|k: int| 0 <= k < lines.len() ==> crate::text::no_char(#[trigger] lines[k], '\n'),
    ensures
        ({
            let st = parse_fold(lines, n);
            serializable(st.lang, st.vars, st.words)
        }),
    decreases n,
{
    if n == 0 {
        assert(trim(Seq::<char>::empty()) =~= Seq::<char>::empty());
    } else {
        lemma_fold_serializable(lines, n - 1);
        lemma_step_serializable(parse_fold(lines, n - 1), lines[n - 1], n);
    }
}

/// What a parse produces is parse-shaped content, ready to serialize.
pub proof fn lemma_parse_serializable(text: Seq<char>)
    ensures
        ({
            let st = parse_spec(text);
            serializable(st.lang, st.vars, st.words)
        }),
{
    let lines = split_on(text, '\n');
    crate::text::lemma_split_parts_free(text, '\n', '\n');
    lemma_fold_serializable(lines, lines.len() as int);
}

/// Parsing is idempotent: serializing what one parse produced and parsing
/// that text again yields the same language tag, the same variables, and
/// the same entries.
pub proof fn lemma_parse_idempotent(text: Seq<char>)
    ensures
        ({
            let st = parse_spec(text);
            let again = parse_spec(serialize_view(st.lang, st.vars, st.words));
            again.lang == st.lang && again.vars == st.vars && again.words == st.words
        }),
{
    let st = parse_spec(text);
    lemma_parse_serializable(text);
    lemma_parse_round_trip(st.lang, st.vars, st.words);
}

} // verus!
