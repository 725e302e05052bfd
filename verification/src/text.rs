//! Character-sequence groundwork for the line-oriented collection format:
//! whitespace, trimming, and splitting on a separator character.
use vstd::prelude::*;

verus! {

/// The Unicode `White_Space` characters, as `str::trim` removes them.
pub open spec fn is_space(c: char) -> bool {
    c == ' ' || c == '\t' || c == '\n' || c == '\r' || c == '\u{b}' || c == '\u{c}'
        || c == '\u{85}' || c == '\u{a0}' || c == '\u{1680}' || ('\u{2000}' <= c
        && c <= '\u{200a}') || c == '\u{2028}' || c == '\u{2029}' || c == '\u{202f}'
        || c == '\u{205f}' || c == '\u{3000}'
}

/// Runtime test matching `is_space`.
pub fn is_space_char(c: char) -> (r: bool)
    ensures
        r == is_space(c),
{
    c == ' ' || c == '\t' || c == '\n' || c == '\r' || c == '\u{b}' || c == '\u{c}'
        || c == '\u{85}' || c == '\u{a0}' || c == '\u{1680}' || ('\u{2000}' <= c
        && c <= '\u{200a}') || c == '\u{2028}' || c == '\u{2029}' || c == '\u{202f}'
        || c == '\u{205f}' || c == '\u{3000}'
}

pub open spec fn trim_front(s: Seq<char>) -> Seq<char>
    decreases s.len(),
{
    if s.len() > 0 && is_space(s[0]) {
        trim_front(s.drop_first())
    } else {
        s
    }
}

pub open spec fn trim_back(s: Seq<char>) -> Seq<char>
    decreases s.len(),
{
    if s.len() > 0 && is_space(s.last()) {
        trim_back(s.drop_last())
    } else {
        s
    }
}

/// The sequence with leading and trailing whitespace removed.
pub open spec fn trim(s: Seq<char>) -> Seq<char> {
    trim_back(trim_front(s))
}

/// No occurrence of `c` anywhere in `s`.
pub open spec fn no_char(s: Seq<char>, c: char) -> bool {
    forall|i: int| 0 <= i < s.len() ==> s[i] != c
}

/// `s` split at every occurrence of `c`; one more segment than separators.
pub open spec fn split_on(s: Seq<char>, c: char) -> Seq<Seq<char>>
    decreases s.len(),
{
    match s.index_of_first(c) {
        Option::None => seq![s],
        Option::Some(i) => {
            if 0 <= i < s.len() {
                seq![s.take(i)] + split_on(s.skip(i + 1), c)
            } else {
                seq![s]
            }
        },
    }
}

/// The segments joined back with `c` between them.
pub open spec fn join_with(parts: Seq<Seq<char>>, c: char) -> Seq<char>
    decreases parts.len(),
{
    if parts.len() == 0 {
        Seq::empty()
    } else if parts.len() == 1 {
        parts[0]
    } else {
        parts[0] + seq![c] + join_with(parts.drop_first(), c)
    }
}

pub proof fn lemma_first_ix_append(a: Seq<char>, c: char, b: Seq<char>)
    requires
        no_char(a, c),
    ensures
        (a + seq![c] + b).index_of_first(c) == Option::Some(a.len() as int),
{
    let s = a + seq![c] + b;
    assert(s[a.len() as int] == c);
    assert(s.contains(c));
    s.index_of_first_ensures(c);
    let ix = s.index_of_first(c)->Some_0;
    if ix < a.len() {
        assert(s[ix] == a[ix]);
        assert(false);
    }
    if ix > a.len() {
        assert(s[a.len() as int] == c);
        assert(false);
    }
}

pub proof fn lemma_split_no_sep(s: Seq<char>, c: char)
    requires
        no_char(s, c),
    ensures
        split_on(s, c) == seq![s],
{
    s.index_of_first_ensures(c);
    assert(!s.contains(c));
}

pub proof fn lemma_split_append(a: Seq<char>, c: char, b: Seq<char>)
    requires
        no_char(a, c),
    ensures
        split_on(a + seq![c] + b, c) == seq![a] + split_on(b, c),
{
    let s = a + seq![c] + b;
    lemma_first_ix_append(a, c, b);
    s.index_of_first_ensures(c);
    assert(s.take(a.len() as int) =~= a);
    assert(s.skip(a.len() as int + 1) =~= b);
}

/// Splitting undoes joining, as long as no segment holds the separator.
pub proof fn lemma_split_of_join(parts: Seq<Seq<char>>, c: char)
    requires
        parts.len() > 0,
        forall|i: int| 0 <= i < parts.len() ==> no_char(#[trigger] parts[i], c),
    ensures
        split_on(join_with(parts, c), c) == parts,
    decreases parts.len(),
{
    if parts.len() == 1 {
        lemma_split_no_sep(parts[0], c);
        assert(seq![parts[0]] =~= parts);
    } else {
        let rest = parts.drop_first();
        lemma_split_append(parts[0], c, join_with(rest, c));
        lemma_split_of_join(rest, c);
        assert(seq![parts[0]] + rest =~= parts);
    }
}

pub proof fn lemma_join_push(parts: Seq<Seq<char>>, c: char, x: Seq<char>)
    requires
        parts.len() > 0,
    ensures
        join_with(parts.push(x), c) == join_with(parts, c) + seq![c] + x,
    decreases parts.len(),
{
    if parts.len() == 1 {
        assert(parts.push(x).drop_first() =~= seq![x]);
        assert(join_with(seq![x], c) == x);
    } else {
        lemma_join_push(parts.drop_first(), c, x);
        assert(parts.push(x).drop_first() =~= parts.drop_first().push(x));
        assert(join_with(parts, c) + seq![c] + x =~= parts[0] + seq![c] + (join_with(
            parts.drop_first(),
            c,
        ) + seq![c] + x));
    }
}

pub proof fn lemma_join_update_last(parts: Seq<Seq<char>>, c: char, d: char)
    requires
        parts.len() > 0,
    ensures
        join_with(parts.update(parts.len() - 1, parts.last().push(d)), c) == join_with(
            parts,
            c,
        ).push(d),
    decreases parts.len(),
{
    let parts2 = parts.update(parts.len() - 1, parts.last().push(d));
    if parts.len() == 1 {
        assert(parts2[0] == parts[0].push(d));
        assert(join_with(parts2, c) =~= join_with(parts, c).push(d));
    } else {
        lemma_join_update_last(parts.drop_first(), c, d);
        assert(parts2.drop_first() =~= parts.drop_first().update(
            parts.drop_first().len() - 1,
            parts.drop_first().last().push(d),
        ));
        assert(parts2[0] == parts[0]);
        assert(join_with(parts2, c) =~= join_with(parts, c).push(d));
    }
}

/// The characters of `s`, in order, as a vector.
pub fn chars_vec(s: &str) -> (r: Vec<char>)
    ensures
        r@ == s@,
{
    let n = s.unicode_len();
    let mut r: Vec<char> = Vec::new();
    let mut i: usize = 0;
    while i < n
        invariant
            n == s@.len(),
            i <= n,
            r@ == s@.take(i as int),
        decreases n - i,
    {
        r.push(s.get_char(i));
        i = i + 1;
        proof {
            assert(r@ =~= s@.take(i as int));
        }
    }
    proof {
        assert(s@.take(n as int) =~= s@);
    }
    r
}

/// Relies on `String::from_iter` over `char`: the resulting string holds
/// exactly the given characters in order.
#[verifier::external_body]
pub fn string_from_chars(v: &Vec<char>) -> (r: String)
    ensures
        r@ == v@,
{
    v.iter().collect()
}

/// `v` with leading and trailing whitespace removed, as `trim` describes.
pub fn trim_chars(v: &Vec<char>) -> (r: Vec<char>)
    ensures
        r@ == trim(v@),
{
    let n = v.len();
    let mut i: usize = 0;
    proof {
        assert(v@.skip(0) =~= v@);
    }
    while i < n && is_space_char(v[i])
        invariant
            n == v@.len(),
            i <= n,
            trim_front(v@) == trim_front(v@.skip(i as int)),
        decreases n - i,
    {
        proof {
            assert(v@.skip(i as int).drop_first() =~= v@.skip(i as int + 1));
        }
        i = i + 1;
    }
    proof {
        if i < n {
            assert(trim_front(v@.skip(i as int)) == v@.skip(i as int));
        } else {
            assert(v@.skip(n as int) =~= Seq::<char>::empty());
        }
        assert(trim_front(v@) == v@.skip(i as int));
    }
    let mut j: usize = n;
    proof {
        assert(v@.skip(i as int).take(n - i) =~= v@.skip(i as int));
    }
    while j > i && is_space_char(v[j - 1])
        invariant
            n == v@.len(),
            i <= j <= n,
            trim_front(v@) == v@.skip(i as int),
            trim_back(v@.skip(i as int)) == trim_back(v@.skip(i as int).take(j - i)),
        decreases j,
    {
        proof {
            let cur = v@.skip(i as int).take(j - i);
            assert(cur.last() == v@[j - 1]);
            assert(cur.drop_last() =~= v@.skip(i as int).take(j - 1 - i));
        }
        j = j - 1;
    }
    proof {
        let cur = v@.skip(i as int).take(j - i);
        if j > i {
            assert(cur.last() == v@[j - 1]);
            assert(!is_space(cur.last()));
            assert(trim_back(cur) == cur);
        } else {
            assert(cur =~= Seq::<char>::empty());
            assert(trim_back(cur) == cur);
        }
        assert(trim(v@) == v@.skip(i as int).take(j - i));
    }
    let mut r: Vec<char> = Vec::new();
    let mut k: usize = i;
    while k < j
        invariant
            i <= k <= j <= n,
            n == v@.len(),
            r@ == v@.skip(i as int).take(k - i),
        decreases j - k,
    {
        r.push(v[k]);
        k = k + 1;
        proof {
            assert(r@ =~= v@.skip(i as int).take(k - i));
        }
    }
    r
}

/// The views of a sequence of character vectors.
pub open spec fn vecs_view(v: Seq<Vec<char>>) -> Seq<Seq<char>> {
    Seq::new(v.len(), |i: int| v[i]@)
}

/// `v` split at every occurrence of `c`, as `split_on` describes.
pub fn split_chars(v: &Vec<char>, c: char) -> (r: Vec<Vec<char>>)
    ensures
        vecs_view(r@) == split_on(v@, c),
        r.len() > 0,
{
    let n = v.len();
    let mut segs: Vec<Vec<char>> = Vec::new();
    let ghost mut gsegs: Seq<Seq<char>> = Seq::empty();
    let mut cur: Vec<char> = Vec::new();
    let mut i: usize = 0;
    proof {
        assert(v@.take(0) =~= Seq::<char>::empty());
        assert(join_with(gsegs.push(cur@), c) == cur@);
    }
    while i < n
        invariant
            n == v@.len(),
            i <= n,
            segs@.len() == gsegs.len(),
            forall|k: int| 0 <= k < gsegs.len() ==> (#[trigger] segs@[k])@ == gsegs[k],
            join_with(gsegs.push(cur@), c) == v@.take(i as int),
            forall|k: int| 0 <= k < gsegs.len() ==> no_char(#[trigger] gsegs[k], c),
            no_char(cur@, c),
        decreases n - i,
    {
        let d = v[i];
        if d == c {
            proof {
                lemma_join_push(gsegs.push(cur@), c, Seq::<char>::empty());
                assert(v@.take(i as int) + seq![c] + Seq::<char>::empty() =~= v@.take(i + 1));
                assert(gsegs.push(cur@).push(Seq::<char>::empty()) =~= gsegs.push(cur@).push(
                    Seq::<char>::empty(),
                ));
            }
            proof {
                gsegs = gsegs.push(cur@);
            }
            segs.push(cur);
            cur = Vec::new();
            proof {
                assert(join_with(gsegs.push(cur@), c) == v@.take(i + 1));
            }
        } else {
            proof {
                let parts = gsegs.push(cur@);
                lemma_join_update_last(parts, c, d);
                assert(parts.update(parts.len() - 1, parts.last().push(d)) =~= gsegs.push(
                    cur@.push(d),
                ));
                assert(v@.take(i as int).push(d) =~= v@.take(i + 1));
            }
            cur.push(d);
        }
        i = i + 1;
    }
    proof {
        assert(v@.take(n as int) =~= v@);
        lemma_split_of_join(gsegs.push(cur@), c);
    }
    proof {
        gsegs = gsegs.push(cur@);
    }
    segs.push(cur);
    proof {
        assert(vecs_view(segs@) =~= gsegs);
    }
    segs
}

/// `s` with every occurrence of `c` removed.
pub open spec fn remove_char(s: Seq<char>, c: char) -> Seq<char>
    decreases s.len(),
{
    if s.len() == 0 {
        s
    } else if s.last() == c {
        remove_char(s.drop_last(), c)
    } else {
        remove_char(s.drop_last(), c).push(s.last())
    }
}

/// How many times `c` occurs in `s`.
pub open spec fn count_char(s: Seq<char>, c: char) -> int
    decreases s.len(),
{
    if s.len() == 0 {
        0
    } else if s.last() == c {
        count_char(s.drop_last(), c) + 1
    } else {
        count_char(s.drop_last(), c)
    }
}


/// Drops every occurrence of `c` from `v` and counts them.
pub fn remove_and_count(v: &Vec<char>, c: char) -> (r: (Vec<char>, usize))
    ensures
        r.0@ == remove_char(v@, c),
        r.1 == count_char(v@, c),
{
    let n = v.len();
    let mut out: Vec<char> = Vec::new();
    let mut cnt: usize = 0;
    let mut i: usize = 0;
    proof {
        assert(v@.take(0) =~= Seq::<char>::empty());
    }
    while i < n
        invariant
            n == v@.len(),
            i <= n,
            out@ == remove_char(v@.take(i as int), c),
            cnt == count_char(v@.take(i as int), c),
            cnt <= i,
        decreases n - i,
    {
        proof {
            assert(v@.take(i + 1).drop_last() =~= v@.take(i as int));
            assert(v@.take(i + 1).last() == v@[i as int]);
        }
        if v[i] == c {
            cnt = cnt + 1;
        } else {
            out.push(v[i]);
        }
        i = i + 1;
    }
    proof {
        assert(v@.take(n as int) =~= v@);
    }
    (out, cnt)
}

/// The first position of `c` in `v`, as `Seq::index_of_first` describes.
pub fn find_char(v: &Vec<char>, c: char) -> (r: Option<usize>)
    ensures
        match r {
            Option::Some(i) => v@.index_of_first(c) == Option::Some(i as int),
            Option::None => v@.index_of_first(c) == Option::<int>::None,
        },
{
    let n = v.len();
    let mut i: usize = 0;
    while i < n
        invariant
            n == v@.len(),
            i <= n,
            forall|j: int| 0 <= j < i ==> v@[j] != c,
        decreases n - i,
    {
        if v[i] == c {
            proof {
                v@.index_of_first_ensures(c);
            }
            return Option::Some(i);
        }
        i = i + 1;
    }
    proof {
        v@.index_of_first_ensures(c);
        if v@.contains(c) {
            let w = choose|j: int| 0 <= j < v@.len() && v@[j] == c;
            assert(false);
        }
    }
    Option::None
}

/// A copy of `v[a..b]`.
pub fn subrange_vec(v: &Vec<char>, a: usize, b: usize) -> (r: Vec<char>)
    requires
        a <= b <= v@.len(),
    ensures
        r@ == v@.subrange(a as int, b as int),
{
    let mut r: Vec<char> = Vec::new();
    let mut i: usize = a;
    proof {
        assert(r@ =~= v@.subrange(a as int, a as int));
    }
    while i < b
        invariant
            a <= i <= b <= v@.len(),
            r@ == v@.subrange(a as int, i as int),
        decreases b - i,
    {
        r.push(v[i]);
        i = i + 1;
        proof {
            assert(r@ =~= v@.subrange(a as int, i as int));
        }
    }
    r
}

/// Whether `trim` leaves `s` as it is: empty, or non-space at both ends.
pub proof fn lemma_trim_id(s: Seq<char>)
    requires
        s.len() == 0 || (!is_space(s[0]) && !is_space(s.last())),
    ensures
        trim(s) == s,
{
    assert(trim_front(s) == s);
    assert(trim_back(s) == s);
}


pub proof fn lemma_trim_front_len(s: Seq<char>)
    ensures
        trim_front(s).len() <= s.len(),
    decreases s.len(),
{
    if s.len() > 0 && is_space(s[0]) {
        lemma_trim_front_len(s.drop_first());
    }
}

pub proof fn lemma_trim_back_len(s: Seq<char>)
    ensures
        trim_back(s).len() <= s.len(),
    decreases s.len(),
{
    if s.len() > 0 && is_space(s.last()) {
        lemma_trim_back_len(s.drop_last());
    }
}

/// A non-empty sequence that trimming leaves alone has non-space ends.
pub proof fn lemma_trimmed_ends(s: Seq<char>)
    requires
        trim(s) == s,
        s.len() > 0,
    ensures
        !is_space(s[0]),
        !is_space(s.last()),
{
    if is_space(s[0]) {
        lemma_trim_front_len(s.drop_first());
        lemma_trim_back_len(trim_front(s));
        assert(false);
    }
    assert(trim_front(s) == s);
    if is_space(s.last()) {
        lemma_trim_back_len(s.drop_last());
        assert(false);
    }
}

/// `trim_back` keeps a prefix of the sequence.
pub proof fn lemma_trim_back_prefix(s: Seq<char>)
    ensures
        trim_back(s).len() <= s.len(),
        forall|i: int| 0 <= i < trim_back(s).len() ==> trim_back(s)[i] == s[i],
    decreases s.len(),
{
    if s.len() > 0 && is_space(s.last()) {
        lemma_trim_back_prefix(s.drop_last());
        assert forall|i: int| 0 <= i < trim_back(s).len() implies trim_back(s)[i] == s[i] by {
            assert(trim_back(s)[i] == s.drop_last()[i]);
        }
    }
}

/// A non-empty `trim_front` result starts with a non-space character.
pub proof fn lemma_trim_front_first(s: Seq<char>)
    requires
        trim_front(s).len() > 0,
    ensures
        !is_space(trim_front(s)[0]),
    decreases s.len(),
{
    if s.len() > 0 && is_space(s[0]) {
        lemma_trim_front_first(s.drop_first());
    }
}

/// A non-empty `trim_back` result ends with a non-space character.
pub proof fn lemma_trim_back_last(s: Seq<char>)
    requires
        trim_back(s).len() > 0,
    ensures
        !is_space(trim_back(s).last()),
    decreases s.len(),
{
    if s.len() > 0 && is_space(s.last()) {
        lemma_trim_back_last(s.drop_last());
    }
}

/// `trim_front` keeps a suffix of the sequence.
pub proof fn lemma_trim_front_suffix(s: Seq<char>)
    ensures
        trim_front(s).len() <= s.len(),
        forall|i: int|
            0 <= i < trim_front(s).len() ==> trim_front(s)[i] == s[i + s.len()
                - trim_front(s).len()],
    decreases s.len(),
{
    if s.len() > 0 && is_space(s[0]) {
        lemma_trim_front_suffix(s.drop_first());
    }
}

/// Trimming is idempotent.
pub proof fn lemma_trim_idem(s: Seq<char>)
    ensures
        trim(trim(s)) == trim(s),
{
    let t = trim(s);
    if t.len() > 0 {
        lemma_trim_back_prefix(trim_front(s));
        lemma_trim_back_len(trim_front(s));
        lemma_trim_front_first(s);
        assert(t[0] == trim_front(s)[0]);
        assert(!is_space(t[0]));
        assert(trim_front(t) == t);
        lemma_trim_back_last(trim_front(s));
        assert(!is_space(t.last()));
        assert(trim_back(t) == t);
    }
}

/// Trimming cannot introduce a character.
pub proof fn lemma_trim_no_char(s: Seq<char>, c: char)
    requires
        no_char(s, c),
    ensures
        no_char(trim(s), c),
{
    lemma_trim_front_suffix(s);
    lemma_trim_back_prefix(trim_front(s));
    assert forall|i: int| 0 <= i < trim(s).len() implies trim(s)[i] != c by {
        assert(trim(s)[i] == trim_front(s)[i]);
        assert(trim_front(s)[i] == s[i + s.len() - trim_front(s).len()]);
    }
}

/// What a removal leaves holds no occurrence of the removed character, and
/// no occurrence of any character the source did not hold.
pub proof fn lemma_remove_char_free(s: Seq<char>, c: char, d: char)
    ensures
        no_char(remove_char(s, c), c),
        no_char(s, d) ==> no_char(remove_char(s, c), d),
    decreases s.len(),
{
    if s.len() > 0 {
        lemma_remove_char_free(s.drop_last(), c, d);
    }
}

/// No segment of a split holds the separator, and none holds any character
/// the source did not hold.
pub proof fn lemma_split_parts_free(s: Seq<char>, c: char, d: char)
    ensures
        forall|k: int| 0 <= k < split_on(s, c).len() ==> no_char(#[trigger] split_on(s, c)[k], c),
        no_char(s, d) ==> forall|k: int|
            0 <= k < split_on(s, c).len() ==> no_char(#[trigger] split_on(s, c)[k], d),
    decreases s.len(),
{
    s.index_of_first_ensures(c);
    match s.index_of_first(c) {
        Option::None => {
            assert(split_on(s, c) == seq![s]);
        },
        Option::Some(i) => {
            lemma_split_parts_free(s.skip(i + 1), c, d);
            let parts = seq![s.take(i)] + split_on(s.skip(i + 1), c);
            assert(split_on(s, c) == parts);
            assert forall|k: int| 0 <= k < parts.len() implies no_char(#[trigger] parts[k], c) by {
                if k > 0 {
                    assert(parts[k] == split_on(s.skip(i + 1), c)[k - 1]);
                }
            }
            if no_char(s, d) {
                assert forall|k: int| 0 <= k < parts.len() implies no_char(
                    #[trigger] parts[k],
                    d,
                ) by {
                    if k > 0 {
                        assert(parts[k] == split_on(s.skip(i + 1), c)[k - 1]);
                    }
                }
            }
        },
    }
}

/// Appends the characters of `s`.
pub fn append_str(out: &mut Vec<char>, s: &str)
    ensures
        final(out)@ == old(out)@ + s@,
{
    let cs = chars_vec(s);
    let n = cs.len();
    let mut i: usize = 0;
    proof {
        assert(out@ =~= old(out)@ + cs@.take(0));
    }
    while i < n
        invariant
            n == cs@.len(),
            i <= n,
            cs@ == s@,
            out@ == old(out)@ + cs@.take(i as int),
        decreases n - i,
    {
        out.push(cs[i]);
        i = i + 1;
        proof {
            assert(old(out)@ + cs@.take(i - 1) + seq![cs@[i - 1]] =~= old(out)@ + cs@.take(
                i as int,
            ));
        }
    }
    proof {
        assert(cs@.take(n as int) =~= cs@);
    }
}

/// Appends all of `v`.
pub fn append_chars(out: &mut Vec<char>, v: &Vec<char>)
    ensures
        final(out)@ == old(out)@ + v@,
{
    let n = v.len();
    let mut i: usize = 0;
    proof {
        assert(out@ =~= old(out)@ + v@.take(0));
    }
    while i < n
        invariant
            n == v@.len(),
            i <= n,
            out@ == old(out)@ + v@.take(i as int),
        decreases n - i,
    {
        out.push(v[i]);
        i = i + 1;
        proof {
            assert(old(out)@ + v@.take(i - 1) + seq![v@[i - 1]] =~= old(out)@ + v@.take(i as int));
        }
    }
    proof {
        assert(v@.take(n as int) =~= v@);
    }
}


} // verus!
