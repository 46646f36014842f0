//! Per-sentence structure: lowercased words, sentence splitting, and the
//! sentence-local equations (negative parallelism, tricolon, participial tail,
//! false range) together with the per-sentence signals the run equations read.
use vstd::prelude::*;
use crate::corpus::{negation_list, negations, pivot_list, pivots, stopword_list, stopwords};
use crate::ext::{spec_to_lowercase, spec_unicode_sentences, spec_unicode_words, to_lowercase, unicode_sentences, unicode_words};
use crate::tell::{all_positive, mk_tell, new_tell, tell_views, weight_positive, Tell, TellId, TellView, Weight};
use crate::text::{chars_eq, chars_of, eq_lit, in_list, is_white_space, split, split_chars, trim, trim_chars, views, views_of_strs};

verus! {

/// The words of a text, lowercased (Unicode word segmentation, then case folding
/// of each word).
pub open spec fn spec_lc_words(s: Seq<char>) -> Seq<Seq<char>> {
    spec_unicode_words(s).map_values(|w: Seq<char>| spec_to_lowercase(w))
}

/// Trims each piece and keeps the non-empty ones, in order.
pub open spec fn nonempty_trimmed(ss: Seq<Seq<char>>) -> Seq<Seq<char>>
    decreases ss.len(),
{
    if ss.len() == 0 {
        Seq::empty()
    } else {
        let r = nonempty_trimmed(ss.drop_last());
        let t = trim(ss.last());
        if t.len() > 0 {
            r.push(t)
        } else {
            r
        }
    }
}

/// The sentences of a text: Unicode sentence segmentation, each trimmed, empty
/// ones dropped.
pub open spec fn spec_sentences(text: Seq<char>) -> Seq<Seq<char>> {
    nonempty_trimmed(spec_unicode_sentences(text))
}

/// Last index of the negative-parallelism window opened at word `i`.
pub open spec fn np_window_end(n: int, i: int) -> int {
    if i + 6 < n - 1 {
        i + 6
    } else {
        n - 1
    }
}

/// The number of contrastive pivots among the words `lo..hi`.
pub open spec fn count_pivots(words: Seq<Seq<char>>, lo: int, hi: int) -> nat
    decreases hi - lo,
{
    if hi <= lo {
        0
    } else {
        count_pivots(words, lo, hi - 1) + if pivots().contains(words[hi - 1]) {
            1nat
        } else {
            0nat
        }
    }
}

/// The (negation, pivot) pairs opened at word `i`: when word `i` is a negation, the
/// pivots among the next six words.
pub open spec fn np_pairs_at(words: Seq<Seq<char>>, i: int) -> nat {
    if negations().contains(words[i]) {
        count_pivots(words, i + 1, np_window_end(words.len() as int, i) + 1)
    } else {
        0
    }
}

/// Negative parallelism among the first `n` words: the number of pairs `(i, j)`
/// with word `i` a negation, word `j` a pivot and `0 < j - i <= 6`.
pub open spec fn count_np(words: Seq<Seq<char>>, n: int) -> nat
    decreases n,
{
    if n <= 0 {
        0
    } else {
        count_np(words, n - 1) + np_pairs_at(words, n - 1)
    }
}

/// Word `i` is "from" with a "to" among the next five words.
pub open spec fn fr_hit(words: Seq<Seq<char>>, i: int) -> bool {
    &&& words[i] == "from"@
    &&& exists|j: int| i < j <= i + 5 && j < words.len() && #[trigger] words[j] == "to"@
}

/// Number of "from ... to" spans among the first `n` words.
pub open spec fn count_fr(words: Seq<Seq<char>>, n: int) -> nat
    decreases n,
{
    if n <= 0 {
        0
    } else {
        count_fr(words, n - 1) + if fr_hit(words, n - 1) {
            1nat
        } else {
            0nat
        }
    }
}

pub open spec fn is_triad_trailer(c: char) -> bool {
    c == '.' || c == '!' || c == '?' || c == ' '
}

pub open spec fn is_terminal_punct(c: char) -> bool {
    c == '.' || c == '!' || c == '?' || c == ';'
}

/// `s.trim_end_matches(['.', '!', '?', ' '])`.
pub open spec fn trim_end_punct(s: Seq<char>) -> Seq<char>
    decreases s.len(),
{
    if s.len() > 0 && is_triad_trailer(s.last()) {
        trim_end_punct(s.drop_last())
    } else {
        s
    }
}

/// The trimmed comma-separated spans of a sentence (trailing punctuation removed).
pub open spec fn triad_parts(s: Seq<char>) -> Seq<Seq<char>> {
    split(trim_end_punct(s), ',').map_values(|p: Seq<char>| trim(p))
}

pub open spec fn has_terminal(p: Seq<char>) -> bool {
    exists|i: int| 0 <= i < p.len() && is_terminal_punct(#[trigger] p[i])
}

/// A span of the triad: one to four words, no internal terminal punctuation.
pub open spec fn short_span(p: Seq<char>) -> bool {
    1 <= spec_lc_words(p).len() <= 4 && !has_terminal(p)
}

/// Tricolon: at least three comma spans, the last led by "and"/"or", each short.
pub open spec fn spec_is_triad(s: Seq<char>) -> bool {
    let parts = triad_parts(s);
    &&& parts.len() >= 3
    &&& spec_lc_words(parts.last()).len() > 0
    &&& (spec_lc_words(parts.last())[0] == "and"@ || spec_lc_words(parts.last())[0] == "or"@)
    &&& forall|i: int| 0 <= i < parts.len() ==> #[trigger] short_span(parts[i])
}

/// Bytes of one character in UTF-8.
pub open spec fn char_utf8_len(c: char) -> nat {
    if (c as u32) < 0x80 {
        1
    } else if (c as u32) < 0x800 {
        2
    } else if (c as u32) < 0x10000 {
        3
    } else {
        4
    }
}

/// Bytes of a text in UTF-8.
pub open spec fn utf8_len(s: Seq<char>) -> nat
    decreases s.len(),
{
    if s.len() == 0 {
        0
    } else {
        utf8_len(s.drop_last()) + char_utf8_len(s.last())
    }
}

/// Index of the last occurrence of `c`.
pub open spec fn last_index_of(s: Seq<char>, c: char) -> Option<int>
    decreases s.len(),
{
    if s.len() == 0 {
        None
    } else if s.last() == c {
        Some(s.len() - 1)
    } else {
        last_index_of(s.drop_last(), c)
    }
}

/// Participial tail: the first word after the last comma ends in "ing" and is
/// longer than four bytes.
pub open spec fn spec_ing_tail(s: Seq<char>) -> bool {
    match last_index_of(s, ',') {
        None => false,
        Some(k) => {
            let w = spec_lc_words(s.skip(k + 1));
            &&& w.len() > 0
            &&& w[0].len() >= 3
            &&& w[0].skip(w[0].len() - 3) == "ing"@
            &&& utf8_len(w[0]) > 4
        },
    }
}

/// Per-sentence signals read by the cross-sentence run equations.
pub struct Meta {
    /// First content word past a leading stopword (anaphora).
    pub opener: Option<Vec<char>>,
    /// First lowercased word (countdown, listicle); empty if none.
    pub first: Vec<char>,
    /// The sentence ends with '?'.
    pub is_question: bool,
    /// Word count.
    pub words: usize,
}

pub struct MetaView {
    pub opener: Option<Seq<char>>,
    pub first: Seq<char>,
    pub is_question: bool,
    pub words: nat,
}

impl View for Meta {
    type V = MetaView;

    open spec fn view(&self) -> MetaView {
        MetaView {
            opener: match self.opener {
                Some(o) => Some(o@),
                None => None,
            },
            first: self.first@,
            is_question: self.is_question,
            words: self.words as nat,
        }
    }
}

pub open spec fn meta_views(v: Seq<Meta>) -> Seq<MetaView> {
    v.map_values(|m: Meta| m@)
}

/// The signals of a sentence with the given lowercased words.
pub open spec fn meta_of(s: Seq<char>, w: Seq<Seq<char>>) -> MetaView {
    MetaView {
        opener: if w.len() > 0 && stopwords().contains(w[0]) {
            if w.len() > 1 {
                Some(w[1])
            } else {
                None
            }
        } else if w.len() > 0 {
            Some(w[0])
        } else {
            None
        },
        first: if w.len() > 0 {
            w[0]
        } else {
            Seq::empty()
        },
        is_question: s.len() > 0 && s.last() == '?',
        words: w.len(),
    }
}

/// The signals of one sentence.
pub open spec fn spec_sentence_meta(s: Seq<char>) -> MetaView {
    meta_of(s, spec_lc_words(s))
}

/// `n` copies of one tell.
pub open spec fn repeat_tell(t: TellView, n: nat) -> Seq<TellView> {
    Seq::new(n, |i: int| t)
}

/// The sentence-local tells of one sentence, in order: negative parallelism (one
/// per hit), tricolon, participial tail, false range (one per span).
pub open spec fn spec_sentence_tells(s: Seq<char>) -> Seq<TellView> {
    let w = spec_lc_words(s);
    repeat_tell(mk_tell(TellId::NegativeParallelism, s, Weight::Tenths(12)), count_np(w, w.len() as int))
        + if spec_is_triad(s) {
        seq![mk_tell(TellId::Tricolon, s, Weight::Tenths(9))]
    } else {
        Seq::empty()
    } + if spec_ing_tail(s) {
        seq![mk_tell(TellId::IngTail, s, Weight::Tenths(7))]
    } else {
        Seq::empty()
    } + repeat_tell(mk_tell(TellId::FalseRange, s, Weight::Tenths(5)), count_fr(w, w.len() as int))
}

/// Every sentence-local tell carries a positive weight.
pub proof fn lemma_sentence_tells_positive(s: Seq<char>)
    ensures
        all_positive(spec_sentence_tells(s)),
{
    let t = spec_sentence_tells(s);
    assert forall|i: int| 0 <= i < t.len() implies weight_positive(#[trigger] t[i].weight) by {
        let w = spec_lc_words(s);
        let a = repeat_tell(mk_tell(TellId::NegativeParallelism, s, Weight::Tenths(12)), count_np(w, w.len() as int));
        let b: Seq<TellView> = if spec_is_triad(s) {
            seq![mk_tell(TellId::Tricolon, s, Weight::Tenths(9))]
        } else {
            Seq::empty()
        };
        let c: Seq<TellView> = if spec_ing_tail(s) {
            seq![mk_tell(TellId::IngTail, s, Weight::Tenths(7))]
        } else {
            Seq::empty()
        };
        let d = repeat_tell(mk_tell(TellId::FalseRange, s, Weight::Tenths(5)), count_fr(w, w.len() as int));
        assert(t == a + b + c + d);
        if i < a.len() {
            assert(t[i] == a[i]);
        } else if i < a.len() + b.len() {
            assert(t[i] == b[i - a.len()]);
        } else if i < a.len() + b.len() + c.len() {
            assert(t[i] == c[i - a.len() - b.len()]);
        } else {
            assert(t[i] == d[i - a.len() - b.len() - c.len()]);
        }
    }
}

proof fn lemma_no_pivots(words: Seq<Seq<char>>, lo: int, hi: int)
    requires
        forall|j: int| 0 <= j < words.len() ==> !pivots().contains(#[trigger] words[j]),
        0 <= lo,
        hi <= words.len(),
    ensures
        count_pivots(words, lo, hi) == 0,
    decreases hi - lo,
{
    if hi > lo {
        lemma_no_pivots(words, lo, hi - 1);
        assert(!pivots().contains(words[hi - 1]));
    }
}

/// Negative parallelism needs a pivot: with no contrastive pivot among the words
/// there is no pair, however many negations there are.
pub proof fn lemma_np_needs_pivot(words: Seq<Seq<char>>, n: int)
    requires
        forall|j: int| 0 <= j < words.len() ==> !pivots().contains(#[trigger] words[j]),
        n <= words.len(),
    ensures
        count_np(words, n) == 0,
    decreases n,
{
    if n > 0 {
        lemma_np_needs_pivot(words, n - 1);
        if negations().contains(words[n - 1]) {
            lemma_no_pivots(words, n, np_window_end(words.len() as int, n - 1) + 1);
        }
    }
}

/// A "from" with no "to" anywhere after it is no false range.
pub proof fn lemma_false_range_needs_to(words: Seq<Seq<char>>, n: int)
    requires
        forall|j: int| 0 <= j < words.len() ==> #[trigger] words[j] != "to"@,
    ensures
        count_fr(words, n) == 0,
    decreases n,
{
    if n > 0 {
        lemma_false_range_needs_to(words, n - 1);
    }
}

/// The sentence-local tells are negative parallelism, tricolon, participial tail
/// and false range: never an anaphora.
pub proof fn lemma_sentence_tells_ids(s: Seq<char>, i: int)
    requires
        0 <= i < spec_sentence_tells(s).len(),
    ensures
        spec_sentence_tells(s)[i].id != TellId::Anaphora,
{
    let t = spec_sentence_tells(s);
    let w = spec_lc_words(s);
    let a = repeat_tell(mk_tell(TellId::NegativeParallelism, s, Weight::Tenths(12)), count_np(w, w.len() as int));
    let b: Seq<TellView> = if spec_is_triad(s) {
        seq![mk_tell(TellId::Tricolon, s, Weight::Tenths(9))]
    } else {
        Seq::empty()
    };
    let c: Seq<TellView> = if spec_ing_tail(s) {
        seq![mk_tell(TellId::IngTail, s, Weight::Tenths(7))]
    } else {
        Seq::empty()
    };
    let d = repeat_tell(mk_tell(TellId::FalseRange, s, Weight::Tenths(5)), count_fr(w, w.len() as int));
    assert(t == a + b + c + d);
    if i < a.len() {
        assert(t[i] == a[i]);
    } else if i < a.len() + b.len() {
        assert(t[i] == b[i - a.len()]);
    } else if i < a.len() + b.len() + c.len() {
        assert(t[i] == c[i - a.len() - b.len()]);
    } else {
        assert(t[i] == d[i - a.len() - b.len() - c.len()]);
    }
}

/// The words of a text, lowercased.
pub fn lc_words(s: &[char]) -> (res: Vec<Vec<char>>)
    ensures
        views(res@) == spec_lc_words(s@),
{
    let raw = unicode_words(s);
    let mut out: Vec<Vec<char>> = Vec::new();
    let mut i: usize = 0;
    while i < raw.len()
        invariant
            i <= raw@.len(),
            views(raw@) == spec_unicode_words(s@),
            views(out@) == spec_unicode_words(s@).take(i as int).map_values(
                |w: Seq<char>| spec_to_lowercase(w),
            ),
        decreases raw.len() - i,
    {
        let lw = to_lowercase(raw[i].as_slice());
        let ghost before = out@;
        out.push(lw);
        proof {
            assert(views(raw@)[i as int] == raw@[i as int]@);
            assert(views(out@) =~= views(before).push(lw@));
            assert(spec_unicode_words(s@).take(i + 1).map_values(|w: Seq<char>| spec_to_lowercase(w))
                =~= spec_unicode_words(s@).take(i as int).map_values(
                |w: Seq<char>| spec_to_lowercase(w),
            ).push(spec_to_lowercase(spec_unicode_words(s@)[i as int])));
        }
        i = i + 1;
    }
    proof {
        assert(spec_unicode_words(s@).take(raw@.len() as int) =~= spec_unicode_words(s@));
    }
    out
}

/// Trims each raw sentence and keeps the non-empty ones, in order.
pub fn trimmed_sentences(raw: &Vec<Vec<char>>) -> (res: Vec<Vec<char>>)
    ensures
        views(res@) == nonempty_trimmed(views(raw@)),
{
    let ghost rs = views(raw@);
    let mut out: Vec<Vec<char>> = Vec::new();
    let mut i: usize = 0;
    while i < raw.len()
        invariant
            i <= raw@.len(),
            rs == views(raw@),
            views(out@) == nonempty_trimmed(rs.take(i as int)),
        decreases raw.len() - i,
    {
        let t = trim_chars(raw[i].as_slice());
        proof {
            assert(rs[i as int] == raw@[i as int]@);
            assert(rs.take(i + 1).drop_last() =~= rs.take(i as int));
        }
        if t.len() > 0 {
            let ghost before = out@;
            out.push(t);
            assert(views(out@) =~= views(before).push(t@));
        }
        i = i + 1;
    }
    proof {
        assert(rs.take(raw@.len() as int) =~= rs);
    }
    out
}

/// The sentences of a text: Unicode sentence segmentation, trimmed, empty ones
/// dropped.
pub fn sentences(text: &[char]) -> (res: Vec<Vec<char>>)
    ensures
        views(res@) == spec_sentences(text@),
{
    let raw = unicode_sentences(text);
    trimmed_sentences(&raw)
}

/// Negative parallelism: each negation paired with each contrastive pivot that
/// follows it within six words ("it's not X, it's Y", "not slower, but faster").
pub fn negative_parallelism(words: &Vec<Vec<char>>) -> (res: u128)
    ensures
        res == count_np(views(words@), words@.len() as int),
{
    let negs = negation_list();
    let pivs = pivot_list();
    let ghost w = views(words@);
    let n = words.len();
    let mut hits: u128 = 0;
    let mut i: usize = 0;
    while i < n
        invariant
            n == words@.len(),
            w == views(words@),
            views_of_strs(negs@) == negations(),
            views_of_strs(pivs@) == pivots(),
            i <= n,
            hits == count_np(w, i as int),
            hits <= 6 * i,
        decreases n - i,
    {
        assert(w[i as int] == words@[i as int]@);
        if in_list(words[i].as_slice(), &negs) {
            let upper: usize = if n - 1 - i > 6 {
                i + 6
            } else {
                n - 1
            };
            let mut c: u128 = 0;
            let mut j: usize = i + 1;
            while j <= upper
                invariant
                    n == words@.len(),
                    w == views(words@),
                    views_of_strs(pivs@) == pivots(),
                    i < n,
                    upper == np_window_end(n as int, i as int),
                    upper <= i + 6,
                    i + 1 <= j <= upper + 1,
                    c == count_pivots(w, i + 1, j as int),
                    c <= j - (i + 1),
                decreases upper + 1 - j,
            {
                assert(w[j as int] == words@[j as int]@);
                if in_list(words[j].as_slice(), &pivs) {
                    c = c + 1;
                }
                j = j + 1;
            }
            hits = hits + c;
        }
        i = i + 1;
    }
    hits
}

/// False range: "from X to Y" spans (counted, not judged).
pub fn false_ranges(words: &Vec<Vec<char>>) -> (res: usize)
    ensures
        res == count_fr(views(words@), words@.len() as int),
{
    let ghost w = views(words@);
    let n = words.len();
    let mut hits: usize = 0;
    let mut i: usize = 0;
    while i < n
        invariant
            n == words@.len(),
            w == views(words@),
            i <= n,
            hits == count_fr(w, i as int),
            hits <= i,
        decreases n - i,
    {
        assert(w[i as int] == words@[i as int]@);
        if eq_lit(words[i].as_slice(), "from") {
            let mut found = false;
            let mut j: usize = i + 1;
            while j < n && j - i <= 5 && !found
                invariant
                    n == words@.len(),
                    w == views(words@),
                    i < n,
                    i + 1 <= j <= n,
                    j <= i + 6,
                    found ==> exists|q: int| i < q <= i + 5 && q < n && #[trigger] w[q] == "to"@,
                    !found ==> forall|q: int| i < q < j ==> #[trigger] w[q] != "to"@,
                decreases n - j,
            {
                assert(w[j as int] == words@[j as int]@);
                if eq_lit(words[j].as_slice(), "to") {
                    found = true;
                }
                j = j + 1;
            }
            if found {
                hits = hits + 1;
            }
        }
        i = i + 1;
    }
    hits
}

fn trim_end_punct_chars(s: &[char]) -> (res: Vec<char>)
    ensures
        res@ == trim_end_punct(s@),
{
    let mut b: usize = s.len();
    assert(s@.subrange(0, s@.len() as int) =~= s@);
    while b > 0 && (s[b - 1] == '.' || s[b - 1] == '!' || s[b - 1] == '?' || s[b - 1] == ' ')
        invariant
            b <= s@.len(),
            trim_end_punct(s@) == trim_end_punct(s@.subrange(0, b as int)),
        decreases b,
    {
        assert(s@.subrange(0, b as int).drop_last() =~= s@.subrange(0, b - 1));
        b = b - 1;
    }
    let mut out: Vec<char> = Vec::new();
    let mut i: usize = 0;
    while i < b
        invariant
            i <= b <= s@.len(),
            out@ == s@.subrange(0, i as int),
        decreases b - i,
    {
        out.push(s[i]);
        i = i + 1;
        assert(out@ =~= s@.subrange(0, i as int));
    }
    out
}

fn has_terminal_chars(p: &[char]) -> (res: bool)
    ensures
        res == has_terminal(p@),
{
    let mut i: usize = 0;
    while i < p.len()
        invariant
            i <= p@.len(),
            forall|j: int| 0 <= j < i ==> !is_terminal_punct(#[trigger] p@[j]),
        decreases p.len() - i,
    {
        let c = p[i];
        if c == '.' || c == '!' || c == '?' || c == ';' {
            return true;
        }
        i = i + 1;
    }
    false
}

/// Tricolon: a parallel triad "A, B, and C" whose spans are short.
pub fn is_triad(s: &[char]) -> (res: bool)
    ensures
        res == spec_is_triad(s@),
{
    let trimmed = trim_end_punct_chars(s);
    let pieces = split_chars(trimmed.as_slice(), ',');
    let ghost parts = triad_parts(s@);
    let mut tparts: Vec<Vec<char>> = Vec::new();
    let mut i: usize = 0;
    while i < pieces.len()
        invariant
            i <= pieces@.len(),
            views(pieces@) == split(trim_end_punct(s@), ','),
            parts == triad_parts(s@),
            parts.len() == pieces@.len(),
            tparts@.len() == i,
            forall|j: int| 0 <= j < i ==> #[trigger] tparts@[j]@ == parts[j],
        decreases pieces.len() - i,
    {
        assert(views(pieces@)[i as int] == pieces@[i as int]@);
        tparts.push(trim_chars(pieces[i].as_slice()));
        i = i + 1;
    }
    if tparts.len() < 3 {
        return false;
    }
    let last = tparts.len() - 1;
    let lw = lc_words(tparts[last].as_slice());
    if lw.len() == 0 {
        return false;
    }
    assert(views(lw@)[0] == lw@[0]@);
    if !(eq_lit(lw[0].as_slice(), "and") || eq_lit(lw[0].as_slice(), "or")) {
        return false;
    }
    let mut k: usize = 0;
    while k < tparts.len()
        invariant
            k <= tparts@.len(),
            parts == triad_parts(s@),
            parts.len() == tparts@.len(),
            forall|j: int| 0 <= j < tparts@.len() ==> #[trigger] tparts@[j]@ == parts[j],
            forall|j: int| 0 <= j < k ==> #[trigger] short_span(parts[j]),
        decreases tparts.len() - k,
    {
        let n = lc_words(tparts[k].as_slice()).len();
        if !(n >= 1 && n <= 4 && !has_terminal_chars(tparts[k].as_slice())) {
            proof {
                assert(!short_span(parts[k as int]));
                assert(0 <= k < triad_parts(s@).len());
                assert(!short_span(triad_parts(s@)[k as int]));
                assert(!spec_is_triad(s@));
            }
            return false;
        }
        k = k + 1;
    }
    true
}

fn utf8_width(c: char) -> (res: u64)
    ensures
        res == char_utf8_len(c),
{
    let u = c as u32;
    if u < 0x80 {
        1
    } else if u < 0x800 {
        2
    } else if u < 0x10000 {
        3
    } else {
        4
    }
}

proof fn lemma_utf8_len_prefix(s: Seq<char>, i: int)
    requires
        0 <= i <= s.len(),
    ensures
        utf8_len(s.take(i)) <= utf8_len(s),
    decreases s.len() - i,
{
    if i < s.len() {
        lemma_utf8_len_prefix(s, i + 1);
        assert(s.take(i + 1).drop_last() =~= s.take(i));
    } else {
        assert(s.take(i) =~= s);
    }
}

/// Whether the UTF-8 encoding of `w` is longer than four bytes.
fn longer_than_four_bytes(w: &[char]) -> (res: bool)
    ensures
        res == (utf8_len(w@) > 4),
{
    let mut total: u64 = 0;
    let mut i: usize = 0;
    while i < w.len() && total <= 4
        invariant
            i <= w@.len(),
            total == utf8_len(w@.take(i as int)),
        decreases w.len() - i,
    {
        assert(w@.take(i + 1).drop_last() =~= w@.take(i as int));
        total = total + utf8_width(w[i]);
        i = i + 1;
    }
    proof {
        lemma_utf8_len_prefix(w@, i as int);
        if i == w.len() {
            assert(w@.take(i as int) =~= w@);
        }
    }
    total > 4
}

/// Superficial "-ing" tail: a trailing participial clause ", verbing ..." at a
/// sentence end.
pub fn ing_tail(s: &[char]) -> (res: bool)
    ensures
        res == spec_ing_tail(s@),
{
    let mut k: usize = s.len();
    assert(s@.take(s@.len() as int) =~= s@);
    while k > 0 && s[k - 1] != ','
        invariant
            k <= s@.len(),
            last_index_of(s@, ',') == last_index_of(s@.take(k as int), ','),
        decreases k,
    {
        assert(s@.take(k as int).drop_last() =~= s@.take(k - 1));
        k = k - 1;
    }
    if k == 0 {
        return false;
    }
    assert(s@.take(k as int).last() == ',');
    let mut tail: Vec<char> = Vec::new();
    let mut i: usize = k;
    while i < s.len()
        invariant
            k <= i <= s@.len(),
            tail@ == s@.subrange(k as int, i as int),
        decreases s.len() - i,
    {
        tail.push(s[i]);
        i = i + 1;
        assert(tail@ =~= s@.subrange(k as int, i as int));
    }
    assert(tail@ =~= s@.skip(k as int));
    let words = lc_words(tail.as_slice());
    if words.len() == 0 {
        return false;
    }
    assert(views(words@)[0] == words@[0]@);
    let w = &words[0];
    if w.len() < 3 {
        return false;
    }
    let mut end: Vec<char> = Vec::new();
    let mut j: usize = w.len() - 3;
    while j < w.len()
        invariant
            w@.len() >= 3,
            w.len() - 3 <= j <= w@.len(),
            end@ == w@.subrange(w@.len() - 3, j as int),
        decreases w.len() - j,
    {
        end.push(w[j]);
        j = j + 1;
        assert(end@ =~= w@.subrange(w@.len() - 3, j as int));
    }
    assert(end@ =~= w@.skip(w@.len() - 3));
    eq_lit(end.as_slice(), "ing") && longer_than_four_bytes(w.as_slice())
}

/// The signals of one sentence, given its lowercased words.
pub fn sentence_meta(s: &[char], words: &Vec<Vec<char>>) -> (res: Meta)
    ensures
        res@ == meta_of(s@, views(words@)),
{
    let ghost w = views(words@);
    let n = words.len();
    let stops = stopword_list();
    let first: Vec<char> = if n > 0 {
        assert(w[0] == words@[0]@);
        words[0].clone()
    } else {
        Vec::new()
    };
    let opener: Option<Vec<char>> = if n > 0 && in_list(words[0].as_slice(), &stops) {
        if n > 1 {
            assert(w[1] == words@[1]@);
            Some(words[1].clone())
        } else {
            None
        }
    } else if n > 0 {
        Some(words[0].clone())
    } else {
        None
    };
    let is_question = s.len() > 0 && s[s.len() - 1] == '?';
    let res = Meta { opener, first, is_question, words: n };
    proof {
        if n > 0 {
            assert(w[0] == words@[0]@);
        }
        assert(res@.first =~= meta_of(s@, w).first);
    }
    res
}

fn push_copies(out: &mut Vec<Tell>, id: TellId, s: &[char], weight: Weight, count: u128)
    ensures
        tell_views(final(out)@) == tell_views(old(out)@) + repeat_tell(mk_tell(id, s@, weight), count as nat),
{
    let mut i: u128 = 0;
    while i < count
        invariant
            i <= count,
            tell_views(out@) == tell_views(old(out)@) + repeat_tell(mk_tell(id, s@, weight), i as nat),
        decreases count - i,
    {
        let t = new_tell(id, s, weight);
        let ghost before = out@;
        out.push(t);
        i = i + 1;
        assert(tell_views(out@) =~= tell_views(before).push(t@));
        assert(tell_views(out@) =~= tell_views(old(out)@) + repeat_tell(mk_tell(id, s@, weight), i as nat));
    }
}

/// Appends the sentence-local tells of `s` to `out` and returns its signals.
pub fn scan_sentence(s: &[char], out: &mut Vec<Tell>) -> (res: Meta)
    ensures
        tell_views(final(out)@) == tell_views(old(out)@) + spec_sentence_tells(s@),
        res@ == spec_sentence_meta(s@),
        all_positive(spec_sentence_tells(s@)),
{
    proof {
        lemma_sentence_tells_positive(s@);
    }
    let words = lc_words(s);
    let np = negative_parallelism(&words);
    push_copies(out, TellId::NegativeParallelism, s, Weight::Tenths(12), np);
    if is_triad(s) {
        let t = new_tell(TellId::Tricolon, s, Weight::Tenths(9));
        let ghost before = out@;
        out.push(t);
        assert(tell_views(out@) =~= tell_views(before).push(t@));
    }
    if ing_tail(s) {
        let t = new_tell(TellId::IngTail, s, Weight::Tenths(7));
        let ghost before = out@;
        out.push(t);
        assert(tell_views(out@) =~= tell_views(before).push(t@));
    }
    let fr = false_ranges(&words);
    push_copies(out, TellId::FalseRange, s, Weight::Tenths(5), fr as u128);
    proof {
        assert(tell_views(out@) =~= tell_views(old(out)@) + spec_sentence_tells(s@));
    }
    sentence_meta(s, &words)
}

} // verus!
