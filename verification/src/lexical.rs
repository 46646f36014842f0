//! The lexical layer: every word-boundaried, case-folded corpus phrase, and the
//! first occurrence of each typographic decoration character.
use vstd::prelude::*;
use crate::corpus::{lexeme_ids, lexeme_phrases, lexeme_tenths, lexeme_weight, lexemes, phrases_of};
use crate::ext::{spec_to_lowercase, to_lowercase};
use crate::tell::{all_positive, lemma_no_anaphora_concat, lemma_positive_concat, no_anaphora, mk_tell, new_tell, tell_views, weight_positive, Tell, TellId, TellView, Weight};
use crate::text::{chars_of, is_alnum_char, is_ascii_alphanumeric, views_of_strs};

verus! {

/// `p` occurs in `s` starting at position `i`.
pub open spec fn matches_at(s: Seq<char>, p: Seq<char>, i: int) -> bool {
    0 <= i && i + p.len() <= s.len() && s.subrange(i, i + p.len()) == p
}

/// The leftmost occurrence of `p` in `s` at or after `from` (`str::find` on `s[from..]`).
pub open spec fn first_match(s: Seq<char>, p: Seq<char>, from: int) -> Option<int>
    decreases s.len() + 1 - from,
{
    if from < 0 || from + p.len() > s.len() {
        None
    } else if matches_at(s, p, from) {
        Some(from)
    } else {
        first_match(s, p, from + 1)
    }
}

/// The occurrence `s[i..end]` is not glued to an ASCII letter or digit on either side.
pub open spec fn word_bounded(s: Seq<char>, i: int, end: int) -> bool {
    &&& (i == 0 || !is_ascii_alphanumeric(s[i - 1]))
    &&& (end == s.len() || !is_ascii_alphanumeric(s[end]))
}

pub proof fn lemma_first_match_range(s: Seq<char>, p: Seq<char>, from: int)
    requires
        0 <= from,
    ensures
        first_match(s, p, from) matches Some(at) ==> from <= at && matches_at(s, p, at) && forall|
            j: int,
        | from <= j < at ==> !#[trigger] matches_at(s, p, j),
        first_match(s, p, from) is None ==> forall|j: int| from <= j ==> !#[trigger] matches_at(s, p, j),
    decreases s.len() + 1 - from,
{
    if !(from < 0 || from + p.len() > s.len()) && !matches_at(s, p, from) {
        lemma_first_match_range(s, p, from + 1);
    }
}

/// The tells for one scanned phrase: each successive non-overlapping occurrence
/// from `from` on that is word-bounded.
pub open spec fn phrase_tells(s: Seq<char>, p: Seq<char>, id: TellId, from: int) -> Seq<TellView>
    decreases s.len() - from,
{
    if p.len() == 0 || from < 0 {
        Seq::empty()
    } else {
        match first_match(s, p, from) {
            None => Seq::empty(),
            Some(at) => {
                proof {
                    lemma_first_match_range(s, p, from);
                }
                (if word_bounded(s, at, at + p.len()) {
                    seq![mk_tell(id, p, Weight::Tenths(lexeme_weight(id)))]
                } else {
                    Seq::empty()
                }) + phrase_tells(s, p, id, at + p.len())
            },
        }
    }
}

/// The tells for one phrase of a trope: decoration characters match anywhere and
/// are reported once; other phrases at every word-bounded occurrence.
pub open spec fn one_phrase_tells(s: Seq<char>, p: Seq<char>, id: TellId) -> Seq<TellView> {
    if id == TellId::Decoration {
        if p.len() > 0 && first_match(s, p, 0) is Some {
            seq![mk_tell(id, p, Weight::Tenths(lexeme_weight(id)))]
        } else {
            Seq::empty()
        }
    } else {
        phrase_tells(s, p, id, 0)
    }
}

pub open spec fn phrases_tells(s: Seq<char>, ps: Seq<Seq<char>>, id: TellId) -> Seq<TellView>
    decreases ps.len(),
{
    if ps.len() == 0 {
        Seq::empty()
    } else {
        phrases_tells(s, ps.drop_last(), id) + one_phrase_tells(s, ps.last(), id)
    }
}

pub open spec fn lexemes_tells(s: Seq<char>, ids: Seq<TellId>) -> Seq<TellView>
    decreases ids.len(),
{
    if ids.len() == 0 {
        Seq::empty()
    } else {
        lexemes_tells(s, ids.drop_last()) + phrases_tells(s, lexeme_phrases(ids.last()), ids.last())
    }
}

/// The lexical tells of a text: the corpus scanned over its lowercase form, trope
/// by trope and phrase by phrase.
pub open spec fn spec_lexical(text: Seq<char>) -> Seq<TellView> {
    lexemes_tells(spec_to_lowercase(text), lexeme_ids())
}

proof fn lemma_phrase_tells_positive(s: Seq<char>, p: Seq<char>, id: TellId, from: int)
    requires
        lexeme_weight(id) > 0,
    ensures
        all_positive(phrase_tells(s, p, id, from)),
    decreases s.len() - from,
{
    if p.len() == 0 || from < 0 {
    } else {
        match first_match(s, p, from) {
            None => {},
            Some(at) => {
                lemma_first_match_range(s, p, from);
                lemma_phrase_tells_positive(s, p, id, at + p.len());
                let head: Seq<TellView> = if word_bounded(s, at, at + p.len()) {
                    seq![mk_tell(id, p, Weight::Tenths(lexeme_weight(id)))]
                } else {
                    Seq::empty()
                };
                lemma_positive_concat(head, phrase_tells(s, p, id, at + p.len()));
            },
        }
    }
}

proof fn lemma_phrases_tells_positive(s: Seq<char>, ps: Seq<Seq<char>>, id: TellId)
    requires
        lexeme_weight(id) > 0,
    ensures
        all_positive(phrases_tells(s, ps, id)),
    decreases ps.len(),
{
    if ps.len() > 0 {
        lemma_phrases_tells_positive(s, ps.drop_last(), id);
        lemma_phrase_tells_positive(s, ps.last(), id, 0);
        lemma_positive_concat(phrases_tells(s, ps.drop_last(), id), one_phrase_tells(s, ps.last(), id));
    }
}

proof fn lemma_lexemes_tells_positive(s: Seq<char>, ids: Seq<TellId>)
    requires
        forall|i: int| 0 <= i < ids.len() ==> lexeme_weight(#[trigger] ids[i]) > 0,
    ensures
        all_positive(lexemes_tells(s, ids)),
    decreases ids.len(),
{
    if ids.len() > 0 {
        lemma_lexemes_tells_positive(s, ids.drop_last());
        lemma_phrases_tells_positive(s, lexeme_phrases(ids.last()), ids.last());
        lemma_positive_concat(
            lexemes_tells(s, ids.drop_last()),
            phrases_tells(s, lexeme_phrases(ids.last()), ids.last()),
        );
    }
}

/// Every lexical tell carries a positive weight.
pub proof fn lemma_lexical_positive(text: Seq<char>)
    ensures
        all_positive(spec_lexical(text)),
{
    lemma_lexemes_tells_positive(spec_to_lowercase(text), lexeme_ids());
}

proof fn lemma_phrase_tells_ids(s: Seq<char>, p: Seq<char>, id: TellId, from: int)
    requires
        id != TellId::Anaphora,
    ensures
        no_anaphora(phrase_tells(s, p, id, from)),
    decreases s.len() - from,
{
    if p.len() == 0 || from < 0 {
    } else {
        match first_match(s, p, from) {
            None => {},
            Some(at) => {
                lemma_first_match_range(s, p, from);
                lemma_phrase_tells_ids(s, p, id, at + p.len());
                let head: Seq<TellView> = if word_bounded(s, at, at + p.len()) {
                    seq![mk_tell(id, p, Weight::Tenths(lexeme_weight(id)))]
                } else {
                    Seq::empty()
                };
                lemma_no_anaphora_concat(head, phrase_tells(s, p, id, at + p.len()));
            },
        }
    }
}

proof fn lemma_phrases_tells_ids(s: Seq<char>, ps: Seq<Seq<char>>, id: TellId)
    requires
        id != TellId::Anaphora,
    ensures
        no_anaphora(phrases_tells(s, ps, id)),
    decreases ps.len(),
{
    if ps.len() > 0 {
        lemma_phrases_tells_ids(s, ps.drop_last(), id);
        lemma_phrase_tells_ids(s, ps.last(), id, 0);
        lemma_no_anaphora_concat(phrases_tells(s, ps.drop_last(), id), one_phrase_tells(s, ps.last(), id));
    }
}

proof fn lemma_lexemes_tells_ids(s: Seq<char>, ids: Seq<TellId>)
    requires
        forall|i: int| 0 <= i < ids.len() ==> #[trigger] ids[i] != TellId::Anaphora,
    ensures
        no_anaphora(lexemes_tells(s, ids)),
    decreases ids.len(),
{
    if ids.len() > 0 {
        lemma_lexemes_tells_ids(s, ids.drop_last());
        lemma_phrases_tells_ids(s, lexeme_phrases(ids.last()), ids.last());
        lemma_no_anaphora_concat(
            lexemes_tells(s, ids.drop_last()),
            phrases_tells(s, lexeme_phrases(ids.last()), ids.last()),
        );
    }
}

/// The lexical layer never reports an anaphora.
pub proof fn lemma_lexical_no_anaphora(text: Seq<char>)
    ensures
        no_anaphora(spec_lexical(text)),
{
    lemma_lexemes_tells_ids(spec_to_lowercase(text), lexeme_ids());
}

/// `e` occurs in `s` at some position where neither the character before it nor the
/// character after it (where there is one) is an ASCII letter or digit.
pub open spec fn occurs_standing_alone(s: Seq<char>, e: Seq<char>) -> bool {
    exists|at: int|
        0 <= at && at + e.len() <= s.len() && #[trigger] s.subrange(at, at + e.len()) == e && (at == 0
            || !is_ascii_alphanumeric(s[at - 1])) && (at + e.len() == s.len() || !is_ascii_alphanumeric(
            s[at + e.len()],
        ))
}

pub open spec fn lexical_tells_stand_alone(s: Seq<char>, ts: Seq<TellView>) -> bool {
    forall|i: int|
        0 <= i < ts.len() ==> (#[trigger] ts[i]).id == TellId::Decoration || occurs_standing_alone(
            s,
            ts[i].excerpt,
        )
}

proof fn lemma_stand_alone_concat(s: Seq<char>, a: Seq<TellView>, b: Seq<TellView>)
    requires
        lexical_tells_stand_alone(s, a),
        lexical_tells_stand_alone(s, b),
    ensures
        lexical_tells_stand_alone(s, a + b),
{
    assert forall|i: int| 0 <= i < (a + b).len() implies (#[trigger] (a + b)[i]).id == TellId::Decoration
        || occurs_standing_alone(s, (a + b)[i].excerpt) by {
        if i < a.len() {
            assert((a + b)[i] == a[i]);
        } else {
            assert((a + b)[i] == b[i - a.len()]);
        }
    }
}

proof fn lemma_phrase_tells_stand_alone(s: Seq<char>, p: Seq<char>, id: TellId, from: int)
    ensures
        lexical_tells_stand_alone(s, phrase_tells(s, p, id, from)),
    decreases s.len() - from,
{
    if p.len() == 0 || from < 0 {
    } else {
        match first_match(s, p, from) {
            None => {},
            Some(at) => {
                lemma_first_match_range(s, p, from);
                lemma_phrase_tells_stand_alone(s, p, id, at + p.len());
                let head: Seq<TellView> = if word_bounded(s, at, at + p.len()) {
                    seq![mk_tell(id, p, Weight::Tenths(lexeme_weight(id)))]
                } else {
                    Seq::empty()
                };
                if word_bounded(s, at, at + p.len()) {
                    assert(s.subrange(at, at + p.len()) == p);
                    assert(occurs_standing_alone(s, p));
                    assert(head[0].excerpt == p);
                }
                lemma_stand_alone_concat(s, head, phrase_tells(s, p, id, at + p.len()));
            },
        }
    }
}

proof fn lemma_phrases_tells_stand_alone(s: Seq<char>, ps: Seq<Seq<char>>, id: TellId)
    ensures
        lexical_tells_stand_alone(s, phrases_tells(s, ps, id)),
    decreases ps.len(),
{
    if ps.len() > 0 {
        lemma_phrases_tells_stand_alone(s, ps.drop_last(), id);
        lemma_phrase_tells_stand_alone(s, ps.last(), id, 0);
        lemma_stand_alone_concat(s, phrases_tells(s, ps.drop_last(), id), one_phrase_tells(s, ps.last(), id));
    }
}

proof fn lemma_lexemes_tells_stand_alone(s: Seq<char>, ids: Seq<TellId>)
    ensures
        lexical_tells_stand_alone(s, lexemes_tells(s, ids)),
    decreases ids.len(),
{
    if ids.len() > 0 {
        lemma_lexemes_tells_stand_alone(s, ids.drop_last());
        lemma_phrases_tells_stand_alone(s, lexeme_phrases(ids.last()), ids.last());
        lemma_stand_alone_concat(
            s,
            lexemes_tells(s, ids.drop_last()),
            phrases_tells(s, lexeme_phrases(ids.last()), ids.last()),
        );
    }
}

/// Lexical diction is word-boundaried: every lexical tell other than a
/// typographic decoration marks an occurrence of its excerpt in the lowercased
/// text whose neighbours on both sides (where there are any) are not ASCII letters
/// or digits. A phrase that occurs only inside a longer word, such as "utilize" in
/// "underutilize", yields no tell.
pub proof fn lemma_lexical_word_boundaried(text: Seq<char>)
    ensures
        forall|i: int|
            0 <= i < spec_lexical(text).len() ==> (#[trigger] spec_lexical(text)[i]).id
                == TellId::Decoration || occurs_standing_alone(
                spec_to_lowercase(text),
                spec_lexical(text)[i].excerpt,
            ),
{
    lemma_lexemes_tells_stand_alone(spec_to_lowercase(text), lexeme_ids());
}

fn matches_at_exec(s: &[char], p: &[char], i: usize) -> (res: bool)
    requires
        i + p@.len() <= s@.len(),
    ensures
        res == matches_at(s@, p@, i as int),
{
    let n = s.len();
    let mut k: usize = 0;
    while k < p.len()
        invariant
            n == s@.len(),
            i + p@.len() <= s@.len(),
            k <= p@.len(),
            forall|q: int| 0 <= q < k ==> s@[i + q] == p@[q],
        decreases p.len() - k,
    {
        assert(i + k < s@.len());
        if s[i + k] != p[k] {
            assert(s@.subrange(i as int, i + p@.len())[k as int] != p@[k as int]);
            return false;
        }
        k = k + 1;
    }
    assert(s@.subrange(i as int, i + p@.len()) =~= p@);
    true
}

/// `s[from..].find(p)`, as an index into `s`.
pub(crate) fn find_from(s: &[char], p: &[char], from: usize) -> (res: Option<usize>)
    ensures
        res matches Some(at) ==> first_match(s@, p@, from as int) == Some(at as int),
        res is None ==> first_match(s@, p@, from as int) is None,
{
    if p.len() > s.len() {
        return None;
    }
    if p.len() == 0 {
        proof {
            if from <= s@.len() {
                assert(s@.subrange(from as int, from as int) =~= p@);
            }
        }
        return if from <= s.len() {
            Some(from)
        } else {
            None
        };
    }
    let last = s.len() - p.len();
    let mut i: usize = from;
    let n = s.len();
    while i <= last
        invariant
            n == s@.len(),
            p@.len() > 0,
            last + p@.len() == s@.len(),
            from <= i,
            first_match(s@, p@, from as int) == first_match(s@, p@, i as int),
        decreases last + 1 - i,
    {
        if matches_at_exec(s, p, i) {
            return Some(i);
        }
        i = i + 1;
    }
    None
}

fn push_phrase_tells(lower: &[char], p: &[char], id: TellId, out: &mut Vec<Tell>)
    ensures
        tell_views(final(out)@) == tell_views(old(out)@) + one_phrase_tells(lower@, p@, id),
{
    if p.len() == 0 {
        assert(tell_views(out@) =~= tell_views(old(out)@) + one_phrase_tells(lower@, p@, id));
        return;
    }
    let w = lexeme_tenths(id);
    if id == TellId::Decoration {
        if find_from(lower, p, 0).is_some() {
            let t = new_tell(id, p, Weight::Tenths(w));
            let ghost before = out@;
            out.push(t);
            assert(tell_views(out@) =~= tell_views(before).push(t@));
        }
        assert(tell_views(out@) =~= tell_views(old(out)@) + one_phrase_tells(lower@, p@, id));
        return;
    }
    let mut from: usize = 0;
    let n = lower.len();
    loop
        invariant
            n == lower@.len(),
            p@.len() > 0,
            from <= lower@.len(),
            w == lexeme_weight(id),
            tell_views(old(out)@) + phrase_tells(lower@, p@, id, 0) == tell_views(out@)
                + phrase_tells(lower@, p@, id, from as int),
        ensures
            tell_views(old(out)@) + phrase_tells(lower@, p@, id, 0) == tell_views(out@),
        decreases lower@.len() - from,
    {
        let found = find_from(lower, p, from);
        proof {
            lemma_first_match_range(lower@, p@, from as int);
        }
        match found {
            None => {
                assert(phrase_tells(lower@, p@, id, from as int) =~= Seq::<TellView>::empty());
                assert(tell_views(out@) =~= tell_views(out@) + phrase_tells(
                    lower@,
                    p@,
                    id,
                    from as int,
                ));
                break;
            },
            Some(at) => {
                let end = at + p.len();
                let left = at == 0 || !is_alnum_char(lower[at - 1]);
                let right = end == lower.len() || !is_alnum_char(lower[end]);
                let ghost before = out@;
                if left && right {
                    let t = new_tell(id, p, Weight::Tenths(w));
                    out.push(t);
                    assert(tell_views(out@) =~= tell_views(before).push(t@));
                }
                proof {
                    let rest = phrase_tells(lower@, p@, id, end as int);
                    if left && right {
                        assert(phrase_tells(lower@, p@, id, from as int) =~= seq![
                            mk_tell(id, p@, Weight::Tenths(w)),
                        ] + rest);
                        assert(tell_views(before) + phrase_tells(lower@, p@, id, from as int)
                            =~= tell_views(out@) + rest);
                    } else {
                        assert(phrase_tells(lower@, p@, id, from as int) =~= rest);
                    }
                }
                from = end;
            },
        }
    }
}

fn push_lexeme_tells(lower: &[char], id: TellId, out: &mut Vec<Tell>)
    ensures
        tell_views(final(out)@) == tell_views(old(out)@) + phrases_tells(
            lower@,
            lexeme_phrases(id),
            id,
        ),
{
    let phrases = phrases_of(id);
    let ghost ps = lexeme_phrases(id);
    let mut i: usize = 0;
    while i < phrases.len()
        invariant
            i <= phrases@.len(),
            views_of_strs(phrases@) == ps,
            ps == lexeme_phrases(id),
            tell_views(out@) == tell_views(old(out)@) + phrases_tells(lower@, ps.take(i as int), id),
        decreases phrases.len() - i,
    {
        let p = chars_of(phrases[i]);
        proof {
            assert(ps[i as int] == phrases@[i as int]@);
            assert(ps.take(i + 1).drop_last() =~= ps.take(i as int));
        }
        push_phrase_tells(lower, p.as_slice(), id, out);
        assert(tell_views(out@) =~= tell_views(old(out)@) + phrases_tells(
            lower@,
            ps.take(i + 1),
            id,
        ));
        i = i + 1;
    }
    assert(ps.take(phrases@.len() as int) =~= ps);
}

/// The corpus scanned over an already lowercased text, trope by trope and phrase
/// by phrase; appended to `out`.
pub fn lexical_tells(lower: &[char], out: &mut Vec<Tell>)
    ensures
        tell_views(final(out)@) == tell_views(old(out)@) + lexemes_tells(lower@, lexeme_ids()),
{
    let ids = lexemes();
    let ghost all = lexeme_ids();
    let mut i: usize = 0;
    while i < ids.len()
        invariant
            i <= ids@.len(),
            ids@ == all,
            all == lexeme_ids(),
            tell_views(out@) == tell_views(old(out)@) + lexemes_tells(lower@, all.take(i as int)),
        decreases ids.len() - i,
    {
        proof {
            assert(all.take(i + 1).drop_last() =~= all.take(i as int));
        }
        push_lexeme_tells(lower, ids[i], out);
        assert(tell_views(out@) =~= tell_views(old(out)@) + lexemes_tells(lower@, all.take(i + 1)));
        i = i + 1;
    }
    assert(all.take(ids@.len() as int) =~= all);
}

/// Lexical scan: every word-boundaried, case-folded corpus phrase; decoration
/// characters match anywhere, once each.
pub fn lexical(text: &[char], out: &mut Vec<Tell>)
    ensures
        tell_views(final(out)@) == tell_views(old(out)@) + spec_lexical(text@),
{
    let lower = to_lowercase(text);
    lexical_tells(lower.as_slice(), out);
}

} // verus!
