//! Paragraph-level shape tells of plain text: punchy single-sentence paragraphs
//! and bold-first bullets.
use vstd::prelude::*;
use crate::sentence::{nonempty_trimmed, sentences, spec_sentences};
use crate::tell::{all_positive, lemma_no_anaphora_concat, lemma_positive_concat, no_anaphora, mk_tell, new_tell, tell_views, weight_positive, Tell, TellId, TellView, Weight};
use crate::text::{decimal, push_decimal, push_lit, split, split_chars, trim, trim_chars, trim_start, views};

verus! {

/// State of splitting on "\n\n" from the left: pieces so far, the current piece,
/// and whether an unpaired newline is pending.
pub struct DdState {
    pub pieces: Seq<Seq<char>>,
    pub cur: Seq<char>,
    pub pending: bool,
}

pub open spec fn dd_step(st: DdState, c: char) -> DdState {
    if st.pending {
        if c == '\n' {
            DdState { pieces: st.pieces.push(st.cur), cur: Seq::empty(), pending: false }
        } else {
            DdState { pieces: st.pieces, cur: st.cur.push('\n').push(c), pending: false }
        }
    } else if c == '\n' {
        DdState { pieces: st.pieces, cur: st.cur, pending: true }
    } else {
        DdState { pieces: st.pieces, cur: st.cur.push(c), pending: false }
    }
}

pub open spec fn dd_fold(s: Seq<char>) -> DdState
    decreases s.len(),
{
    if s.len() == 0 {
        DdState { pieces: Seq::empty(), cur: Seq::empty(), pending: false }
    } else {
        dd_step(dd_fold(s.drop_last()), s.last())
    }
}

/// `s.split("\n\n")`: pieces between non-overlapping blank-line separators,
/// matched leftmost first.
pub open spec fn split_blank_lines(s: Seq<char>) -> Seq<Seq<char>> {
    let st = dd_fold(s);
    st.pieces.push(
        if st.pending {
            st.cur.push('\n')
        } else {
            st.cur
        },
    )
}

pub open spec fn has_newline(p: Seq<char>) -> bool {
    exists|i: int| 0 <= i < p.len() && #[trigger] p[i] == '\n'
}

/// A single-sentence paragraph: one line, at most one sentence.
pub open spec fn is_single(p: Seq<char>) -> bool {
    !has_newline(p) && spec_sentences(p).len() <= 1
}

pub open spec fn count_single(ps: Seq<Seq<char>>) -> nat
    decreases ps.len(),
{
    if ps.len() == 0 {
        0
    } else {
        count_single(ps.drop_last()) + if is_single(ps.last()) {
            1nat
        } else {
            0nat
        }
    }
}

/// A trimmed line that opens a bullet ("- ", "* " or "+ ").
pub open spec fn is_bullet(l: Seq<char>) -> bool {
    l.len() >= 2 && (l[0] == '-' || l[0] == '*' || l[0] == '+') && l[1] == ' '
}

/// The bullet's text after its marker opens with "**".
pub open spec fn is_bold_bullet(l: Seq<char>) -> bool {
    let r = trim_start(l.skip(2));
    r.len() >= 2 && r[0] == '*' && r[1] == '*'
}

/// The trimmed bullet lines among `lines`, in order.
pub open spec fn bullet_lines(lines: Seq<Seq<char>>) -> Seq<Seq<char>>
    decreases lines.len(),
{
    if lines.len() == 0 {
        Seq::empty()
    } else {
        let r = bullet_lines(lines.drop_last());
        let t = trim(lines.last());
        if is_bullet(t) {
            r.push(t)
        } else {
            r
        }
    }
}

pub open spec fn count_bold(bs: Seq<Seq<char>>) -> nat
    decreases bs.len(),
{
    if bs.len() == 0 {
        0
    } else {
        count_bold(bs.drop_last()) + if is_bold_bullet(bs.last()) {
            1nat
        } else {
            0nat
        }
    }
}

pub open spec fn punchy_tell(single: nat, paras: nat) -> TellView {
    mk_tell(
        TellId::PunchyFragments,
        decimal(single) + "/"@ + decimal(paras) + " paragraphs are single-sentence"@,
        Weight::Ratio { num: single as u64, den: paras as u64, factor_tenths: 20 },
    )
}

pub open spec fn bold_tell(bold: nat, bullets: nat) -> TellView {
    mk_tell(
        TellId::BoldFirstBullets,
        decimal(bold) + "/"@ + decimal(bullets) + " bullets open with bold lead-ins"@,
        Weight::Ratio { num: bold as u64, den: bullets as u64, factor_tenths: 15 },
    )
}

/// Staccato paragraphs: at least four paragraphs, more than half of them single
/// sentences.
pub open spec fn punchy_tells(single: nat, paras: nat) -> Seq<TellView> {
    if paras >= 4 && 2 * single > paras {
        seq![punchy_tell(single, paras)]
    } else {
        Seq::empty()
    }
}

/// Bold-lead bullets: at least three bullets, at least three fifths of them bold-first.
pub open spec fn bold_tells(bold: nat, bullets: nat) -> Seq<TellView> {
    if bullets >= 3 && 5 * bold >= 3 * bullets {
        seq![bold_tell(bold, bullets)]
    } else {
        Seq::empty()
    }
}

/// The shape tells of plain text.
pub open spec fn spec_shape(text: Seq<char>) -> Seq<TellView> {
    let paras = nonempty_trimmed(split_blank_lines(text));
    let bullets = bullet_lines(split(text, '\n'));
    punchy_tells(count_single(paras), paras.len()) + bold_tells(count_bold(bullets), bullets.len())
}

/// The shape tells are staccato paragraphs and bold-lead bullets: never an anaphora.
pub proof fn lemma_shape_no_anaphora(text: Seq<char>)
    ensures
        no_anaphora(spec_shape(text)),
{
    let paras = nonempty_trimmed(split_blank_lines(text));
    let bullets = bullet_lines(split(text, '\n'));
    let a = punchy_tells(count_single(paras), paras.len());
    let b = bold_tells(count_bold(bullets), bullets.len());
    assert(no_anaphora(a));
    assert(no_anaphora(b));
    lemma_no_anaphora_concat(a, b);
}

/// `s.split("\n\n")`.
pub fn split_paragraphs(s: &[char]) -> (res: Vec<Vec<char>>)
    ensures
        views(res@) == split_blank_lines(s@),
{
    let mut pieces: Vec<Vec<char>> = Vec::new();
    let mut cur: Vec<char> = Vec::new();
    let mut pending = false;
    let mut i: usize = 0;
    while i < s.len()
        invariant
            i <= s@.len(),
            views(pieces@) == dd_fold(s@.take(i as int)).pieces,
            cur@ == dd_fold(s@.take(i as int)).cur,
            pending == dd_fold(s@.take(i as int)).pending,
        decreases s.len() - i,
    {
        proof {
            assert(s@.take(i + 1).drop_last() =~= s@.take(i as int));
        }
        let c = s[i];
        if pending {
            if c == '\n' {
                let done = cur;
                let ghost before = pieces@;
                pieces.push(done);
                assert(views(pieces@) =~= views(before).push(done@));
                cur = Vec::new();
            } else {
                cur.push('\n');
                cur.push(c);
            }
            pending = false;
        } else if c == '\n' {
            pending = true;
        } else {
            cur.push(c);
        }
        i = i + 1;
    }
    proof {
        assert(s@.take(s@.len() as int) =~= s@);
    }
    if pending {
        cur.push('\n');
    }
    let ghost before = pieces@;
    let ghost last = cur@;
    pieces.push(cur);
    assert(views(pieces@) =~= views(before).push(last));
    pieces
}

fn has_newline_chars(p: &[char]) -> (res: bool)
    ensures
        res == has_newline(p@),
{
    let mut i: usize = 0;
    while i < p.len()
        invariant
            i <= p@.len(),
            forall|j: int| 0 <= j < i ==> p@[j] != '\n',
        decreases p.len() - i,
    {
        if p[i] == '\n' {
            return true;
        }
        i = i + 1;
    }
    false
}

/// Whether a paragraph is a single line with at most one sentence.
pub fn single_sentence_paragraph(p: &[char]) -> (res: bool)
    ensures
        res == is_single(p@),
{
    !has_newline_chars(p) && sentences(p).len() <= 1
}

fn bold_bullet(l: &[char]) -> (res: bool)
    requires
        l@.len() >= 2,
    ensures
        res == is_bold_bullet(l@),
{
    let mut rest: Vec<char> = Vec::new();
    let mut i: usize = 2;
    while i < l.len()
        invariant
            2 <= i <= l@.len(),
            rest@ == l@.subrange(2, i as int),
        decreases l.len() - i,
    {
        rest.push(l[i]);
        i = i + 1;
        assert(rest@ =~= l@.subrange(2, i as int));
    }
    assert(rest@ =~= l@.skip(2));
    let mut a: usize = 0;
    assert(rest@.skip(0) =~= rest@);
    while a < rest.len() && crate::text::is_whitespace_char(rest[a])
        invariant
            a <= rest@.len(),
            trim_start(rest@) == trim_start(rest@.skip(a as int)),
        decreases rest.len() - a,
    {
        assert(rest@.skip(a as int).drop_first() =~= rest@.skip(a + 1));
        a = a + 1;
    }
    let ghost r = rest@.skip(a as int);
    assert(trim_start(r) == r);
    a + 1 < rest.len() && rest[a] == '*' && rest[a + 1] == '*'
}

/// The shape-tell counts of plain text: (paragraphs, single-sentence paragraphs,
/// bullets, bold-first bullets).
fn shape_counts(text: &[char]) -> (res: (usize, usize, usize, usize))
    ensures
        res.0 == nonempty_trimmed(split_blank_lines(text@)).len(),
        res.1 == count_single(nonempty_trimmed(split_blank_lines(text@))),
        res.2 == bullet_lines(split(text@, '\n')).len(),
        res.3 == count_bold(bullet_lines(split(text@, '\n'))),
        res.1 <= res.0,
        res.3 <= res.2,
{
    let raw = split_paragraphs(text);
    let ghost rs = split_blank_lines(text@);
    let mut paras: usize = 0;
    let mut single: usize = 0;
    let mut i: usize = 0;
    while i < raw.len()
        invariant
            i <= raw@.len(),
            views(raw@) == rs,
            paras == nonempty_trimmed(rs.take(i as int)).len(),
            single == count_single(nonempty_trimmed(rs.take(i as int))),
            single <= paras <= i,
        decreases raw.len() - i,
    {
        proof {
            assert(rs.take(i + 1).drop_last() =~= rs.take(i as int));
            assert(rs[i as int] == raw@[i as int]@);
        }
        let t = trim_chars(raw[i].as_slice());
        if t.len() > 0 {
            proof {
                let prev = nonempty_trimmed(rs.take(i as int));
                assert(nonempty_trimmed(rs.take(i + 1)) == prev.push(t@));
                assert(prev.push(t@).drop_last() =~= prev);
            }
            if single_sentence_paragraph(t.as_slice()) {
                single = single + 1;
            }
            paras = paras + 1;
        }
        i = i + 1;
    }
    assert(rs.take(raw@.len() as int) =~= rs);
    let lines = split_chars(text, '\n');
    let ghost ls = split(text@, '\n');
    let mut bullets: usize = 0;
    let mut bold: usize = 0;
    let mut j: usize = 0;
    while j < lines.len()
        invariant
            j <= lines@.len(),
            views(lines@) == ls,
            bullets == bullet_lines(ls.take(j as int)).len(),
            bold == count_bold(bullet_lines(ls.take(j as int))),
            bold <= bullets <= j,
        decreases lines.len() - j,
    {
        proof {
            assert(ls.take(j + 1).drop_last() =~= ls.take(j as int));
            assert(ls[j as int] == lines@[j as int]@);
        }
        let t = trim_chars(lines[j].as_slice());
        if t.len() >= 2 && (t[0] == '-' || t[0] == '*' || t[0] == '+') && t[1] == ' ' {
            proof {
                let prev = bullet_lines(ls.take(j as int));
                assert(bullet_lines(ls.take(j + 1)) == prev.push(t@));
                assert(prev.push(t@).drop_last() =~= prev);
            }
            if bold_bullet(t.as_slice()) {
                bold = bold + 1;
            }
            bullets = bullets + 1;
        }
        j = j + 1;
    }
    assert(ls.take(lines@.len() as int) =~= ls);
    (paras, single, bullets, bold)
}

fn ratio_excerpt(part: usize, whole: usize, tail: &str) -> (res: Vec<char>)
    ensures
        res@ == decimal(part as nat) + "/"@ + decimal(whole as nat) + tail@,
{
    let mut out: Vec<char> = Vec::new();
    push_decimal(part as u64, &mut out);
    push_lit(&mut out, "/");
    push_decimal(whole as u64, &mut out);
    push_lit(&mut out, tail);
    assert(out@ =~= decimal(part as nat) + "/"@ + decimal(whole as nat) + tail@);
    out
}

/// Appends the shape tells for the given paragraph and bullet counts to `out`.
pub fn push_shape_tells(paras: usize, single: usize, bullets: usize, bold: usize, out: &mut Vec<Tell>)
    requires
        single <= paras,
        bold <= bullets,
    ensures
        tell_views(final(out)@) == tell_views(old(out)@) + punchy_tells(single as nat, paras as nat)
            + bold_tells(bold as nat, bullets as nat),
        all_positive(punchy_tells(single as nat, paras as nat) + bold_tells(bold as nat, bullets as nat)),
{
    proof {
        let a = punchy_tells(single as nat, paras as nat);
        let b = bold_tells(bold as nat, bullets as nat);
        assert(all_positive(a));
        assert(all_positive(b));
        lemma_positive_concat(a, b);
    }
    if paras >= 4 && single > paras - single {
        let e = ratio_excerpt(single, paras, " paragraphs are single-sentence");
        let t = new_tell(
            TellId::PunchyFragments,
            e.as_slice(),
            Weight::Ratio { num: single as u64, den: paras as u64, factor_tenths: 20 },
        );
        let ghost before = out@;
        out.push(t);
        assert(tell_views(out@) =~= tell_views(before).push(t@));
    }
    if bullets >= 3 && (bold as u128) * 5 >= (bullets as u128) * 3 {
        let e = ratio_excerpt(bold, bullets, " bullets open with bold lead-ins");
        let t = new_tell(
            TellId::BoldFirstBullets,
            e.as_slice(),
            Weight::Ratio { num: bold as u64, den: bullets as u64, factor_tenths: 15 },
        );
        let ghost before = out@;
        out.push(t);
        assert(tell_views(out@) =~= tell_views(before).push(t@));
    }
    assert(tell_views(out@) =~= tell_views(old(out)@) + punchy_tells(single as nat, paras as nat)
        + bold_tells(bold as nat, bullets as nat));
}

/// Paragraph-level shape tells of plain text.
pub fn shape(text: &[char], out: &mut Vec<Tell>)
    ensures
        tell_views(final(out)@) == tell_views(old(out)@) + spec_shape(text@),
        all_positive(spec_shape(text@)),
{
    let (paras, single, bullets, bold) = shape_counts(text);
    push_shape_tells(paras, single, bullets, bold, out);
}

} // verus!
