//! Cross-sentence run equations over the per-sentence signals: anaphora,
//! countdown, self-answered question, listicle.
use vstd::prelude::*;
use crate::corpus::{ordinal_list, ordinals};
use crate::sentence::{meta_views, repeat_tell, Meta, MetaView};
use crate::tell::{all_positive, no_anaphora, mk_tell, new_tell, tell_views, weight_positive, Tell, TellId, TellView, Weight};
use crate::text::{decimal, eq_lit, in_list, push_chars, push_decimal, push_lit, views_of_strs};

verus! {

/// The anaphora openers of a run of sentences.
pub open spec fn openers(metas: Seq<MetaView>) -> Seq<Option<Seq<char>>> {
    metas.map_values(|m: MetaView| m.opener)
}

/// Streaming anaphora state: finished runs, the current opener and its run length.
pub struct AnaState {
    pub runs: Seq<(Seq<char>, nat)>,
    pub cur: Option<Seq<char>>,
    pub len: nat,
}

pub open spec fn ana_flush(st: AnaState) -> Seq<(Seq<char>, nat)> {
    match st.cur {
        Some(o) => if st.len >= 3 {
            st.runs.push((o, st.len))
        } else {
            st.runs
        },
        None => st.runs,
    }
}

pub open spec fn ana_step(st: AnaState, op: Option<Seq<char>>) -> AnaState {
    if op is Some && st.cur == op {
        AnaState { runs: st.runs, cur: st.cur, len: st.len + 1 }
    } else {
        AnaState { runs: ana_flush(st), cur: op, len: 1 }
    }
}

pub open spec fn ana_fold(ops: Seq<Option<Seq<char>>>) -> AnaState
    decreases ops.len(),
{
    if ops.len() == 0 {
        AnaState { runs: Seq::empty(), cur: None, len: 0 }
    } else {
        ana_step(ana_fold(ops.drop_last()), ops.last())
    }
}

/// Anaphora runs: consecutive sentences sharing a present opener, length >= 3,
/// each with its opener and length, in order.
pub open spec fn spec_anaphora_runs(ops: Seq<Option<Seq<char>>>) -> Seq<(Seq<char>, nat)> {
    ana_flush(ana_fold(ops))
}

/// Groups a sequence into maximal runs of equal consecutive items, with lengths.
pub open spec fn group_runs(ops: Seq<Option<Seq<char>>>) -> Seq<(Option<Seq<char>>, nat)>
    decreases ops.len(),
{
    if ops.len() == 0 {
        Seq::empty()
    } else {
        let g = group_runs(ops.drop_last());
        if g.len() > 0 && g.last().0 == ops.last() {
            g.update(g.len() - 1, (g.last().0, g.last().1 + 1))
        } else {
            g.push((ops.last(), 1nat))
        }
    }
}

/// The runs of a present opener whose length is at least three.
pub open spec fn long_present_runs(g: Seq<(Option<Seq<char>>, nat)>) -> Seq<(Seq<char>, nat)>
    decreases g.len(),
{
    if g.len() == 0 {
        Seq::empty()
    } else {
        let r = long_present_runs(g.drop_last());
        match g.last().0 {
            Some(o) => if g.last().1 >= 3 {
                r.push((o, g.last().1))
            } else {
                r
            },
            None => r,
        }
    }
}

/// Countdown state: closed run lengths so far and the current "Not ..." run.
pub struct CdState {
    pub out: Seq<nat>,
    pub run: nat,
}

pub open spec fn cd_step(st: CdState, first: Seq<char>) -> CdState {
    if first == "not"@ || first == "no"@ {
        CdState { out: st.out, run: st.run + 1 }
    } else if (first == "just"@ || first == "only"@) && st.run >= 2 {
        CdState { out: st.out.push(st.run + 1), run: 0 }
    } else {
        CdState { out: st.out, run: 0 }
    }
}

pub open spec fn firsts(metas: Seq<MetaView>) -> Seq<Seq<char>> {
    metas.map_values(|m: MetaView| m.first)
}

pub open spec fn cd_fold(fs: Seq<Seq<char>>) -> CdState
    decreases fs.len(),
{
    if fs.len() == 0 {
        CdState { out: Seq::empty(), run: 0 }
    } else {
        cd_step(cd_fold(fs.drop_last()), fs.last())
    }
}

/// "Not X. Not Y. Just Z.": a run of at least two sentences led by "not"/"no",
/// closed by one led by "just"/"only"; each closed run's length counting the closer.
pub open spec fn spec_countdown(fs: Seq<Seq<char>>) -> Seq<nat> {
    cd_fold(fs).out
}

/// Sentence `i` is a question followed by a fragment of one to five words.
pub open spec fn sa_hit(metas: Seq<MetaView>, i: int) -> bool {
    i + 1 < metas.len() && metas[i].is_question && 1 <= metas[i + 1].words <= 5
}

/// Number of self-answered questions among the first `n` sentences.
pub open spec fn count_sa(metas: Seq<MetaView>, n: int) -> nat
    decreases n,
{
    if n <= 0 {
        0
    } else {
        count_sa(metas, n - 1) + if sa_hit(metas, n - 1) {
            1nat
        } else {
            0nat
        }
    }
}

pub open spec fn spec_self_answered(metas: Seq<MetaView>) -> nat {
    count_sa(metas, metas.len() as int)
}

/// A run of `run` sentences scores `(run - 2)^2` once it reaches three.
pub open spec fn run_score(run: nat) -> nat {
    if run >= 3 {
        ((run - 2) * (run - 2)) as nat
    } else {
        0
    }
}

pub struct LsState {
    pub run: nat,
    pub score: nat,
}

pub open spec fn ls_step(st: LsState, first: Seq<char>) -> LsState {
    if ordinals().contains(first) {
        LsState { run: st.run + 1, score: st.score }
    } else {
        LsState { run: 0, score: st.score + run_score(st.run) }
    }
}

pub open spec fn ls_fold(fs: Seq<Seq<char>>) -> LsState
    decreases fs.len(),
{
    if fs.len() == 0 {
        LsState { run: 0, score: 0 }
    } else {
        ls_step(ls_fold(fs.drop_last()), fs.last())
    }
}

/// Listicle-in-prose: the anaphora score over runs of ordinal-led sentences.
pub open spec fn spec_listicle(fs: Seq<Seq<char>>) -> nat {
    let st = ls_fold(fs);
    st.score + run_score(st.run)
}

pub open spec fn anaphora_tell(r: (Seq<char>, nat)) -> TellView {
    mk_tell(
        TellId::Anaphora,
        decimal(r.1) + " sentences open with \""@ + r.0 + "\""@,
        Weight::Count(run_score(r.1) as u128),
    )
}

pub open spec fn countdown_tell(len: nat) -> TellView {
    mk_tell(TellId::Countdown, decimal(len) + "-part \"Not…/Just…\" countdown"@, Weight::Tenths(13))
}

pub open spec fn self_answered_tell() -> TellView {
    mk_tell(
        TellId::SelfAnsweredQuestion,
        "rhetorical question answered by a fragment"@,
        Weight::Tenths(10),
    )
}

pub open spec fn listicle_tell(score: nat) -> TellView {
    mk_tell(TellId::Listicle, "ordinal-led sentence run"@, Weight::Count(score as u128))
}

/// The run tells of a document, in order: anaphora runs, countdowns,
/// self-answered questions, listicle.
pub open spec fn spec_run_tells(metas: Seq<MetaView>) -> Seq<TellView> {
    let lst = spec_listicle(firsts(metas));
    spec_anaphora_runs(openers(metas)).map_values(|r: (Seq<char>, nat)| anaphora_tell(r))
        + spec_countdown(firsts(metas)).map_values(|l: nat| countdown_tell(l))
        + repeat_tell(self_answered_tell(), spec_self_answered(metas)) + if lst > 0 {
        seq![listicle_tell(lst)]
    } else {
        Seq::empty()
    }
}

proof fn lemma_run_tells_positive(metas: Seq<MetaView>)
    requires
        forall|k: int|
            0 <= k < spec_anaphora_runs(openers(metas)).len() ==> 3 <= #[trigger] spec_anaphora_runs(
                openers(metas),
            )[k].1 <= 0xFFFF_FFFF_FFFF_FFFF,
        spec_listicle(firsts(metas)) <= u128::MAX,
    ensures
        all_positive(spec_run_tells(metas)),
{
    let rs = spec_anaphora_runs(openers(metas));
    let lst = spec_listicle(firsts(metas));
    let a = rs.map_values(|r: (Seq<char>, nat)| anaphora_tell(r));
    let b = spec_countdown(firsts(metas)).map_values(|l: nat| countdown_tell(l));
    let c = repeat_tell(self_answered_tell(), spec_self_answered(metas));
    let d: Seq<TellView> = if lst > 0 {
        seq![listicle_tell(lst)]
    } else {
        Seq::empty()
    };
    let t = spec_run_tells(metas);
    assert(t == a + b + c + d);
    assert forall|i: int| 0 <= i < t.len() implies weight_positive(#[trigger] t[i].weight) by {
        if i < a.len() {
            assert(t[i] == a[i]);
            let l = rs[i].1;
            assert(3 <= l <= 0xFFFF_FFFF_FFFF_FFFF);
            assert(1 <= (l - 2) * (l - 2) <= u128::MAX) by (nonlinear_arith)
                requires
                    3 <= l <= 0xFFFF_FFFF_FFFF_FFFF,
            ;
        } else if i < a.len() + b.len() {
            assert(t[i] == b[i - a.len()]);
        } else if i < a.len() + b.len() + c.len() {
            assert(t[i] == c[i - a.len() - b.len()]);
        } else {
            assert(t[i] == d[i - a.len() - b.len() - c.len()]);
        }
    }
}

proof fn lemma_ana_fold_tracks_groups(ops: Seq<Option<Seq<char>>>)
    ensures
        ops.len() == 0 ==> ana_fold(ops).cur is None && ana_fold(ops).runs.len() == 0
            && group_runs(ops).len() == 0,
        ops.len() > 0 ==> {
            let st = ana_fold(ops);
            let g = group_runs(ops);
            &&& g.len() > 0
            &&& st.runs == long_present_runs(g.drop_last())
            &&& st.cur == g.last().0
            &&& (st.cur is Some ==> st.len == g.last().1)
        },
    decreases ops.len(),
{
    if ops.len() > 0 {
        let prev = ops.drop_last();
        let x = ops.last();
        lemma_ana_fold_tracks_groups(prev);
        let st = ana_fold(prev);
        let g = group_runs(prev);
        if prev.len() == 0 {
            assert(group_runs(ops) =~= seq![(x, 1nat)]);
            assert(group_runs(ops).drop_last() =~= Seq::<(Option<Seq<char>>, nat)>::empty());
        } else {
            let g2 = group_runs(ops);
            if g.last().0 == x {
                assert(g2 == g.update(g.len() - 1, (g.last().0, g.last().1 + 1)));
                assert(g2.drop_last() =~= g.drop_last());
            } else {
                assert(g2 == g.push((x, 1nat)));
                assert(g2.drop_last() =~= g);
                assert(ana_flush(st) == long_present_runs(g));
            }
        }
    }
}

/// Anaphora runs are exactly the maximal runs of one present opener that are at
/// least three sentences long, in order: the streaming scan refines the
/// declarative grouping into maximal runs (including the run at the very end).
pub proof fn lemma_anaphora_runs_are_maximal_runs(ops: Seq<Option<Seq<char>>>)
    ensures
        spec_anaphora_runs(ops) == long_present_runs(group_runs(ops)),
{
    lemma_ana_fold_tracks_groups(ops);
}

proof fn lemma_group_uniform(x: Option<Seq<char>>, l: nat)
    requires
        l >= 1,
    ensures
        group_runs(Seq::new(l, |i: int| x)) == seq![(x, l)],
    decreases l,
{
    let ops = Seq::new(l, |i: int| x);
    if l == 1 {
        assert(ops.drop_last() =~= Seq::<Option<Seq<char>>>::empty());
        assert(group_runs(ops.drop_last()) == Seq::<(Option<Seq<char>>, nat)>::empty());
        assert(ops.last() == x);
        assert(group_runs(ops) =~= seq![(x, l)]);
    } else {
        lemma_group_uniform(x, (l - 1) as nat);
        assert(ops.drop_last() =~= Seq::new((l - 1) as nat, |i: int| x));
        let g = group_runs(ops.drop_last());
        assert(g == seq![(x, (l - 1) as nat)]);
        assert(ops.last() == x);
        assert(g.last().0 == ops.last());
        assert(group_runs(ops) == g.update(0, (x, ((l - 1) as nat + 1) as nat)));
        assert(group_runs(ops) =~= seq![(x, l)]);
    }
}

/// A run of `l` sentences that all open with the same word is one anaphora run
/// of length `l` when `l >= 3`, and no run at all when `l <= 2` (a pair is free).
pub proof fn lemma_anaphora_uniform_run(o: Seq<char>, l: nat)
    ensures
        l >= 3 ==> spec_anaphora_runs(Seq::new(l, |i: int| Some(o))) == seq![(o, l)],
        l <= 2 ==> spec_anaphora_runs(Seq::new(l, |i: int| Some(o))).len() == 0,
{
    let ops = Seq::new(l, |i: int| Some(o));
    lemma_anaphora_runs_are_maximal_runs(ops);
    if l >= 1 {
        lemma_group_uniform(Some(o), l);
        let g = seq![(Some(o), l)];
        assert(g.drop_last() =~= Seq::<(Option<Seq<char>>, nat)>::empty());
        assert(long_present_runs(g.drop_last()) == Seq::<(Seq<char>, nat)>::empty());
        assert(g.last() == (Some(o), l));
        if l >= 3 {
            assert(long_present_runs(g) =~= seq![(o, l)]);
        } else {
            assert(long_present_runs(g) =~= Seq::<(Seq<char>, nat)>::empty());
        }
    } else {
        assert(ops =~= Seq::<Option<Seq<char>>>::empty());
    }
}

/// The anaphora tell of a run of length `l` weighs `(l - 2)^2`: at least one
/// once the run reaches three, so run tells grow superlinearly.
pub proof fn lemma_anaphora_weight(o: Seq<char>, l: nat)
    requires
        l >= 3,
    ensures
        anaphora_tell((o, l)).weight == Weight::Count(run_score(l) as u128),
        run_score(l) == (l - 2) * (l - 2),
        run_score(l) >= 1,
{
    assert((l - 2) * (l - 2) >= 1) by (nonlinear_arith)
        requires
            l >= 3,
    ;
}

proof fn lemma_cd_fold_nots(k: nat)
    ensures
        cd_fold(Seq::new(k, |i: int| "not"@)) == (CdState { out: Seq::empty(), run: k }),
    decreases k,
{
    let fs = Seq::new(k, |i: int| "not"@);
    if k > 0 {
        lemma_cd_fold_nots((k - 1) as nat);
        assert(fs.drop_last() =~= Seq::new((k - 1) as nat, |i: int| "not"@));
    }
}

/// Countdown: `k >= 2` sentences led by "not" and closed by one led by "just" are
/// one countdown of `k + 1` parts; without the closer there is none.
pub proof fn lemma_countdown_closed_run(k: nat)
    ensures
        k >= 2 ==> spec_countdown(Seq::new(k, |i: int| "not"@).push("just"@)) == seq![k + 1],
        spec_countdown(Seq::new(k, |i: int| "not"@)).len() == 0,
{
    lemma_cd_fold_nots(k);
    let fs = Seq::new(k, |i: int| "not"@).push("just"@);
    assert(fs.drop_last() =~= Seq::new(k, |i: int| "not"@));
    reveal_strlit("just");
    reveal_strlit("not");
    reveal_strlit("no");
    reveal_strlit("only");
    assert("just"@.len() == 4 && "not"@.len() == 3 && "no"@.len() == 2);
    assert("just"@ != "not"@);
    assert("just"@ != "no"@);
    if k >= 2 {
        assert(spec_countdown(fs) =~= seq![k + 1]);
    }
}

proof fn lemma_ls_fold_uniform(w: Seq<char>, l: nat)
    requires
        ordinals().contains(w),
    ensures
        ls_fold(Seq::new(l, |i: int| w)) == (LsState { run: l, score: 0 }),
    decreases l,
{
    if l > 0 {
        lemma_ls_fold_uniform(w, (l - 1) as nat);
        assert(Seq::new(l, |i: int| w).drop_last() =~= Seq::new((l - 1) as nat, |i: int| w));
    }
}

/// Listicle: `l` sentences all led by the same ordinal score `(l - 2)^2` once
/// `l >= 3`, and nothing below that.
pub proof fn lemma_listicle_uniform_run(w: Seq<char>, l: nat)
    requires
        ordinals().contains(w),
    ensures
        spec_listicle(Seq::new(l, |i: int| w)) == run_score(l),
{
    lemma_ls_fold_uniform(w, l);
}

proof fn lemma_ls_fold_no_ordinal(fs: Seq<Seq<char>>)
    requires
        forall|i: int| 0 <= i < fs.len() ==> !ordinals().contains(#[trigger] fs[i]),
    ensures
        ls_fold(fs) == (LsState { run: 0, score: 0 }),
    decreases fs.len(),
{
    if fs.len() > 0 {
        lemma_ls_fold_no_ordinal(fs.drop_last());
        assert(!ordinals().contains(fs[fs.len() - 1]));
    }
}

/// A run with no ordinal-led sentence is never a listicle.
pub proof fn lemma_listicle_needs_ordinals(fs: Seq<Seq<char>>)
    requires
        forall|i: int| 0 <= i < fs.len() ==> !ordinals().contains(#[trigger] fs[i]),
    ensures
        spec_listicle(fs) == 0,
{
    lemma_ls_fold_no_ordinal(fs);
}

/// The weight of a tell as a whole count when it is an anaphora tell; zero for
/// every other tell.
pub open spec fn anaphora_weight_of(t: TellView) -> int {
    if t.id == TellId::Anaphora {
        match t.weight {
            Weight::Count(n) => n as int,
            _ => 0,
        }
    } else {
        0
    }
}

/// The sum of the anaphora weights of a sequence of tells.
pub open spec fn anaphora_weight_total(ts: Seq<TellView>) -> int
    decreases ts.len(),
{
    if ts.len() == 0 {
        0
    } else {
        anaphora_weight_total(ts.drop_last()) + anaphora_weight_of(ts.last())
    }
}

/// The sum, over the maximal runs of a present opener, of `(L - 2)^2` for each run
/// of length `L >= 3`.
pub open spec fn maximal_runs_score(g: Seq<(Option<Seq<char>>, nat)>) -> int
    decreases g.len(),
{
    if g.len() == 0 {
        0
    } else {
        maximal_runs_score(g.drop_last()) + if g.last().0 is Some {
            run_score(g.last().1) as int
        } else {
            0
        }
    }
}

pub open spec fn runs_score(rs: Seq<(Seq<char>, nat)>) -> int
    decreases rs.len(),
{
    if rs.len() == 0 {
        0
    } else {
        runs_score(rs.drop_last()) + run_score(rs.last().1)
    }
}

pub proof fn lemma_anaphora_total_concat(a: Seq<TellView>, b: Seq<TellView>)
    ensures
        anaphora_weight_total(a + b) == anaphora_weight_total(a) + anaphora_weight_total(b),
    decreases b.len(),
{
    if b.len() == 0 {
        assert(a + b =~= a);
    } else {
        lemma_anaphora_total_concat(a, b.drop_last());
        assert((a + b).drop_last() =~= a + b.drop_last());
        assert((a + b).last() == b.last());
    }
}

pub proof fn lemma_anaphora_total_zero(ts: Seq<TellView>)
    requires
        no_anaphora(ts),
    ensures
        anaphora_weight_total(ts) == 0,
    decreases ts.len(),
{
    if ts.len() > 0 {
        assert(no_anaphora(ts.drop_last())) by {
            assert forall|i: int| 0 <= i < ts.drop_last().len() implies (#[trigger] ts.drop_last()[i]).id
                != TellId::Anaphora by {
                assert(ts.drop_last()[i] == ts[i]);
            }
        }
        lemma_anaphora_total_zero(ts.drop_last());
        assert(ts.last().id != TellId::Anaphora);
    }
}

proof fn lemma_runs_tells_total(rs: Seq<(Seq<char>, nat)>)
    requires
        forall|k: int| 0 <= k < rs.len() ==> (#[trigger] rs[k]).1 <= 0xFFFF_FFFF_FFFF_FFFF,
    ensures
        anaphora_weight_total(rs.map_values(|r: (Seq<char>, nat)| anaphora_tell(r))) == runs_score(rs),
    decreases rs.len(),
{
    if rs.len() > 0 {
        let a = rs.map_values(|r: (Seq<char>, nat)| anaphora_tell(r));
        lemma_runs_tells_total(rs.drop_last());
        assert(a.drop_last() =~= rs.drop_last().map_values(|r: (Seq<char>, nat)| anaphora_tell(r)));
        let l = rs.last().1;
        assert(rs[rs.len() - 1] == rs.last());
        if l >= 3 {
            assert((l - 2) * (l - 2) <= u128::MAX) by (nonlinear_arith)
                requires
                    3 <= l <= 0xFFFF_FFFF_FFFF_FFFF,
            ;
        }
        assert(anaphora_weight_of(a.last()) == run_score(l));
    }
}

proof fn lemma_long_runs_score(g: Seq<(Option<Seq<char>>, nat)>)
    ensures
        runs_score(long_present_runs(g)) == maximal_runs_score(g),
    decreases g.len(),
{
    if g.len() > 0 {
        lemma_long_runs_score(g.drop_last());
        let r = long_present_runs(g.drop_last());
        match g.last().0 {
            Some(o) => {
                if g.last().1 >= 3 {
                    assert(r.push((o, g.last().1)).drop_last() =~= r);
                }
            },
            None => {},
        }
    }
}

proof fn lemma_group_counts_bounded(ops: Seq<Option<Seq<char>>>)
    ensures
        forall|k: int| 0 <= k < group_runs(ops).len() ==> (#[trigger] group_runs(ops)[k]).1 <= ops.len(),
    decreases ops.len(),
{
    if ops.len() > 0 {
        lemma_group_counts_bounded(ops.drop_last());
        let g = group_runs(ops.drop_last());
        assert forall|k: int| 0 <= k < group_runs(ops).len() implies (#[trigger] group_runs(ops)[k]).1
            <= ops.len() by {
            if k < g.len() && !(g.len() > 0 && g.last().0 == ops.last() && k == g.len() - 1) {
                assert(group_runs(ops)[k] == g[k]);
            }
        }
    }
}

proof fn lemma_long_runs_bounded(g: Seq<(Option<Seq<char>>, nat)>, bound: nat)
    requires
        forall|k: int| 0 <= k < g.len() ==> (#[trigger] g[k]).1 <= bound,
    ensures
        forall|k: int| 0 <= k < long_present_runs(g).len() ==> (#[trigger] long_present_runs(g)[k]).1
            <= bound,
    decreases g.len(),
{
    if g.len() > 0 {
        assert forall|k: int| 0 <= k < g.drop_last().len() implies (#[trigger] g.drop_last()[k]).1 <= bound by {
            assert(g.drop_last()[k] == g[k]);
        }
        lemma_long_runs_bounded(g.drop_last(), bound);
        assert(g[g.len() - 1] == g.last());
        let r = long_present_runs(g.drop_last());
        match g.last().0 {
            Some(o) => {
                if g.last().1 >= 3 {
                    let r2 = r.push((o, g.last().1));
                    assert(long_present_runs(g) == r2);
                    assert forall|k: int| 0 <= k < r2.len() implies (#[trigger] r2[k]).1 <= bound by {
                        if k < r.len() {
                            assert(r2[k] == r[k]);
                        }
                    }
                }
            },
            None => {},
        }
    }
}

/// The anaphora weights of the run tells add up, over each maximal run of one
/// present opener, to `(L - 2)^2` for a run of length `L >= 3` (a run that ends
/// the stream counts too). The bound on the number of sentences is the machine's.
pub proof fn lemma_anaphora_weights_sum(m: Seq<MetaView>)
    requires
        m.len() <= 0xFFFF_FFFF_FFFF_FFFF,
    ensures
        anaphora_weight_total(spec_run_tells(m)) == maximal_runs_score(group_runs(openers(m))),
{
    let ops = openers(m);
    let rs = spec_anaphora_runs(ops);
    lemma_anaphora_runs_are_maximal_runs(ops);
    lemma_group_counts_bounded(ops);
    lemma_long_runs_bounded(group_runs(ops), ops.len());
    lemma_runs_tells_total(rs);
    lemma_long_runs_score(group_runs(ops));
    let lst = spec_listicle(firsts(m));
    let a = rs.map_values(|r: (Seq<char>, nat)| anaphora_tell(r));
    let b = spec_countdown(firsts(m)).map_values(|l: nat| countdown_tell(l));
    let c = repeat_tell(self_answered_tell(), spec_self_answered(m));
    let d: Seq<TellView> = if lst > 0 {
        seq![listicle_tell(lst)]
    } else {
        Seq::empty()
    };
    assert(spec_run_tells(m) == a + b + c + d);
    assert(no_anaphora(b));
    assert(no_anaphora(c));
    assert(no_anaphora(d));
    lemma_anaphora_total_zero(b);
    lemma_anaphora_total_zero(c);
    lemma_anaphora_total_zero(d);
    lemma_anaphora_total_concat(a, b);
    lemma_anaphora_total_concat(a + b, c);
    lemma_anaphora_total_concat(a + b + c, d);
}

pub open spec fn run_views(v: Seq<(Vec<char>, usize)>) -> Seq<(Seq<char>, nat)> {
    v.map_values(|r: (Vec<char>, usize)| (r.0@, r.1 as nat))
}

pub open spec fn opt_view(o: Option<Vec<char>>) -> Option<Seq<char>> {
    match o {
        Some(v) => Some(v@),
        None => None,
    }
}

/// Anaphora: consecutive sentences sharing an opener. A run of length `L >= 3`
/// is reported with its opener and length.
pub fn anaphora_runs(metas: &Vec<Meta>) -> (res: Vec<(Vec<char>, usize)>)
    ensures
        run_views(res@) == spec_anaphora_runs(openers(meta_views(metas@))),
        forall|i: int| 0 <= i < res@.len() ==> 3 <= #[trigger] res@[i].1 <= metas@.len(),
{
    let ghost ops = openers(meta_views(metas@));
    let mut runs: Vec<(Vec<char>, usize)> = Vec::new();
    let mut cur: Option<Vec<char>> = None;
    let mut len: usize = 0;
    let mut i: usize = 0;
    while i < metas.len()
        invariant
            i <= metas@.len(),
            ops == openers(meta_views(metas@)),
            run_views(runs@) == ana_fold(ops.take(i as int)).runs,
            opt_view(cur) == ana_fold(ops.take(i as int)).cur,
            len == ana_fold(ops.take(i as int)).len,
            len <= i,
            forall|k: int| 0 <= k < runs@.len() ==> 3 <= #[trigger] runs@[k].1 <= metas@.len(),
        decreases metas.len() - i,
    {
        proof {
            assert(ops.take(i + 1).drop_last() =~= ops.take(i as int));
            assert(ops[i as int] == opt_view(metas@[i as int].opener));
        }
        let same = match (&metas[i].opener, &cur) {
            (Some(o), Some(c)) => crate::text::chars_eq(o.as_slice(), c.as_slice()),
            _ => false,
        };
        if same {
            len = len + 1;
        } else {
            let ghost before = runs@;
            if len >= 3 {
                match cur {
                    Some(c) => {
                        let ghost cv = c@;
                        runs.push((c, len));
                        assert(run_views(runs@) =~= run_views(before).push((cv, len as nat)));
                    },
                    None => {},
                }
            }
            cur = metas[i].opener.clone();
            proof {
                assert(opt_view(cur) == ops[i as int]);
            }
            len = 1;
        }
        i = i + 1;
    }
    proof {
        assert(ops.take(metas@.len() as int) =~= ops);
    }
    let ghost before = runs@;
    if len >= 3 {
        match cur {
            Some(c) => {
                let ghost cv = c@;
                runs.push((c, len));
                assert(run_views(runs@) =~= run_views(before).push((cv, len as nat)));
            },
            None => {},
        }
    }
    runs
}

/// Countdown: a run of two or more "Not ..." sentences closed by "Just/Only ...";
/// each closed run's length, counting the closing sentence.
pub fn countdown(metas: &Vec<Meta>) -> (res: Vec<usize>)
    ensures
        res@.map_values(|l: usize| l as nat) == spec_countdown(firsts(meta_views(metas@))),
{
    let ghost fs = firsts(meta_views(metas@));
    let mut out: Vec<usize> = Vec::new();
    let mut run: usize = 0;
    let mut i: usize = 0;
    while i < metas.len()
        invariant
            i <= metas@.len(),
            fs == firsts(meta_views(metas@)),
            out@.map_values(|l: usize| l as nat) == cd_fold(fs.take(i as int)).out,
            run == cd_fold(fs.take(i as int)).run,
            run <= i,
        decreases metas.len() - i,
    {
        proof {
            assert(fs.take(i + 1).drop_last() =~= fs.take(i as int));
            assert(fs[i as int] == metas@[i as int].first@);
        }
        let f = metas[i].first.as_slice();
        if eq_lit(f, "not") || eq_lit(f, "no") {
            run = run + 1;
        } else if (eq_lit(f, "just") || eq_lit(f, "only")) && run >= 2 {
            let ghost before = out@;
            out.push(run + 1);
            assert(out@.map_values(|l: usize| l as nat) =~= before.map_values(|l: usize| l as nat).push(
                (run + 1) as nat,
            ));
            run = 0;
        } else {
            run = 0;
        }
        i = i + 1;
    }
    proof {
        assert(fs.take(metas@.len() as int) =~= fs);
    }
    out
}

/// Self-answered question: a '?'-terminated sentence immediately followed by a
/// fragment of one to five words. Counts adjacencies.
pub fn self_answered(metas: &Vec<Meta>) -> (res: usize)
    ensures
        res == spec_self_answered(meta_views(metas@)),
{
    let ghost m = meta_views(metas@);
    let n = metas.len();
    let mut count: usize = 0;
    let mut i: usize = 0;
    while i < n
        invariant
            n == metas@.len(),
            m == meta_views(metas@),
            i <= n,
            count == count_sa(m, i as int),
            count <= i,
        decreases n - i,
    {
        if i + 1 < n && metas[i].is_question && metas[i + 1].words >= 1 && metas[i + 1].words <= 5 {
            count = count + 1;
        }
        i = i + 1;
    }
    count
}

fn score_of_run(run: usize) -> (res: u128)
    ensures
        res == run_score(run as nat),
{
    if run >= 3 {
        let r = (run - 2) as u128;
        assert(r * r <= u128::MAX) by (nonlinear_arith)
            requires
                r < 0x1_0000_0000_0000_0000,
        ;
        r * r
    } else {
        0
    }
}

proof fn lemma_run_score_bound(run: nat)
    ensures
        run_score(run) <= run * run,
{
    if run >= 3 {
        assert((run - 2) * (run - 2) <= run * run) by (nonlinear_arith)
            requires
                run >= 3,
        ;
    }
}

/// Listicle-in-prose: consecutive sentences led by ordinals, scored like anaphora.
pub fn listicle(metas: &Vec<Meta>) -> (res: u128)
    ensures
        res == spec_listicle(firsts(meta_views(metas@))),
{
    let ghost fs = firsts(meta_views(metas@));
    let ords = ordinal_list();
    let mut run: usize = 0;
    let mut score: u128 = 0;
    let mut i: usize = 0;
    while i < metas.len()
        invariant
            i <= metas@.len(),
            fs == firsts(meta_views(metas@)),
            views_of_strs(ords@) == ordinals(),
            run == ls_fold(fs.take(i as int)).run,
            score == ls_fold(fs.take(i as int)).score,
            run <= i,
            score + run * run <= i * i,
        decreases metas.len() - i,
    {
        proof {
            assert(fs.take(i + 1).drop_last() =~= fs.take(i as int));
            assert(fs[i as int] == metas@[i as int].first@);
            lemma_run_score_bound(run as nat);
            assert(i * i <= (i + 1) * (i + 1)) by (nonlinear_arith);
            assert(score + (run + 1) * (run + 1) <= (i + 1) * (i + 1)) by (nonlinear_arith)
                requires
                    score + run * run <= i * i,
                    run <= i,
            ;
            assert((i + 1) * (i + 1) <= u128::MAX) by (nonlinear_arith)
                requires
                    i + 1 <= 0xFFFF_FFFF_FFFF_FFFF,
            ;
        }
        if in_list(metas[i].first.as_slice(), &ords) {
            run = run + 1;
        } else {
            score = score + score_of_run(run);
            run = 0;
        }
        i = i + 1;
    }
    proof {
        assert(fs.take(metas@.len() as int) =~= fs);
        lemma_run_score_bound(run as nat);
        assert(i * i <= u128::MAX) by (nonlinear_arith)
            requires
                i <= 0xFFFF_FFFF_FFFF_FFFF,
        ;
    }
    score + score_of_run(run)
}

fn anaphora_excerpt(op: &[char], len: usize) -> (res: Vec<char>)
    ensures
        res@ == decimal(len as nat) + " sentences open with \""@ + op@ + "\""@,
{
    let mut out: Vec<char> = Vec::new();
    push_decimal(len as u64, &mut out);
    push_lit(&mut out, " sentences open with \"");
    push_chars(&mut out, op);
    push_lit(&mut out, "\"");
    assert(out@ =~= decimal(len as nat) + " sentences open with \""@ + op@ + "\""@);
    out
}

fn countdown_excerpt(len: usize) -> (res: Vec<char>)
    ensures
        res@ == decimal(len as nat) + "-part \"Not…/Just…\" countdown"@,
{
    let mut out: Vec<char> = Vec::new();
    push_decimal(len as u64, &mut out);
    push_lit(&mut out, "-part \"Not…/Just…\" countdown");
    assert(out@ =~= decimal(len as nat) + "-part \"Not…/Just…\" countdown"@);
    out
}

/// Appends the cross-sentence run tells of `metas` to `out`.
pub fn run_tells(metas: &Vec<Meta>, out: &mut Vec<Tell>)
    ensures
        tell_views(final(out)@) == tell_views(old(out)@) + spec_run_tells(meta_views(metas@)),
        all_positive(spec_run_tells(meta_views(metas@))),
{
    let ghost m = meta_views(metas@);
    let runs = anaphora_runs(metas);
    let ghost rs = spec_anaphora_runs(openers(m));
    let mut i: usize = 0;
    while i < runs.len()
        invariant
            i <= runs@.len(),
            run_views(runs@) == rs,
            forall|k: int| 0 <= k < runs@.len() ==> 3 <= #[trigger] runs@[k].1,
            tell_views(out@) == tell_views(old(out)@) + rs.take(i as int).map_values(
                |r: (Seq<char>, nat)| anaphora_tell(r),
            ),
        decreases runs.len() - i,
    {
        let len = runs[i].1;
        let excerpt = anaphora_excerpt(runs[i].0.as_slice(), len);
        let w = score_of_run(len);
        let t = new_tell(TellId::Anaphora, excerpt.as_slice(), Weight::Count(w));
        let ghost before = out@;
        out.push(t);
        proof {
            assert(rs[i as int] == (runs@[i as int].0@, len as nat));
            assert(rs.take(i + 1).map_values(|r: (Seq<char>, nat)| anaphora_tell(r)) =~= rs.take(
                i as int,
            ).map_values(|r: (Seq<char>, nat)| anaphora_tell(r)).push(anaphora_tell(rs[i as int])));
            assert(tell_views(out@) =~= tell_views(before).push(t@));
        }
        i = i + 1;
    }
    assert(rs.take(runs@.len() as int) =~= rs);
    let ghost after_ana = tell_views(out@);
    let cds = countdown(metas);
    let ghost cs = spec_countdown(firsts(m));
    let mut j: usize = 0;
    while j < cds.len()
        invariant
            j <= cds@.len(),
            cds@.map_values(|l: usize| l as nat) == cs,
            tell_views(out@) == after_ana + cs.take(j as int).map_values(|l: nat| countdown_tell(l)),
        decreases cds.len() - j,
    {
        let excerpt = countdown_excerpt(cds[j]);
        let t = new_tell(TellId::Countdown, excerpt.as_slice(), Weight::Tenths(13));
        let ghost before = out@;
        out.push(t);
        proof {
            assert(cs[j as int] == cds@[j as int] as nat);
            assert(cs.take(j + 1).map_values(|l: nat| countdown_tell(l)) =~= cs.take(j as int).map_values(
                |l: nat| countdown_tell(l),
            ).push(countdown_tell(cs[j as int])));
            assert(tell_views(out@) =~= tell_views(before).push(t@));
        }
        j = j + 1;
    }
    assert(cs.take(cds@.len() as int) =~= cs);
    let ghost after_cd = tell_views(out@);
    let sa = self_answered(metas);
    let sa_text = crate::text::chars_of("rhetorical question answered by a fragment");
    let mut k: usize = 0;
    while k < sa
        invariant
            k <= sa,
            sa_text@ == "rhetorical question answered by a fragment"@,
            tell_views(out@) == after_cd + repeat_tell(self_answered_tell(), k as nat),
        decreases sa - k,
    {
        let t = new_tell(TellId::SelfAnsweredQuestion, sa_text.as_slice(), Weight::Tenths(10));
        let ghost before = out@;
        out.push(t);
        k = k + 1;
        assert(tell_views(out@) =~= tell_views(before).push(t@));
        assert(tell_views(out@) =~= after_cd + repeat_tell(self_answered_tell(), k as nat));
    }
    let lst = listicle(metas);
    if lst > 0 {
        let text = crate::text::chars_of("ordinal-led sentence run");
        let t = new_tell(TellId::Listicle, text.as_slice(), Weight::Count(lst));
        let ghost before = out@;
        out.push(t);
        assert(tell_views(out@) =~= tell_views(before).push(t@));
    }
    proof {
        assert(tell_views(out@) =~= tell_views(old(out)@) + spec_run_tells(m));
        assert forall|q: int| 0 <= q < rs.len() implies 3 <= #[trigger] rs[q].1 <= 0xFFFF_FFFF_FFFF_FFFF by {
            assert(rs[q] == (runs@[q].0@, runs@[q].1 as nat));
        }
        lemma_run_tells_positive(m);
    }
}

} // verus!
