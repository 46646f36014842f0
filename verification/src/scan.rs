//! Whole-document prose scanning: the lexical layer, the per-sentence equations
//! (in sentence order), the cross-sentence runs, and the shape tells, plus the
//! chunked form whose result is the same for every chunk count.
use vstd::prelude::*;
use crate::lexical::{lexical, spec_lexical};
use crate::runs::{run_tells, spec_run_tells};
use crate::sentence::{meta_views, scan_sentence, sentences, spec_sentence_meta, spec_sentence_tells, spec_sentences, Meta, MetaView};
use crate::shape::{shape, spec_shape};
use crate::lexical::lemma_lexical_positive;
use crate::sentence::lemma_sentence_tells_positive;
use crate::lexical::lemma_lexical_no_anaphora;
use crate::runs::{anaphora_weight_total, group_runs, lemma_anaphora_total_concat, lemma_anaphora_total_zero, lemma_anaphora_weights_sum, maximal_runs_score, openers};
use crate::shape::{bold_tells, punchy_tells};
use crate::tell::{all_positive, lemma_no_anaphora_concat, lemma_positive_concat, no_anaphora, tell_views, Tell, TellView};
use crate::text::{chars_of, views};

verus! {

/// The sentence-local tells of a run of sentences, in sentence order.
pub open spec fn all_sentence_tells(ss: Seq<Seq<char>>) -> Seq<TellView>
    decreases ss.len(),
{
    if ss.len() == 0 {
        Seq::empty()
    } else {
        all_sentence_tells(ss.drop_last()) + spec_sentence_tells(ss.last())
    }
}

/// The signals of a run of sentences, in sentence order.
pub open spec fn all_metas(ss: Seq<Seq<char>>) -> Seq<MetaView> {
    ss.map_values(|s: Seq<char>| spec_sentence_meta(s))
}

/// The document result from its per-sentence tells and signals, in the one order
/// every scan produces: lexical, per-sentence, run, shape.
pub open spec fn spec_assemble(text: Seq<char>, per: Seq<TellView>, metas: Seq<MetaView>) -> Seq<
    TellView,
> {
    spec_lexical(text) + per + spec_run_tells(metas) + spec_shape(text)
}

/// Every detectable tell of a plain-text document.
pub open spec fn spec_scan_prose(text: Seq<char>) -> Seq<TellView> {
    let ss = spec_sentences(text);
    spec_assemble(text, all_sentence_tells(ss), all_metas(ss))
}

/// A scanned run of sentences: their sentence-local tells and their signals.
pub struct ChunkScan {
    pub tells: Vec<Tell>,
    pub metas: Vec<Meta>,
}

/// Scanning splits over concatenation: the sentence-local tells of `a + b` are
/// those of `a` followed by those of `b`, and likewise the signals. Scanning
/// sentences chunk by chunk and joining the chunk results in chunk order therefore
/// gives the result of scanning them all at once.
pub proof fn lemma_scan_splits(a: Seq<Seq<char>>, b: Seq<Seq<char>>)
    ensures
        all_sentence_tells(a + b) == all_sentence_tells(a) + all_sentence_tells(b),
        all_metas(a + b) == all_metas(a) + all_metas(b),
    decreases b.len(),
{
    if b.len() == 0 {
        assert(a + b =~= a);
        assert(all_sentence_tells(a) + all_sentence_tells(b) =~= all_sentence_tells(a));
    } else {
        lemma_scan_splits(a, b.drop_last());
        assert((a + b).drop_last() =~= a + b.drop_last());
        assert((a + b).last() == b.last());
        assert(all_sentence_tells(a + b) =~= all_sentence_tells(a) + all_sentence_tells(b));
    }
    assert(all_metas(a + b) =~= all_metas(a) + all_metas(b));
}

/// Every sentence-local tell of a run of sentences carries a positive weight.
pub proof fn lemma_all_sentence_tells_positive(ss: Seq<Seq<char>>)
    ensures
        all_positive(all_sentence_tells(ss)),
    decreases ss.len(),
{
    if ss.len() > 0 {
        lemma_all_sentence_tells_positive(ss.drop_last());
        lemma_sentence_tells_positive(ss.last());
        lemma_positive_concat(all_sentence_tells(ss.drop_last()), spec_sentence_tells(ss.last()));
    }
}

proof fn lemma_all_sentence_tells_no_anaphora(ss: Seq<Seq<char>>)
    ensures
        no_anaphora(all_sentence_tells(ss)),
    decreases ss.len(),
{
    if ss.len() > 0 {
        lemma_all_sentence_tells_no_anaphora(ss.drop_last());
        let t = spec_sentence_tells(ss.last());
        assert forall|i: int| 0 <= i < t.len() implies (#[trigger] t[i]).id != crate::tell::TellId::Anaphora by {
            crate::sentence::lemma_sentence_tells_ids(ss.last(), i);
        }
        lemma_no_anaphora_concat(all_sentence_tells(ss.drop_last()), t);
    }
}

/// In a whole-document result, the anaphora weights come from the run tells alone.
proof fn lemma_assembled_anaphora_total(text: Seq<char>, per: Seq<TellView>, metas: Seq<MetaView>)
    requires
        no_anaphora(per),
        metas.len() <= 0xFFFF_FFFF_FFFF_FFFF,
    ensures
        anaphora_weight_total(spec_assemble(text, per, metas)) == maximal_runs_score(
            group_runs(openers(metas)),
        ),
{
    lemma_lexical_no_anaphora(text);
    crate::shape::lemma_shape_no_anaphora(text);
    lemma_anaphora_weights_sum(metas);
    lemma_anaphora_total_zero(spec_lexical(text));
    lemma_anaphora_total_zero(per);
    lemma_anaphora_total_zero(spec_shape(text));
    lemma_anaphora_total_concat(spec_lexical(text), per);
    lemma_anaphora_total_concat(spec_lexical(text) + per, spec_run_tells(metas));
    lemma_anaphora_total_concat(spec_lexical(text) + per + spec_run_tells(metas), spec_shape(text));
}

/// The sentences of a prose text, in order.
pub fn prose_sentences(text: &str) -> (res: Vec<Vec<char>>)
    ensures
        views(res@) == spec_sentences(text@),
{
    let t = chars_of(text);
    sentences(t.as_slice())
}

/// The number of sentences of a prose text.
pub fn sentence_count(text: &str) -> (res: usize)
    ensures
        res == spec_sentences(text@).len(),
{
    prose_sentences(text).len()
}

/// Scans the sentences `sents[from..to]`.
pub fn scan_sentence_range(sents: &Vec<Vec<char>>, from: usize, to: usize) -> (res: ChunkScan)
    requires
        from <= to <= sents@.len(),
    ensures
        tell_views(res.tells@) == all_sentence_tells(views(sents@).subrange(from as int, to as int)),
        meta_views(res.metas@) == all_metas(views(sents@).subrange(from as int, to as int)),
{
    let ghost ss = views(sents@);
    let mut tells: Vec<Tell> = Vec::new();
    let mut metas: Vec<Meta> = Vec::new();
    let mut i: usize = from;
    while i < to
        invariant
            from <= i <= to <= sents@.len(),
            ss == views(sents@),
            tell_views(tells@) == all_sentence_tells(ss.subrange(from as int, i as int)),
            meta_views(metas@) == all_metas(ss.subrange(from as int, i as int)),
        decreases to - i,
    {
        proof {
            assert(ss.subrange(from as int, i + 1).drop_last() =~= ss.subrange(from as int, i as int));
            assert(ss[i as int] == sents@[i as int]@);
        }
        let ghost before = metas@;
        let m = scan_sentence(sents[i].as_slice(), &mut tells);
        metas.push(m);
        proof {
            assert(meta_views(metas@) =~= meta_views(before).push(m@));
            assert(all_metas(ss.subrange(from as int, i + 1)) =~= all_metas(
                ss.subrange(from as int, i as int),
            ).push(spec_sentence_meta(ss[i as int])));
        }
        i = i + 1;
    }
    ChunkScan { tells, metas }
}

/// The scanned chunks joined in order: their tells and their signals.
pub open spec fn joined_tells(parts: Seq<ChunkScan>) -> Seq<TellView>
    decreases parts.len(),
{
    if parts.len() == 0 {
        Seq::empty()
    } else {
        joined_tells(parts.drop_last()) + tell_views(parts.last().tells@)
    }
}

pub open spec fn joined_metas(parts: Seq<ChunkScan>) -> Seq<MetaView>
    decreases parts.len(),
{
    if parts.len() == 0 {
        Seq::empty()
    } else {
        joined_metas(parts.drop_last()) + meta_views(parts.last().metas@)
    }
}

fn assemble(text: &[char], per: Vec<Tell>, metas: &Vec<Meta>) -> (res: Vec<Tell>)
    ensures
        tell_views(res@) == spec_assemble(text@, tell_views(per@), meta_views(metas@)),
        all_positive(tell_views(per@)) ==> all_positive(tell_views(res@)),
{
    let mut out: Vec<Tell> = Vec::new();
    lexical(text, &mut out);
    let mut per = per;
    let ghost per_v = tell_views(per@);
    let ghost before = out@;
    out.append(&mut per);
    assert(tell_views(out@) =~= tell_views(before) + per_v);
    run_tells(metas, &mut out);
    shape(text, &mut out);
    assert(tell_views(out@) =~= spec_assemble(text@, per_v, meta_views(metas@)));
    proof {
        if all_positive(per_v) {
            lemma_lexical_positive(text@);
            lemma_positive_concat(spec_lexical(text@), per_v);
            lemma_positive_concat(spec_lexical(text@) + per_v, spec_run_tells(meta_views(metas@)));
            lemma_positive_concat(
                spec_lexical(text@) + per_v + spec_run_tells(meta_views(metas@)),
                spec_shape(text@),
            );
        }
    }
    out
}

/// Joins scanned sentence chunks, in the order given, into the document result.
pub fn assemble_chunks(text: &str, parts: Vec<ChunkScan>) -> (res: Vec<Tell>)
    ensures
        tell_views(res@) == spec_assemble(text@, joined_tells(parts@), joined_metas(parts@)),
{
    let t = chars_of(text);
    let ghost all = parts@;
    let mut per: Vec<Tell> = Vec::new();
    let mut metas: Vec<Meta> = Vec::new();
    for p in it: parts
        invariant
            it.seq() == all,
            tell_views(per@) == joined_tells(all.take(it.index())),
            meta_views(metas@) == joined_metas(all.take(it.index())),
    {
        let ghost k = it.index();
        let mut p = p;
        proof {
            assert(all.take(k + 1).drop_last() =~= all.take(k));
            assert(all.take(k + 1).last() == p);
        }
        let ghost per_before = per@;
        let ghost metas_before = metas@;
        let ghost pt = p.tells@;
        let ghost pm = p.metas@;
        per.append(&mut p.tells);
        metas.append(&mut p.metas);
        proof {
            assert(tell_views(per@) =~= tell_views(per_before) + tell_views(pt));
            assert(meta_views(metas@) =~= meta_views(metas_before) + meta_views(pm));
        }
    }
    assert(all.take(all.len() as int) =~= all);
    assemble(t.as_slice(), per, &metas)
}

/// Scan prose for every detectable tell (lexical and structural).
pub fn scan_prose(text: &str) -> (res: Vec<Tell>)
    ensures
        tell_views(res@) == spec_scan_prose(text@),
        all_positive(tell_views(res@)),
        anaphora_weight_total(tell_views(res@)) == maximal_runs_score(
            group_runs(openers(all_metas(spec_sentences(text@)))),
        ),
{
    let t = chars_of(text);
    let sents = sentences(t.as_slice());
    let part = scan_sentence_range(&sents, 0, sents.len());
    assert(views(sents@).subrange(0, sents@.len() as int) =~= views(sents@));
    proof {
        lemma_all_sentence_tells_positive(views(sents@));
        lemma_all_sentence_tells_no_anaphora(views(sents@));
        lemma_assembled_anaphora_total(
            text@,
            all_sentence_tells(views(sents@)),
            all_metas(views(sents@)),
        );
    }
    assemble(t.as_slice(), part.tells, &part.metas)
}

/// Below this sentence count a parallel scan stays sequential: splitting work
/// is not worth it for short documents and titles.
pub const PARALLEL_THRESHOLD: usize = 64;

/// `rs` splits `0..n` into consecutive non-empty ranges, in order.
pub open spec fn ranges_partition(rs: Seq<(usize, usize)>, n: nat) -> bool {
    &&& n == 0 ==> rs.len() == 0
    &&& n > 0 ==> rs.len() > 0 && rs[0].0 == 0 && rs.last().1 == n
    &&& forall|i: int| 0 <= i < rs.len() ==> (#[trigger] rs[i]).0 < rs[i].1
    &&& forall|i: int| 0 <= i < rs.len() - 1 ==> (#[trigger] rs[i]).1 == rs[i + 1].0
}

/// Contiguous chunks of `n` sentences for `k` workers: `k` is clamped to
/// `1..=n`, and every chunk but the last holds `ceil(n / k)` sentences.
pub fn chunk_ranges(n: usize, k: usize) -> (res: Vec<(usize, usize)>)
    ensures
        ranges_partition(res@, n as nat),
        res@.len() <= k || res@.len() <= 1,
{
    let mut res: Vec<(usize, usize)> = Vec::new();
    if n == 0 {
        return res;
    }
    let kk = if k < 1 {
        1
    } else if k > n {
        n
    } else {
        k
    };
    assert(n / kk >= 1) by (nonlinear_arith)
        requires
            1 <= kk <= n,
    ;
    assert(n / kk <= n) by (nonlinear_arith)
        requires
            1 <= kk,
            0 <= n,
    ;
    if n % kk != 0 {
        assert(kk != 1) by {
            if kk == 1 {
                assert(n % 1 == 0) by (nonlinear_arith);
            }
        }
        assert(n / kk < n) by (nonlinear_arith)
            requires
                2 <= kk,
                1 <= n,
        ;
    }
    let chunk = if n % kk != 0 {
        n / kk + 1
    } else {
        n / kk
    };
    assert(chunk * kk >= n && chunk >= 1) by (nonlinear_arith)
        requires
            1 <= kk <= n,
            n % kk != 0 ==> chunk == n / kk + 1,
            n % kk == 0 ==> chunk == n / kk,
    ;
    let mut start: usize = 0;
    while start < n
        invariant
            1 <= kk <= n,
            chunk >= 1,
            chunk * kk >= n,
            start <= n,
            start == res@.len() * chunk || start == n,
            res@.len() <= kk,
            res@.len() == 0 ==> start == 0,
            res@.len() > 0 ==> res@[0].0 == 0 && res@.last().1 == start,
            forall|i: int| 0 <= i < res@.len() ==> (#[trigger] res@[i]).0 < res@[i].1,
            forall|i: int| 0 <= i < res@.len() - 1 ==> (#[trigger] res@[i]).1 == res@[i + 1].0,
        decreases n - start,
    {
        let ghost len = res@.len();
        assert(len < kk) by (nonlinear_arith)
            requires
                start == len * chunk,
                start < n,
                chunk * kk >= n,
                chunk >= 1,
        ;
        let end = if n - start > chunk {
            start + chunk
        } else {
            n
        };
        let ghost before = res@;
        res.push((start, end));
        proof {
            assert(res@[len as int] == (start, end));
            assert forall|i: int| 0 <= i < res@.len() - 1 implies (#[trigger] res@[i]).1 == res@[i + 1].0 by {
                if i < len - 1 {
                    assert(res@[i] == before[i]);
                    assert(res@[i + 1] == before[i + 1]);
                } else {
                    assert(res@[i] == before.last());
                }
            }
            assert forall|i: int| 0 <= i < res@.len() implies (#[trigger] res@[i]).0 < res@[i].1 by {
                if i < len {
                    assert(res@[i] == before[i]);
                }
            }
            if end != n {
                assert(end == (len + 1) * chunk) by (nonlinear_arith)
                    requires
                        start == len * chunk,
                        end == start + chunk,
                ;
            }
        }
        start = end;
    }
    res
}

/// `scan_prose` computed in up to `k` contiguous sentence chunks, each scanned on
/// its own and joined in chunk order; for every `k` the result equals
/// `scan_prose(text)`.
pub fn scan_chunked(text: &str, k: usize) -> (res: Vec<Tell>)
    ensures
        tell_views(res@) == spec_scan_prose(text@),
        all_positive(tell_views(res@)),
        anaphora_weight_total(tell_views(res@)) == maximal_runs_score(
            group_runs(openers(all_metas(spec_sentences(text@)))),
        ),
{
    let t = chars_of(text);
    let sents = sentences(t.as_slice());
    let n = sents.len();
    let ranges = chunk_ranges(n, k);
    let ghost ss = views(sents@);
    let mut per: Vec<Tell> = Vec::new();
    let mut metas: Vec<Meta> = Vec::new();
    let mut i: usize = 0;
    let mut start: usize = 0;
    while i < ranges.len()
        invariant
            n == sents@.len(),
            ss == views(sents@),
            ranges_partition(ranges@, n as nat),
            i <= ranges@.len(),
            i == 0 ==> start == 0,
            i > 0 ==> start == ranges@[i - 1].1,
            start <= n,
            tell_views(per@) == all_sentence_tells(ss.take(start as int)),
            meta_views(metas@) == all_metas(ss.take(start as int)),
        decreases ranges.len() - i,
    {
        let (from, to) = ranges[i];
        proof {
            if i > 0 {
                assert(ranges@[i - 1].1 == ranges@[i as int].0);
            }
            assert(from == start);
            if i + 1 < ranges@.len() {
                assert(ranges@[i as int].1 == ranges@[i + 1].0);
                assert(ranges@[i + 1].0 < ranges@[i + 1].1);
                lemma_ranges_below(ranges@, n as nat, i + 1);
            }
        }
        let mut part = scan_sentence_range(&sents, from, to);
        let ghost pt = part.tells@;
        let ghost pm = part.metas@;
        let ghost per_before = per@;
        let ghost metas_before = metas@;
        per.append(&mut part.tells);
        metas.append(&mut part.metas);
        proof {
            lemma_scan_splits(ss.take(from as int), ss.subrange(from as int, to as int));
            assert(ss.take(from as int) + ss.subrange(from as int, to as int) =~= ss.take(to as int));
            assert(tell_views(per@) =~= tell_views(per_before) + tell_views(pt));
            assert(meta_views(metas@) =~= meta_views(metas_before) + meta_views(pm));
        }
        start = to;
        i = i + 1;
    }
    proof {
        if n > 0 {
            assert(start == n);
        }
        assert(ss.take(start as int) =~= ss);
        lemma_all_sentence_tells_positive(ss);
        lemma_all_sentence_tells_no_anaphora(ss);
        lemma_assembled_anaphora_total(text@, all_sentence_tells(ss), all_metas(ss));
    }
    assemble(t.as_slice(), per, &metas)
}

proof fn lemma_joined_prefix(
    ss: Seq<Seq<char>>,
    parts: Seq<ChunkScan>,
    ranges: Seq<(usize, usize)>,
    k: int,
)
    requires
        ranges_partition(ranges, ss.len()),
        parts.len() == ranges.len(),
        forall|i: int|
            0 <= i < parts.len() ==> tell_views((#[trigger] parts[i]).tells@) == all_sentence_tells(
                ss.subrange(ranges[i].0 as int, ranges[i].1 as int),
            ) && meta_views(parts[i].metas@) == all_metas(
                ss.subrange(ranges[i].0 as int, ranges[i].1 as int),
            ),
        0 <= k <= parts.len(),
    ensures
        ({
            let end = if k == 0 {
                0
            } else {
                ranges[k - 1].1 as int
            };
            &&& end <= ss.len()
            &&& joined_tells(parts.take(k)) == all_sentence_tells(ss.take(end))
            &&& joined_metas(parts.take(k)) == all_metas(ss.take(end))
        }),
    decreases k,
{
    if k == 0 {
        assert(parts.take(0) =~= Seq::<ChunkScan>::empty());
        assert(ss.take(0) =~= Seq::<Seq<char>>::empty());
        assert(all_metas(ss.take(0)) =~= Seq::<MetaView>::empty());
    } else {
        lemma_joined_prefix(ss, parts, ranges, k - 1);
        let start = if k - 1 == 0 {
            0
        } else {
            ranges[k - 2].1 as int
        };
        let end = ranges[k - 1].1 as int;
        if k - 1 > 0 {
            assert(ranges[k - 2].1 == ranges[k - 1].0);
        } else {
            assert(ranges[0].0 == 0);
        }
        lemma_ranges_below(ranges, ss.len(), k - 1);
        assert(ranges[k - 1].0 < ranges[k - 1].1);
        assert(parts.take(k).drop_last() =~= parts.take(k - 1));
        assert(parts.take(k).last() == parts[k - 1]);
        lemma_scan_splits(ss.take(start), ss.subrange(start, end));
        assert(ss.take(start) + ss.subrange(start, end) =~= ss.take(end));
    }
}

/// Joining, in order, the scans of consecutive chunks that partition a run of
/// sentences gives the scan of the whole run; so when the sentences are the
/// text's, `assemble_chunks` over those scans returns exactly `scan_prose(text)`.
/// This is the composition that a parallel scan runs, one chunk per worker.
pub proof fn lemma_chunk_scans_assemble(
    text: Seq<char>,
    ss: Seq<Seq<char>>,
    parts: Seq<ChunkScan>,
    ranges: Seq<(usize, usize)>,
)
    requires
        ranges_partition(ranges, ss.len()),
        parts.len() == ranges.len(),
        forall|i: int|
            0 <= i < parts.len() ==> tell_views((#[trigger] parts[i]).tells@) == all_sentence_tells(
                ss.subrange(ranges[i].0 as int, ranges[i].1 as int),
            ) && meta_views(parts[i].metas@) == all_metas(
                ss.subrange(ranges[i].0 as int, ranges[i].1 as int),
            ),
    ensures
        joined_tells(parts) == all_sentence_tells(ss),
        joined_metas(parts) == all_metas(ss),
        ss == spec_sentences(text) ==> spec_assemble(text, joined_tells(parts), joined_metas(parts))
            == spec_scan_prose(text),
{
    lemma_joined_prefix(ss, parts, ranges, parts.len() as int);
    assert(parts.take(parts.len() as int) =~= parts);
    if ss.len() > 0 {
        assert(ranges.last() == ranges[ranges.len() - 1]);
        assert(ss.take(ss.len() as int) =~= ss);
    } else {
        assert(ss.take(0) =~= ss);
    }
}

proof fn lemma_ranges_below(rs: Seq<(usize, usize)>, n: nat, j: int)
    requires
        ranges_partition(rs, n),
        0 <= j < rs.len(),
    ensures
        rs[j].1 <= n,
    decreases rs.len() - j,
{
    if j < rs.len() - 1 {
        assert(rs[j].1 == rs[j + 1].0);
        assert(rs[j + 1].0 < rs[j + 1].1);
        lemma_ranges_below(rs, n, j + 1);
    }
}

} // verus!
