//! The detected-tell record: which trope fired, where it came from, the matched
//! text, and its severity weight as an exact quantity.
use vstd::prelude::*;

verus! {

/// Where a tell came from: a fixed phrase, or a structural equation.
#[derive(Clone, Copy, PartialEq, Eq, Debug, Structural)]
pub enum Kind {
    /// A phrase or character matched verbatim from the phrase corpus.
    Lexical,
    /// A windowed heuristic with an equation (negative parallelism, tricolon, ...).
    Structured,
}

/// The stable trope identifiers.
#[derive(Clone, Copy, PartialEq, Eq, Debug, Structural)]
pub enum TellId {
    AiDiction,
    MagicAdverb,
    ServesAs,
    FillerTransition,
    SignpostedConclusion,
    PedagogicalHook,
    Decoration,
    NegativeParallelism,
    Tricolon,
    IngTail,
    FalseRange,
    Anaphora,
    Countdown,
    SelfAnsweredQuestion,
    Listicle,
    PunchyFragments,
    BoldFirstBullets,
}

/// A severity weight, kept exact: a multiple of one tenth, a whole count, or a
/// ratio of two counts scaled by a factor in tenths.
#[derive(Clone, Copy, PartialEq, Eq, Debug, Structural)]
pub enum Weight {
    Tenths(u32),
    Count(u128),
    Ratio { num: u64, den: u64, factor_tenths: u32 },
}

/// One detected tell.
pub struct Tell {
    pub id: TellId,
    pub kind: Kind,
    /// The matched text (a phrase, or the offending sentence or run).
    pub excerpt: String,
    /// Severity weight; larger contributes more to the document score.
    pub weight: Weight,
}

/// A tell as a mathematical value.
pub struct TellView {
    pub id: TellId,
    pub kind: Kind,
    pub excerpt: Seq<char>,
    pub weight: Weight,
}

impl View for Tell {
    type V = TellView;

    open spec fn view(&self) -> TellView {
        TellView { id: self.id, kind: self.kind, excerpt: self.excerpt@, weight: self.weight }
    }
}

/// The tells of a vector, as values.
pub open spec fn tell_views(v: Seq<Tell>) -> Seq<TellView> {
    v.map_values(|t: Tell| t@)
}

/// The lexical ids are the phrase-corpus entries; all others are structural.
pub open spec fn spec_kind_of(id: TellId) -> Kind {
    match id {
        TellId::AiDiction | TellId::MagicAdverb | TellId::ServesAs | TellId::FillerTransition
        | TellId::SignpostedConclusion | TellId::PedagogicalHook | TellId::Decoration => Kind::Lexical,
        _ => Kind::Structured,
    }
}

/// The tell with the given id, excerpt and weight (its kind follows from the id).
pub open spec fn mk_tell(id: TellId, excerpt: Seq<char>, weight: Weight) -> TellView {
    TellView { id, kind: spec_kind_of(id), excerpt, weight }
}

/// The exact value of a weight.
pub open spec fn weight_num(w: Weight) -> int {
    match w {
        Weight::Tenths(t) => t as int,
        Weight::Count(n) => 10 * n,
        Weight::Ratio { num, den, factor_tenths } => num * factor_tenths,
    }
}

pub open spec fn weight_den(w: Weight) -> int {
    match w {
        Weight::Tenths(_) => 10,
        Weight::Count(_) => 10,
        Weight::Ratio { den, .. } => 10 * den,
    }
}

/// The weight is strictly positive.
pub open spec fn weight_positive(w: Weight) -> bool {
    weight_num(w) > 0 && weight_den(w) > 0
}

/// Every tell of the sequence carries a strictly positive weight.
pub open spec fn all_positive(ts: Seq<TellView>) -> bool {
    forall|i: int| 0 <= i < ts.len() ==> weight_positive(#[trigger] ts[i].weight)
}

pub proof fn lemma_positive_concat(a: Seq<TellView>, b: Seq<TellView>)
    requires
        all_positive(a),
        all_positive(b),
    ensures
        all_positive(a + b),
{
    assert forall|i: int| 0 <= i < (a + b).len() implies weight_positive(#[trigger] (a + b)[i].weight) by {
        if i < a.len() {
            assert((a + b)[i] == a[i]);
        } else {
            assert((a + b)[i] == b[i - a.len()]);
        }
    }
}

/// The kebab-case text of a trope id.
pub open spec fn id_text(id: TellId) -> Seq<char> {
    match id {
        TellId::AiDiction => "ai-diction"@,
        TellId::MagicAdverb => "magic-adverb"@,
        TellId::ServesAs => "serves-as"@,
        TellId::FillerTransition => "filler-transition"@,
        TellId::SignpostedConclusion => "signposted-conclusion"@,
        TellId::PedagogicalHook => "pedagogical-hook"@,
        TellId::Decoration => "decoration"@,
        TellId::NegativeParallelism => "negative-parallelism"@,
        TellId::Tricolon => "tricolon"@,
        TellId::IngTail => "ing-tail"@,
        TellId::FalseRange => "false-range"@,
        TellId::Anaphora => "anaphora"@,
        TellId::Countdown => "countdown"@,
        TellId::SelfAnsweredQuestion => "self-answered-question"@,
        TellId::Listicle => "listicle"@,
        TellId::PunchyFragments => "punchy-fragments"@,
        TellId::BoldFirstBullets => "bold-first-bullets"@,
    }
}

/// The citation of a trope: catalog name plus rhetoric term where one exists.
pub open spec fn cite_text(id: TellId) -> Seq<char> {
    match id {
        TellId::AiDiction => "tropes.fyi: AI vocabulary"@,
        TellId::MagicAdverb => "tropes.fyi: intensifier inflation"@,
        TellId::ServesAs => "tropes.fyi: copula dodge"@,
        TellId::FillerTransition => "tropes.fyi: empty signpost"@,
        TellId::SignpostedConclusion => "tropes.fyi: signposted conclusion"@,
        TellId::PedagogicalHook => "tropes.fyi: false suspense / pedagogical hook"@,
        TellId::Decoration => "tropes.fyi: typographic polish"@,
        TellId::NegativeParallelism => "tropes.fyi: negative parallelism (antithesis)"@,
        TellId::Tricolon => "tropes.fyi: tricolon (classical rhetoric)"@,
        TellId::IngTail => "tropes.fyi: participial tail"@,
        TellId::FalseRange => "tropes.fyi: false range / spectrum"@,
        TellId::Anaphora => "tropes.fyi: anaphora (classical rhetoric)"@,
        TellId::Countdown => "tropes.fyi: countdown / triadic close"@,
        TellId::SelfAnsweredQuestion => "tropes.fyi: self-answered question (hypophora)"@,
        TellId::Listicle => "tropes.fyi: listicle-in-prose"@,
        TellId::PunchyFragments => "tropes.fyi: staccato paragraphs"@,
        TellId::BoldFirstBullets => "tropes.fyi: bold-lead bullets"@,
    }
}

/// No tell of the sequence is an anaphora tell.
pub open spec fn no_anaphora(ts: Seq<TellView>) -> bool {
    forall|i: int| 0 <= i < ts.len() ==> (#[trigger] ts[i]).id != TellId::Anaphora
}

pub proof fn lemma_no_anaphora_concat(a: Seq<TellView>, b: Seq<TellView>)
    requires
        no_anaphora(a),
        no_anaphora(b),
    ensures
        no_anaphora(a + b),
{
    assert forall|i: int| 0 <= i < (a + b).len() implies (#[trigger] (a + b)[i]).id != TellId::Anaphora by {
        if i < a.len() {
            assert((a + b)[i] == a[i]);
        } else {
            assert((a + b)[i] == b[i - a.len()]);
        }
    }
}

impl TellId {
    pub fn kind(&self) -> (res: Kind)
        ensures
            res == spec_kind_of(*self),
    {
        match self {
            TellId::AiDiction | TellId::MagicAdverb | TellId::ServesAs | TellId::FillerTransition
            | TellId::SignpostedConclusion | TellId::PedagogicalHook | TellId::Decoration => Kind::Lexical,
            _ => Kind::Structured,
        }
    }

    /// The kebab-case trope id.
    pub fn as_str(&self) -> (res: &'static str)
        ensures
            res@ == id_text(*self),
    {
        match self {
            TellId::AiDiction => "ai-diction",
            TellId::MagicAdverb => "magic-adverb",
            TellId::ServesAs => "serves-as",
            TellId::FillerTransition => "filler-transition",
            TellId::SignpostedConclusion => "signposted-conclusion",
            TellId::PedagogicalHook => "pedagogical-hook",
            TellId::Decoration => "decoration",
            TellId::NegativeParallelism => "negative-parallelism",
            TellId::Tricolon => "tricolon",
            TellId::IngTail => "ing-tail",
            TellId::FalseRange => "false-range",
            TellId::Anaphora => "anaphora",
            TellId::Countdown => "countdown",
            TellId::SelfAnsweredQuestion => "self-answered-question",
            TellId::Listicle => "listicle",
            TellId::PunchyFragments => "punchy-fragments",
            TellId::BoldFirstBullets => "bold-first-bullets",
        }
    }

    /// Citation: catalog name plus rhetoric term where one exists.
    pub fn cite(&self) -> (res: &'static str)
        ensures
            res@ == cite_text(*self),
    {
        match self {
            TellId::AiDiction => "tropes.fyi: AI vocabulary",
            TellId::MagicAdverb => "tropes.fyi: intensifier inflation",
            TellId::ServesAs => "tropes.fyi: copula dodge",
            TellId::FillerTransition => "tropes.fyi: empty signpost",
            TellId::SignpostedConclusion => "tropes.fyi: signposted conclusion",
            TellId::PedagogicalHook => "tropes.fyi: false suspense / pedagogical hook",
            TellId::Decoration => "tropes.fyi: typographic polish",
            TellId::NegativeParallelism => "tropes.fyi: negative parallelism (antithesis)",
            TellId::Tricolon => "tropes.fyi: tricolon (classical rhetoric)",
            TellId::IngTail => "tropes.fyi: participial tail",
            TellId::FalseRange => "tropes.fyi: false range / spectrum",
            TellId::Anaphora => "tropes.fyi: anaphora (classical rhetoric)",
            TellId::Countdown => "tropes.fyi: countdown / triadic close",
            TellId::SelfAnsweredQuestion => "tropes.fyi: self-answered question (hypophora)",
            TellId::Listicle => "tropes.fyi: listicle-in-prose",
            TellId::PunchyFragments => "tropes.fyi: staccato paragraphs",
            TellId::BoldFirstBullets => "tropes.fyi: bold-lead bullets",
        }
    }
}

impl Tell {
    /// The kebab-case trope id of this tell.
    pub fn id_str(&self) -> (res: &'static str)
        ensures
            res@ == id_text(self.id),
    {
        self.id.as_str()
    }

    /// The citation of this tell.
    pub fn cite(&self) -> (res: &'static str)
        ensures
            res@ == cite_text(self.id),
    {
        self.id.cite()
    }
}

/// Builds a tell from its id, excerpt characters and weight.
pub(crate) fn new_tell(id: TellId, excerpt: &[char], weight: Weight) -> (res: Tell)
    ensures
        res@ == mk_tell(id, excerpt@, weight),
{
    Tell { id, kind: id.kind(), excerpt: crate::ext::string_from_chars(excerpt), weight }
}

} // verus!
