//! The fixed vocabularies: the lexical phrase corpus (lowercase signal phrases
//! per trope, with weights) and the word lists of the structural equations.
use vstd::prelude::*;
use crate::tell::TellId;
use crate::text::views_of_strs;

verus! {

/// The lexical tropes, in scanning order.
pub open spec fn lexeme_ids() -> Seq<TellId> {
    seq![
        TellId::AiDiction,
        TellId::MagicAdverb,
        TellId::ServesAs,
        TellId::FillerTransition,
        TellId::SignpostedConclusion,
        TellId::PedagogicalHook,
        TellId::Decoration,
    ]
}

/// The signal phrases of a lexical trope.
pub open spec fn lexeme_phrases(id: TellId) -> Seq<Seq<char>> {
    match id {
        TellId::AiDiction => seq![
            "delve"@, "utilize"@, "leverage"@, "robust"@, "streamline"@, "harness"@,
            "tapestry"@, "landscape"@, "realm"@, "paradigm"@, "synergy"@, "ecosystem"@,
            "underscore"@, "showcase"@, "intricate"@, "nuanced"@, "multifaceted"@,
        ],
        TellId::MagicAdverb => seq![
            "deeply"@, "fundamentally"@, "remarkably"@, "profoundly"@, "crucially"@,
        ],
        TellId::ServesAs => seq!["serves as"@, "stands as"@, "represents a"@, "acts as a"@],
        TellId::FillerTransition => seq![
            "it's worth noting"@, "it is worth noting"@, "it bears mentioning"@,
            "importantly"@, "notably"@, "needless to say"@,
        ],
        TellId::SignpostedConclusion => seq![
            "in conclusion"@, "to sum up"@, "in summary"@, "all in all"@,
        ],
        TellId::PedagogicalHook => seq![
            "let's unpack"@, "let's dive in"@, "let's dive into"@, "let's break this down"@,
            "here's the kicker"@, "here's the thing"@, "buckle up"@,
        ],
        TellId::Decoration => seq!["—"@, "–"@, "“"@, "”"@, "‘"@, "’"@, "→"@],
        _ => Seq::empty(),
    }
}

/// The weight of a lexical trope, in tenths.
pub open spec fn lexeme_weight(id: TellId) -> u32 {
    match id {
        TellId::AiDiction => 5,
        TellId::MagicAdverb => 4,
        TellId::ServesAs => 6,
        TellId::FillerTransition => 6,
        TellId::SignpostedConclusion => 7,
        TellId::PedagogicalHook => 8,
        TellId::Decoration => 3,
        _ => 0,
    }
}

/// Negation openers for the negative-parallelism window.
pub open spec fn negations() -> Seq<Seq<char>> {
    seq!["not"@, "isn't"@, "isnt"@, "doesn't"@, "doesnt"@, "won't"@, "wont"@, "never"@, "no"@]
}

/// Contrastive pivots for the negative-parallelism window.
pub open spec fn pivots() -> Seq<Seq<char>> {
    seq!["it's"@, "its"@, "but"@, "rather"@, "instead"@, "—"@, "than"@]
}

/// Ordinal sentence leads (listicle-in-prose).
pub open spec fn ordinals() -> Seq<Seq<char>> {
    seq!["first"@, "second"@, "third"@, "fourth"@, "fifth"@, "next"@, "finally"@, "lastly"@]
}

/// Leading words skipped when computing a sentence's anaphora opener.
pub open spec fn stopwords() -> Seq<Seq<char>> {
    seq!["the"@, "a"@, "an"@, "and"@, "but"@, "so"@, "yet"@, "for"@, "this"@, "that"@, "it"@]
}

/// The lexical tropes, in scanning order.
pub(crate) fn lexemes() -> (res: Vec<TellId>)
    ensures
        res@ == lexeme_ids(),
{
    let v = vec![
        TellId::AiDiction,
        TellId::MagicAdverb,
        TellId::ServesAs,
        TellId::FillerTransition,
        TellId::SignpostedConclusion,
        TellId::PedagogicalHook,
        TellId::Decoration,
    ];
    assert(v@ =~= lexeme_ids());
    v
}

pub(crate) fn phrases_of(id: TellId) -> (res: Vec<&'static str>)
    ensures
        views_of_strs(res@) == lexeme_phrases(id),
{
    let v: Vec<&'static str> = match id {
        TellId::AiDiction => vec![
            "delve", "utilize", "leverage", "robust", "streamline", "harness",
            "tapestry", "landscape", "realm", "paradigm", "synergy", "ecosystem",
            "underscore", "showcase", "intricate", "nuanced", "multifaceted",
        ],
        TellId::MagicAdverb => vec!["deeply", "fundamentally", "remarkably", "profoundly", "crucially"],
        TellId::ServesAs => vec!["serves as", "stands as", "represents a", "acts as a"],
        TellId::FillerTransition => vec![
            "it's worth noting", "it is worth noting", "it bears mentioning",
            "importantly", "notably", "needless to say",
        ],
        TellId::SignpostedConclusion => vec!["in conclusion", "to sum up", "in summary", "all in all"],
        TellId::PedagogicalHook => vec![
            "let's unpack", "let's dive in", "let's dive into", "let's break this down",
            "here's the kicker", "here's the thing", "buckle up",
        ],
        TellId::Decoration => vec!["—", "–", "“", "”", "‘", "’", "→"],
        _ => Vec::new(),
    };
    assert(views_of_strs(v@) =~= lexeme_phrases(id));
    v
}

pub(crate) fn lexeme_tenths(id: TellId) -> (res: u32)
    ensures
        res == lexeme_weight(id),
{
    match id {
        TellId::AiDiction => 5,
        TellId::MagicAdverb => 4,
        TellId::ServesAs => 6,
        TellId::FillerTransition => 6,
        TellId::SignpostedConclusion => 7,
        TellId::PedagogicalHook => 8,
        TellId::Decoration => 3,
        _ => 0,
    }
}

pub(crate) fn negation_list() -> (res: Vec<&'static str>)
    ensures
        views_of_strs(res@) == negations(),
{
    let v = vec!["not", "isn't", "isnt", "doesn't", "doesnt", "won't", "wont", "never", "no"];
    assert(views_of_strs(v@) =~= negations());
    v
}

pub(crate) fn pivot_list() -> (res: Vec<&'static str>)
    ensures
        views_of_strs(res@) == pivots(),
{
    let v = vec!["it's", "its", "but", "rather", "instead", "—", "than"];
    assert(views_of_strs(v@) =~= pivots());
    v
}

pub(crate) fn ordinal_list() -> (res: Vec<&'static str>)
    ensures
        views_of_strs(res@) == ordinals(),
{
    let v = vec!["first", "second", "third", "fourth", "fifth", "next", "finally", "lastly"];
    assert(views_of_strs(v@) =~= ordinals());
    v
}

pub(crate) fn stopword_list() -> (res: Vec<&'static str>)
    ensures
        views_of_strs(res@) == stopwords(),
{
    let v = vec!["the", "a", "an", "and", "but", "so", "yet", "for", "this", "that", "it"];
    assert(views_of_strs(v@) =~= stopwords());
    v
}

} // verus!
