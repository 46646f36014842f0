//! Calls into code that is not verified here: Unicode text segmentation, Unicode
//! case mapping, the markdown parser, and building a `String` from characters.
//! Each item states what the library relies on; nothing in this file is proved.
use unicode_segmentation::UnicodeSegmentation;
use vstd::prelude::*;
use crate::markdown::{MdEvent, MdEventView, MdTag};
use crate::text::views;

verus! {

/// What `str::to_lowercase` gives for a text (full Unicode case mapping,
/// including the context-dependent final sigma).
pub uninterp spec fn spec_to_lowercase(s: Seq<char>) -> Seq<char>;

/// What `str::to_uppercase` gives for a text (full Unicode case mapping).
pub uninterp spec fn spec_to_uppercase(s: Seq<char>) -> Seq<char>;

/// The words that `UnicodeSegmentation::unicode_words` yields for a text, in order
/// (UAX #29 word boundaries, keeping the pieces that hold an alphabetic or numeric
/// character).
pub uninterp spec fn spec_unicode_words(s: Seq<char>) -> Seq<Seq<char>>;

/// The sentences that `UnicodeSegmentation::unicode_sentences` yields for a text,
/// in order (UAX #29 sentence boundaries, keeping the pieces that hold an
/// alphabetic or numeric character).
pub uninterp spec fn spec_unicode_sentences(s: Seq<char>) -> Seq<Seq<char>>;

/// Calls `String::from_iter` on the characters; the string holds exactly them.
#[verifier::external_body]
pub(crate) fn string_from_chars(chars: &[char]) -> (res: String)
    ensures
        res@ == chars@,
{
    String::from_iter(chars.iter())
}

/// Calls `str::to_lowercase`; the result is named by `spec_to_lowercase` of
/// the argument. Nothing more of the mapping is stated.
#[verifier::external_body]
pub(crate) fn to_lowercase(s: &[char]) -> (res: Vec<char>)
    ensures
        res@ == spec_to_lowercase(s@),
{
    let text: String = s.iter().collect();
    text.to_lowercase().chars().collect()
}

/// Calls `str::to_uppercase`; the result is named by `spec_to_uppercase` of
/// the argument. Nothing more of the mapping is stated.
#[verifier::external_body]
pub(crate) fn to_uppercase(s: &[char]) -> (res: Vec<char>)
    ensures
        res@ == spec_to_uppercase(s@),
{
    let text: String = s.iter().collect();
    text.to_uppercase().chars().collect()
}

/// Calls `UnicodeSegmentation::unicode_words` and collects each word's characters.
/// The result is named by `spec_unicode_words` of the argument; where the word
/// boundaries fall is not stated.
#[verifier::external_body]
pub(crate) fn unicode_words(s: &[char]) -> (res: Vec<Vec<char>>)
    ensures
        views(res@) == spec_unicode_words(s@),
{
    let text: String = s.iter().collect();
    let mut out: Vec<Vec<char>> = Vec::new();
    for w in text.unicode_words() {
        out.push(w.chars().collect());
    }
    out
}

/// Calls `UnicodeSegmentation::unicode_sentences` and collects each sentence's
/// characters. The result is named by `spec_unicode_sentences` of the argument;
/// where the sentence boundaries fall is not stated.
#[verifier::external_body]
pub(crate) fn unicode_sentences(s: &[char]) -> (res: Vec<Vec<char>>)
    ensures
        views(res@) == spec_unicode_sentences(s@),
{
    let text: String = s.iter().collect();
    let mut out: Vec<Vec<char>> = Vec::new();
    for w in text.unicode_sentences() {
        out.push(w.chars().collect());
    }
    out
}

/// The event stream that `pulldown_cmark::Parser::new` yields for a markdown
/// text (no options enabled), reduced to the events the block extraction reads.
pub uninterp spec fn spec_markdown_events(md: Seq<char>) -> Seq<MdEventView>;

/// The end tag of a `pulldown_cmark` element.
#[verifier::external_type_specification]
#[verifier::external_body]
pub struct ExTagEnd(pulldown_cmark::TagEnd);

/// Tells apart the `pulldown_cmark::TagEnd` variants that the block extraction
/// reads (code block, block quote, image, heading, list item, paragraph, strong);
/// all others map to
/// `MdTag::Other`. Nothing is stated of the result.
#[verifier::external_body]
pub(crate) fn md_tag(t: pulldown_cmark::TagEnd) -> MdTag {
    match t {
        pulldown_cmark::TagEnd::CodeBlock => MdTag::CodeBlock,
        pulldown_cmark::TagEnd::BlockQuote(_) => MdTag::BlockQuote,
        pulldown_cmark::TagEnd::Image => MdTag::Image,
        pulldown_cmark::TagEnd::Heading(_) => MdTag::Heading,
        pulldown_cmark::TagEnd::Item => MdTag::Item,
        pulldown_cmark::TagEnd::Paragraph => MdTag::Paragraph,
        pulldown_cmark::TagEnd::Strong => MdTag::Strong,
        _ => MdTag::Other,
    }
}

/// Runs `pulldown_cmark::Parser::new` over the text and converts each event
/// (start and end tags by their end tag, text with its characters, soft and hard
/// breaks, everything else as `Other`). The result is named by
/// `spec_markdown_events` of the argument; the parse itself is not stated.
#[verifier::external_body]
pub(crate) fn markdown_events(md: &str) -> (res: Vec<MdEvent>)
    ensures
        res@.map_values(|e: MdEvent| e@) == spec_markdown_events(md@),
{
    let mut out: Vec<MdEvent> = Vec::new();
    for ev in pulldown_cmark::Parser::new(md) {
        out.push(match ev {
            pulldown_cmark::Event::Start(t) => MdEvent::Start(md_tag(t.to_end())),
            pulldown_cmark::Event::End(t) => MdEvent::End(md_tag(t)),
            pulldown_cmark::Event::Text(t) => MdEvent::Text(t.chars().collect()),
            pulldown_cmark::Event::SoftBreak => MdEvent::Break,
            pulldown_cmark::Event::HardBreak => MdEvent::Break,
            _ => MdEvent::Other,
        });
    }
    out
}

} // verus!
