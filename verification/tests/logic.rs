use host_grammar::markdown::{blocks_from_events, scan_markdown_events, BlockKind, MdEvent, MdTag};
use host_grammar::roman::{is_canonical_roman, to_roman};
use host_grammar::runs::{anaphora_runs, countdown, listicle, self_answered};
use host_grammar::sentence::{false_ranges, negative_parallelism, sentence_meta, trimmed_sentences, Meta};
use host_grammar::shape::split_paragraphs;
use host_grammar::lexical::lexical_tells;
use host_grammar::{chunk_ranges, Weight};

fn cs(s: &str) -> Vec<char> {
    s.chars().collect()
}

fn words(ws: &[&str]) -> Vec<Vec<char>> {
    ws.iter().map(|w| cs(w)).collect()
}

fn meta(opener: Option<&str>, first: &str, is_question: bool, n: usize) -> Meta {
    Meta { opener: opener.map(cs), first: cs(first), is_question, words: n }
}

#[test]
fn roman_rendering_and_round_trip() {
    assert_eq!(to_roman(1994).into_iter().collect::<String>(), "MCMXCIV");
    assert_eq!(to_roman(3999).into_iter().collect::<String>(), "MMMCMXCIX");
    assert_eq!(to_roman(4000).into_iter().collect::<String>(), "MMMM");
    for n in 1u32..=3999 {
        assert!(is_canonical_roman(&to_roman(n)), "n={n}");
    }
    assert!(!is_canonical_roman(&cs("MMMM")));
    assert!(!is_canonical_roman(&cs("")));
    assert!(!is_canonical_roman(&cs("IC")));
    assert!(!is_canonical_roman(&cs("iv")));
}

#[test]
fn negative_parallelism_on_words() {
    assert_eq!(negative_parallelism(&words(&["it's", "not", "a", "bug", "it's", "a", "feature"])), 1);
    assert_eq!(negative_parallelism(&words(&["not", "one", "two", "three", "four", "five", "but"])), 1);
    assert_eq!(negative_parallelism(&words(&["not", "one", "two", "three", "four", "five", "six", "but"])), 0);
    assert_eq!(negative_parallelism(&words(&["never", "no", "rather"])), 2);
    assert_eq!(negative_parallelism(&words(&["not", "but", "but"])), 2);
    assert_eq!(negative_parallelism(&words(&["this", "does", "not", "compile"])), 0);
    assert_eq!(negative_parallelism(&words(&[])), 0);
}

#[test]
fn false_ranges_on_words() {
    assert_eq!(false_ranges(&words(&["from", "a", "to", "b"])), 1);
    assert_eq!(false_ranges(&words(&["from", "1", "2", "3", "4", "5", "to"])), 0);
    assert_eq!(false_ranges(&words(&["from", "from", "to"])), 2);
}

#[test]
fn sentence_meta_skips_one_stopword() {
    let m = sentence_meta(&cs("The cats run?"), &words(&["the", "cats", "run"]));
    assert_eq!(m.opener, Some(cs("cats")));
    assert_eq!(m.first, cs("the"));
    assert!(m.is_question);
    assert_eq!(m.words, 3);
    let m = sentence_meta(&cs("It."), &words(&["it"]));
    assert_eq!(m.opener, None);
    let m = sentence_meta(&cs("..."), &words(&[]));
    assert_eq!(m.opener, None);
    assert_eq!(m.first, Vec::<char>::new());
    assert_eq!(m.words, 0);
}

#[test]
fn anaphora_runs_are_maximal_runs() {
    let ms = vec![
        meta(Some("we"), "we", false, 3),
        meta(Some("we"), "we", false, 3),
        meta(Some("we"), "we", false, 3),
        meta(None, "", false, 0),
        meta(Some("cats"), "cats", false, 2),
        meta(Some("cats"), "cats", false, 2),
        meta(Some("cats"), "cats", false, 2),
        meta(Some("cats"), "cats", false, 2),
    ];
    let runs = anaphora_runs(&ms);
    assert_eq!(runs, vec![(cs("we"), 3), (cs("cats"), 4)]);
    let none = vec![meta(None, "", false, 0), meta(None, "", false, 0), meta(None, "", false, 0)];
    assert!(anaphora_runs(&none).is_empty());
}

#[test]
fn countdown_self_answered_listicle_on_metas() {
    let ms = vec![
        meta(Some("not"), "not", false, 2),
        meta(Some("not"), "not", false, 2),
        meta(Some("just"), "just", false, 2),
        meta(Some("not"), "not", false, 2),
        meta(Some("only"), "only", false, 2),
    ];
    assert_eq!(countdown(&ms), vec![3]);
    let qa = vec![meta(None, "is", true, 3), meta(None, "a", false, 2), meta(None, "is", true, 3), meta(None, "x", false, 9)];
    assert_eq!(self_answered(&qa), 1);
    let ls = vec![
        meta(None, "first", false, 2),
        meta(None, "second", false, 2),
        meta(None, "third", false, 2),
        meta(None, "fourth", false, 2),
        meta(None, "we", false, 2),
        meta(None, "next", false, 2),
        meta(None, "finally", false, 2),
        meta(None, "lastly", false, 2),
    ];
    assert_eq!(listicle(&ls), 4 + 1);
}

#[test]
fn trimmed_sentences_drop_blank() {
    let raw = vec![cs("  One. "), cs(" \n "), cs("Two!\u{a0}")];
    assert_eq!(trimmed_sentences(&raw), vec![cs("One."), cs("Two!")]);
}

#[test]
fn paragraphs_split_on_blank_lines() {
    assert_eq!(split_paragraphs(&cs("a\n\n\nb")), vec![cs("a"), cs("\nb")]);
    assert_eq!(split_paragraphs(&cs("a\nb")), vec![cs("a\nb")]);
    assert_eq!(split_paragraphs(&cs("a\n\n")), vec![cs("a"), cs("")]);
    assert_eq!(split_paragraphs(&cs("")), vec![cs("")]);
}

#[test]
fn lexical_on_lowercase_text() {
    let mut out = Vec::new();
    lexical_tells(&cs("we delve, delved, re-delve \u{2014} \u{2014}"), &mut out);
    let got: Vec<(&str, String)> = out.iter().map(|t| (t.id_str(), t.excerpt.clone())).collect();
    assert_eq!(got, vec![("ai-diction", "delve".to_string()), ("ai-diction", "delve".to_string()), ("decoration", "\u{2014}".to_string())]);
    let mut out = Vec::new();
    lexical_tells(&cs("We Delve"), &mut out); // not lowercased: no match
    assert!(out.is_empty());
}

#[test]
fn markdown_blocks_from_given_events() {
    let evs = vec![
        MdEvent::Start(MdTag::Heading),
        MdEvent::Text(cs("Title")),
        MdEvent::End(MdTag::Heading),
        MdEvent::Start(MdTag::Paragraph),
        MdEvent::Text(cs("Hello")),
        MdEvent::Break,
        MdEvent::Text(cs("world.")),
        MdEvent::End(MdTag::Paragraph),
        MdEvent::Start(MdTag::CodeBlock),
        MdEvent::Text(cs("we delve")),
        MdEvent::End(MdTag::CodeBlock),
        MdEvent::Start(MdTag::Item),
        MdEvent::Start(MdTag::Strong),
        MdEvent::Text(cs("a")),
        MdEvent::End(MdTag::Other),
        MdEvent::End(MdTag::Item),
        MdEvent::Start(MdTag::Paragraph),
        MdEvent::Text(cs("   ")),
        MdEvent::End(MdTag::Paragraph),
    ];
    let bs = blocks_from_events(evs);
    assert_eq!(bs.len(), 3);
    assert_eq!(bs[0].kind, BlockKind::Heading);
    assert_eq!(bs[1].text, cs("Hello world."));
    assert_eq!(bs[2].kind, BlockKind::ListItem);
    assert!(bs[2].bold_first);
    let tells = scan_markdown_events(vec![
        MdEvent::Start(MdTag::Heading),
        MdEvent::Text(cs("Let's unpack it")),
        MdEvent::End(MdTag::Heading),
    ]);
    assert_eq!(tells.len(), 1);
    assert_eq!(tells[0].id_str(), "pedagogical-hook");
    assert_eq!(tells[0].weight, Weight::Tenths(8));
}

#[test]
fn chunk_ranges_partition() {
    assert_eq!(chunk_ranges(0, 4), vec![]);
    assert_eq!(chunk_ranges(5, 0), vec![(0, 5)]);
    assert_eq!(chunk_ranges(5, 2), vec![(0, 3), (3, 5)]);
    assert_eq!(chunk_ranges(5, 9), vec![(0, 1), (1, 2), (2, 3), (3, 4), (4, 5)]);
    assert_eq!(chunk_ranges(10, 3), vec![(0, 4), (4, 8), (8, 10)]);
}
