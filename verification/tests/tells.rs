use host_grammar::{assemble_chunks, chunk_ranges, prose_sentences, scan_chunked, scan_prose, scan_prose_markdown, scan_sentence_range, Kind, Tell, TellId, Weight};

fn ids(text: &str) -> Vec<&'static str> {
    scan_prose(text).into_iter().map(|t| t.id_str()).collect()
}

fn md_ids(md: &str) -> Vec<&'static str> {
    scan_prose_markdown(md).into_iter().map(|t| t.id_str()).collect()
}

fn with_id(text: &str, id: &str) -> Vec<Tell> {
    scan_prose(text).into_iter().filter(|t| t.id_str() == id).collect()
}

#[test]
fn lexical_fires_on_diction_not_on_clean() {
    assert!(ids("We delve into the rich tapestry.").contains(&"ai-diction"));
    assert!(!ids("We read the source file carefully.").contains(&"ai-diction"));
}

#[test]
fn lexical_is_word_boundaried() {
    // "delved" / "delusion" must not match "delve".
    assert!(!ids("The delusion deepened.").contains(&"ai-diction"));
}

#[test]
fn negative_parallelism_fires_on_pivot_not_plain_negation() {
    assert!(ids("It's not a bug, it's a feature.").contains(&"negative-parallelism"));
    assert!(!ids("This does not compile.").contains(&"negative-parallelism"));
}

#[test]
fn tricolon_detects_short_triad() {
    assert!(ids("It is fast, clean, and simple.").contains(&"tricolon"));
    // a long, clause-y list is not a tight tricolon
    assert!(!ids("We refactored the parser, then we rewrote the entire scanner from scratch, and finally shipped.").contains(&"tricolon"));
}

#[test]
fn anaphora_penalizes_runs_of_three() {
    let t = "We build the thing. We test the thing. We ship the thing.";
    assert!(ids(t).contains(&"anaphora"));
    let two = "We build it. We test it. Then everyone goes home.";
    assert!(!ids(two).contains(&"anaphora"));
}

#[test]
fn countdown_and_self_answered() {
    assert!(ids("Not magic. Not luck. Just engineering.").contains(&"countdown"));
    assert!(ids("The result? A clean build.").contains(&"self-answered-question"));
}

#[test]
fn markdown_excludes_code_blocks_and_inline_code() {
    let fenced = "Intro paragraph.\n\n```\nIt's not a tweak, it's a revolution \u{2014} we delve.\n```\n";
    assert!(md_ids(fenced).is_empty(), "{:?}", md_ids(fenced));
    assert!(md_ids("Use the `delve --tapestry` flag.").is_empty());
}

#[test]
fn markdown_drops_link_urls_keeps_text() {
    // "delve" only in the URL path: clean; the visible text is ordinary.
    assert!(md_ids("See [the guide](https://x.test/delve/tapestry).").is_empty());
    // but diction in the visible text is still caught
    assert!(md_ids("See [delve into it](https://x.test/ok).").contains(&"ai-diction"));
}

#[test]
fn markdown_headings_are_not_runs_or_paragraphs() {
    // parallel section headings must not read as an anaphora run
    let doc = "# Title\n\n## Section one\n\n## Section two\n\n## Section three\n";
    assert!(md_ids(doc).is_empty(), "{:?}", md_ids(doc));
    // a single short doc is not staccato (more-than-half rule)
    let short = "# T\n\nOne sentence intro.\n\nA body paragraph with two sentences. It keeps going.\n\nClosing line.\n";
    assert!(!md_ids(short).contains(&"punchy-fragments"));
}

#[test]
fn markdown_still_scans_heading_diction() {
    assert!(md_ids("## Let's unpack the design\n\nOrdinary text.").contains(&"pedagogical-hook"));
}

// ---- further scenarios and laws on concrete values ----

fn count(w: usize, name: &str) -> String {
    (0..w).map(|i| format!("{name} do thing{i}. ")).collect()
}

#[test]
fn anaphora_weight_is_excess_squared() {
    for l in 3usize..=8 {
        let text = count(l, "We");
        let hits = with_id(&text, "anaphora");
        assert_eq!(hits.len(), 1, "text: {text}");
        assert_eq!(hits[0].weight, Weight::Count(((l - 2) * (l - 2)) as u128));
        assert_eq!(hits[0].excerpt, format!("{l} sentences open with \"we\""));
    }
}

#[test]
fn anaphora_pair_is_free() {
    for l in 0usize..=2 {
        let text = count(l, "We");
        assert!(with_id(&text, "anaphora").is_empty(), "text: {text}");
    }
}

#[test]
fn anaphora_counts_the_tail_run_and_skips_stopwords() {
    let text = "Cats nap. Dogs bark. The cats eat. The cats run. The cats hide. The cats sleep.";
    let hits = with_id(text, "anaphora");
    assert_eq!(hits.len(), 1);
    assert_eq!(hits[0].weight, Weight::Count(4));
}

#[test]
fn countdown_fires_on_closed_run_only() {
    for k in 2usize..=5 {
        let mut text: String = (0..k).map(|i| format!("Not thing{i}. ")).collect();
        assert!(with_id(&text, "countdown").is_empty(), "unclosed: {text}");
        text.push_str("Just engineering.");
        let hits = with_id(&text, "countdown");
        assert_eq!(hits.len(), 1, "text: {text}");
        assert_eq!(hits[0].excerpt, format!("{}-part \"Not\u{2026}/Just\u{2026}\" countdown", k + 1));
        assert_eq!(hits[0].weight, Weight::Tenths(13));
    }
}

#[test]
fn self_answered_needs_a_short_fragment() {
    assert_eq!(with_id("Is it a cat? A dog.", "self-answered-question").len(), 1);
    assert!(with_id("Is it a cat? It is a long and carefully detailed answer here.", "self-answered-question").is_empty());
}

#[test]
fn listicle_runs_of_ordinals() {
    for l in 3usize..=7 {
        let text: String = (0..l).map(|_| "Next we move. ").collect();
        let hits = with_id(&text, "listicle");
        assert_eq!(hits.len(), 1, "text: {text}");
        assert_eq!(hits[0].weight, Weight::Count(((l - 2) * (l - 2)) as u128));
    }
    let text = "First we move. Second we move. Third we move.";
    assert!(!with_id(text, "listicle").is_empty());
    assert!(with_id(&count(5, "We"), "listicle").is_empty());
}

#[test]
fn tricolon_and_spans() {
    assert!(!with_id("It is abc, def, and ghi.", "tricolon").is_empty());
    assert!(with_id("one two three four five six seven eight nine, abc, and ghi.", "tricolon").is_empty());
    assert!(with_id("It is abc, def, but ghi.", "tricolon").is_empty());
}

#[test]
fn ing_tail_and_false_range() {
    assert!(!with_id("We shipped the cat, highlighting the dog.", "ing-tail").is_empty());
    assert!(with_id("We shipped the cat dog today.", "ing-tail").is_empty());
    assert!(with_id("We shipped it, sing along.", "ing-tail").is_empty()); // four bytes is not enough
    let fr = with_id("It scales from cats to dogs.", "false-range");
    assert_eq!(fr.len(), 1);
    assert_eq!(fr[0].weight, Weight::Tenths(5));
    assert_eq!(fr[0].excerpt, "It scales from cats to dogs.");
    assert!(with_id("It scales the cat dog well.", "false-range").is_empty());
    assert!(with_id("It went from one two three four five six to seven.", "false-range").is_empty());
}

#[test]
fn negative_parallelism_window() {
    let np = with_id("It's not a cat, it's a dog.", "negative-parallelism");
    assert_eq!(np.len(), 1);
    assert_eq!(np[0].weight, Weight::Tenths(12));
    assert_eq!(np[0].kind, Kind::Structured);
    assert!(with_id("This does not move today.", "negative-parallelism").is_empty());
    // pivot beyond six words
    assert!(with_id("It is not one two three four five six but seven.", "negative-parallelism").is_empty());
}

#[test]
fn lexical_phrases_and_decorations() {
    let ts = scan_prose("In conclusion, we leverage it \u{2014} twice \u{2014} and leverage again.");
    let lex: Vec<(&str, String)> = ts
        .iter()
        .filter(|t| t.kind == Kind::Lexical)
        .map(|t| (t.id_str(), t.excerpt.clone()))
        .collect();
    assert_eq!(
        lex,
        vec![
            ("ai-diction", "leverage".to_string()),
            ("ai-diction", "leverage".to_string()),
            ("signposted-conclusion", "in conclusion".to_string()),
            ("decoration", "\u{2014}".to_string()),
        ]
    );
    assert_eq!(ts[0].weight, Weight::Tenths(5));
    assert_eq!(ts[0].cite(), "tropes.fyi: AI vocabulary");
    assert!(ids("DELVE deeper.").contains(&"ai-diction")); // case-folded
}

#[test]
fn shape_punchy_and_bold_bullets() {
    let text = "One.\n\nTwo.\n\nThree.\n\nFour is longer. It has two sentences.";
    let p = with_id(text, "punchy-fragments");
    assert_eq!(p.len(), 1);
    assert_eq!(p[0].weight, Weight::Ratio { num: 3, den: 4, factor_tenths: 20 });
    assert_eq!(p[0].excerpt, "3/4 paragraphs are single-sentence");
    let bullets = "- **a** one\n- **b** two\n- c three\n";
    let b = with_id(bullets, "bold-first-bullets");
    assert_eq!(b.len(), 1);
    assert_eq!(b[0].weight, Weight::Ratio { num: 2, den: 3, factor_tenths: 15 });
    assert_eq!(b[0].excerpt, "2/3 bullets open with bold lead-ins");
    assert!(with_id("- **a** one\n- b two\n- c three\n", "bold-first-bullets").is_empty());
}

#[test]
fn chunked_equals_sequential() {
    let texts = [
        "We do a. We do b. We do c. Not x. Not y. Just z. Is it? A cat. It's not a cat, it's a dog.",
        "First we go. Second we go. Third we go. We delve \u{2014} robustly, deeply, and notably.",
        "",
        "One sentence only.",
    ];
    for text in texts {
        let seq: Vec<(String, String, Weight)> = scan_prose(text)
            .into_iter()
            .map(|t| (t.id_str().to_string(), t.excerpt, t.weight))
            .collect();
        for k in 0..=7 {
            let par: Vec<(String, String, Weight)> = scan_chunked(text, k)
                .into_iter()
                .map(|t| (t.id_str().to_string(), t.excerpt, t.weight))
                .collect();
            assert_eq!(par, seq, "k={k}");
        }
    }
}

#[test]
fn every_tell_has_a_kind_matching_its_id_and_positive_weight() {
    let text = "Let's unpack this. It's not a tweak, it's a revolution. We delve. We leverage. We harness. The result? Pure synergy. Fast, clean, and robust.";
    let ts = scan_prose(text);
    assert!(!ts.is_empty());
    for t in &ts {
        assert_eq!(t.kind, t.id.kind());
        let positive = match t.weight {
            Weight::Tenths(x) => x > 0,
            Weight::Count(n) => n > 0,
            Weight::Ratio { num, den, factor_tenths } => num > 0 && den > 0 && factor_tenths > 0,
        };
        assert!(positive, "{:?}", t.id);
    }
    assert!(matches!(ts[0].id, TellId::PedagogicalHook | TellId::AiDiction));
}

#[test]
fn markdown_bold_first_from_parse() {
    let md = "- **a** one\n- **b** two\n- **c** three\n";
    let ts = scan_prose_markdown(md);
    let b: Vec<&Tell> = ts.iter().filter(|t| t.id == TellId::BoldFirstBullets).collect();
    assert_eq!(b.len(), 1);
    assert_eq!(b[0].weight, Weight::Ratio { num: 3, den: 3, factor_tenths: 15 });
}

#[test]
fn markdown_excludes_block_quotes_and_image_alt_text() {
    assert!(md_ids("> It's not a tweak, it's a revolution. We delve.\n").is_empty());
    assert!(md_ids("Look: ![we delve into the tapestry](pic.png)").is_empty());
    // text after the quote is prose again
    assert!(md_ids("> quoted delve\n\nWe delve.\n").contains(&"ai-diction"));
}

#[test]
fn tricolon_spans_hold_at_most_four_words() {
    assert!(with_id("one two three four five, six, and seven.", "tricolon").is_empty());
    assert!(!with_id("one two three four, six, and seven.", "tricolon").is_empty());
}

#[test]
fn negative_parallelism_counts_negation_pivot_pairs() {
    assert_eq!(with_id("Not slow but rather fast.", "negative-parallelism").len(), 2);
    assert_eq!(with_id("It's not a bug, it's a feature.", "negative-parallelism").len(), 1);
    assert!(with_id("This does not compile.", "negative-parallelism").is_empty());
}

fn doc_from_openers(openers: &[usize]) -> String {
    const WORDS: [&str; 4] = ["We", "They", "Cats", "Dogs"];
    openers
        .iter()
        .enumerate()
        .map(|(i, &o)| format!("{} run{i}. ", WORDS[o % WORDS.len()]))
        .collect()
}

fn ref_anaphora_weight(openers: &[usize]) -> f32 {
    let mut lens: Vec<usize> = Vec::new();
    for (i, &o) in openers.iter().enumerate() {
        if i > 0 && openers[i - 1] == o {
            *lens.last_mut().unwrap() += 1;
        } else {
            lens.push(1);
        }
    }
    lens.iter().map(|&l| if l >= 3 { ((l - 2) * (l - 2)) as f32 } else { 0.0 }).sum()
}

#[test]
fn anaphora_refines_reference_sum_on_examples() {
    let cases: [&[usize]; 6] = [
        &[],
        &[0, 0, 0],
        &[0, 0, 1, 1, 1, 1, 2],
        &[3, 3, 3, 3, 3],
        &[0, 1, 0, 1, 0, 1],
        &[2, 0, 0, 0, 1, 1, 1, 1, 1, 1],
    ];
    for openers in cases {
        let text = doc_from_openers(openers);
        let engine: f32 = with_id(&text, "anaphora")
            .iter()
            .map(|t| match t.weight {
                Weight::Count(n) => n as f32,
                _ => 0.0,
            })
            .sum();
        assert_eq!(engine, ref_anaphora_weight(openers), "openers: {openers:?}");
    }
}

#[test]
fn chunk_scans_assemble_to_the_plain_scan() {
    let text = "We do a. We do b. We do c. Not x. Not y. Just z. Is it? A cat. It's not a cat, it's a dog. First we go. Second we go. Third we go.";
    let plain: Vec<(String, String, Weight)> = scan_prose(text)
        .into_iter()
        .map(|t| (t.id_str().to_string(), t.excerpt, t.weight))
        .collect();
    let sents = prose_sentences(text);
    for k in 1..=8 {
        let parts = chunk_ranges(sents.len(), k)
            .into_iter()
            .map(|(a, b)| scan_sentence_range(&sents, a, b))
            .collect();
        let joined: Vec<(String, String, Weight)> = assemble_chunks(text, parts)
            .into_iter()
            .map(|t| (t.id_str().to_string(), t.excerpt, t.weight))
            .collect();
        assert_eq!(joined, plain, "k={k}");
    }
}
