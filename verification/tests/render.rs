//! Output layout: budget in characters, greedy shares, truncation.

use md_doc_search::render::{render_hits, RankedSection};
use md_doc_search::{parse_sections, SearchError};

fn ranked(order: &[(usize, &str)]) -> Vec<RankedSection> {
    order
        .iter()
        .map(|&(section_idx, label)| RankedSection {
            section_idx,
            score_label: label.to_string(),
        })
        .collect()
}

fn render(corpus: &str, order: &[(usize, &str)], query: &str, max_tokens: usize) -> Result<String, SearchError> {
    let sections = parse_sections(corpus);
    render_hits(corpus, &sections, &ranked(order), query, max_tokens)
}

#[test]
fn zero_max_tokens_is_an_error() {
    assert!(matches!(
        render("# A\n\nbody\n", &[(0, "1")], "body", 0),
        Err(SearchError::InvalidParam(_))
    ));
}

#[test]
fn budget_is_respected_in_characters_not_bytes() {
    // 800 accented characters = 1600 bytes but 800 chars.
    let body = "é".repeat(800);
    let corpus = format!("# A\n\n{body}\n");
    let out = render(&corpus, &[(0, "1")], "é", 100).unwrap(); // budget: 400 chars
    assert!(out.chars().count() <= 400);
    assert!(out.contains("tronquée"));
}

#[test]
fn short_first_section_gives_budget_to_the_next() {
    // A (short, ranks first) leaves almost all of its uniform share
    // unused; B (long, ranks second) must inherit it.
    let corpus = format!(
        "# A\n\nshort short short\n\n# B\n\n{}{}TAILMARK\n",
        "padding ".repeat(247),
        "word ".repeat(2)
    );
    // 600 tokens = 2400 chars: a uniform split (~1178 each) would
    // truncate B (~2060 needed); the waterfall does not.
    let out = render(&corpus, &[(0, "1"), (1, "1")], "short word", 600).unwrap();
    assert!(!out.contains("tronquée"));
    assert!(out.contains("TAILMARK"));
}

#[test]
fn truncation_lands_on_line_boundary() {
    let line = "abc".repeat(20); // 60 chars
    let corpus = format!("# A\n\n{}\n", vec![line; 30].join("\n"));
    let out = render(&corpus, &[(0, "12")], "abc", 100).unwrap();
    assert!(out.contains("tronquée"));
    // Every kept body line is a complete 60-char line, never a partial one.
    assert!(out.lines().all(|l| l.len() == 60 || !l.starts_with("abc")));
}

#[test]
fn open_fence_is_closed_after_truncation() {
    let mut body = String::from("intro here\n\n```python\n");
    for i in 0..40 {
        body.push_str(&format!("code_line_{i} = {i}\n"));
    }
    let corpus = format!("# A\n\n{body}");
    let out = render(&corpus, &[(0, "5")], "code_line", 60).unwrap();
    let (_before, rest) = out.split_once("```python").unwrap();
    let (kept, _after) = rest.split_once("[... Section tronquée").unwrap();
    assert!(kept.trim_end().ends_with("```"));
}

#[test]
fn preamble_hit_has_no_heading_line() {
    let corpus = "Preamble text about widgets.\n\n# Page\n\nwidget body\n";
    let out = render(corpus, &[(0, "3")], "preamble", 100).unwrap();
    let (_head, rest) = out.split_once("--- DÉBUT DE SECTION").unwrap();
    let (kept, _tail) = rest.split_once("--- FIN DE SECTION").unwrap();
    let lines: Vec<&str> = kept.lines().collect();
    assert_eq!(lines[1], "Preamble text about widgets.");
}

#[test]
fn block_layout_is_exact() {
    let corpus = "# Page\n\n## Opts\n\n### Solver\n\nsolver body\n";
    let out = render(corpus, &[(2, "42")], "solver", 1000).unwrap();
    assert_eq!(
        out,
        "Résultats de recherche pour 'solver' :\n\n\
         --- DÉBUT DE SECTION (Score: 42) ---\n\
         ### Solver\n\
         > Page > Opts\n\
         \nsolver body\n\n\
         --- FIN DE SECTION ---\n\n"
    );
}

#[test]
fn header_alone_when_no_budget_is_left() {
    let out = render("# A\n\nbody\n", &[(0, "1")], "body", 1).unwrap();
    assert_eq!(out, "Résultats de recherche pour 'body' :\n\n");
}

#[test]
fn tilde_fence_is_closed_with_tildes() {
    let mut body = String::from("~~~~\n");
    for i in 0..50 {
        body.push_str(&format!("line {i}\n"));
    }
    body.push_str("~~~~\n");
    let corpus = format!("# T\n\n{body}");
    let out = render(&corpus, &[(0, "1")], "line", 60).unwrap();
    let (kept, _) = out.split_once("[... Section tronquée").unwrap();
    assert!(kept.trim_end().ends_with("\n~~~~"));
}

#[test]
fn no_fence_is_added_when_the_cut_keeps_it_closed() {
    let mut body = String::from("```\ncode\n```\n");
    for i in 0..80 {
        body.push_str(&format!("prose line {i}\n"));
    }
    let corpus = format!("# T\n\n{body}");
    let out = render(&corpus, &[(0, "1")], "prose", 80).unwrap();
    let (kept, _) = out.split_once("[... Section tronquée").unwrap();
    assert_eq!(kept.matches("```").count(), 2);
    assert!(kept.ends_with('\n'));
}

#[test]
fn a_block_that_cannot_fit_its_share_is_left_out() {
    // 80 characters of budget, 35 taken by the header: the frame of the one
    // block (65 characters) plus its truncation marker (63) cannot fit.
    let out = render("# A\n\nbody\n", &[(0, "5")], "q", 20).unwrap();
    assert_eq!(out, "Résultats de recherche pour 'q' :\n\n");
}

#[test]
fn a_cut_body_always_carries_the_marker() {
    let corpus = format!("# A\n\n{}\n", "x".repeat(500));
    // 160 characters: 125 left for the block, less than frame and marker.
    let out = render(&corpus, &[(0, "5")], "q", 40).unwrap();
    assert_eq!(out, "Résultats de recherche pour 'q' :\n\n");
    // 164 characters: exactly frame, marker and one body character.
    let out = render(&corpus, &[(0, "5")], "q", 41).unwrap();
    assert_eq!(
        out,
        "Résultats de recherche pour 'q' :\n\n--- DÉBUT DE SECTION (Score: 5) ---\n# A\n\n\
         \n\n[... Section tronquée pour respecter le budget de tokens ...]\n--- FIN DE SECTION ---\n\n"
    );
    assert_eq!(out.chars().count(), 164);
}

#[test]
fn the_closing_fence_counts_in_the_budget() {
    let mut body = String::from("```\n");
    for i in 0..100 {
        body.push_str(&format!("let value_{i} = {i};\n"));
    }
    let corpus = format!("# A\n\n{body}");
    for max_tokens in 40..120 {
        let out = render(&corpus, &[(0, "5")], "value", max_tokens).unwrap();
        assert!(out.chars().count() <= max_tokens * 4);
        if let Some((kept, _)) = out.split_once("\n\n[... Section tronquée") {
            let kept = kept.split_once("# A\n").unwrap().1;
            if kept.contains("```") {
                assert!(kept.ends_with("\n```"));
            }
        }
    }
}

#[test]
fn a_frame_wider_than_its_share_uses_what_is_left() {
    // The bare heading's frame (159 characters) is wider than its share
    // (132 of 265); it takes what it needs and the next section still fits.
    let heading = "h".repeat(90);
    let corpus = format!("# P\n\n## {heading}\n\n# Q\n\nshort body\n");
    let out = render(&corpus, &[(1, "1"), (2, "1")], "q", 75).unwrap();
    assert!(out.contains(&format!("## {heading}\n> P\n")));
    assert!(out.contains("# Q\n\nshort body\n"));
    assert!(!out.contains("tronquée"));
    assert_eq!(out.matches("--- FIN DE SECTION ---").count(), 2);
    assert_eq!(out.chars().count(), 272);
}
