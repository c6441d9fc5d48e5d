//! Keyword preparation, match measurements and top-k selection.

use md_doc_search::rank::{
    distinct_keywords, fold, match_sections, match_texts, prepare_query, query_keywords, select_top,
};
use md_doc_search::{parse_sections, SearchError};

fn kws(words: &[&str]) -> Vec<String> {
    words.iter().map(|w| w.to_string()).collect()
}

#[test]
fn keywords_are_lowercased_and_split_on_any_whitespace() {
    assert_eq!(query_keywords("Volume    Scatter", false), kws(&["volume", "scatter"]));
    assert_eq!(query_keywords("\tInput\u{a0}is_action_just_pressed\n", false), kws(&["input", "is_action_just_pressed"]));
    assert_eq!(query_keywords("ABC", false), kws(&["abc"]));
}

#[test]
fn duplicate_keywords_keep_their_first_position() {
    assert_eq!(query_keywords("Alpha beta ALPHA gamma Beta", false), kws(&["alpha", "beta", "gamma"]));
}

#[test]
fn folding_is_opt_in() {
    assert_eq!(query_keywords("Résumé", false), kws(&["résumé"]));
    assert_eq!(query_keywords("Résumé", true), kws(&["resume"]));
    assert_eq!(fold("àéîõüçñßœÿ"), "aeioucnsoy");
    assert_eq!(fold("plain ascii"), "plain ascii");
}

#[test]
fn empty_query_is_an_error() {
    assert!(matches!(prepare_query("   ", 3, false), Err(SearchError::EmptyQuery)));
    assert!(matches!(prepare_query("", 3, false), Err(SearchError::EmptyQuery)));
}

#[test]
fn zero_top_k_is_an_error() {
    assert!(matches!(prepare_query("body", 0, false), Err(SearchError::InvalidParam("top_k"))));
    assert_eq!(prepare_query("Body", 1, false).unwrap(), kws(&["body"]));
}

#[test]
fn whole_words_and_substrings_are_counted_apart() {
    let corpus = "# A\n\nthe input value\n\n# B\n\nthe inputs value\n";
    let sections = parse_sections(corpus);
    let t = match_sections(corpus, &sections, &kws(&["input"]), 20, false);
    assert_eq!(t.sections[0].occ, vec![1]);
    assert_eq!(t.sections[0].whole, vec![1]);
    assert_eq!(t.sections[1].occ, vec![1]);
    assert_eq!(t.sections[1].whole, vec![0]);
    assert_eq!(t.dfs, vec![2]);
    // An underscore is a word boundary.
    let corpus = "# M\n\nis_action_just_pressed\n";
    let sections = parse_sections(corpus);
    let t = match_sections(corpus, &sections, &kws(&["action"]), 20, false);
    assert_eq!(t.sections[0].whole, vec![1]);
}

#[test]
fn occurrences_are_capped_and_non_overlapping() {
    let corpus = format!("# A\n\n{}\n\n# B\n\naaaa\n", "alpha ".repeat(30));
    let sections = parse_sections(&corpus);
    let t = match_sections(&corpus, &sections, &kws(&["alpha", "aa"]), 20, false);
    assert_eq!(t.sections[0].occ, vec![20, 0]);
    assert_eq!(t.sections[1].occ, vec![0, 2]);
    assert_eq!(t.dfs, vec![1, 1]);
}

#[test]
fn heading_chain_phrase_and_title_prefix() {
    let corpus = "# Boolean Modifier\n\nthe boolean modifier operates on meshes\n\n## Options\n\n### Solver\n\nsolver choice\n";
    let sections = parse_sections(corpus);
    let t = match_sections(corpus, &sections, &kws(&["boolean", "modifier"]), 20, false);
    let page = &t.sections[0];
    assert_eq!(page.in_heading, vec![true, true]);
    assert!(page.all_in_headings);
    assert!(page.phrase);
    assert!(page.title_prefix);
    assert_eq!(page.matched, 2);
    let options = &t.sections[1];
    assert_eq!(options.occ, vec![0, 0]);
    assert_eq!(options.in_heading, vec![false, false]);
    assert_eq!(options.in_crumb, vec![true, true]);
    assert!(options.all_in_headings);
    assert!(!options.title_prefix);
    assert_eq!(options.matched, 2);
    let solver = &t.sections[2];
    assert_eq!(solver.in_crumb, vec![true, true]);
    assert!(!solver.phrase);
}

#[test]
fn title_prefix_covers_camel_case_but_not_h3() {
    let corpus = "# ResourcePreloader\n\nshort description\n\n# Other\n\n### ResourcePreloader get(x)\n\nx\n";
    let sections = parse_sections(corpus);
    let t = match_sections(corpus, &sections, &kws(&["resource", "preloader"]), 20, false);
    assert!(t.sections[0].title_prefix);
    assert!(!t.sections[0].phrase);
    assert!(!t.sections[2].title_prefix);
    assert_eq!(t.sections[2].in_heading, vec![true, true]);
}

#[test]
fn matching_is_case_insensitive_and_folds_on_demand() {
    let corpus = "# Résumé\n\nLe RÉSUMÉ du document.\n\n# Other\n\nnothing here\n";
    let sections = parse_sections(corpus);
    let plain = match_sections(corpus, &sections, &kws(&["resume"]), 20, false);
    assert_eq!(plain.dfs, vec![0]);
    let folded = match_sections(corpus, &sections, &kws(&["resume"]), 20, true);
    assert_eq!(folded.sections[0].occ, vec![1]);
    assert_eq!(folded.sections[0].in_heading, vec![true]);
    assert_eq!(folded.dfs, vec![1]);
    let accented = match_sections(corpus, &sections, &kws(&["résumé"]), 20, false);
    assert_eq!(accented.sections[0].occ, vec![1]);
}

#[test]
fn top_k_orders_by_key_then_document_order() {
    let keys = vec![Some(5), None, Some(7), Some(5), Some(-1)];
    assert_eq!(select_top(&keys, 3), vec![2, 0, 3]);
    assert_eq!(select_top(&keys, 10), vec![2, 0, 3, 4]);
    assert_eq!(select_top(&keys, 1), vec![2]);
    assert_eq!(select_top(&keys, 0), Vec::<usize>::new());
    assert_eq!(select_top(&[None, None], 3), Vec::<usize>::new());
}

#[test]
fn equal_keys_tie_break_by_document_order() {
    let keys = vec![Some(3), Some(3), Some(3), None];
    assert_eq!(select_top(&keys, 2), vec![0, 1]);
}

#[test]
fn distinct_keywords_drop_empty_words_and_repeats() {
    assert_eq!(distinct_keywords(&kws(&["b", "", "a", "b", "a", "c"])), kws(&["b", "a", "c"]));
    assert_eq!(distinct_keywords(&kws(&["", ""])), Vec::<String>::new());
}

#[test]
fn measurements_of_normalized_texts() {
    let m = match_texts(
        "use the volume scatter node; volume scattering too",
        "volume scatter",
        "shader nodes",
        2,
        &kws(&["volume", "scatter"]),
        20,
    );
    assert_eq!(m.occ, vec![2, 2]);
    assert_eq!(m.whole, vec![2, 1]);
    assert_eq!(m.in_heading, vec![true, true]);
    assert_eq!(m.in_crumb, vec![false, false]);
    assert_eq!(m.matched, 2);
    assert!(m.all_in_headings);
    assert!(m.phrase);
    assert!(m.title_prefix);
    // A level-3 heading never gives the title-prefix bonus; a keyword found
    // only in the ancestry still counts as matched.
    let m = match_texts("nothing", "other", "volume scatter", 3, &kws(&["scatter", "volume"]), 1);
    assert_eq!(m.occ, vec![0, 0]);
    assert_eq!(m.in_crumb, vec![true, true]);
    assert_eq!(m.matched, 2);
    assert!(m.all_in_headings);
    assert!(!m.phrase);
    assert!(!m.title_prefix);
    // Counts are capped.
    let m = match_texts("x x x x", "", "", 1, &kws(&["x"]), 3);
    assert_eq!(m.occ, vec![3]);
    assert_eq!(m.whole, vec![3]);
    assert!(!m.phrase);
}

#[test]
fn a_query_with_a_word_is_never_empty() {
    assert_eq!(prepare_query("a", 1, false).unwrap(), kws(&["a"]));
    assert_eq!(prepare_query(" ÀÉ ", 1, true).unwrap(), kws(&["ae"]));
    assert_eq!(prepare_query("\u{130}", 1, false).unwrap(), kws(&["i\u{307}"]));
    assert!(matches!(prepare_query(" \t\n", 1, false), Err(SearchError::EmptyQuery)));
}
