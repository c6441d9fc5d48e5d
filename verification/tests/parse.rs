//! Section slicing: fences, preamble, Setext, indentation, ancestry.

use md_doc_search::parse_sections;

fn headings(content: &str) -> Vec<(u8, String, Vec<String>)> {
    parse_sections(content)
        .into_iter()
        .map(|s| (s.level, s.heading, s.breadcrumb))
        .collect()
}

fn bodies(content: &str) -> Vec<String> {
    parse_sections(content)
        .into_iter()
        .map(|s| content[s.range.clone()].to_string())
        .collect()
}

#[test]
fn heading_inside_code_fence_is_body() {
    let content = "# Page\n\n```python\n# not a heading\nx = 1\n```\n\n## Real\n\nbody\n";
    assert_eq!(
        headings(content),
        vec![
            (1u8, "Page".to_string(), vec![]),
            (2u8, "Real".to_string(), vec!["Page".to_string()]),
        ]
    );
    assert!(bodies(content)[0].contains("# not a heading"));
}

#[test]
fn tilde_fence_is_respected() {
    let content = "# Page\n\n~~~\n# not a heading either\n~~~\n\n## Real\n\nbody\n";
    assert_eq!(headings(content).len(), 2);
    assert!(bodies(content)[0].contains("# not a heading either"));
}

#[test]
fn closing_fence_must_be_at_least_as_long() {
    let content = "# T\n\n````\n``` inner\nstill code\n````\n\n## After\n\nb\n";
    assert_eq!(headings(content).len(), 2);
    assert!(bodies(content)[0].contains("still code"));
}

#[test]
fn preamble_is_indexed() {
    let content = "Intro text.\n\n# Page\n\nbody\n";
    let secs = parse_sections(content);
    assert_eq!(secs[0].level, 0);
    assert!(secs[0].heading.is_empty());
    assert_eq!(&content[secs[0].range.clone()], "Intro text.\n\n");
    assert_eq!(secs[1].heading, "Page");
}

#[test]
fn setext_headings_split() {
    let content = "Title line\n===\n\nbody one\n\nSub\n---\n\nbody two\n";
    assert_eq!(
        headings(content),
        vec![
            (1u8, "Title line".to_string(), vec![]),
            (2u8, "Sub".to_string(), vec!["Title line".to_string()]),
        ]
    );
    let bs = bodies(content);
    assert_eq!(bs[0], "\nbody one\n\n");
    assert_eq!(bs[1], "\nbody two\n");
}

#[test]
fn thematic_break_after_blank_line_is_not_a_heading() {
    let content = "Para\n\n---\n\n# Page\n\nb\n";
    assert_eq!(
        headings(content),
        vec![
            (0u8, String::new(), vec![]),
            (1u8, "Page".to_string(), vec![])
        ]
    );
    assert!(bodies(content)[0].contains("---"));
}

#[test]
fn heading_indent_and_hash_rules() {
    let content = "    # indented code\n\n# yes\n\n##also not\n\n  ## also\n\nbody of also\n\n   ### three\n\n#### four stays body\n";
    assert_eq!(
        headings(content)
            .into_iter()
            .map(|(l, t, _)| (l, t))
            .collect::<Vec<_>>(),
        vec![
            (0u8, String::new()),
            (1u8, "yes".to_string()),
            (2u8, "also".to_string()),
            (3u8, "three".to_string()),
        ]
    );
    let secs = parse_sections(content);
    let find = |name: &str| secs.iter().find(|s| s.heading == name).unwrap();
    assert_eq!(find("also").breadcrumb, ["yes"]);
    assert_eq!(find("three").breadcrumb, ["yes", "also"]);
    assert!(bodies(content)[0].contains("# indented code"));
}

#[test]
fn h4_does_not_split() {
    let content = "# P\n\n#### Deep\n\nstill same section\n";
    assert_eq!(headings(content).len(), 1);
    assert!(bodies(content)[0].contains("#### Deep"));
}

#[test]
fn h3_inherits_h2_breadcrumb_and_bare_headings_are_penalized() {
    let content = "# Page\n\n## Opts\n\n### Solver\n\ns body\n\n### Other\n\no body\n\n## Tail\n\nt body\n";
    let secs = parse_sections(content);
    let find = |name: &str| secs.iter().find(|s| s.heading == name).unwrap();
    assert_eq!(find("Solver").breadcrumb, ["Page", "Opts"]);
    assert_eq!(find("Other").breadcrumb, ["Page", "Opts"]);
    assert_eq!(find("Tail").breadcrumb, ["Page"]);
    // The bare `## Options` heading stays indexed but flagged bodyless.
    assert!(!find("Opts").has_body);
    assert!(find("Solver").has_body);
}

#[test]
fn crlf_and_no_trailing_newline() {
    let content = "# P\r\n\r\nbody line\r\n## Tail";
    let secs = parse_sections(content);
    // The trailing bare heading stays indexed (flagged bodyless).
    assert_eq!(secs.len(), 2);
    assert_eq!(secs[0].heading, "P");
    assert!(secs[0].has_body);
    assert_eq!(secs[1].heading, "Tail");
    assert!(!secs[1].has_body);
    assert!(bodies(content)[0].contains("body line"));
}

#[test]
fn file_without_headings_is_one_preamble_section() {
    let secs = parse_sections("just\nplain text\n");
    assert_eq!(secs.len(), 1);
    assert_eq!(secs[0].level, 0);
}
