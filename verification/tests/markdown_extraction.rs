use codefacts::indexer::markdown::{extract_headings, extract_markdown};
use codefacts::types::EdgeKind;

#[test]
fn extracts_atx_headings_without_fenced_or_empty_markers() {
    let headings = extract_headings(
        "README.md",
        "# Title\n```rust\n# not a heading\n```\n### Detail ###\n#\nplain text",
    );
    assert_eq!(headings.len(), 2);
    assert_eq!(headings[0].name, "Title");
    assert_eq!(headings[1].name, "Detail");
    assert_eq!(headings[1].start_line, 5);
}

#[test]
fn extracts_heading_hierarchy_sections_and_internal_links() {
    let extraction = extract_markdown(
        "README.md",
        "# Overview\nIntro text.\n## Install\nInstall text. [Back](#overview)\n```md\n[Fake](#overview)\n```\n# Finish\nDone.",
    );
    assert_eq!(extraction.nodes.len(), 3);
    let overview = &extraction.nodes[0];
    let install = &extraction.nodes[1];
    assert_eq!(overview.end_line, 7);
    assert_eq!(
        overview.body.as_deref(),
        Some("Intro text.\n## Install\nInstall text. [Back](#overview)\n```md\n[Fake](#overview)\n```")
    );
    assert_eq!(install.qualified_name.as_deref(), Some("Overview > Install"));
    assert!(extraction.edges.iter().any(|edge| {
        edge.kind == EdgeKind::Contains && edge.source == overview.id && edge.target == install.id
    }));
    assert!(extraction.edges.iter().any(|edge| {
        edge.kind == EdgeKind::References
            && edge.source == install.id
            && edge.target == overview.id
            && edge.line == 4
    }));
}
