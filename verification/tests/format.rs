use marginal::format::{Format, NAMES};

#[test]
fn markdown_is_claimed_by_extension_and_nothing_else_is() {
    for path in ["PLAN.md", "a/b/PLAN.md", "notes.markdown", "SHOUTING.MD"] {
        assert_eq!(Format::of_path(path), Format::Markdown, "{path}");
    }
    for path in [
        "paper.tex",
        "README",
        "notes.txt",
        "doc.rst",
        "notes.org",
        ".md",           // an extensionless dotfile, not a markdown file
        "archive.md.gz", // the last extension is the one that counts
        "",
    ] {
        assert_eq!(Format::of_path(path), Format::Plain, "{path}");
    }
}

#[test]
fn every_advertised_name_parses_and_an_unknown_one_is_rejected() {
    for name in NAMES {
        assert!(Format::from_name(name).is_some(), "{name}");
    }
    for bad in ["md", "latex", "Markdown", "", "tex"] {
        assert_eq!(Format::from_name(bad), None, "{bad}");
    }
}

#[test]
fn the_two_backends_are_actually_different_parsers() {
    let src = "# Heading\n- item one\n- item two\n";
    let md = Format::Markdown.parse(src);
    let plain = Format::Plain.parse(src);
    assert_eq!(
        md.iter().map(|b| b.kind).collect::<Vec<_>>(),
        ["heading", "list-item", "list-item"]
    );
    assert_eq!(
        plain.iter().map(|b| b.kind).collect::<Vec<_>>(),
        ["paragraph"]
    );
    assert!(!Format::Markdown.marks(&Format::Markdown.parse_tree(src), src)[0].is_empty());
    assert!(Format::Plain.marks(&Format::Plain.parse_tree(src), src)[0].is_empty());
}
