use notevault::parser::MarkdownParser;
use notevault::yaml::YamlField;

#[test]
fn test_parse_frontmatter() {
    let parser = MarkdownParser::new();
    let content = "---\ntitle: Test Note\ntags: [rust, programming]\n---\n\n# Hello World\n\nThis is a test note.";

    let parsed = parser.parse(content);

    assert_eq!(parsed.title, "Test Note");
    assert!(parsed.frontmatter.is_some());
    assert!(parsed.tags.contains(&"rust".to_string()));
    assert!(parsed.tags.contains(&"programming".to_string()));
}

#[test]
fn test_extract_wikilinks() {
    let parser = MarkdownParser::new();
    let content = "Check out [[Another Note]] and [[Folder/Note|Display Text]]";

    let parsed = parser.parse(content);

    assert_eq!(parsed.wikilinks.len(), 2);
    assert_eq!(parsed.wikilinks[0].target, "Another Note");
    assert_eq!(parsed.wikilinks[1].target, "Folder/Note");
    assert_eq!(parsed.wikilinks[1].display, Some("Display Text".to_string()));
}

#[test]
fn test_extract_tags() {
    let parser = MarkdownParser::new();
    let content = "This is a #test note with #multiple/nested tags";

    let parsed = parser.parse(content);

    assert!(parsed.tags.contains(&"test".to_string()));
    assert!(parsed.tags.contains(&"multiple/nested".to_string()));
}

#[test]
fn test_extract_headings() {
    let parser = MarkdownParser::new();
    let content = "# Main Title\n\nSome content\n\n## Section 1\n\nMore content\n\n### Subsection\n\nEven more";

    let parsed = parser.parse(content);

    assert_eq!(parsed.headings.len(), 3);
    assert_eq!(parsed.headings[0].level, 1);
    assert_eq!(parsed.headings[0].text, "Main Title");
    assert_eq!(parsed.headings[1].level, 2);
    assert_eq!(parsed.headings[2].level, 3);
}

#[test]
fn parses_a_whole_note() {
    let parser = MarkdownParser::new();
    let parsed = parser.parse(
        "---\ntitle: Alpha\ntags: [work, ideas]\n---\n\n# Heading One\n\nSee [[Beta|the beta note]] and #planning.\n",
    );

    assert_eq!(parsed.title, "Alpha");
    assert_eq!(parsed.tags, vec!["work".to_string(), "ideas".to_string(), "planning".to_string()]);
    assert_eq!(parsed.wikilinks.len(), 1);
    assert_eq!(parsed.wikilinks[0].target, "Beta");
    assert_eq!(parsed.wikilinks[0].display, Some("the beta note".to_string()));
    assert_eq!(parsed.wikilinks[0].line, 3);
    assert_eq!(parsed.headings.len(), 1);
    assert_eq!(parsed.headings[0].level, 1);
    assert_eq!(parsed.headings[0].text, "Heading One");
    assert_eq!(parsed.headings[0].line, 1);
    assert_eq!(parsed.frontmatter_raw, Some("title: Alpha\ntags: [work, ideas]".to_string()));
    assert_eq!(parsed.content, "# Heading One\n\nSee [[Beta|the beta note]] and #planning.\n");
}

#[test]
fn tags_hold_nothing_twice() {
    let parser = MarkdownParser::new();
    let parsed = parser.parse("---\ntags: [a, b, a]\n---\n#b and #c and #a\n#c again");
    assert_eq!(parsed.tags, vec!["a".to_string(), "b".to_string(), "c".to_string()]);
}

#[test]
fn tags_between_fences_are_ignored() {
    let parser = MarkdownParser::new();
    let parsed = parser.parse("text\n```\n#hidden\n  #also\n```\nafter");
    assert!(parsed.tags.is_empty());
    let open = parser.parse("```rust\n#one\n```\n#two\n```\n#three");
    assert_eq!(open.tags, vec!["two".to_string()]);
}

#[test]
fn headings_between_fences_are_ignored() {
    let parser = MarkdownParser::new();
    let parsed = parser.parse("# One\n```\n# Not a heading\n```\n###### Six\n####### Seven");
    assert_eq!(parsed.headings.len(), 2);
    assert_eq!(parsed.headings[0].text, "One");
    assert_eq!(parsed.headings[1].level, 6);
    assert_eq!(parsed.headings[1].line, 5);
}

#[test]
fn wikilinks_skip_fence_lines_only() {
    let parser = MarkdownParser::new();
    let parsed = parser.parse("``` [[Opening]]\n[[Inside]]\n```\n[[ Spaced | shown ]] [[|x]] [[ ]]");
    assert_eq!(parsed.wikilinks.len(), 2);
    assert_eq!(parsed.wikilinks[0].target, "Inside");
    assert_eq!(parsed.wikilinks[0].line, 2);
    assert_eq!(parsed.wikilinks[0].display, None);
    assert_eq!(parsed.wikilinks[1].target, "Spaced");
    assert_eq!(parsed.wikilinks[1].display, Some("shown".to_string()));
    assert_eq!(parsed.wikilinks[1].line, 4);
}

#[test]
fn frontmatter_with_carriage_returns() {
    let parser = MarkdownParser::new();
    let parsed = parser.parse("---\r\ntitle: Crlf\r\n---\r\nBody #tag\r\nsecond");
    assert_eq!(parsed.title, "Crlf");
    assert_eq!(parsed.frontmatter_raw, Some("title: Crlf".to_string()));
    assert_eq!(parsed.content, "Body #tag\r\nsecond");
    assert_eq!(parsed.tags, vec!["tag".to_string()]);
}

#[test]
fn frontmatter_that_is_no_mapping_is_kept_raw() {
    let parser = MarkdownParser::new();
    let parsed = parser.parse("---\n- just\n- a list\n---\n# Title here\n");
    assert!(parsed.frontmatter.is_none());
    assert_eq!(parsed.frontmatter_raw, Some("- just\n- a list".to_string()));
    assert_eq!(parsed.title, "Title here");
    assert_eq!(parsed.content, "# Title here\n");
}

#[test]
fn no_frontmatter_no_heading_gives_empty_title() {
    let parser = MarkdownParser::new();
    let parsed = parser.parse("just text");
    assert_eq!(parsed.title, "");
    assert!(parsed.frontmatter.is_none());
    assert!(parsed.frontmatter_raw.is_none());
    assert_eq!(parsed.content, "just text");
}

#[test]
fn frontmatter_tags_as_comma_separated_text() {
    let parser = MarkdownParser::new();
    let parsed = parser.parse("---\ntags: \"#one, two , ,#three\"\n---\nbody");
    assert_eq!(parsed.tags, vec!["one".to_string(), "two".to_string(), "three".to_string()]);
    match parsed.frontmatter {
        Some(fm) => {
            assert!(matches!(fm.tags, YamlField::Text(_)));
            assert!(matches!(fm.title, YamlField::Missing));
        }
        None => panic!("the block is a mapping"),
    }
}

#[test]
fn frontmatter_tag_list_skips_what_is_no_string() {
    let parser = MarkdownParser::new();
    let parsed = parser.parse("---\ntags: [\"#x\", 3, y]\n---\n");
    assert_eq!(parsed.tags, vec!["x".to_string(), "y".to_string()]);
}

#[test]
fn to_markdown_gives_the_parsed_text_back() {
    let parser = MarkdownParser::new();
    for text in [
        "---\ntitle: A\n---\nBody\n",
        "---\ntitle: T\ntags: [a]\n---\n\n# H\n\ntext\n",
        "---\r\ntitle: Crlf\r\n---\r\n\r\nBody",
        "---\n- no\n- mapping\n---\nBody",
        "---\ntitle: T\n---",
        "Body only",
        "",
    ] {
        let parsed = parser.parse(text);
        assert_eq!(parser.to_markdown(&parsed), text);
        assert_eq!(parser.parse(&parser.to_markdown(&parsed)).content, parsed.content);
    }
    let parsed = parser.parse("---\ntitle: A\n---\nBody\n");
    assert_eq!(parsed.content, "Body\n");
    assert_eq!(parsed.preamble, "---\ntitle: A\n---\n");
    let spaced = parser.parse("---\ntitle: A\n---\n\nBody\n");
    assert_eq!(spaced.content, "Body\n");
    assert_eq!(spaced.preamble, "---\ntitle: A\n---\n\n");
}

#[test]
fn white_space_of_every_kind_is_trimmed() {
    let parser = MarkdownParser::new();
    let parsed = parser.parse("[[\u{2003}Wide\u{a0}|\u{1680}shown\u{205f}]]\n\u{3000}```\n#in\n```\n\u{200b}```\n#out");
    assert_eq!(parsed.wikilinks[0].target, "Wide");
    assert_eq!(parsed.wikilinks[0].display, Some("shown".to_string()));
    assert_eq!(parsed.tags, vec!["out".to_string()]);
}

#[test]
fn inline_tags_have_the_form_of_a_tag() {
    let parser = MarkdownParser::new();
    let parsed = parser.parse("#a1_b/c-d, [#x] #9no ##no x#no #\u{e9}no #ok\u{e9} no hash here");
    assert_eq!(parsed.tags, vec!["a1_b/c-d".to_string(), "x".to_string(), "ok".to_string()]);
    for tag in &parsed.tags {
        assert!(!tag.starts_with('#'));
        assert!(tag.chars().next().map_or(false, |c| c.is_ascii_alphabetic()));
    }
}
