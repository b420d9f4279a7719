use skript_parser::raw_tree::{
    leading_whitespace_end, parse_raw_tree, split_line, IndentKind, Indentation, LineEnding,
    MultilineCommentSupport, RawDiagnosticCode, RawNode, RawNodeId, RawNodeKind, RawTree,
    RawTreeOptions, RawTriviaKind,
};
use skript_parser::source_map::{MappedSource, SourceOrigin, TextEdit, TextExpansion};
use skript_parser::text::TextRange;

fn parse(source: &str) -> RawTree {
    parse_version(source, 2, 9)
}

fn parse_version(source: &str, major: u32, minor: u32) -> RawTree {
    parse_raw_tree(
        &MappedSource::identity(source),
        RawTreeOptions::for_skript_version(major, minor),
    )
}

fn node(tree: &RawTree, id: RawNodeId) -> &RawNode {
    tree.get(id).expect("test node must exist")
}

#[test]
fn splits_physical_lines_losslessly() {
    let source = "first\r\n\n日本語";
    let tree = parse(source);

    assert_eq!(tree.nodes.len(), 3);
    assert_eq!(
        tree.nodes.iter().map(|node| node.kind).collect::<Vec<_>>(),
        [RawNodeKind::Simple, RawNodeKind::Blank, RawNodeKind::Simple]
    );
    assert_eq!(tree.nodes[0].line.line_ending, LineEnding::CrLf);
    assert_eq!(tree.nodes[1].line.line_ending, LineEnding::Lf);
    assert_eq!(tree.nodes[2].line.line_ending, LineEnding::Absent);
    assert_eq!(
        tree.nodes
            .iter()
            .map(|node| format!("{}{}", node.line.raw_text, node.line.line_ending.as_str()))
            .collect::<String>(),
        source
    );
    assert_eq!(
        tree.nodes[2].line.content_span.primary_origin(),
        Some(SourceOrigin::exact(TextRange::new(8, 17), None))
    );

    let trailing_newline = parse("line\n");
    assert_eq!(trailing_newline.nodes.len(), 1);
    assert_eq!(trailing_newline.nodes[0].line.line_ending, LineEnding::Lf);

    let blank_line = parse("\n");
    assert_eq!(blank_line.nodes.len(), 1);
    assert_eq!(blank_line.nodes[0].kind, RawNodeKind::Blank);
}

#[test]
fn matches_skript_comment_splitting_rules() {
    let cases = [
        ("", "", None),
        ("ab", "ab", None),
        ("ab#", "ab", Some("#")),
        ("ab##", "ab#", None),
        ("ab###", "ab#", Some("#")),
        ("#ab", "", Some("#ab")),
        ("ab#cd", "ab", Some("#cd")),
        ("ab##cd", "ab#cd", None),
        ("ab###cd", "ab#", Some("#cd")),
        ("######", "", Some("######")),
        ("#######", "", Some("#######")),
        ("#### # ####", "", Some("#### # ####")),
        ("##### ####", "", Some("##### ####")),
        ("#### #####", "", Some("#### #####")),
        ("#########", "", Some("#########")),
        ("a##b#c##d#e", "a#b", Some("#c##d#e")),
        (" a ## b # c ## d # e ", " a # b ", Some("# c ## d # e ")),
        ("a b \"#a  ##\" # b \"", "a b \"#a  ##\" ", Some("# b \"")),
    ];

    for (input, expected_value, expected_comment) in cases {
        let split = split_line(
            input,
            false,
            leading_whitespace_end(input),
            MultilineCommentSupport::TripleHash,
        );
        assert_eq!(split.value, expected_value, "{input:?}");
        assert_eq!(
            split.comment.map(|comment| &input[comment.start..]),
            expected_comment,
            "{input:?}"
        );
    }
}

#[test]
fn preserves_comments_escaped_hashes_and_trivia() {
    let source =
        "on load: # header\n    set {_x##} to \"##\" # tail\n    ###\n    ignored\n    ###\n";
    let tree = parse(source);
    let section = node(&tree, tree.roots[0]);

    assert_eq!(section.kind, RawNodeKind::Section);
    assert_eq!(section.text, "on load");
    assert_eq!(section.children.len(), 4);
    let simple = node(&tree, section.children[0]);
    assert_eq!(simple.text, "set {_x#} to \"##\"");
    assert_eq!(
        simple
            .line
            .trailing_trivia
            .iter()
            .map(|trivia| trivia.kind)
            .collect::<Vec<_>>(),
        [
            RawTriviaKind::Whitespace,
            RawTriviaKind::LineComment,
            RawTriviaKind::LineEnding
        ]
    );
    assert_eq!(
        section.children[1..]
            .iter()
            .map(|id| node(&tree, *id).kind)
            .collect::<Vec<_>>(),
        [RawNodeKind::Comment, RawNodeKind::Comment, RawNodeKind::Comment]
    );
    assert!(tree.diagnostics.is_empty());
}

#[test]
fn selects_multiline_comment_support_from_the_skript_version() {
    assert_eq!(
        RawTreeOptions::for_skript_version(2, 8).multiline_comments,
        MultilineCommentSupport::Unsupported
    );
    assert_eq!(
        RawTreeOptions::for_skript_version(2, 9).multiline_comments,
        MultilineCommentSupport::TripleHash
    );
    assert_eq!(
        RawTreeOptions::for_skript_version(3, 0).multiline_comments,
        MultilineCommentSupport::TripleHash
    );
}

#[test]
fn triple_hash_lines_are_version_gated() {
    let source = "before\n###\ninside\n###\nafter\n";
    let legacy = parse_version(source, 2, 8);
    let modern = parse_version(source, 2, 9);

    assert_eq!(legacy.nodes[2].kind, RawNodeKind::Simple);
    assert_eq!(legacy.nodes[2].text, "inside");
    assert_eq!(
        legacy.nodes[1].line.trailing_trivia[0].kind,
        RawTriviaKind::LineComment
    );
    assert!(legacy.diagnostics.is_empty());

    assert_eq!(modern.nodes[2].kind, RawNodeKind::Comment);
    assert_eq!(
        modern.nodes[1].line.trailing_trivia[0].kind,
        RawTriviaKind::BlockComment
    );
    assert!(modern.diagnostics.is_empty());
}

#[test]
fn triple_hashes_in_the_middle_of_a_line_never_toggle_block_comments() {
    for version in [(2, 8), (2, 9)] {
        let tree = parse_version("hello ### there\nnext\n", version.0, version.1);

        assert_eq!(tree.nodes[0].kind, RawNodeKind::Simple);
        assert_eq!(tree.nodes[0].text, "hello #");
        assert_eq!(tree.nodes[1].kind, RawNodeKind::Simple);
        assert_eq!(tree.nodes[1].text, "next");
        assert!(tree.nodes[0]
            .line
            .trailing_trivia
            .iter()
            .any(|trivia| trivia.kind == RawTriviaKind::LineComment));
        assert!(tree.diagnostics.is_empty());
    }
}

#[test]
fn block_comment_interior_keeps_block_trivia_kind() {
    let source = "###\n### still inside\n# also inside\n###\nsend \"done\"\n";
    let tree = parse(source);

    assert_eq!(
        tree.nodes[..4]
            .iter()
            .map(|node| {
                node.line
                    .trailing_trivia
                    .iter()
                    .find(|trivia| {
                        matches!(
                            trivia.kind,
                            RawTriviaKind::LineComment | RawTriviaKind::BlockComment
                        )
                    })
                    .map(|trivia| trivia.kind)
            })
            .collect::<Vec<_>>(),
        [Some(RawTriviaKind::BlockComment); 4]
    );
    assert_eq!(tree.nodes[4].kind, RawNodeKind::Simple);
    assert!(tree.diagnostics.is_empty());
}

#[test]
fn builds_nested_space_indented_sections_and_spans() {
    let source = "on load:\n    send \"a\"\n    if true:\n        send \"b\"\nsend \"done\"";
    let tree = parse(source);

    assert_eq!(
        tree.indentation,
        Some(Indentation {
            kind: IndentKind::Space,
            unit: "    ".to_owned()
        })
    );
    assert_eq!(tree.roots.len(), 2);
    let outer = node(&tree, tree.roots[0]);
    let root_simple = node(&tree, tree.roots[1]);
    assert_eq!(outer.kind, RawNodeKind::Section);
    assert_eq!(outer.indent_level, Some(0));
    assert_eq!(outer.children.len(), 2);
    assert_eq!(root_simple.parent, None);
    assert_eq!(root_simple.text, "send \"done\"");

    let nested = node(&tree, outer.children[1]);
    assert_eq!(nested.kind, RawNodeKind::Section);
    assert_eq!(nested.parent, Some(outer.id));
    assert_eq!(nested.indent_level, Some(1));
    assert_eq!(node(&tree, nested.children[0]).indent_level, Some(2));
    assert_eq!(
        nested
            .header_span
            .as_ref()
            .and_then(|span| span.virtual_range.slice(source)),
        Some("if true:")
    );
    assert_eq!(
        nested
            .body_span
            .as_ref()
            .and_then(|span| span.virtual_range.slice(source)),
        Some("        send \"b\"\n")
    );
    assert_eq!(
        outer.span.virtual_range.slice(source),
        Some("on load:\n    send \"a\"\n    if true:\n        send \"b\"\n")
    );
    assert!(tree.diagnostics.is_empty());
}

#[test]
fn supports_tab_indentation() {
    let tree = parse("on load:\n\tsend \"a\"\n\tif true:\n\t\tsend \"b\"\n");

    assert_eq!(
        tree.indentation,
        Some(Indentation {
            kind: IndentKind::Tab,
            unit: "\t".to_owned()
        })
    );
    assert_eq!(tree.nodes[3].indent_level, Some(2));
    assert!(tree.diagnostics.is_empty());
}

#[test]
fn recovers_after_mixed_over_and_partial_indentation() {
    let source = "on load:\n \tbroken mixed\n    send \"recovered\"\n        broken too deep\n  broken partial\n    send \"after\"\nsend \"root\"\n";
    let tree = parse(source);

    assert_eq!(
        tree.nodes.iter().map(|node| node.kind).collect::<Vec<_>>(),
        [
            RawNodeKind::Section,
            RawNodeKind::Invalid,
            RawNodeKind::Simple,
            RawNodeKind::Invalid,
            RawNodeKind::Invalid,
            RawNodeKind::Simple,
            RawNodeKind::Simple,
        ]
    );
    assert_eq!(
        tree.diagnostics
            .iter()
            .map(|diagnostic| diagnostic.code)
            .collect::<Vec<_>>(),
        [
            RawDiagnosticCode::MixedIndentation,
            RawDiagnosticCode::UnexpectedIndentation,
            RawDiagnosticCode::InvalidIndentation,
        ]
    );
    assert_eq!(tree.nodes[5].parent, Some(tree.nodes[0].id));
    assert_eq!(tree.nodes[6].parent, None);
}

#[test]
fn comments_ignore_indentation_and_empty_sections_warn() {
    let source = "on load:\n# still belongs to the section\n\nsend \"root\"\n";
    let tree = parse(source);
    let section = node(&tree, tree.roots[0]);

    assert_eq!(section.children.len(), 2);
    assert_eq!(node(&tree, section.children[0]).kind, RawNodeKind::Comment);
    assert_eq!(node(&tree, section.children[1]).kind, RawNodeKind::Blank);
    assert_eq!(tree.roots.len(), 2);
    assert_eq!(tree.diagnostics.len(), 1);
    assert_eq!(tree.diagnostics[0].code, RawDiagnosticCode::EmptySection);
    assert_eq!(
        section
            .body_span
            .as_ref()
            .and_then(|span| span.virtual_range.slice(source)),
        Some("# still belongs to the section\n\n")
    );
}

#[test]
fn empty_section_without_a_final_newline_has_an_empty_body_span() {
    let source = "on load:";
    let tree = parse(source);
    let section = &tree.nodes[0];

    assert_eq!(section.kind, RawNodeKind::Section);
    assert_eq!(
        section.body_span.as_ref().unwrap().virtual_range,
        TextRange::empty(source.len())
    );
    assert_eq!(tree.diagnostics[0].code, RawDiagnosticCode::EmptySection);
}

#[test]
fn legacy_triple_hashes_do_not_open_an_unclosed_block_comment() {
    let tree = parse_version("###\ncode\n", 2, 8);

    assert_eq!(tree.nodes[0].kind, RawNodeKind::Comment);
    assert_eq!(tree.nodes[1].kind, RawNodeKind::Simple);
    assert!(tree.diagnostics.is_empty());
}

#[test]
fn reports_unclosed_block_comments_at_the_opening_marker() {
    let source = "###\ncomment\n";
    let tree = parse(source);

    assert_eq!(tree.nodes.len(), 2);
    assert!(tree
        .nodes
        .iter()
        .all(|node| node.kind == RawNodeKind::Comment));
    assert_eq!(tree.diagnostics.len(), 1);
    let diagnostic = &tree.diagnostics[0];
    assert_eq!(diagnostic.code, RawDiagnosticCode::UnclosedBlockComment);
    assert_eq!(diagnostic.span.virtual_range.slice(source), Some("###"));
    assert_eq!(
        diagnostic.related[0].span.virtual_range,
        TextRange::empty(source.len())
    );
}

#[test]
fn empty_documents_have_no_physical_nodes() {
    let tree = parse("");
    assert!(tree.nodes.is_empty());
    assert!(tree.roots.is_empty());
    assert!(tree.diagnostics.is_empty());
}

#[test]
fn arbitrary_node_ids_are_safe_to_query() {
    let tree = parse("send \"hello\"");

    assert_eq!(tree.get(RawNodeId::new(0)), tree.nodes.first());
    assert_eq!(tree.get(RawNodeId::new(u64::MAX)), None);
}

#[test]
fn mapped_sources_keep_macro_origins_on_raw_nodes() {
    let expanded = MappedSource::identity("abc")
        .apply_text_edits(
            vec![
                TextEdit::new(TextRange::new(0, 1), "A"),
                TextEdit::new(TextRange::new(2, 3), "C"),
            ],
            TextExpansion::new("test.component", "expand"),
        )
        .unwrap();
    let tree = parse_raw_tree(&expanded.source, RawTreeOptions::for_skript_version(2, 9));

    assert_eq!(tree.nodes.len(), 1);
    assert_eq!(tree.nodes[0].line.raw_text, "AbC");
    assert_eq!(
        tree.nodes[0]
            .line
            .span
            .origins
            .iter()
            .map(|origin| origin.original_range)
            .collect::<Vec<_>>(),
        [
            TextRange::new(0, 1),
            TextRange::new(1, 2),
            TextRange::new(2, 3),
        ]
    );
}

#[test]
fn unicode_sources_are_lossless_and_have_valid_spans() {
    let source = "on é:\r\n\t日本 # c\rx\u{2003}y\n\n   ";
    let tree = parse(source);
    let reconstructed = tree
        .nodes
        .iter()
        .map(|node| format!("{}{}", node.line.raw_text, node.line.line_ending.as_str()))
        .collect::<String>();
    assert_eq!(reconstructed, source);
    for node in &tree.nodes {
        assert!(node.span.virtual_range.is_valid_for(source));
        assert!(node.line.span.virtual_range.is_valid_for(source));
        assert!(node.line.content_span.virtual_range.is_valid_for(source));
        assert!(node.line.line_ending_span.virtual_range.is_valid_for(source));
        assert!(node.line.indentation.span.virtual_range.is_valid_for(source));
        for trivia in &node.line.trailing_trivia {
            assert!(trivia.span.virtual_range.is_valid_for(source));
        }
        if let Some(parent) = node.parent {
            assert!(tree.get(parent).is_some());
        }
        for child in &node.children {
            assert_eq!(tree.get(*child).and_then(|node| node.parent), Some(node.id));
        }
    }
}

#[test]
fn names_diagnostic_codes_and_line_endings() {
    assert_eq!(RawDiagnosticCode::MixedIndentation.as_str(), "mixed-indentation");
    assert_eq!(RawDiagnosticCode::EmptySection.as_str(), "empty-section");
    assert_eq!(RawDiagnosticCode::UnclosedBlockComment.as_str(), "unclosed-block-comment");
    assert_eq!(LineEnding::CrLf.as_str(), "\r\n");
    assert_eq!(LineEnding::Cr.as_str(), "\r");
    assert_eq!(LineEnding::Absent.as_str(), "");
}

#[test]
fn reports_indentation_messages() {
    let tree = parse("on load:\n    a\n  b\n\tc\n");
    let messages = tree
        .diagnostics
        .iter()
        .map(|diagnostic| diagnostic.message.clone())
        .collect::<Vec<_>>();
    assert_eq!(
        messages,
        [
            "indentation must use repetitions of \"    \"".to_owned(),
            "indentation must use repetitions of \"    \"".to_owned(),
        ]
    );
    let tree = parse("  x\n");
    assert_eq!(
        tree.diagnostics[0].message,
        "expected indentation level 0, found level 1"
    );
}

#[test]
fn empty_section_warnings_follow_source_order() {
    let source = "on load:\non join:\n\tsend \"x\"\non quit:\n";
    let tree = parse(source);

    assert_eq!(tree.diagnostics.len(), 2);
    assert_eq!(tree.diagnostics[0].code, RawDiagnosticCode::EmptySection);
    assert_eq!(tree.diagnostics[1].code, RawDiagnosticCode::EmptySection);
    assert_eq!(tree.diagnostics[0].span.virtual_range.start, 0);
    assert_eq!(tree.diagnostics[1].span.virtual_range.start, 28);
    let join = &tree.nodes[1];
    assert_eq!(join.span.virtual_range, TextRange::new(9, 28));
    assert_eq!(
        join.body_span.as_ref().unwrap().virtual_range,
        TextRange::new(18, 28)
    );
}
