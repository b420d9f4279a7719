use skript_parser::raw_tree::{parse_raw_tree, RawNodeId, RawTree, RawTreeOptions};
use skript_parser::section::{section_header_range, SectionParseError};
use skript_parser::source_map::MappedSource;
use skript_parser::structure::{
    section_diagnostic_to_structure, strip_prefix_ignore_ascii_case, structure_header_range,
    StructureDiagnosticKind, StructureParseError,
};
use skript_parser::pattern_match::MatchSpan;
use skript_parser::section::{SectionDiagnostic, SectionDiagnosticKind};
use skript_parser::text::TextRange;

fn tree(source: &MappedSource) -> RawTree {
    parse_raw_tree(source, RawTreeOptions::for_skript_version(2, 9))
}

#[test]
fn section_headers_drop_the_colon_and_surrounding_spaces() {
    let source = MappedSource::identity("on  load  :\n    stop\n");
    let tree = tree(&source);
    let section = tree.get(RawNodeId::new(0)).unwrap();
    assert_eq!(
        section_header_range(&source, section),
        Ok(TextRange::new(0, 8))
    );
    assert_eq!(
        structure_header_range(&source, section),
        Ok(TextRange::new(0, 8))
    );
    let simple = tree.get(RawNodeId::new(1)).unwrap();
    assert_eq!(
        section_header_range(&source, simple),
        Err(SectionParseError::MissingHeaderColon)
    );
    assert_eq!(
        structure_header_range(&source, simple),
        Ok(TextRange::new(16, 20))
    );
}

#[test]
fn headers_need_a_code_span_inside_the_source() {
    let source = MappedSource::identity("# comment\n");
    let tree = tree(&source);
    let comment = tree.get(RawNodeId::new(0)).unwrap();
    assert_eq!(
        structure_header_range(&source, comment),
        Err(StructureParseError::MissingCodeSpan {
            node_id: RawNodeId::new(0)
        })
    );
    let other = MappedSource::identity("x:\n");
    let mut node = tree.get(RawNodeId::new(0)).unwrap().clone();
    node.code_span = Some(other.map_range(TextRange::new(0, 2)).unwrap());
    node.code_span.as_mut().unwrap().virtual_range = TextRange::new(0, 50);
    assert_eq!(
        section_header_range(&source, &node),
        Err(SectionParseError::InvalidRange {
            range: TextRange::new(0, 50)
        })
    );
}

#[test]
fn prefixes_are_stripped_ignoring_ascii_case() {
    assert_eq!(strip_prefix_ignore_ascii_case("OPTIONS: x", "options"), Some(": x"));
    assert_eq!(strip_prefix_ignore_ascii_case("opt", "options"), None);
    assert_eq!(strip_prefix_ignore_ascii_case("äbc", "ab"), None);
    assert_eq!(strip_prefix_ignore_ascii_case("abc", ""), Some("abc"));
}

#[test]
fn section_diagnostics_become_structure_diagnostics() {
    let source = MappedSource::identity("x");
    let span = MatchSpan {
        local_range: TextRange::new(0, 1),
        mapped: source.map_range(TextRange::new(0, 1)).unwrap(),
    };
    let converted = section_diagnostic_to_structure(SectionDiagnostic {
        raw_node_id: RawNodeId::new(3),
        kind: SectionDiagnosticKind::MultipleClaims,
        span: span.clone(),
    });
    assert_eq!(converted.raw_node_id, Some(RawNodeId::new(3)));
    assert_eq!(converted.kind, StructureDiagnosticKind::MultipleClaims);
    assert_eq!(converted.span, span);
    assert_eq!(
        converted.message,
        "Structure trigger child could not be parsed uniquely"
    );
}
