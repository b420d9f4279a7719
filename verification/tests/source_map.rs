use skript_parser::expansion::{
    ComponentId, Expansion, ExpansionGraph, ExpansionId, ExpansionKind, ExpansionSite, HookId,
    SyntaxContextId,
};
use skript_parser::source_map::{
    MappedSource, MappedSpan, OriginKind, SourceMapError, SourceMapSegment, SourceOrigin,
    TextEdit, TextEditError, TextExpansion, TreeExpansion, TreeExpansionError,
};
use skript_parser::text::TextRange;

fn expansion(id: u32, parent: Option<u32>, range: TextRange) -> Expansion {
    Expansion {
        id: ExpansionId::new(id),
        kind: ExpansionKind::Text,
        component: ComponentId::new("test-macro"),
        hook: HookId::new("expand"),
        call_sites: vec![ExpansionSite {
            original_range: range,
            expansion: parent.map(ExpansionId::new),
        }],
        definition_site: None,
        syntax_context: SyntaxContextId::new(id),
    }
}

#[test]
fn identity_source_maps_utf8_ranges_exactly() {
    let source = MappedSource::identity("start 日本語 🙂 end");
    let range = TextRange::new(6, 15);
    let mapped = source.map_range(range).unwrap();
    assert_eq!(range.slice(source.virtual_source()), Some("日本語"));
    assert_eq!(mapped.primary_origin(), Some(SourceOrigin::exact(range, None)));
    assert!(!mapped.is_generated());
}

#[test]
fn generated_text_maps_to_anchor_and_keeps_backtrace() {
    let original = "send value";
    let virtual_source = "send generated value";
    let graph = ExpansionGraph::new(vec![
        expansion(1, None, TextRange::new(0, 10)),
        expansion(2, Some(1), TextRange::empty(4)),
    ])
    .unwrap();
    let source = MappedSource::new(
        original,
        virtual_source,
        graph,
        vec![
            SourceMapSegment::new(
                TextRange::new(0, 4),
                SourceOrigin::exact(TextRange::new(0, 4), None),
            ),
            SourceMapSegment::new(
                TextRange::new(4, 14),
                SourceOrigin::anchored(4, ExpansionId::new(2)),
            ),
            SourceMapSegment::new(
                TextRange::new(14, 20),
                SourceOrigin::exact(TextRange::new(4, 10), None),
            ),
        ],
    )
    .unwrap();

    let generated = source.map_range(TextRange::new(5, 14)).unwrap();
    assert_eq!(
        generated.primary_origin(),
        Some(SourceOrigin::anchored(4, ExpansionId::new(2)))
    );
    assert!(generated.is_generated());
    let ids = source
        .expansion_backtrace(ExpansionId::new(2))
        .unwrap()
        .into_iter()
        .map(|item| item.id.get())
        .collect::<Vec<_>>();
    assert_eq!(ids, vec![2, 1]);
}

#[test]
fn replacement_maps_partial_virtual_ranges_to_complete_origin() {
    let graph = ExpansionGraph::new(vec![expansion(1, None, TextRange::new(0, 3))]).unwrap();
    let source = MappedSource::new(
        "foo",
        "barbar",
        graph,
        vec![SourceMapSegment::new(
            TextRange::new(0, 6),
            SourceOrigin::replaced(TextRange::new(0, 3), Some(ExpansionId::new(1))),
        )],
    )
    .unwrap();

    assert_eq!(
        source.map_range(TextRange::new(1, 4)).unwrap().origins,
        vec![SourceOrigin::replaced(TextRange::new(0, 3), Some(ExpansionId::new(1)))]
    );
}

#[test]
fn validates_complete_non_overlapping_segments() {
    let gap = MappedSource::new(
        "abc",
        "abc",
        ExpansionGraph::default(),
        vec![
            SourceMapSegment::new(
                TextRange::new(0, 1),
                SourceOrigin::exact(TextRange::new(0, 1), None),
            ),
            SourceMapSegment::new(
                TextRange::new(2, 3),
                SourceOrigin::exact(TextRange::new(2, 3), None),
            ),
        ],
    )
    .unwrap_err();
    assert!(matches!(gap, SourceMapError::Gap { .. }));

    let mismatch = MappedSource::new(
        "abc",
        "abd",
        ExpansionGraph::default(),
        vec![SourceMapSegment::new(
            TextRange::new(0, 3),
            SourceOrigin::exact(TextRange::new(0, 3), None),
        )],
    )
    .unwrap_err();
    assert!(matches!(mismatch, SourceMapError::ExactTextMismatch { .. }));

    let missing = MappedSource::new(
        "a",
        "x",
        ExpansionGraph::default(),
        vec![SourceMapSegment::with_origins(TextRange::new(0, 1), Vec::new())],
    )
    .unwrap_err();
    assert_eq!(
        missing,
        SourceMapError::MissingOrigins {
            range: TextRange::new(0, 1)
        }
    );

    let multiple_exact = MappedSource::new(
        "a",
        "a",
        ExpansionGraph::default(),
        vec![SourceMapSegment::with_origins(
            TextRange::new(0, 1),
            vec![
                SourceOrigin::exact(TextRange::new(0, 1), None),
                SourceOrigin::exact(TextRange::new(0, 1), None),
            ],
        )],
    )
    .unwrap_err();
    assert!(matches!(multiple_exact, SourceMapError::MultipleExactOrigins { .. }));
}

#[test]
fn validates_expansion_sites_against_original_utf8() {
    let graph = ExpansionGraph::new(vec![expansion(1, None, TextRange::new(1, 2))]).unwrap();
    let error = MappedSource::new(
        "日本語",
        "x",
        graph,
        vec![SourceMapSegment::new(
            TextRange::new(0, 1),
            SourceOrigin::anchored(0, ExpansionId::new(1)),
        )],
    )
    .unwrap_err();
    assert!(matches!(error, SourceMapError::InvalidExpansionSite { .. }));
}

#[test]
fn maps_empty_sources_and_cursors() {
    let empty = MappedSource::identity("");
    assert_eq!(
        empty.map_range(TextRange::empty(0)).unwrap().origins,
        vec![SourceOrigin::exact(TextRange::empty(0), None)]
    );

    let source = MappedSource::identity("abc");
    assert_eq!(
        source.map_range(TextRange::empty(3)).unwrap().origins,
        vec![SourceOrigin::exact(TextRange::empty(3), None)]
    );
}

#[test]
fn identity_mapping_preserves_every_utf8_range() {
    let text = "aé日🙂 z";
    let source = MappedSource::identity(text);
    let mut boundaries = text.char_indices().map(|(offset, _)| offset).collect::<Vec<_>>();
    boundaries.push(text.len());
    for &start in &boundaries {
        for &end in boundaries.iter().filter(|&&end| end >= start) {
            let range = TextRange::new(start, end);
            assert_eq!(
                source.map_range(range).unwrap().primary_origin(),
                Some(SourceOrigin::exact(range, None))
            );
        }
    }
}

#[test]
fn applies_sorted_edits_and_preserves_unmodified_origins() {
    let source = MappedSource::identity("alpha beta");
    let applied = source
        .apply_text_edits(
            vec![
                TextEdit::new(TextRange::new(6, 10), "二"),
                TextEdit::new(TextRange::new(0, 5), "one"),
            ],
            TextExpansion::new("test.component", "sorted"),
        )
        .unwrap();

    assert_eq!(applied.source.virtual_source(), "one 二");
    assert_eq!(applied.generated_bytes, "one二".len());
    let space = applied
        .source
        .map_range(TextRange::new(3, 4))
        .unwrap()
        .primary_origin();
    assert_eq!(space, Some(SourceOrigin::exact(TextRange::new(5, 6), None)));
    let replacement = applied
        .source
        .map_range(TextRange::new(4, 7))
        .unwrap()
        .primary_origin()
        .unwrap();
    assert_eq!(replacement.original_range, TextRange::new(6, 10));
    assert_eq!(replacement.kind, OriginKind::Replaced);
    assert_eq!(replacement.expansion, applied.expansion);
}

#[test]
fn rejects_overlapping_ambiguous_and_invalid_utf8_edits() {
    let source = MappedSource::identity("日abc");
    let ascii = MappedSource::identity("abcdef");
    assert!(matches!(
        ascii.apply_text_edits(
            vec![
                TextEdit::new(TextRange::new(0, 3), "x"),
                TextEdit::new(TextRange::new(2, 4), "y"),
            ],
            TextExpansion::new("test.component", "overlap"),
        ),
        Err(TextEditError::OverlappingEdits { .. })
    ));
    assert!(matches!(
        source.apply_text_edits(
            vec![
                TextEdit::new(TextRange::new(0, 3), "x"),
                TextEdit::new(TextRange::new(2, 4), "y"),
            ],
            TextExpansion::new("test.component", "overlap"),
        ),
        Err(TextEditError::InvalidRange { index: 1, .. })
    ));
    assert!(matches!(
        source.apply_text_edits(
            vec![
                TextEdit::new(TextRange::empty(3), "x"),
                TextEdit::new(TextRange::empty(3), "y"),
            ],
            TextExpansion::new("test.component", "ambiguous"),
        ),
        Err(TextEditError::OverlappingEdits { .. })
    ));
    assert!(matches!(
        source.apply_text_edits(
            vec![TextEdit::anchored(TextRange::new(3, 4), "x", 1)],
            TextExpansion::new("test.component", "anchor"),
        ),
        Err(TextEditError::InvalidAnchor { .. })
    ));
}

#[test]
fn rejects_edits_that_change_nothing() {
    let source = MappedSource::identity("abc");
    assert_eq!(
        source
            .apply_text_edits(
                vec![TextEdit::new(TextRange::empty(1), "")],
                TextExpansion::new("test.component", "noop"),
            )
            .unwrap_err(),
        TextEditError::NoOpEdit { index: 0 }
    );
}

#[test]
fn preserves_empty_batches_and_maps_full_deletions() {
    let source = MappedSource::identity("delete me");
    let unchanged = source
        .apply_text_edits(Vec::new(), TextExpansion::new("test.component", "empty-batch"))
        .unwrap();
    assert_eq!(unchanged.source, source);
    assert_eq!(unchanged.expansion, None);
    assert_eq!(unchanged.generated_bytes, 0);

    let deleted = source
        .apply_text_edits(
            vec![TextEdit::new(TextRange::new(0, "delete me".len()), "")],
            TextExpansion::new("test.component", "delete-all"),
        )
        .unwrap();
    let expansion = deleted.expansion.expect("deletion is an expansion");
    assert_eq!(deleted.source.virtual_source(), "");
    assert_eq!(deleted.source.source_map().segments().len(), 1);
    let origin = deleted
        .source
        .map_range(TextRange::empty(0))
        .unwrap()
        .primary_origin()
        .expect("empty result keeps its deletion origin");
    assert_eq!(origin.original_range, TextRange::new(0, "delete me".len()));
    assert_eq!(origin.kind, OriginKind::Replaced);
    assert_eq!(origin.expansion, Some(expansion));

    let split_deletion = MappedSource::identity("ab")
        .apply_text_edits(
            vec![
                TextEdit::new(TextRange::new(0, 1), ""),
                TextEdit::new(TextRange::new(1, 2), ""),
            ],
            TextExpansion::new("test.component", "split-delete-all"),
        )
        .unwrap();
    let expansion = split_deletion.expansion.unwrap();
    assert_eq!(split_deletion.source.virtual_source(), "");
    assert_eq!(
        split_deletion
            .source
            .map_range(TextRange::empty(0))
            .unwrap()
            .origins,
        [
            SourceOrigin::replaced(TextRange::new(0, 1), Some(expansion)),
            SourceOrigin::replaced(TextRange::new(1, 2), Some(expansion)),
        ]
    );
}

#[test]
fn chained_edits_keep_the_expansion_backtrace() {
    let first = MappedSource::identity("alpha")
        .apply_text_edits(
            vec![TextEdit::new(TextRange::new(0, 5), "日本")],
            TextExpansion::new("first.component", "first"),
        )
        .unwrap();
    let first_id = first.expansion.unwrap();
    let second = first
        .source
        .apply_text_edits(
            vec![TextEdit::new(TextRange::new(0, "日本".len()), "done")],
            TextExpansion::new("second.component", "second"),
        )
        .unwrap();
    let second_id = second.expansion.unwrap();

    assert_eq!(second.source.virtual_source(), "done");
    assert_eq!(
        second
            .source
            .expansion_backtrace(second_id)
            .unwrap()
            .into_iter()
            .map(|item| item.id)
            .collect::<Vec<_>>(),
        [second_id, first_id]
    );
    assert_eq!(
        second
            .source
            .map_range(TextRange::new(0, 4))
            .unwrap()
            .primary_origin()
            .unwrap()
            .original_range,
        TextRange::new(0, 5)
    );
}

#[test]
fn chained_multi_edit_expansions_retain_every_origin_and_parent_path() {
    let first = MappedSource::identity("abc")
        .apply_text_edits(
            vec![
                TextEdit::new(TextRange::new(0, 1), "A"),
                TextEdit::new(TextRange::new(2, 3), "C"),
            ],
            TextExpansion::new("first.component", "outer-characters"),
        )
        .unwrap();
    let first_id = first.expansion.unwrap();
    assert_eq!(first.source.virtual_source(), "AbC");
    assert_eq!(
        first.source.expansions().get(first_id).unwrap().call_sites,
        [
            ExpansionSite::original(TextRange::new(0, 1)),
            ExpansionSite::original(TextRange::new(2, 3)),
        ]
    );

    let second = first
        .source
        .apply_text_edits(
            vec![TextEdit::new(TextRange::new(0, 3), "X")],
            TextExpansion::new("second.component", "merge"),
        )
        .unwrap();
    let second_id = second.expansion.unwrap();
    assert_eq!(second.source.virtual_source(), "X");
    assert_eq!(
        second.source.map_range(TextRange::new(0, 1)).unwrap().origins,
        [
            SourceOrigin::replaced(TextRange::new(0, 1), Some(second_id)),
            SourceOrigin::replaced(TextRange::new(1, 2), Some(second_id)),
            SourceOrigin::replaced(TextRange::new(2, 3), Some(second_id)),
        ]
    );
    assert_eq!(
        second.source.expansions().get(second_id).unwrap().call_sites,
        [
            ExpansionSite::expanded(TextRange::new(0, 1), first_id),
            ExpansionSite::original(TextRange::new(1, 2)),
            ExpansionSite::expanded(TextRange::new(2, 3), first_id),
        ]
    );
    assert_eq!(
        second
            .source
            .expansion_backtraces(second_id)
            .unwrap()
            .into_iter()
            .map(|path| path.into_iter().map(|item| item.id).collect::<Vec<_>>())
            .collect::<Vec<_>>(),
        [vec![second_id, first_id], vec![second_id]]
    );
}

#[test]
fn explicit_anchor_controls_generated_insertions() {
    let source = MappedSource::identity("left right");
    let applied = source
        .apply_text_edits(
            vec![TextEdit::anchored(TextRange::empty(0), "generated ", 5)],
            TextExpansion::new("test.component", "anchor"),
        )
        .unwrap();
    let generated = applied
        .source
        .map_range(TextRange::new(0, 9))
        .unwrap()
        .primary_origin()
        .unwrap();
    assert_eq!(generated.original_range, TextRange::empty(5));
    assert_eq!(generated.kind, OriginKind::Anchored);
}

#[test]
fn utf8_replacements_produce_valid_source_maps() {
    let original = "aé日🙂";
    let applied = MappedSource::identity(original)
        .apply_text_edits(
            vec![TextEdit::new(TextRange::new(1, 6), "ß日")],
            TextExpansion::new("test.component", "replace"),
        )
        .unwrap();
    assert_eq!(applied.source.virtual_source(), "aß日🙂");
    for segment in applied.source.source_map().segments() {
        assert!(segment.virtual_range.is_valid_for(applied.source.virtual_source()));
        for origin in &segment.origins {
            assert!(origin.original_range.is_valid_for(original));
        }
    }
}

#[test]
fn registers_tree_expansions_with_new_identity() {
    let source = MappedSource::identity("on load:");
    let call_site = source.map_range(TextRange::new(0, 7)).unwrap();
    let applied = source
        .register_tree_expansion(&call_site, TreeExpansion::new("tree.component", "wrap"))
        .unwrap();
    assert_eq!(applied.expansion, ExpansionId::new(1));
    assert_eq!(applied.syntax_context, SyntaxContextId::new(1));
    assert_eq!(applied.source.virtual_source(), "on load:");
    let registered = applied.source.expansions().get(applied.expansion).unwrap();
    assert_eq!(registered.kind, ExpansionKind::Tree);
    assert_eq!(
        registered.call_sites,
        vec![ExpansionSite::original(TextRange::new(0, 7))]
    );

    let empty = MappedSpan {
        virtual_range: TextRange::new(0, 1),
        origins: Vec::new(),
    };
    assert_eq!(
        source
            .register_tree_expansion(&empty, TreeExpansion::new("tree.component", "wrap"))
            .unwrap_err(),
        TreeExpansionError::MissingOrigins
    );
    let outside = MappedSpan {
        virtual_range: TextRange::new(0, 99),
        origins: Vec::new(),
    };
    assert_eq!(
        source
            .register_tree_expansion(&outside, TreeExpansion::new("tree.component", "wrap"))
            .unwrap_err(),
        TreeExpansionError::InvalidVirtualRange {
            range: TextRange::new(0, 99)
        }
    );
    let unknown = MappedSpan {
        virtual_range: TextRange::new(0, 1),
        origins: vec![SourceOrigin::replaced(TextRange::new(0, 1), Some(ExpansionId::new(7)))],
    };
    assert_eq!(
        source
            .register_tree_expansion(&unknown, TreeExpansion::new("tree.component", "wrap"))
            .unwrap_err(),
        TreeExpansionError::UnknownExpansion {
            expansion: ExpansionId::new(7)
        }
    );
}

#[test]
fn edited_segments_tile_the_virtual_text() {
    let source = MappedSource::identity("alpha beta");
    let applied = source
        .apply_text_edits(
            vec![TextEdit::new(TextRange::new(6, 10), "二"), TextEdit::new(TextRange::new(0, 5), "one")],
            TextExpansion::new("test.component", "tiling"),
        )
        .unwrap();
    let segments = applied.source.source_map().segments();
    assert!(!segments.is_empty());
    assert_eq!(segments[0].virtual_range.start, 0);
    assert_eq!(segments[segments.len() - 1].virtual_range.end, applied.source.virtual_source().len());
    for pair in segments.windows(2) {
        assert_eq!(pair[0].virtual_range.end, pair[1].virtual_range.start);
    }
    for segment in segments {
        assert!(!segment.origins.is_empty());
        assert!(segment.virtual_range.start < segment.virtual_range.end);
    }
    let empty = MappedSource::identity("");
    let segments = empty.source_map().segments();
    assert_eq!(segments.len(), 1);
    assert_eq!(segments[0].virtual_range, TextRange::new(0, 0));
}
