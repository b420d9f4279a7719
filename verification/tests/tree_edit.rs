use skript_parser::expansion::SyntaxContextId;
use skript_parser::raw_tree::{parse_raw_tree, RawNodeId, RawNodeKind, RawTree, RawTreeOptions};
use skript_parser::source_map::{MappedSource, OriginKind};
use skript_parser::tree_edit::{
    apply_tree_edit, validate_fragment, validate_generated_node, GeneratedRawNode,
    GeneratedRawNodeId, GeneratedRawNodeKind, GeneratedRawTree, RetainedChildren,
    RetainedChildrenPlacement, TreeEdit, TreeEditError, TreeEditMetadata,
};

fn source_tree(source: &str) -> (MappedSource, RawTree) {
    let source = MappedSource::identity(source);
    let tree = parse_raw_tree(&source, RawTreeOptions::for_skript_version(2, 9));
    (source, tree)
}

fn generated_node(
    id: u64,
    kind: GeneratedRawNodeKind,
    text: &str,
    children: &[u64],
) -> GeneratedRawNode {
    GeneratedRawNode {
        id: GeneratedRawNodeId::new(id),
        kind,
        text: text.to_owned(),
        children: children
            .iter()
            .copied()
            .map(GeneratedRawNodeId::new)
            .collect(),
    }
}

fn metadata(hook: &str) -> TreeEditMetadata {
    TreeEditMetadata {
        component: "test.component".to_owned(),
        hook: hook.to_owned(),
    }
}

fn texts(tree: &RawTree, ids: &[RawNodeId]) -> Vec<String> {
    ids.iter()
        .map(|id| tree.get(*id).unwrap().text.clone())
        .collect()
}

#[test]
fn replaces_one_node_with_multiple_generated_nodes() {
    let (source, tree) = source_tree("first\nreplace\nlast\n");
    let application = apply_tree_edit(
        &source,
        &tree,
        RawNodeId::new(1),
        TreeEdit::ReplaceNode {
            replacement: GeneratedRawTree {
                roots: vec![GeneratedRawNodeId::new(10), GeneratedRawNodeId::new(11)],
                nodes: vec![
                    generated_node(10, GeneratedRawNodeKind::Simple, "alpha", &[]),
                    generated_node(11, GeneratedRawNodeKind::Simple, "beta", &[]),
                ],
            },
            retained_children: None,
        },
        metadata("replace"),
    )
    .unwrap();

    assert_eq!(
        texts(&application.tree, &application.tree.roots),
        ["first", "alpha", "beta", "last"]
    );
    assert_eq!(application.replacement_roots, 2);
    let generated = application.tree.get(application.tree.roots[1]).unwrap();
    assert_eq!(generated.syntax_context, application.syntax_context);
    assert!(generated
        .span
        .origins
        .iter()
        .all(|origin| origin.expansion == Some(application.expansion)));
    assert_eq!(
        application
            .source
            .expansion_backtrace(application.expansion)
            .unwrap()[0]
            .hook
            .as_str(),
        "replace"
    );
}

#[test]
fn preserves_original_section_children_at_a_generated_section() {
    let (source, tree) = source_tree("old:\n    child\n");
    let application = apply_tree_edit(
        &source,
        &tree,
        RawNodeId::new(0),
        TreeEdit::ReplaceNode {
            replacement: GeneratedRawTree {
                roots: vec![GeneratedRawNodeId::new(1)],
                nodes: vec![
                    generated_node(1, GeneratedRawNodeKind::Section, "new", &[2]),
                    generated_node(2, GeneratedRawNodeKind::Simple, "generated", &[]),
                ],
            },
            retained_children: Some(RetainedChildren {
                parent: GeneratedRawNodeId::new(1),
                placement: RetainedChildrenPlacement::Append,
            }),
        },
        metadata("preserve"),
    )
    .unwrap();

    let section = application.tree.get(application.tree.roots[0]).unwrap();
    assert_eq!(section.text, "new");
    assert_eq!(
        texts(&application.tree, &section.children),
        ["generated", "child"]
    );
    assert_eq!(
        application
            .tree
            .get(section.children[1])
            .unwrap()
            .syntax_context,
        SyntaxContextId::root()
    );
}

#[test]
fn replaces_a_section_body_without_replacing_its_header() {
    let (source, tree) = source_tree("section:\n    old\n");
    let application = apply_tree_edit(
        &source,
        &tree,
        RawNodeId::new(0),
        TreeEdit::ReplaceChildren {
            replacement: GeneratedRawTree {
                roots: vec![GeneratedRawNodeId::new(1)],
                nodes: vec![generated_node(1, GeneratedRawNodeKind::Simple, "new", &[])],
            },
        },
        metadata("body"),
    )
    .unwrap();

    let section = application.tree.get(application.tree.roots[0]).unwrap();
    assert_eq!(section.text, "section");
    assert_eq!(section.syntax_context, SyntaxContextId::root());
    assert_eq!(
        application.tree.get(section.children[0]).unwrap().text,
        "new"
    );
}

#[test]
fn rejects_cycles_and_reused_generated_nodes() {
    let cycle = GeneratedRawTree {
        roots: vec![GeneratedRawNodeId::new(1)],
        nodes: vec![
            generated_node(1, GeneratedRawNodeKind::Section, "one", &[2]),
            generated_node(2, GeneratedRawNodeKind::Section, "two", &[1]),
        ],
    };
    assert!(matches!(
        validate_fragment(&cycle),
        Err(TreeEditError::ReusedGeneratedNode { .. }) | Err(TreeEditError::GeneratedCycle { .. })
    ));

    let reused = GeneratedRawTree {
        roots: vec![GeneratedRawNodeId::new(1), GeneratedRawNodeId::new(1)],
        nodes: vec![generated_node(1, GeneratedRawNodeKind::Simple, "once", &[])],
    };
    assert!(matches!(
        validate_fragment(&reused),
        Err(TreeEditError::ReusedGeneratedNode { .. })
    ));
}

#[test]
fn prepends_retained_children_before_generated_ones() {
    let (source, tree) = source_tree("old:\n    kept\n");
    let application = apply_tree_edit(
        &source,
        &tree,
        RawNodeId::new(0),
        TreeEdit::ReplaceNode {
            replacement: GeneratedRawTree {
                roots: vec![GeneratedRawNodeId::new(1)],
                nodes: vec![
                    generated_node(1, GeneratedRawNodeKind::Section, "new", &[2]),
                    generated_node(2, GeneratedRawNodeKind::Simple, "made", &[]),
                ],
            },
            retained_children: Some(RetainedChildren {
                parent: GeneratedRawNodeId::new(1),
                placement: RetainedChildrenPlacement::Prepend,
            }),
        },
        metadata("prepend"),
    )
    .unwrap();
    let section = application.tree.get(application.tree.roots[0]).unwrap();
    assert_eq!(section.kind, RawNodeKind::Section);
    assert_eq!(section.line.raw_text, "new:");
    assert_eq!(texts(&application.tree, &section.children), ["kept", "made"]);
    for (index, node) in application.tree.nodes.iter().enumerate() {
        assert_eq!(node.id, RawNodeId::new(index as u64));
    }
}

#[test]
fn generated_spans_are_replaced_origins_of_the_target() {
    let (source, tree) = source_tree("a\nb\n");
    let application = apply_tree_edit(
        &source,
        &tree,
        RawNodeId::new(1),
        TreeEdit::ReplaceNode {
            replacement: GeneratedRawTree {
                roots: vec![GeneratedRawNodeId::new(7)],
                nodes: vec![generated_node(7, GeneratedRawNodeKind::Simple, "c", &[])],
            },
            retained_children: None,
        },
        metadata("span"),
    )
    .unwrap();
    let generated = application.tree.get(application.tree.roots[1]).unwrap();
    let target = tree.get(RawNodeId::new(1)).unwrap();
    assert_eq!(generated.span.virtual_range, target.span.virtual_range);
    assert!(generated
        .span
        .origins
        .iter()
        .all(|origin| origin.kind == OriginKind::Replaced));
    assert_eq!(
        generated.line.line_ending_span.virtual_range.start,
        target.span.virtual_range.end
    );
}

#[test]
fn reports_the_first_fragment_problem() {
    let duplicate = GeneratedRawTree {
        roots: vec![GeneratedRawNodeId::new(1)],
        nodes: vec![
            generated_node(1, GeneratedRawNodeKind::Simple, "a", &[]),
            generated_node(1, GeneratedRawNodeKind::Simple, "b", &[]),
        ],
    };
    assert_eq!(
        validate_fragment(&duplicate),
        Err(TreeEditError::DuplicateGeneratedId {
            id: GeneratedRawNodeId::new(1)
        })
    );
    let unknown_root = GeneratedRawTree {
        roots: vec![GeneratedRawNodeId::new(5)],
        nodes: vec![generated_node(1, GeneratedRawNodeKind::Simple, "a", &[])],
    };
    assert_eq!(
        validate_fragment(&unknown_root),
        Err(TreeEditError::UnknownGeneratedNode {
            id: GeneratedRawNodeId::new(5)
        })
    );
    let unreachable = GeneratedRawTree {
        roots: vec![GeneratedRawNodeId::new(1)],
        nodes: vec![
            generated_node(1, GeneratedRawNodeKind::Simple, "a", &[]),
            generated_node(2, GeneratedRawNodeKind::Simple, "b", &[]),
        ],
    };
    assert_eq!(
        validate_fragment(&unreachable),
        Err(TreeEditError::UnreachableGeneratedNode {
            id: GeneratedRawNodeId::new(2)
        })
    );
    let leaf_children = generated_node(3, GeneratedRawNodeKind::Simple, "a", &[4]);
    assert_eq!(
        validate_generated_node(&leaf_children),
        Err(TreeEditError::ChildrenOfGeneratedLeaf {
            id: GeneratedRawNodeId::new(3),
            kind: GeneratedRawNodeKind::Simple
        })
    );
    let colon = generated_node(3, GeneratedRawNodeKind::Section, "head: ", &[]);
    assert_eq!(
        validate_generated_node(&colon),
        Err(TreeEditError::InvalidGeneratedText {
            id: GeneratedRawNodeId::new(3),
            kind: GeneratedRawNodeKind::Section
        })
    );
}

#[test]
fn rejects_bad_targets_and_retained_parents() {
    let (source, tree) = source_tree("plain\n");
    let fragment = || GeneratedRawTree {
        roots: vec![GeneratedRawNodeId::new(1)],
        nodes: vec![generated_node(1, GeneratedRawNodeKind::Simple, "x", &[])],
    };
    assert_eq!(
        apply_tree_edit(
            &source,
            &tree,
            RawNodeId::new(9),
            TreeEdit::ReplaceNode {
                replacement: fragment(),
                retained_children: None
            },
            metadata("t"),
        ),
        Err(TreeEditError::UnknownTarget {
            target: RawNodeId::new(9)
        })
    );
    assert_eq!(
        apply_tree_edit(
            &source,
            &tree,
            RawNodeId::new(0),
            TreeEdit::ReplaceChildren {
                replacement: fragment()
            },
            metadata("t"),
        ),
        Err(TreeEditError::ChildrenOfNonSection {
            target: RawNodeId::new(0)
        })
    );
    assert_eq!(
        apply_tree_edit(
            &source,
            &tree,
            RawNodeId::new(0),
            TreeEdit::ReplaceNode {
                replacement: fragment(),
                retained_children: Some(RetainedChildren {
                    parent: GeneratedRawNodeId::new(8),
                    placement: RetainedChildrenPlacement::Append
                })
            },
            metadata("t"),
        ),
        Err(TreeEditError::UnknownRetainedChildrenParent {
            id: GeneratedRawNodeId::new(8)
        })
    );
    assert_eq!(
        apply_tree_edit(
            &source,
            &tree,
            RawNodeId::new(0),
            TreeEdit::ReplaceNode {
                replacement: fragment(),
                retained_children: Some(RetainedChildren {
                    parent: GeneratedRawNodeId::new(1),
                    placement: RetainedChildrenPlacement::Append
                })
            },
            metadata("t"),
        ),
        Err(TreeEditError::RetainedChildrenParentNotSection {
            id: GeneratedRawNodeId::new(1)
        })
    );
}

#[test]
fn rejects_input_trees_with_unknown_children() {
    let (source, mut tree) = source_tree("a:\n    b\n");
    tree.nodes[0].children.push(RawNodeId::new(42));
    let result = apply_tree_edit(
        &source,
        &tree,
        RawNodeId::new(0),
        TreeEdit::ReplaceNode {
            replacement: GeneratedRawTree {
                roots: vec![GeneratedRawNodeId::new(1)],
                nodes: vec![generated_node(1, GeneratedRawNodeKind::Simple, "x", &[])],
            },
            retained_children: None,
        },
        metadata("t"),
    );
    assert_eq!(
        result,
        Err(TreeEditError::UnknownInputNode {
            id: RawNodeId::new(42)
        })
    );
}

fn assert_proper(tree: &RawTree) {
    for (index, node) in tree.nodes.iter().enumerate() {
        assert_eq!(node.id, RawNodeId::new(index as u64));
        for child in &node.children {
            assert_eq!(tree.get(*child).unwrap().parent, Some(node.id));
        }
        if let Some(parent) = node.parent {
            assert!(tree.get(parent).unwrap().children.contains(&node.id));
        } else {
            assert!(tree.roots.contains(&node.id));
        }
    }
}

#[test]
fn edits_of_parsed_trees_stay_proper() {
    let (source, tree) = source_tree("on load:\n    a\n    b:\n        c\nlast\n");
    assert_proper(&tree);
    let application = apply_tree_edit(
        &source,
        &tree,
        RawNodeId::new(2),
        TreeEdit::ReplaceNode {
            replacement: GeneratedRawTree {
                roots: vec![GeneratedRawNodeId::new(5), GeneratedRawNodeId::new(6)],
                nodes: vec![
                    generated_node(5, GeneratedRawNodeKind::Section, "x", &[7]),
                    generated_node(6, GeneratedRawNodeKind::Simple, "y", &[]),
                    generated_node(7, GeneratedRawNodeKind::Simple, "z", &[]),
                ],
            },
            retained_children: Some(RetainedChildren {
                parent: GeneratedRawNodeId::new(5),
                placement: RetainedChildrenPlacement::Prepend,
            }),
        },
        metadata("proper"),
    )
    .unwrap();
    assert_proper(&application.tree);
    let section = application.tree.get(application.tree.roots[0]).unwrap();
    assert_eq!(texts(&application.tree, &section.children), ["a", "x", "y"]);
    let generated = application.tree.get(section.children[1]).unwrap();
    assert_eq!(texts(&application.tree, &generated.children), ["c", "z"]);
}
