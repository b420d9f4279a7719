use skript_parser::expansion::{
    ComponentId, Expansion, ExpansionGraph, ExpansionGraphError, ExpansionId, ExpansionKind,
    ExpansionSite, HookId, SyntaxContextId,
};
use skript_parser::text::TextRange;

fn expansion(id: u32, parent: Option<u32>) -> Expansion {
    Expansion {
        id: ExpansionId::new(id),
        kind: ExpansionKind::Text,
        component: ComponentId::new("test"),
        hook: HookId::new("expand"),
        call_sites: vec![ExpansionSite {
            original_range: TextRange::new(0, 3),
            expansion: parent.map(ExpansionId::new),
        }],
        definition_site: None,
        syntax_context: SyntaxContextId::new(id),
    }
}

#[test]
fn returns_expansion_backtrace_from_inner_to_outer() {
    let graph = ExpansionGraph::new(vec![
        expansion(1, None),
        expansion(2, Some(1)),
        expansion(3, Some(2)),
    ])
    .unwrap();

    let ids = graph
        .backtrace(ExpansionId::new(3))
        .unwrap()
        .into_iter()
        .map(|item| item.id.get())
        .collect::<Vec<_>>();
    assert_eq!(ids, vec![3, 2, 1]);
}

#[test]
fn rejects_unknown_references_and_cycles() {
    assert_eq!(
        ExpansionGraph::new(vec![expansion(1, Some(99))]).unwrap_err(),
        ExpansionGraphError::UnknownReference {
            id: ExpansionId::new(1),
            site: "call site",
            referenced: ExpansionId::new(99),
        }
    );

    assert!(matches!(
        ExpansionGraph::new(vec![expansion(1, Some(2)), expansion(2, Some(1))]),
        Err(ExpansionGraphError::Cycle { .. })
    ));
}

#[test]
fn rejects_duplicate_ids_and_blank_owners() {
    assert!(matches!(
        ExpansionGraph::new(vec![expansion(1, None), expansion(1, None)]),
        Err(ExpansionGraphError::DuplicateId { .. })
    ));

    let mut blank = expansion(1, None);
    blank.component = ComponentId::new("  ");
    assert!(matches!(
        ExpansionGraph::new(vec![blank]),
        Err(ExpansionGraphError::BlankComponent { .. })
    ));
}

#[test]
fn returns_every_path_for_multi_origin_expansions() {
    let mut merged = expansion(3, None);
    merged.call_sites = vec![
        ExpansionSite::expanded(TextRange::new(0, 1), ExpansionId::new(1)),
        ExpansionSite::original(TextRange::new(1, 2)),
        ExpansionSite::expanded(TextRange::new(2, 3), ExpansionId::new(2)),
    ];
    let graph =
        ExpansionGraph::new(vec![expansion(1, None), expansion(2, None), merged]).unwrap();

    let paths = graph
        .backtraces(ExpansionId::new(3))
        .unwrap()
        .into_iter()
        .map(|path| {
            path.into_iter()
                .map(|item| item.id.get())
                .collect::<Vec<_>>()
        })
        .collect::<Vec<_>>();
    assert_eq!(paths, [vec![3, 1], vec![3], vec![3, 2]]);
    assert_eq!(
        graph
            .backtrace(ExpansionId::new(3))
            .unwrap()
            .into_iter()
            .map(|item| item.id.get())
            .collect::<Vec<_>>(),
        [3, 1]
    );
}

#[test]
fn rejects_expansions_without_call_sites() {
    let mut missing = expansion(1, None);
    missing.call_sites.clear();
    assert_eq!(
        ExpansionGraph::new(vec![missing]).unwrap_err(),
        ExpansionGraphError::MissingCallSite {
            id: ExpansionId::new(1)
        }
    );
}

#[test]
fn allocates_the_next_stable_id_and_extends_immutably() {
    let graph = ExpansionGraph::new(vec![expansion(2, None)]).unwrap();
    assert_eq!(graph.next_id().unwrap(), ExpansionId::new(3));

    let extended = graph.with_expansion(expansion(3, Some(2))).unwrap();
    assert_eq!(graph.len(), 1);
    assert_eq!(extended.len(), 2);
    assert_eq!(
        extended
            .backtrace(ExpansionId::new(3))
            .unwrap()
            .into_iter()
            .map(|item| item.id.get())
            .collect::<Vec<_>>(),
        [3, 2]
    );
}

#[test]
fn empty_graph_starts_ids_at_one_and_sorts_by_id() {
    let empty = ExpansionGraph::default();
    assert!(empty.is_empty());
    assert_eq!(empty.next_id().unwrap(), ExpansionId::new(1));

    let graph = ExpansionGraph::new(vec![expansion(5, None), expansion(2, None)]).unwrap();
    let ids = graph.iter().iter().map(|item| item.id.get()).collect::<Vec<_>>();
    assert_eq!(ids, vec![2, 5]);
    assert!(graph.contains(ExpansionId::new(5)));
    assert!(!graph.contains(ExpansionId::new(3)));
    assert_eq!(graph.get(ExpansionId::new(2)).map(|item| item.id), Some(ExpansionId::new(2)));
    assert!(graph.backtrace(ExpansionId::new(9)).is_none());
}

#[test]
fn reports_exhausted_identities_and_blank_hooks() {
    let graph = ExpansionGraph::new(vec![expansion(u32::MAX, None)]).unwrap();
    assert_eq!(graph.next_id(), Err(ExpansionGraphError::IdExhausted));

    let mut blank = expansion(1, None);
    blank.hook = HookId::new("\t");
    assert_eq!(
        ExpansionGraph::new(vec![blank]).unwrap_err(),
        ExpansionGraphError::BlankHook { id: ExpansionId::new(1) }
    );
}

#[test]
fn expansion_ids_order_by_their_numbers() {
    assert!(ExpansionId::new(1) < ExpansionId::new(2));
    assert!(ExpansionId::new(7) >= ExpansionId::new(7));
    assert!(!(ExpansionId::new(9) < ExpansionId::new(3)));
    assert_eq!(ExpansionId::new(4).partial_cmp(&ExpansionId::new(4)), Some(std::cmp::Ordering::Equal));
}
