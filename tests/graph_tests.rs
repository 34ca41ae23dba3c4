use rqm_core::graph::collect_graph_edges;
use rqm_core::types::RequirementReference;
use rqm_core::{Error, Requirement, RequirementConfig, RequirementGraph};

fn create_test_config() -> RequirementConfig {
    let mut req1 = Requirement::new("Requirement 1");
    let mut req2 = Requirement::new("Requirement 2");
    let req3 = Requirement::new("Requirement 3");

    req2.requirements
        .push(RequirementReference::Full(Box::new(req3)));
    req1.requirements
        .push(RequirementReference::Full(Box::new(req2)));

    RequirementConfig {
        version: "1.0".to_string(),
        aliases: vec![],
        requirements: vec![req1],
    }
}

fn with_reference(summary: &str, target: &str) -> Requirement {
    let mut req = Requirement::new(summary);
    req.requirements
        .push(RequirementReference::Reference(target.to_string()));
    req
}

fn config_of(requirements: Vec<Requirement>) -> RequirementConfig {
    RequirementConfig {
        version: "1.0".to_string(),
        aliases: vec![],
        requirements,
    }
}

#[test]
fn test_graph_creation() {
    let config = create_test_config();
    let graph = RequirementGraph::from_config(&config).unwrap();

    assert_eq!(graph.node_count(), 3);
    assert!(graph.get("Requirement 1").is_some());
}

#[test]
fn test_no_cycles() {
    let config = create_test_config();
    let graph = RequirementGraph::from_config(&config).unwrap();

    assert!(!graph.has_cycles());
}

#[test]
fn test_dependencies() {
    let config = create_test_config();
    let graph = RequirementGraph::from_config(&config).unwrap();

    let deps = graph.dependencies("Requirement 1").unwrap();
    assert_eq!(deps.len(), 1);
    assert_eq!(deps[0].summary, "Requirement 2");
}

#[test]
fn test_traverse() {
    let config = create_test_config();
    let graph = RequirementGraph::from_config(&config).unwrap();

    let mut visited = vec![];
    for (req, _depth) in graph.traverse("Requirement 1").unwrap() {
        visited.push(req.summary.clone());
    }

    assert_eq!(visited.len(), 3);
    assert!(visited.contains(&"Requirement 1".to_string()));
}

#[test]
fn test_circular_reference() {
    let req1_with_ref = with_reference("A", "B");
    let req2_with_ref = with_reference("B", "A");

    let config = RequirementConfig {
        version: "1.0".to_string(),
        aliases: vec![],
        requirements: vec![req1_with_ref, req2_with_ref],
    };

    let graph = RequirementGraph::from_config(&config).unwrap();
    assert!(graph.has_cycles());

    let cycles = graph.find_cycles();
    assert!(!cycles.is_empty());
}

#[test]
fn mutual_references_form_one_cycle_with_both() {
    let config = config_of(vec![with_reference("A", "B"), with_reference("B", "A")]);
    let graph = RequirementGraph::from_config(&config).unwrap();
    assert!(graph.has_cycles());
    let cycles = graph.find_cycles();
    assert!(!cycles.is_empty());
    assert!(cycles[0].contains(&"A".to_string()));
    assert!(cycles[0].contains(&"B".to_string()));
    assert!(matches!(graph.topological_sort(), Err(Error::CircularReference(_))));
}

#[test]
fn acyclic_graph_reports_no_cycles() {
    let config = create_test_config();
    let graph = RequirementGraph::from_config(&config).unwrap();
    assert!(graph.find_cycles().is_empty());
}

#[test]
fn self_reference_is_a_cycle() {
    let config = config_of(vec![with_reference("Loop", "Loop")]);
    let graph = RequirementGraph::from_config(&config).unwrap();
    assert!(graph.has_cycles());
    assert_eq!(graph.find_cycles(), vec![vec!["Loop".to_string()]]);
}

#[test]
fn dangling_reference_is_refused_until_removed() {
    let config = config_of(vec![Requirement::new("A"), with_reference("B", "Missing")]);
    match RequirementGraph::from_config(&config) {
        Err(Error::InvalidReference(msg)) => {
            assert_eq!(msg, "Requirement 'B' references non-existent 'Missing'")
        }
        _ => panic!("expected an invalid reference"),
    }
    let fixed = config_of(vec![Requirement::new("A"), Requirement::new("B")]);
    assert!(RequirementGraph::from_config(&fixed).is_ok());
}

#[test]
fn reference_resolves_to_a_later_requirement() {
    let config = config_of(vec![with_reference("A", "B"), Requirement::new("B")]);
    let graph = RequirementGraph::from_config(&config).unwrap();
    let deps = graph.dependencies("A").unwrap();
    assert_eq!(deps.len(), 1);
    assert_eq!(deps[0].summary, "B");
}

#[test]
fn topological_sort_orders_every_edge() {
    let mut top = with_reference("Top", "Shared");
    top.requirements
        .push(RequirementReference::Full(Box::new(Requirement::new("Inner"))));
    let config = config_of(vec![
        with_reference("Side", "Shared"),
        top,
        Requirement::new("Shared"),
    ]);
    let graph = RequirementGraph::from_config(&config).unwrap();
    let order: Vec<String> = graph
        .topological_sort()
        .unwrap()
        .iter()
        .map(|r| r.summary.clone())
        .collect();
    assert_eq!(order.len(), 4);
    let pos = |s: &str| order.iter().position(|x| x == s).unwrap();
    assert!(pos("Top") < pos("Shared"));
    assert!(pos("Side") < pos("Shared"));
    assert!(pos("Top") < pos("Inner"));
}

#[test]
fn dependencies_come_newest_first_and_dependents_by_position() {
    let mut hub = Requirement::new("Hub");
    hub.requirements
        .push(RequirementReference::Reference("X".to_string()));
    hub.requirements
        .push(RequirementReference::Reference("Y".to_string()));
    let config = config_of(vec![
        hub,
        Requirement::new("X"),
        Requirement::new("Y"),
        with_reference("Other", "Y"),
    ]);
    let graph = RequirementGraph::from_config(&config).unwrap();
    let deps: Vec<&str> = graph
        .dependencies("Hub")
        .unwrap()
        .iter()
        .map(|r| r.summary.as_str())
        .collect();
    assert_eq!(deps, vec!["Y", "X"]);
    let dependents: Vec<&str> = graph
        .dependents("Y")
        .unwrap()
        .iter()
        .map(|r| r.summary.as_str())
        .collect();
    assert_eq!(dependents, vec!["Hub", "Other"]);
    assert!(graph.dependents("Hub").unwrap().is_empty());
}

#[test]
fn unknown_summary_is_not_found() {
    let config = create_test_config();
    let graph = RequirementGraph::from_config(&config).unwrap();
    assert!(graph.get("Nope").is_none());
    assert!(matches!(graph.dependencies("Nope"), Err(Error::RequirementNotFound(s)) if s == "Nope"));
    assert!(matches!(graph.dependents("Nope"), Err(Error::RequirementNotFound(_))));
    assert!(matches!(graph.traverse("Nope"), Err(Error::RequirementNotFound(_))));
}

#[test]
fn traverse_gives_preorder_depths_and_skips_revisits() {
    let config = config_of(vec![with_reference("A", "B"), with_reference("B", "A")]);
    let graph = RequirementGraph::from_config(&config).unwrap();
    let visits: Vec<(String, usize)> = graph
        .traverse("A")
        .unwrap()
        .iter()
        .map(|(r, d)| (r.summary.clone(), *d))
        .collect();
    assert_eq!(visits, vec![("A".to_string(), 0), ("B".to_string(), 1)]);
}

fn chain(len: usize) -> Requirement {
    let mut node = Requirement::new(&format!("N{}", len - 1));
    for i in (0..len - 1).rev() {
        let mut parent = Requirement::new(&format!("N{}", i));
        parent
            .requirements
            .push(RequirementReference::Full(Box::new(node)));
        node = parent;
    }
    node
}

#[test]
fn traversal_depth_limit() {
    let within = config_of(vec![chain(101)]);
    let graph = RequirementGraph::from_config(&within).unwrap();
    let visits = graph.traverse("N0").unwrap();
    assert_eq!(visits.len(), 101);
    assert_eq!(visits[100].1, 100);

    let beyond = config_of(vec![chain(102)]);
    let graph = RequirementGraph::from_config(&beyond).unwrap();
    match graph.traverse("N0") {
        Err(Error::GraphError(msg)) => assert_eq!(msg, "Maximum traversal depth exceeded"),
        _ => panic!("expected the depth limit"),
    }
}

#[test]
fn adjacency_lists_children_by_name() {
    let mut parent = with_reference("Parent", "Elsewhere");
    parent
        .requirements
        .push(RequirementReference::Full(Box::new(Requirement::new("Child"))));
    let mut adj: Vec<(String, Vec<String>)> = Vec::new();
    collect_graph_edges(&parent, &mut adj);
    assert_eq!(
        adj,
        vec![
            ("Child".to_string(), vec![]),
            (
                "Parent".to_string(),
                vec!["Elsewhere".to_string(), "Child".to_string()]
            ),
        ]
    );
}
