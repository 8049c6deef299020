use cycler_core::field::{Field, FieldDeclaration};
use cycler_core::resolver::{validate_entry_node, Node, ResolutionError};

fn field(name: &str, role: &str, arguments: &[&str]) -> Field {
    let declaration = FieldDeclaration {
        name: name.to_string(),
        role: role.to_string(),
        arguments: arguments.iter().map(|a| a.to_string()).collect(),
    };
    Field::try_from_declaration(&declaration).ok().expect("valid declaration")
}

fn node(cycle_context: Vec<Field>) -> Node {
    Node {
        creation_context: vec![],
        cycle_context,
        main_outputs: vec![field("output", "MainOutput", &["u32"])],
    }
}

#[test]
fn entry_node_without_inputs_is_accepted() {
    let nodes = vec![
        node(vec![field("stride", "Parameter", &["usize", "stride"])]),
        node(vec![field("output", "Input", &["u32", "output"])]),
    ];
    assert!(validate_entry_node(&"control".to_string(), &nodes).is_ok());
}

#[test]
fn only_the_first_node_is_checked() {
    let nodes = vec![
        node(vec![]),
        node(vec![field("pose", "HistoricInput", &["Pose", "pose"])]),
        node(vec![field("balls", "PerceptionInput", &["Balls", "VisionTop", "balls"])]),
    ];
    assert!(validate_entry_node(&"control".to_string(), &nodes).is_ok());
}

#[test]
fn entry_node_with_input_is_rejected() {
    for (name, role, arguments) in [
        ("pose", "HistoricInput", vec!["Pose", "pose"]),
        ("image", "Input", vec!["Image", "image"]),
        ("balls", "PerceptionInput", vec!["Balls", "VisionTop", "balls"]),
        ("matrix", "RequiredInput", vec!["Matrix", "matrix?"]),
    ] {
        let nodes = vec![node(vec![
            field("stride", "Parameter", &["usize", "stride"]),
            field(name, role, &arguments),
        ])];
        match validate_entry_node(&"control".to_string(), &nodes) {
            Err(ResolutionError::EntryNodeDependency { module, field_name }) => {
                assert_eq!(module, "control");
                assert_eq!(field_name, name);
            }
            _ => panic!("entry node with {role} accepted"),
        }
    }
}

#[test]
fn inputs_in_creation_context_are_rejected() {
    let nodes = vec![Node {
        creation_context: vec![field("image", "Input", &["Image", "image"])],
        cycle_context: vec![],
        main_outputs: vec![],
    }];
    assert!(matches!(
        validate_entry_node(&"vision".to_string(), &nodes),
        Err(ResolutionError::EntryNodeDependency { .. })
    ));
}

#[test]
fn module_without_nodes_is_rejected() {
    match validate_entry_node(&"audio".to_string(), &vec![]) {
        Err(ResolutionError::ModuleWithoutNodes { module }) => assert_eq!(module, "audio"),
        _ => panic!("empty module accepted"),
    }
}

use cycler_core::field::ClassificationErrorKind;
use cycler_core::resolver::{dependencies_of, order_nodes, reads_output};

fn declarations(entries: &[(&str, &str, &[&str])]) -> Vec<FieldDeclaration> {
    entries
        .iter()
        .map(|(name, role, arguments)| FieldDeclaration {
            name: name.to_string(),
            role: role.to_string(),
            arguments: arguments.iter().map(|a| a.to_string()).collect(),
        })
        .collect()
}

fn producer(output: &str, inputs: &[(&str, &str, &[&str])]) -> Node {
    Node::try_from_declarations(
        &vec![],
        &declarations(inputs),
        &declarations(&[(output, "MainOutput", &["u32"])]),
    )
    .ok()
    .expect("valid node")
}

#[test]
fn node_is_built_from_declarations() {
    let node = Node::try_from_declarations(
        &declarations(&[("hardware", "HardwareInterface", &[])]),
        &declarations(&[("stride", "Parameter", &["usize", "stride"])]),
        &declarations(&[("segments", "MainOutput", &["ImageSegments"])]),
    )
    .ok()
    .expect("valid node");
    assert_eq!(node.creation_context.len(), 1);
    assert_eq!(node.cycle_context.len(), 1);
    assert!(matches!(node.main_outputs[0], Field::MainOutput { .. }));
    let refused = Node::try_from_declarations(
        &vec![],
        &declarations(&[("matrix", "RequiredInput", &["Matrix", "matrix"])]),
        &vec![],
    );
    match refused {
        Err(error) => {
            assert_eq!(error.kind, ClassificationErrorKind::MissingOptionalSegment);
            assert_eq!(error.field_name, "matrix");
        }
        Ok(_) => panic!("malformed node accepted"),
    }
}

#[test]
fn same_tick_inputs_become_dependencies() {
    let nodes = vec![
        producer("c", &[("a", "Input", &["u32", "a"]), ("b", "RequiredInput", &["u32", "b?"])]),
        producer("a", &[]),
        producer("b", &[("a", "Input", &["u32", "a.inner"])]),
        producer("d", &[("c", "Input", &["u32", "Control", "c"]), ("h", "HistoricInput", &["u32", "a"])]),
    ];
    assert!(reads_output(&nodes[0], &nodes[1]));
    assert!(!reads_output(&nodes[1], &nodes[0]));
    assert!(!reads_output(&nodes[3], &nodes[0]));
    let deps = dependencies_of(&nodes);
    assert_eq!(deps, vec![vec![1, 2], vec![], vec![1], vec![]]);
    let order = order_nodes(&deps).expect("acyclic");
    assert_eq!(order.len(), 4);
    let position = |node: usize| order.iter().position(|&n| n == node).unwrap();
    assert!(position(1) < position(2));
    assert!(position(2) < position(0));
    assert!(position(1) < position(0));
}

#[test]
fn cyclic_dependencies_have_no_order() {
    assert_eq!(order_nodes(&vec![vec![1], vec![2], vec![0]]), None);
    assert_eq!(order_nodes(&vec![vec![0]]), None);
    assert_eq!(order_nodes(&vec![vec![], vec![2], vec![1]]), None);
    assert_eq!(order_nodes(&vec![]), Some(vec![]));
    assert_eq!(order_nodes(&vec![vec![], vec![0], vec![0, 1]]), Some(vec![0, 1, 2]));
}
