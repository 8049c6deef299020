use cycler_core::field::parse_path;
use cycler_core::path_tree::{merge, ConflictKind, DeclaredPath, StructHierarchy};

fn declared(path: &str, data_type: &str) -> DeclaredPath {
    DeclaredPath { segments: parse_path(path), data_type: data_type.to_string() }
}

fn node<'a>(
    tree: &'a StructHierarchy,
    path: &[&str],
) -> Option<&'a cycler_core::path_tree::HierarchyNode> {
    tree.nodes.iter().find(|node| node.path.iter().map(String::as_str).eq(path.iter().copied()))
}

fn shape(tree: &StructHierarchy) -> Vec<(String, bool, Option<String>)> {
    let mut entries: Vec<(String, bool, Option<String>)> = tree
        .nodes
        .iter()
        .map(|node| (node.path.join("."), node.is_optional, node.data_type.clone()))
        .collect();
    entries.sort();
    entries
}

#[test]
fn shared_prefixes_become_one_node() {
    let paths = vec![
        declared("vision.top.stride", "usize"),
        declared("vision.top.threshold", "i16"),
        declared("vision.bottom.stride", "usize"),
        declared("control.gain", "f32"),
    ];
    let tree = merge(&paths).ok().expect("consistent paths merge");
    assert_eq!(tree.nodes.len(), 8);
    let vision = node(&tree, &["vision"]).expect("vision node");
    assert!(!vision.is_optional);
    assert_eq!(vision.data_type, None);
    let stride = node(&tree, &["vision", "top", "stride"]).expect("leaf");
    assert_eq!(stride.data_type, Some("usize".to_string()));
    assert!(node(&tree, &["control", "gain"]).is_some());
    assert!(node(&tree, &["top"]).is_none());
}

#[test]
fn optional_segments_mark_their_node() {
    let paths = vec![
        declared("camera_matrix?.horizon", "Horizon"),
        declared("camera_matrix?.field_of_view", "Vector2"),
    ];
    let tree = merge(&paths).ok().expect("consistent paths merge");
    assert_eq!(tree.nodes.len(), 3);
    assert!(node(&tree, &["camera_matrix"]).expect("struct").is_optional);
    assert!(!node(&tree, &["camera_matrix", "horizon"]).expect("leaf").is_optional);
}

#[test]
fn merge_ignores_declaration_order() {
    let forward = vec![
        declared("a.b?.c", "u8"),
        declared("a.d", "u16"),
        declared("a.b?.e", "u32"),
        declared("a.d", "u16"),
    ];
    let mut backward = forward.iter().map(|p| declared(&path_text(p), &p.data_type)).collect::<Vec<_>>();
    backward.reverse();
    let first = merge(&forward).ok().expect("merges");
    let second = merge(&backward).ok().expect("merges");
    assert_eq!(shape(&first), shape(&second));
    assert_eq!(first.nodes.len(), 5);
}

fn path_text(path: &DeclaredPath) -> String {
    path.segments
        .iter()
        .map(|s| format!("{}{}{}", if s.is_variable { "$" } else { "" }, s.name, if s.is_optional { "?" } else { "" }))
        .collect::<Vec<_>>()
        .join(".")
}

#[test]
fn conflicting_optionality_fails() {
    let paths = vec![declared("ball?.position", "Point2"), declared("ball.radius", "f32")];
    let error = merge(&paths).err().expect("conflict");
    assert_eq!(error.kind, ConflictKind::Optionality);
    assert_eq!(error.path, vec!["ball".to_string()]);
    let reversed = vec![declared("ball.radius", "f32"), declared("ball?.position", "Point2")];
    assert_eq!(merge(&reversed).err().expect("conflict").kind, ConflictKind::Optionality);
}

#[test]
fn conflicting_leaf_types_fail() {
    let paths = vec![declared("a.b", "u8"), declared("a.b", "u16")];
    let error = merge(&paths).err().expect("conflict");
    assert_eq!(error.kind, ConflictKind::DataType);
    assert_eq!(error.path, vec!["a".to_string(), "b".to_string()]);
}

#[test]
fn leaf_and_struct_at_same_prefix_fail() {
    let paths = vec![declared("a.b", "u8"), declared("a.b.c", "u16")];
    let error = merge(&paths).err().expect("conflict");
    assert_eq!(error.kind, ConflictKind::Shape);
    assert_eq!(error.path, vec!["a".to_string(), "b".to_string()]);
}

#[test]
fn variable_segments_are_shape_only() {
    let paths = vec![
        declared("image_segmenter.$cycler_instance.vertical_stride", "usize"),
        declared("image_segmenter.$cycler_instance.horizontal_stride", "usize"),
    ];
    let tree = merge(&paths).ok().expect("merges");
    assert_eq!(tree.nodes.len(), 4);
    assert!(node(&tree, &["image_segmenter", "cycler_instance"]).is_some());
}

#[test]
fn no_paths_give_an_empty_tree() {
    let tree = merge(&Vec::new()).ok().expect("merges");
    assert!(tree.nodes.is_empty());
}

use cycler_core::field::{Field, FieldDeclaration, Role};
use cycler_core::path_tree::{declared_paths, hierarchy_of};
use cycler_core::resolver::Node;

fn classified(name: &str, role: &str, arguments: &[&str]) -> Field {
    let declaration = FieldDeclaration {
        name: name.to_string(),
        role: role.to_string(),
        arguments: arguments.iter().map(|a| a.to_string()).collect(),
    };
    Field::try_from_declaration(&declaration).ok().expect("valid declaration")
}

#[test]
fn roots_collect_the_paths_of_their_role() {
    let nodes = vec![
        Node {
            creation_context: vec![classified("gain", "Parameter", &["f32", "control.gain"])],
            cycle_context: vec![
                classified("stride", "Parameter", &["usize", "vision.$cycler_instance.stride"]),
                classified("counter", "PersistentState", &["u32", "counter"]),
            ],
            main_outputs: vec![classified("segments", "MainOutput", &["ImageSegments"])],
        },
        Node {
            creation_context: vec![],
            cycle_context: vec![
                classified("threshold", "Parameter", &["i16", "vision.$cycler_instance.threshold"]),
                classified("time", "AdditionalOutput", &["Duration", "timing.segmenter"]),
            ],
            main_outputs: vec![classified("balls", "MainOutput", &["Vec<Ball>"])],
        },
    ];
    let parameters = declared_paths(&nodes, Role::Parameter);
    assert_eq!(parameters.len(), 3);
    assert_eq!(parameters[0].data_type, "f32");
    let tree = hierarchy_of(&nodes, Role::Parameter).ok().expect("merges");
    assert_eq!(tree.nodes.len(), 6);
    let outputs = hierarchy_of(&nodes, Role::MainOutput).ok().expect("merges");
    assert_eq!(shape(&outputs), vec![
        ("balls".to_string(), false, Some("Vec<Ball>".to_string())),
        ("segments".to_string(), false, Some("ImageSegments".to_string())),
    ]);
    let additional = hierarchy_of(&nodes, Role::AdditionalOutput).ok().expect("merges");
    assert_eq!(additional.nodes.len(), 2);
    let state = hierarchy_of(&nodes, Role::PersistentState).ok().expect("merges");
    assert_eq!(state.nodes.len(), 1);
    assert!(declared_paths(&nodes, Role::Input).is_empty());
}

#[test]
fn roots_report_conflicts_between_nodes() {
    let nodes = vec![
        Node {
            creation_context: vec![],
            cycle_context: vec![classified("a", "Parameter", &["u8", "limits.low"])],
            main_outputs: vec![],
        },
        Node {
            creation_context: vec![],
            cycle_context: vec![classified("b", "Parameter", &["u8", "limits?.high"])],
            main_outputs: vec![],
        },
    ];
    let error = hierarchy_of(&nodes, Role::Parameter).err().expect("conflict");
    assert_eq!(error.kind, ConflictKind::Optionality);
    assert_eq!(error.path, vec!["limits".to_string()]);
}
