use cycler_core::field::{
    contains_optional, parse_path, role_from_name, text_equals, ClassificationErrorKind, Field,
    FieldDeclaration, PathSegment, Role,
};

fn declaration(name: &str, role: &str, arguments: &[&str]) -> FieldDeclaration {
    FieldDeclaration {
        name: name.to_string(),
        role: role.to_string(),
        arguments: arguments.iter().map(|a| a.to_string()).collect(),
    }
}

fn rejection_of(declaration: &FieldDeclaration) -> ClassificationErrorKind {
    match Field::try_from_declaration(declaration) {
        Ok(_) => panic!("declaration was accepted"),
        Err(error) => {
            assert_eq!(error.field_name, declaration.name);
            error.kind
        }
    }
}

#[test]
fn segment_markers_are_stripped() {
    let plain = PathSegment::from_text("horizontal_stride");
    assert_eq!(plain.name, "horizontal_stride");
    assert!(!plain.is_optional);
    assert!(!plain.is_variable);
    let variable = PathSegment::from_text("$cycler_instance");
    assert_eq!(variable.name, "cycler_instance");
    assert!(variable.is_variable);
    assert!(!variable.is_optional);
    let optional = PathSegment::from_text("camera_matrix?");
    assert_eq!(optional.name, "camera_matrix");
    assert!(optional.is_optional);
    let both = PathSegment::from_text("$instance?");
    assert_eq!(both.name, "instance");
    assert!(both.is_optional && both.is_variable);
    let converted = PathSegment::from("ball?");
    assert_eq!(converted.name, "ball");
    assert!(converted.is_optional);
}

#[test]
fn dotted_path_is_split_into_segments() {
    let path = parse_path("image_segmenter.$cycler_instance.vertical_stride");
    let names: Vec<&str> = path.iter().map(|segment| segment.name.as_str()).collect();
    assert_eq!(names, vec!["image_segmenter", "cycler_instance", "vertical_stride"]);
    assert!(path[1].is_variable);
    assert!(!contains_optional(&path));
    let optional = parse_path("ground_to_field?.translation");
    assert_eq!(optional.len(), 2);
    assert!(optional[0].is_optional);
    assert!(contains_optional(&optional));
    let single = parse_path("image");
    assert_eq!(single.len(), 1);
    assert_eq!(single[0].name, "image");
    let empty = parse_path("");
    assert_eq!(empty.len(), 1);
    assert_eq!(empty[0].name, "");
}

#[test]
fn role_names_are_matched_exactly() {
    assert_eq!(role_from_name("Input"), Some(Role::Input));
    assert_eq!(role_from_name("RequiredInput"), Some(Role::RequiredInput));
    assert_eq!(role_from_name("HardwareInterface"), Some(Role::HardwareInterface));
    assert_eq!(role_from_name("input"), None);
    assert_eq!(role_from_name("Inputs"), None);
    assert!(text_equals("abc", "abc"));
    assert!(!text_equals("abc", "abd"));
    assert!(!text_equals("abc", "ab"));
}

#[test]
fn parameter_is_classified_with_path() {
    let d = declaration(
        "vertical_stride",
        "Parameter",
        &["usize", "image_segmenter.$cycler_instance.vertical_stride"],
    );
    match Field::try_from_declaration(&d) {
        Ok(Field::Parameter { data_type, name, path }) => {
            assert_eq!(data_type, "usize");
            assert_eq!(name, "vertical_stride");
            assert_eq!(path.len(), 3);
            assert!(path[1].is_variable);
        }
        _ => panic!("expected a parameter"),
    }
}

#[test]
fn input_takes_optional_cycler_instance() {
    let local = declaration("image", "Input", &["YCbCr422Image", "image"]);
    match Field::try_from_declaration(&local) {
        Ok(Field::Input { cycler_instance, data_type, name, path }) => {
            assert_eq!(cycler_instance, None);
            assert_eq!(data_type, "YCbCr422Image");
            assert_eq!(name, "image");
            assert_eq!(path[0].name, "image");
        }
        _ => panic!("expected an input"),
    }
    let remote = declaration(
        "ground_to_field",
        "Input",
        &["Option<Isometry2>", "Control", "ground_to_field?"],
    );
    match Field::try_from_declaration(&remote) {
        Ok(Field::Input { cycler_instance, .. }) => {
            assert_eq!(cycler_instance, Some("Control".to_string()))
        }
        _ => panic!("expected an input"),
    }
}

#[test]
fn identity_roles_take_no_arguments() {
    let d = declaration("instance", "CyclerInstance", &[]);
    assert!(matches!(
        Field::try_from_declaration(&d),
        Ok(Field::CyclerInstance { name }) if name == "instance"
    ));
    let d = declaration("hardware", "HardwareInterface", &[]);
    assert!(matches!(Field::try_from_declaration(&d), Ok(Field::HardwareInterface { .. })));
    let d = declaration("segments", "MainOutput", &["ImageSegments"]);
    assert!(matches!(
        Field::try_from_declaration(&d),
        Ok(Field::MainOutput { data_type, .. }) if data_type == "ImageSegments"
    ));
    let d = declaration("hardware", "HardwareInterface", &["Interface"]);
    assert_eq!(rejection_of(&d), ClassificationErrorKind::WrongArgumentCount);
}

#[test]
fn unknown_role_is_rejected() {
    let d = declaration("value", "Output", &["u8", "value"]);
    assert_eq!(rejection_of(&d), ClassificationErrorKind::UnknownRole);
}

#[test]
fn wrong_argument_counts_are_rejected() {
    assert_eq!(
        rejection_of(&declaration("a", "Parameter", &["u8"])),
        ClassificationErrorKind::WrongArgumentCount
    );
    assert_eq!(
        rejection_of(&declaration("a", "Input", &["u8", "A", "b", "c"])),
        ClassificationErrorKind::WrongArgumentCount
    );
    assert_eq!(
        rejection_of(&declaration("a", "PerceptionInput", &["u8", "a"])),
        ClassificationErrorKind::WrongArgumentCount
    );
    assert_eq!(
        rejection_of(&declaration("a", "MainOutput", &[])),
        ClassificationErrorKind::WrongArgumentCount
    );
}

#[test]
fn required_input_without_optional_segment_is_rejected() {
    let d = declaration("matrix", "RequiredInput", &["CameraMatrix", "camera_matrix"]);
    assert_eq!(rejection_of(&d), ClassificationErrorKind::MissingOptionalSegment);
    let d = declaration("matrix", "RequiredInput", &["CameraMatrix", "Control", "a.b.c"]);
    assert_eq!(rejection_of(&d), ClassificationErrorKind::MissingOptionalSegment);
}

#[test]
fn required_input_with_optional_segment_is_accepted() {
    let d = declaration("matrix", "RequiredInput", &["CameraMatrix", "camera_matrix?"]);
    assert!(matches!(
        Field::try_from_declaration(&d),
        Ok(Field::RequiredInput { cycler_instance: None, .. })
    ));
    let d = declaration("matrix", "RequiredInput", &["CameraMatrix", "Control", "a.b?.c"]);
    match Field::try_from_declaration(&d) {
        Ok(Field::RequiredInput { cycler_instance, path, .. }) => {
            assert_eq!(cycler_instance, Some("Control".to_string()));
            assert!(path[1].is_optional);
        }
        _ => panic!("expected a required input"),
    }
}

#[test]
fn optional_segments_are_refused_where_values_are_complete() {
    let d = declaration("time", "AdditionalOutput", &["Duration", "cycle_time?"]);
    assert_eq!(rejection_of(&d), ClassificationErrorKind::UnexpectedOptionalSegment);
    let d = declaration("balls", "PerceptionInput", &["Vec<Ball>", "VisionTop", "balls?"]);
    assert_eq!(rejection_of(&d), ClassificationErrorKind::UnexpectedOptionalSegment);
    let d = declaration("balls", "PerceptionInput", &["Vec<Ball>", "VisionTop", "balls"]);
    match Field::try_from_declaration(&d) {
        Ok(Field::PerceptionInput { cycler_instance, .. }) => {
            assert_eq!(cycler_instance, "VisionTop")
        }
        _ => panic!("expected a perception input"),
    }
    let d = declaration("time", "AdditionalOutput", &["Duration", "cycle_time"]);
    assert!(matches!(Field::try_from_declaration(&d), Ok(Field::AdditionalOutput { .. })));
}

#[test]
fn historic_input_may_be_optional() {
    let d = declaration("history", "HistoricInput", &["Option<Pose>", "pose?"]);
    assert!(matches!(Field::try_from_declaration(&d), Ok(Field::HistoricInput { .. })));
    let d = declaration("state", "PersistentState", &["u32", "counter"]);
    assert!(matches!(Field::try_from_declaration(&d), Ok(Field::PersistentState { .. })));
}
