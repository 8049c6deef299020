use cycler_core::configuration::{
    ConfigurationError, CyclerConfiguration, CyclerInstances, CyclerKind,
};

fn configuration(name: &str, kind: CyclerKind, instances: Option<&[&str]>, module: &str) -> CyclerConfiguration {
    CyclerConfiguration {
        name: name.to_string(),
        kind,
        instances: instances.map(|i| i.iter().map(|s| s.to_string()).collect()),
        module: module.to_string(),
        nodes: vec![],
    }
}

fn pairs(instances: &CyclerInstances) -> Vec<(&str, &str)> {
    instances
        .instance_to_module
        .iter()
        .map(|(instance, module)| (instance.as_str(), module.as_str()))
        .collect()
}

#[test]
fn instances_are_expanded_from_suffixes() {
    let configurations = vec![
        configuration("Vision", CyclerKind::Perception, Some(&["Top", "Bottom"]), "vision"),
        configuration("Control", CyclerKind::RealTime, None, "control"),
    ];
    let instances = CyclerInstances::from_configuration(&configurations);
    assert_eq!(
        pairs(&instances),
        vec![("VisionTop", "vision"), ("VisionBottom", "vision"), ("Control", "control")]
    );
    assert_eq!(
        instances.module_of(&"VisionBottom".to_string()),
        Some("vision".to_string())
    );
    assert_eq!(instances.module_of(&"Vision".to_string()), None);
    assert_eq!(
        instances.instances_of(&"vision".to_string()),
        vec!["VisionTop".to_string(), "VisionBottom".to_string()]
    );
    assert!(instances.instances_of(&"audio".to_string()).is_empty());
}

#[test]
fn empty_suffix_list_gives_no_instance() {
    let configurations = vec![configuration("Audio", CyclerKind::Perception, Some(&[]), "audio")];
    let instances = CyclerInstances::from_configuration(&configurations);
    assert!(instances.instance_to_module.is_empty());
}

#[test]
fn duplicate_instances_are_refused() {
    let configurations = vec![
        configuration("Vision", CyclerKind::Perception, Some(&["Top"]), "vision"),
        configuration("VisionTop", CyclerKind::Perception, None, "other"),
    ];
    match CyclerInstances::try_from_configuration(&configurations) {
        Err(ConfigurationError::DuplicateInstance { instance }) => assert_eq!(instance, "VisionTop"),
        Ok(_) => panic!("duplicate instance accepted"),
    }
    let distinct = vec![
        configuration("Vision", CyclerKind::Perception, Some(&["Top", "Bottom"]), "vision"),
        configuration("Control", CyclerKind::RealTime, None, "control"),
    ];
    let instances = CyclerInstances::try_from_configuration(&distinct).ok().expect("distinct");
    assert_eq!(instances.instance_to_module.len(), 3);
}

#[test]
fn cycler_kinds_compare() {
    assert_eq!(CyclerKind::RealTime, CyclerKind::RealTime);
    assert_ne!(CyclerKind::RealTime, CyclerKind::Perception);
}
