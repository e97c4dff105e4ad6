use beam_worker::errors::HarnessError;
use beam_worker::registry::{CoderRegistry, CoderUrnTree};
use beam_worker::urns;

fn leaf(urn: &str) -> CoderUrnTree {
    CoderUrnTree {
        urn: urn.to_string(),
        components: Vec::new(),
    }
}

#[test]
fn test_resolve_builtin_leaf() {
    let reg = CoderRegistry::new(false);
    let inst = reg.resolve(&leaf(urns::BYTES_CODER_URN)).unwrap();
    assert_eq!(inst.urn, urns::BYTES_CODER_URN);
    assert!(inst.components.is_empty());
}

#[test]
fn test_resolve_composite_children_first() {
    let mut reg = CoderRegistry::new(false);
    reg.register(vec![
        "composite".to_string(),
        "leaf-int".to_string(),
        "leaf-str".to_string(),
    ])
    .unwrap();
    let tree = CoderUrnTree {
        urn: "composite".to_string(),
        components: vec![leaf("leaf-int"), leaf("leaf-str")],
    };
    let inst = reg.resolve(&tree).unwrap();
    assert_eq!(inst.urn, "composite");
    assert_eq!(inst.components.len(), 2);
    assert_eq!(inst.components[0].urn, "leaf-int");
    assert_eq!(inst.components[1].urn, "leaf-str");
}

#[test]
fn test_resolve_unknown_leaf_fails_whole_tree() {
    let mut reg = CoderRegistry::new(false);
    reg.register(vec!["composite".to_string(), "leaf-int".to_string()])
        .unwrap();
    let tree = CoderUrnTree {
        urn: "composite".to_string(),
        components: vec![leaf("leaf-int"), leaf("leaf-mystery")],
    };
    match reg.resolve(&tree) {
        Err(HarnessError::UnknownUrn(u)) => assert_eq!(u, "leaf-mystery"),
        other => panic!("expected UnknownUrn, got {:?}", other.err()),
    }
}

#[test]
fn test_unknown_child_reported_before_parent() {
    // both the child and the parent URN are unknown: the child, visited
    // first, is the one reported
    let reg = CoderRegistry::new(false);
    let tree = CoderUrnTree {
        urn: "parent-mystery".to_string(),
        components: vec![leaf("child-mystery")],
    };
    match reg.resolve(&tree) {
        Err(HarnessError::UnknownUrn(u)) => assert_eq!(u, "child-mystery"),
        other => panic!("expected UnknownUrn, got {:?}", other.err()),
    }
}

#[test]
fn test_register_twice_production_fatal() {
    let mut reg = CoderRegistry::new(false);
    assert!(reg.register(vec!["a".to_string()]).is_ok());
    assert_eq!(
        reg.register(vec!["b".to_string()]),
        Err(HarnessError::DoubleRegistration)
    );
    // the first table stays in force
    assert!(reg.resolve(&leaf("a")).is_ok());
    assert!(reg.resolve(&leaf("b")).is_err());
}

#[test]
fn test_register_twice_test_mode_replaces() {
    let mut reg = CoderRegistry::new(true);
    assert!(reg.register(vec!["a".to_string()]).is_ok());
    assert!(reg.register(vec!["b".to_string()]).is_ok());
    // no residue of the first table
    assert!(reg.resolve(&leaf("a")).is_err());
    assert!(reg.resolve(&leaf("b")).is_ok());
}
