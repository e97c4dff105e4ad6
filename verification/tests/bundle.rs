use beam_worker::errors::HarnessError;
use beam_worker::proto::{make_ptransform, PTransform, ProcessBundleDescriptor};
use beam_worker::sdk_worker::BundleProcessor;
use beam_worker::urns;

fn ports(pairs: &[(&str, &str)]) -> Vec<(String, String)> {
    pairs
        .iter()
        .map(|(p, c)| (p.to_string(), c.to_string()))
        .collect()
}

fn recording(inputs: &[(&str, &str)], outputs: &[(&str, &str)]) -> PTransform {
    make_ptransform(urns::RECORDING_URN, ports(inputs), ports(outputs), Vec::new())
}

fn create(outputs: &[(&str, &str)], elements: &[&str]) -> PTransform {
    make_ptransform(
        urns::CREATE_URN,
        ports(&[]),
        ports(outputs),
        serde_json::to_vec(elements).unwrap(),
    )
}

fn descriptor(entries: Vec<(&str, PTransform)>) -> ProcessBundleDescriptor {
    ProcessBundleDescriptor {
        id: String::new(),
        transforms: entries
            .into_iter()
            .map(|(n, t)| (n.to_string(), t))
            .collect(),
    }
}

fn root_urns() -> Vec<String> {
    vec![urns::CREATE_URN.to_string()]
}

#[test]
fn test_operator_construction() {
    // Note the inverted order should still be resolved correctly
    let d = descriptor(vec![
        ("y", recording(&[("input", "pc1")], &[("out", "pc2")])),
        ("z", recording(&[("input", "pc2")], &[])),
        ("x", create(&[("out", "pc1")], &["a", "b", "c"])),
    ]);

    let processor = BundleProcessor::new(&d, &root_urns()).unwrap();
    let log = processor.process("bundle_id".to_string());

    assert_eq!(
        log,
        Vec::from([
            "z.start_bundle()",
            "y.start_bundle()",
            "y.process(\"a\")",
            "z.process(\"a\")",
            "y.process(\"b\")",
            "z.process(\"b\")",
            "y.process(\"c\")",
            "z.process(\"c\")",
            "y.finish_bundle()",
            "z.finish_bundle()",
        ])
    );
}

#[test]
fn test_order_independent_construction() {
    let entries = |perm: [usize; 3]| {
        let all = vec![
            ("x", create(&[("out", "pc1")], &["a", "b"])),
            ("y", recording(&[("input", "pc1")], &[("out", "pc2")])),
            ("z", recording(&[("input", "pc2")], &[])),
        ];
        let mut chosen = Vec::new();
        for i in perm {
            let (n, t) = &all[i];
            let copy = make_ptransform(
                match t.spec.as_ref().unwrap().urn.as_str() {
                    u if u == urns::CREATE_URN => urns::CREATE_URN,
                    _ => urns::RECORDING_URN,
                },
                t.inputs.clone(),
                t.outputs.clone(),
                t.spec.as_ref().unwrap().payload.clone(),
            );
            chosen.push((*n, copy));
        }
        descriptor(chosen)
    };
    let logs: Vec<Vec<String>> = [[0, 1, 2], [2, 1, 0], [1, 2, 0]]
        .into_iter()
        .map(|perm| {
            BundleProcessor::new(&entries(perm), &root_urns())
                .unwrap()
                .process("b".to_string())
        })
        .collect();
    assert_eq!(logs[0], logs[1]);
    assert_eq!(logs[1], logs[2]);
}

#[test]
fn test_missing_producer_rejected() {
    let d = descriptor(vec![
        ("x", create(&[("out", "pc1")], &["a"])),
        ("z", recording(&[("input", "pcX")], &[])),
    ]);
    let r = BundleProcessor::new(&d, &root_urns());
    match r {
        Err(HarnessError::MalformedDescriptor(chan)) => assert_eq!(chan, "pcX"),
        other => panic!("expected MalformedDescriptor, got {:?}", other.err()),
    }
}

#[test]
fn test_unsupported_urn_rejected() {
    let d = descriptor(vec![(
        "w",
        make_ptransform("beam:transform:unknown:v1", ports(&[]), ports(&[]), Vec::new()),
    )]);
    let r = BundleProcessor::new(&d, &root_urns());
    match r {
        Err(HarnessError::UnsupportedUrn(u)) => assert_eq!(u, "beam:transform:unknown:v1"),
        other => panic!("expected UnsupportedUrn, got {:?}", other.err()),
    }
}

#[test]
fn test_duplicate_name_rejected() {
    let d = descriptor(vec![
        ("x", create(&[("out", "pc1")], &["a"])),
        ("x", create(&[("out", "pc2")], &["b"])),
    ]);
    assert!(matches!(
        BundleProcessor::new(&d, &root_urns()),
        Err(HarnessError::MalformedDescriptor(_))
    ));
}

#[test]
fn test_duplicate_producer_rejected() {
    let d = descriptor(vec![
        ("x", create(&[("out", "pc1")], &["a"])),
        ("y", recording(&[("input", "pc1")], &[("out", "pc1")])),
    ]);
    match BundleProcessor::new(&d, &root_urns()) {
        Err(HarnessError::MalformedDescriptor(chan)) => assert_eq!(chan, "pc1"),
        other => panic!("expected MalformedDescriptor, got {:?}", other.err()),
    }
}

#[test]
fn test_root_with_input_rejected() {
    let d = descriptor(vec![
        ("x", create(&[("out", "pc1")], &["a"])),
        (
            "r",
            make_ptransform(
                urns::CREATE_URN,
                ports(&[("input", "pc1")]),
                ports(&[]),
                serde_json::to_vec::<[&str; 0]>(&[]).unwrap(),
            ),
        ),
    ]);
    assert!(matches!(
        BundleProcessor::new(&d, &root_urns()),
        Err(HarnessError::MalformedDescriptor(_))
    ));
}

#[test]
fn test_cycle_rejected() {
    let d = descriptor(vec![
        ("a", recording(&[("input", "pc2")], &[("out", "pc1")])),
        ("b", recording(&[("input", "pc1")], &[("out", "pc2")])),
    ]);
    assert!(matches!(
        BundleProcessor::new(&d, &root_urns()),
        Err(HarnessError::MalformedDescriptor(_))
    ));
}

#[test]
fn test_create_payload_must_decode() {
    let d = descriptor(vec![(
        "x",
        make_ptransform(
            urns::CREATE_URN,
            ports(&[]),
            ports(&[("out", "pc1")]),
            b"not json".to_vec(),
        ),
    )]);
    match BundleProcessor::new(&d, &root_urns()) {
        Err(HarnessError::MalformedDescriptor(name)) => assert_eq!(name, "x"),
        other => panic!("expected MalformedDescriptor, got {:?}", other.err()),
    }
}

#[test]
fn test_fan_out_order_follows_wiring() {
    // one root feeding two consumers: fan-out delivers in table order,
    // depth-first per element
    let d = descriptor(vec![
        ("m", recording(&[("input", "pc1")], &[])),
        ("n", recording(&[("input", "pc1")], &[])),
        ("x", create(&[("out", "pc1")], &["e"])),
    ]);
    let log = BundleProcessor::new(&d, &root_urns())
        .unwrap()
        .process("b".to_string());
    assert_eq!(
        log,
        Vec::from([
            "n.start_bundle()",
            "m.start_bundle()",
            "m.process(\"e\")",
            "n.process(\"e\")",
            "m.finish_bundle()",
            "n.finish_bundle()",
        ])
    );
}

#[test]
fn test_empty_descriptor() {
    let d = descriptor(vec![]);
    let log = BundleProcessor::new(&d, &root_urns())
        .unwrap()
        .process("b".to_string());
    assert!(log.is_empty());
}
