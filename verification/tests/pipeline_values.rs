use beam_worker::coders::{BytesCoder, Coder, Context};
use beam_worker::impulse::Impulse;
use beam_worker::lex::{sort_strings, str_leq};
use beam_worker::proto::make_ptransform;
use beam_worker::pvalue::{flatten_pvalue, PType, PValue, Pipeline};
use beam_worker::urns;

#[test]
fn test_new_root_registers_bytes_coder_and_impulse() {
    let pipeline = Pipeline::new();
    let root: PValue<Vec<u8>> = PValue::new_root(pipeline);
    assert_eq!(*root.get_type(), PType::Root);
    assert_eq!(root.pipeline_coder_count(), 1);
}

#[test]
fn test_apply_impulse_produces_pcollection() {
    let pipeline = Pipeline::new();
    let root: PValue<bool> = PValue::new_root(pipeline);
    let out: PValue<Vec<u8>> = root.apply(Impulse::new());
    assert_eq!(*out.get_type(), PType::PCollection);
    // the bytes coder was registered a second time by the impulse expansion
    assert_eq!(out.pipeline_coder_count(), 2);
}

#[test]
fn test_flatten_pvalue_keys() {
    let pipeline = Pipeline::new();
    let root: PValue<Vec<u8>> = PValue::new_root(pipeline);
    let flat = flatten_pvalue(root, Some("prefix".to_string()));
    assert_eq!(flat.len(), 1);
    // a root binds under "main" even when a prefix is supplied
    assert_eq!(flat[0].0, "main");

    let pipeline = Pipeline::new();
    let root: PValue<bool> = PValue::new_root(pipeline);
    let pcoll: PValue<Vec<u8>> = root.apply(Impulse::new());
    let flat = flatten_pvalue(pcoll, Some("prefix".to_string()));
    assert_eq!(flat[0].0, "prefix");
}

#[test]
fn test_make_ptransform_fields() {
    let t = make_ptransform(
        urns::RECORDING_URN,
        vec![("input".to_string(), "pc1".to_string())],
        vec![("out".to_string(), "pc2".to_string())],
        vec![1, 2],
    );
    assert_eq!(t.unique_name, "");
    let spec = t.spec.unwrap();
    assert_eq!(spec.urn, urns::RECORDING_URN);
    assert_eq!(spec.payload, vec![1, 2]);
    assert_eq!(t.inputs, vec![("input".to_string(), "pc1".to_string())]);
    assert_eq!(t.outputs, vec![("out".to_string(), "pc2".to_string())]);
}

#[test]
fn test_bytes_coder_round_trip() {
    let coder = BytesCoder::new();
    let bytes = vec![1u8, 2, 3];
    let encoded = coder.encode(&bytes, &Context::WholeStream);
    assert_eq!(encoded, bytes);
    let decoded = coder.decode(&encoded, &Context::WholeStream).unwrap();
    assert_eq!(decoded, bytes);
}

#[test]
fn test_string_ordering() {
    assert!(str_leq(&"abc".to_string(), &"abd".to_string()));
    assert!(str_leq(&"ab".to_string(), &"abc".to_string()));
    assert!(!str_leq(&"b".to_string(), &"ab".to_string()));
    assert!(str_leq(&"same".to_string(), &"same".to_string()));
    let sorted = sort_strings(vec![
        "pear".to_string(),
        "apple".to_string(),
        "fig".to_string(),
    ]);
    assert_eq!(sorted, vec!["apple", "fig", "pear"]);
}
