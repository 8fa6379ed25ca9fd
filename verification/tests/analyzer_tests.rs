use library_inspector::analyzer::{fingerprint_to_bytes, Fingerprint};

#[test]
fn serializes_count_then_features_big_endian() {
    let fingerprint = Fingerprint { features: vec![1, -1] };
    let bytes = fingerprint_to_bytes(&fingerprint);
    assert_eq!(
        bytes,
        vec![
            0, 0, 0, 0, 0, 0, 0, 2, // feature count
            0, 0, 0, 1, // 1
            255, 255, 255, 255, // -1 in two's complement
        ]
    );
}

#[test]
fn serializes_empty_fingerprint_as_count_alone() {
    let fingerprint = Fingerprint { features: vec![] };
    assert_eq!(fingerprint_to_bytes(&fingerprint), vec![0, 0, 0, 0, 0, 0, 0, 0]);
}

#[test]
fn serializes_extreme_feature_values() {
    let fingerprint = Fingerprint { features: vec![i32::MAX, i32::MIN] };
    let bytes = fingerprint_to_bytes(&fingerprint);
    assert_eq!(
        bytes,
        vec![
            0, 0, 0, 0, 0, 0, 0, 2, // feature count
            0x7f, 0xff, 0xff, 0xff, // i32::MAX
            0x80, 0, 0, 0, // i32::MIN
        ]
    );
}

#[test]
fn serialization_is_deterministic() {
    let fingerprint = Fingerprint { features: vec![3, 1, 4, 1, 5] };
    assert_eq!(fingerprint_to_bytes(&fingerprint), fingerprint_to_bytes(&fingerprint));
}
