use chromasearch::FeatureExtractorConfiguration;

#[test]
fn framing_boundary() {
    let c = FeatureExtractorConfiguration::default_configuration();
    assert_eq!(c.frame_count(4095), 0);
    assert_eq!(c.frame_count(4096), 1);
    assert_eq!(c.frame_count(6143), 1);
    assert_eq!(c.frame_count(6144), 2);
    assert_eq!(c.frame_count(0), 0);
}

#[test]
fn frame_offsets_follow_stride() {
    let c = FeatureExtractorConfiguration::default_configuration();
    assert_eq!(c.frame_offsets(23000), vec![0, 2048, 4096, 6144, 8192, 10240, 12288, 14336, 16384, 18432]);
    assert_eq!(c.frame_count(23000), 10);
    assert!(c.frame_offsets(100).is_empty());
}

#[test]
fn quantize_exact_values() {
    let c = FeatureExtractorConfiguration::default_configuration();
    let ascending: Vec<usize> = (0..12).collect();
    assert_eq!(c.quantize(&ascending), 0xfbce71840000000);
    let descending: Vec<usize> = (0..12).rev().collect();
    assert_eq!(c.quantize(&descending), 0x2339dff);
}

#[test]
fn quantize_slots_are_thermometer_codes() {
    let c = FeatureExtractorConfiguration::default_configuration();
    let orders: Vec<Vec<usize>> = vec![
        (0..12).collect(),
        (0..12).rev().collect(),
        vec![3, 7, 1, 11, 0, 5, 9, 2, 8, 10, 4, 6],
    ];
    for order in orders {
        let f = c.quantize(&order);
        for slot in 0..12 {
            let v = (f >> (5 * slot)) & 31;
            assert!([0, 1, 3, 7, 15, 31].contains(&v));
        }
        assert_eq!(f >> 60, 0);
    }
}

#[test]
fn zero_topk_gives_zero() {
    let c = FeatureExtractorConfiguration::new(11500, 4096, 2048, 8, 12, 5, 0).unwrap();
    let order: Vec<usize> = (0..12).collect();
    assert_eq!(c.quantize(&order), 0);
}

#[test]
fn extractor_configuration_validation() {
    assert!(FeatureExtractorConfiguration::new(11500, 4096, 2048, 8, 12, 5, 8).is_ok());
    assert!(FeatureExtractorConfiguration::new(11500, 4096, 4097, 8, 12, 5, 8).is_err());
    assert!(FeatureExtractorConfiguration::new(11500, 4096, 2048, 8, 12, 5, 13).is_err());
    assert!(FeatureExtractorConfiguration::new(11500, 4096, 2048, 8, 12, 6, 8).is_err());
    assert!(FeatureExtractorConfiguration::new(0, 4096, 2048, 8, 12, 5, 8).is_err());
}
