use haversine_processor::reference::{decode_reference, ReductionError};
use haversine_processor::timing::{elapsed_to_ms, estimate_cpu_frequency, Profiler};

#[test]
fn reference_samples_decode_in_order() {
    let mut bytes: Vec<u8> = Vec::new();
    for x in [1.0f64, 2.0, 3.0] {
        bytes.extend_from_slice(&x.to_le_bytes());
    }
    bytes.extend_from_slice(&[1, 2, 3]);
    let words = decode_reference(&bytes).unwrap();
    let values: Vec<f64> = words.iter().map(|w| f64::from_bits(*w)).collect();
    assert_eq!(values, vec![1.0, 2.0, 3.0]);
    let mean = values.iter().sum::<f64>() / values.len() as f64;
    assert_eq!(mean, 2.0);
    assert_eq!(2.5 - mean, 0.5);
}

#[test]
fn reference_word_is_little_endian() {
    let bytes = [1u8, 2, 0, 0, 0, 0, 0, 0x80];
    assert_eq!(decode_reference(&bytes), Ok(vec![0x8000_0000_0000_0201]));
}

#[test]
fn reference_without_a_sample_is_empty() {
    assert_eq!(decode_reference(&[]), Err(ReductionError::EmptyInput));
    assert_eq!(decode_reference(&[0u8; 7]), Err(ReductionError::EmptyInput));
}

#[test]
fn frequency_estimate() {
    assert_eq!(estimate_cpu_frequency(3_000_000, 1_000_000), 3_000_000);
    assert_eq!(estimate_cpu_frequency(5, 2), 2_500_000);
    assert_eq!(estimate_cpu_frequency(u64::MAX, 1), u64::MAX);
}

#[test]
fn cycles_to_milliseconds() {
    assert_eq!(elapsed_to_ms(3_000, 1_000), 3_000);
    assert_eq!(elapsed_to_ms(2_500_000, 1_000_000_000), 2);
}

#[test]
fn profiler_sums_sections_by_name() {
    let mut p = Profiler::new(1_000, 100);
    p.start_section(100);
    p.end_section("parse", 150);
    p.start_section(150);
    p.end_section("sum", 160);
    p.start_section(200);
    p.end_section("parse", 230);
    let total = p.finalize(300);
    assert_eq!(total, 200);
    assert_eq!(p.cpu_freq(), 1_000);
    let s = p.sections();
    assert_eq!(s.len(), 2);
    assert_eq!((s[0].name.as_str(), s[0].total), ("parse", 80));
    assert_eq!((s[1].name.as_str(), s[1].total), ("sum", 10));
}
