use ycsb::workloads::{fnv1a_hash, u64_to_decimal, ConfigError, CoreWorkload, Properties};

fn props_with(order: &str, padding: u32) -> Properties {
    let mut p = Properties::default();
    p.insert_order = order.to_string();
    p.zero_padding = padding;
    p
}

#[test]
fn decimal_rendering_exact() {
    assert_eq!(u64_to_decimal(0).as_str(), "0");
    assert_eq!(u64_to_decimal(7).as_str(), "7");
    assert_eq!(u64_to_decimal(42).as_str(), "42");
    assert_eq!(u64_to_decimal(1234567890).as_str(), "1234567890");
    assert_eq!(u64_to_decimal(u64::MAX).as_str(), "18446744073709551615");
}

#[test]
fn fnv_hash_deterministic_and_spreading() {
    assert_eq!(fnv1a_hash(42), fnv1a_hash(42));
    assert_ne!(fnv1a_hash(42), fnv1a_hash(43));
    assert_ne!(fnv1a_hash(0), fnv1a_hash(1));
}

#[test]
fn fnv_hash_exact_values() {
    // 64-bit FNV-1a over the eight little-endian bytes of the input.
    assert_eq!(fnv1a_hash(42), 0xff3add6b3789daef);
    assert_eq!(fnv1a_hash(0), 0xa8c7f832281a39c5);
}

#[test]
fn key_ordered_with_padding() {
    let w = CoreWorkload::new(props_with("ordered", 8)).unwrap();
    assert_eq!(w.build_key(42).as_str(), "user00000042");
    assert_eq!(w.build_key(0).as_str(), "user00000000");
}

#[test]
fn key_ordered_wider_than_padding() {
    let w = CoreWorkload::new(props_with("ordered", 2)).unwrap();
    assert_eq!(w.build_key(12345).as_str(), "user12345");
}

#[test]
fn key_hashed_deterministic_digit_string() {
    let w = CoreWorkload::new(props_with("hashed", 8)).unwrap();
    let k1 = w.build_key(42);
    let k2 = w.build_key(42);
    assert_eq!(k1, k2);
    assert!(k1.starts_with("user"));
    let digits = &k1["user".len()..];
    assert!(digits.len() >= 8);
    assert!(digits.chars().all(|c| c.is_ascii_digit()));
    assert_ne!(k1.as_str(), "user00000042");
}

#[test]
fn unsupported_field_length_distribution_is_config_error() {
    let mut p = Properties::default();
    p.field_length_distribution = "uniform".to_string();
    let r = CoreWorkload::new(p);
    assert!(matches!(r, Err(ConfigError::UnsupportedFieldLengthDistribution)));
}

#[test]
fn build_values_names_and_lengths() {
    let mut p = Properties::default();
    p.field_count = 3;
    p.field_length = 8;
    let w = CoreWorkload::new(p).unwrap();
    let values = w.build_values();
    assert_eq!(values.len(), 3);
    assert_eq!(values[0].0.as_str(), "field0");
    assert_eq!(values[1].0.as_str(), "field1");
    assert_eq!(values[2].0.as_str(), "field2");
    for (_, bytes) in &values {
        assert_eq!(bytes.len(), 8);
    }
}

#[test]
fn default_properties_are_documented_values() {
    let p = Properties::default();
    assert_eq!(p.table.as_str(), "usertable");
    assert_eq!(p.field_count, 10);
    assert_eq!(p.field_name_prefix.as_str(), "field");
    assert_eq!(p.field_length, 100);
    assert_eq!(p.field_length_distribution.as_str(), "constant");
    assert_eq!(p.insert_start, 0);
    assert_eq!(p.insert_order.as_str(), "hashed");
    assert_eq!(p.zero_padding, 1);
}
