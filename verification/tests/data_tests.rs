use fcs_rs::{ByteOrder, EventValues, FcsError, FlowSample, KeywordMap};

/// Build a small FCS byte stream with the given metadata pairs and data
/// segment; `$BEGINDATA` is patched to the data segment's real offset.
fn build_fcs(pairs: &[(&str, &str)], data: &[u8]) -> Vec<u8> {
    let mut inner = String::new();
    let mut begin_data = 0usize;
    for pass in 0..2 {
        inner.clear();
        for (k, v) in pairs {
            inner.push_str(k);
            inner.push('/');
            if *k == "$BEGINDATA" {
                inner.push_str(&format!("{:08}", begin_data));
            } else {
                inner.push_str(v);
            }
            inner.push('/');
        }
        inner.pop();
        if pass == 0 {
            begin_data = 58 + 1 + inner.len() + 1;
        }
    }
    let text_start = 58;
    let text_end = text_start + 1 + inner.len();
    let header = format!(
        "{:<10}{:>8}{:>8}{:>8}{:>8}{:>8}{:>8}",
        "FCS3.0",
        text_start,
        text_end,
        begin_data,
        if data.is_empty() { 0 } else { begin_data + data.len() - 1 },
        0,
        0
    );
    let mut bytes = Vec::new();
    bytes.extend_from_slice(header.as_bytes());
    bytes.push(b'/');
    bytes.extend_from_slice(inner.as_bytes());
    bytes.push(b'/');
    bytes.extend_from_slice(data);
    bytes
}

fn float_pairs<'a>(datatype: &'a str, byteord: &'a str, par: &'a str, tot: &'a str) -> Vec<(&'a str, &'a str)> {
    vec![
        ("$BEGINANALYSIS", "0"),
        ("$BEGINDATA", "0"),
        ("$BEGINSTEXT", "0"),
        ("$BYTEORD", byteord),
        ("$DATATYPE", datatype),
        ("$ENDANALYSIS", "0"),
        ("$ENDDATA", "0"),
        ("$ENDSTEXT", "0"),
        ("$MODE", "L"),
        ("$NEXTDATA", "0"),
        ("$PAR", par),
        ("$TOT", tot),
        ("$P1B", "32"),
        ("$P1E", "0,0"),
        ("$P1N", "FSC"),
        ("$P1R", "1024"),
        ("$P1S", "Forward Scatter"),
        ("$P2B", "16"),
        ("$P2E", "0,0"),
        ("$P2N", "SSC"),
        ("$P2R", "1024"),
        ("$P2S", "Side Scatter"),
    ]
}

fn floats_of(column: &EventValues) -> Vec<f64> {
    match column {
        EventValues::Floats(bits) => bits.iter().map(|b| f32::from_bits(*b) as f64).collect(),
        EventValues::Doubles(bits) => bits.iter().map(|b| f64::from_bits(*b)).collect(),
        EventValues::Ints(vals) => vals.iter().map(|v| *v as f64).collect(),
    }
}

#[test]
fn test_get_dataframe_columns() {
    let mut parameters = KeywordMap::new();
    parameters.insert("$PAR".to_string(), "2".to_string());
    parameters.insert("$P1N".to_string(), "FSC".to_string());
    parameters.insert("$P2N".to_string(), "SSC".to_string());

    let column_titles = vec!["FSC".to_string(), "SSC".to_string()];
    let columns = vec![
        EventValues::Doubles(vec![1.0f64.to_bits(), 2.0f64.to_bits(), 3.0f64.to_bits()]),
        EventValues::Doubles(vec![4.0f64.to_bits(), 5.0f64.to_bits(), 6.0f64.to_bits()]),
    ];
    let data = fcs_rs::create_dataframe(&column_titles, &columns).unwrap();

    let flow_sample = FlowSample { data, parameters };

    let column_names = flow_sample.get_dataframe_columns();
    assert_eq!(column_names, vec!["FSC", "SSC"]);
}

#[test]
fn data_test_create_dataframe() {
    let column_titles = vec!["col1".to_string(), "col2".to_string()];
    let data = vec![
        EventValues::Doubles(vec![1.0f64.to_bits(), 2.0f64.to_bits(), 3.0f64.to_bits()]),
        EventValues::Doubles(vec![4.0f64.to_bits(), 5.0f64.to_bits(), 6.0f64.to_bits()]),
    ];
    let df = fcs_rs::create_dataframe(&column_titles, &data).unwrap();
    assert_eq!(df.shape(), (3, 2), "DataFrame shape mismatch");
}

#[test]
fn lib_test_create_dataframe() {
    let column_titles = vec!["col1".to_string(), "col2".to_string()];
    let data = vec![
        EventValues::Doubles(vec![1.0f64.to_bits(), 2.0f64.to_bits(), 3.0f64.to_bits()]),
        EventValues::Doubles(vec![4.0f64.to_bits(), 5.0f64.to_bits(), 6.0f64.to_bits()]),
    ];
    let df = fcs_rs::create_dataframe(&column_titles, &data).unwrap();
    assert_eq!(df.shape(), (3, 2), "DataFrame shape mismatch");
}

#[test]
fn test_create_dataframe_mismatch() {
    let column_titles = vec!["col1".to_string()];
    let data = vec![
        EventValues::Doubles(vec![1.0f64.to_bits(), 2.0f64.to_bits(), 3.0f64.to_bits()]),
        EventValues::Doubles(vec![4.0f64.to_bits(), 5.0f64.to_bits(), 6.0f64.to_bits()]),
    ];
    let result = fcs_rs::create_dataframe(&column_titles, &data);
    assert!(result.is_err(), "DataFrame creation with mismatched columns and data should fail");
}

#[test]
fn test_read_events() {
    let expected = [2.745084202615544e-6f64, 11018227712.0, 6.37629560262809e-10];
    let mut bytes = vec![0u8; 150];
    for v in expected {
        bytes.extend_from_slice(&(v as f32).to_bits().to_le_bytes());
    }
    let metadata = KeywordMap::new();
    let (events, consumed) =
        fcs_rs::read_events(&bytes, 150, ByteOrder::LittleEndian, "F", 3, 1, &metadata).unwrap();
    assert_eq!(consumed, 12);
    assert_eq!(floats_of(&events), expected.to_vec());
}

#[test]
fn decode_little_endian_floats_at_known_offset() {
    let expected = [2.745084202615544e-6f64, 11018227712.0, 6.37629560262809e-10];
    let mut data = Vec::new();
    for v in expected {
        data.extend_from_slice(&(v as f32).to_bits().to_le_bytes());
    }
    let pairs: Vec<(&str, &str)> =
        float_pairs("F", "1,2,3,4", "1", "3").into_iter().filter(|p| !p.0.starts_with("$P2")).collect();
    let bytes = build_fcs(&pairs, &data);
    let sample = fcs_rs::read_sample(&bytes).unwrap();
    let column = sample.data.column("Forward Scatter").unwrap();
    assert_eq!(floats_of(&column), expected.to_vec());
}

#[test]
fn decode_integer_parameters_parameter_major() {
    // parameter 1, then parameter 2: each parameter's events are laid out
    // contiguously, one parameter after the other, not interleaved
    let mut data = Vec::new();
    for v in [423142u32, 212991, 94] {
        data.extend_from_slice(&v.to_le_bytes());
    }
    for v in [200u32, 626392, 496565] {
        data.extend_from_slice(&v.to_le_bytes());
    }
    let mut pairs = float_pairs("I", "1,2,3,4", "2", "3");
    for p in pairs.iter_mut() {
        match p.0 {
            "$P2B" => p.1 = "32",
            "$P1S" => p.1 = "FSC-H",
            "$P2S" => p.1 = "APC-A",
            _ => {}
        }
    }
    let bytes = build_fcs(&pairs, &data);
    let sample = fcs_rs::read_sample(&bytes).unwrap();
    let fsc = sample.data.column("FSC-H").unwrap();
    let apc = sample.data.column("APC-A").unwrap();
    assert_eq!(floats_of(&fsc), vec![423142.0, 212991.0, 94.0]);
    assert_eq!(floats_of(&apc), vec![200.0, 626392.0, 496565.0]);
}

#[test]
fn decode_sixteen_bit_and_wide_integers() {
    // parameter 1: 16-bit events; parameter 2: 64-bit events;
    // parameter 3: 128-bit events
    let mut data = Vec::new();
    for v in [1u16, 65535, 7] {
        data.extend_from_slice(&v.to_le_bytes());
    }
    for v in [1u64 << 40, 5, 0] {
        data.extend_from_slice(&v.to_le_bytes());
    }
    for v in [1u128 << 100, 2, 3] {
        data.extend_from_slice(&v.to_le_bytes());
    }
    let mut pairs = float_pairs("I", "1,2,3,4", "3", "3");
    for p in pairs.iter_mut() {
        match p.0 {
            "$P1B" => p.1 = "16",
            "$P2B" => p.1 = "64",
            _ => {}
        }
    }
    for suffix_value in [
        ("$P3B", "128"),
        ("$P3E", "0,0"),
        ("$P3N", "APC"),
        ("$P3R", "1024"),
        ("$P3S", "Deep Red"),
    ] {
        pairs.push(suffix_value);
    }
    let bytes = build_fcs(&pairs, &data);
    let sample = fcs_rs::read_sample(&bytes).unwrap();
    match sample.data.column("Forward Scatter").unwrap() {
        EventValues::Ints(vals) => assert_eq!(vals, vec![1u128, 65535, 7]),
        _ => panic!("expected an integer column"),
    }
    match sample.data.column("Side Scatter").unwrap() {
        EventValues::Ints(vals) => assert_eq!(vals, vec![1u128 << 40, 5, 0]),
        _ => panic!("expected an integer column"),
    }
    match sample.data.column("Deep Red").unwrap() {
        EventValues::Ints(vals) => assert_eq!(vals, vec![1u128 << 100, 2, 3]),
        _ => panic!("expected an integer column"),
    }
}

#[test]
fn decode_big_endian_integers() {
    let mut data = Vec::new();
    for v in [1u32, 2, 70000] {
        data.extend_from_slice(&v.to_be_bytes());
    }
    let pairs: Vec<(&str, &str)> =
        float_pairs("I", "4,3,2,1", "1", "3").into_iter().filter(|p| !p.0.starts_with("$P2")).collect();
    let bytes = build_fcs(&pairs, &data);
    let sample = fcs_rs::read_sample(&bytes).unwrap();
    let column = sample.data.column("Forward Scatter").unwrap();
    match column {
        EventValues::Ints(vals) => assert_eq!(vals, vec![1u128, 2, 70000]),
        _ => panic!("expected an integer column"),
    }
}

#[test]
fn decode_double_precision_events() {
    let expected = [1.5f64, -2.25, 1.0e300];
    let mut data = Vec::new();
    for v in expected {
        data.extend_from_slice(&v.to_bits().to_le_bytes());
    }
    let mut pairs: Vec<(&str, &str)> =
        float_pairs("D", "1,2,3,4", "1", "3").into_iter().filter(|p| !p.0.starts_with("$P2")).collect();
    for p in pairs.iter_mut() {
        if p.0 == "$P1B" {
            p.1 = "64";
        }
    }
    let bytes = build_fcs(&pairs, &data);
    let sample = fcs_rs::read_sample(&bytes).unwrap();
    let column = sample.data.column("Forward Scatter").unwrap();
    assert_eq!(floats_of(&column), expected.to_vec());
}

#[test]
fn reading_twice_yields_identical_samples() {
    let mut data = Vec::new();
    for v in [1.0f32, 2.5, -7.75] {
        data.extend_from_slice(&v.to_bits().to_le_bytes());
    }
    for v in [4.0f32, 5.0, 6.0] {
        data.extend_from_slice(&v.to_bits().to_le_bytes());
    }
    let mut pairs = float_pairs("F", "1,2,3,4", "2", "3");
    for p in pairs.iter_mut() {
        if p.0 == "$P2B" {
            p.1 = "32";
        }
    }
    let bytes = build_fcs(&pairs, &data);
    let first = fcs_rs::read_sample(&bytes).unwrap();
    let second = fcs_rs::read_sample(&bytes).unwrap();
    assert_eq!(first.get_dataframe_columns(), second.get_dataframe_columns());
    for name in first.get_dataframe_columns() {
        let a = first.data.column(&name).unwrap();
        let b = second.data.column(&name).unwrap();
        assert_eq!(floats_of(&a), floats_of(&b));
    }
    for key in ["$PAR", "$TOT", "$MODE", "$P1S", "$P2S", "$BYTEORD"] {
        assert_eq!(first.parameters.get(key).unwrap(), second.parameters.get(key).unwrap());
    }
}

#[test]
fn duplicate_labels_keep_the_last_column() {
    let mut data = Vec::new();
    for v in [1.0f32, 2.0, 3.0] {
        data.extend_from_slice(&v.to_bits().to_le_bytes());
    }
    for v in [7.0f32, 8.0, 9.0] {
        data.extend_from_slice(&v.to_bits().to_le_bytes());
    }
    let mut pairs = float_pairs("F", "1,2,3,4", "2", "3");
    for p in pairs.iter_mut() {
        if p.0 == "$P2B" {
            p.1 = "32";
        }
        if p.0 == "$P2S" {
            p.1 = "Forward Scatter";
        }
    }
    let bytes = build_fcs(&pairs, &data);
    let sample = fcs_rs::read_sample(&bytes).unwrap();
    assert_eq!(sample.data.shape(), (3, 1));
    let column = sample.data.column("Forward Scatter").unwrap();
    assert_eq!(floats_of(&column), vec![7.0, 8.0, 9.0]);
}

fn expect_invalid_data(result: Result<FlowSample, FcsError>, needle: &str) {
    match result {
        Err(FcsError::InvalidData(msg)) => {
            assert!(msg.contains(needle), "unexpected message: {}", msg)
        }
        Err(other) => panic!("expected invalid data, got {:?}", other),
        Ok(_) => panic!("expected invalid data, got a sample"),
    }
}

#[test]
fn parse_data_rejects_histogram_mode() {
    let mut pairs = float_pairs("F", "1,2,3,4", "1", "3");
    for p in pairs.iter_mut() {
        if p.0 == "$MODE" {
            p.1 = "H";
        }
    }
    let pairs: Vec<(&str, &str)> = pairs.into_iter().filter(|p| !p.0.starts_with("$P2")).collect();
    let bytes = build_fcs(&pairs, &[0u8; 12]);
    let metadata = fcs_rs::read_metadata(&bytes).unwrap();
    expect_invalid_data(fcs_rs::parse_data(&bytes, &metadata), "list (L) mode");
}

#[test]
fn parse_data_rejects_unknown_byte_order() {
    let mut pairs = float_pairs("F", "2,1,4,3", "1", "3");
    pairs.retain(|p| !p.0.starts_with("$P2"));
    let bytes = build_fcs(&pairs, &[0u8; 12]);
    let metadata = fcs_rs::read_metadata(&bytes).unwrap();
    expect_invalid_data(fcs_rs::parse_data(&bytes, &metadata), "byte order");
}

#[test]
fn parse_data_rejects_zero_capacity() {
    let mut pairs = float_pairs("F", "1,2,3,4", "1", "0");
    pairs.retain(|p| !p.0.starts_with("$P2"));
    let bytes = build_fcs(&pairs, &[]);
    let metadata = fcs_rs::read_metadata(&bytes).unwrap();
    expect_invalid_data(fcs_rs::parse_data(&bytes, &metadata), "No data found");
}

#[test]
fn parse_data_rejects_unknown_data_type() {
    let mut pairs = float_pairs("A", "1,2,3,4", "1", "3");
    pairs.retain(|p| !p.0.starts_with("$P2"));
    let bytes = build_fcs(&pairs, &[0u8; 12]);
    let metadata = fcs_rs::read_metadata(&bytes).unwrap();
    expect_invalid_data(fcs_rs::parse_data(&bytes, &metadata), "Must be F, D, or I");
}

#[test]
fn parse_data_rejects_unsupported_bit_width() {
    let mut pairs = float_pairs("I", "1,2,3,4", "1", "3");
    pairs.retain(|p| !p.0.starts_with("$P2"));
    for p in pairs.iter_mut() {
        if p.0 == "$P1B" {
            p.1 = "24";
        }
    }
    let bytes = build_fcs(&pairs, &[0u8; 9]);
    let metadata = fcs_rs::read_metadata(&bytes).unwrap();
    expect_invalid_data(fcs_rs::parse_data(&bytes, &metadata), "not supported");
}

#[test]
fn parse_data_reports_short_data_segment() {
    let mut pairs = float_pairs("F", "1,2,3,4", "1", "3");
    pairs.retain(|p| !p.0.starts_with("$P2"));
    // only two of the three promised events are present
    let bytes = build_fcs(&pairs, &[0u8; 8]);
    let metadata = fcs_rs::read_metadata(&bytes).unwrap();
    match fcs_rs::parse_data(&bytes, &metadata) {
        Err(FcsError::IoError) => {}
        Err(other) => panic!("expected an I/O failure, got {:?}", other),
        Ok(_) => panic!("expected an I/O failure, got a sample"),
    }
}
