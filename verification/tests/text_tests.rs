use fcs_rs::{FcsError, KeywordMap};

/// Build a small FCS byte stream: a 58-byte header, a `/`-delimited text
/// segment right after it, and the given data segment at its recorded
/// offset.
fn assemble_fcs(version: &str, pairs: &[(&str, &str)], data: &[u8]) -> Vec<u8> {
    let mut inner = String::new();
    let mut begin_data = 0usize;
    // First pass to measure the text segment so that $BEGINDATA can be
    // patched in; the value is padded to a fixed width of 8 digits.
    for pass in 0..2 {
        inner.clear();
        for (k, v) in pairs {
            inner.push_str(k);
            inner.push('/');
            if *k == "$BEGINDATA" {
                inner.push_str(&format!("{:08}", begin_data));
            } else {
                inner.push_str(v);
            }
            inner.push('/');
        }
        // drop the final separator: the closing delimiter is added below
        inner.pop();
        if pass == 0 {
            begin_data = 58 + 1 + inner.len() + 1;
        }
    }
    let text_start = 58;
    let text_end = text_start + 1 + inner.len(); // inclusive offset of the closing delimiter
    let header = format!(
        "{:<10}{:>8}{:>8}{:>8}{:>8}{:>8}{:>8}",
        version,
        text_start,
        text_end,
        begin_data,
        if data.is_empty() { 0 } else { begin_data + data.len() - 1 },
        0,
        0
    );
    let mut bytes = Vec::new();
    bytes.extend_from_slice(header.as_bytes());
    bytes.push(b'/');
    bytes.extend_from_slice(inner.as_bytes());
    bytes.push(b'/');
    bytes.extend_from_slice(data);
    bytes
}

fn standard_pairs<'a>() -> Vec<(&'a str, &'a str)> {
    vec![
        ("$BEGINANALYSIS", "0"),
        ("$BEGINDATA", "0"),
        ("$BEGINSTEXT", "0"),
        ("$BYTEORD", "1,2,3,4"),
        ("$DATATYPE", "F"),
        ("$ENDANALYSIS", "0"),
        ("$ENDDATA", "0"),
        ("$ENDSTEXT", "0"),
        ("$MODE", "L"),
        ("$NEXTDATA", "0"),
        ("$PAR", "1"),
        ("$TOT", "3"),
        ("$P1B", "32"),
        ("$P1E", "0,0"),
        ("$P1N", "FSC"),
        ("$P1R", "1024"),
        ("$P1S", "Forward Scatter"),
    ]
}

#[test]
fn read_metadata_from_assembled_stream() {
    let bytes = assemble_fcs("FCS3.0", &standard_pairs(), &[0u8; 12]);
    let metadata = fcs_rs::read_metadata(&bytes).unwrap();
    assert_eq!(metadata.get("$PAR").unwrap(), "1");
    assert_eq!(metadata.get("$TOT").unwrap(), "3");
    assert_eq!(metadata.get("$P1N").unwrap(), "FSC");
    assert_eq!(metadata.get("$P1S").unwrap(), "Forward Scatter");
    assert_eq!(metadata.get("$MODE").unwrap(), "L");
    assert!(metadata.get("$P2N").is_none());
}

#[test]
fn read_metadata_decodes_multibyte_values() {
    let mut pairs = standard_pairs();
    for p in pairs.iter_mut() {
        if p.0 == "$P1S" {
            p.1 = "Vorw\u{e4}rtsstreuung";
        }
    }
    let bytes = assemble_fcs("FCS3.0", &pairs, &[0u8; 12]);
    let metadata = fcs_rs::read_metadata(&bytes).unwrap();
    assert_eq!(metadata.get("$P1S").unwrap(), "Vorw\u{e4}rtsstreuung");
}

#[test]
fn read_metadata_rejects_invalid_text_bytes() {
    let mut bytes = assemble_fcs("FCS3.0", &standard_pairs(), &[0u8; 12]);
    // 0xFF can never occur in well-formed UTF-8
    bytes[70] = 0xFF;
    match fcs_rs::read_metadata(&bytes) {
        Err(FcsError::InvalidMetadata) => {}
        other => panic!("expected invalid metadata, got {:?}", other.map(|_| ())),
    }
}

#[test]
fn read_metadata_concatenates_falsely_split_values() {
    // The delimiter appears inside $P1S's value, so the value arrives in
    // two tokens; the scanner joins them (dropping the delimiter).
    let mut pairs = standard_pairs();
    for p in pairs.iter_mut() {
        if p.0 == "$P1S" {
            p.1 = "Forward/Scatter";
        }
    }
    let bytes = assemble_fcs("FCS3.0", &pairs, &[0u8; 12]);
    let metadata = fcs_rs::read_metadata(&bytes).unwrap();
    assert_eq!(metadata.get("$P1S").unwrap(), "ForwardScatter");
}

#[test]
fn read_metadata_reports_missing_keyword() {
    let pairs: Vec<(&str, &str)> =
        standard_pairs().into_iter().filter(|p| p.0 != "$NEXTDATA").collect();
    let bytes = assemble_fcs("FCS3.0", &pairs, &[0u8; 12]);
    match fcs_rs::read_metadata(&bytes) {
        Err(FcsError::InvalidText(k)) => assert_eq!(k, "$NEXTDATA"),
        other => panic!("expected a missing keyword, got {:?}", other.map(|_| ())),
    }
}

fn full_dictionary(par: &str) -> KeywordMap {
    let mut m = KeywordMap::new();
    for (k, v) in [
        ("$BEGINANALYSIS", "0"),
        ("$BEGINDATA", "256"),
        ("$BEGINSTEXT", "0"),
        ("$BYTEORD", "1,2,3,4"),
        ("$DATATYPE", "F"),
        ("$ENDANALYSIS", "0"),
        ("$ENDDATA", "0"),
        ("$ENDSTEXT", "0"),
        ("$MODE", "L"),
        ("$NEXTDATA", "0"),
        ("$TOT", "10"),
    ] {
        m.insert(k.to_string(), v.to_string());
    }
    m.insert("$PAR".to_string(), par.to_string());
    let n: u32 = par.parse().unwrap();
    for i in 1..=n {
        for suffix in ["B", "E", "N", "R"] {
            m.insert(format!("$P{}{}", i, suffix), "1".to_string());
        }
    }
    m
}

#[test]
fn validate_text_accepts_a_complete_dictionary() {
    let m = full_dictionary("2");
    assert!(fcs_rs::validate_text(&m).is_ok());
}

#[test]
fn validate_text_names_missing_mode() {
    let mut m = KeywordMap::new();
    let full = full_dictionary("2");
    for k in [
        "$BEGINANALYSIS",
        "$BEGINDATA",
        "$BEGINSTEXT",
        "$BYTEORD",
        "$DATATYPE",
        "$ENDANALYSIS",
        "$ENDDATA",
        "$ENDSTEXT",
        "$NEXTDATA",
        "$PAR",
        "$TOT",
    ] {
        m.insert(k.to_string(), full.get(k).unwrap());
    }
    for i in 1..=2 {
        for suffix in ["B", "E", "N", "R"] {
            m.insert(format!("$P{}{}", i, suffix), "1".to_string());
        }
    }
    match fcs_rs::validate_text(&m) {
        Err(FcsError::InvalidText(k)) => assert_eq!(k, "$MODE"),
        other => panic!("expected $MODE to be reported, got {:?}", other),
    }
}

#[test]
fn validate_text_names_missing_indexed_keyword() {
    let mut m = full_dictionary("2");
    // overwrite is not removal, so rebuild without $P2N
    let mut without = KeywordMap::new();
    for k in [
        "$BEGINANALYSIS",
        "$BEGINDATA",
        "$BEGINSTEXT",
        "$BYTEORD",
        "$DATATYPE",
        "$ENDANALYSIS",
        "$ENDDATA",
        "$ENDSTEXT",
        "$MODE",
        "$NEXTDATA",
        "$PAR",
        "$TOT",
    ] {
        without.insert(k.to_string(), m.get(k).unwrap());
    }
    for i in 1..=2 {
        for suffix in ["B", "E", "N", "R"] {
            if i == 2 && suffix == "N" {
                continue;
            }
            without.insert(format!("$P{}{}", i, suffix), "1".to_string());
        }
    }
    m = without;
    match fcs_rs::validate_text(&m) {
        Err(FcsError::InvalidText(k)) => assert_eq!(k, "$P2N"),
        other => panic!("expected $P2N to be reported, got {:?}", other),
    }
}

#[test]
fn validate_text_rejects_unparsable_parameter_count() {
    let mut m = full_dictionary("2");
    m.insert("$PAR".to_string(), "two".to_string());
    match fcs_rs::validate_text(&m) {
        Err(FcsError::InvalidText(k)) => assert_eq!(k, "$PAR"),
        other => panic!("expected $PAR to be reported, got {:?}", other),
    }
}

#[test]
fn read_metadata_rejects_degenerate_text_range() {
    // a text range that cannot hold a delimiter and a payload
    let header = format!(
        "{:<10}{:>8}{:>8}{:>8}{:>8}{:>8}{:>8}",
        "FCS3.0", 58, 58, 0, 0, 0, 0
    );
    let mut bytes = header.into_bytes();
    bytes.push(b'/');
    match fcs_rs::read_metadata(&bytes) {
        Err(FcsError::InvalidMetadata) => {}
        other => panic!("expected invalid metadata, got {:?}", other.map(|_| ())),
    }
}

#[test]
fn keyword_map_overwrites_and_looks_up() {
    let mut m = KeywordMap::new();
    m.insert("$CYT".to_string(), "one".to_string());
    m.insert("$CYT".to_string(), "two".to_string());
    assert_eq!(m.get("$CYT").unwrap(), "two");
    assert!(m.get("$MODE").is_none());
}
