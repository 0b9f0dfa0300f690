use fcs_rs::{FcsError, Header, NumParseError, OffsetRange};

fn range(start: usize, end: usize) -> OffsetRange {
    OffsetRange { start, end }
}

#[test]
fn header1() {
    let header = "FCS3.0         256    1545    1792  202456       0       0";
    let parsed_header = Header {
        version: "FCS3.0".into(),
        text_offsets: range(256, 1545),
        data_offsets: range(1792, 202456),
        analysis_offsets: range(0, 0),
    };

    assert_eq!(parsed_header, Header::try_from(header).unwrap());
}

#[test]
fn header1_spaces() {
    let header = "FCS3.0         256    1545    1792  202456                ";
    let parsed_header = Header {
        version: "FCS3.0".into(),
        text_offsets: range(256, 1545),
        data_offsets: range(1792, 202456),
        analysis_offsets: range(0, 0),
    };

    assert_eq!(parsed_header, Header::try_from(header).unwrap());
}

#[test]
fn header2() {
    let header = "FCS3.0         256    1545       0       0       0       0";
    let parsed_header = Header {
        version: "FCS3.0".into(),
        text_offsets: range(256, 1545),
        data_offsets: range(0, 0),
        analysis_offsets: range(0, 0),
    };

    assert_eq!(parsed_header, Header::try_from(header).unwrap());
}

#[test]
fn header3() {
    let header = "FCS3.0      202451  203140    1792  202450       0       0";
    let parsed_header = Header {
        version: "FCS3.0".into(),
        text_offsets: range(202451, 203140),
        data_offsets: range(1792, 202450),
        analysis_offsets: range(0, 0),
    };

    assert_eq!(parsed_header, Header::try_from(header).unwrap());
}

#[test]
fn write_header1() {
    let header = Header {
        version: "FCS3.0".into(),
        text_offsets: range(256, 1545),
        data_offsets: range(1792, 202456),
        analysis_offsets: range(0, 0),
    };
    let formatted = header.render();

    assert_eq!("FCS3.0         256    1545    1792  202456       0       0", formatted);
}

#[test]
fn write_header2() {
    let header = Header {
        version: "FCS3.0".into(),
        text_offsets: range(256, 1545),
        data_offsets: range(0, 0),
        analysis_offsets: range(0, 0),
    };
    let formatted = header.render();

    assert_eq!("FCS3.0         256    1545       0       0       0       0", formatted);
}

#[test]
fn write_header3() {
    let header = Header {
        version: "FCS3.0".into(),
        text_offsets: range(202451, 203140),
        data_offsets: range(1792, 202450),
        analysis_offsets: range(0, 0),
    };
    let formatted = header.render();

    assert_eq!("FCS3.0      202451  203140    1792  202450       0       0", formatted);
}

#[test]
fn parse_then_render_is_identity_on_canonical_lines() {
    let lines = [
        "FCS3.0         256    1545    1792  202456       0       0",
        "FCS3.0      202451  203140    1792  202450       0       0",
        "FCS3.1           1       2       3       4       5       6",
    ];
    for line in lines {
        let header = Header::try_from(line).unwrap();
        assert_eq!(line, header.render());
    }
}

#[test]
fn render_then_parse_is_identity() {
    let header = Header {
        version: "FCS3.1".into(),
        text_offsets: range(99999999, 0),
        data_offsets: range(42, 7),
        analysis_offsets: range(123456, 99999999),
    };
    let rendered = header.render();
    assert_eq!(rendered.len(), 58);
    assert_eq!(header, Header::try_from(rendered.as_str()).unwrap());
}

#[test]
fn header_rejects_garbled_numeric_field() {
    let header = "FCS3.0         2x6    1545    1792  202456       0       0";
    assert!(Header::try_from(header).is_err());
}

#[test]
fn header_rejects_blank_mandatory_field() {
    let header = "FCS3.0                1545    1792  202456       0       0";
    assert_eq!(Header::try_from(header).unwrap_err(), NumParseError::Empty);
}

#[test]
fn read_header_rejects_short_stream() {
    let bytes = [b' '; 10];
    match fcs_rs::read_header(&bytes) {
        Err(FcsError::IoError) => {}
        other => panic!("expected an I/O failure, got {:?}", other.map(|h| h.version)),
    }
}

#[test]
fn read_header_rejects_unsupported_version() {
    let line = "FCS9.9         256    1545    1792  202456       0       0";
    match fcs_rs::read_header(line.as_bytes()) {
        Err(FcsError::InvalidVersion(v)) => assert_eq!(v, "FCS9.9"),
        other => panic!("expected an unsupported version, got {:?}", other.map(|h| h.version)),
    }
}

#[test]
fn read_header_accepts_supported_versions() {
    let line = "FCS3.1         256    1545    1792  202456       0       0";
    let header = fcs_rs::read_header(line.as_bytes()).unwrap();
    assert_eq!(header.version, "FCS3.1");
    assert_eq!(header.text_offsets, range(256, 1545));
}

#[test]
fn zero_when_empty_defaults_only_the_empty_case() {
    assert_eq!(fcs_rs::zero_when_empty(NumParseError::Empty), Ok(0));
    assert_eq!(
        fcs_rs::zero_when_empty(NumParseError::InvalidDigit),
        Err(NumParseError::InvalidDigit)
    );
    assert_eq!(
        fcs_rs::zero_when_empty(NumParseError::Overflow),
        Err(NumParseError::Overflow)
    );
}
