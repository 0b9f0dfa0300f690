//! The HEADER segment: a fixed 58-column text line holding the format
//! version and three byte-offset ranges, parsed by column position and
//! renderable back into the identical fixed-width layout.

use crate::error::{ErrorV, FcsError};
use crate::numeric::{
    all_digits, digits_val, lemma_digits_canonical, lemma_digits_fit_8, lemma_parse_pad_field,
    lemma_trim_start_decomp, parse_field, parse_field_spec, render_usize, spaces, spec_render_nat,
    trim_start_spaces, NumParseError,
};
use crate::text::string_from_utf8;
use vstd::prelude::*;
use vstd::slice::{slice_subrange, slice_to_vec};
use vstd::utf8::{decode_utf8, valid_utf8};

verus! {

/// An inclusive start/end pair of byte offsets into the file.
///
/// Offsets of `0..=0` signal that a segment is absent (only the analysis
/// segment may be) or that its offsets were relocated to the text
/// segment.
#[derive(Debug, Clone, Copy, PartialEq, Eq, Structural)]
pub struct OffsetRange {
    pub start: usize,
    pub end: usize,
}

/// The header segment with its version string and its three offset
/// ranges.
#[derive(Debug)]
pub struct Header {
    pub version: String,
    pub text_offsets: OffsetRange,
    pub data_offsets: OffsetRange,
    pub analysis_offsets: OffsetRange,
}

/// The mathematical value of a [`Header`].
pub ghost struct HeaderV {
    pub version: Seq<char>,
    pub text_offsets: OffsetRange,
    pub data_offsets: OffsetRange,
    pub analysis_offsets: OffsetRange,
}

impl View for Header {
    type V = HeaderV;

    open spec fn view(&self) -> HeaderV {
        HeaderV {
            version: self.version@,
            text_offsets: self.text_offsets,
            data_offsets: self.data_offsets,
            analysis_offsets: self.analysis_offsets,
        }
    }
}

impl PartialEq for Header {
    fn eq(&self, other: &Self) -> (r: bool) {
        self.version == other.version && self.text_offsets == other.text_offsets
            && self.data_offsets == other.data_offsets && self.analysis_offsets
            == other.analysis_offsets
    }
}

impl vstd::std_specs::cmp::PartialEqSpecImpl for Header {
    open spec fn obeys_eq_spec() -> bool {
        true
    }

    open spec fn eq_spec(&self, other: &Self) -> bool {
        self@ == other@
    }
}

/// The result of parsing an analysis-offset field: an empty field
/// defaults to zero, any other failure stands.
pub open spec fn zero_when_empty_spec(r: Result<usize, NumParseError>) -> Result<
    usize,
    NumParseError,
> {
    match r {
        Err(NumParseError::Empty) => Ok(0usize),
        _ => r,
    }
}

/// Map the failure of parsing an empty field to the value zero; keep any
/// other failure.
pub fn zero_when_empty(err: NumParseError) -> (r: Result<usize, NumParseError>)
    ensures
        r == zero_when_empty_spec(Err::<usize, NumParseError>(err)),
{
    if err == NumParseError::Empty {
        Ok(0)
    } else {
        Err(err)
    }
}

/// Parsing the fixed 58-column header line: the version is columns 0-5,
/// and six numeric fields sit in 8-character columns starting at column
/// 10; the two analysis fields default to zero when blank.
pub open spec fn spec_parse_header(s: Seq<char>) -> Option<HeaderV> {
    let ts = parse_field_spec(s.subrange(10, 18));
    let te = parse_field_spec(s.subrange(18, 26));
    let ds = parse_field_spec(s.subrange(26, 34));
    let de = parse_field_spec(s.subrange(34, 42));
    let ans = zero_when_empty_spec(parse_field_spec(s.subrange(42, 50)));
    let ane = zero_when_empty_spec(parse_field_spec(s.subrange(50, 58)));
    if ts is Ok && te is Ok && ds is Ok && de is Ok && ans is Ok && ane is Ok {
        Some(
            HeaderV {
                version: s.subrange(0, 6),
                text_offsets: OffsetRange { start: ts->Ok_0, end: te->Ok_0 },
                data_offsets: OffsetRange { start: ds->Ok_0, end: de->Ok_0 },
                analysis_offsets: OffsetRange { start: ans->Ok_0, end: ane->Ok_0 },
            },
        )
    } else {
        None
    }
}

/// The failure parsing a header line reports: the first failing field
/// in reading order, the analysis fields already defaulted when blank.
pub open spec fn spec_parse_header_err(s: Seq<char>) -> NumParseError {
    let ts = parse_field_spec(s.subrange(10, 18));
    let te = parse_field_spec(s.subrange(18, 26));
    let ds = parse_field_spec(s.subrange(26, 34));
    let de = parse_field_spec(s.subrange(34, 42));
    let ans = zero_when_empty_spec(parse_field_spec(s.subrange(42, 50)));
    let ane = zero_when_empty_spec(parse_field_spec(s.subrange(50, 58)));
    if ts is Err {
        ts->Err_0
    } else if te is Err {
        te->Err_0
    } else if ds is Err {
        ds->Err_0
    } else if de is Err {
        de->Err_0
    } else if ans is Err {
        ans->Err_0
    } else {
        ane->Err_0
    }
}

impl Header {
    /// Parse a header line of at least 58 characters by fixed column
    /// positions.
    pub fn try_from(header: &str) -> (r: Result<Header, NumParseError>)
        requires
            header@.len() >= 58,
        ensures
            match r {
                Ok(h) => spec_parse_header(header@) == Some(h@),
                Err(e) => spec_parse_header(header@) is None && e == spec_parse_header_err(
                    header@,
                ),
            },
    {
        let version = header.substring_char(0, 6).to_owned();
        let text_start = match parse_field(header, 10, 18) {
            Ok(v) => v,
            Err(e) => { return Err(e); },
        };
        let text_end = match parse_field(header, 18, 26) {
            Ok(v) => v,
            Err(e) => { return Err(e); },
        };
        let data_start = match parse_field(header, 26, 34) {
            Ok(v) => v,
            Err(e) => { return Err(e); },
        };
        let data_end = match parse_field(header, 34, 42) {
            Ok(v) => v,
            Err(e) => { return Err(e); },
        };
        let analysis_start = match parse_field(header, 42, 50) {
            Ok(v) => v,
            Err(e) => match zero_when_empty(e) {
                Ok(v) => v,
                Err(e2) => { return Err(e2); },
            },
        };
        let analysis_end = match parse_field(header, 50, 58) {
            Ok(v) => v,
            Err(e) => match zero_when_empty(e) {
                Ok(v) => v,
                Err(e2) => { return Err(e2); },
            },
        };
        Ok(
            Header {
                version,
                text_offsets: OffsetRange { start: text_start, end: text_end },
                data_offsets: OffsetRange { start: data_start, end: data_end },
                analysis_offsets: OffsetRange { start: analysis_start, end: analysis_end },
            },
        )
    }
}

/// A numeric value right-aligned in an 8-character column.
pub open spec fn spec_pad_field(v: int) -> Seq<char> {
    spaces(8 - spec_render_nat(v).len()) + spec_render_nat(v)
}

/// The version string left-aligned in a 10-character column.
pub open spec fn spec_pad_version(s: Seq<char>) -> Seq<char> {
    s + spaces(10 - s.len())
}

/// The fixed-width textual layout of a header: the version right-padded
/// to 10 characters, then the six offsets each right-aligned in an
/// 8-character field.
pub open spec fn spec_render_header(h: HeaderV) -> Seq<char> {
    spec_pad_version(h.version) + spec_pad_field(h.text_offsets.start as int) + spec_pad_field(
        h.text_offsets.end as int,
    ) + spec_pad_field(h.data_offsets.start as int) + spec_pad_field(h.data_offsets.end as int)
        + spec_pad_field(h.analysis_offsets.start as int) + spec_pad_field(
        h.analysis_offsets.end as int,
    )
}

fn pad_field(n: usize) -> (s: String)
    ensures
        s@ == spec_pad_field(n as int),
{
    let digits = render_usize(n);
    let len = digits.as_str().unicode_len();
    let pad: usize = if len >= 8 {
        0
    } else {
        8 - len
    };
    let mut out = String::new();
    let mut k: usize = 0;
    proof {
        reveal_strlit(" ");
        assert(out@ =~= spaces(0));
    }
    while k < pad
        invariant
            k <= pad,
            pad == (if digits@.len() >= 8 {
                0int
            } else {
                8 - digits@.len()
            }),
            out@ =~= spaces(k as int),
        decreases pad - k,
    {
        out.append(" ");
        proof {
            reveal_strlit(" ");
            assert(" "@ =~= seq![' ']);
            assert(out@ =~= spaces(k as int) + seq![' ']);
            assert(spaces(k as int) + seq![' '] =~= spaces(k + 1));
        }
        k = k + 1;
    }
    out.append(digits.as_str());
    proof {
        assert(out@ =~= spec_pad_field(n as int));
    }
    out
}

impl Header {
    /// Render the header back into its fixed-width textual layout.
    pub fn render(&self) -> (s: String)
        ensures
            s@ == spec_render_header(self@),
    {
        let mut out = self.version.clone();
        let len = out.as_str().unicode_len();
        let pad: usize = if len >= 10 {
            0
        } else {
            10 - len
        };
        let mut k: usize = 0;
        proof {
            reveal_strlit(" ");
            assert(out@ =~= self.version@ + spaces(0));
        }
        while k < pad
            invariant
                k <= pad,
                pad == (if self.version@.len() >= 10 {
                    0int
                } else {
                    10 - self.version@.len()
                }),
                out@ =~= self.version@ + spaces(k as int),
            decreases pad - k,
        {
            out.append(" ");
            proof {
                reveal_strlit(" ");
                assert(" "@ =~= seq![' ']);
                assert(out@ =~= (self.version@ + spaces(k as int)) + seq![' ']);
                assert((self.version@ + spaces(k as int)) + seq![' '] =~= self.version@ + spaces(
                    k + 1,
                ));
            }
            k = k + 1;
        }
        proof {
            assert(out@ =~= spec_pad_version(self.version@));
        }
        out.append(pad_field(self.text_offsets.start).as_str());
        out.append(pad_field(self.text_offsets.end).as_str());
        out.append(pad_field(self.data_offsets.start).as_str());
        out.append(pad_field(self.data_offsets.end).as_str());
        out.append(pad_field(self.analysis_offsets.start).as_str());
        out.append(pad_field(self.analysis_offsets.end).as_str());
        proof {
            assert(out@ =~= spec_render_header(self@));
        }
        out
    }
}

/// A header whose fixed-width rendering parses back: the version fills
/// its six columns exactly and every offset fits an 8-character field.
pub open spec fn header_wf(h: HeaderV) -> bool {
    &&& h.version.len() == 6
    &&& h.text_offsets.start <= 99999999
    &&& h.text_offsets.end <= 99999999
    &&& h.data_offsets.start <= 99999999
    &&& h.data_offsets.end <= 99999999
    &&& h.analysis_offsets.start <= 99999999
    &&& h.analysis_offsets.end <= 99999999
}

/// Round trip, first direction: parsing the rendering of any
/// well-formed header gives the header back.
pub proof fn lemma_header_parse_render(h: HeaderV)
    requires
        header_wf(h),
    ensures
        spec_parse_header(spec_render_header(h)) == Some(h),
{
    let s = spec_render_header(h);
    lemma_parse_pad_field(h.text_offsets.start as int);
    lemma_parse_pad_field(h.text_offsets.end as int);
    lemma_parse_pad_field(h.data_offsets.start as int);
    lemma_parse_pad_field(h.data_offsets.end as int);
    lemma_parse_pad_field(h.analysis_offsets.start as int);
    lemma_parse_pad_field(h.analysis_offsets.end as int);
    assert(s.subrange(0, 6) =~= h.version);
    assert(s.subrange(10, 18) =~= spec_pad_field(h.text_offsets.start as int));
    assert(s.subrange(18, 26) =~= spec_pad_field(h.text_offsets.end as int));
    assert(s.subrange(26, 34) =~= spec_pad_field(h.data_offsets.start as int));
    assert(s.subrange(34, 42) =~= spec_pad_field(h.data_offsets.end as int));
    assert(s.subrange(42, 50) =~= spec_pad_field(h.analysis_offsets.start as int));
    assert(s.subrange(50, 58) =~= spec_pad_field(h.analysis_offsets.end as int));
}

/// A canonical numeric field: eight columns holding a right-aligned,
/// nonempty digit run with no leading zero.
pub open spec fn canonical_field(f: Seq<char>) -> bool {
    &&& f.len() == 8
    &&& trim_start_spaces(f).len() >= 1
    &&& all_digits(trim_start_spaces(f))
    &&& (trim_start_spaces(f)[0] != '0' || trim_start_spaces(f).len() == 1)
}

/// A canonical header line: 58 columns, a 6-character version followed
/// by four spaces, and six canonical numeric fields (so in particular
/// the analysis fields are not blank).
pub open spec fn canonical_header(s: Seq<char>) -> bool {
    &&& s.len() == 58
    &&& s.subrange(6, 10) == spaces(4)
    &&& canonical_field(s.subrange(10, 18))
    &&& canonical_field(s.subrange(18, 26))
    &&& canonical_field(s.subrange(26, 34))
    &&& canonical_field(s.subrange(34, 42))
    &&& canonical_field(s.subrange(42, 50))
    &&& canonical_field(s.subrange(50, 58))
}

proof fn lemma_canonical_field_value(f: Seq<char>)
    requires
        canonical_field(f),
    ensures
        parse_field_spec(f) is Ok,
        spec_pad_field(parse_field_spec(f)->Ok_0 as int) =~= f,
{
    let t = trim_start_spaces(f);
    let v = digits_val(t);
    lemma_trim_start_decomp(f);
    lemma_digits_canonical(t);
    lemma_digits_fit_8(t);
    assert(usize::MAX >= 0xffff_ffff);
    assert(parse_field_spec(f) == Ok::<usize, NumParseError>(v as usize));
    assert(spec_render_nat(v) =~= t);
    assert(spaces(8 - t.len()) + t =~= f);
}

/// Round trip, second direction: rendering the parse of a canonical
/// header line gives the line back.
pub proof fn lemma_header_render_parse(s: Seq<char>)
    requires
        canonical_header(s),
    ensures
        spec_parse_header(s) is Some,
        spec_render_header(spec_parse_header(s)->0) =~= s,
{
    lemma_canonical_field_value(s.subrange(10, 18));
    lemma_canonical_field_value(s.subrange(18, 26));
    lemma_canonical_field_value(s.subrange(26, 34));
    lemma_canonical_field_value(s.subrange(34, 42));
    lemma_canonical_field_value(s.subrange(42, 50));
    lemma_canonical_field_value(s.subrange(50, 58));
    let h = spec_parse_header(s)->0;
    assert(spec_pad_version(h.version) =~= s.subrange(0, 10));
    assert(spec_render_header(h) =~= s);
}

/// The outcome of reading a header from the start of a byte stream: the
/// first 58 bytes must decode as a 58-character text line, parse by
/// columns, and carry a supported version.
pub open spec fn spec_read_header(bytes: Seq<u8>) -> Result<HeaderV, ErrorV> {
    if bytes.len() < 58 {
        Err(ErrorV::IoError)
    } else if !valid_utf8(bytes.take(58)) {
        Err(ErrorV::InvalidHeader)
    } else {
        let s = decode_utf8(bytes.take(58));
        if s.len() != 58 {
            Err(ErrorV::InvalidHeader)
        } else {
            match spec_parse_header(s) {
                None => Err(ErrorV::InvalidHeader),
                Some(h) => {
                    if h.version == "FCS3.0"@ || h.version == "FCS3.1"@ {
                        Ok(h)
                    } else {
                        Err(ErrorV::InvalidVersion(h.version))
                    }
                },
            }
        }
    }
}

/// Read and validate the 58-byte header segment at the start of the
/// file.
pub fn read_header(bytes: &[u8]) -> (r: Result<Header, FcsError>)
    ensures
        match r {
            Ok(h) => spec_read_header(bytes@) == Ok::<HeaderV, ErrorV>(h@),
            Err(e) => spec_read_header(bytes@) == Err::<HeaderV, ErrorV>(e@),
        },
{
    if bytes.len() < 58 {
        return Err(FcsError::IoError);
    }
    let head = slice_subrange(bytes, 0, 58);
    proof {
        assert(head@ =~= bytes@.take(58));
    }
    let s = match string_from_utf8(slice_to_vec(head)) {
        Some(s) => s,
        None => { return Err(FcsError::InvalidHeader); },
    };
    if s.as_str().unicode_len() != 58 {
        return Err(FcsError::InvalidHeader);
    }
    let header = match Header::try_from(s.as_str()) {
        Ok(h) => h,
        Err(_) => { return Err(FcsError::InvalidHeader); },
    };
    let v30 = String::from_str("FCS3.0");
    let v31 = String::from_str("FCS3.1");
    if header.version == v30 || header.version == v31 {
        Ok(header)
    } else {
        Err(FcsError::InvalidVersion(header.version))
    }
}

} // verus!

