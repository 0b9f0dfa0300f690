//! The TEXT segment: extracting the delimiter-separated metadata
//! dictionary from the byte stream and validating its required keywords.

use crate::error::{ErrorV, FcsError};
use crate::header::read_header;
use crate::header::spec_read_header;
use crate::numeric::{parse_u32, parse_u32_spec, render_usize, spec_render_nat};
use vstd::prelude::*;
use vstd::slice::{slice_subrange, slice_to_vec};
use vstd::utf8::{decode_utf8, valid_utf8};

verus! {

/// Relies on `String::from_utf8`: it succeeds exactly on valid UTF-8
/// input and returns the string that decodes it.
#[verifier::external_body]
pub(crate) fn string_from_utf8(v: Vec<u8>) -> (r: Option<String>)
    ensures
        r is Some <==> valid_utf8(v@),
        r matches Some(s) ==> s@ == decode_utf8(v@),
{
    String::from_utf8(v).ok()
}

/// The dictionary denoted by a list of keyword/value entries: a later
/// entry for a keyword overwrites an earlier one.
pub open spec fn map_of(entries: Seq<(String, String)>) -> Map<Seq<char>, Seq<char>>
    decreases entries.len(),
{
    if entries.len() == 0 {
        Map::empty()
    } else {
        map_of(entries.drop_last()).insert(entries.last().0@, entries.last().1@)
    }
}

/// The metadata dictionary: keyword/value pairs, read as a map from
/// keyword to its most recent value.
pub struct KeywordMap {
    entries: Vec<(String, String)>,
}

impl View for KeywordMap {
    type V = Map<Seq<char>, Seq<char>>;

    closed spec fn view(&self) -> Map<Seq<char>, Seq<char>> {
        map_of(self.entries@)
    }
}

proof fn lemma_map_of_absent(entries: Seq<(String, String)>, k: Seq<char>)
    requires
        forall|i: int| 0 <= i < entries.len() ==> (#[trigger] entries[i]).0@ != k,
    ensures
        !map_of(entries).contains_key(k),
    decreases entries.len(),
{
    if entries.len() > 0 {
        lemma_map_of_absent(entries.drop_last(), k);
    }
}

proof fn lemma_map_of_found(entries: Seq<(String, String)>, k: Seq<char>, i: int)
    requires
        0 <= i < entries.len(),
        entries[i].0@ == k,
        forall|j: int| i < j < entries.len() ==> (#[trigger] entries[j]).0@ != k,
    ensures
        map_of(entries).contains_key(k),
        map_of(entries)[k] == entries[i].1@,
    decreases entries.len(),
{
    if i == entries.len() - 1 {
    } else {
        lemma_map_of_found(entries.drop_last(), k, i);
    }
}

impl KeywordMap {
    /// An empty dictionary.
    pub fn new() -> (r: Self)
        ensures
            r@ == Map::<Seq<char>, Seq<char>>::empty(),
    {
        KeywordMap { entries: Vec::new() }
    }

    /// Bind `key` to `value`, overwriting any earlier binding.
    pub fn insert(&mut self, key: String, value: String)
        ensures
            final(self)@ == old(self)@.insert(key@, value@),
    {
        let ghost before = self.entries@;
        self.entries.push((key, value));
        proof {
            assert(self.entries@.drop_last() =~= before);
        }
    }

    /// Look the keyword up and return its value, if any.
    pub fn get(&self, key: &str) -> (r: Option<String>)
        ensures
            match r {
                Some(v) => self@.contains_key(key@) && self@[key@] == v@,
                None => !self@.contains_key(key@),
            },
    {
        let k = String::from_str(key);
        let n = self.entries.len();
        let mut i: usize = n;
        while i > 0
            invariant
                i <= n,
                n == self.entries@.len(),
                k@ == key@,
                forall|j: int| i <= j < n ==> (#[trigger] self.entries@[j]).0@ != key@,
            decreases i,
        {
            i = i - 1;
            if self.entries[i].0 == k {
                proof {
                    lemma_map_of_found(self.entries@, key@, i as int);
                }
                return Some(self.entries[i].1.clone());
            }
        }
        proof {
            lemma_map_of_absent(self.entries@, key@);
        }
        None
    }
}

impl Clone for KeywordMap {
    /// Cloning keeps the dictionary's contents.
    fn clone(&self) -> (r: Self)
        ensures
            r@ == self@,
    {
        let n = self.entries.len();
        let mut v: Vec<(String, String)> = Vec::new();
        let mut i: usize = 0;
        while i < n
            invariant
                i <= n,
                n == self.entries@.len(),
                v@ =~= self.entries@.take(i as int),
            decreases n - i,
        {
            let key = self.entries[i].0.clone();
            let value = self.entries[i].1.clone();
            v.push((key, value));
            proof {
                assert(v@ =~= self.entries@.take(i + 1));
            }
            i = i + 1;
        }
        proof {
            assert(self.entries@.take(n as int) =~= self.entries@);
        }
        KeywordMap { entries: v }
    }
}

/// Index of the first occurrence of `d` in `s`, or `-1` when there is
/// none.
pub open spec fn find_char(s: Seq<char>, d: char) -> int
    decreases s.len(),
{
    if s.len() == 0 {
        -1
    } else if s[0] == d {
        0
    } else {
        let r = find_char(s.drop_first(), d);
        if r < 0 {
            -1
        } else {
            r + 1
        }
    }
}

proof fn lemma_find_char_none(s: Seq<char>, d: char)
    requires
        forall|j: int| 0 <= j < s.len() ==> s[j] != d,
    ensures
        find_char(s, d) == -1,
    decreases s.len(),
{
    if s.len() > 0 {
        assert(forall|j: int| 0 <= j < s.drop_first().len() ==> s.drop_first()[j] != d);
        lemma_find_char_none(s.drop_first(), d);
    }
}

proof fn lemma_find_char_at(s: Seq<char>, d: char, k: int)
    requires
        0 <= k < s.len(),
        s[k] == d,
        forall|j: int| 0 <= j < k ==> s[j] != d,
    ensures
        find_char(s, d) == k,
    decreases s.len(),
{
    if k > 0 {
        assert(forall|j: int| 0 <= j < k - 1 ==> s.drop_first()[j] != d);
        lemma_find_char_at(s.drop_first(), d, k - 1);
    }
}

/// Splitting a character sequence at every occurrence of the delimiter;
/// an empty sequence yields one empty token.
pub open spec fn split_chars(s: Seq<char>, d: char) -> Seq<Seq<char>>
    decreases s.len(),
{
    let f = find_char(s, d);
    if f < 0 || f + 1 > s.len() {
        seq![s]
    } else {
        seq![s.subrange(0, f)] + split_chars(s.subrange(f + 1, s.len() as int), d)
    }
}

/// Split the string at every occurrence of the delimiter.
fn split_string(s: &str, d: char) -> (tokens: Vec<String>)
    ensures
        tokens@.map_values(|t: String| t@) == split_chars(s@, d),
{
    let n = s.unicode_len();
    let mut tokens: Vec<String> = Vec::new();
    let mut start: usize = 0;
    let mut i: usize = 0;
    proof {
        assert(s@.subrange(0, n as int) =~= s@);
        assert(tokens@.map_values(|t: String| t@) =~= Seq::<Seq<char>>::empty());
        assert(Seq::<Seq<char>>::empty() + split_chars(s@, d) =~= split_chars(s@, d));
    }
    while i < n
        invariant
            start <= i <= n,
            n == s@.len(),
            forall|j: int| start <= j < i ==> s@[j] != d,
            split_chars(s@, d) =~= tokens@.map_values(|t: String| t@) + split_chars(
                s@.subrange(start as int, n as int),
                d,
            ),
        decreases n - i,
    {
        if s.get_char(i) == d {
            let token = s.substring_char(start, i).to_owned();
            let ghost old_tokens = tokens@;
            tokens.push(token);
            proof {
                let rest = s@.subrange(start as int, n as int);
                assert(rest[i - start] == d);
                assert(forall|j: int| 0 <= j < i - start ==> rest[j] != d);
                lemma_find_char_at(rest, d, i - start);
                assert(rest.subrange(0, i - start) =~= s@.subrange(start as int, i as int));
                assert(rest.subrange(i - start + 1, rest.len() as int) =~= s@.subrange(
                    i + 1,
                    n as int,
                ));
                assert(tokens@.map_values(|t: String| t@) =~= old_tokens.map_values(
                    |t: String| t@,
                ).push(s@.subrange(start as int, i as int)));
                assert(split_chars(s@, d) =~= tokens@.map_values(|t: String| t@) + split_chars(
                    s@.subrange(i + 1, n as int),
                    d,
                ));
            }
            start = i + 1;
        }
        i = i + 1;
    }
    let token = s.substring_char(start, n).to_owned();
    let ghost old_tokens = tokens@;
    tokens.push(token);
    proof {
        let rest = s@.subrange(start as int, n as int);
        lemma_find_char_none(rest, d);
        assert(split_chars(rest, d) =~= seq![rest]);
        assert(tokens@.map_values(|t: String| t@) =~= old_tokens.map_values(|t: String| t@).push(
            rest,
        ));
        assert(tokens@.map_values(|t: String| t@) =~= split_chars(s@, d));
    }
    tokens
}

/// The scanner that turns a token list into a dictionary.  A token
/// starting with `$` opens a new keyword; any other token extends the
/// current keyword's value and stores it, so a keyword with no value
/// token before the next keyword leaves no entry.
pub open spec fn scan_tokens(
    tokens: Seq<Seq<char>>,
    kw: Seq<char>,
    val: Seq<char>,
    m: Map<Seq<char>, Seq<char>>,
) -> Map<Seq<char>, Seq<char>>
    decreases tokens.len(),
{
    if tokens.len() == 0 {
        m
    } else {
        let t = tokens[0];
        if t.len() > 0 && t[0] == '$' {
            scan_tokens(tokens.drop_first(), t, Seq::empty(), m)
        } else {
            scan_tokens(tokens.drop_first(), kw, val + t, m.insert(kw, val + t))
        }
    }
}

/// The dictionary held by a text payload, split at the delimiter.
pub open spec fn metadata_map(payload: Seq<char>, d: char) -> Map<Seq<char>, Seq<char>> {
    scan_tokens(split_chars(payload, d), Seq::empty(), Seq::empty(), Map::empty())
}

fn tokens_to_map(tokens: &Vec<String>) -> (m: KeywordMap)
    ensures
        m@ == scan_tokens(
            tokens@.map_values(|t: String| t@),
            Seq::<char>::empty(),
            Seq::<char>::empty(),
            Map::<Seq<char>, Seq<char>>::empty(),
        ),
{
    let ghost all = tokens@.map_values(|t: String| t@);
    let mut m = KeywordMap::new();
    let mut kw = String::new();
    let mut val = String::new();
    let mut i: usize = 0;
    let n = tokens.len();
    proof {
        assert(all.skip(0) =~= all);
    }
    while i < n
        invariant
            i <= n,
            n == tokens@.len(),
            all == tokens@.map_values(|t: String| t@),
            scan_tokens(all, Seq::<char>::empty(), Seq::<char>::empty(), Map::<
                Seq<char>,
                Seq<char>,
            >::empty()) == scan_tokens(all.skip(i as int), kw@, val@, m@),
        decreases n - i,
    {
        let t = &tokens[i];
        let ghost rem = all.skip(i as int);
        proof {
            assert(rem[0] == t@);
            assert(rem.drop_first() =~= all.skip(i + 1));
        }
        if t.as_str().unicode_len() > 0 && t.as_str().get_char(0) == '$' {
            kw = t.clone();
            val = String::new();
        } else {
            val.append(t.as_str());
            m.insert(kw.clone(), val.clone());
        }
        i = i + 1;
    }
    proof {
        assert(all.skip(n as int) =~= Seq::<Seq<char>>::empty());
    }
    m
}

/// The non-indexed required keywords, in the order they are checked.
pub open spec fn nonindexed_keyword(j: int) -> Seq<char> {
    if j == 0 {
        "$BEGINANALYSIS"@
    } else if j == 1 {
        "$BEGINDATA"@
    } else if j == 2 {
        "$BEGINSTEXT"@
    } else if j == 3 {
        "$BYTEORD"@
    } else if j == 4 {
        "$DATATYPE"@
    } else if j == 5 {
        "$ENDANALYSIS"@
    } else if j == 6 {
        "$ENDDATA"@
    } else if j == 7 {
        "$ENDSTEXT"@
    } else if j == 8 {
        "$MODE"@
    } else if j == 9 {
        "$NEXTDATA"@
    } else if j == 10 {
        "$PAR"@
    } else {
        "$TOT"@
    }
}

fn nonindexed_keyword_str(j: usize) -> (s: &'static str)
    requires
        j < 12,
    ensures
        s@ == nonindexed_keyword(j as int),
{
    match j {
        0 => "$BEGINANALYSIS",
        1 => "$BEGINDATA",
        2 => "$BEGINSTEXT",
        3 => "$BYTEORD",
        4 => "$DATATYPE",
        5 => "$ENDANALYSIS",
        6 => "$ENDDATA",
        7 => "$ENDSTEXT",
        8 => "$MODE",
        9 => "$NEXTDATA",
        10 => "$PAR",
        _ => "$TOT",
    }
}

/// The letter of an indexed required keyword pattern, in checking order:
/// bit width, amplification, short name, range.
pub open spec fn indexed_suffix(p: int) -> Seq<char> {
    if p == 0 {
        "B"@
    } else if p == 1 {
        "E"@
    } else if p == 2 {
        "N"@
    } else {
        "R"@
    }
}

/// The indexed required keyword for pattern `p` and parameter index `i`.
pub open spec fn indexed_keyword(p: int, i: int) -> Seq<char> {
    "$P"@ + spec_render_nat(i) + indexed_suffix(p)
}

/// Build the indexed keyword for pattern `p` and parameter index `i`.
pub fn indexed_keyword_string(p: usize, i: usize) -> (s: String)
    requires
        p < 4,
    ensures
        s@ == indexed_keyword(p as int, i as int),
{
    let suffix = match p {
        0 => "B",
        1 => "E",
        2 => "N",
        _ => "R",
    };
    let s = String::from_str("$P").concat(render_usize(i).as_str()).concat(suffix);
    proof {
        assert(s@ =~= indexed_keyword(p as int, i as int));
    }
    s
}

/// The first missing non-indexed keyword at or after position `j` of the
/// checking order.
pub open spec fn first_missing_nonindexed(m: Map<Seq<char>, Seq<char>>, j: int) -> Option<
    Seq<char>,
>
    decreases 12 - j,
{
    if j < 0 || j >= 12 {
        None
    } else if !m.contains_key(nonindexed_keyword(j)) {
        Some(nonindexed_keyword(j))
    } else {
        first_missing_nonindexed(m, j + 1)
    }
}

/// The first missing indexed keyword of pattern `p` with index at or
/// after `i`, the indices running up to `n`.
pub open spec fn first_missing_index(m: Map<Seq<char>, Seq<char>>, p: int, i: int, n: int) -> Option<
    Seq<char>,
>
    decreases n + 1 - i,
{
    if i > n || i < 0 {
        None
    } else if !m.contains_key(indexed_keyword(p, i)) {
        Some(indexed_keyword(p, i))
    } else {
        first_missing_index(m, p, i + 1, n)
    }
}

/// The first missing indexed keyword at or after pattern `p`, checked
/// pattern-major over parameter indices `1..=n`.
pub open spec fn first_missing_indexed(m: Map<Seq<char>, Seq<char>>, p: int, n: int) -> Option<
    Seq<char>,
>
    decreases 4 - p,
{
    if p < 0 || p >= 4 {
        None
    } else {
        match first_missing_index(m, p, 1, n) {
            Some(k) => Some(k),
            None => first_missing_indexed(m, p + 1, n),
        }
    }
}

/// The validation verdict on a dictionary: `None` when every required
/// keyword is present (and `$PAR` parses), else the name of the first
/// problem found: `$PAR` itself when absent or unparsable, then the
/// twelve non-indexed keywords in order, then the indexed keywords,
/// pattern-major, with the parameter index substituted.
pub open spec fn validate_spec(m: Map<Seq<char>, Seq<char>>) -> Option<Seq<char>> {
    if !m.contains_key("$PAR"@) {
        Some("$PAR"@)
    } else if parse_u32_spec(m["$PAR"@]) is Err {
        Some("$PAR"@)
    } else {
        let n = parse_u32_spec(m["$PAR"@])->Ok_0;
        match first_missing_nonindexed(m, 0) {
            Some(k) => Some(k),
            None => first_missing_indexed(m, 0, n as int),
        }
    }
}

/// Check that the dictionary holds every required keyword: `$PAR` must
/// parse as the parameter count `n`, the twelve non-indexed keywords
/// must be present, and for every parameter index `1..=n` the four
/// indexed keywords must be present.  A failure names the keyword.
#[verifier::loop_isolation(false)]
pub fn validate_text(text: &KeywordMap) -> (r: Result<(), FcsError>)
    ensures
        match r {
            Ok(_) => validate_spec(text@) is None,
            Err(e) => validate_spec(text@) is Some && e@ == ErrorV::InvalidText(
                validate_spec(text@)->0,
            ),
        },
{
    let par = match text.get("$PAR") {
        Some(v) => v,
        None => { return Err(FcsError::InvalidText(String::from_str("$PAR"))); },
    };
    let n = match parse_u32(par.as_str()) {
        Ok(n) => n,
        Err(_) => { return Err(FcsError::InvalidText(String::from_str("$PAR"))); },
    };
    let mut j: usize = 0;
    while j < 12
        invariant
            j <= 12,
            first_missing_nonindexed(text@, 0) == first_missing_nonindexed(text@, j as int),
        decreases 12 - j,
    {
        let kw = nonindexed_keyword_str(j);
        match text.get(kw) {
            Some(_) => {},
            None => { return Err(FcsError::InvalidText(String::from_str(kw))); },
        }
        j = j + 1;
    }
    let mut p: usize = 0;
    while p < 4
        invariant
            p <= 4,
            first_missing_indexed(text@, 0, n as int) == first_missing_indexed(
                text@,
                p as int,
                n as int,
            ),
        decreases 4 - p,
    {
        let mut i: u64 = 1;
        while i <= n as u64
            invariant
                1 <= i <= n as u64 + 1,
                p < 4,
                first_missing_index(text@, p as int, 1, n as int) == first_missing_index(
                    text@,
                    p as int,
                    i as int,
                    n as int,
                ),
            decreases n as u64 + 1 - i,
        {
            let kw = indexed_keyword_string(p, i as usize);
            match text.get(kw.as_str()) {
                Some(_) => {},
                None => { return Err(FcsError::InvalidText(kw)); },
            }
            i = i + 1;
        }
        p = p + 1;
    }
    Ok(())
}

/// The outcome of reading the metadata dictionary from the byte stream:
/// the header is read first; the text segment must hold a delimiter byte
/// and a payload of `end - start - 1` further bytes decodable as text;
/// the dictionary scanned out of the payload must pass validation.
pub open spec fn spec_read_metadata(bytes: Seq<u8>) -> Result<Map<Seq<char>, Seq<char>>, ErrorV> {
    match spec_read_header(bytes) {
        Err(e) => Err(e),
        Ok(h) => {
            let start = h.text_offsets.start as int;
            let end = h.text_offsets.end as int;
            if end <= start {
                Err(ErrorV::InvalidMetadata)
            } else if end > bytes.len() {
                Err(ErrorV::IoError)
            } else {
                let payload = bytes.subrange(start + 1, end);
                if !valid_utf8(payload) {
                    Err(ErrorV::InvalidMetadata)
                } else {
                    let m = metadata_map(decode_utf8(payload), bytes[start] as char);
                    match validate_spec(m) {
                        None => Ok(m),
                        Some(k) => Err(ErrorV::InvalidText(k)),
                    }
                }
            }
        },
    }
}

/// Read the text segment at the offsets the header gives, scan it into
/// the metadata dictionary, and validate the dictionary.
pub fn read_metadata(bytes: &[u8]) -> (r: Result<KeywordMap, FcsError>)
    ensures
        match r {
            Ok(m) => spec_read_metadata(bytes@) == Ok::<Map<Seq<char>, Seq<char>>, ErrorV>(m@),
            Err(e) => spec_read_metadata(bytes@) == Err::<Map<Seq<char>, Seq<char>>, ErrorV>(e@),
        },
{
    let header = match read_header(bytes) {
        Ok(h) => h,
        Err(e) => { return Err(e); },
    };
    let start = header.text_offsets.start;
    let end = header.text_offsets.end;
    if end <= start {
        return Err(FcsError::InvalidMetadata);
    }
    if end > bytes.len() {
        return Err(FcsError::IoError);
    }
    let delimiter = bytes[start] as char;
    let payload = slice_to_vec(slice_subrange(bytes, start + 1, end));
    let text = match string_from_utf8(payload) {
        Some(t) => t,
        None => { return Err(FcsError::InvalidMetadata); },
    };
    let tokens = split_string(text.as_str(), delimiter);
    let m = tokens_to_map(&tokens);
    match validate_text(&m) {
        Ok(_) => Ok(m),
        Err(e) => Err(e),
    }
}

} // verus!
