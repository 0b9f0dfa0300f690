//! The DATA segment: byte-order- and type-aware unpacking of the binary
//! event matrix into one raw numeric column per parameter, and assembly
//! of the decoded columns into the final sample.
//!
//! Decoded values are kept in their raw integer form: IEEE-754 bit
//! patterns for the two floating-point data types and widened unsigned
//! integers for the integer data type.  Turning them into
//! double-precision numbers is the caller's (unverified) concern.

use crate::error::{ErrorV, FcsError};
use crate::numeric::{parse_trimmed_spec, parse_usize_spec, parse_trimmed, parse_usize, render_usize, spec_render_nat};
use crate::text::{indexed_keyword, indexed_keyword_string, KeywordMap};
use vstd::prelude::*;

verus! {

/// The order in which the bytes of a multi-byte value are laid out.
#[derive(Debug, Clone, Copy, PartialEq, Eq, Structural)]
pub enum ByteOrder {
    /// Ascending significance: least significant byte first.
    LittleEndian,
    /// Descending significance: most significant byte first.
    BigEndian,
}

/// The value of a byte sequence read with ascending significance.
pub open spec fn le_val(s: Seq<u8>) -> int
    decreases s.len(),
{
    if s.len() == 0 {
        0
    } else {
        s[0] + 256 * le_val(s.drop_first())
    }
}

/// The value of a byte sequence read with descending significance.
pub open spec fn be_val(s: Seq<u8>) -> int
    decreases s.len(),
{
    if s.len() == 0 {
        0
    } else {
        be_val(s.drop_last()) * 256 + s.last()
    }
}

/// The value of a byte sequence under the given byte order.
pub open spec fn val_of(order: ByteOrder, s: Seq<u8>) -> int {
    match order {
        ByteOrder::LittleEndian => le_val(s),
        ByteOrder::BigEndian => be_val(s),
    }
}

/// `pow256(k)` is 256 to the power `k`.
pub open spec fn pow256(k: int) -> int
    decreases k,
{
    if k <= 0 {
        1
    } else {
        256 * pow256(k - 1)
    }
}

proof fn lemma_byte_bounds(b: u8)
    ensures
        0 <= b <= 255,
{
}

proof fn lemma_le_val_bound(s: Seq<u8>)
    ensures
        0 <= le_val(s) < pow256(s.len() as int),
    decreases s.len(),
{
    if s.len() > 0 {
        lemma_le_val_bound(s.drop_first());
        lemma_byte_bounds(s[0]);
    }
}

proof fn lemma_be_val_bound(s: Seq<u8>)
    ensures
        0 <= be_val(s) < pow256(s.len() as int),
    decreases s.len(),
{
    if s.len() > 0 {
        lemma_be_val_bound(s.drop_last());
        lemma_byte_bounds(s.last());
    }
}

/// A byte sequence's value is bounded by 256 to its length.
pub proof fn lemma_val_of_bound(order: ByteOrder, s: Seq<u8>)
    ensures
        0 <= val_of(order, s) < pow256(s.len() as int),
{
    match order {
        ByteOrder::LittleEndian => lemma_le_val_bound(s),
        ByteOrder::BigEndian => lemma_be_val_bound(s),
    }
}

proof fn lemma_pow256_mono(a: int, b: int)
    requires
        a <= b,
    ensures
        pow256(a) <= pow256(b),
    decreases b - a,
{
    if a < b {
        lemma_pow256_mono(a, b - 1);
        lemma_pow256_pos(b - 1);
    }
}

proof fn lemma_pow256_pos(k: int)
    ensures
        pow256(k) >= 1,
    decreases k,
{
    if k > 0 {
        lemma_pow256_pos(k - 1);
    }
}

/// Read one unsigned value of `width` bytes at `pos`, with the given
/// byte order.
#[verifier::loop_isolation(false)]
fn read_uint(bytes: &[u8], pos: usize, width: usize, order: ByteOrder) -> (r: u128)
    requires
        1 <= width <= 16,
        pos + width <= bytes@.len(),
    ensures
        r as int == val_of(order, bytes@.subrange(pos as int, pos + width)),
{
    let total_len = bytes.len();
    let ghost s = bytes@.subrange(pos as int, pos + width);
    proof {
        assert(total_len == bytes@.len());
        reveal_with_fuel(pow256, 17);
        assert(pow256(16) == 0x100000000000000000000000000000000);
    }
    match order {
        ByteOrder::LittleEndian => {
            let mut acc: u128 = 0;
            let mut j: usize = width;
            proof {
                assert(s.subrange(width as int, width as int) =~= Seq::<u8>::empty());
            }
            while j > 0
                invariant
                    j <= width,
                    acc as int == le_val(s.subrange(j as int, width as int)),
                decreases j,
            {
                j = j - 1;
                let b = bytes[pos + j];
                proof {
                    let tail = s.subrange(j as int, width as int);
                    assert(tail[0] == s[j as int] == bytes@[pos + j]);
                    assert(tail.drop_first() =~= s.subrange(j + 1, width as int));
                    lemma_le_val_bound(s.subrange(j + 1, width as int));
                    lemma_pow256_mono(width - j - 1, 15);
                    lemma_byte_bounds(b);
                }
                acc = (b as u128) + 256 * acc;
            }
            proof {
                assert(s.subrange(0, width as int) =~= s);
            }
            acc
        },
        ByteOrder::BigEndian => {
            let mut acc: u128 = 0;
            let mut j: usize = 0;
            proof {
                assert(s.subrange(0, 0) =~= Seq::<u8>::empty());
            }
            while j < width
                invariant
                    j <= width,
                    acc as int == be_val(s.subrange(0, j as int)),
                decreases width - j,
            {
                let b = bytes[pos + j];
                proof {
                    let head = s.subrange(0, j + 1);
                    assert(head.last() == s[j as int] == bytes@[pos + j]);
                    assert(head.drop_last() =~= s.subrange(0, j as int));
                    lemma_be_val_bound(s.subrange(0, j as int));
                    lemma_pow256_mono(j as int, 15);
                    lemma_byte_bounds(b);
                }
                acc = 256 * acc + (b as u128);
                j = j + 1;
            }
            proof {
                assert(s.subrange(0, width as int) =~= s);
            }
            acc
        },
    }
}

/// One decoded column in its raw form.
pub enum EventValues {
    /// IEEE-754 single-precision bit patterns, one per event.
    Floats(Vec<u32>),
    /// IEEE-754 double-precision bit patterns, one per event.
    Doubles(Vec<u64>),
    /// Unsigned integers, one per event, widened to 128 bits.
    Ints(Vec<u128>),
}

/// The mathematical value of an [`EventValues`] column.
pub ghost enum ColumnV {
    Floats(Seq<u32>),
    Doubles(Seq<u64>),
    Ints(Seq<u128>),
}

impl View for EventValues {
    type V = ColumnV;

    open spec fn view(&self) -> ColumnV {
        match self {
            EventValues::Floats(v) => ColumnV::Floats(v@),
            EventValues::Doubles(v) => ColumnV::Doubles(v@),
            EventValues::Ints(v) => ColumnV::Ints(v@),
        }
    }
}

/// The number of events a column holds.
pub open spec fn column_len(c: ColumnV) -> int {
    match c {
        ColumnV::Floats(s) => s.len() as int,
        ColumnV::Doubles(s) => s.len() as int,
        ColumnV::Ints(s) => s.len() as int,
    }
}

impl EventValues {
    /// The number of events the column holds.
    pub fn len(&self) -> (r: usize)
        ensures
            r == column_len(self@),
    {
        match self {
            EventValues::Floats(v) => v.len(),
            EventValues::Doubles(v) => v.len(),
            EventValues::Ints(v) => v.len(),
        }
    }
}

impl Clone for EventValues {
    /// Cloning keeps the column's values.
    fn clone(&self) -> (r: Self)
        ensures
            r@ == self@,
    {
        match self {
            EventValues::Floats(v) => EventValues::Floats(clone_u32_vec(v)),
            EventValues::Doubles(v) => EventValues::Doubles(clone_u64_vec(v)),
            EventValues::Ints(v) => EventValues::Ints(clone_u128_vec(v)),
        }
    }
}

fn clone_u32_vec(v: &Vec<u32>) -> (r: Vec<u32>)
    ensures
        r@ == v@,
{
    let mut r: Vec<u32> = Vec::new();
    let mut i: usize = 0;
    while i < v.len()
        invariant
            i <= v@.len(),
            r@ =~= v@.take(i as int),
        decreases v@.len() - i,
    {
        r.push(v[i]);
        proof {
            assert(r@ =~= v@.take(i + 1));
        }
        i = i + 1;
    }
    proof {
        assert(v@.take(v@.len() as int) =~= v@);
    }
    r
}

fn clone_u64_vec(v: &Vec<u64>) -> (r: Vec<u64>)
    ensures
        r@ == v@,
{
    let mut r: Vec<u64> = Vec::new();
    let mut i: usize = 0;
    while i < v.len()
        invariant
            i <= v@.len(),
            r@ =~= v@.take(i as int),
        decreases v@.len() - i,
    {
        r.push(v[i]);
        proof {
            assert(r@ =~= v@.take(i + 1));
        }
        i = i + 1;
    }
    proof {
        assert(v@.take(v@.len() as int) =~= v@);
    }
    r
}

fn clone_u128_vec(v: &Vec<u128>) -> (r: Vec<u128>)
    ensures
        r@ == v@,
{
    let mut r: Vec<u128> = Vec::new();
    let mut i: usize = 0;
    while i < v.len()
        invariant
            i <= v@.len(),
            r@ =~= v@.take(i as int),
        decreases v@.len() - i,
    {
        r.push(v[i]);
        proof {
            assert(r@ =~= v@.take(i + 1));
        }
        i = i + 1;
    }
    proof {
        assert(v@.take(v@.len() as int) =~= v@);
    }
    r
}


/// An element's byte range value: event `k` of a parameter block laid
/// out at `pos` with `size` bytes per event.
pub open spec fn spec_elem(bytes: Seq<u8>, pos: int, size: int, k: int, order: ByteOrder) -> int {
    val_of(order, bytes.subrange(pos + size * k, pos + size * (k + 1)))
}

/// The end of a parameter block of `n` events of `size` bytes at `pos`,
/// when it lies within the stream.
fn seg_end(pos: usize, size: usize, n: usize, limit: usize) -> (r: Option<usize>)
    ensures
        r is Some <==> pos + size * n <= limit,
        r matches Some(e) ==> e == pos + size * n,
{
    match size.checked_mul(n) {
        None => None,
        Some(t) => match pos.checked_add(t) {
            None => None,
            Some(e) => if e <= limit {
                Some(e)
            } else {
                None
            },
        },
    }
}

/// Read `n` contiguous values of `size` bytes each, starting at `pos`.
#[verifier::loop_isolation(false)]
fn read_column(bytes: &[u8], pos: usize, size: usize, n: usize, order: ByteOrder) -> (r: Vec<
    u128,
>)
    requires
        1 <= size <= 16,
        pos + size * n <= bytes@.len(),
    ensures
        r@.len() == n,
        forall|k: int|
            0 <= k < n ==> (#[trigger] r@[k]) as int == spec_elem(
                bytes@,
                pos as int,
                size as int,
                k,
                order,
            ),
{
    let total_len = bytes.len();
    let mut r: Vec<u128> = Vec::new();
    let mut i: usize = 0;
    while i < n
        invariant
            total_len == bytes@.len(),
            i <= n,
            r@.len() == i,
            forall|k: int|
                0 <= k < i ==> (#[trigger] r@[k]) as int == spec_elem(
                    bytes@,
                    pos as int,
                    size as int,
                    k,
                    order,
                ),
        decreases n - i,
    {
        proof {
            assert(size * (i + 1) <= size * n) by (nonlinear_arith)
                requires
                    0 <= size,
                    i < n,
            ;
            assert(size * (i + 1) == size * i + size) by (nonlinear_arith);
            assert(size * i >= 0) by (nonlinear_arith)
                requires
                    size >= 0,
                    i >= 0,
            ;
        }
        let off = pos + size * i;
        let v = read_uint(bytes, off, size, order);
        r.push(v);
        i = i + 1;
    }
    r
}

/// The outcome of decoding one parameter's events at `pos`: data type
/// `F` reads 4-byte single-precision bit patterns, `D` 8-byte
/// double-precision bit patterns, and `I` unsigned integers whose byte
/// width is an eighth of the parameter's `$P<idx>B` value, with only
/// widths 2, 4, 8 and 16 supported; the block must lie inside the
/// stream.
pub open spec fn spec_read_events(
    bytes: Seq<u8>,
    pos: int,
    order: ByteOrder,
    dt: Seq<char>,
    n: int,
    idx: int,
    m: Map<Seq<char>, Seq<char>>,
) -> Result<(ColumnV, int), ErrorV> {
    if dt == "F"@ {
        if pos + 4 * n > bytes.len() {
            Err(ErrorV::IoError)
        } else {
            Ok(
                (
                    ColumnV::Floats(
                        Seq::new(n as nat, |k: int| spec_elem(bytes, pos, 4, k, order) as u32),
                    ),
                    4 * n,
                ),
            )
        }
    } else if dt == "D"@ {
        if pos + 8 * n > bytes.len() {
            Err(ErrorV::IoError)
        } else {
            Ok(
                (
                    ColumnV::Doubles(
                        Seq::new(n as nat, |k: int| spec_elem(bytes, pos, 8, k, order) as u64),
                    ),
                    8 * n,
                ),
            )
        }
    } else if dt == "I"@ {
        let key = indexed_keyword(0, idx);
        if !m.contains_key(key) {
            Err(ErrorV::InvalidText("Missing $P"@ + spec_render_nat(idx) + "B in metadata"@))
        } else {
            match parse_usize_spec(m[key]) {
                Err(_) => Err(
                    ErrorV::InvalidData(
                        "Invalid bits per param value for $P"@ + spec_render_nat(idx) + "B"@,
                    ),
                ),
                Ok(bits) => {
                    let size = bits as int / 8;
                    if size == 2 || size == 4 || size == 8 || size == 16 {
                        if pos + size * n > bytes.len() {
                            Err(ErrorV::IoError)
                        } else {
                            Ok(
                                (
                                    ColumnV::Ints(
                                        Seq::new(
                                            n as nat,
                                            |k: int| spec_elem(bytes, pos, size, k, order) as u128,
                                        ),
                                    ),
                                    size * n,
                                ),
                            )
                        }
                    } else {
                        Err(ErrorV::InvalidData("Bits for param type not supported"@))
                    }
                },
            }
        }
    } else {
        Err(ErrorV::InvalidData("FCS data type not supported. Must be F, D, or I"@))
    }
}

/// A successful decode consumes a block that lies inside the stream and
/// yields one value per event.
pub proof fn lemma_read_events_ok(
    bytes: Seq<u8>,
    pos: int,
    order: ByteOrder,
    dt: Seq<char>,
    n: int,
    idx: int,
    m: Map<Seq<char>, Seq<char>>,
)
    requires
        0 <= pos,
        0 <= n,
    ensures
        spec_read_events(bytes, pos, order, dt, n, idx, m) matches Ok(p) ==> {
            &&& 0 <= p.1
            &&& pos + p.1 <= bytes.len()
            &&& column_len(p.0) == n
        },
{
}

/// Decode `n_events` contiguous events of the given data type for
/// parameter `param_idx`, returning the raw column and the number of
/// bytes consumed.
pub fn read_events(
    bytes: &[u8],
    pos: usize,
    order: ByteOrder,
    data_type: &str,
    n_events: usize,
    param_idx: usize,
    metadata: &KeywordMap,
) -> (r: Result<(EventValues, usize), FcsError>)
    ensures
        match r {
            Ok(p) => spec_read_events(
                bytes@,
                pos as int,
                order,
                data_type@,
                n_events as int,
                param_idx as int,
                metadata@,
            ) == Ok::<(ColumnV, int), ErrorV>((p.0@, p.1 as int)),
            Err(e) => spec_read_events(
                bytes@,
                pos as int,
                order,
                data_type@,
                n_events as int,
                param_idx as int,
                metadata@,
            ) == Err::<(ColumnV, int), ErrorV>(e@),
        },
{
    let dts = data_type.to_owned();
    if dts == String::from_str("F") {
        match seg_end(pos, 4, n_events, bytes.len()) {
            None => Err(FcsError::IoError),
            Some(end) => {
                let raw = read_column(bytes, pos, 4, n_events, order);
                let mut vals: Vec<u32> = Vec::new();
                let mut i: usize = 0;
                while i < n_events
                    invariant
                        i <= n_events,
                        vals@.len() == i,
                        raw@.len() == n_events,
                        pos + 4 * (n_events as int) <= bytes@.len(),
                        forall|k: int|
                            0 <= k < n_events ==> (#[trigger] raw@[k]) as int == spec_elem(
                                bytes@,
                                pos as int,
                                4,
                                k,
                                order,
                            ),
                        forall|k: int|
                            0 <= k < i ==> (#[trigger] vals@[k]) == spec_elem(
                                bytes@,
                                pos as int,
                                4,
                                k,
                                order,
                            ) as u32,
                    decreases n_events - i,
                {
                    proof {
                        lemma_val_of_bound(
                            order,
                            bytes@.subrange(pos + 4 * (i as int), pos + 4 * (i as int + 1)),
                        );
                        reveal_with_fuel(pow256, 5);
                    }
                    vals.push(raw[i] as u32);
                    i = i + 1;
                }
                proof {
                    assert(vals@ =~= Seq::new(
                        n_events as nat,
                        |k: int| spec_elem(bytes@, pos as int, 4, k, order) as u32,
                    ));
                }
                Ok((EventValues::Floats(vals), end - pos))
            },
        }
    } else if dts == String::from_str("D") {
        match seg_end(pos, 8, n_events, bytes.len()) {
            None => Err(FcsError::IoError),
            Some(end) => {
                let raw = read_column(bytes, pos, 8, n_events, order);
                let mut vals: Vec<u64> = Vec::new();
                let mut i: usize = 0;
                while i < n_events
                    invariant
                        i <= n_events,
                        vals@.len() == i,
                        raw@.len() == n_events,
                        pos + 8 * (n_events as int) <= bytes@.len(),
                        forall|k: int|
                            0 <= k < n_events ==> (#[trigger] raw@[k]) as int == spec_elem(
                                bytes@,
                                pos as int,
                                8,
                                k,
                                order,
                            ),
                        forall|k: int|
                            0 <= k < i ==> (#[trigger] vals@[k]) == spec_elem(
                                bytes@,
                                pos as int,
                                8,
                                k,
                                order,
                            ) as u64,
                    decreases n_events - i,
                {
                    proof {
                        lemma_val_of_bound(
                            order,
                            bytes@.subrange(pos + 8 * (i as int), pos + 8 * (i as int + 1)),
                        );
                        reveal_with_fuel(pow256, 9);
                    }
                    vals.push(raw[i] as u64);
                    i = i + 1;
                }
                proof {
                    assert(vals@ =~= Seq::new(
                        n_events as nat,
                        |k: int| spec_elem(bytes@, pos as int, 8, k, order) as u64,
                    ));
                }
                Ok((EventValues::Doubles(vals), end - pos))
            },
        }
    } else if dts == String::from_str("I") {
        let key = indexed_keyword_string(0, param_idx);
        let bits_text = match metadata.get(key.as_str()) {
            Some(v) => v,
            None => {
                let msg = String::from_str("Missing $P").concat(
                    render_usize(param_idx).as_str(),
                ).concat("B in metadata");
                proof {
                    assert(msg@ =~= "Missing $P"@ + spec_render_nat(param_idx as int)
                        + "B in metadata"@);
                }
                return Err(FcsError::InvalidText(msg));
            },
        };
        let bits = match parse_usize(bits_text.as_str()) {
            Ok(b) => b,
            Err(_) => {
                let msg = String::from_str("Invalid bits per param value for $P").concat(
                    render_usize(param_idx).as_str(),
                ).concat("B");
                proof {
                    assert(msg@ =~= "Invalid bits per param value for $P"@ + spec_render_nat(
                        param_idx as int,
                    ) + "B"@);
                }
                return Err(FcsError::InvalidData(msg));
            },
        };
        let size = bits / 8;
        if size == 2 || size == 4 || size == 8 || size == 16 {
            match seg_end(pos, size, n_events, bytes.len()) {
                None => Err(FcsError::IoError),
                Some(end) => {
                    let raw = read_column(bytes, pos, size, n_events, order);
                    proof {
                        assert(raw@ =~= Seq::new(
                            n_events as nat,
                            |k: int|
                                spec_elem(bytes@, pos as int, size as int, k, order) as u128,
                        ));
                    }
                    Ok((EventValues::Ints(raw), end - pos))
                },
            }
        } else {
            Err(FcsError::InvalidData(String::from_str("Bits for param type not supported")))
        }
    } else {
        Err(
            FcsError::InvalidData(
                String::from_str("FCS data type not supported. Must be F, D, or I"),
            ),
        )
    }
}


/// The view of a label/column vector.
pub open spec fn cols_view(v: Seq<(String, EventValues)>) -> Seq<(Seq<char>, ColumnV)> {
    v.map_values(|c: (String, EventValues)| (c.0@, c.1@))
}

/// First position of a label among the columns, or `-1` when absent.
pub open spec fn label_index(t: Seq<(Seq<char>, ColumnV)>, label: Seq<char>) -> int
    decreases t.len(),
{
    if t.len() == 0 {
        -1
    } else if t[0].0 == label {
        0
    } else {
        let r = label_index(t.drop_first(), label);
        if r < 0 {
            -1
        } else {
            r + 1
        }
    }
}

proof fn lemma_label_index_none(t: Seq<(Seq<char>, ColumnV)>, label: Seq<char>)
    requires
        forall|j: int| 0 <= j < t.len() ==> (#[trigger] t[j]).0 != label,
    ensures
        label_index(t, label) == -1,
    decreases t.len(),
{
    if t.len() > 0 {
        lemma_label_index_none(t.drop_first(), label);
    }
}

proof fn lemma_label_index_at(t: Seq<(Seq<char>, ColumnV)>, label: Seq<char>, k: int)
    requires
        0 <= k < t.len(),
        t[k].0 == label,
        forall|j: int| 0 <= j < k ==> (#[trigger] t[j]).0 != label,
    ensures
        label_index(t, label) == k,
    decreases t.len(),
{
    if k > 0 {
        lemma_label_index_at(t.drop_first(), label, k - 1);
    }
}

/// Binding a label to a column: an existing column with the label is
/// replaced in place, otherwise the column is appended.
pub open spec fn upsert(
    t: Seq<(Seq<char>, ColumnV)>,
    label: Seq<char>,
    col: ColumnV,
) -> Seq<(Seq<char>, ColumnV)> {
    let idx = label_index(t, label);
    if idx < 0 {
        t.push((label, col))
    } else {
        t.update(idx, (label, col))
    }
}

fn upsert_column(cols: &mut Vec<(String, EventValues)>, label: String, col: EventValues)
    ensures
        cols_view(final(cols)@) == upsert(cols_view(old(cols)@), label@, col@),
{
    let n = cols.len();
    let mut idx: usize = n;
    let mut i: usize = 0;
    while i < n
        invariant
            i <= n,
            n == cols@.len(),
            idx == n || (idx < i && cols@[idx as int].0@ == label@),
            idx == n ==> forall|j: int| 0 <= j < i ==> (#[trigger] cols@[j]).0@ != label@,
            idx < n ==> forall|j: int| 0 <= j < idx ==> (#[trigger] cols@[j]).0@ != label@,
        decreases n - i,
    {
        if idx == n && cols[i].0 == label {
            idx = i;
        }
        i = i + 1;
    }
    let ghost before = cols_view(cols@);
    if idx < n {
        proof {
            lemma_label_index_at(before, label@, idx as int);
        }
        cols.set(idx, (label, col));
        proof {
            assert(cols_view(cols@) =~= before.update(idx as int, (label@, col@)));
        }
    } else {
        proof {
            lemma_label_index_none(before, label@);
        }
        cols.push((label, col));
        proof {
            assert(cols_view(cols@) =~= before.push((label@, col@)));
        }
    }
}

/// The number of rows of a column list: the first column's length.
pub open spec fn table_height(t: Seq<(Seq<char>, ColumnV)>) -> int {
    if t.len() == 0 {
        0
    } else {
        column_len(t[0].1)
    }
}

/// A well-formed table: equal-length columns under distinct labels.
pub open spec fn table_wf(t: Seq<(Seq<char>, ColumnV)>) -> bool {
    &&& forall|i: int| 0 <= i < t.len() ==> column_len((#[trigger] t[i]).1) == table_height(t)
    &&& forall|i: int, j: int|
        #![trigger t[i], t[j]]
        0 <= i < t.len() && 0 <= j < t.len() && i != j ==> t[i].0 != t[j].0
}

/// The assembled table: named, equal-length raw numeric columns.
pub struct DataTable {
    columns: Vec<(String, EventValues)>,
}

impl View for DataTable {
    type V = Seq<(Seq<char>, ColumnV)>;

    closed spec fn view(&self) -> Seq<(Seq<char>, ColumnV)> {
        cols_view(self.columns@)
    }
}

impl DataTable {
    /// The (rows, columns) shape of the table.
    pub fn shape(&self) -> (r: (usize, usize))
        ensures
            r.0 == table_height(self@),
            r.1 == self@.len(),
    {
        if self.columns.len() == 0 {
            (0, 0)
        } else {
            (self.columns[0].1.len(), self.columns.len())
        }
    }

    /// The column stored under the given label, if any.
    pub fn column(&self, name: &str) -> (r: Option<EventValues>)
        ensures
            match r {
                Some(c) => {
                    &&& label_index(self@, name@) >= 0
                    &&& self@[label_index(self@, name@)].1 == c@
                },
                None => label_index(self@, name@) == -1,
            },
    {
        let k = String::from_str(name);
        let n = self.columns.len();
        let mut i: usize = 0;
        while i < n
            invariant
                i <= n,
                n == self.columns@.len(),
                k@ == name@,
                forall|j: int| 0 <= j < i ==> (#[trigger] self.columns@[j]).0@ != name@,
            decreases n - i,
        {
            if self.columns[i].0 == k {
                proof {
                    lemma_label_index_at(self@, name@, i as int);
                }
                return Some(self.columns[i].1.clone());
            }
            i = i + 1;
        }
        proof {
            lemma_label_index_none(self@, name@);
        }
        None
    }
}

/// Assembling a table from separate title and column lists: the counts
/// must agree, the titles must be distinct, and the columns must have
/// equal lengths.
pub open spec fn spec_create_dataframe(titles: Seq<Seq<char>>, cols: Seq<ColumnV>) -> Result<
    Seq<(Seq<char>, ColumnV)>,
    ErrorV,
> {
    if titles.len() != cols.len() {
        Err(ErrorV::InvalidData("Number of columns does not match number of column titles"@))
    } else if exists|i: int, j: int|
        #![trigger titles[i], titles[j]]
        0 <= i < j < titles.len() && titles[i] == titles[j] {
        Err(ErrorV::InvalidData("duplicate column name"@))
    } else if exists|i: int|
        0 <= i < cols.len() && column_len(#[trigger] cols[i]) != column_len(cols[0]) {
        Err(ErrorV::InvalidData("columns have unequal lengths"@))
    } else {
        Ok(Seq::new(titles.len(), |i: int| (titles[i], cols[i])))
    }
}

/// Build a table from column titles and the corresponding columns.
#[verifier::loop_isolation(false)]
pub fn create_dataframe(column_titles: &Vec<String>, data: &Vec<EventValues>) -> (r: Result<
    DataTable,
    FcsError,
>)
    ensures
        match r {
            Ok(t) => spec_create_dataframe(
                column_titles@.map_values(|s: String| s@),
                data@.map_values(|c: EventValues| c@),
            ) == Ok::<Seq<(Seq<char>, ColumnV)>, ErrorV>(t@) && table_wf(t@),
            Err(e) => spec_create_dataframe(
                column_titles@.map_values(|s: String| s@),
                data@.map_values(|c: EventValues| c@),
            ) == Err::<Seq<(Seq<char>, ColumnV)>, ErrorV>(e@),
        },
{
    let ghost ts = column_titles@.map_values(|s: String| s@);
    let ghost cs = data@.map_values(|c: EventValues| c@);
    let n = column_titles.len();
    if n != data.len() {
        return Err(
            FcsError::InvalidData(
                String::from_str("Number of columns does not match number of column titles"),
            ),
        );
    }
    let mut i: usize = 0;
    while i < n
        invariant
            i <= n,
            forall|a: int, b: int| #![trigger ts[a], ts[b]] 0 <= a < b < i ==> ts[a] != ts[b],
            forall|a: int, b: int|
                #![trigger ts[a], ts[b]]
                0 <= a < i && a < b < n ==> ts[a] != ts[b],
        decreases n - i,
    {
        let mut j: usize = i + 1;
        while j < n
            invariant
                i < j <= n,
                forall|b: int| i < b < j ==> ts[i as int] != (#[trigger] ts[b]),
            decreases n - j,
        {
            if column_titles[i] == column_titles[j] {
                proof {
                    assert(ts[i as int] == ts[j as int]);
                }
                return Err(FcsError::InvalidData(String::from_str("duplicate column name")));
            }
            j = j + 1;
        }
        i = i + 1;
    }
    let mut k: usize = 0;
    while k < n
        invariant
            k <= n,
            forall|a: int| 0 <= a < k ==> column_len(#[trigger] cs[a]) == column_len(cs[0]),
        decreases n - k,
    {
        if data[k].len() != data[0].len() {
            proof {
                assert(column_len(cs[k as int]) != column_len(cs[0]));
            }
            return Err(
                FcsError::InvalidData(String::from_str("columns have unequal lengths")),
            );
        }
        k = k + 1;
    }
    let mut columns: Vec<(String, EventValues)> = Vec::new();
    let mut p: usize = 0;
    while p < n
        invariant
            p <= n,
            columns@.len() == p,
            forall|a: int|
                0 <= a < p ==> (#[trigger] columns@[a]).0@ == ts[a] && columns@[a].1@ == cs[a],
        decreases n - p,
    {
        let title = column_titles[p].clone();
        let col = data[p].clone();
        columns.push((title, col));
        p = p + 1;
    }
    let table = DataTable { columns };
    proof {
        assert(!(exists|a: int, b: int|
            #![trigger ts[a], ts[b]]
            0 <= a < b < ts.len() && ts[a] == ts[b]));
        assert(spec_create_dataframe(ts, cs) is Ok);
        assert(table@ =~= spec_create_dataframe(ts, cs)->Ok_0);
        assert(forall|a: int|
            0 <= a < table@.len() ==> column_len((#[trigger] table@[a]).1) == table_height(
                table@,
            ));
    }
    Ok(table)
}

/// The long-name keyword `$P<i>S` whose value labels parameter `i`'s
/// column.
pub open spec fn label_keyword(i: int) -> Seq<char> {
    "$P"@ + spec_render_nat(i) + "S"@
}

fn label_keyword_string(i: usize) -> (s: String)
    ensures
        s@ == label_keyword(i as int),
{
    let s = String::from_str("$P").concat(render_usize(i).as_str()).concat("S");
    proof {
        assert(s@ =~= label_keyword(i as int));
    }
    s
}

/// Decoding the parameter blocks `i..=n_params` in ascending order,
/// starting at `pos`, each block immediately following the previous
/// one; each decoded column is stored under the parameter's `$P<i>S`
/// label, a later duplicate label replacing an earlier column.
pub open spec fn spec_decode_columns(
    bytes: Seq<u8>,
    m: Map<Seq<char>, Seq<char>>,
    order: ByteOrder,
    dt: Seq<char>,
    n_events: int,
    n_params: int,
    pos: int,
    i: int,
    acc: Seq<(Seq<char>, ColumnV)>,
) -> Result<Seq<(Seq<char>, ColumnV)>, ErrorV>
    decreases n_params + 1 - i,
{
    if i > n_params {
        Ok(acc)
    } else {
        match spec_read_events(bytes, pos, order, dt, n_events, i, m) {
            Err(e) => Err(e),
            Ok(p) => {
                if !m.contains_key(label_keyword(i)) {
                    Err(
                        ErrorV::InvalidData(
                            "Missing $P"@ + spec_render_nat(i) + "S in metadata"@,
                        ),
                    )
                } else {
                    spec_decode_columns(
                        bytes,
                        m,
                        order,
                        dt,
                        n_events,
                        n_params,
                        pos + p.1,
                        i + 1,
                        upsert(acc, m[label_keyword(i)], p.0),
                    )
                }
            },
        }
    }
}

/// The assembled sample: the decoded column table and the metadata
/// dictionary it was decoded under.
pub struct FlowSample {
    pub data: DataTable,
    pub parameters: KeywordMap,
}

/// The mathematical value of a [`FlowSample`].
pub ghost struct FlowSampleV {
    pub data: Seq<(Seq<char>, ColumnV)>,
    pub parameters: Map<Seq<char>, Seq<char>>,
}

impl View for FlowSample {
    type V = FlowSampleV;

    open spec fn view(&self) -> FlowSampleV {
        FlowSampleV { data: self.data@, parameters: self.parameters@ }
    }
}

/// The names of the sample's columns.
pub struct ColumnNames {
    keys_vec: Vec<String>,
}

impl FlowSample {
    /// The column labels of the sample's table, in table order.
    pub fn get_dataframe_columns(&self) -> (r: Vec<String>)
        ensures
            r@.len() == self.data@.len(),
            forall|i: int| 0 <= i < r@.len() ==> (#[trigger] r@[i])@ == self.data@[i].0,
    {
        let n = self.data.columns.len();
        let mut column_names: Vec<String> = Vec::new();
        let mut i: usize = 0;
        while i < n
            invariant
                i <= n,
                n == self.data.columns@.len(),
                column_names@.len() == i,
                forall|a: int|
                    0 <= a < i ==> (#[trigger] column_names@[a])@ == cols_view(
                        self.data.columns@,
                    )[a].0,
            decreases n - i,
        {
            column_names.push(self.data.columns[i].0.clone());
            i = i + 1;
        }
        let names = ColumnNames { keys_vec: column_names };
        names.keys_vec
    }
}

/// The outcome of decoding the data segment under a metadata
/// dictionary.  The acquisition mode must be list mode; `$DATATYPE`,
/// `$PAR`, `$TOT`, `$BEGINDATA` and `$BYTEORD` must be present and
/// parse; the decode capacity must be nonzero; the byte order token
/// must be one of the two literal orders; and the parameter blocks are
/// then decoded in ascending order from the `$BEGINDATA` offset and
/// assembled into a table.
pub open spec fn spec_parse_data(bytes: Seq<u8>, m: Map<Seq<char>, Seq<char>>) -> Result<
    FlowSampleV,
    ErrorV,
> {
    if !m.contains_key("$MODE"@) {
        Err(ErrorV::InvalidData("Missing $MODE in metadata"@))
    } else if m["$MODE"@] != "L"@ {
        Err(ErrorV::InvalidData("Data must be in list (L) mode"@))
    } else if !m.contains_key("$DATATYPE"@) {
        Err(ErrorV::InvalidData("Missing $DATATYPE in metadata"@))
    } else if !m.contains_key("$PAR"@) {
        Err(ErrorV::InvalidData("Missing $PAR in metadata"@))
    } else if parse_usize_spec(m["$PAR"@]) is Err {
        Err(ErrorV::InvalidData("Invalid $PAR value"@))
    } else if !m.contains_key("$TOT"@) {
        Err(ErrorV::InvalidData("Missing $TOT in metadata"@))
    } else if parse_usize_spec(m["$TOT"@]) is Err {
        Err(ErrorV::InvalidData("Invalid $TOT value"@))
    } else if !m.contains_key("$BEGINDATA"@) {
        Err(ErrorV::InvalidData("Missing $BEGINDATA in metadata"@))
    } else if parse_trimmed_spec(m["$BEGINDATA"@]) is Err {
        Err(ErrorV::InvalidData("Invalid $BEGINDATA value"@))
    } else if !m.contains_key("$BYTEORD"@) {
        Err(ErrorV::InvalidData("Missing $BYTEORD in metadata"@))
    } else {
        let n_params = parse_usize_spec(m["$PAR"@])->Ok_0;
        let n_events = parse_usize_spec(m["$TOT"@])->Ok_0;
        let data_start = parse_trimmed_spec(m["$BEGINDATA"@])->Ok_0;
        if n_params == 0 || n_events == 0 {
            Err(ErrorV::InvalidData("Fcs file may be corrupted. No data found"@))
        } else if m["$BYTEORD"@] != "1,2,3,4"@ && m["$BYTEORD"@] != "4,3,2,1"@ {
            Err(ErrorV::InvalidData("Could not determine byte order."@))
        } else {
            let order = if m["$BYTEORD"@] == "1,2,3,4"@ {
                ByteOrder::LittleEndian
            } else {
                ByteOrder::BigEndian
            };
            match spec_decode_columns(
                bytes,
                m,
                order,
                m["$DATATYPE"@],
                n_events as int,
                n_params as int,
                data_start as int,
                1,
                Seq::empty(),
            ) {
                Err(e) => Err(e),
                Ok(cols) => {
                    let titles = Seq::new(cols.len(), |a: int| cols[a].0);
                    let colvals = Seq::new(cols.len(), |a: int| cols[a].1);
                    match spec_create_dataframe(titles, colvals) {
                        Err(_) => Err(ErrorV::InvalidData("Failed to create DataFrame"@)),
                        Ok(t) => Ok(FlowSampleV { data: t, parameters: m }),
                    }
                },
            }
        }
    }
}

/// Decode the data segment under the metadata dictionary and assemble
/// the sample.
#[verifier::loop_isolation(false)]
pub fn parse_data(bytes: &[u8], metadata: &KeywordMap) -> (r: Result<FlowSample, FcsError>)
    ensures
        match r {
            Ok(fs) => spec_parse_data(bytes@, metadata@) == Ok::<FlowSampleV, ErrorV>(fs@),
            Err(e) => spec_parse_data(bytes@, metadata@) == Err::<FlowSampleV, ErrorV>(e@),
        },
{
    let mode = match metadata.get("$MODE") {
        Some(v) => v,
        None => {
            return Err(FcsError::InvalidData(String::from_str("Missing $MODE in metadata")));
        },
    };
    if !(mode == String::from_str("L")) {
        return Err(FcsError::InvalidData(String::from_str("Data must be in list (L) mode")));
    }
    let dt_s = match metadata.get("$DATATYPE") {
        Some(v) => v,
        None => {
            return Err(
                FcsError::InvalidData(String::from_str("Missing $DATATYPE in metadata")),
            );
        },
    };
    let n_params = match metadata.get("$PAR") {
        Some(v) => match parse_usize(v.as_str()) {
            Ok(n) => n,
            Err(_) => {
                return Err(FcsError::InvalidData(String::from_str("Invalid $PAR value")));
            },
        },
        None => {
            return Err(FcsError::InvalidData(String::from_str("Missing $PAR in metadata")));
        },
    };
    let n_events = match metadata.get("$TOT") {
        Some(v) => match parse_usize(v.as_str()) {
            Ok(n) => n,
            Err(_) => {
                return Err(FcsError::InvalidData(String::from_str("Invalid $TOT value")));
            },
        },
        None => {
            return Err(FcsError::InvalidData(String::from_str("Missing $TOT in metadata")));
        },
    };
    let data_start = match metadata.get("$BEGINDATA") {
        Some(v) => match parse_trimmed(v.as_str()) {
            Ok(n) => n,
            Err(_) => {
                return Err(
                    FcsError::InvalidData(String::from_str("Invalid $BEGINDATA value")),
                );
            },
        },
        None => {
            return Err(
                FcsError::InvalidData(String::from_str("Missing $BEGINDATA in metadata")),
            );
        },
    };
    let byte_order = match metadata.get("$BYTEORD") {
        Some(v) => v,
        None => {
            return Err(
                FcsError::InvalidData(String::from_str("Missing $BYTEORD in metadata")),
            );
        },
    };
    if n_params == 0 || n_events == 0 {
        return Err(
            FcsError::InvalidData(String::from_str("Fcs file may be corrupted. No data found")),
        );
    }
    let ord: ByteOrder = if byte_order == String::from_str("1,2,3,4") {
        ByteOrder::LittleEndian
    } else if byte_order == String::from_str("4,3,2,1") {
        ByteOrder::BigEndian
    } else {
        return Err(FcsError::InvalidData(String::from_str("Could not determine byte order.")));
    };
    let blen = bytes.len();
    let mut acc: Vec<(String, EventValues)> = Vec::new();
    let mut pos: usize = data_start;
    let mut done: usize = 0;
    proof {
        assert(blen == bytes@.len());
        assert(cols_view(acc@) =~= Seq::<(Seq<char>, ColumnV)>::empty());
    }
    while done < n_params
        invariant
            done <= n_params,
            spec_decode_columns(
                bytes@,
                metadata@,
                ord,
                dt_s@,
                n_events as int,
                n_params as int,
                data_start as int,
                1,
                Seq::empty(),
            ) == spec_decode_columns(
                bytes@,
                metadata@,
                ord,
                dt_s@,
                n_events as int,
                n_params as int,
                pos as int,
                done as int + 1,
                cols_view(acc@),
            ),
        decreases n_params - done,
    {
        let idx = done + 1;
        let events = match read_events(bytes, pos, ord, dt_s.as_str(), n_events, idx, metadata) {
            Ok(p) => p,
            Err(e) => {
                return Err(e);
            },
        };
        let key = label_keyword_string(idx);
        let label = match metadata.get(key.as_str()) {
            Some(l) => l,
            None => {
                let msg = String::from_str("Missing $P").concat(
                    render_usize(idx).as_str(),
                ).concat("S in metadata");
                proof {
                    assert(msg@ =~= "Missing $P"@ + spec_render_nat(idx as int)
                        + "S in metadata"@);
                }
                return Err(FcsError::InvalidData(msg));
            },
        };
        let (col, consumed) = events;
        proof {
            lemma_read_events_ok(
                bytes@,
                pos as int,
                ord,
                dt_s@,
                n_events as int,
                idx as int,
                metadata@,
            );
        }
        upsert_column(&mut acc, label, col);
        pos = pos + consumed;
        done = idx;
    }
    let ghost cols = cols_view(acc@);
    let n_cols = acc.len();
    let mut titles: Vec<String> = Vec::new();
    let mut colvals: Vec<EventValues> = Vec::new();
    let mut p: usize = 0;
    while p < n_cols
        invariant
            p <= n_cols,
            n_cols == acc@.len(),
            cols == cols_view(acc@),
            titles@.len() == p,
            colvals@.len() == p,
            forall|a: int| 0 <= a < p ==> (#[trigger] titles@[a])@ == cols[a].0,
            forall|a: int| 0 <= a < p ==> (#[trigger] colvals@[a])@ == cols[a].1,
        decreases n_cols - p,
    {
        titles.push(acc[p].0.clone());
        colvals.push(acc[p].1.clone());
        p = p + 1;
    }
    proof {
        assert(titles@.map_values(|s: String| s@) =~= Seq::new(cols.len(), |a: int| cols[a].0));
        assert(colvals@.map_values(|c: EventValues| c@) =~= Seq::new(
            cols.len(),
            |a: int| cols[a].1,
        ));
    }
    let table = match create_dataframe(&titles, &colvals) {
        Ok(t) => t,
        Err(_) => {
            return Err(FcsError::InvalidData(String::from_str("Failed to create DataFrame")));
        },
    };
    Ok(FlowSample { data: table, parameters: metadata.clone() })
}

/// The outcome of the whole decode pipeline on a byte stream: the
/// metadata dictionary is read and validated, then the data segment is
/// decoded under it.
pub open spec fn spec_read_sample(bytes: Seq<u8>) -> Result<FlowSampleV, ErrorV> {
    match crate::text::spec_read_metadata(bytes) {
        Err(e) => Err(e),
        Ok(m) => spec_parse_data(bytes, m),
    }
}

/// Run the whole decode pipeline on the contents of an FCS file.
pub fn read_sample(bytes: &[u8]) -> (r: Result<FlowSample, FcsError>)
    ensures
        match r {
            Ok(fs) => spec_read_sample(bytes@) == Ok::<FlowSampleV, ErrorV>(fs@),
            Err(e) => spec_read_sample(bytes@) == Err::<FlowSampleV, ErrorV>(e@),
        },
{
    let metadata = match crate::text::read_metadata(bytes) {
        Ok(m) => m,
        Err(e) => {
            return Err(e);
        },
    };
    parse_data(bytes, &metadata)
}

/// Decoding is a pure function of the byte stream: reading the same
/// bytes twice, through independent calls, yields identical metadata
/// and an identical sample.
pub proof fn lemma_read_sample_deterministic(b1: Seq<u8>, b2: Seq<u8>)
    requires
        b1 == b2,
    ensures
        crate::text::spec_read_metadata(b1) == crate::text::spec_read_metadata(b2),
        spec_read_sample(b1) == spec_read_sample(b2),
{
}

/// Every column of a list holds `n` events.
pub open spec fn all_cols_len(t: Seq<(Seq<char>, ColumnV)>, n: int) -> bool {
    forall|i: int| 0 <= i < t.len() ==> column_len((#[trigger] t[i]).1) == n
}

/// No two columns of a list share a label.
pub open spec fn labels_unique(t: Seq<(Seq<char>, ColumnV)>) -> bool {
    forall|i: int, j: int|
        #![trigger t[i], t[j]]
        0 <= i < t.len() && 0 <= j < t.len() && i != j ==> t[i].0 != t[j].0
}

proof fn lemma_label_index_props(t: Seq<(Seq<char>, ColumnV)>, label: Seq<char>)
    ensures
        label_index(t, label) == -1 ==> forall|j: int|
            0 <= j < t.len() ==> (#[trigger] t[j]).0 != label,
        label_index(t, label) >= 0 ==> label_index(t, label) < t.len() && t[label_index(
            t,
            label,
        )].0 == label,
    decreases t.len(),
{
    if t.len() > 0 {
        let d = t.drop_first();
        lemma_label_index_props(d, label);
        assert(forall|j: int| 1 <= j < t.len() ==> (#[trigger] t[j]) == d[j - 1]);
        if t[0].0 == label {
        } else {
            let r = label_index(d, label);
            if r < 0 {
                assert forall|j: int| 0 <= j < t.len() implies (#[trigger] t[j]).0 != label by {
                    if j > 0 {
                        assert(t[j] == d[j - 1]);
                    }
                }
            } else {
                assert(t[r + 1] == d[r]);
            }
        }
    }
}

proof fn lemma_upsert_preserves(
    t: Seq<(Seq<char>, ColumnV)>,
    label: Seq<char>,
    col: ColumnV,
    n: int,
)
    requires
        all_cols_len(t, n),
        labels_unique(t),
        column_len(col) == n,
    ensures
        all_cols_len(upsert(t, label, col), n),
        labels_unique(upsert(t, label, col)),
{
    lemma_label_index_props(t, label);
}

proof fn lemma_decode_columns_wf(
    bytes: Seq<u8>,
    m: Map<Seq<char>, Seq<char>>,
    order: ByteOrder,
    dt: Seq<char>,
    n_events: int,
    n_params: int,
    pos: int,
    i: int,
    acc: Seq<(Seq<char>, ColumnV)>,
)
    requires
        all_cols_len(acc, n_events),
        labels_unique(acc),
        0 <= pos,
        0 <= n_events,
    ensures
        spec_decode_columns(bytes, m, order, dt, n_events, n_params, pos, i, acc) matches Ok(
            cols,
        ) ==> {
            &&& all_cols_len(cols, n_events)
            &&& labels_unique(cols)
            &&& cols.len() <= acc.len() + (if i <= n_params {
                n_params + 1 - i
            } else {
                0
            })
        },
    decreases n_params + 1 - i,
{
    if i > n_params {
    } else {
        match spec_read_events(bytes, pos, order, dt, n_events, i, m) {
            Err(_) => {},
            Ok(p) => {
                if m.contains_key(label_keyword(i)) {
                    lemma_read_events_ok(bytes, pos, order, dt, n_events, i, m);
                    lemma_upsert_preserves(acc, m[label_keyword(i)], p.0, n_events);
                    lemma_label_index_props(acc, m[label_keyword(i)]);
                    assert(upsert(acc, m[label_keyword(i)], p.0).len() <= acc.len() + 1);
                    lemma_decode_columns_wf(
                        bytes,
                        m,
                        order,
                        dt,
                        n_events,
                        n_params,
                        pos + p.1,
                        i + 1,
                        upsert(acc, m[label_keyword(i)], p.0),
                    );
                }
            },
        }
    }
}

/// A successfully assembled sample is well formed: its columns carry
/// distinct labels and every column holds exactly `$TOT` events.
pub proof fn lemma_parse_data_shape(bytes: Seq<u8>, m: Map<Seq<char>, Seq<char>>)
    ensures
        spec_parse_data(bytes, m) matches Ok(fs) ==> {
            &&& table_wf(fs.data)
            &&& fs.data.len() <= parse_usize_spec(m["$PAR"@])->Ok_0
            &&& forall|k: int|
                0 <= k < fs.data.len() ==> column_len((#[trigger] fs.data[k]).1)
                    == parse_usize_spec(m["$TOT"@])->Ok_0
        },
{
    if spec_parse_data(bytes, m) is Ok {
        let n_params = parse_usize_spec(m["$PAR"@])->Ok_0;
        let n_events = parse_usize_spec(m["$TOT"@])->Ok_0;
        let data_start = parse_trimmed_spec(m["$BEGINDATA"@])->Ok_0;
        let order = if m["$BYTEORD"@] == "1,2,3,4"@ {
            ByteOrder::LittleEndian
        } else {
            ByteOrder::BigEndian
        };
        lemma_decode_columns_wf(
            bytes,
            m,
            order,
            m["$DATATYPE"@],
            n_events as int,
            n_params as int,
            data_start as int,
            1,
            Seq::empty(),
        );
    }
}

proof fn lemma_label_index_push(
    t: Seq<(Seq<char>, ColumnV)>,
    x: (Seq<char>, ColumnV),
    l: Seq<char>,
)
    requires
        label_index(t, l) == -1,
        x.0 != l,
    ensures
        label_index(t.push(x), l) == -1,
    decreases t.len(),
{
    if t.len() == 0 {
        assert(t.push(x)[0] == x);
        assert(t.push(x).drop_first() =~= Seq::<(Seq<char>, ColumnV)>::empty());
        assert(label_index(t.push(x).drop_first(), l) == -1);
        assert(label_index(t.push(x), l) == -1);
    } else {
        assert(t[0].0 != l);
        assert(label_index(t.drop_first(), l) == -1);
        lemma_label_index_push(t.drop_first(), x, l);
        assert(t.push(x).drop_first() =~= t.drop_first().push(x));
        assert(t.push(x)[0] == t[0]);
        assert(label_index(t.push(x).drop_first(), l) == -1);
        assert(label_index(t.push(x), l) == -1);
    }
}

proof fn lemma_decode_columns_count(
    bytes: Seq<u8>,
    m: Map<Seq<char>, Seq<char>>,
    order: ByteOrder,
    dt: Seq<char>,
    n_events: int,
    n_params: int,
    pos: int,
    i: int,
    acc: Seq<(Seq<char>, ColumnV)>,
)
    requires
        i >= 1,
        forall|j: int|
            i <= j <= n_params && m.contains_key(#[trigger] label_keyword(j)) ==> label_index(
                acc,
                m[label_keyword(j)],
            ) == -1,
        forall|a: int, b: int|
            #![trigger label_keyword(a), label_keyword(b)]
            i <= a < b <= n_params && m.contains_key(label_keyword(a)) && m.contains_key(
                label_keyword(b),
            ) ==> m[label_keyword(a)] != m[label_keyword(b)],
    ensures
        spec_decode_columns(bytes, m, order, dt, n_events, n_params, pos, i, acc) matches Ok(
            cols,
        ) ==> cols.len() == acc.len() + (if i <= n_params {
            n_params + 1 - i
        } else {
            0
        }),
    decreases n_params + 1 - i,
{
    if i > n_params {
    } else {
        match spec_read_events(bytes, pos, order, dt, n_events, i, m) {
            Err(_) => {},
            Ok(p) => {
                if m.contains_key(label_keyword(i)) {
                    let label = m[label_keyword(i)];
                    let next = upsert(acc, label, p.0);
                    assert(label_index(acc, label) == -1);
                    assert(next == acc.push((label, p.0)));
                    assert forall|j: int|
                        i + 1 <= j <= n_params && m.contains_key(
                        #[trigger] label_keyword(j),
                    ) implies label_index(next, m[label_keyword(j)]) == -1 by {
                        assert(m[label_keyword(j)] != label);
                        lemma_label_index_push(acc, (label, p.0), m[label_keyword(j)]);
                    }
                    lemma_decode_columns_count(
                        bytes,
                        m,
                        order,
                        dt,
                        n_events,
                        n_params,
                        pos + p.1,
                        i + 1,
                        next,
                    );
                }
            },
        }
    }
}

/// When the `$P<i>S` labels of the parameters are pairwise distinct, the
/// assembled table holds exactly `$PAR` columns, one per parameter.
pub proof fn lemma_parse_data_column_count(bytes: Seq<u8>, m: Map<Seq<char>, Seq<char>>)
    requires
        forall|a: int, b: int|
            #![trigger label_keyword(a), label_keyword(b)]
            1 <= a < b && m.contains_key(label_keyword(a)) && m.contains_key(label_keyword(b))
                ==> m[label_keyword(a)] != m[label_keyword(b)],
    ensures
        spec_parse_data(bytes, m) matches Ok(fs) ==> fs.data.len() == parse_usize_spec(
            m["$PAR"@],
        )->Ok_0,
{
    if spec_parse_data(bytes, m) is Ok {
        let n_params = parse_usize_spec(m["$PAR"@])->Ok_0;
        let n_events = parse_usize_spec(m["$TOT"@])->Ok_0;
        let data_start = parse_trimmed_spec(m["$BEGINDATA"@])->Ok_0;
        let order = if m["$BYTEORD"@] == "1,2,3,4"@ {
            ByteOrder::LittleEndian
        } else {
            ByteOrder::BigEndian
        };
        assert forall|j: int|
            1 <= j <= n_params && m.contains_key(#[trigger] label_keyword(j)) implies label_index(
            Seq::<(Seq<char>, ColumnV)>::empty(),
            m[label_keyword(j)],
        ) == -1 by {
            assert(label_index(Seq::<(Seq<char>, ColumnV)>::empty(), m[label_keyword(j)]) == -1);
        }
        lemma_decode_columns_count(
            bytes,
            m,
            order,
            m["$DATATYPE"@],
            n_events as int,
            n_params as int,
            data_start as int,
            1,
            Seq::empty(),
        );
    }
}
} // verus!
