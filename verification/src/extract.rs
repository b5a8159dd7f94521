//! Row extraction: walking a table file's record region with an inferred
//! schema and decoding every live record into typed text fields.
//!
//! The record region holds fixed-size records. The first byte of a record is
//! its deletion flag: zero means live, anything else means tombstoned, and
//! tombstoned records yield no row. Text fields are decoded with the legacy
//! single-byte Western code page, cut at the first NUL and stripped of
//! surrounding whitespace. Integer and floating-point fields are read
//! little-endian; a field whose byte range would leave the record window is
//! decoded as zero instead of failing the row. Floating-point fields are
//! handed out as raw IEEE-754 bit patterns, since their textual formatting
//! is not this crate's to check.

use vstd::bytes::{spec_u32_from_le_bytes, spec_u64_from_le_bytes, u32_from_le_bytes,
    u64_from_le_bytes};
use vstd::prelude::*;
use vstd::slice::slice_subrange;

use crate::schema::{ColModel, ColumnDef, FieldType, TableSchema, HEADER_LEN,
    col_models, spec_data_offset, spec_total_fields, spec_total_rows, data_offset_of,
    read_total_fields, read_total_rows};
use crate::text::{dec_text_signed, i32_to_text, push_char};

verus! {

/// What the legacy single-byte Western code page makes of a byte sequence:
/// one character per byte.
pub uninterp spec fn win1252_of(bytes: Seq<u8>) -> Seq<char>;

/// Whether a character has the Unicode white-space property.
pub uninterp spec fn is_unicode_ws(c: char) -> bool;

/// Relies on `encoding_rs::WINDOWS_1252.decode_without_bom_handling`: a
/// single-byte encoding decodes one character per byte, and bytes below
/// 0x80 decode to themselves.
#[verifier::external_body]
fn decode_win1252(bytes: &[u8]) -> (r: String)
    requires
        bytes@.len() < 0x1000_0000_0000,
    ensures
        r@ == win1252_of(bytes@),
        r@.len() == bytes@.len(),
        forall|i: int| 0 <= i < bytes@.len() && bytes@[i] < 0x80
            ==> r@[i] == (bytes@[i] as char),
{
    let (text, _malformed) = encoding_rs::WINDOWS_1252.decode_without_bom_handling(bytes);
    text.into_owned()
}

/// Relies on `char::is_whitespace`: the Unicode white-space property of the
/// character alone.
#[verifier::external_body]
fn is_ws_char(c: char) -> (r: bool)
    ensures
        r == is_unicode_ws(c),
{
    c.is_whitespace()
}

/// The prefix of a character sequence up to (not including) its first NUL.
pub open spec fn cut_at_nul(s: Seq<char>) -> Seq<char>
    decreases s.len(),
{
    if s.len() == 0 {
        s
    } else if s[0] == '\0' {
        Seq::empty()
    } else {
        seq![s[0]].add(cut_at_nul(s.drop_first()))
    }
}

/// The sequence without its leading white space.
pub open spec fn trim_start(s: Seq<char>) -> Seq<char>
    decreases s.len(),
{
    if s.len() == 0 {
        s
    } else if is_unicode_ws(s[0]) {
        trim_start(s.drop_first())
    } else {
        s
    }
}

/// The sequence without its trailing white space.
pub open spec fn trim_end(s: Seq<char>) -> Seq<char>
    decreases s.len(),
{
    if s.len() == 0 {
        s
    } else if is_unicode_ws(s.last()) {
        trim_end(s.drop_last())
    } else {
        s
    }
}

/// The sequence without its surrounding white space.
pub open spec fn trim_ws(s: Seq<char>) -> Seq<char> {
    trim_end(trim_start(s))
}

proof fn lemma_cut_at_nul_is_prefix(s: Seq<char>, k: int)
    requires
        0 <= k <= s.len(),
        forall|i: int| 0 <= i < k ==> s[i] != '\0',
        k < s.len() ==> s[k] == '\0',
    ensures
        cut_at_nul(s) == s.subrange(0, k),
    decreases k,
{
    if s.len() == 0 {
        assert(cut_at_nul(s) =~= s.subrange(0, k));
    } else if k == 0 {
        assert(cut_at_nul(s) =~= s.subrange(0, 0));
    } else {
        lemma_cut_at_nul_is_prefix(s.drop_first(), k - 1);
        assert(seq![s[0]].add(s.drop_first().subrange(0, k - 1)) =~= s.subrange(0, k));
    }
}

proof fn lemma_trim_start_is_suffix(s: Seq<char>, k: int)
    requires
        0 <= k <= s.len(),
        forall|i: int| 0 <= i < k ==> is_unicode_ws(s[i]),
        k < s.len() ==> !is_unicode_ws(s[k]),
    ensures
        trim_start(s) == s.subrange(k, s.len() as int),
    decreases k,
{
    if k == 0 {
        assert(trim_start(s) =~= s.subrange(0, s.len() as int));
    } else {
        lemma_trim_start_is_suffix(s.drop_first(), k - 1);
        assert(s.drop_first().subrange(k - 1, s.drop_first().len() as int) =~= s.subrange(
            k, s.len() as int));
    }
}

proof fn lemma_trim_end_is_prefix(s: Seq<char>, k: int)
    requires
        0 <= k <= s.len(),
        forall|i: int| k <= i < s.len() ==> is_unicode_ws(s[i]),
        k > 0 ==> !is_unicode_ws(s[k - 1]),
    ensures
        trim_end(s) == s.subrange(0, k),
    decreases s.len(),
{
    if k == s.len() {
        if s.len() == 0 {
            assert(trim_end(s) =~= s.subrange(0, k));
        } else {
            assert(trim_end(s) =~= s.subrange(0, k));
        }
    } else {
        assert(is_unicode_ws(s.last()));
        lemma_trim_end_is_prefix(s.drop_last(), k);
        assert(s.drop_last().subrange(0, k) =~= s.subrange(0, k));
    }
}

/// Cuts a string at its first NUL character.
fn cut_string_at_nul(s: &String) -> (r: String)
    ensures
        r@ == cut_at_nul(s@),
{
    let n = s.as_str().unicode_len();
    let mut k: usize = 0;
    while k < n && s.as_str().get_char(k) != '\0'
        invariant
            0 <= k <= n,
            n == s@.len(),
            forall|i: int| 0 <= i < k ==> s@[i] != '\0',
        decreases n - k,
    {
        k += 1;
    }
    proof {
        lemma_cut_at_nul_is_prefix(s@, k as int);
    }
    let cut = s.as_str().substring_char(0, k);
    let mut r = String::new();
    r.append(cut);
    r
}

/// Strips surrounding white space from a string.
fn trim_string(s: &String) -> (r: String)
    ensures
        r@ == trim_ws(s@),
{
    let n = s.as_str().unicode_len();
    let mut a: usize = 0;
    while a < n && is_ws_char(s.as_str().get_char(a))
        invariant
            0 <= a <= n,
            n == s@.len(),
            forall|i: int| 0 <= i < a ==> is_unicode_ws(s@[i]),
        decreases n - a,
    {
        a += 1;
    }
    proof {
        lemma_trim_start_is_suffix(s@, a as int);
    }
    let mut b: usize = n;
    while b > a && is_ws_char(s.as_str().get_char(b - 1))
        invariant
            a <= b <= n,
            n == s@.len(),
            a < s@.len() ==> !is_unicode_ws(s@[a as int]),
            forall|i: int| b <= i < n ==> is_unicode_ws(s@[i]),
        decreases b,
    {
        b -= 1;
    }
    let ghost st = trim_start(s@);
    proof {
        assert(st == s@.subrange(a as int, n as int));
        assert forall|i: int| b - a <= i < st.len() implies is_unicode_ws(st[i]) by {
            assert(st[i] == s@[i + a]);
        }
        if b > a {
            assert(!is_unicode_ws(s@[b - 1]));
            assert(st[b - a - 1] == s@[b - 1]);
        }
        lemma_trim_end_is_prefix(st, b - a);
        assert(st.subrange(0, b - a) =~= s@.subrange(a as int, b as int));
    }
    let piece = s.as_str().substring_char(a, b);
    let mut r = String::new();
    r.append(piece);
    r
}

/// One decoded field: text, or the raw bit pattern of an IEEE-754 double.
#[derive(Debug, PartialEq, Eq)]
pub enum FieldValue {
    Text(String),
    FloatBits(u64),
}

/// Mathematical image of a [`FieldValue`].
pub enum FieldModel {
    Text(Seq<char>),
    FloatBits(u64),
}

impl View for FieldValue {
    type V = FieldModel;

    open spec fn view(&self) -> FieldModel {
        match self {
            FieldValue::Text(s) => FieldModel::Text(s@),
            FieldValue::FloatBits(b) => FieldModel::FloatBits(*b),
        }
    }
}

/// The models of a decoded row.
pub open spec fn field_models(r: Seq<FieldValue>) -> Seq<FieldModel> {
    r.map(|i: int, f: FieldValue| f@)
}

/// The signed 32-bit value whose two's-complement image a 32-bit word is.
pub open spec fn as_i32(u: u32) -> int {
    if u >= 0x8000_0000 {
        u - 0x1_0000_0000
    } else {
        u as int
    }
}

/// What one column makes of one record window.
///
/// Text columns read from their offset to the end of the window (a layout
/// assumption of the format: text columns are record-final or bounded by
/// their NUL terminator), cut at the first NUL and trimmed. Integer columns
/// read four bytes little-endian as a signed value and render it in decimal;
/// floating-point and decimal columns read eight bytes little-endian as an
/// IEEE-754 bit pattern. A byte range that would leave the window decodes as
/// zero; anything else decodes as empty text.
pub open spec fn spec_decode_field(rec: Seq<u8>, c: ColModel) -> FieldModel {
    match c.field_type {
        FieldType::Str => FieldModel::Text(
            if c.offset <= rec.len() {
                trim_ws(cut_at_nul(win1252_of(rec.subrange(c.offset as int, rec.len() as int))))
            } else {
                Seq::empty()
            },
        ),
        FieldType::Int => FieldModel::Text(
            if c.offset + 4 <= rec.len() {
                dec_text_signed(as_i32(spec_u32_from_le_bytes(rec.subrange(
                    c.offset as int, c.offset + 4))))
            } else {
                dec_text_signed(0)
            },
        ),
        FieldType::Float | FieldType::Decimal => FieldModel::FloatBits(
            if c.offset + 8 <= rec.len() {
                spec_u64_from_le_bytes(rec.subrange(c.offset as int, c.offset + 8))
            } else {
                0
            },
        ),
        FieldType::Bin => FieldModel::Text(Seq::empty()),
    }
}

/// Decodes one column out of one record window.
pub fn decode_field(rec: &[u8], col: &ColumnDef) -> (r: FieldValue)
    requires
        rec@.len() < 0x1000_0000_0000,
    ensures
        r@ == spec_decode_field(rec@, col@),
{
    let off = col.offset as usize;
    match col.field_type {
        FieldType::Str => {
            if off <= rec.len() {
                let decoded = decode_win1252(slice_subrange(rec, off, rec.len()));
                let cut = cut_string_at_nul(&decoded);
                FieldValue::Text(trim_string(&cut))
            } else {
                FieldValue::Text(String::new())
            }
        },
        FieldType::Int => {
            if off <= rec.len() && rec.len() - off >= 4 {
                let u = u32_from_le_bytes(slice_subrange(rec, off, off + 4));
                let v: i32 = if u < 0x8000_0000 {
                    u as i32
                } else {
                    (u as i64 - 0x1_0000_0000i64) as i32
                };
                proof {
                    assert(v as int == as_i32(u));
                }
                FieldValue::Text(i32_to_text(v))
            } else {
                let mut s = String::new();
                push_char(&mut s, '0');
                proof {
                    assert(Seq::<char>::empty().push('0') =~= dec_text_signed(0));
                }
                FieldValue::Text(s)
            }
        },
        FieldType::Float | FieldType::Decimal => {
            if off <= rec.len() && rec.len() - off >= 8 {
                FieldValue::FloatBits(u64_from_le_bytes(slice_subrange(rec, off, off + 8)))
            } else {
                FieldValue::FloatBits(0)
            }
        },
        FieldType::Bin => FieldValue::Text(String::new()),
    }
}

/// What a whole record window decodes to: one field per column, in schema
/// order.
pub open spec fn spec_decode_record(rec: Seq<u8>, cols: Seq<ColModel>) -> Seq<FieldModel> {
    cols.map(|i: int, c: ColModel| spec_decode_field(rec, c))
}

/// Decodes one record window into a row, one field per column.
pub fn decode_record(rec: &[u8], cols: &Vec<ColumnDef>) -> (r: Vec<FieldValue>)
    requires
        rec@.len() < 0x1000_0000_0000,
    ensures
        field_models(r@) == spec_decode_record(rec@, col_models(cols@)),
{
    let mut r: Vec<FieldValue> = Vec::new();
    let mut i: usize = 0;
    while i < cols.len()
        invariant
            i <= cols@.len(),
            rec@.len() < 0x1000_0000_0000,
            r@.len() == i,
            forall|j: int| 0 <= j < i
                ==> (#[trigger] r@[j])@ == spec_decode_field(rec@, cols@[j]@),
        decreases cols@.len() - i,
    {
        let f = decode_field(rec, &cols[i]);
        r.push(f);
        i += 1;
    }
    proof {
        assert(field_models(r@) =~= spec_decode_record(rec@, col_models(cols@)));
    }
    r
}

/// The full record windows of the record region: the `i`-th starts at
/// `d + i * rs`, and there are as many as fit wholly in the file.
pub open spec fn record_windows(data: Seq<u8>, d: int, rs: int) -> Seq<Seq<u8>> {
    if rs < 1 || d < 0 || d > data.len() {
        Seq::empty()
    } else {
        Seq::new((((data.len() - d) / rs) as nat), |i: int| data.subrange(
            d + i * rs, d + i * rs + rs))
    }
}

/// Whether a record window is live: its deletion-flag byte is zero.
pub open spec fn is_live(w: Seq<u8>) -> bool {
    w.len() > 0 && w[0] == 0
}

/// The live windows among the given ones, in order, up to a budget: the
/// walk stops once the budget of emitted rows is spent.
pub open spec fn take_live(ws: Seq<Seq<u8>>, budget: nat) -> Seq<Seq<u8>>
    decreases ws.len(),
{
    if ws.len() == 0 || budget == 0 {
        Seq::empty()
    } else if is_live(ws.first()) {
        seq![ws.first()].add(take_live(ws.drop_first(), (budget - 1) as nat))
    } else {
        take_live(ws.drop_first(), budget)
    }
}

/// How many of the given windows are live.
pub open spec fn count_live(ws: Seq<Seq<u8>>) -> nat
    decreases ws.len(),
{
    if ws.len() == 0 {
        0
    } else if is_live(ws.first()) {
        1 + count_live(ws.drop_first())
    } else {
        count_live(ws.drop_first())
    }
}

/// The live windows among the given ones, in order, without any budget.
pub open spec fn live_windows(ws: Seq<Seq<u8>>) -> Seq<Seq<u8>>
    decreases ws.len(),
{
    if ws.len() == 0 {
        Seq::empty()
    } else if is_live(ws.first()) {
        seq![ws.first()].add(live_windows(ws.drop_first()))
    } else {
        live_windows(ws.drop_first())
    }
}

/// A row is emitted only for live records: every window the walk keeps has a
/// zero deletion flag.
pub proof fn lemma_take_live_only_live(ws: Seq<Seq<u8>>, budget: nat)
    ensures
        forall|j: int| 0 <= j < take_live(ws, budget).len()
            ==> is_live(#[trigger] take_live(ws, budget)[j]),
    decreases ws.len(),
{
    if ws.len() == 0 || budget == 0 {
    } else if is_live(ws.first()) {
        lemma_take_live_only_live(ws.drop_first(), (budget - 1) as nat);
        let r = take_live(ws, budget);
        let rest = take_live(ws.drop_first(), (budget - 1) as nat);
        assert(r == seq![ws.first()].add(rest));
        assert(r.len() == 1 + rest.len());
        assert forall|j: int| 0 <= j < r.len() implies is_live(#[trigger] r[j]) by {
            if j == 0 {
                assert(r[j] == ws.first());
            } else {
                assert(r[j] == rest[j - 1]);
                assert(is_live(rest[j - 1]));
            }
        }
    } else {
        lemma_take_live_only_live(ws.drop_first(), budget);
        let r = take_live(ws, budget);
        let rest = take_live(ws.drop_first(), budget);
        assert(r == rest);
        assert forall|j: int| 0 <= j < r.len() implies is_live(#[trigger] r[j]) by {
            assert(r[j] == rest[j]);
            assert(is_live(rest[j]));
        }
    }
}

/// When the budget covers every live record, a row is emitted for each live
/// record and for nothing else: the walk keeps exactly the live windows, in
/// order.
pub proof fn lemma_take_live_complete(ws: Seq<Seq<u8>>, budget: nat)
    requires
        budget >= count_live(ws),
    ensures
        take_live(ws, budget) == live_windows(ws),
    decreases ws.len(),
{
    if ws.len() == 0 {
    } else if is_live(ws.first()) {
        lemma_take_live_complete(ws.drop_first(), (budget - 1) as nat);
    } else {
        lemma_take_live_complete(ws.drop_first(), budget);
    }
}

/// The emitted-row count never exceeds the declared row count, nor the
/// number of whole record windows the file has room for.
pub proof fn lemma_take_live_len(ws: Seq<Seq<u8>>, budget: nat)
    ensures
        take_live(ws, budget).len() <= budget,
        take_live(ws, budget).len() <= ws.len(),
    decreases ws.len(),
{
    if ws.len() == 0 || budget == 0 {
    } else if is_live(ws.first()) {
        lemma_take_live_len(ws.drop_first(), (budget - 1) as nat);
    } else {
        lemma_take_live_len(ws.drop_first(), budget);
    }
}

/// For a file declaring `N` rows, extraction emits at most `N` rows, and at
/// most as many as there are whole record windows between the data offset
/// and the end of the file — `(len - offset) / record_size` of them.
pub proof fn lemma_extract_rows_bound(data: Seq<u8>, cols: Seq<ColModel>, rs: int)
    ensures
        spec_extract_rows(data, cols, rs).len() <= spec_total_rows(data),
        spec_extract_rows(data, cols, rs).len() <= record_windows(data, spec_data_offset(
            spec_total_fields(data)), rs).len(),
        rs >= 1 && 0 <= spec_data_offset(spec_total_fields(data)) <= data.len()
            ==> record_windows(data, spec_data_offset(spec_total_fields(data)), rs).len()
                == (data.len() - spec_data_offset(spec_total_fields(data))) / rs,
{
    let ws = record_windows(data, spec_data_offset(spec_total_fields(data)), rs);
    lemma_take_live_len(ws, spec_total_rows(data) as nat);
}

/// Everything one extraction pass yields: the header row of column names and
/// the decoded rows of the live records.
pub struct Extraction {
    pub header: Vec<String>,
    pub rows: Vec<Vec<FieldValue>>,
}

/// The models of the extracted rows.
pub open spec fn row_models(rows: Seq<Vec<FieldValue>>) -> Seq<Seq<FieldModel>> {
    rows.map(|i: int, r: Vec<FieldValue>| field_models(r@))
}

/// What extraction yields on a whole table file: the first live windows of
/// the record region, within the declared row count, each decoded by the
/// schema's columns.
pub open spec fn spec_extract_rows(data: Seq<u8>, cols: Seq<ColModel>, rs: int) -> Seq<
    Seq<FieldModel>,
>
    recommends
        data.len() >= HEADER_LEN,
{
    take_live(
        record_windows(data, spec_data_offset(spec_total_fields(data)), rs),
        spec_total_rows(data) as nat,
    ).map(|i: int, w: Seq<u8>| spec_decode_record(w, cols))
}

/// Extracts every live record of a table file, decoded by the given schema.
///
/// Yields nothing exactly when the file cannot hold a full primary header.
/// Otherwise the header row lists the column names in schema order, and the
/// rows decode the first live record windows, stopping at the declared row
/// count or at the end of the file, whichever comes first.
pub fn extract_table(data: &[u8], schema: &TableSchema) -> (r: Option<Extraction>)
    ensures
        (r is Some) == (data@.len() >= HEADER_LEN),
        r matches Some(e) ==> {
            &&& e.header@.len() == schema.columns@.len()
            &&& forall|i: int| 0 <= i < e.header@.len()
                ==> (#[trigger] e.header@[i])@ == schema@.columns[i].name
            &&& row_models(e.rows@) == spec_extract_rows(
                data@, schema@.columns, schema.record_size as int)
        },
{
    if data.len() < HEADER_LEN {
        return None;
    }
    let total_rows = read_total_rows(data);
    let total_fields = read_total_fields(data);
    let d = data_offset_of(total_fields);
    let rs = schema.record_size as usize;

    let mut header: Vec<String> = Vec::new();
    let mut i: usize = 0;
    while i < schema.columns.len()
        invariant
            i <= schema.columns@.len(),
            header@.len() == i,
            forall|j: int| 0 <= j < i
                ==> (#[trigger] header@[j])@ == schema.columns@[j]@.name,
        decreases schema.columns@.len() - i,
    {
        header.push(crate::text::copy_string(&schema.columns[i].name));
        i += 1;
    }

    let ghost cols = schema@.columns;
    let ghost ws = record_windows(data@, d as int, rs as int);
    let mut rows: Vec<Vec<FieldValue>> = Vec::new();
    let mut count: u32 = 0;
    let mut pos: usize = d;
    let ghost mut w: int = 0;
    let ghost mut kept: Seq<Seq<u8>> = Seq::empty();

    if rs == 0 {
        proof {
            assert(ws =~= Seq::<Seq<u8>>::empty());
            assert(row_models(rows@) =~= spec_extract_rows(data@, cols, rs as int));
        }
        return Some(Extraction { header, rows });
    }

    proof {
        assert(ws.skip(0) =~= ws);
        assert(kept.add(take_live(ws.skip(0), (total_rows - count) as nat)) =~= take_live(
            ws, total_rows as nat));
        assert(row_models(rows@) =~= kept.map(|i: int, v: Seq<u8>| spec_decode_record(v, cols)));
    }

    while pos <= data.len() && data.len() - pos >= rs && count < total_rows
        invariant
            data@.len() >= HEADER_LEN,
            1 <= rs < 0x1_0000_0000,
            d == spec_data_offset(spec_total_fields(data@)),
            total_rows == spec_total_rows(data@),
            cols == schema@.columns,
            rs == schema.record_size as usize,
            ws == record_windows(data@, d as int, rs as int),
            0 <= w <= ws.len(),
            pos == d + w * rs,
            count <= total_rows,
            count == rows@.len(),
            kept.len() == count,
            take_live(ws, total_rows as nat) == kept.add(take_live(ws.skip(w), (total_rows
                - count) as nat)),
            row_models(rows@) == kept.map(|i: int, v: Seq<u8>| spec_decode_record(v, cols)),
        decreases data@.len() - pos,
    {
        proof {
            lemma_window_at(data@, d as int, rs as int, w);
            lemma_skip_unfold(ws, w);
        }
        let rec = slice_subrange(data, pos, pos + rs);
        assert(rec@ == ws[w]);
        let ghost left = (total_rows - count) as nat;
        if rec[0] == 0 {
            let row = decode_record(rec, &schema.columns);
            rows.push(row);
            count += 1;
            proof {
                assert(is_live(ws[w]));
                let prev = kept;
                kept = kept.push(ws[w]);
                assert(take_live(ws.skip(w), left) == seq![ws[w]].add(take_live(ws.skip(
                    w + 1), (left - 1) as nat)));
                assert(prev.add(take_live(ws.skip(w), left)) =~= kept.add(take_live(ws.skip(
                    w + 1), (left - 1) as nat)));
                let f = |i: int, v: Seq<u8>| spec_decode_record(v, cols);
                assert(field_models(row@) == spec_decode_record(ws[w], cols));
                assert(row_models(rows@) =~~= prev.map(f).push(spec_decode_record(ws[w], cols)));
                assert(kept.map(f) =~~= prev.map(f).push(spec_decode_record(ws[w], cols)));
            }
        } else {
            proof {
                assert(!is_live(ws[w]));
                assert(take_live(ws.skip(w), left) == take_live(ws.skip(w + 1), left));
            }
        }
        pos += rs;
        proof {
            assert((w + 1) * rs == w * rs + rs) by (nonlinear_arith);
            w = w + 1;
        }
    }
    proof {
        if count < total_rows {
            if pos > data@.len() || data@.len() - pos < rs {
                lemma_window_end(data@, d as int, rs as int, w);
            }
            assert(w == ws.len());
            assert(ws.skip(w) =~= Seq::<Seq<u8>>::empty());
            assert(take_live(ws.skip(w), (total_rows - count) as nat) =~= Seq::<Seq<u8>>::empty());
        } else {
            assert(take_live(ws.skip(w), (total_rows - count) as nat) =~= Seq::<Seq<u8>>::empty());
        }
        assert(take_live(ws, total_rows as nat) =~= kept);
        assert(row_models(rows@) =~~= spec_extract_rows(data@, cols, rs as int));
    }
    Some(Extraction { header, rows })
}

proof fn lemma_skip_unfold(ws: Seq<Seq<u8>>, w: int)
    requires
        0 <= w < ws.len(),
    ensures
        ws.skip(w).len() == ws.len() - w,
        ws.skip(w).first() == ws[w],
        ws.skip(w).drop_first() == ws.skip(w + 1),
    decreases ws.len(),
{
    assert(ws.skip(w).len() == ws.len() - w);
    assert(ws.skip(w)[0] == ws[w]);
    assert(ws.skip(w).drop_first() =~= ws.skip(w + 1));
}

proof fn lemma_window_end(data: Seq<u8>, d: int, rs: int, w: int)
    requires
        1 <= rs,
        0 <= w,
        0 <= d,
        d + w * rs + rs > data.len(),
    ensures
        record_windows(data, d, rs).len() <= w,
{
    if d <= data.len() {
        assert((data.len() - d) / rs <= w) by (nonlinear_arith)
            requires
                1 <= rs,
                0 <= w,
                d + w * rs + rs > data.len(),
                d <= data.len(),
        ;
    }
}

proof fn lemma_window_at(data: Seq<u8>, d: int, rs: int, w: int)
    requires
        1 <= rs,
        0 <= d <= data.len(),
        0 <= w,
        d + w * rs + rs <= data.len(),
    ensures
        w < record_windows(data, d, rs).len(),
        record_windows(data, d, rs)[w] == data.subrange(d + w * rs, d + w * rs + rs),
{
    assert((w + 1) * rs == w * rs + rs) by (nonlinear_arith);
    assert((data.len() - d) / rs >= w + 1) by (nonlinear_arith)
        requires
            1 <= rs,
            (w + 1) * rs <= data.len() - d,
            0 <= w,
    ;
}

} // verus!
