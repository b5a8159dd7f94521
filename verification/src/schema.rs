//! Schema inference: decoding field-descriptor blocks out of a table file's
//! header region and assembling them into a table schema.
//!
//! A table file starts with a fixed 512-byte primary header. Immediately
//! after it sit fixed 768-byte field-descriptor blocks, one per field. Each
//! block carries a name length, the name text, a type-identifier byte and a
//! little-endian 16-bit stored field offset. The record-length-minus-one
//! field of the primary header gives the record size: the stored value does
//! not count the per-record deletion-flag byte, so one is added back.

use vstd::bytes::{spec_u16_from_le_bytes, spec_u32_from_le_bytes, u16_from_le_bytes,
    u32_from_le_bytes};
use vstd::prelude::*;
use vstd::slice::slice_subrange;

use crate::text::push_char;

verus! {

/// Length of the primary header; the descriptor region starts right after it.
pub const HEADER_LEN: usize = 512;

/// Size of one field-descriptor block.
pub const DESCRIPTOR_LEN: usize = 768;

/// Position of the name-length byte inside a descriptor block.
pub const NAME_LEN_AT: usize = 2;

/// Position of the first name byte inside a descriptor block.
pub const NAME_AT: usize = 3;

/// Longest admissible field name.
pub const NAME_MAX: usize = 64;

/// Position of the type-identifier byte inside a descriptor block.
pub const TYPE_ID_AT: usize = 0xA4;

/// Position of the little-endian 16-bit stored field offset inside a block.
pub const OFFSET_AT: usize = 0xAC;

/// Position of the little-endian 32-bit declared row count in the header.
pub const ROW_COUNT_AT: usize = 0x29;

/// Position of the little-endian 16-bit record-length-minus-one field.
pub const RECORD_LEN_AT: usize = 0x2D;

/// Position of the little-endian 16-bit declared field count in the header.
pub const FIELD_COUNT_AT: usize = 0x2F;

/// The semantic decoding category of a column, as persisted in the registry
/// under the one-letter codes S, I, F, D and B.
///
/// The identifier bytes 6 and 0x2E are both folded to [`FieldType::Int`], and
/// 2 and 11 both to [`FieldType::Decimal`]; both foldings are heuristics
/// recovered from sample files and are kept as observed. `Decimal` decodes
/// exactly as [`FieldType::Float`] does; only its registry code differs.
#[derive(Clone, Copy, Debug, PartialEq, Eq, Structural)]
pub enum FieldType {
    Str,
    Int,
    Float,
    Decimal,
    Bin,
}

/// One inferred column: its name, decoding category and byte offset within a
/// record (counting the leading deletion-flag byte).
#[derive(Debug, PartialEq, Eq)]
pub struct ColumnDef {
    pub name: String,
    pub field_type: FieldType,
    pub offset: u32,
}

/// Mathematical image of a [`ColumnDef`].
pub struct ColModel {
    pub name: Seq<char>,
    pub field_type: FieldType,
    pub offset: u32,
}

impl View for ColumnDef {
    type V = ColModel;

    open spec fn view(&self) -> ColModel {
        ColModel { name: self.name@, field_type: self.field_type, offset: self.offset }
    }
}

/// An inferred table schema: the record size and the columns, ascending by
/// offset.
#[derive(Debug, PartialEq, Eq)]
pub struct TableSchema {
    pub record_size: u32,
    pub columns: Vec<ColumnDef>,
}

/// Mathematical image of a [`TableSchema`].
pub struct SchemaModel {
    pub record_size: u32,
    pub columns: Seq<ColModel>,
}

impl View for TableSchema {
    type V = SchemaModel;

    open spec fn view(&self) -> SchemaModel {
        SchemaModel { record_size: self.record_size, columns: col_models(self.columns@) }
    }
}

/// The models of a sequence of columns.
pub open spec fn col_models(cs: Seq<ColumnDef>) -> Seq<ColModel> {
    cs.map(|i: int, c: ColumnDef| c@)
}

/// The decoding category chosen for a type-identifier byte.
pub open spec fn field_type_of_id(id: u8) -> FieldType {
    if id == 1 {
        FieldType::Str
    } else if id == 6 || id == 0x2E {
        FieldType::Int
    } else if id == 7 {
        FieldType::Float
    } else if id == 2 || id == 11 {
        FieldType::Decimal
    } else {
        FieldType::Bin
    }
}

/// Whether a byte may appear in a field name: printable ASCII or space.
pub open spec fn is_name_byte(b: u8) -> bool {
    b == 0x20 || (0x21 <= b && b <= 0x7E)
}

/// The characters of a name made of ASCII bytes.
pub open spec fn name_chars(bs: Seq<u8>) -> Seq<char> {
    bs.map(|i: int, b: u8| b as char)
}

/// What one 768-byte descriptor block yields: a column candidate, or nothing
/// when the block fails a validity check (a normal outcome during a scan).
///
/// A block is valid when the name length is in (0, 64], every name byte is
/// printable ASCII or space, the type identifier is nonzero, and the decoded
/// offset (stored offset plus one, making room for the deletion-flag byte)
/// exceeds one.
pub open spec fn spec_decode_descriptor(b: Seq<u8>) -> Option<ColModel>
    recommends
        b.len() == DESCRIPTOR_LEN,
{
    let name_len = b[NAME_LEN_AT as int] as int;
    if !(0 < name_len && name_len <= NAME_MAX) {
        None
    } else if !(forall|i: int|
        NAME_AT <= i < NAME_AT + name_len ==> is_name_byte(#[trigger] b[i])) {
        None
    } else {
        let type_id = b[TYPE_ID_AT as int];
        let offset = spec_u16_from_le_bytes(b.subrange(OFFSET_AT as int, OFFSET_AT + 2)) + 1;
        if type_id == 0 || offset <= 1 {
            None
        } else {
            Some(ColModel {
                name: name_chars(b.subrange(NAME_AT as int, NAME_AT + name_len)),
                field_type: field_type_of_id(type_id),
                offset: offset as u32,
            })
        }
    }
}

/// The model of an optional column.
pub open spec fn opt_col_model(c: Option<ColumnDef>) -> Option<ColModel> {
    match c {
        Some(c) => Some(c@),
        None => None,
    }
}

/// Maps a type-identifier byte to its decoding category.
pub fn map_type_id(id: u8) -> (t: FieldType)
    ensures
        t == field_type_of_id(id),
{
    if id == 1 {
        FieldType::Str
    } else if id == 6 || id == 0x2E {
        FieldType::Int
    } else if id == 7 {
        FieldType::Float
    } else if id == 2 || id == 11 {
        FieldType::Decimal
    } else {
        FieldType::Bin
    }
}

/// Decodes one field-descriptor block into a column candidate; yields nothing
/// exactly on the blocks that [`spec_decode_descriptor`] rejects.
pub fn decode_descriptor(block: &[u8]) -> (r: Option<ColumnDef>)
    requires
        block@.len() == DESCRIPTOR_LEN,
    ensures
        opt_col_model(r) == spec_decode_descriptor(block@),
{
    let name_len = block[NAME_LEN_AT] as usize;
    if !(0 < name_len && name_len <= NAME_MAX) {
        return None;
    }
    let mut name = String::new();
    let mut i: usize = NAME_AT;
    while i < NAME_AT + name_len
        invariant
            NAME_AT <= i <= NAME_AT + name_len,
            0 < name_len <= NAME_MAX,
            name_len == block@[NAME_LEN_AT as int] as usize,
            block@.len() == DESCRIPTOR_LEN,
            forall|j: int| NAME_AT <= j < i ==> is_name_byte(#[trigger] block@[j]),
            name@ == name_chars(block@.subrange(NAME_AT as int, i as int)),
        decreases NAME_AT + name_len - i,
    {
        let b = block[i];
        if !(b == 0x20 || (0x21 <= b && b <= 0x7E)) {
            proof {
                assert(!is_name_byte(block@[i as int]));
            }
            return None;
        }
        push_char(&mut name, b as char);
        proof {
            assert(name@ =~= name_chars(block@.subrange(NAME_AT as int, i + 1)));
        }
        i += 1;
    }
    let type_id = block[TYPE_ID_AT];
    let stored = u16_from_le_bytes(slice_subrange(block, OFFSET_AT, OFFSET_AT + 2));
    let offset: u32 = stored as u32 + 1;
    if type_id == 0 || offset <= 1 {
        return None;
    }
    Some(ColumnDef { name, field_type: map_type_id(type_id), offset })
}

/// The column candidates found by scanning consecutive descriptor blocks
/// from `pos` while a full block remains in the buffer, in scan order.
pub open spec fn spec_scan_descriptors(b: Seq<u8>, pos: int) -> Seq<ColModel>
    decreases b.len() - pos,
{
    if pos < 0 || pos + DESCRIPTOR_LEN > b.len() {
        Seq::empty()
    } else {
        match spec_decode_descriptor(b.subrange(pos, pos + DESCRIPTOR_LEN)) {
            Some(c) => seq![c].add(spec_scan_descriptors(b, pos + DESCRIPTOR_LEN)),
            None => spec_scan_descriptors(b, pos + DESCRIPTOR_LEN),
        }
    }
}

/// Inserts a column behind every column whose offset does not exceed its own:
/// one step of a stable sort by offset.
pub open spec fn insert_by_offset(c: ColModel, s: Seq<ColModel>) -> Seq<ColModel>
    decreases s.len(),
{
    if s.len() == 0 {
        seq![c]
    } else if s.last().offset > c.offset {
        insert_by_offset(c, s.drop_last()).push(s.last())
    } else {
        s.push(c)
    }
}

/// Sorts columns ascending by offset, keeping the given order on ties.
pub open spec fn stable_sort_by_offset(s: Seq<ColModel>) -> Seq<ColModel>
    decreases s.len(),
{
    if s.len() == 0 {
        s
    } else {
        insert_by_offset(s.last(), stable_sort_by_offset(s.drop_last()))
    }
}

/// Whether a column sequence is ascending by offset.
pub open spec fn sorted_by_offset(s: Seq<ColModel>) -> bool {
    forall|i: int, j: int| 0 <= i < j < s.len() ==> s[i].offset <= s[j].offset
}

proof fn lemma_insert_by_offset_len(c: ColModel, s: Seq<ColModel>)
    ensures
        insert_by_offset(c, s).len() == s.len() + 1,
    decreases s.len(),
{
    if s.len() > 0 && s.last().offset > c.offset {
        lemma_insert_by_offset_len(c, s.drop_last());
    }
}

proof fn lemma_insert_by_offset_elems(c: ColModel, s: Seq<ColModel>)
    ensures
        insert_by_offset(c, s).len() == s.len() + 1,
        forall|k: int| 0 <= k < insert_by_offset(c, s).len()
            ==> #[trigger] insert_by_offset(c, s)[k] == c
                || exists|m: int| 0 <= m < s.len() && insert_by_offset(c, s)[k] == s[m],
    decreases s.len(),
{
    lemma_insert_by_offset_len(c, s);
    if s.len() > 0 && s.last().offset > c.offset {
        lemma_insert_by_offset_elems(c, s.drop_last());
        assert forall|k: int| 0 <= k < insert_by_offset(c, s).len()
            implies #[trigger] insert_by_offset(c, s)[k] == c
                || exists|m: int| 0 <= m < s.len() && insert_by_offset(c, s)[k] == s[m] by {
            let t = insert_by_offset(c, s.drop_last());
            if k < t.len() {
                if t[k] == c {
                } else {
                    let m = choose|m: int| 0 <= m < s.drop_last().len() && t[k] == s.drop_last()[m];
                    assert(s.drop_last()[m] == s[m]);
                }
            } else {
                assert(insert_by_offset(c, s)[k] == s.last());
            }
        }
    }
}

proof fn lemma_insert_by_offset_sorted(c: ColModel, s: Seq<ColModel>)
    requires
        sorted_by_offset(s),
    ensures
        sorted_by_offset(insert_by_offset(c, s)),
    decreases s.len(),
{
    lemma_insert_by_offset_len(c, s);
    if s.len() == 0 {
    } else if s.last().offset > c.offset {
        lemma_insert_by_offset_sorted(c, s.drop_last());
        lemma_insert_by_offset_elems(c, s.drop_last());
        let t = insert_by_offset(c, s.drop_last());
        assert forall|i: int, j: int| 0 <= i < j < t.push(s.last()).len()
            implies t.push(s.last())[i].offset <= t.push(s.last())[j].offset by {
            if j < t.len() {
            } else {
                assert(t.push(s.last())[j] == s.last());
                if t[i] == c {
                } else {
                    let m = choose|m: int|
                        0 <= m < s.drop_last().len() && t[i] == s.drop_last()[m];
                    assert(s.drop_last()[m] == s[m]);
                    assert(s[m].offset <= s.last().offset);
                }
            }
        }
    } else {
        assert forall|i: int, j: int| 0 <= i < j < s.push(c).len()
            implies s.push(c)[i].offset <= s.push(c)[j].offset by {
            if j < s.len() {
            } else {
                assert(s.push(c)[j] == c);
                assert(s[i].offset <= s.last().offset);
            }
        }
    }
}

/// The stable sort is ascending by offset: inferred schemas always list their
/// columns in offset order.
pub proof fn lemma_stable_sort_sorted(s: Seq<ColModel>)
    ensures
        sorted_by_offset(stable_sort_by_offset(s)),
    decreases s.len(),
{
    if s.len() > 0 {
        lemma_stable_sort_sorted(s.drop_last());
        lemma_insert_by_offset_sorted(s.last(), stable_sort_by_offset(s.drop_last()));
    }
}

/// Every column of the stable sort comes from the input, and the counts
/// agree: sorting neither invents nor drops a column.
pub proof fn lemma_stable_sort_elems(s: Seq<ColModel>)
    ensures
        stable_sort_by_offset(s).len() == s.len(),
        forall|k: int| 0 <= k < s.len()
            ==> exists|m: int| 0 <= m < s.len() && #[trigger] stable_sort_by_offset(s)[k] == s[m],
    decreases s.len(),
{
    if s.len() > 0 {
        lemma_stable_sort_elems(s.drop_last());
        lemma_insert_by_offset_len(s.last(), stable_sort_by_offset(s.drop_last()));
        lemma_insert_by_offset_elems(s.last(), stable_sort_by_offset(s.drop_last()));
        assert forall|k: int| 0 <= k < s.len()
            implies exists|m: int|
                0 <= m < s.len() && #[trigger] stable_sort_by_offset(s)[k] == s[m] by {
            let t = stable_sort_by_offset(s.drop_last());
            let r = insert_by_offset(s.last(), t);
            if r[k] == s.last() {
                assert(0 <= s.len() - 1 < s.len() && stable_sort_by_offset(s)[k] == s[s.len() - 1]);
            } else {
                let m0 = choose|m0: int| 0 <= m0 < t.len() && r[k] == t[m0];
                let m = choose|m: int| 0 <= m < s.drop_last().len() && t[m0] == s.drop_last()[m];
                assert(s.drop_last()[m] == s[m]);
            }
        }
    }
}

fn find_insert_pos(cols: &Vec<ColumnDef>, offset: u32) -> (j: usize)
    ensures
        j <= cols@.len(),
        forall|k: int| j <= k < cols@.len() ==> cols@[k].offset > offset,
        j > 0 ==> cols@[j - 1].offset <= offset,
{
    let mut j: usize = cols.len();
    while j > 0 && cols[j - 1].offset > offset
        invariant
            j <= cols@.len(),
            forall|k: int| j <= k < cols@.len() ==> cols@[k].offset > offset,
        decreases j,
    {
        j -= 1;
    }
    j
}

proof fn lemma_insert_by_offset_at(c: ColModel, s: Seq<ColModel>, j: int)
    requires
        0 <= j <= s.len(),
        forall|k: int| j <= k < s.len() ==> s[k].offset > c.offset,
        j > 0 ==> s[j - 1].offset <= c.offset,
    ensures
        insert_by_offset(c, s) == s.insert(j, c),
    decreases s.len(),
{
    if s.len() == 0 {
        assert(insert_by_offset(c, s) =~= s.insert(0, c));
    } else if s.last().offset > c.offset {
        assert(j < s.len());
        lemma_insert_by_offset_at(c, s.drop_last(), j);
        assert(insert_by_offset(c, s.drop_last()).push(s.last()) =~= s.insert(j, c));
    } else {
        assert(j == s.len());
        assert(s.push(c) =~= s.insert(j, c));
    }
}

/// Sorts the collected columns ascending by offset, stable on ties.
fn sort_columns(cols: &mut Vec<ColumnDef>)
    ensures
        col_models(final(cols)@) == stable_sort_by_offset(col_models(old(cols)@)),
{
    let mut out: Vec<ColumnDef> = Vec::new();
    let n = cols.len();
    let mut i: usize = 0;
    proof {
        assert(col_models(cols@.subrange(0, 0)) =~= Seq::<ColModel>::empty());
        assert(col_models(out@) =~= stable_sort_by_offset(col_models(cols@.subrange(0, 0))));
    }
    while i < n
        invariant
            i <= n,
            n == cols@.len(),
            col_models(out@) == stable_sort_by_offset(col_models(cols@.subrange(0, i as int))),
        decreases n - i,
    {
        let c = ColumnDef {
            name: crate::text::copy_string(&cols[i].name),
            field_type: cols[i].field_type,
            offset: cols[i].offset,
        };
        let ghost prev = col_models(out@);
        let j = find_insert_pos(&out, c.offset);
        out.insert(j, c);
        proof {
            assert(col_models(out@) =~= prev.insert(j as int, cols@[i as int]@));
            lemma_insert_by_offset_at(cols@[i as int]@, prev, j as int);
            let pre = col_models(cols@.subrange(0, i as int));
            let post = col_models(cols@.subrange(0, i + 1));
            assert(post.drop_last() =~= pre);
            assert(post.last() == cols@[i as int]@);
            assert(col_models(out@) == stable_sort_by_offset(post));
        }
        i += 1;
    }
    proof {
        assert(cols@.subrange(0, n as int) =~= cols@);
    }
    *cols = out;
}

/// The record size stored in a primary header: the little-endian 16-bit
/// record-length field plus one for the leading deletion-flag byte.
pub open spec fn spec_record_size(h: Seq<u8>) -> u32
    recommends
        h.len() >= HEADER_LEN,
{
    (spec_u16_from_le_bytes(h.subrange(RECORD_LEN_AT as int, RECORD_LEN_AT + 2)) + 1) as u32
}

/// Reads the record size out of a primary header: always the stored
/// little-endian value plus one.
pub fn read_record_size(h: &[u8]) -> (r: u32)
    requires
        h@.len() >= HEADER_LEN,
    ensures
        r == spec_record_size(h@),
        r == spec_u16_from_le_bytes(h@.subrange(RECORD_LEN_AT as int, RECORD_LEN_AT + 2)) + 1,
        1 <= r <= 0x10000,
{
    let stored = u16_from_le_bytes(slice_subrange(h, RECORD_LEN_AT, RECORD_LEN_AT + 2));
    stored as u32 + 1
}

/// The declared live-row count stored in a primary header.
pub open spec fn spec_total_rows(h: Seq<u8>) -> u32
    recommends
        h.len() >= HEADER_LEN,
{
    spec_u32_from_le_bytes(h.subrange(ROW_COUNT_AT as int, ROW_COUNT_AT + 4))
}

/// Reads the declared live-row count out of a primary header.
pub fn read_total_rows(h: &[u8]) -> (r: u32)
    requires
        h@.len() >= HEADER_LEN,
    ensures
        r == spec_total_rows(h@),
{
    u32_from_le_bytes(slice_subrange(h, ROW_COUNT_AT, ROW_COUNT_AT + 4))
}

/// The declared field count stored in a primary header.
pub open spec fn spec_total_fields(h: Seq<u8>) -> u16
    recommends
        h.len() >= HEADER_LEN,
{
    spec_u16_from_le_bytes(h.subrange(FIELD_COUNT_AT as int, FIELD_COUNT_AT + 2))
}

/// Reads the declared field count out of a primary header.
pub fn read_total_fields(h: &[u8]) -> (r: u16)
    requires
        h@.len() >= HEADER_LEN,
    ensures
        r == spec_total_fields(h@),
{
    u16_from_le_bytes(slice_subrange(h, FIELD_COUNT_AT, FIELD_COUNT_AT + 2))
}

/// Where the record region begins: the primary header plus one descriptor
/// block per declared field.
pub open spec fn spec_data_offset(total_fields: u16) -> int {
    HEADER_LEN + total_fields * DESCRIPTOR_LEN
}

/// Computes where the record region begins.
pub fn data_offset_of(total_fields: u16) -> (r: usize)
    ensures
        r == spec_data_offset(total_fields),
{
    HEADER_LEN + total_fields as usize * DESCRIPTOR_LEN
}

/// What schema inference yields on a header buffer: nothing when the buffer
/// cannot hold a full primary header or no descriptor block is valid; else
/// the record size out of the header and the valid columns, ascending by
/// offset, stable on scan-order ties.
pub open spec fn spec_infer_schema(buf: Seq<u8>) -> Option<SchemaModel> {
    if buf.len() < HEADER_LEN {
        None
    } else if spec_scan_descriptors(buf, HEADER_LEN as int).len() == 0 {
        None
    } else {
        Some(SchemaModel {
            record_size: spec_record_size(buf),
            columns: stable_sort_by_offset(spec_scan_descriptors(buf, HEADER_LEN as int)),
        })
    }
}

/// The model of an optional schema.
pub open spec fn opt_schema_model(s: Option<TableSchema>) -> Option<SchemaModel> {
    match s {
        Some(s) => Some(s@),
        None => None,
    }
}

/// Infers a table's schema from the opening bytes of its file (the caller
/// hands over as much of the file as it read, up to its header budget).
/// Yields nothing exactly when the buffer is shorter than a primary header or
/// no descriptor block in it is valid.
pub fn infer_schema(buf: &[u8]) -> (r: Option<TableSchema>)
    ensures
        opt_schema_model(r) == spec_infer_schema(buf@),
        r matches Some(s) ==> sorted_by_offset(s@.columns),
{
    if buf.len() < HEADER_LEN {
        return None;
    }
    let mut cols: Vec<ColumnDef> = Vec::new();
    let mut pos: usize = HEADER_LEN;
    proof {
        assert(col_models(cols@) =~= Seq::<ColModel>::empty());
    }
    while buf.len() >= DESCRIPTOR_LEN && pos <= buf.len() - DESCRIPTOR_LEN
        invariant
            HEADER_LEN <= pos <= buf@.len(),
            buf@.len() >= HEADER_LEN,
            spec_scan_descriptors(buf@, HEADER_LEN as int) == col_models(cols@).add(
                spec_scan_descriptors(buf@, pos as int)),
        decreases buf@.len() - pos,
    {
        let block = slice_subrange(buf, pos, pos + DESCRIPTOR_LEN);
        let ghost before = col_models(cols@);
        match decode_descriptor(block) {
            Some(c) => {
                cols.push(c);
                proof {
                    assert(col_models(cols@) =~= before.push(c@));
                    assert(spec_scan_descriptors(buf@, pos as int) == seq![c@].add(
                        spec_scan_descriptors(buf@, pos + DESCRIPTOR_LEN)));
                    assert(before.push(c@).add(spec_scan_descriptors(buf@, pos + DESCRIPTOR_LEN))
                        =~= before.add(spec_scan_descriptors(buf@, pos as int)));
                }
            },
            None => {
                proof {
                    assert(spec_scan_descriptors(buf@, pos as int) == spec_scan_descriptors(
                        buf@, pos + DESCRIPTOR_LEN));
                }
            },
        }
        pos += DESCRIPTOR_LEN;
    }
    proof {
        assert(spec_scan_descriptors(buf@, pos as int) =~= Seq::<ColModel>::empty());
        assert(col_models(cols@).add(Seq::<ColModel>::empty()) =~= col_models(cols@));
    }
    if cols.len() == 0 {
        return None;
    }
    let record_size = read_record_size(buf);
    sort_columns(&mut cols);
    proof {
        lemma_stable_sort_sorted(spec_scan_descriptors(buf@, HEADER_LEN as int));
    }
    Some(TableSchema { record_size, columns: cols })
}

} // verus!
