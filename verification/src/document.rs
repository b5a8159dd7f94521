//! The registry document: the structured text under which a schema registry
//! is persisted, and the strict reader for it.
//!
//! The document is a key-ordered subset of the TOML syntax. Every table
//! yields a quoted table header with its record size, then one
//! array-of-tables block per column:
//!
//! ```text
//! ["CUSTOMERS"]
//! record_size = 14
//! [["CUSTOMERS".columns]]
//! name = "ID"
//! field_type = "I"
//! offset = 2
//! ```
//!
//! Keys are always quoted, with `"` and `\` escaped; numbers are plain
//! decimal. [`parse_registry`] reads exactly the shape [`encode_registry`]
//! writes, and writing then reading gives the registry back unchanged.

use vstd::prelude::*;

use crate::registry::{RegEntryModel, SchemaRegistry, RegEntry, spec_insert_entry};
use crate::schema::{ColModel, ColumnDef, FieldType, SchemaModel, TableSchema, col_models};
use crate::text::{dec_text, digit_char, push_char, u32_to_text};

verus! {

/// A key or value string with `"` and `\` escaped.
pub open spec fn esc(t: Seq<char>) -> Seq<char>
    decreases t.len(),
{
    if t.len() == 0 {
        Seq::empty()
    } else if t.first() == '"' || t.first() == '\\' {
        seq!['\\', t.first()].add(esc(t.drop_first()))
    } else {
        seq![t.first()].add(esc(t.drop_first()))
    }
}

/// The registry code of a decoding category.
pub open spec fn type_code(t: FieldType) -> char {
    match t {
        FieldType::Str => 'S',
        FieldType::Int => 'I',
        FieldType::Float => 'F',
        FieldType::Decimal => 'D',
        FieldType::Bin => 'B',
    }
}

/// The document text of one column block.
pub open spec fn enc_column(tname: Seq<char>, c: ColModel) -> Seq<char> {
    "[[\""@.add(esc(tname)).add("\".columns]]\nname = \""@).add(esc(c.name)).add(
        "\"\nfield_type = \""@).add(seq![type_code(c.field_type)]).add("\"\noffset = "@).add(
        dec_text(c.offset as nat)).add("\n"@)
}

/// The document text of a table's column blocks, in schema order.
pub open spec fn enc_columns(tname: Seq<char>, cs: Seq<ColModel>) -> Seq<char>
    decreases cs.len(),
{
    if cs.len() == 0 {
        Seq::empty()
    } else {
        enc_column(tname, cs.first()).add(enc_columns(tname, cs.drop_first()))
    }
}

/// The document text of one registry entry.
pub open spec fn enc_entry(e: RegEntryModel) -> Seq<char> {
    "[\""@.add(esc(e.name)).add("\"]\nrecord_size = "@).add(dec_text(
        e.schema.record_size as nat)).add("\n"@).add(enc_columns(e.name, e.schema.columns))
}

/// The document text of a whole registry, in entry order.
pub open spec fn enc_registry(es: Seq<RegEntryModel>) -> Seq<char>
    decreases es.len(),
{
    if es.len() == 0 {
        Seq::empty()
    } else {
        enc_entry(es.first()).add(enc_registry(es.drop_first()))
    }
}

/// Appends the escape of a string to an output string.
fn append_escaped(out: &mut String, t: &str)
    ensures
        final(out)@ == old(out)@.add(esc(t@)),
{
    let n = t.unicode_len();
    let mut i: usize = 0;
    proof {
        assert(t@.skip(0) =~= t@);
        assert(old(out)@.add(esc(t@.skip(0)).take(0)) =~= old(out)@);
    }
    while i < n
        invariant
            i <= n,
            n == t@.len(),
            out@.add(esc(t@.skip(i as int))) == old(out)@.add(esc(t@)),
        decreases n - i,
    {
        let c = t.get_char(i);
        proof {
            assert(t@.skip(i as int).first() == t@[i as int]);
            assert(t@.skip(i as int).drop_first() =~= t@.skip(i + 1));
        }
        if c == '"' || c == '\\' {
            push_char(out, '\\');
            push_char(out, c);
            proof {
                assert(out@.add(esc(t@.skip(i + 1))) =~= old(out)@.add(esc(t@)));
            }
        } else {
            push_char(out, c);
            proof {
                assert(out@.add(esc(t@.skip(i + 1))) =~= old(out)@.add(esc(t@)));
            }
        }
        i += 1;
    }
    proof {
        assert(t@.skip(n as int) =~= Seq::<char>::empty());
        assert(out@.add(esc(Seq::<char>::empty())) =~= out@);
    }
}

/// The registry code of a decoding category.
pub fn type_code_of(t: FieldType) -> (c: char)
    ensures
        c == type_code(t),
{
    match t {
        FieldType::Str => 'S',
        FieldType::Int => 'I',
        FieldType::Float => 'F',
        FieldType::Decimal => 'D',
        FieldType::Bin => 'B',
    }
}

fn append_column(out: &mut String, tname: &str, c: &ColumnDef)
    ensures
        final(out)@ == old(out)@.add(enc_column(tname@, c@)),
{
    out.append("[[\"");
    append_escaped(out, tname);
    out.append("\".columns]]\nname = \"");
    append_escaped(out, c.name.as_str());
    out.append("\"\nfield_type = \"");
    push_char(out, type_code_of(c.field_type));
    out.append("\"\noffset = ");
    let num = u32_to_text(c.offset);
    out.append(num.as_str());
    out.append("\n");
    proof {
        assert(out@ =~= old(out)@.add(enc_column(tname@, c@)));
    }
}

fn append_entry(out: &mut String, e: &RegEntry)
    ensures
        final(out)@ == old(out)@.add(enc_entry(e@)),
{
    out.append("[\"");
    append_escaped(out, e.name.as_str());
    out.append("\"]\nrecord_size = ");
    let num = u32_to_text(e.schema.record_size);
    out.append(num.as_str());
    out.append("\n");
    let n = e.schema.columns.len();
    let mut i: usize = 0;
    let ghost head = old(out)@.add("[\""@).add(esc(e.name@)).add("\"]\nrecord_size = "@).add(
        dec_text(e.schema.record_size as nat)).add("\n"@);
    let ghost cs = col_models(e.schema.columns@);
    proof {
        assert(out@ =~= head);
        assert(cs.skip(0) =~= cs);
        assert(enc_columns(e.name@, cs) =~= enc_columns(e.name@, cs.skip(0)));
    }
    while i < n
        invariant
            i <= n,
            n == e.schema.columns@.len(),
            cs == col_models(e.schema.columns@),
            head.add(enc_columns(e.name@, cs)) == out@.add(enc_columns(e.name@, cs.skip(
                i as int))),
        decreases n - i,
    {
        proof {
            assert(cs.skip(i as int).first() == cs[i as int]);
            assert(cs.skip(i as int).drop_first() =~= cs.skip(i + 1));
        }
        append_column(out, e.name.as_str(), &e.schema.columns[i]);
        proof {
            assert(head.add(enc_columns(e.name@, cs)) =~= out@.add(enc_columns(e.name@,
                cs.skip(i + 1))));
        }
        i += 1;
    }
    proof {
        assert(cs.skip(n as int) =~= Seq::<ColModel>::empty());
        assert(out@.add(enc_columns(e.name@, cs.skip(n as int))) =~= out@);
        assert(out@ =~= old(out)@.add(enc_entry(e@)));
    }
}

/// Renders a registry as its document text.
pub fn encode_registry(reg: &SchemaRegistry) -> (r: String)
    ensures
        r@ == enc_registry(reg@),
{
    let mut out = String::new();
    let n = reg.entries.len();
    let mut i: usize = 0;
    let ghost es = reg@;
    proof {
        assert(es.skip(0) =~= es);
        assert(out@.add(enc_registry(es)) =~= enc_registry(es));
    }
    while i < n
        invariant
            i <= n,
            n == reg.entries@.len(),
            es == reg@,
            out@.add(enc_registry(es.skip(i as int))) == enc_registry(es),
        decreases n - i,
    {
        proof {
            assert(es.skip(i as int).first() == es[i as int]);
            assert(es.skip(i as int).drop_first() =~= es.skip(i + 1));
        }
        append_entry(&mut out, &reg.entries[i]);
        proof {
            assert(out@.add(enc_registry(es.skip(i + 1))) =~= enc_registry(es));
        }
        i += 1;
    }
    proof {
        assert(es.skip(n as int) =~= Seq::<RegEntryModel>::empty());
        assert(out@.add(enc_registry(es.skip(n as int))) =~= out@);
    }
    out
}

/// Expects a fixed literal at a position; yields the position after it.
pub open spec fn p_lit(s: Seq<char>, i: int, lit: Seq<char>) -> Option<int> {
    if 0 <= i && i + lit.len() <= s.len() && s.subrange(i, i + lit.len()) == lit {
        Some(i + lit.len())
    } else {
        None
    }
}

/// Reads a quoted string's body from a position: characters up to the
/// closing quote, undoing the `\"` and `\\` escapes; yields the text and the
/// position after the closing quote.
pub open spec fn p_qstr(s: Seq<char>, i: int) -> Option<(Seq<char>, int)>
    decreases s.len() - i,
{
    if i < 0 || i >= s.len() {
        None
    } else if s[i] == '"' {
        Some((Seq::empty(), i + 1))
    } else if s[i] == '\\' {
        if i + 1 < s.len() && (s[i + 1] == '"' || s[i + 1] == '\\') {
            match p_qstr(s, i + 2) {
                Some(t) => Some((seq![s[i + 1]].add(t.0), t.1)),
                None => None,
            }
        } else {
            None
        }
    } else {
        match p_qstr(s, i + 1) {
            Some(t) => Some((seq![s[i]].add(t.0), t.1)),
            None => None,
        }
    }
}

/// Whether a character is a decimal digit.
pub open spec fn is_digit(c: char) -> bool {
    0x30 <= (c as u32) <= 0x39
}

/// The value of a digit character.
pub open spec fn digit_val(c: char) -> int {
    (c as u32) - 0x30
}

/// Accumulates decimal digits left to right; fails once the value leaves the
/// 32-bit range.
pub open spec fn p_dec_loop(s: Seq<char>, i: int, acc: int) -> Option<(u32, int)>
    decreases s.len() - i,
{
    if acc > 0xFFFF_FFFF || acc < 0 || i < 0 {
        None
    } else if i < s.len() && is_digit(s[i]) {
        p_dec_loop(s, i + 1, acc * 10 + digit_val(s[i]))
    } else {
        Some((acc as u32, i))
    }
}

/// Reads a decimal number from a position: at least one digit, value within
/// 32 bits.
pub open spec fn p_dec(s: Seq<char>, i: int) -> Option<(u32, int)> {
    if 0 <= i < s.len() && is_digit(s[i]) {
        p_dec_loop(s, i, 0)
    } else {
        None
    }
}

/// Reads a one-letter field-type code and its closing quote.
pub open spec fn p_type(s: Seq<char>, i: int) -> Option<(FieldType, int)> {
    if 0 <= i < s.len() {
        if s[i] == 'S' {
            Some((FieldType::Str, i + 1))
        } else if s[i] == 'I' {
            Some((FieldType::Int, i + 1))
        } else if s[i] == 'F' {
            Some((FieldType::Float, i + 1))
        } else if s[i] == 'D' {
            Some((FieldType::Decimal, i + 1))
        } else if s[i] == 'B' {
            Some((FieldType::Bin, i + 1))
        } else {
            None
        }
    } else {
        None
    }
}

/// Reads one column block belonging to the named table.
pub open spec fn p_column(s: Seq<char>, i: int, tname: Seq<char>) -> Option<(ColModel, int)> {
    match p_lit(s, i, "[[\""@) {
        Some(j) => match p_qstr(s, j) {
            Some(t) => if t.0 != tname {
                None
            } else {
                match p_lit(s, t.1, ".columns]]\nname = \""@) {
                    Some(j2) => match p_qstr(s, j2) {
                        Some(nm) => match p_lit(s, nm.1, "\nfield_type = \""@) {
                            Some(j3) => match p_type(s, j3) {
                                Some(ft) => match p_lit(s, ft.1, "\"\noffset = "@) {
                                    Some(j4) => match p_dec(s, j4) {
                                        Some(off) => match p_lit(s, off.1, "\n"@) {
                                            Some(j5) => Some((ColModel { name: nm.0,
                                                field_type: ft.0, offset: off.0 }, j5)),
                                            None => None,
                                        },
                                        None => None,
                                    },
                                    None => None,
                                },
                                None => None,
                            },
                            None => None,
                        },
                        None => None,
                    },
                    None => None,
                }
            },
            None => None,
        },
        None => None,
    }
}

/// Reads the column blocks of the named table, as many as there are.
pub open spec fn p_columns(s: Seq<char>, i: int, tname: Seq<char>) -> (Seq<ColModel>, int)
    decreases s.len() - i,
{
    if i < 0 || i >= s.len() {
        (Seq::empty(), i)
    } else {
        match p_column(s, i, tname) {
            Some(c) => if i < c.1 <= s.len() {
                let rest = p_columns(s, c.1, tname);
                (seq![c.0].add(rest.0), rest.1)
            } else {
                (Seq::empty(), i)
            },
            None => (Seq::empty(), i),
        }
    }
}

/// Reads one table: its header, record size and column blocks.
pub open spec fn p_entry(s: Seq<char>, i: int) -> Option<(RegEntryModel, int)> {
    match p_lit(s, i, "[\""@) {
        Some(j) => match p_qstr(s, j) {
            Some(t) => match p_lit(s, t.1, "]\nrecord_size = "@) {
                Some(j2) => match p_dec(s, j2) {
                    Some(rs) => match p_lit(s, rs.1, "\n"@) {
                        Some(j3) => {
                            let cols = p_columns(s, j3, t.0);
                            Some((RegEntryModel { name: t.0, schema: SchemaModel {
                                record_size: rs.0, columns: cols.0 } }, cols.1))
                        },
                        None => None,
                    },
                    None => None,
                },
                None => None,
            },
            None => None,
        },
        None => None,
    }
}

/// Reads a whole document: tables to the end of the text.
pub open spec fn p_registry(s: Seq<char>, i: int) -> Option<Seq<RegEntryModel>>
    decreases s.len() - i,
{
    if i == s.len() {
        Some(Seq::empty())
    } else {
        match p_entry(s, i) {
            Some(e) => if i < e.1 <= s.len() {
                match p_registry(s, e.1) {
                    Some(es) => Some(seq![e.0].add(es)),
                    None => None,
                }
            } else {
                None
            },
            None => None,
        }
    }
}

/// The registry that recording a document's entries one by one builds up.
pub open spec fn reg_from_entries(es: Seq<RegEntryModel>) -> Seq<RegEntryModel>
    decreases es.len(),
{
    if es.len() == 0 {
        Seq::empty()
    } else {
        spec_insert_entry(reg_from_entries(es.drop_last()), es.last())
    }
}

/// The characters of a string slice.
fn to_chars(s: &str) -> (v: Vec<char>)
    ensures
        v@ == s@,
{
    let n = s.unicode_len();
    let mut v: Vec<char> = Vec::new();
    let mut i: usize = 0;
    while i < n
        invariant
            i <= n,
            n == s@.len(),
            v@ == s@.subrange(0, i as int),
        decreases n - i,
    {
        v.push(s.get_char(i));
        proof {
            assert(v@ =~= s@.subrange(0, i + 1));
        }
        i += 1;
    }
    proof {
        assert(s@.subrange(0, n as int) =~= s@);
    }
    v
}

fn e_lit(s: &Vec<char>, i: usize, lit: &str) -> (r: Option<usize>)
    ensures
        match r {
            Some(j) => p_lit(s@, i as int, lit@) == Some(j as int),
            None => p_lit(s@, i as int, lit@) is None,
        },
{
    let n = lit.unicode_len();
    let slen = s.len();
    if n > slen || i > slen - n {
        proof {
            assert(i + lit@.len() > s@.len());
        }
        return None;
    }
    let mut k: usize = 0;
    while k < n
        invariant
            k <= n,
            n == lit@.len(),
            slen == s@.len(),
            i + n <= slen,
            forall|m: int| 0 <= m < k ==> s@[i + m] == lit@[m],
        decreases n - k,
    {
        if s[i + k] != lit.get_char(k) {
            proof {
                assert(s@.subrange(i as int, i + lit@.len())[k as int] != lit@[k as int]);
            }
            return None;
        }
        k += 1;
    }
    proof {
        assert(s@.subrange(i as int, i + lit@.len()) =~= lit@);
    }
    Some(i + n)
}

fn e_qstr(s: &Vec<char>, i: usize) -> (r: Option<(String, usize)>)
    ensures
        match r {
            Some(t) => p_qstr(s@, i as int) == Some((t.0@, t.1 as int)) && i < t.1 <= s@.len(),
            None => p_qstr(s@, i as int) is None,
        },
    decreases s@.len() - i,
{
    if i >= s.len() {
        return None;
    }
    let c = s[i];
    if c == '"' {
        let empty = String::new();
        return Some((empty, i + 1));
    }
    if c == '\\' {
        if i + 1 < s.len() && (s[i + 1] == '"' || s[i + 1] == '\\') {
            match e_qstr(s, i + 2) {
                Some(t) => {
                    let mut h = String::new();
                    push_char(&mut h, s[i + 1]);
                    h.append(t.0.as_str());
                    proof {
                        assert(h@ =~= seq![s@[i + 1]].add(t.0@));
                    }
                    return Some((h, t.1));
                },
                None => {
                    return None;
                },
            }
        }
        return None;
    }
    match e_qstr(s, i + 1) {
        Some(t) => {
            let mut h = String::new();
            push_char(&mut h, c);
            h.append(t.0.as_str());
            proof {
                assert(h@ =~= seq![s@[i as int]].add(t.0@));
            }
            Some((h, t.1))
        },
        None => None,
    }
}

fn e_dec_loop(s: &Vec<char>, i: usize, acc: u64) -> (r: Option<(u32, usize)>)
    requires
        i <= s@.len(),
    ensures
        match r {
            Some(t) => p_dec_loop(s@, i as int, acc as int) == Some((t.0, t.1 as int))
                && i <= t.1 <= s@.len(),
            None => p_dec_loop(s@, i as int, acc as int) is None,
        },
    decreases s@.len() - i,
{
    if acc > 0xFFFF_FFFFu64 {
        return None;
    }
    if i < s.len() {
        let c = s[i];
        if ('0' as u32) <= (c as u32) && (c as u32) <= ('9' as u32) {
            let d = (c as u32) - ('0' as u32);
            return e_dec_loop(s, i + 1, acc * 10 + d as u64);
        }
    }
    Some((acc as u32, i))
}

fn e_dec(s: &Vec<char>, i: usize) -> (r: Option<(u32, usize)>)
    ensures
        match r {
            Some(t) => p_dec(s@, i as int) == Some((t.0, t.1 as int)) && i <= t.1 <= s@.len(),
            None => p_dec(s@, i as int) is None,
        },
{
    if i < s.len() {
        let c = s[i];
        if ('0' as u32) <= (c as u32) && (c as u32) <= ('9' as u32) {
            return e_dec_loop(s, i, 0);
        }
    }
    None
}

fn e_type(s: &Vec<char>, i: usize) -> (r: Option<(FieldType, usize)>)
    ensures
        match r {
            Some(t) => p_type(s@, i as int) == Some((t.0, t.1 as int)) && t.1 == i + 1,
            None => p_type(s@, i as int) is None,
        },
{
    if i >= s.len() {
        return None;
    }
    let c = s[i];
    if c == 'S' {
        Some((FieldType::Str, i + 1))
    } else if c == 'I' {
        Some((FieldType::Int, i + 1))
    } else if c == 'F' {
        Some((FieldType::Float, i + 1))
    } else if c == 'D' {
        Some((FieldType::Decimal, i + 1))
    } else if c == 'B' {
        Some((FieldType::Bin, i + 1))
    } else {
        None
    }
}

fn e_column(s: &Vec<char>, i: usize, tname: &str) -> (r: Option<(ColumnDef, usize)>)
    ensures
        match r {
            Some(t) => p_column(s@, i as int, tname@) == Some((t.0@, t.1 as int))
                && i < t.1 <= s@.len(),
            None => p_column(s@, i as int, tname@) is None,
        },
{
    let j = match e_lit(s, i, "[[\"") {
        Some(j) => j,
        None => {
            return None;
        },
    };
    let t = match e_qstr(s, j) {
        Some(t) => t,
        None => {
            return None;
        },
    };
    if !crate::registry::str_eq(t.0.as_str(), tname) {
        return None;
    }
    let j2 = match e_lit(s, t.1, ".columns]]\nname = \"") {
        Some(j2) => j2,
        None => {
            return None;
        },
    };
    let nm = match e_qstr(s, j2) {
        Some(nm) => nm,
        None => {
            return None;
        },
    };
    let j3 = match e_lit(s, nm.1, "\nfield_type = \"") {
        Some(j3) => j3,
        None => {
            return None;
        },
    };
    let ft = match e_type(s, j3) {
        Some(ft) => ft,
        None => {
            return None;
        },
    };
    let j4 = match e_lit(s, ft.1, "\"\noffset = ") {
        Some(j4) => j4,
        None => {
            return None;
        },
    };
    let off = match e_dec(s, j4) {
        Some(off) => off,
        None => {
            return None;
        },
    };
    let j5 = match e_lit(s, off.1, "\n") {
        Some(j5) => j5,
        None => {
            return None;
        },
    };
    Some((ColumnDef { name: nm.0, field_type: ft.0, offset: off.0 }, j5))
}

fn e_columns(s: &Vec<char>, i: usize, tname: &str) -> (r: (Vec<ColumnDef>, usize))
    requires
        i <= s@.len(),
    ensures
        p_columns(s@, i as int, tname@) == (col_models(r.0@), r.1 as int),
        i <= r.1 <= s@.len(),
    decreases s@.len() - i,
{
    if i >= s.len() {
        proof {
            assert(col_models(Seq::<ColumnDef>::empty()) =~= Seq::<ColModel>::empty());
        }
        return (Vec::new(), i);
    }
    match e_column(s, i, tname) {
        Some(t) => {
            let rest = e_columns(s, t.1, tname);
            let mut v: Vec<ColumnDef> = Vec::new();
            v.push(t.0);
            let mut more = rest.0;
            v.append(&mut more);
            proof {
                assert(col_models(v@) =~= seq![p_column(s@, i as int,
                    tname@).unwrap().0].add(p_columns(s@, t.1 as int, tname@).0));
            }
            (v, rest.1)
        },
        None => {
            proof {
                assert(col_models(Seq::<ColumnDef>::empty()) =~= Seq::<ColModel>::empty());
            }
            (Vec::new(), i)
        },
    }
}

fn e_entry(s: &Vec<char>, i: usize) -> (r: Option<(RegEntry, usize)>)
    ensures
        match r {
            Some(t) => p_entry(s@, i as int) == Some((t.0@, t.1 as int)) && i < t.1 <= s@.len(),
            None => p_entry(s@, i as int) is None,
        },
{
    let j = match e_lit(s, i, "[\"") {
        Some(j) => j,
        None => {
            return None;
        },
    };
    let t = match e_qstr(s, j) {
        Some(t) => t,
        None => {
            return None;
        },
    };
    let j2 = match e_lit(s, t.1, "]\nrecord_size = ") {
        Some(j2) => j2,
        None => {
            return None;
        },
    };
    let rs = match e_dec(s, j2) {
        Some(rs) => rs,
        None => {
            return None;
        },
    };
    let j3 = match e_lit(s, rs.1, "\n") {
        Some(j3) => j3,
        None => {
            return None;
        },
    };
    let cols = e_columns(s, j3, t.0.as_str());
    Some((RegEntry { name: t.0, schema: TableSchema { record_size: rs.0, columns: cols.0 } },
        cols.1))
}

/// Reads a registry document back into a registry. Yields nothing exactly
/// when the text is not a sequence of table blocks of the documented shape;
/// entries are recorded in document order, so a name that appears twice
/// keeps its later schema.
pub fn parse_registry(text: &str) -> (r: Option<SchemaRegistry>)
    ensures
        match r {
            Some(reg) => {
                &&& reg.wf()
                &&& p_registry(text@, 0) matches Some(es) && reg@ == reg_from_entries(es)
            },
            None => p_registry(text@, 0) is None,
        },
{
    let s = to_chars(text);
    let mut reg = SchemaRegistry::new();
    let mut i: usize = 0;
    let ghost mut parsed: Seq<RegEntryModel> = Seq::empty();
    proof {
        if p_registry(text@, 0) is Some {
            let r0 = p_registry(text@, 0).unwrap();
            assert(Seq::<RegEntryModel>::empty().add(r0) =~= r0);
        }
    }
    loop
        invariant
            i <= s@.len(),
            s@ == text@,
            reg.wf(),
            reg@ == reg_from_entries(parsed),
            match p_registry(text@, i as int) {
                Some(rest) => p_registry(text@, 0) == Some(parsed.add(rest)),
                None => p_registry(text@, 0) is None,
            },
        ensures
            i == s@.len(),
        decreases s@.len() - i,
    {
        if i >= s.len() {
            proof {
                assert(p_registry(text@, i as int) == Some(Seq::<RegEntryModel>::empty()));
                assert(parsed.add(Seq::<RegEntryModel>::empty()) =~= parsed);
            }
            break;
        }
        match e_entry(&s, i) {
            Some(t) => {
                let ghost em = t.0@;
                let next = t.1;
                let ghost prev = parsed;
                proof {
                    parsed = parsed.push(em);
                }
                let name_copy = crate::text::copy_string(&t.0.name);
                reg.insert(name_copy, t.0.schema);
                proof {
                    assert(parsed.drop_last() =~= prev);
                    assert(reg_from_entries(parsed) == spec_insert_entry(reg_from_entries(
                        prev), em));
                    match p_registry(text@, next as int) {
                        Some(rest2) => {
                            assert(p_registry(text@, i as int) == Some(seq![em].add(rest2)));
                            assert(prev.add(seq![em].add(rest2)) =~= parsed.add(rest2));
                        },
                        None => {
                            assert(p_registry(text@, i as int) is None);
                        },
                    }
                }
                i = next;
            },
            None => {
                return None;
            },
        }
    }
    proof {
        assert(p_registry(text@, i as int) == Some(Seq::<RegEntryModel>::empty()));
        assert(parsed.add(Seq::<RegEntryModel>::empty()) =~= parsed);
        assert(p_registry(text@, 0) == Some(parsed));
    }
    Some(reg)
}

proof fn lemma_p_lit_at(s: Seq<char>, i: int, lit: Seq<char>)
    requires
        0 <= i,
        i + lit.len() <= s.len(),
        s.subrange(i, i + lit.len()) == lit,
    ensures
        p_lit(s, i, lit) == Some(i + lit.len()),
{
}

proof fn lemma_p_qstr_at(s: Seq<char>, i: int, t: Seq<char>)
    requires
        0 <= i,
        i + esc(t).len() + 1 <= s.len(),
        s.subrange(i, i + esc(t).len() + 1) == esc(t).push('"'),
    ensures
        p_qstr(s, i) == Some((t, i + esc(t).len() + 1)),
    decreases t.len(),
{
    let w = esc(t).push('"');
    assert forall|k: int| 0 <= k < w.len() implies s[i + k] == w[k] by {
        assert(s.subrange(i, i + w.len())[k] == w[k]);
    }
    if t.len() == 0 {
        assert(s[i] == w[0]);
        assert(s[i] == '"');
    } else {
        let c = t.first();
        let t2 = t.drop_first();
        let w2 = esc(t2).push('"');
        if c == '"' || c == '\\' {
            assert(esc(t) == seq!['\\', c].add(esc(t2)));
            assert(s[i] == w[0] && s[i + 1] == w[1]);
            assert(s[i] == '\\' && s[i + 1] == c);
            assert forall|k: int| 0 <= k < w2.len() implies w[2 + k] == w2[k] by {
            }
            assert(s.subrange(i + 2, i + 2 + esc(t2).len() + 1) =~= esc(t2).push('"'));
            lemma_p_qstr_at(s, i + 2, t2);
            assert(seq![c].add(t2) =~= t);
        } else {
            assert(esc(t) == seq![c].add(esc(t2)));
            assert(s[i] == w[0]);
            assert(s[i] == c);
            assert forall|k: int| 0 <= k < w2.len() implies w[1 + k] == w2[k] by {
            }
            assert(s.subrange(i + 1, i + 1 + esc(t2).len() + 1) =~= esc(t2).push('"'));
            lemma_p_qstr_at(s, i + 1, t2);
            assert(seq![c].add(t2) =~= t);
        }
    }
}

/// Ten to a power.
pub open spec fn pow10(k: nat) -> int
    decreases k,
{
    if k == 0 {
        1
    } else {
        10 * pow10((k - 1) as nat)
    }
}

proof fn lemma_pow10_pos(k: nat)
    ensures
        pow10(k) >= 1,
    decreases k,
{
    if k > 0 {
        lemma_pow10_pos((k - 1) as nat);
    }
}

/// The value of a digit string, most significant digit first.
pub open spec fn dec_val(ds: Seq<char>) -> int
    decreases ds.len(),
{
    if ds.len() == 0 {
        0
    } else {
        dec_val(ds.drop_last()) * 10 + digit_val(ds.last())
    }
}

proof fn lemma_dec_val_cons(d: char, y: Seq<char>)
    requires
        forall|m: int| 0 <= m < y.len() ==> is_digit(#[trigger] y[m]),
        is_digit(d),
    ensures
        dec_val(seq![d].add(y)) == digit_val(d) * pow10(y.len()) + dec_val(y),
    decreases y.len(),
{
    let x = seq![d].add(y);
    if y.len() == 0 {
        assert(x =~= seq![d]);
        assert(x.drop_last() =~= Seq::<char>::empty());
        assert(x.last() == d);
        assert(dec_val(x) == dec_val(x.drop_last()) * 10 + digit_val(x.last()));
        assert(dec_val(Seq::<char>::empty()) == 0);
        assert(pow10(0) == 1);
        assert(dec_val(y) == 0);
    } else {
        assert(x.drop_last() =~= seq![d].add(y.drop_last()));
        assert(forall|m: int| 0 <= m < y.drop_last().len() ==> is_digit(
            #[trigger] y.drop_last()[m]));
        lemma_dec_val_cons(d, y.drop_last());
        assert(x.last() == y.last());
        assert(x.len() == y.len() + 1);
        assert(dec_val(x) == dec_val(x.drop_last()) * 10 + digit_val(x.last()));
        assert(dec_val(x.drop_last()) == digit_val(d) * pow10((y.len() - 1) as nat) + dec_val(
            y.drop_last()));
        lemma_pow10_pos((y.len() - 1) as nat);
        assert(pow10(y.len()) == 10 * pow10((y.len() - 1) as nat));
        assert((digit_val(d) * pow10((y.len() - 1) as nat) + dec_val(y.drop_last())) * 10
            + digit_val(y.last()) == digit_val(d) * pow10(y.len()) + dec_val(y))
            by (nonlinear_arith)
            requires
                pow10(y.len()) == 10 * pow10((y.len() - 1) as nat),
                dec_val(y) == dec_val(y.drop_last()) * 10 + digit_val(y.last()),
        ;
    }
}

proof fn lemma_dec_val_nonneg(ds: Seq<char>)
    requires
        forall|m: int| 0 <= m < ds.len() ==> is_digit(#[trigger] ds[m]),
    ensures
        dec_val(ds) >= 0,
    decreases ds.len(),
{
    if ds.len() > 0 {
        assert(forall|m: int| 0 <= m < ds.drop_last().len() ==> is_digit(
            #[trigger] ds.drop_last()[m]));
        lemma_dec_val_nonneg(ds.drop_last());
    }
}

proof fn lemma_p_dec_loop_digits(s: Seq<char>, i: int, e: int, acc: int)
    requires
        0 <= i <= e <= s.len(),
        forall|m: int| i <= m < e ==> is_digit(#[trigger] s[m]),
        e == s.len() || !is_digit(s[e]),
        acc >= 0,
    ensures
        ({
            let v = acc * pow10((e - i) as nat) + dec_val(s.subrange(i, e));
            p_dec_loop(s, i, acc) == if v > 0xFFFF_FFFF {
                None::<(u32, int)>
            } else {
                Some((v as u32, e))
            }
        }),
    decreases e - i,
{
    let ds = s.subrange(i, e);
    assert(forall|m: int| 0 <= m < ds.len() ==> is_digit(#[trigger] ds[m]));
    lemma_dec_val_nonneg(ds);
    lemma_pow10_pos((e - i) as nat);
    let v = acc * pow10((e - i) as nat) + dec_val(ds);
    assert(v >= acc) by (nonlinear_arith)
        requires
            acc >= 0,
            pow10((e - i) as nat) >= 1,
            dec_val(ds) >= 0,
            v == acc * pow10((e - i) as nat) + dec_val(ds),
    ;
    if i == e {
        assert(ds =~= Seq::<char>::empty());
        assert(v == acc);
    } else {
        assert(is_digit(s[i]));
        if acc > 0xFFFF_FFFF {
            assert(p_dec_loop(s, i, acc) is None);
        } else {
            let acc2 = acc * 10 + digit_val(s[i]);
            assert(p_dec_loop(s, i, acc) == p_dec_loop(s, i + 1, acc2));
            assert(forall|m: int| i + 1 <= m < e ==> is_digit(#[trigger] s[m]));
            lemma_p_dec_loop_digits(s, i + 1, e, acc2);
            let ds2 = s.subrange(i + 1, e);
            assert(ds =~= seq![s[i]].add(ds2));
            assert(forall|m: int| 0 <= m < ds2.len() ==> is_digit(#[trigger] ds2[m]));
            lemma_dec_val_cons(s[i], ds2);
            assert(pow10((e - i) as nat) == 10 * pow10((e - i - 1) as nat));
            assert(acc2 * pow10((e - i - 1) as nat) + dec_val(ds2) == v) by (nonlinear_arith)
                requires
                    acc2 == acc * 10 + digit_val(s[i]),
                    pow10((e - i) as nat) == 10 * pow10((e - i - 1) as nat),
                    dec_val(ds) == digit_val(s[i]) * pow10((e - i - 1) as nat) + dec_val(ds2),
                    v == acc * pow10((e - i) as nat) + dec_val(ds),
            ;
        }
    }
}

proof fn lemma_digit_char_val(d: int)
    requires
        0 <= d < 10,
    ensures
        is_digit(digit_char(d)),
        digit_val(digit_char(d)) == d,
{
    if d == 0 {
        vstd::utf8::char_u32_cast('0', 0x30);
    } else if d == 1 {
        vstd::utf8::char_u32_cast('1', 0x31);
    } else if d == 2 {
        vstd::utf8::char_u32_cast('2', 0x32);
    } else if d == 3 {
        vstd::utf8::char_u32_cast('3', 0x33);
    } else if d == 4 {
        vstd::utf8::char_u32_cast('4', 0x34);
    } else if d == 5 {
        vstd::utf8::char_u32_cast('5', 0x35);
    } else if d == 6 {
        vstd::utf8::char_u32_cast('6', 0x36);
    } else if d == 7 {
        vstd::utf8::char_u32_cast('7', 0x37);
    } else if d == 8 {
        vstd::utf8::char_u32_cast('8', 0x38);
    } else {
        vstd::utf8::char_u32_cast('9', 0x39);
    }
}

proof fn lemma_dec_text_digits(n: nat)
    ensures
        dec_text(n).len() >= 1,
        forall|m: int| 0 <= m < dec_text(n).len() ==> is_digit(#[trigger] dec_text(n)[m]),
        dec_val(dec_text(n)) == n,
    decreases n,
{
    if n < 10 {
        assert(dec_text(n) == seq![digit_char(n as int)]);
        lemma_digit_char_val(n as int);
        assert(dec_text(n).drop_last() =~= Seq::<char>::empty());
        assert(dec_val(dec_text(n)) == dec_val(dec_text(n).drop_last()) * 10 + digit_val(
            dec_text(n).last()));
    } else {
        lemma_dec_text_digits(n / 10);
        let x = dec_text(n);
        assert(x == dec_text(n / 10).push(digit_char((n % 10) as int)));
        lemma_digit_char_val((n % 10) as int);
        assert(x.drop_last() =~= dec_text(n / 10));
        assert(forall|m: int| 0 <= m < x.len() ==> is_digit(#[trigger] x[m])) by {
            assert(forall|m: int| 0 <= m < x.len() - 1 ==> x[m] == dec_text(n / 10)[m]);
        }
        assert(dec_val(x) == (n / 10) * 10 + (n % 10));
        assert((n / 10) * 10 + (n % 10) == n) by (nonlinear_arith);
    }
}

proof fn lemma_split_window(s: Seq<char>, i: int, u: Seq<char>, v: Seq<char>)
    requires
        0 <= i,
        i + u.len() + v.len() <= s.len(),
        s.subrange(i, i + u.len() + v.len()) == u.add(v),
    ensures
        s.subrange(i, i + u.len()) == u,
        s.subrange(i + u.len(), i + u.len() + v.len()) == v,
{
    assert forall|k: int| 0 <= k < u.len() + v.len() implies s[i + k] == u.add(v)[k] by {
        assert(s.subrange(i, i + u.len() + v.len())[k] == u.add(v)[k]);
    }
    assert forall|m: int| 0 <= m < u.len() implies s.subrange(i, i + u.len())[m] == u[m] by {
        assert(s[i + m] == u.add(v)[m]);
    }
    assert forall|m: int| 0 <= m < v.len() implies s.subrange(i + u.len(), i + u.len()
        + v.len())[m] == v[m] by {
        assert(s[i + (u.len() + m)] == u.add(v)[u.len() + m]);
        assert(s.subrange(i + u.len(), i + u.len() + v.len())[m] == s[i + u.len() + m]);
    }
    assert(s.subrange(i, i + u.len()) =~= u);
    assert(s.subrange(i + u.len(), i + u.len() + v.len()) =~= v);
}

proof fn lemma_p_column_at(s: Seq<char>, i: int, tname: Seq<char>, c: ColModel)
    requires
        0 <= i,
        i + enc_column(tname, c).len() <= s.len(),
        s.subrange(i, i + enc_column(tname, c).len()) == enc_column(tname, c),
    ensures
        p_column(s, i, tname) == Some((c, i + enc_column(tname, c).len())),
        enc_column(tname, c).len() >= 3,
{
    reveal_strlit("[[\"");
    reveal_strlit("\".columns]]\nname = \"");
    reveal_strlit(".columns]]\nname = \"");
    reveal_strlit("\"\nfield_type = \"");
    reveal_strlit("\nfield_type = \"");
    reveal_strlit("\"\noffset = ");
    reveal_strlit("\n");
    let g1 = "[[\""@;
    let g2 = esc(tname).push('"');
    let g3 = ".columns]]\nname = \""@;
    let g4 = esc(c.name).push('"');
    let g5 = "\nfield_type = \""@;
    let g6 = seq![type_code(c.field_type)];
    let g7 = "\"\noffset = "@;
    let g8 = dec_text(c.offset as nat);
    let g9 = "\n"@;
    let w = enc_column(tname, c);
    lemma_dec_text_digits(c.offset as nat);
    assert("\".columns]]\nname = \""@ =~= seq!['"'].add(g3));
    assert("\"\nfield_type = \""@ =~= seq!['"'].add(g5));
    let t9 = g9;
    let t8 = g8.add(t9);
    let t7 = g7.add(t8);
    let t6 = g6.add(t7);
    let t5 = g5.add(t6);
    let t4 = g4.add(t5);
    let t3 = g3.add(t4);
    let t2 = g2.add(t3);
    let t1 = g1.add(t2);
    assert(w =~= t1);
    let p1 = i + g1.len();
    let p2 = p1 + g2.len();
    let p3 = p2 + g3.len();
    let p4 = p3 + g4.len();
    let p5 = p4 + g5.len();
    let p6 = p5 + g6.len();
    let p7 = p6 + g7.len();
    let p8 = p7 + g8.len();
    let p9 = p8 + g9.len();
    lemma_split_window(s, i, g1, t2);
    lemma_split_window(s, p1, g2, t3);
    lemma_split_window(s, p2, g3, t4);
    lemma_split_window(s, p3, g4, t5);
    lemma_split_window(s, p4, g5, t6);
    lemma_split_window(s, p5, g6, t7);
    lemma_split_window(s, p6, g7, t8);
    lemma_split_window(s, p7, g8, t9);
    lemma_p_lit_at(s, i, g1);
    assert(s.subrange(p1, p1 + esc(tname).len() + 1) == esc(tname).push('"'));
    lemma_p_qstr_at(s, p1, tname);
    lemma_p_lit_at(s, p2, g3);
    assert(s.subrange(p3, p3 + esc(c.name).len() + 1) == esc(c.name).push('"'));
    lemma_p_qstr_at(s, p3, c.name);
    lemma_p_lit_at(s, p4, g5);
    assert(s[p5] == g6[0]) by {
        assert(s.subrange(p5, p6)[0] == g6[0]);
    }
    assert(s[p5] == type_code(c.field_type));
    assert(p_type(s, p5) == Some((c.field_type, p5 + 1)));
    lemma_p_lit_at(s, p6, g7);
    assert(s[p8] == g9[0]) by {
        assert(s.subrange(p8, p9)[0] == g9[0]);
    }
    assert(s[p8] == '\n');
    assert(!is_digit('\n'));
    lemma_p_dec_at(s, p7, c.offset);
    lemma_p_lit_at(s, p8, g9);
    assert(c == (ColModel { name: c.name, field_type: c.field_type, offset: c.offset }));
    assert(p9 == i + w.len());
}

proof fn lemma_p_columns_at(s: Seq<char>, i: int, tname: Seq<char>, cs: Seq<ColModel>)
    requires
        0 <= i,
        i + enc_columns(tname, cs).len() <= s.len(),
        s.subrange(i, i + enc_columns(tname, cs).len()) == enc_columns(tname, cs),
        i + enc_columns(tname, cs).len() == s.len() || p_column(s, i + enc_columns(tname,
            cs).len(), tname) is None,
    ensures
        p_columns(s, i, tname) == (cs, i + enc_columns(tname, cs).len()),
    decreases cs.len(),
{
    let w = enc_columns(tname, cs);
    if cs.len() == 0 {
        assert(w =~= Seq::<char>::empty());
        if i < s.len() {
            assert(p_column(s, i, tname) is None);
        }
        assert(p_columns(s, i, tname) == (cs, i));
    } else {
        let w1 = enc_column(tname, cs.first());
        let w2 = enc_columns(tname, cs.drop_first());
        assert(w == w1.add(w2));
        lemma_split_window(s, i, w1, w2);
        lemma_p_column_at(s, i, tname, cs.first());
        let j = i + w1.len();
        lemma_p_columns_at(s, j, tname, cs.drop_first());
        assert(seq![cs.first()].add(cs.drop_first()) =~= cs);
    }
}

proof fn lemma_p_entry_at(s: Seq<char>, i: int, e: RegEntryModel)
    requires
        0 <= i,
        i + enc_entry(e).len() <= s.len(),
        s.subrange(i, i + enc_entry(e).len()) == enc_entry(e),
        i + enc_entry(e).len() == s.len() || p_column(s, i + enc_entry(e).len(),
            e.name) is None,
    ensures
        p_entry(s, i) == Some((e, i + enc_entry(e).len())),
        enc_entry(e).len() >= 2,
{
    reveal_strlit("[\"");
    reveal_strlit("\"]\nrecord_size = ");
    reveal_strlit("]\nrecord_size = ");
    reveal_strlit("\n");
    let h1 = "[\""@;
    let h2 = esc(e.name).push('"');
    let h3 = "]\nrecord_size = "@;
    let h4 = dec_text(e.schema.record_size as nat);
    let h5 = "\n"@;
    let h6 = enc_columns(e.name, e.schema.columns);
    let w = enc_entry(e);
    lemma_dec_text_digits(e.schema.record_size as nat);
    assert("\"]\nrecord_size = "@ =~= seq!['"'].add(h3));
    let t6 = h6;
    let t5 = h5.add(t6);
    let t4 = h4.add(t5);
    let t3 = h3.add(t4);
    let t2 = h2.add(t3);
    let t1 = h1.add(t2);
    assert(w =~= t1);
    let p1 = i + h1.len();
    let p2 = p1 + h2.len();
    let p3 = p2 + h3.len();
    let p4 = p3 + h4.len();
    let p5 = p4 + h5.len();
    let p6 = p5 + h6.len();
    lemma_split_window(s, i, h1, t2);
    lemma_split_window(s, p1, h2, t3);
    lemma_split_window(s, p2, h3, t4);
    lemma_split_window(s, p3, h4, t5);
    lemma_split_window(s, p4, h5, t6);
    lemma_p_lit_at(s, i, h1);
    assert(s.subrange(p1, p1 + esc(e.name).len() + 1) == esc(e.name).push('"'));
    lemma_p_qstr_at(s, p1, e.name);
    lemma_p_lit_at(s, p2, h3);
    assert(s[p4] == h5[0]) by {
        assert(s.subrange(p4, p5)[0] == h5[0]);
    }
    assert(s[p4] == '\n');
    assert(!is_digit('\n'));
    lemma_p_dec_at(s, p3, e.schema.record_size);
    lemma_p_lit_at(s, p4, h5);
    lemma_p_columns_at(s, p5, e.name, e.schema.columns);
    assert(e == (RegEntryModel { name: e.name, schema: SchemaModel {
        record_size: e.schema.record_size, columns: e.schema.columns } }));
    assert(p6 == i + w.len());
}

proof fn lemma_p_registry_at(s: Seq<char>, i: int, es: Seq<RegEntryModel>)
    requires
        0 <= i,
        i + enc_registry(es).len() == s.len(),
        s.subrange(i, s.len() as int) == enc_registry(es),
    ensures
        p_registry(s, i) == Some(es),
    decreases es.len(),
{
    if es.len() == 0 {
        assert(enc_registry(es).len() == 0);
        assert(i == s.len());
    } else {
        let e = es.first();
        let w1 = enc_entry(e);
        let w2 = enc_registry(es.drop_first());
        assert(enc_registry(es) == w1.add(w2));
        lemma_split_window(s, i, w1, w2);
        let j = i + w1.len();
        if es.drop_first().len() == 0 {
            assert(w2 =~= Seq::<char>::empty());
            assert(j == s.len());
            lemma_p_entry_at(s, i, e);
        } else {
            reveal_strlit("[\"");
            reveal_strlit("[[\"");
            let f = es.drop_first().first();
            assert(w2 == enc_entry(f).add(enc_registry(es.drop_first().drop_first())));
            assert(enc_entry(f) =~= "[\""@.add(esc(f.name)).add("\"]\nrecord_size = "@).add(
                dec_text(f.schema.record_size as nat)).add("\n"@).add(enc_columns(f.name,
                f.schema.columns)));
            assert(w2[0] == '[' && w2[1] == '"') by {
                reveal_strlit("\"]\nrecord_size = ");
            }
            assert(s[j] == '[' && s[j + 1] == '"') by {
                assert(s.subrange(j, j + w2.len())[0] == w2[0]);
                assert(s.subrange(j, j + w2.len())[1] == w2[1]);
            }
            assert(p_column(s, j, e.name) is None) by {
                if j + 3 <= s.len() {
                    assert(s.subrange(j, j + 3)[1] == s[j + 1]);
                    assert("[[\""@[1] == '[');
                    assert(s.subrange(j, j + 3) != "[[\""@);
                }
            }
            lemma_p_entry_at(s, i, e);
        }
        assert(s.subrange(j, s.len() as int) =~= w2);
        lemma_p_registry_at(s, j, es.drop_first());
        assert(i < j) by {
            lemma_p_entry_at(s, i, e);
        }
        assert(p_registry(s, i) == Some(seq![e].add(es.drop_first())));
        assert(seq![e].add(es.drop_first()) =~= es);
    }
}

proof fn lemma_reg_from_sorted(es: Seq<RegEntryModel>)
    requires
        crate::registry::entries_sorted(es),
    ensures
        reg_from_entries(es) == es,
    decreases es.len(),
{
    if es.len() > 0 {
        let pre = es.drop_last();
        assert(crate::registry::entries_sorted(pre));
        lemma_reg_from_sorted(pre);
        if pre.len() == 0 {
            assert(spec_insert_entry(pre, es.last()) =~= es);
        } else {
            assert(crate::registry::str_lt(pre.last().name, es.last().name)) by {
                assert(pre.last() == es[es.len() - 2]);
            }
            assert(pre.push(es.last()) =~= es);
        }
    }
}

/// Round-trip law: a registry rendered as its document and read back is the
/// same registry — the same names in the same order, each with the same
/// record size and the same columns in the same order.
pub proof fn lemma_document_round_trip(es: Seq<RegEntryModel>)
    requires
        crate::registry::entries_sorted(es),
    ensures
        p_registry(enc_registry(es), 0) == Some(es),
        reg_from_entries(es) == es,
{
    let s = enc_registry(es);
    assert(s.subrange(0, s.len() as int) =~= s);
    lemma_p_registry_at(s, 0, es);
    lemma_reg_from_sorted(es);
}

proof fn lemma_p_dec_at(s: Seq<char>, i: int, n: u32)
    requires
        0 <= i,
        i + dec_text(n as nat).len() <= s.len(),
        s.subrange(i, i + dec_text(n as nat).len()) == dec_text(n as nat),
        i + dec_text(n as nat).len() == s.len() || !is_digit(s[i + dec_text(n as nat).len()]),
    ensures
        p_dec(s, i) == Some((n, i + dec_text(n as nat).len())),
{
    let ds = dec_text(n as nat);
    let e = i + ds.len();
    lemma_dec_text_digits(n as nat);
    assert(forall|m: int| i <= m < e ==> is_digit(#[trigger] s[m])) by {
        assert(forall|m: int| i <= m < e ==> s[m] == ds[m - i]);
    }
    assert(is_digit(s[i]));
    lemma_p_dec_loop_digits(s, i, e, 0);
    assert(s.subrange(i, e) == ds);
    assert(0 * pow10((e - i) as nat) + dec_val(ds) == n) by {
        assert(0 * pow10((e - i) as nat) == 0) by (nonlinear_arith);
    }
}

} // verus!
