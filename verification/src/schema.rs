use vstd::prelude::*;

use crate::columns::{split_cols, split_spec};
use crate::aggregate::pow256;
use crate::le::{le_bytes, le_value, lemma_le_roundtrip, to_le_bytes};

verus! {

/// The type of a table column, and so how its text is stored.
#[derive(Debug, Clone, Copy, PartialEq, Eq)]
pub enum DataType {
    F32,
    I32,
    Date,
    Bytes(usize),
}

/// A table's columns, which of them are stored column-wise, and which are
/// kept when rows are ingested (all of them when the list is empty).
pub struct TableSchema {
    pub name: String,
    pub columns: Vec<(String, DataType)>,
    pub columnar_cols: Vec<usize>,
    pub ingest_projection: Vec<usize>,
}

/// One field of an ingested row: bytes ready to store, or the text of a
/// floating-point number or of a date, which is stored as the 4
/// little-endian bytes of an `f32`.
pub enum RowField {
    Ready(Vec<u8>),
    Float(Vec<u8>),
    Date(Vec<u8>),
}

/// The mathematical value of a `RowField`.
pub enum RowFieldModel {
    Ready(Seq<u8>),
    Float(Seq<u8>),
    Date(Seq<u8>),
}

impl View for RowField {
    type V = RowFieldModel;

    open spec fn view(&self) -> RowFieldModel {
        match self {
            RowField::Ready(b) => RowFieldModel::Ready(b@),
            RowField::Float(t) => RowFieldModel::Float(t@),
            RowField::Date(t) => RowFieldModel::Date(t@),
        }
    }
}

/// The number that a run of decimal digits spells.
pub open spec fn digits_value(s: Seq<u8>) -> int
    decreases s.len(),
{
    if s.len() == 0 {
        0
    } else {
        digits_value(s.drop_last()) * 10 + (s.last() - 48)
    }
}

/// Every byte is a decimal digit.
pub open spec fn all_digits(s: Seq<u8>) -> bool {
    forall|i: int| 0 <= i < s.len() ==> 48 <= #[trigger] s[i] <= 57
}

/// What parsing text as an `i32` gives: an optional sign, then one or more
/// decimal digits, within range.
pub open spec fn parse_i32_spec(s: Seq<u8>) -> Option<i32> {
    let neg = s.len() > 0 && s[0] == 0x2d;
    let digits = if s.len() > 0 && (s[0] == 0x2d || s[0] == 0x2b) { s.drop_first() } else { s };
    if digits.len() == 0 || !all_digits(digits) {
        None
    } else {
        let v = if neg { -digits_value(digits) } else { digits_value(digits) };
        if i32::MIN <= v <= i32::MAX {
            Some(v as i32)
        } else {
            None
        }
    }
}

proof fn lemma_digits_nonneg(s: Seq<u8>)
    requires
        all_digits(s),
    ensures
        0 <= digits_value(s),
    decreases s.len(),
{
    if s.len() > 0 {
        assert(all_digits(s.drop_last()));
        lemma_digits_nonneg(s.drop_last());
        assert(48 <= s[s.len() - 1]);
    }
}

proof fn lemma_digits_value_grows(s: Seq<u8>, i: int)
    requires
        0 <= i <= s.len(),
        all_digits(s),
    ensures
        digits_value(s.take(i)) <= digits_value(s),
    decreases s.len() - i,
{
    if i < s.len() {
        lemma_digits_value_grows(s, i + 1);
        assert(s.take(i + 1).drop_last() =~= s.take(i));
        assert(s.take(i + 1).last() == s[i]);
        assert(all_digits(s.take(i)));
        lemma_digits_nonneg(s.take(i));
        assert(48 <= s[i]);
    } else {
        assert(s.take(i) =~= s);
    }
}

/// Parses text as an `i32`, as `str::parse::<i32>` does.
pub fn parse_i32(s: &[u8]) -> (r: Option<i32>)
    ensures
        r == parse_i32_spec(s@),
{
    let mut start: usize = 0;
    let mut neg = false;
    if s.len() > 0 && (s[0] == 0x2d || s[0] == 0x2b) {
        neg = s[0] == 0x2d;
        start = 1;
    }
    let ghost digits = s@.skip(start as int);
    assert(digits =~= (if s@.len() > 0 && (s@[0] == 0x2d || s@[0] == 0x2b) { s@.drop_first() } else { s@ }));
    if start >= s.len() {
        return None;
    }
    let mut acc: i64 = 0;
    let mut i: usize = start;
    while i < s.len()
        invariant
            start <= i <= s@.len(),
            digits == s@.skip(start as int),
            digits == (if s@.len() > 0 && (s@[0] == 0x2d || s@[0] == 0x2b) { s@.drop_first() } else { s@ }),
            neg == (s@.len() > 0 && s@[0] == 0x2d),
            forall|j: int| start <= j < i ==> 48 <= #[trigger] s@[j] <= 57,
            acc == digits_value(digits.take(i - start)),
            0 <= acc <= 2147483648,
        decreases s@.len() - i,
    {
        let c = s[i];
        if c < 48 || c > 57 {
            assert(digits[i - start] == c);
            assert(!all_digits(digits));
            return None;
        }
        assert(digits.take(i - start + 1).drop_last() =~= digits.take(i - start));
        assert(digits.take(i - start + 1).last() == c);
        let next = acc * 10 + (c - 48) as i64;
        if next > 2147483648 {
            proof {
                // The rest either is not all digits or spells a larger number.
                if all_digits(digits) {
                    lemma_digits_value_grows(digits, i - start + 1);
                    assert(digits_value(digits) > 2147483648);
                }
            }
            return None;
        }
        acc = next;
        i += 1;
    }
    assert(digits.take(i - start) =~= digits);
    assert(all_digits(digits)) by {
        assert forall|j: int| 0 <= j < digits.len() implies 48 <= #[trigger] digits[j] <= 57 by {
            assert(digits[j] == s@[j + start]);
        }
    }
    if neg {
        let v = -acc;
        if v < -2147483648 {
            return None;
        }
        Some(v as i32)
    } else {
        if acc > 2147483647 {
            return None;
        }
        Some(acc as i32)
    }
}

/// The bytes a fixed-length text column stores: the text cut or padded with
/// zero bytes to `len`.
pub open spec fn fixed_bytes(text: Seq<u8>, len: nat) -> Seq<u8> {
    if text.len() >= len {
        text.take(len as int)
    } else {
        text + Seq::new((len - text.len()) as nat, |i: int| 0u8)
    }
}

/// How one column's text is stored.
pub open spec fn field_spec(dtype: DataType, text: Seq<u8>) -> RowFieldModel {
    match dtype {
        DataType::F32 => RowFieldModel::Float(text),
        DataType::Date => RowFieldModel::Date(text),
        DataType::I32 => RowFieldModel::Ready(
            le_bytes(
                (match parse_i32_spec(text) {
                    Some(v) => v,
                    None => 0i32,
                } as u32) as nat,
                4,
            ),
        ),
        DataType::Bytes(len) => RowFieldModel::Ready(fixed_bytes(text, len as nat)),
    }
}

/// An I32 field keeps the whole parsed number: its 4 bytes, read back
/// little-endian, are the number in two's complement (the number itself
/// when it is not negative, the number plus 2^32 when it is), so reading
/// them as an `i32` gives the number back; text that is no number is
/// stored as 0.
pub proof fn lemma_i32_field_reads_back(text: Seq<u8>)
    ensures
        field_spec(DataType::I32, text) matches RowFieldModel::Ready(b) && b.len() == 4
            && le_value(b) == (match parse_i32_spec(text) {
                Some(v) => if v >= 0 { v as int } else { v + 0x1_0000_0000 },
                None => 0,
            }),
{
    let v: i32 = match parse_i32_spec(text) {
        Some(v) => v,
        None => 0i32,
    };
    lemma_le_roundtrip((v as u32) as nat, 4);
    assert(pow256(4) == 0x1_0000_0000) by {
        reveal_with_fuel(pow256, 5);
    }
    assert(v >= 0 ==> (v as u32) == v) by (bit_vector);
    assert(v < 0 ==> (v as u32) == v + 0x1_0000_0000) by (bit_vector);
}

/// The fields of an ingested line: for each column to keep, in order, its
/// part of the line stored as its type says; columns past the line's parts
/// or past the schema are skipped.
pub open spec fn row_fields_spec(types: Seq<DataType>, keep: Seq<int>, parts: Seq<Seq<u8>>) -> Seq<RowFieldModel>
    decreases keep.len(),
{
    if keep.len() == 0 {
        Seq::empty()
    } else {
        let init = row_fields_spec(types, keep.drop_last(), parts);
        let c = keep.last();
        if c >= parts.len() || c >= types.len() {
            init
        } else {
            init.push(field_spec(types[c], parts[c]))
        }
    }
}

impl TableSchema {
    /// The columns' types.
    pub open spec fn types(&self) -> Seq<DataType> {
        self.columns@.map_values(|c: (String, DataType)| c.1)
    }

    /// The columns kept at ingest: the projection, or every column when it
    /// is empty.
    pub open spec fn kept(&self) -> Seq<int> {
        if self.ingest_projection@.len() == 0 {
            Seq::new(self.columns@.len(), |i: int| i)
        } else {
            self.ingest_projection@.map_values(|c: usize| c as int)
        }
    }

    /// A schema with the given name, columns, columnar columns and ingest
    /// projection.
    pub fn new(
        name: &str,
        columns: Vec<(&str, DataType)>,
        columnar_cols: Vec<usize>,
        ingest_projection: Vec<usize>,
    ) -> (r: Self)
        ensures
            r.name@ == name@,
            r.columns@.len() == columns@.len(),
            forall|i: int| 0 <= i < columns@.len() ==> #[trigger] r.columns@[i].0@ == columns@[i].0@ && r.columns@[i].1 == columns@[i].1,
            r.columnar_cols == columnar_cols,
            r.ingest_projection == ingest_projection,
    {
        let mut cols: Vec<(String, DataType)> = Vec::new();
        let mut i: usize = 0;
        while i < columns.len()
            invariant
                i <= columns@.len(),
                cols@.len() == i,
                forall|j: int| 0 <= j < i ==> #[trigger] cols@[j].0@ == columns@[j].0@ && cols@[j].1 == columns@[j].1,
            decreases columns@.len() - i,
        {
            let n: &str = columns[i].0;
            let t = columns[i].1;
            let owned = n.to_owned();
            assert(owned@ == columns@[i as int].0@);
            cols.push((owned, t));
            i += 1;
        }
        TableSchema { name: name.to_owned(), columns: cols, columnar_cols, ingest_projection }
    }

    /// Splits a `|`-separated line and stores each kept column as its type
    /// says; the text of floating-point and date columns is handed back for
    /// conversion.
    pub fn parse_row(&self, line: &[u8]) -> (r: Vec<RowField>)
        ensures
            r@.map_values(|f: RowField| f@) == row_fields_spec(self.types(), self.kept(), split_spec(line@)),
    {
        let parts = split_cols(line);
        let ghost ps = split_spec(line@);
        let ncols = self.columns.len();
        let nkeep = if self.ingest_projection.len() == 0 {
            ncols
        } else {
            self.ingest_projection.len()
        };
        let ghost keep = self.kept();
        let mut out: Vec<RowField> = Vec::new();
        let mut i: usize = 0;
        assert(keep.take(0) =~= Seq::<int>::empty());
        while i < nkeep
            invariant
                i <= nkeep,
                nkeep == keep.len(),
                keep == self.kept(),
                ncols == self.columns@.len(),
                parts@.map_values(|c: Vec<u8>| c@) == ps,
                ps == split_spec(line@),
                out@.map_values(|f: RowField| f@) == row_fields_spec(self.types(), keep.take(i as int), ps),
            decreases nkeep - i,
        {
            let col_idx = if self.ingest_projection.len() == 0 {
                i
            } else {
                self.ingest_projection[i]
            };
            assert(keep[i as int] == col_idx as int);
            assert(keep.take(i + 1).drop_last() =~= keep.take(i as int));
            assert(keep.take(i + 1).last() == col_idx as int);
            if col_idx < parts.len() && col_idx < ncols {
                let text = &parts[col_idx];
                assert(text@ == ps[col_idx as int]);
                let dtype = self.columns[col_idx].1;
                assert(dtype == self.types()[col_idx as int]);
                let field = match dtype {
                    DataType::F32 => RowField::Float(vstd::slice::slice_to_vec(text.as_slice())),
                    DataType::Date => RowField::Date(vstd::slice::slice_to_vec(text.as_slice())),
                    DataType::I32 => {
                        let v = match parse_i32(text.as_slice()) {
                            Some(v) => v,
                            None => 0,
                        };
                        RowField::Ready(to_le_bytes(v as u32 as u64, 4))
                    },
                    DataType::Bytes(len) => RowField::Ready(fixed_width(text.as_slice(), len)),
                };
                out.push(field);
                assert(out@.map_values(|f: RowField| f@) =~= row_fields_spec(self.types(), keep.take(i + 1), ps));
            } else {
                assert(out@.map_values(|f: RowField| f@) =~= row_fields_spec(self.types(), keep.take(i + 1), ps));
            }
            i += 1;
        }
        assert(keep.take(nkeep as int) =~= keep);
        out
    }
}

/// The text cut or padded with zero bytes to `len`.
pub fn fixed_width(text: &[u8], len: usize) -> (r: Vec<u8>)
    ensures
        r@ == fixed_bytes(text@, len as nat),
{
    let mut out: Vec<u8> = Vec::new();
    if text.len() >= len {
        let mut i: usize = 0;
        while i < len
            invariant
                i <= len <= text@.len(),
                out@ == text@.take(i as int),
            decreases len - i,
        {
            out.push(text[i]);
            assert(text@.take(i + 1) =~= text@.take(i as int).push(text@[i as int]));
            i += 1;
        }
    } else {
        let mut i: usize = 0;
        while i < text.len()
            invariant
                i <= text@.len(),
                out@ == text@.take(i as int),
            decreases text@.len() - i,
        {
            out.push(text[i]);
            assert(text@.take(i + 1) =~= text@.take(i as int).push(text@[i as int]));
            i += 1;
        }
        assert(text@.take(i as int) =~= text@);
        let mut j: usize = text.len();
        while j < len
            invariant
                text@.len() <= j <= len,
                out@ == text@ + Seq::new((j - text@.len()) as nat, |k: int| 0u8),
            decreases len - j,
        {
            out.push(0u8);
            assert(out@ =~= text@ + Seq::new((j + 1 - text@.len()) as nat, |k: int| 0u8));
            j += 1;
        }
    }
    out
}

} // verus!
