//! Batches as Arrow IPC files.

use std::sync::Arc;

use arrow::array::make_array;
use arrow::array::Array;
use arrow::array::ArrayData;
use arrow::array::ArrayRef;
use arrow::array::BinaryArray;
use arrow::array::StringArray;
use arrow::array::UInt32Array;
use arrow::array::UInt64Array;
use arrow::datatypes::Schema;
use arrow::error::ArrowError;
use arrow::ipc::writer::FileWriter;
use arrow::record_batch::RecordBatch;
use vstd::prelude::*;

use crate::cache::rows::Batch;
use crate::cache::rows::Cell;
use crate::cache::rows::CellModel;
use crate::cache::rows::Kind;
use crate::text;
use crate::cache::rows;
use crate::hllset;
use crate::lut;
use crate::order;

verus! {

/// Arrow's column of values.
#[verifier::external_type_specification]
#[verifier::external_body]
pub struct ExArrayData(ArrayData);

/// Arrow's error.
#[verifier::external_type_specification]
#[verifier::external_body]
pub struct ExArrowError(ArrowError);

/// The values that a column of Arrow holds, each as bytes: texts in UTF-8, numbers
/// from the lowest byte up.
pub uninterp spec fn cells_in(data: ArrayData) -> Seq<Seq<u8>>;

/// The name of the type of a column of Arrow.
pub uninterp spec fn type_in(data: ArrayData) -> Seq<char>;

/// The number of nulls in a column of Arrow.
pub uninterp spec fn nulls_in(data: ArrayData) -> nat;

/// The IPC file of columns with names and types, written on a machine that stores
/// the lowest byte first or last.
pub uninterp spec fn ipc_of(
    names: Seq<Seq<char>>,
    types: Seq<Seq<char>>,
    columns: Seq<Seq<Seq<u8>>>,
    lowest_first: bool,
) -> Seq<u8>;

/// The bytes of a list of values together.
pub open spec fn weight_of(cells: Seq<Seq<u8>>) -> nat
    decreases cells.len(),
{
    if cells.len() == 0 {
        0
    } else {
        weight_of(cells.drop_last()) + cells.last().len()
    }
}

/// The bytes of a list of texts.
pub open spec fn text_cells(values: Seq<Seq<char>>) -> Seq<Seq<u8>> {
    values.map_values(|s: Seq<char>| text::utf8(s))
}

/// The bytes of a list of numbers.
pub open spec fn wide_cells(values: Seq<u64>) -> Seq<Seq<u8>> {
    values.map_values(|n: u64| vstd::bytes::spec_u64_to_le_bytes(n))
}

/// The bytes of a list of small numbers.
pub open spec fn narrow_cells(values: Seq<u32>) -> Seq<Seq<u8>> {
    values.map_values(|n: u32| vstd::bytes::spec_u32_to_le_bytes(n))
}

/// Calls `StringArray::from_iter_values`. Claimed of it: the column holds the
/// texts in order, without nulls, and is of type `Utf8`. It cannot hold more bytes
/// than an `i32` counts.
#[verifier::external_body]
fn text_array(values: &Vec<String>) -> (data: ArrayData)
    requires
        weight_of(text_cells(text::texts(values@))) <= i32::MAX,
    ensures
        cells_in(data) == text_cells(text::texts(values@)),
        type_in(data) == "Utf8"@,
        nulls_in(data) == 0,
{
    StringArray::from_iter_values(values.iter()).into_data()
}

/// Calls `BinaryArray::from_iter_values`. Claimed of it: the column holds the byte
/// strings in order, without nulls, and is of type `Binary`. It cannot hold more
/// bytes than an `i32` counts.
#[verifier::external_body]
fn binary_array(values: &Vec<Vec<u8>>) -> (data: ArrayData)
    requires
        weight_of(hllset::token_views(values@)) <= i32::MAX,
    ensures
        cells_in(data) == hllset::token_views(values@),
        type_in(data) == "Binary"@,
        nulls_in(data) == 0,
{
    BinaryArray::from_iter_values(values.iter()).into_data()
}

/// Calls `UInt64Array::from_iter_values`. Claimed of it: the column holds the
/// numbers in order, without nulls, and is of type `UInt64`.
#[verifier::external_body]
fn wide_array(values: &Vec<u64>) -> (data: ArrayData)
    ensures
        cells_in(data) == wide_cells(values@),
        type_in(data) == "UInt64"@,
        nulls_in(data) == 0,
{
    UInt64Array::from_iter_values(values.iter().copied()).into_data()
}

/// Calls `UInt32Array::from_iter_values`. Claimed of it: the column holds the
/// numbers in order, without nulls, and is of type `UInt32`.
#[verifier::external_body]
fn narrow_array(values: &Vec<u32>) -> (data: ArrayData)
    ensures
        cells_in(data) == narrow_cells(values@),
        type_in(data) == "UInt32"@,
        nulls_in(data) == 0,
{
    UInt32Array::from_iter_values(values.iter().copied()).into_data()
}

/// The values and types of a list of columns.
pub open spec fn columns_in(columns: Seq<ArrayData>) -> Seq<Seq<Seq<u8>>> {
    columns.map_values(|d: ArrayData| cells_in(d))
}

/// The names of the types of a list of columns.
pub open spec fn types_in(columns: Seq<ArrayData>) -> Seq<Seq<char>> {
    columns.map_values(|d: ArrayData| type_in(d))
}

/// Calls `RecordBatch::try_new`, and writes the batch with `FileWriter`. Claimed of
/// them: columns of one length and without nulls make a batch, writing to memory
/// does not fail, and the file depends on the names, the types, the values and the
/// machine's byte order alone. What describes the columns cannot grow to two
/// gigabytes: the writer counts it with 32 bits. It takes less than `FIELD_BYTES`
/// for each column beside the bytes of its name.
#[verifier::external_body]
fn write_ipc(names: &Vec<String>, columns: Vec<ArrayData>) -> (r: Result<Vec<u8>, ArrowError>)
    requires
        names@.len() == columns@.len(),
        0 < names@.len(),
        schema_weight(text::texts(names@)) <= HEAVIEST_SCHEMA,
        forall|i: int|
            0 <= i < columns@.len() ==> nulls_in(#[trigger] columns@[i]) == 0 && kind_type(type_in(columns@[i])),
        forall|i: int, j: int|
            0 <= i < columns@.len() && 0 <= j < columns@.len() ==> cells_in(#[trigger] columns@[i]).len() == cells_in(
                #[trigger] columns@[j],
            ).len(),
    ensures
        r is Ok,
        exists|lowest_first: bool|
            r->Ok_0@ == #[trigger] ipc_of(
                text::texts(names@),
                types_in(columns@),
                columns_in(columns@),
                lowest_first,
            ),
{
    let arrays: Vec<ArrayRef> = columns.into_iter().map(make_array).collect();
    let field = |(n, a): (&String, &ArrayRef)| arrow::datatypes::Field::new(n, a.data_type().clone(), false);
    let fields: Vec<_> = names.iter().zip(&arrays).map(field).collect();
    let batch = RecordBatch::try_new(Arc::new(Schema::new(fields)), arrays)?;
    let mut bytes = Vec::new();
    let mut writer = FileWriter::try_new(&mut bytes, &batch.schema())?;
    writer.write(&batch)?;
    writer.finish()?;
    drop(writer);
    Ok(bytes)
}

/// Calls `to_string` on Arrow's error. Nothing is claimed of the words.
#[verifier::external_body]
pub(crate) fn error_text(e: &ArrowError) -> (words: String) {
    e.to_string()
}

/// The name of a kind's type.
pub open spec fn arrow_type(k: Kind) -> Seq<char> {
    match k {
        Kind::Text => "Utf8"@,
        Kind::Wide => "UInt64"@,
        Kind::Narrow => "UInt32"@,
        Kind::Binary => "Binary"@,
    }
}

/// Whether a type is that of a kind.
pub open spec fn kind_type(t: Seq<char>) -> bool {
    exists|k: Kind| t == #[trigger] arrow_type(k)
}

/// The bytes of a value.
pub open spec fn cell_bytes(c: CellModel) -> Seq<u8> {
    match c {
        CellModel::Text(s) => text::utf8(s),
        CellModel::Wide(n) => vstd::bytes::spec_u64_to_le_bytes(n),
        CellModel::Narrow(n) => vstd::bytes::spec_u32_to_le_bytes(n),
        CellModel::Binary(b) => b,
    }
}

/// The values of one column.
pub open spec fn column_of(rows: Seq<Seq<CellModel>>, c: int) -> Seq<Seq<u8>> {
    rows.map_values(|r: Seq<CellModel>| cell_bytes(r[c]))
}

/// The values of all columns.
pub open spec fn columns_of(rows: Seq<Seq<CellModel>>, n: nat) -> Seq<Seq<Seq<u8>>> {
    Seq::new(n, |c: int| column_of(rows, c))
}

/// The IPC file of a batch.
pub open spec fn batch_ipc(b: Batch, lowest_first: bool) -> Seq<u8> {
    ipc_of(
        b.names(),
        b.kinds().map_values(|k: Kind| arrow_type(k)),
        columns_of(b.spec_rows(), b.fields@.len()),
        lowest_first,
    )
}

/// The bytes that describe a column in a file, beside those of its name, at most.
pub const FIELD_BYTES: usize = 128;

/// The most bytes that describe the columns of a file.
pub const HEAVIEST_SCHEMA: usize = 2000000000;

/// The bytes that describe columns of these names, at most.
pub open spec fn schema_weight(names: Seq<Seq<char>>) -> int {
    FIELD_BYTES * names.len() + weight_of(text_cells(names))
}

/// Whether a column of texts or byte strings has no more bytes than an `i32` counts.
pub open spec fn light(b: Batch, c: int) -> bool {
    b.kinds()[c] == Kind::Text || b.kinds()[c] == Kind::Binary ==> weight_of(column_of(b.spec_rows(), c)) <= i32::MAX
}

/// Whether a batch has columns, what describes them fits into a file, and no column
/// is too heavy.
pub open spec fn writable(b: Batch) -> bool {
    &&& b.wf()
    &&& 0 < b.fields@.len()
    &&& schema_weight(b.names()) <= HEAVIEST_SCHEMA
    &&& forall|c: int| 0 <= c < b.fields@.len() ==> #[trigger] light(b, c)
}

/// The column of a batch, for Arrow.
fn column_data(b: &Batch, c: usize) -> (data: ArrayData)
    requires
        writable(*b),
        c < b.fields@.len(),
    ensures
        cells_in(data) == column_of(b.spec_rows(), c as int),
        type_in(data) == arrow_type(b.kinds()[c as int]),
        nulls_in(data) == 0,
{
    let ghost wanted = column_of(b.spec_rows(), c as int);
    let kind = b.fields[c].kind;
    assert(light(*b, c as int));
    let mut texts: Vec<String> = Vec::new();
    let mut wides: Vec<u64> = Vec::new();
    let mut narrows: Vec<u32> = Vec::new();
    let mut binaries: Vec<Vec<u8>> = Vec::new();
    let mut i: usize = 0;
    while i < b.rows.len()
        invariant
            i <= b.rows@.len(),
            b.wf(),
            c < b.fields@.len(),
            kind == b.kinds()[c as int],
            wanted == column_of(b.spec_rows(), c as int),
            kind == Kind::Text ==> texts@.len() == i && forall|j: int|
                0 <= j < i ==> text::utf8((#[trigger] texts@[j])@) == wanted[j],
            kind == Kind::Wide ==> wides@.len() == i && forall|j: int|
                0 <= j < i ==> vstd::bytes::spec_u64_to_le_bytes(#[trigger] wides@[j]) == wanted[j],
            kind == Kind::Narrow ==> narrows@.len() == i && forall|j: int|
                0 <= j < i ==> vstd::bytes::spec_u32_to_le_bytes(#[trigger] narrows@[j]) == wanted[j],
            kind == Kind::Binary ==> binaries@.len() == i && forall|j: int|
                0 <= j < i ==> (#[trigger] binaries@[j])@ == wanted[j],
        decreases b.rows.len() - i,
    {
        proof {
            let row = b.spec_rows()[i as int];
            assert(rows::row_fits(row, b.kinds()));
            let kinds = row.map_values(|x: CellModel| rows::kind_of(x));
            assert(kinds.len() == row.len());
            assert(kinds[c as int] == rows::kind_of(row[c as int]));
            assert(row[c as int] == b.rows@[i as int].cells@[c as int]@);
            assert(wanted[i as int] == cell_bytes(row[c as int]));
        }
        match &b.rows[i].cells[c] {
            Cell::Text(s) => texts.push(text::copy_str(s.as_str())),
            Cell::Wide(n) => wides.push(*n),
            Cell::Narrow(n) => narrows.push(*n),
            Cell::Binary(x) => binaries.push(lut::copy_bytes(x.as_slice())),
        }
        i = i + 1;
    }
    match kind {
        Kind::Text => {
            proof {
                assert(text_cells(text::texts(texts@)) =~= wanted);
            }
            text_array(&texts)
        },
        Kind::Wide => {
            proof {
                assert(wide_cells(wides@) =~= wanted);
            }
            wide_array(&wides)
        },
        Kind::Narrow => {
            proof {
                assert(narrow_cells(narrows@) =~= wanted);
            }
            narrow_array(&narrows)
        },
        Kind::Binary => {
            proof {
                assert(hllset::token_views(binaries@) =~= wanted);
            }
            binary_array(&binaries)
        },
    }
}

/// The bytes of a value, as far as they are counted.
fn cell_weight(c: &Cell) -> (n: usize)
    ensures
        n == cell_bytes(c@).len(),
{
    proof {
        vstd::bytes::lemma_auto_spec_u64_to_from_le_bytes();
        vstd::bytes::lemma_auto_spec_u32_to_from_le_bytes();
    }
    match c {
        Cell::Text(s) => s.as_str().as_bytes().len(),
        Cell::Wide(_) => 8,
        Cell::Narrow(_) => 4,
        Cell::Binary(b) => b.len(),
    }
}

/// A part weighs no more than the whole.
proof fn weight_grows(cells: Seq<Seq<u8>>, n: int)
    requires
        0 <= n <= cells.len(),
    ensures
        weight_of(cells.take(n)) <= weight_of(cells),
    decreases cells.len() - n,
{
    if n == cells.len() {
        assert(cells.take(n) =~= cells);
    } else {
        assert(cells.take(n + 1).drop_last() =~= cells.take(n));
        weight_grows(cells, n + 1);
    }
}

/// Whether a column can be written.
fn light_column(b: &Batch, c: usize) -> (yes: bool)
    requires
        b.wf(),
        c < b.fields@.len(),
    ensures
        yes == light(*b, c as int),
{
    match b.fields[c].kind {
        Kind::Wide | Kind::Narrow => {
            return true;
        },
        _ => {},
    }
    let ghost all = column_of(b.spec_rows(), c as int);
    let most: usize = 2147483647;
    let mut total: usize = 0;
    let mut i: usize = 0;
    while i < b.rows.len()
        invariant
            i <= b.rows@.len(),
            b.wf(),
            c < b.fields@.len(),
            b.kinds()[c as int] == Kind::Text || b.kinds()[c as int] == Kind::Binary,
            most == i32::MAX,
            all == column_of(b.spec_rows(), c as int),
            total == weight_of(all.take(i as int)),
            total <= most,
        decreases b.rows.len() - i,
    {
        proof {
            let row = b.spec_rows()[i as int];
            assert(rows::row_fits(row, b.kinds()));
            let kinds = row.map_values(|x: CellModel| rows::kind_of(x));
            assert(kinds.len() == row.len());
            assert(row[c as int] == b.rows@[i as int].cells@[c as int]@);
            assert(all.take(i as int + 1).drop_last() =~= all.take(i as int));
            assert(all.take(i as int + 1).last() == cell_bytes(row[c as int]));
            weight_grows(all, i as int + 1);
        }
        let n = cell_weight(&b.rows[i].cells[c]);
        if n > most - total {
            return false;
        }
        total = total + n;
        i = i + 1;
    }
    proof {
        assert(all.take(i as int) =~= all);
    }
    true
}

/// Whether what describes the columns can be written.
fn light_schema(b: &Batch) -> (yes: bool)
    ensures
        yes == (schema_weight(b.names()) <= HEAVIEST_SCHEMA),
{
    let ghost all = text_cells(b.names());
    if b.fields.len() > HEAVIEST_SCHEMA / FIELD_BYTES {
        return false;
    }
    let most: usize = HEAVIEST_SCHEMA - FIELD_BYTES * b.fields.len();
    let mut total: usize = 0;
    let mut i: usize = 0;
    while i < b.fields.len()
        invariant
            i <= b.fields@.len(),
            all == text_cells(b.names()),
            total == weight_of(all.take(i as int)),
            most == HEAVIEST_SCHEMA - FIELD_BYTES * b.fields@.len(),
            total <= most,
        decreases b.fields.len() - i,
    {
        proof {
            assert(all.take(i as int + 1).drop_last() =~= all.take(i as int));
            assert(all.take(i as int + 1).last() == text::utf8(b.fields@[i as int].name@));
            weight_grows(all, i as int + 1);
        }
        let n = b.fields[i].name.as_str().as_bytes().len();
        if n > most - total {
            return false;
        }
        total = total + n;
        i = i + 1;
    }
    proof {
        assert(all.take(i as int) =~= all);
    }
    true
}

/// Whether a batch can be written.
fn can_write(b: &Batch) -> (yes: bool)
    requires
        b.wf(),
    ensures
        yes == writable(*b),
{
    if b.fields.len() == 0 || !light_schema(b) {
        return false;
    }
    let mut c: usize = 0;
    while c < b.fields.len()
        invariant
            c <= b.fields@.len(),
            b.wf(),
            forall|j: int| 0 <= j < c ==> #[trigger] light(*b, j),
        decreases b.fields.len() - c,
    {
        if !light_column(b, c) {
            return false;
        }
        c = c + 1;
    }
    true
}

/// The IPC file of a batch; an error where it has no columns, or a column is too
/// heavy.
pub fn to_ipc(batch: &Batch) -> (r: Result<Vec<u8>, CacheError>)
    requires
        batch.wf(),
    ensures
        r is Ok <==> writable(*batch),
        r is Ok ==> exists|lowest_first: bool| r->Ok_0@ == #[trigger] batch_ipc(*batch, lowest_first),
        r is Err ==> r->Err_0 is Arrow,
{
    if !can_write(batch) {
        return Err(CacheError::Arrow(text::copy_str("batch cannot be written")));
    }
    let mut names: Vec<String> = Vec::new();
    let mut columns: Vec<ArrayData> = Vec::new();
    let ghost wanted = columns_of(batch.spec_rows(), batch.fields@.len());
    let ghost types = batch.kinds().map_values(|k: Kind| arrow_type(k));
    let mut c: usize = 0;
    while c < batch.fields.len()
        invariant
            c <= batch.fields@.len(),
            writable(*batch),
            wanted == columns_of(batch.spec_rows(), batch.fields@.len()),
            types == batch.kinds().map_values(|k: Kind| arrow_type(k)),
            names@.len() == c,
            columns@.len() == c,
            forall|j: int| 0 <= j < c ==> (#[trigger] names@[j])@ == batch.names()[j],
            forall|j: int|
                0 <= j < c ==> cells_in(#[trigger] columns@[j]) == wanted[j] && type_in(columns@[j]) == types[j] && nulls_in(
                    columns@[j],
                ) == 0,
        decreases batch.fields.len() - c,
    {
        names.push(text::copy_str(batch.fields[c].name.as_str()));
        columns.push(column_data(batch, c));
        c = c + 1;
    }
    proof {
        assert(text::texts(names@) =~= batch.names());
        assert(types_in(columns@) =~= types);
        assert(columns_in(columns@) =~= wanted);
        assert forall|i: int| 0 <= i < columns@.len() implies nulls_in(#[trigger] columns@[i]) == 0 && kind_type(
            type_in(columns@[i]),
        ) by {
            assert(type_in(columns@[i]) == arrow_type(batch.kinds()[i]));
        }
        assert forall|i: int, j: int| 0 <= i < columns@.len() && 0 <= j < columns@.len() implies cells_in(
            #[trigger] columns@[i],
        ).len() == cells_in(#[trigger] columns@[j]).len() by {
            assert(cells_in(columns@[i]) == wanted[i]);
            assert(cells_in(columns@[j]) == wanted[j]);
        }
    }
    match write_ipc(&names, columns) {
        Ok(bytes) => {
            proof {
                let lowest_first = choose|l: bool|
                    bytes@ == #[trigger] ipc_of(batch.names(), types, wanted, l);
                assert(bytes@ == batch_ipc(*batch, lowest_first));
            }
            Ok(bytes)
        },
        Err(e) => Err(CacheError::Arrow(error_text(&e))),
    }
}

/// Why the cache refused.
#[derive(Clone, Debug, PartialEq, Eq)]
pub enum CacheError {
    /// Arrow failed.
    Arrow(String),
    BadManifest(String),
    ShaMismatch { what: String, name: String, expected: String, found: String },
    Missing { what: String, name: String },
    SchemaVersion { found: u32 },
    EmptyIpc,
    MultiBatchIpc,
}

/// Batches of the same rows, in whatever order these came, have the same file.
pub proof fn same_rows_same_file(a: Batch, b: Batch, rows: Seq<Seq<CellModel>>, others: Seq<Seq<CellModel>>, l: bool)
    requires
        a.is_of(b.names(), b.kinds(), rows),
        b.is_of(b.names(), b.kinds(), others),
        a.fields@.len() == b.fields@.len(),
        rows.to_multiset() == others.to_multiset(),
    ensures
        batch_ipc(a, l) == batch_ipc(b, l),
{
    rows::row_rank_faithful();
    order::rank_total(rows::row_rank());
    let leq = order::rank_leq(rows::row_rank());
    rows.lemma_sort_by_ensures(leq);
    others.lemma_sort_by_ensures(leq);
    vstd::seq_lib::lemma_sorted_unique(order::ranked(rows, rows::row_rank()), order::ranked(others, rows::row_rank()), leq);
}

} // verus!
