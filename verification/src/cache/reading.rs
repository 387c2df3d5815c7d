//! Batches out of Arrow IPC files.

use std::io::Cursor;

use arrow::array::Array;
use arrow::array::ArrayData;
use arrow::array::BinaryArray;
use arrow::array::StringArray;
use arrow::array::UInt32Array;
use arrow::array::UInt64Array;
use arrow::error::ArrowError;
use arrow::ipc::reader::FileReader;
use arrow::record_batch::RecordBatch;
use vstd::prelude::*;

use crate::cache::ipc::CacheError;
use crate::cache::rows::Batch;
use crate::cache::rows::Cell;
use crate::cache::rows::CellModel;
use crate::cache::rows::Field;
use crate::cache::rows::Kind;
use crate::cache::rows::Row;
use crate::cache::ipc;
use crate::cache::rows;
use crate::hllset;
use crate::lut;
use crate::text;

verus! {

/// Whether bytes are the IPC file of a batch.
pub open spec fn written_as(bytes: Seq<u8>, b: Batch, lowest_first: bool) -> bool {
    ipc::writable(b) && bytes == ipc::batch_ipc(b, lowest_first)
}

/// Whether bytes end as an IPC file does: with six magic bytes behind a length.
pub open spec fn marked(bytes: Seq<u8>) -> bool {
    bytes.len() >= 10 && bytes.subrange(bytes.len() - 6, bytes.len() as int) == seq![65u8, 82u8, 82u8, 79u8, 87u8, 49u8]
}

/// Whether bytes are the IPC file of a batch, or do not even end as a file does.
pub open spec fn readable(bytes: Seq<u8>) -> bool {
    marked(bytes) ==> exists|b: Batch, lowest_first: bool| written_as(bytes, b, lowest_first)
}

/// Calls `FileReader::try_new` and takes the first two batches, each as the names
/// of its columns and the columns. Claimed of it: what was written as a batch is
/// read, if it is, as that one batch, and bytes that do not end as a file does are
/// refused. A file is not read where the machine that wrote it stores bytes the
/// other way round; other bytes can make the reader panic.
#[verifier::external_body]
fn read_ipc(bytes: &[u8]) -> (r: Result<Vec<(Vec<String>, Vec<ArrayData>)>, ArrowError>)
    requires
        readable(bytes@),
    ensures
        !marked(bytes@) ==> r is Err,
        r matches Ok(list) ==> forall|b: Batch, lowest_first: bool|
            #[trigger] written_as(bytes@, b, lowest_first) ==> list@.len() == 1 && text::texts(list@[0].0@) == b.names()
                && ipc::types_in(list@[0].1@) == b.kinds().map_values(|k: Kind| ipc::arrow_type(k)) && ipc::columns_in(list@[0].1@)
                == ipc::columns_of(b.spec_rows(), b.fields@.len()),
{
    let split = |b: RecordBatch| {
        let names: Vec<String> = b.schema().fields().iter().map(|f| f.name().clone()).collect();
        let columns: Vec<ArrayData> = b.columns().iter().map(|c| c.to_data()).collect();
        (names, columns)
    };
    FileReader::try_new(Cursor::new(bytes), None)?.take(2).map(|b| b.map(split)).collect()
}

/// Calls `ArrayData::data_type`. Claimed of it: it tells the type of the column.
#[verifier::external_body]
fn column_type(data: &ArrayData) -> (name: String)
    ensures
        name@ == ipc::type_in(*data),
{
    format!("{}", data.data_type())
}

/// Calls `StringArray::from` and `value`. Claimed of them: they give the texts of
/// the column in order.
#[verifier::external_body]
fn read_texts(data: ArrayData) -> (values: Vec<String>)
    requires
        ipc::type_in(data) == "Utf8"@,
    ensures
        ipc::text_cells(text::texts(values@)) == ipc::cells_in(data),
{
    let array = StringArray::from(data);
    (0..array.len()).map(|i| array.value(i).to_string()).collect()
}

/// Calls `BinaryArray::from` and `value`. Claimed of them: they give the byte
/// strings of the column in order.
#[verifier::external_body]
fn read_binaries(data: ArrayData) -> (values: Vec<Vec<u8>>)
    requires
        ipc::type_in(data) == "Binary"@,
    ensures
        hllset::token_views(values@) == ipc::cells_in(data),
{
    let array = BinaryArray::from(data);
    (0..array.len()).map(|i| array.value(i).to_vec()).collect()
}

/// Calls `UInt64Array::from` and `value`. Claimed of them: they give the numbers
/// of the column in order.
#[verifier::external_body]
fn read_wides(data: ArrayData) -> (values: Vec<u64>)
    requires
        ipc::type_in(data) == "UInt64"@,
    ensures
        ipc::wide_cells(values@) == ipc::cells_in(data),
{
    let array = UInt64Array::from(data);
    (0..array.len()).map(|i| array.value(i)).collect()
}

/// Calls `UInt32Array::from` and `value`. Claimed of them: they give the numbers
/// of the column in order.
#[verifier::external_body]
fn read_narrows(data: ArrayData) -> (values: Vec<u32>)
    requires
        ipc::type_in(data) == "UInt32"@,
    ensures
        ipc::narrow_cells(values@) == ipc::cells_in(data),
{
    let array = UInt32Array::from(data);
    (0..array.len()).map(|i| array.value(i)).collect()
}

/// A column of values of one kind.
#[derive(Clone, Debug, PartialEq, Eq)]
pub struct Column {
    pub kind: Kind,
    pub cells: Vec<Cell>,
}

impl Column {
    pub open spec fn wf(&self) -> bool {
        forall|i: int| 0 <= i < self.cells@.len() ==> rows::kind_of((#[trigger] self.cells@[i])@) == self.kind
    }

    /// Whether the column holds values.
    pub open spec fn holds(&self, values: Seq<Seq<u8>>) -> bool {
        &&& self.cells@.len() == values.len()
        &&& forall|i: int| 0 <= i < self.cells@.len() ==> ipc::cell_bytes((#[trigger] self.cells@[i])@) == values[i]
    }
}

/// Kinds have types of their own.
proof fn types_apart(a: Kind, b: Kind)
    ensures
        ipc::arrow_type(a) == ipc::arrow_type(b) ==> a == b,
{
    reveal_strlit("Utf8");
    reveal_strlit("UInt64");
    reveal_strlit("UInt32");
    reveal_strlit("Binary");
    assert("Utf8"@.len() == 4 && "UInt64"@.len() == 6 && "UInt32"@.len() == 6 && "Binary"@.len() == 6);
    assert("UInt64"@[4] == '6' && "UInt32"@[4] == '3');
    assert("UInt64"@[0] == 'U' && "UInt32"@[0] == 'U' && "Binary"@[0] == 'B');
    match a {
        Kind::Text => {},
        Kind::Wide => {},
        Kind::Narrow => {},
        Kind::Binary => {},
    }
}

/// Values of one kind with the same bytes are the same.
proof fn same_bytes_same_cell(a: CellModel, b: CellModel)
    requires
        rows::kind_of(a) == rows::kind_of(b),
        ipc::cell_bytes(a) == ipc::cell_bytes(b),
    ensures
        a == b,
{
    match (a, b) {
        (CellModel::Text(s), CellModel::Text(t)) => {
            text::utf8_injective(s, t);
        },
        (CellModel::Wide(m), CellModel::Wide(n)) => {
            vstd::bytes::lemma_auto_spec_u64_to_from_le_bytes();
            assert(vstd::bytes::spec_u64_from_le_bytes(ipc::cell_bytes(a)) == m);
            assert(vstd::bytes::spec_u64_from_le_bytes(ipc::cell_bytes(b)) == n);
        },
        (CellModel::Narrow(m), CellModel::Narrow(n)) => {
            vstd::bytes::lemma_auto_spec_u32_to_from_le_bytes();
            assert(vstd::bytes::spec_u32_to_le_bytes(m).len() == vstd::bytes::spec_u32_to_le_bytes(n).len());
        },
        _ => {},
    }
}

fn text_column(values: Vec<String>) -> (c: Column)
    ensures
        c.wf(),
        c.kind == Kind::Text,
        c.holds(ipc::text_cells(text::texts(values@))),
{
    let mut cells: Vec<Cell> = Vec::new();
    let mut i: usize = 0;
    while i < values.len()
        invariant
            i <= values@.len(),
            cells@.len() == i,
            forall|j: int| 0 <= j < i ==> (#[trigger] cells@[j])@ == CellModel::Text(values@[j]@),
        decreases values.len() - i,
    {
        cells.push(Cell::Text(text::copy_str(values[i].as_str())));
        i = i + 1;
    }
    Column { kind: Kind::Text, cells }
}

fn binary_column(values: Vec<Vec<u8>>) -> (c: Column)
    ensures
        c.wf(),
        c.kind == Kind::Binary,
        c.holds(hllset::token_views(values@)),
{
    let mut cells: Vec<Cell> = Vec::new();
    let mut i: usize = 0;
    while i < values.len()
        invariant
            i <= values@.len(),
            cells@.len() == i,
            forall|j: int| 0 <= j < i ==> (#[trigger] cells@[j])@ == CellModel::Binary(values@[j]@),
        decreases values.len() - i,
    {
        cells.push(Cell::Binary(lut::copy_bytes(values[i].as_slice())));
        i = i + 1;
    }
    Column { kind: Kind::Binary, cells }
}

fn wide_column(values: Vec<u64>) -> (c: Column)
    ensures
        c.wf(),
        c.kind == Kind::Wide,
        c.holds(ipc::wide_cells(values@)),
{
    let mut cells: Vec<Cell> = Vec::new();
    let mut i: usize = 0;
    while i < values.len()
        invariant
            i <= values@.len(),
            cells@.len() == i,
            forall|j: int| 0 <= j < i ==> (#[trigger] cells@[j])@ == CellModel::Wide(values@[j]),
        decreases values.len() - i,
    {
        cells.push(Cell::Wide(values[i]));
        i = i + 1;
    }
    Column { kind: Kind::Wide, cells }
}

fn narrow_column(values: Vec<u32>) -> (c: Column)
    ensures
        c.wf(),
        c.kind == Kind::Narrow,
        c.holds(ipc::narrow_cells(values@)),
{
    let mut cells: Vec<Cell> = Vec::new();
    let mut i: usize = 0;
    while i < values.len()
        invariant
            i <= values@.len(),
            cells@.len() == i,
            forall|j: int| 0 <= j < i ==> (#[trigger] cells@[j])@ == CellModel::Narrow(values@[j]),
        decreases values.len() - i,
    {
        cells.push(Cell::Narrow(values[i]));
        i = i + 1;
    }
    Column { kind: Kind::Narrow, cells }
}

/// The column that Arrow holds, where it is of a kind.
fn read_column(data: ArrayData) -> (c: Option<Column>)
    ensures
        c is Some <==> exists|k: Kind| ipc::type_in(data) == #[trigger] ipc::arrow_type(k),
        c matches Some(col) ==> col.wf() && ipc::type_in(data) == ipc::arrow_type(col.kind) && col.holds(ipc::cells_in(data)),
{
    let name = column_type(&data);
    let word = text::chars_of(name.as_str());
    if text::spells(word.as_slice(), "Utf8") {
        assert(ipc::type_in(data) == ipc::arrow_type(Kind::Text));
        Some(text_column(read_texts(data)))
    } else if text::spells(word.as_slice(), "UInt64") {
        assert(ipc::type_in(data) == ipc::arrow_type(Kind::Wide));
        Some(wide_column(read_wides(data)))
    } else if text::spells(word.as_slice(), "UInt32") {
        assert(ipc::type_in(data) == ipc::arrow_type(Kind::Narrow));
        Some(narrow_column(read_narrows(data)))
    } else if text::spells(word.as_slice(), "Binary") {
        assert(ipc::type_in(data) == ipc::arrow_type(Kind::Binary));
        Some(binary_column(read_binaries(data)))
    } else {
        None
    }
}

/// Whether columns are of one length.
pub open spec fn even(columns: Seq<Column>) -> bool {
    forall|i: int, j: int|
        0 <= i < columns.len() && 0 <= j < columns.len() ==> (#[trigger] columns[i]).cells@.len() == (
        #[trigger] columns[j]).cells@.len()
}

/// Whether a batch is made of columns with names.
pub open spec fn made_of(b: Batch, names: Seq<Seq<char>>, columns: Seq<Column>) -> bool {
    &&& b.wf()
    &&& b.names() == names
    &&& b.fields@.len() == columns.len()
    &&& forall|c: int|
        0 <= c < columns.len() ==> (#[trigger] columns[c]).kind == b.kinds()[c] && columns[c].cells@.len()
            == b.spec_rows().len()
    &&& columns.len() == 0 ==> b.spec_rows().len() == 0
    &&& forall|i: int, c: int|
        0 <= i < b.spec_rows().len() && 0 <= c < columns.len() ==> #[trigger] b.spec_rows()[i][c]
            == columns[c].cells@[i]@
}

/// One row of columns.
fn row_across(columns: &Vec<Column>, i: usize, Ghost(kinds): Ghost<Seq<Kind>>) -> (row: Row)
    requires
        forall|c: int| 0 <= c < columns@.len() ==> i < (#[trigger] columns@[c]).cells@.len() && columns@[c].wf(),
        kinds == columns@.map_values(|c: Column| c.kind),
    ensures
        rows::row_fits(row@, kinds),
        row@.len() == columns@.len(),
        forall|c: int| 0 <= c < columns@.len() ==> #[trigger] row@[c] == columns@[c].cells@[i as int]@,
{
    let mut cells: Vec<Cell> = Vec::new();
    let mut c: usize = 0;
    while c < columns.len()
        invariant
            c <= columns@.len(),
            cells@.len() == c,
            forall|c: int| 0 <= c < columns@.len() ==> i < (#[trigger] columns@[c]).cells@.len() && columns@[c].wf(),
            forall|d: int| 0 <= d < c ==> (#[trigger] cells@[d])@ == columns@[d].cells@[i as int]@,
        decreases columns.len() - c,
    {
        cells.push(columns[c].cells[i].copy());
        c = c + 1;
    }
    let row = Row { cells };
    proof {
        let found = row@.map_values(|x: CellModel| rows::kind_of(x));
        assert forall|d: int| 0 <= d < columns@.len() implies found[d] == kinds[d] by {
            assert(row@[d] == columns@[d].cells@[i as int]@);
            assert(columns@[d].wf());
        }
        assert(found =~= kinds);
    }
    row
}

/// The batch of columns with names, where there are as many names as columns and
/// these are of one length.
pub fn assemble(names: Vec<String>, columns: Vec<Column>) -> (r: Option<Batch>)
    requires
        forall|c: int| 0 <= c < columns@.len() ==> (#[trigger] columns@[c]).wf(),
    ensures
        r is Some <==> names@.len() == columns@.len() && even(columns@),
        r is Some ==> made_of(r->0, text::texts(names@), columns@),
{
    if names.len() != columns.len() {
        return None;
    }
    let n = if columns.len() == 0 {
        0usize
    } else {
        columns[0].cells.len()
    };
    let mut fields: Vec<Field> = Vec::new();
    let mut c: usize = 0;
    while c < columns.len()
        invariant
            c <= columns@.len(),
            names@.len() == columns@.len(),
            fields@.len() == c,
            columns@.len() > 0 ==> n == columns@[0].cells@.len(),
            forall|d: int| 0 <= d < c ==> (#[trigger] columns@[d]).cells@.len() == n,
            forall|d: int| 0 <= d < c ==> (#[trigger] fields@[d]).name@ == names@[d]@ && fields@[d].kind == columns@[d].kind,
        decreases columns.len() - c,
    {
        if columns[c].cells.len() != n {
            assert(columns@[c as int].cells@.len() != columns@[0].cells@.len());
            return None;
        }
        fields.push(rows::field(names[c].as_str(), columns[c].kind));
        c = c + 1;
    }
    let ghost kinds = columns@.map_values(|c: Column| c.kind);
    let mut rows: Vec<Row> = Vec::new();
    let mut i: usize = 0;
    while i < n
        invariant
            i <= n,
            rows@.len() == i,
            kinds == columns@.map_values(|c: Column| c.kind),
            forall|d: int| 0 <= d < columns@.len() ==> (#[trigger] columns@[d]).cells@.len() == n && columns@[d].wf(),
            forall|j: int| 0 <= j < i ==> rows::row_fits((#[trigger] rows@[j])@, kinds),
            forall|j: int, d: int|
                0 <= j < i && 0 <= d < columns@.len() ==> #[trigger] rows@[j]@[d] == columns@[d].cells@[j]@,
        decreases n - i,
    {
        let row = row_across(&columns, i, Ghost(kinds));
        rows.push(row);
        i = i + 1;
    }
    let b = Batch { fields, rows };
    proof {
        assert(b.names() =~= text::texts(names@));
        assert(b.kinds() =~= kinds);
        assert forall|j: int| 0 <= j < b.rows@.len() implies rows::row_fits(#[trigger] b.spec_rows()[j], b.kinds()) by {
            assert(rows::row_fits(rows@[j]@, kinds));
        }
        assert forall|j: int, d: int| 0 <= j < b.spec_rows().len() && 0 <= d < columns@.len() implies #[trigger] b.spec_rows()[j][d]
            == columns@[d].cells@[j]@ by {
            assert(rows@[j]@[d] == columns@[d].cells@[j]@);
        }
    }
    Some(b)
}

/// The one batch of a file; an error where it holds none or more.
pub fn single<T>(list: Vec<T>) -> (r: Result<T, CacheError>)
    ensures
        match r {
            Ok(x) => list@ == seq![x],
            Err(CacheError::EmptyIpc) => list@.len() == 0,
            Err(CacheError::MultiBatchIpc) => list@.len() > 1,
            Err(_) => false,
        },
{
    let mut list = list;
    if list.len() > 1 {
        return Err(CacheError::MultiBatchIpc);
    }
    match list.pop() {
        Some(x) => {
            Ok(x)
        },
        None => Err(CacheError::EmptyIpc),
    }
}

/// Batches with the same columns hold the same rows.
proof fn same_columns_same_batch(out: Batch, b: Batch, columns: Seq<Column>)
    requires
        ipc::writable(b),
        made_of(out, b.names(), columns),
        columns.len() == b.fields@.len(),
        forall|c: int|
            0 <= c < columns.len() ==> (#[trigger] columns[c]).wf() && ipc::arrow_type(columns[c].kind) == ipc::arrow_type(
                b.kinds()[c],
            ) && columns[c].holds(ipc::column_of(b.spec_rows(), c)),
    ensures
        out.names() == b.names(),
        out.kinds() == b.kinds(),
        out.spec_rows() == b.spec_rows(),
{
    assert forall|c: int| 0 <= c < columns.len() implies out.kinds()[c] == b.kinds()[c] by {
        assert(columns[c].wf());
        types_apart(columns[c].kind, b.kinds()[c]);
    }
    assert(out.kinds() =~= b.kinds());
    assert(columns[0].wf());
    assert(out.spec_rows().len() == b.spec_rows().len());
    assert forall|i: int| 0 <= i < out.spec_rows().len() implies out.spec_rows()[i] == b.spec_rows()[i] by {
        let x = out.spec_rows()[i];
        let y = b.spec_rows()[i];
        assert(rows::row_fits(x, out.kinds()));
        assert(rows::row_fits(y, b.kinds()));
        assert(x.map_values(|m: CellModel| rows::kind_of(m)).len() == x.len());
        assert(y.map_values(|m: CellModel| rows::kind_of(m)).len() == y.len());
        assert forall|c: int| 0 <= c < x.len() implies x[c] == y[c] by {
            assert(columns[c].wf());
            assert(out.spec_rows()[i][c] == columns[c].cells@[i]@);
            assert(ipc::cell_bytes(columns[c].cells@[i]@) == ipc::column_of(b.spec_rows(), c)[i]);
            assert(x.map_values(|m: CellModel| rows::kind_of(m))[c] == rows::kind_of(x[c]));
            assert(y.map_values(|m: CellModel| rows::kind_of(m))[c] == rows::kind_of(y[c]));
            same_bytes_same_cell(x[c], y[c]);
        }
        assert(x =~= y);
    }
    assert(out.spec_rows() =~= b.spec_rows());
}

/// Whether two batches have the same columns and rows.
pub open spec fn same_batch(a: Batch, b: Batch) -> bool {
    &&& a.names() == b.names()
    &&& a.kinds() == b.kinds()
    &&& a.spec_rows() == b.spec_rows()
}

/// The batch of an IPC file. What was written as a batch is read, if it is, as that
/// batch.
pub fn from_ipc(bytes: &[u8]) -> (r: Result<Batch, CacheError>)
    requires
        readable(bytes@),
    ensures
        !marked(bytes@) ==> r is Err,
        r matches Ok(out) ==> out.wf() && forall|b: Batch, lowest_first: bool|
            #[trigger] written_as(bytes@, b, lowest_first) ==> same_batch(out, b),
        r matches Err(e) ==> e is Arrow,
{
    let list = match read_ipc(bytes) {
        Ok(list) => list,
        Err(e) => {
            return Err(CacheError::Arrow(ipc::error_text(&e)));
        },
    };
    let ghost (b0, l0) = choose|b: Batch, l: bool| written_as(bytes@, b, l);
    let (names, data) = match single(list) {
        Ok(x) => x,
        Err(e) => {
            assert(written_as(bytes@, b0, l0));
            return Err(e);
        },
    };
    let ghost all = data@;
    let mut data = data;
    let mut columns: Vec<Column> = Vec::new();
    proof {
        assert(all.skip(0) =~= all);
    }
    loop
        invariant
            columns@.len() + data@.len() == all.len(),
            data@ == all.take(data@.len() as int),
            forall|c: int|
                0 <= c < columns@.len() ==> (#[trigger] columns@[c]).wf() && ipc::arrow_type(columns@[c].kind) == ipc::type_in(
                    all[all.len() - 1 - c],
                ) && columns@[c].holds(ipc::cells_in(all[all.len() - 1 - c])),
        ensures
            data@.len() == 0,
        decreases data.len(),
    {
        match data.pop() {
            Some(d) => {
                proof {
                    assert(d == all[all.len() - 1 - columns@.len()]);
                    assert(data@ =~= all.take(data@.len() as int));
                }
                match read_column(d) {
                    Some(c) => {
                        columns.push(c);
                    },
                    None => {
                        return Err(CacheError::Arrow(text::copy_str("unexpected column type")));
                    },
                }
            },
            None => {
                break;
            },
        }
    }
    let columns = reversed(columns);
    match assemble(names, columns) {
        Some(out) => {
            proof {
                assert forall|b: Batch, l: bool| #[trigger] written_as(bytes@, b, l) implies same_batch(out, b) by {
                    let types = b.kinds().map_values(|k: Kind| ipc::arrow_type(k));
                    assert(ipc::types_in(all) == types);
                    assert forall|c: int| 0 <= c < columns@.len() implies (#[trigger] columns@[c]).wf() && ipc::arrow_type(
                        columns@[c].kind,
                    ) == ipc::arrow_type(b.kinds()[c]) && columns@[c].holds(ipc::column_of(b.spec_rows(), c)) by {
                        assert(ipc::types_in(all)[c] == ipc::type_in(all[c]));
                        assert(types[c] == ipc::arrow_type(b.kinds()[c]));
                        assert(ipc::columns_in(all)[c] == ipc::cells_in(all[c]));
                    }
                    assert(columns@.len() == b.fields@.len()) by {
                        assert(ipc::types_in(all).len() == all.len());
                    }
                    same_columns_same_batch(out, b, columns@);
                }
            }
            Ok(out)
        },
        None => Err(CacheError::Arrow(text::copy_str("columns of different lengths"))),
    }
}

/// The columns from the last to the first.
fn reversed(columns: Vec<Column>) -> (out: Vec<Column>)
    ensures
        out@ == columns@.reverse(),
{
    let ghost all = columns@;
    let mut columns = columns;
    let mut out: Vec<Column> = Vec::new();
    while columns.len() > 0
        invariant
            columns@ == all.take(columns@.len() as int),
            out@ + columns@.reverse() == all.reverse(),
        decreases columns.len(),
    {
        let ghost before = columns@;
        match columns.pop() {
            Some(c) => {
                let ghost had = out@;
                out.push(c);
                proof {
                    assert(before.reverse() =~= seq![c] + columns@.reverse());
                    assert(out@ + columns@.reverse() =~= had + before.reverse());
                }
            },
            None => {},
        }
    }
    proof {
        assert(columns@.reverse() =~= Seq::empty());
        assert(out@ + columns@.reverse() =~= out@);
    }
    out
}

/// The file of a batch, and what a reader finds in it.
pub fn settle(batch: &Batch) -> (r: Result<(Vec<u8>, Batch), CacheError>)
    requires
        batch.wf(),
    ensures
        r is Ok ==> same_batch(r->Ok_0.1, *batch),
        r is Ok ==> exists|lowest_first: bool| #[trigger] written_as(r->Ok_0.0@, *batch, lowest_first),
        r matches Err(e) ==> e is Arrow,
        !ipc::writable(*batch) ==> r is Err,
{
    match ipc::to_ipc(batch) {
        Ok(bytes) => {
            let ghost l = choose|l: bool| bytes@ == #[trigger] ipc::batch_ipc(*batch, l);
            assert(written_as(bytes@, *batch, l));
            match from_ipc(bytes.as_slice()) {
                Ok(out) => {
                    let p = (bytes, out);
                    assert(written_as(p.0@, *batch, l));
                    assert(same_batch(p.1, *batch));
                    let r = Ok(p);
                    assert(written_as(r->Ok_0.0@, *batch, l));
                    r
                },
                Err(e) => Err(e),
            }
        },
        Err(e) => Err(e),
    }
}

} // verus!
