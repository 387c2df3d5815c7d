//! The columns of each table, and its rows.

use vstd::prelude::*;

use crate::cache::rows::Batch;
use crate::cache::rows::Cell;
use crate::cache::rows::CellModel;
use crate::cache::rows::Field;
use crate::cache::rows::Kind;
use crate::cache::rows::Row;
use crate::cache::rows;
use crate::lut;
use crate::text;
use crate::search;

verus! {

/// A type of rows with its columns.
pub trait TableRow: Sized {
    /// The names of the columns.
    spec fn spec_names() -> Seq<Seq<char>>;

    /// The kinds of the columns.
    spec fn spec_kinds() -> Seq<Kind>;

    /// The values of the row.
    spec fn spec_cells(&self) -> Seq<CellModel>;

    fn columns() -> (fields: Vec<Field>)
        ensures
            rows::field_names(fields@) == Self::spec_names(),
            rows::field_kinds(fields@) == Self::spec_kinds(),
    ;

    fn to_row(&self) -> (row: Row)
        ensures
            row@ == self.spec_cells(),
            rows::row_fits(row@, Self::spec_kinds()),
    ;

    fn from_row(row: &Row) -> (r: Self)
        requires
            rows::row_fits(row@, Self::spec_kinds()),
        ensures
            r.spec_cells() == row@,
    ;
}

/// The values of a list of rows.
pub open spec fn cells_of_rows<T: TableRow>(rows: Seq<T>) -> Seq<Seq<CellModel>> {
    rows.map_values(|r: T| r.spec_cells())
}

/// Whether this is the canonical batch of a list of rows.
pub open spec fn batch_of<T: TableRow>(b: Batch, rows: Seq<T>) -> bool {
    b.is_of(T::spec_names(), T::spec_kinds(), cells_of_rows(rows))
}

fn build_batch<T: TableRow>(rows: &Vec<T>) -> (b: Batch)
    ensures
        batch_of(b, rows@),
{
    let mut list: Vec<Row> = Vec::new();
    let mut i: usize = 0;
    while i < rows.len()
        invariant
            i <= rows@.len(),
            list@.len() == i,
            forall|j: int|
                0 <= j < i ==> (#[trigger] list@[j])@ == rows@[j].spec_cells() && rows::row_fits(list@[j]@, T::spec_kinds()),
        decreases rows.len() - i,
    {
        list.push(rows[i].to_row());
        i = i + 1;
    }
    let fields = T::columns();
    proof {
        assert(rows::row_views(list@) =~= cells_of_rows(rows@));
        assert forall|j: int| 0 <= j < list@.len() implies rows::row_fits(#[trigger] rows::row_views(list@)[j], rows::field_kinds(fields@)) by {
            assert(rows::row_views(list@)[j] == list@[j]@);
        }
    }
    rows::canonical_batch(fields, list)
}

fn read_rows<T: TableRow>(b: &Batch) -> (rows: Vec<T>)
    requires
        b.wf(),
        b.kinds() == T::spec_kinds(),
    ensures
        cells_of_rows(rows@) == b.spec_rows(),
{
    let mut rows: Vec<T> = Vec::new();
    let mut i: usize = 0;
    while i < b.rows.len()
        invariant
            i <= b.rows@.len(),
            b.wf(),
            b.kinds() == T::spec_kinds(),
            rows@.len() == i,
            forall|j: int| 0 <= j < i ==> (#[trigger] rows@[j]).spec_cells() == b.rows@[j]@,
        decreases b.rows.len() - i,
    {
        proof {
            assert(rows::row_fits(b.spec_rows()[i as int], b.kinds()));
        }
        rows.push(T::from_row(&b.rows[i]));
        i = i + 1;
    }
    proof {
        assert(cells_of_rows(rows@) =~= b.spec_rows());
    }
    rows
}

impl TableRow for (String, String, u64) {
    open spec fn spec_names() -> Seq<Seq<char>> {
        seq!["name"@, "key"@, "th"@]
    }

    open spec fn spec_kinds() -> Seq<Kind> {
        seq![Kind::Text, Kind::Text, Kind::Wide]
    }

    open spec fn spec_cells(&self) -> Seq<CellModel> {
        seq![CellModel::Text(self.0@), CellModel::Text(self.1@), CellModel::Wide(self.2)]
    }

    fn columns() -> (fields: Vec<Field>) {
        let mut fields: Vec<Field> = Vec::new();
        fields.push(rows::field("name", Kind::Text));
        fields.push(rows::field("key", Kind::Text));
        fields.push(rows::field("th", Kind::Wide));
        proof {
            assert(rows::field_names(fields@) =~= Self::spec_names());
            assert(rows::field_kinds(fields@) =~= Self::spec_kinds());
        }
        fields
    }

    fn to_row(&self) -> (row: Row) {
        let mut cells: Vec<Cell> = Vec::new();
        cells.push(Cell::Text(text::copy_str(self.0.as_str())));
        cells.push(Cell::Text(text::copy_str(self.1.as_str())));
        cells.push(Cell::Wide(self.2));
        proof {
            assert(rows::cell_views(cells@) =~= self.spec_cells());
            assert(self.spec_cells().map_values(|c: CellModel| rows::kind_of(c)) =~= Self::spec_kinds());
        }
        Row { cells }
    }

    fn from_row(row: &Row) -> (r: Self) {
        proof {
            let kinds = row@.map_values(|c: CellModel| rows::kind_of(c));
            assert(kinds.len() == row.cells@.len());
            assert(kinds[0] == rows::kind_of(row.cells@[0]@));
            assert(kinds[1] == rows::kind_of(row.cells@[1]@));
            assert(kinds[2] == rows::kind_of(row.cells@[2]@));
        }
        let r = (text_cell(&row.cells[0]), text_cell(&row.cells[1]), wide_cell(&row.cells[2]));
        proof {
            assert(r.spec_cells() =~= row@);
        }
        r
    }
}

impl TableRow for (u32, Vec<u8>) {
    open spec fn spec_names() -> Seq<Seq<char>> {
        seq!["bit"@, "token"@]
    }

    open spec fn spec_kinds() -> Seq<Kind> {
        seq![Kind::Narrow, Kind::Binary]
    }

    open spec fn spec_cells(&self) -> Seq<CellModel> {
        seq![CellModel::Narrow(self.0), CellModel::Binary(self.1@)]
    }

    fn columns() -> (fields: Vec<Field>) {
        let mut fields: Vec<Field> = Vec::new();
        fields.push(rows::field("bit", Kind::Narrow));
        fields.push(rows::field("token", Kind::Binary));
        proof {
            assert(rows::field_names(fields@) =~= Self::spec_names());
            assert(rows::field_kinds(fields@) =~= Self::spec_kinds());
        }
        fields
    }

    fn to_row(&self) -> (row: Row) {
        let mut cells: Vec<Cell> = Vec::new();
        cells.push(Cell::Narrow(self.0));
        cells.push(Cell::Binary(lut::copy_bytes(self.1.as_slice())));
        proof {
            assert(rows::cell_views(cells@) =~= self.spec_cells());
            assert(self.spec_cells().map_values(|c: CellModel| rows::kind_of(c)) =~= Self::spec_kinds());
        }
        Row { cells }
    }

    fn from_row(row: &Row) -> (r: Self) {
        proof {
            let kinds = row@.map_values(|c: CellModel| rows::kind_of(c));
            assert(kinds.len() == row.cells@.len());
            assert(kinds[0] == rows::kind_of(row.cells@[0]@));
            assert(kinds[1] == rows::kind_of(row.cells@[1]@));
        }
        let r = (narrow_cell(&row.cells[0]), binary_cell(&row.cells[1]));
        proof {
            assert(r.spec_cells() =~= row@);
        }
        r
    }
}

impl TableRow for (String, String, String) {
    open spec fn spec_names() -> Seq<Seq<char>> {
        seq!["h"@, "lut"@, "view"@]
    }

    open spec fn spec_kinds() -> Seq<Kind> {
        seq![Kind::Text, Kind::Text, Kind::Text]
    }

    open spec fn spec_cells(&self) -> Seq<CellModel> {
        seq![CellModel::Text(self.0@), CellModel::Text(self.1@), CellModel::Text(self.2@)]
    }

    fn columns() -> (fields: Vec<Field>) {
        let mut fields: Vec<Field> = Vec::new();
        fields.push(rows::field("h", Kind::Text));
        fields.push(rows::field("lut", Kind::Text));
        fields.push(rows::field("view", Kind::Text));
        proof {
            assert(rows::field_names(fields@) =~= Self::spec_names());
            assert(rows::field_kinds(fields@) =~= Self::spec_kinds());
        }
        fields
    }

    fn to_row(&self) -> (row: Row) {
        let mut cells: Vec<Cell> = Vec::new();
        cells.push(Cell::Text(text::copy_str(self.0.as_str())));
        cells.push(Cell::Text(text::copy_str(self.1.as_str())));
        cells.push(Cell::Text(text::copy_str(self.2.as_str())));
        proof {
            assert(rows::cell_views(cells@) =~= self.spec_cells());
            assert(self.spec_cells().map_values(|c: CellModel| rows::kind_of(c)) =~= Self::spec_kinds());
        }
        Row { cells }
    }

    fn from_row(row: &Row) -> (r: Self) {
        proof {
            let kinds = row@.map_values(|c: CellModel| rows::kind_of(c));
            assert(kinds.len() == row.cells@.len());
            assert(kinds[0] == rows::kind_of(row.cells@[0]@));
            assert(kinds[1] == rows::kind_of(row.cells@[1]@));
            assert(kinds[2] == rows::kind_of(row.cells@[2]@));
        }
        let r = (text_cell(&row.cells[0]), text_cell(&row.cells[1]), text_cell(&row.cells[2]));
        proof {
            assert(r.spec_cells() =~= row@);
        }
        r
    }
}

impl TableRow for (u32, u32, String) {
    open spec fn spec_names() -> Seq<Seq<char>> {
        seq!["level"@, "index"@, "hash"@]
    }

    open spec fn spec_kinds() -> Seq<Kind> {
        seq![Kind::Narrow, Kind::Narrow, Kind::Text]
    }

    open spec fn spec_cells(&self) -> Seq<CellModel> {
        seq![CellModel::Narrow(self.0), CellModel::Narrow(self.1), CellModel::Text(self.2@)]
    }

    fn columns() -> (fields: Vec<Field>) {
        let mut fields: Vec<Field> = Vec::new();
        fields.push(rows::field("level", Kind::Narrow));
        fields.push(rows::field("index", Kind::Narrow));
        fields.push(rows::field("hash", Kind::Text));
        proof {
            assert(rows::field_names(fields@) =~= Self::spec_names());
            assert(rows::field_kinds(fields@) =~= Self::spec_kinds());
        }
        fields
    }

    fn to_row(&self) -> (row: Row) {
        let mut cells: Vec<Cell> = Vec::new();
        cells.push(Cell::Narrow(self.0));
        cells.push(Cell::Narrow(self.1));
        cells.push(Cell::Text(text::copy_str(self.2.as_str())));
        proof {
            assert(rows::cell_views(cells@) =~= self.spec_cells());
            assert(self.spec_cells().map_values(|c: CellModel| rows::kind_of(c)) =~= Self::spec_kinds());
        }
        Row { cells }
    }

    fn from_row(row: &Row) -> (r: Self) {
        proof {
            let kinds = row@.map_values(|c: CellModel| rows::kind_of(c));
            assert(kinds.len() == row.cells@.len());
            assert(kinds[0] == rows::kind_of(row.cells@[0]@));
            assert(kinds[1] == rows::kind_of(row.cells@[1]@));
            assert(kinds[2] == rows::kind_of(row.cells@[2]@));
        }
        let r = (narrow_cell(&row.cells[0]), narrow_cell(&row.cells[1]), text_cell(&row.cells[2]));
        proof {
            assert(r.spec_cells() =~= row@);
        }
        r
    }
}

impl TableRow for (u64, u32) {
    open spec fn spec_names() -> Seq<Seq<char>> {
        seq!["turn"@, "id"@]
    }

    open spec fn spec_kinds() -> Seq<Kind> {
        seq![Kind::Wide, Kind::Narrow]
    }

    open spec fn spec_cells(&self) -> Seq<CellModel> {
        seq![CellModel::Wide(self.0), CellModel::Narrow(self.1)]
    }

    fn columns() -> (fields: Vec<Field>) {
        let mut fields: Vec<Field> = Vec::new();
        fields.push(rows::field("turn", Kind::Wide));
        fields.push(rows::field("id", Kind::Narrow));
        proof {
            assert(rows::field_names(fields@) =~= Self::spec_names());
            assert(rows::field_kinds(fields@) =~= Self::spec_kinds());
        }
        fields
    }

    fn to_row(&self) -> (row: Row) {
        let mut cells: Vec<Cell> = Vec::new();
        cells.push(Cell::Wide(self.0));
        cells.push(Cell::Narrow(self.1));
        proof {
            assert(rows::cell_views(cells@) =~= self.spec_cells());
            assert(self.spec_cells().map_values(|c: CellModel| rows::kind_of(c)) =~= Self::spec_kinds());
        }
        Row { cells }
    }

    fn from_row(row: &Row) -> (r: Self) {
        proof {
            let kinds = row@.map_values(|c: CellModel| rows::kind_of(c));
            assert(kinds.len() == row.cells@.len());
            assert(kinds[0] == rows::kind_of(row.cells@[0]@));
            assert(kinds[1] == rows::kind_of(row.cells@[1]@));
        }
        let r = (wide_cell(&row.cells[0]), narrow_cell(&row.cells[1]));
        proof {
            assert(r.spec_cells() =~= row@);
        }
        r
    }
}

impl TableRow for (String, String) {
    open spec fn spec_names() -> Seq<Seq<char>> {
        seq!["key"@, "value"@]
    }

    open spec fn spec_kinds() -> Seq<Kind> {
        seq![Kind::Text, Kind::Text]
    }

    open spec fn spec_cells(&self) -> Seq<CellModel> {
        seq![CellModel::Text(self.0@), CellModel::Text(self.1@)]
    }

    fn columns() -> (fields: Vec<Field>) {
        let mut fields: Vec<Field> = Vec::new();
        fields.push(rows::field("key", Kind::Text));
        fields.push(rows::field("value", Kind::Text));
        proof {
            assert(rows::field_names(fields@) =~= Self::spec_names());
            assert(rows::field_kinds(fields@) =~= Self::spec_kinds());
        }
        fields
    }

    fn to_row(&self) -> (row: Row) {
        let mut cells: Vec<Cell> = Vec::new();
        cells.push(Cell::Text(text::copy_str(self.0.as_str())));
        cells.push(Cell::Text(text::copy_str(self.1.as_str())));
        proof {
            assert(rows::cell_views(cells@) =~= self.spec_cells());
            assert(self.spec_cells().map_values(|c: CellModel| rows::kind_of(c)) =~= Self::spec_kinds());
        }
        Row { cells }
    }

    fn from_row(row: &Row) -> (r: Self) {
        proof {
            let kinds = row@.map_values(|c: CellModel| rows::kind_of(c));
            assert(kinds.len() == row.cells@.len());
            assert(kinds[0] == rows::kind_of(row.cells@[0]@));
            assert(kinds[1] == rows::kind_of(row.cells@[1]@));
        }
        let r = (text_cell(&row.cells[0]), text_cell(&row.cells[1]));
        proof {
            assert(r.spec_cells() =~= row@);
        }
        r
    }
}

fn text_cell(c: &Cell) -> (x: String)
    requires
        rows::kind_of(c@) == Kind::Text,
    ensures
        c@ == CellModel::Text(x@),
{
    match c {
        Cell::Text(s) => text::copy_str(s.as_str()),
        _ => String::new(),
    }
}

fn wide_cell(c: &Cell) -> (x: u64)
    requires
        rows::kind_of(c@) == Kind::Wide,
    ensures
        c@ == CellModel::Wide(x),
{
    match c {
        Cell::Wide(s) => *s,
        _ => 0,
    }
}

fn narrow_cell(c: &Cell) -> (x: u32)
    requires
        rows::kind_of(c@) == Kind::Narrow,
    ensures
        c@ == CellModel::Narrow(x),
{
    match c {
        Cell::Narrow(s) => *s,
        _ => 0,
    }
}

fn binary_cell(c: &Cell) -> (x: Vec<u8>)
    requires
        rows::kind_of(c@) == Kind::Binary,
    ensures
        c@ == CellModel::Binary(x@),
{
    match c {
        Cell::Binary(s) => lut::copy_bytes(s.as_slice()),
        _ => Vec::new(),
    }
}

/// The columns of a `hllset_lut` table.
pub fn hllset_lut_schema() -> (fields: Vec<Field>)
    ensures
        rows::field_names(fields@) == <(String, String, u64)>::spec_names(),
        rows::field_kinds(fields@) == <(String, String, u64)>::spec_kinds(),
{
    <(String, String, u64)>::columns()
}

/// The registry of named sets: `(name, key, th)`. The canonical batch of rows.
pub fn hllset_lut_batch(rows: &Vec<(String, String, u64)>) -> (b: Batch)
    ensures
        batch_of(b, rows@),
{
    build_batch(rows)
}

/// The rows of such a batch.
pub fn hllset_lut_rows(batch: &Batch) -> (rows: Vec<(String, String, u64)>)
    requires
        batch.wf(),
        batch.kinds() == <(String, String, u64)>::spec_kinds(),
    ensures
        cells_of_rows(rows@) == batch.spec_rows(),
{
    read_rows(batch)
}

/// The columns of a `lut` table.
pub fn lut_schema() -> (fields: Vec<Field>)
    ensures
        rows::field_names(fields@) == <(u32, Vec<u8>)>::spec_names(),
        rows::field_kinds(fields@) == <(u32, Vec<u8>)>::spec_kinds(),
{
    <(u32, Vec<u8>)>::columns()
}

/// An index of tokens: `(bit, token)`. The canonical batch of rows.
pub fn lut_batch(rows: &Vec<(u32, Vec<u8>)>) -> (b: Batch)
    ensures
        batch_of(b, rows@),
{
    build_batch(rows)
}

/// The rows of such a batch.
pub fn lut_rows(batch: &Batch) -> (rows: Vec<(u32, Vec<u8>)>)
    requires
        batch.wf(),
        batch.kinds() == <(u32, Vec<u8>)>::spec_kinds(),
    ensures
        cells_of_rows(rows@) == batch.spec_rows(),
{
    read_rows(batch)
}

/// The columns of a `tree_leaves` table.
pub fn tree_leaves_schema() -> (fields: Vec<Field>)
    ensures
        rows::field_names(fields@) == <(String, String, String)>::spec_names(),
        rows::field_kinds(fields@) == <(String, String, String)>::spec_kinds(),
{
    <(String, String, String)>::columns()
}

/// The leaves of a tree: `(h, lut, view)`. The canonical batch of rows.
pub fn tree_leaves_batch(rows: &Vec<(String, String, String)>) -> (b: Batch)
    ensures
        batch_of(b, rows@),
{
    build_batch(rows)
}

/// The rows of such a batch.
pub fn tree_leaves_rows(batch: &Batch) -> (rows: Vec<(String, String, String)>)
    requires
        batch.wf(),
        batch.kinds() == <(String, String, String)>::spec_kinds(),
    ensures
        cells_of_rows(rows@) == batch.spec_rows(),
{
    read_rows(batch)
}

/// The columns of a `tree_levels` table.
pub fn tree_levels_schema() -> (fields: Vec<Field>)
    ensures
        rows::field_names(fields@) == <(u32, u32, String)>::spec_names(),
        rows::field_kinds(fields@) == <(u32, u32, String)>::spec_kinds(),
{
    <(u32, u32, String)>::columns()
}

/// The levels of a tree: `(level, index, hash)`. The canonical batch of rows.
pub fn tree_levels_batch(rows: &Vec<(u32, u32, String)>) -> (b: Batch)
    ensures
        batch_of(b, rows@),
{
    build_batch(rows)
}

/// The rows of such a batch.
pub fn tree_levels_rows(batch: &Batch) -> (rows: Vec<(u32, u32, String)>)
    requires
        batch.wf(),
        batch.kinds() == <(u32, u32, String)>::spec_kinds(),
    ensures
        cells_of_rows(rows@) == batch.spec_rows(),
{
    read_rows(batch)
}

/// The columns of a `turns` table.
pub fn turns_schema() -> (fields: Vec<Field>)
    ensures
        rows::field_names(fields@) == <(u64, u32)>::spec_names(),
        rows::field_kinds(fields@) == <(u64, u32)>::spec_kinds(),
{
    <(u64, u32)>::columns()
}

/// The ids of turns: `(turn, id)`. The canonical batch of rows.
pub fn turns_batch(rows: &Vec<(u64, u32)>) -> (b: Batch)
    ensures
        batch_of(b, rows@),
{
    build_batch(rows)
}

/// The rows of such a batch.
pub fn turns_rows(batch: &Batch) -> (rows: Vec<(u64, u32)>)
    requires
        batch.wf(),
        batch.kinds() == <(u64, u32)>::spec_kinds(),
    ensures
        cells_of_rows(rows@) == batch.spec_rows(),
{
    read_rows(batch)
}

/// Keys and values: `(key, value)`. The canonical batch of rows.
pub fn entries_batch(rows: &Vec<(String, String)>) -> (b: Batch)
    ensures
        batch_of(b, rows@),
{
    build_batch(rows)
}

/// The rows of such a batch.
pub fn entries_rows(batch: &Batch) -> (rows: Vec<(String, String)>)
    requires
        batch.wf(),
        batch.kinds() == <(String, String)>::spec_kinds(),
    ensures
        cells_of_rows(rows@) == batch.spec_rows(),
{
    read_rows(batch)
}

impl TableRow for u32 {
    open spec fn spec_names() -> Seq<Seq<char>> {
        seq!["bit"@]
    }

    open spec fn spec_kinds() -> Seq<Kind> {
        seq![Kind::Narrow]
    }

    open spec fn spec_cells(&self) -> Seq<CellModel> {
        seq![CellModel::Narrow(*self)]
    }

    fn columns() -> (fields: Vec<Field>) {
        let mut fields: Vec<Field> = Vec::new();
        fields.push(rows::field("bit", Kind::Narrow));
        proof {
            assert(rows::field_names(fields@) =~= Self::spec_names());
            assert(rows::field_kinds(fields@) =~= Self::spec_kinds());
        }
        fields
    }

    fn to_row(&self) -> (row: Row) {
        let mut cells: Vec<Cell> = Vec::new();
        cells.push(Cell::Narrow(*self));
        proof {
            assert(rows::cell_views(cells@) =~= self.spec_cells());
            assert(self.spec_cells().map_values(|c: CellModel| rows::kind_of(c)) =~= Self::spec_kinds());
        }
        Row { cells }
    }

    fn from_row(row: &Row) -> (r: Self) {
        proof {
            let kinds = row@.map_values(|c: CellModel| rows::kind_of(c));
            assert(kinds.len() == row.cells@.len());
            assert(kinds[0] == rows::kind_of(row.cells@[0]@));
        }
        let r = narrow_cell(&row.cells[0]);
        proof {
            assert(r.spec_cells() =~= row@);
        }
        r
    }
}

/// Strictly ascending numbers.
pub open spec fn climbing(s: Seq<u32>) -> bool {
    forall|i: int, j: int| 0 <= i < j < s.len() ==> #[trigger] s[i] < #[trigger] s[j]
}

/// The members of a list in order, each once.
pub fn sorted_bits(bits: &[u32]) -> (out: Vec<u32>)
    ensures
        climbing(out@),
        out@.to_set() == bits@.to_set(),
{
    let mut out: Vec<u32> = Vec::new();
    let mut i: usize = 0;
    proof {
        assert(out@.to_set() =~= bits@.take(0).to_set());
    }
    while i < bits.len()
        invariant
            i <= bits@.len(),
            climbing(out@),
            out@.to_set() == bits@.take(i as int).to_set(),
        decreases bits.len() - i,
    {
        let x = bits[i];
        let mut k: usize = out.len();
        while k > 0 && out[k - 1] > x
            invariant
                k <= out@.len(),
                forall|j: int| k <= j < out@.len() ==> #[trigger] out@[j] > x,
            decreases k,
        {
            k = k - 1;
        }
        let ghost before = out@;
        let known = k > 0 && out[k - 1] == x;
        if !known {
            out.insert(k, x);
        }
        proof {
            let shorter = bits@.take(i as int);
            let longer = bits@.take(i as int + 1);
            assert(longer =~= shorter.push(x));
            if !known {
                assert(k > 0 ==> before[k - 1] < x);
                assert forall|a: int, b: int| 0 <= a < b < out@.len() implies #[trigger] out@[a] < #[trigger] out@[b] by {
                    if b < k {
                        assert(before[a] < before[b]);
                    } else if a < k && b == k {
                        if a < k - 1 {
                            assert(before[a] < before[k - 1]);
                        }
                    } else if a < k {
                        assert(before[a] < before[b - 1]);
                    } else if a == k {
                        assert(before[b - 1] > x);
                    } else {
                        assert(before[a - 1] < before[b - 1]);
                    }
                }
            }
            assert forall|y: u32| out@.to_set().contains(y) == longer.to_set().contains(y) by {
                search::pushed_members(shorter, x, y);
                assert(before.to_set().contains(y) == shorter.to_set().contains(y));
                if known {
                    assert(before[k - 1] == x);
                } else {
                    if before.contains(y) {
                        let j = choose|j: int| 0 <= j < before.len() && before[j] == y;
                        if j < k {
                            assert(out@[j] == y);
                        } else {
                            assert(out@[j + 1] == y);
                        }
                    }
                    assert(out@[k as int] == x);
                    if out@.contains(y) {
                        let j = choose|j: int| 0 <= j < out@.len() && out@[j] == y;
                        if j < k {
                            assert(before[j] == y);
                        } else if j > k {
                            assert(before[j - 1] == y);
                        }
                    }
                }
            }
            assert(out@.to_set() =~= longer.to_set());
        }
        i = i + 1;
    }
    proof {
        assert(bits@.take(i as int) =~= bits@);
    }
    out
}

/// The columns of a sparse slice.
pub fn sparse_slice_schema() -> (fields: Vec<Field>)
    ensures
        rows::field_names(fields@) == <u32>::spec_names(),
        rows::field_kinds(fields@) == <u32>::spec_kinds(),
{
    <u32>::columns()
}

/// The bits of a set: `(bit)`. The canonical batch holds each bit once.
pub fn sparse_slice_batch(bits: &[u32]) -> (b: Batch)
    ensures
        exists|list: Seq<u32>|
            climbing(list) && list.to_set() == bits@.to_set() && #[trigger] cells_of_rows(list) == b.spec_rows(),
        b.wf(),
        b.names() == <u32>::spec_names(),
        b.kinds() == <u32>::spec_kinds(),
{
    let list = sorted_bits(bits);
    let b = build_batch(&list);
    proof {
        rows::row_rank_faithful();
        climbing_ranked(list@);
        assert(cells_of_rows(list@) == b.spec_rows());
    }
    b
}

/// Ascending numbers make rows in order.
proof fn climbing_ranked(list: Seq<u32>)
    requires
        climbing(list),
    ensures
        crate::order::ranked(cells_of_rows(list), rows::row_rank()) == cells_of_rows(list),
{
    let r = rows::row_rank();
    let cells = cells_of_rows(list);
    rows::row_rank_faithful();
    crate::order::rank_total(r);
    let leq = crate::order::rank_leq(r);
    cells.lemma_sort_by_ensures(leq);
    assert forall|i: int, j: int| 0 <= i < j < cells.len() implies leq(cells[i], cells[j]) by {
        assert(list[i] < list[j]);
        rows::number_less(2, list[i] as int, 2, list[j] as int);
        let a = r(cells[i]);
        let b = r(cells[j]);
        assert(a[0] == seq![2int, list[i] as int]);
        assert(b[0] == seq![2int, list[j] as int]);
        assert(crate::order::key_less(a, b));
        if crate::order::key_less(b, a) {
            crate::order::key_transitive(a, b, a);
            crate::order::key_irreflexive(a);
        }
    }
    vstd::seq_lib::lemma_sorted_unique(crate::order::ranked(cells, r), cells, leq);
}

/// The bits of such a batch.
pub fn sparse_slice_bits(batch: &Batch) -> (bits: Vec<u32>)
    requires
        batch.wf(),
        batch.kinds() == <u32>::spec_kinds(),
    ensures
        cells_of_rows(bits@) == batch.spec_rows(),
{
    read_rows(batch)
}

/// Building a batch of the rows that were read from a canonical batch gives the
/// batch again.
pub proof fn batch_round_trip<T: TableRow>(b: Batch, again: Batch, rows: Seq<T>, read: Seq<T>)
    requires
        batch_of(b, rows),
        cells_of_rows(read) == b.spec_rows(),
        batch_of(again, read),
    ensures
        again.names() == b.names(),
        again.kinds() == b.kinds(),
        again.spec_rows() == b.spec_rows(),
{
    let r = rows::row_rank();
    let all = cells_of_rows(rows);
    rows::row_rank_faithful();
    crate::order::rank_total(r);
    let leq = crate::order::rank_leq(r);
    all.lemma_sort_by_ensures(leq);
    let once = crate::order::ranked(all, r);
    once.lemma_sort_by_ensures(leq);
    vstd::seq_lib::lemma_sorted_unique(crate::order::ranked(once, r), once, leq);
}

} // verus!
