//! Canonical batches: typed rows in order.

use vstd::prelude::*;

use crate::order::Keyed;
use crate::order::Side;
use crate::text;
use crate::lut;
use crate::order;

verus! {

/// The kind of a column.
#[derive(Clone, Copy, Debug, PartialEq, Eq, Structural)]
pub enum Kind {
    Text,
    Wide,
    Narrow,
    Binary,
}

/// One value of a row.
#[derive(Clone, Debug, PartialEq, Eq)]
pub enum Cell {
    Text(String),
    Wide(u64),
    Narrow(u32),
    Binary(Vec<u8>),
}

/// What a value says.
#[verifier::ext_equal]
pub enum CellModel {
    Text(Seq<char>),
    Wide(u64),
    Narrow(u32),
    Binary(Seq<u8>),
}

impl View for Cell {
    type V = CellModel;

    open spec fn view(&self) -> CellModel {
        match self {
            Cell::Text(s) => CellModel::Text(s@),
            Cell::Wide(n) => CellModel::Wide(*n),
            Cell::Narrow(n) => CellModel::Narrow(*n),
            Cell::Binary(b) => CellModel::Binary(b@),
        }
    }
}

/// The kind of a value.
pub open spec fn kind_of(c: CellModel) -> Kind {
    match c {
        CellModel::Text(_) => Kind::Text,
        CellModel::Wide(_) => Kind::Wide,
        CellModel::Narrow(_) => Kind::Narrow,
        CellModel::Binary(_) => Kind::Binary,
    }
}

/// The rank of a value among values of its kind: numbers by size, texts and bytes
/// by byte order.
pub open spec fn cell_rank(c: CellModel) -> Seq<int> {
    match c {
        CellModel::Text(s) => seq![0int] + order::ints(text::utf8(s)),
        CellModel::Wide(n) => seq![1int, n as int],
        CellModel::Narrow(n) => seq![2int, n as int],
        CellModel::Binary(b) => seq![3int] + order::ints(b),
    }
}

/// One row.
#[derive(Clone, Debug, PartialEq, Eq)]
pub struct Row {
    pub cells: Vec<Cell>,
}

/// The views of a list of values.
pub open spec fn cell_views(cells: Seq<Cell>) -> Seq<CellModel> {
    cells.map_values(|c: Cell| c@)
}

impl View for Row {
    type V = Seq<CellModel>;

    open spec fn view(&self) -> Seq<CellModel> {
        cell_views(self.cells@)
    }
}

/// The views of a list of rows.
pub open spec fn row_views(rows: Seq<Row>) -> Seq<Seq<CellModel>> {
    rows.map_values(|r: Row| r@)
}

/// The rank of a row: column by column.
pub open spec fn row_rank() -> spec_fn(Seq<CellModel>) -> Seq<Seq<int>> {
    |r: Seq<CellModel>| r.map_values(|c: CellModel| cell_rank(c))
}

proof fn tagged_less(t: int, x: Seq<int>, u: int, y: Seq<int>)
    ensures
        order::lex_less(seq![t] + x, seq![u] + y) == (t < u || (t == u && order::lex_less(x, y))),
        (seq![t] + x == seq![u] + y) == (t == u && x == y),
{
    let a = seq![t] + x;
    let b = seq![u] + y;
    assert(a.drop_first() =~= x);
    assert(b.drop_first() =~= y);
    assert(a[0] == t && b[0] == u);
}

pub proof fn number_less(t: int, x: int, u: int, y: int)
    ensures
        order::lex_less(seq![t, x], seq![u, y]) == (t < u || (t == u && x < y)),
        (seq![t, x] == seq![u, y]) == (t == u && x == y),
{
    let a = seq![t, x];
    let b = seq![u, y];
    reveal_with_fuel(order::lex_less, 3);
    assert(a.drop_first() =~= seq![x]);
    assert(b.drop_first() =~= seq![y]);
    assert(seq![x].drop_first() =~= Seq::<int>::empty());
    assert(seq![y].drop_first() =~= Seq::<int>::empty());
    assert(a[0] == t && b[0] == u && a[1] == x && b[1] == y);
}

/// Values with the same rank are the same.
proof fn cell_rank_injective(a: CellModel, b: CellModel)
    requires
        cell_rank(a) == cell_rank(b),
    ensures
        a == b,
{
    assert(cell_rank(a)[0] == kind_rank(kind_of(a)) && cell_rank(b)[0] == kind_rank(kind_of(b)));
    match a {
        CellModel::Text(s) => match b {
            CellModel::Text(t) => {
                tagged_less(0, order::ints(text::utf8(s)), 0, order::ints(text::utf8(t)));
                order::ints_injective(text::utf8(s), text::utf8(t));
                text::utf8_injective(s, t);
            },
            _ => {},
        },
        CellModel::Wide(n) => {
            assert(cell_rank(a)[1] == cell_rank(b)[1]);
        },
        CellModel::Narrow(n) => {
            assert(cell_rank(a)[1] == cell_rank(b)[1]);
        },
        CellModel::Binary(s) => match b {
            CellModel::Binary(t) => {
                tagged_less(3, order::ints(s), 3, order::ints(t));
                order::ints_injective(s, t);
            },
            _ => {},
        },
    }
}

/// Rows with the same rank are the same.
pub proof fn row_rank_faithful()
    ensures
        order::faithful(row_rank()),
{
    let r = row_rank();
    assert forall|a: Seq<CellModel>, b: Seq<CellModel>| #[trigger] r(a) == #[trigger] r(b) implies a == b by {
        assert(r(a).len() == a.len() && r(b).len() == b.len());
        assert forall|i: int| 0 <= i < a.len() implies a[i] == b[i] by {
            assert(r(a)[i] == cell_rank(a[i]));
            assert(r(b)[i] == cell_rank(b[i]));
            cell_rank_injective(a[i], b[i]);
        }
        assert(a =~= b);
    }
}

/// The number of a kind in ranks.
pub open spec fn kind_rank(k: Kind) -> int {
    match k {
        Kind::Text => 0,
        Kind::Wide => 1,
        Kind::Narrow => 2,
        Kind::Binary => 3,
    }
}

impl Cell {
    /// The kind of the value.
    pub fn kind(&self) -> (k: Kind)
        ensures
            k == kind_of(self@),
    {
        match self {
            Cell::Text(_) => Kind::Text,
            Cell::Wide(_) => Kind::Wide,
            Cell::Narrow(_) => Kind::Narrow,
            Cell::Binary(_) => Kind::Binary,
        }
    }

    /// Copies the value.
    pub fn copy(&self) -> (c: Cell)
        ensures
            c@ == self@,
    {
        match self {
            Cell::Text(s) => Cell::Text(text::copy_str(s.as_str())),
            Cell::Wide(n) => Cell::Wide(*n),
            Cell::Narrow(n) => Cell::Narrow(*n),
            Cell::Binary(b) => Cell::Binary(lut::copy_bytes(b.as_slice())),
        }
    }
}

/// The number of a kind in ranks.
fn kind_number(k: Kind) -> (n: u8)
    ensures
        n == kind_rank(k),
{
    match k {
        Kind::Text => 0,
        Kind::Wide => 1,
        Kind::Narrow => 2,
        Kind::Binary => 3,
    }
}

fn compare_numbers(a: u64, b: u64) -> (side: Side)
    ensures
        side == Side::Less <==> a < b,
        side == Side::Same <==> a == b,
{
    if a < b {
        Side::Less
    } else if a == b {
        Side::Same
    } else {
        Side::Greater
    }
}

/// Compares two values by rank.
fn compare_cells(a: &Cell, b: &Cell) -> (side: Side)
    ensures
        side == Side::Less <==> order::lex_less(cell_rank(a@), cell_rank(b@)),
        side == Side::Same <==> cell_rank(a@) == cell_rank(b@),
{
    proof {
        match (a@, b@) {
            (CellModel::Text(x), CellModel::Text(y)) => {
                tagged_less(0, order::ints(text::utf8(x)), 0, order::ints(text::utf8(y)));
                if order::ints(text::utf8(x)) == order::ints(text::utf8(y)) {
                    order::ints_injective(text::utf8(x), text::utf8(y));
                }
            },
            (CellModel::Wide(x), CellModel::Wide(y)) => {
                number_less(1, x as int, 1, y as int);
            },
            (CellModel::Narrow(x), CellModel::Narrow(y)) => {
                number_less(2, x as int, 2, y as int);
            },
            (CellModel::Binary(x), CellModel::Binary(y)) => {
                tagged_less(3, order::ints(x), 3, order::ints(y));
                if order::ints(x) == order::ints(y) {
                    order::ints_injective(x, y);
                }
            },
            _ => {
                let x = cell_rank(a@);
                let y = cell_rank(b@);
                assert(x[0] == kind_rank(kind_of(a@)) && y[0] == kind_rank(kind_of(b@)));
                assert(x[0] != y[0]);
            },
        }
    }
    match (a, b) {
        (Cell::Text(x), Cell::Text(y)) => order::compare_bytes(x.as_str().as_bytes(), y.as_str().as_bytes()),
        (Cell::Wide(x), Cell::Wide(y)) => compare_numbers(*x, *y),
        (Cell::Narrow(x), Cell::Narrow(y)) => compare_numbers(*x as u64, *y as u64),
        (Cell::Binary(x), Cell::Binary(y)) => order::compare_bytes(x.as_slice(), y.as_slice()),
        _ => if kind_number(a.kind()) < kind_number(b.kind()) {
            Side::Less
        } else {
            Side::Greater
        },
    }
}

impl Keyed for Row {
    open spec fn rank(&self) -> Seq<Seq<int>> {
        row_rank()(self@)
    }

    fn before(&self, other: &Self) -> (first: bool) {
        let ghost a = self.rank();
        let ghost b = other.rank();
        let mut i: usize = 0;
        proof {
            assert(a.skip(0) =~= a);
            assert(b.skip(0) =~= b);
        }
        while i < self.cells.len() && i < other.cells.len()
            invariant
                i <= self.cells@.len(),
                i <= other.cells@.len(),
                a == self.rank(),
                b == other.rank(),
                order::key_less(a, b) == order::key_less(a.skip(i as int), b.skip(i as int)),
            decreases self.cells.len() - i,
        {
            proof {
                assert(a.skip(i as int)[0] == cell_rank(self.cells@[i as int]@));
                assert(b.skip(i as int)[0] == cell_rank(other.cells@[i as int]@));
                assert(a.skip(i as int).drop_first() =~= a.skip(i as int + 1));
                assert(b.skip(i as int).drop_first() =~= b.skip(i as int + 1));
            }
            match compare_cells(&self.cells[i], &other.cells[i]) {
                Side::Less => {
                    return true;
                },
                Side::Greater => {
                    return false;
                },
                Side::Same => {},
            }
            i = i + 1;
        }
        i < other.cells.len()
    }
}

/// A named, typed column.
#[derive(Clone, Debug, PartialEq, Eq)]
pub struct Field {
    pub name: String,
    pub kind: Kind,
}

/// The names of a list of columns.
pub open spec fn field_names(fields: Seq<Field>) -> Seq<Seq<char>> {
    fields.map_values(|f: Field| f.name@)
}

/// The kinds of a list of columns.
pub open spec fn field_kinds(fields: Seq<Field>) -> Seq<Kind> {
    fields.map_values(|f: Field| f.kind)
}

/// Whether a row has a value of the right kind for each column.
pub open spec fn row_fits(row: Seq<CellModel>, kinds: Seq<Kind>) -> bool {
    row.map_values(|c: CellModel| kind_of(c)) == kinds
}

/// Rows under named, typed columns.
#[derive(Clone, Debug, PartialEq, Eq)]
pub struct Batch {
    pub fields: Vec<Field>,
    pub rows: Vec<Row>,
}

impl Batch {
    pub open spec fn names(&self) -> Seq<Seq<char>> {
        field_names(self.fields@)
    }

    pub open spec fn kinds(&self) -> Seq<Kind> {
        field_kinds(self.fields@)
    }

    pub open spec fn spec_rows(&self) -> Seq<Seq<CellModel>> {
        row_views(self.rows@)
    }

    /// Every row fits the columns.
    pub open spec fn wf(&self) -> bool {
        forall|i: int| 0 <= i < self.rows@.len() ==> row_fits(#[trigger] self.spec_rows()[i], self.kinds())
    }

    /// Whether this is the canonical batch of some rows: under these columns, in
    /// order.
    pub open spec fn is_of(&self, names: Seq<Seq<char>>, kinds: Seq<Kind>, rows: Seq<Seq<CellModel>>) -> bool {
        &&& self.wf()
        &&& self.names() == names
        &&& self.kinds() == kinds
        &&& self.spec_rows() == order::ranked(rows, row_rank())
    }

    pub fn num_rows(&self) -> (n: usize)
        ensures
            n == self.spec_rows().len(),
    {
        self.rows.len()
    }
}

pub fn field(name: &str, kind: Kind) -> (f: Field)
    ensures
        f.name@ == name@,
        f.kind == kind,
{
    Field { name: text::copy_str(name), kind }
}

/// Puts rows in order under their columns.
pub fn canonical_batch(fields: Vec<Field>, rows: Vec<Row>) -> (b: Batch)
    requires
        forall|i: int| 0 <= i < rows@.len() ==> row_fits(#[trigger] row_views(rows@)[i], field_kinds(fields@)),
    ensures
        b.is_of(field_names(fields@), field_kinds(fields@), row_views(rows@)),
{
    let ghost items = rows@;
    let sorted = order::sort_items(rows);
    proof {
        row_rank_faithful();
        order::ranked_images(sorted@, items, |r: Row| r@, row_rank());
        assert(row_views(sorted@) =~= order::ranked(row_views(items), row_rank()));
        order::ranked_facts(row_views(items), row_rank());
        assert forall|i: int| 0 <= i < sorted@.len() implies row_fits(
            #[trigger] row_views(sorted@)[i],
            field_kinds(fields@),
        ) by {
            let r = row_views(sorted@)[i];
            assert(order::ranked(row_views(items), row_rank()).contains(r));
            let j = choose|j: int| 0 <= j < items.len() && row_views(items)[j] == r;
            assert(row_fits(row_views(items)[j], field_kinds(fields@)));
        }
    }
    Batch { fields, rows: sorted }
}

/// Values of one kind stand in the order of their numbers or of their bytes.
pub proof fn cell_order_law(m: u64, n: u64, i: u32, j: u32, s: Seq<char>, t: Seq<char>, a: Seq<u8>, b: Seq<u8>)
    ensures
        order::lex_less(cell_rank(CellModel::Wide(m)), cell_rank(CellModel::Wide(n))) <==> m < n,
        order::lex_less(cell_rank(CellModel::Narrow(i)), cell_rank(CellModel::Narrow(j))) <==> i < j,
        order::lex_less(cell_rank(CellModel::Text(s)), cell_rank(CellModel::Text(t))) <==> order::bytes_less(
            text::utf8(s),
            text::utf8(t),
        ),
        order::lex_less(cell_rank(CellModel::Binary(a)), cell_rank(CellModel::Binary(b))) <==> order::bytes_less(a, b),
{
    number_less(1, m as int, 1, n as int);
    number_less(2, i as int, 2, j as int);
    tagged_less(0, order::ints(text::utf8(s)), 0, order::ints(text::utf8(t)));
    tagged_less(3, order::ints(a), 3, order::ints(b));
}

/// Rows of one length stand in the order of the first column in which they differ.
pub proof fn row_order_law(x: Seq<CellModel>, y: Seq<CellModel>)
    requires
        x.len() == y.len(),
    ensures
        order::key_less(row_rank()(x), row_rank()(y)) <==> exists|c: int|
            0 <= c < x.len() && #[trigger] x.take(c) == y.take(c) && x[c] != y[c] && order::lex_less(cell_rank(x[c]), cell_rank(y[c])),
    decreases x.len(),
{
    let p = row_rank()(x);
    let q = row_rank()(y);
    if x.len() > 0 {
        assert(p[0] == cell_rank(x[0]) && q[0] == cell_rank(y[0]));
        assert(p.drop_first() =~= row_rank()(x.drop_first()));
        assert(q.drop_first() =~= row_rank()(y.drop_first()));
        assert(x =~= seq![x[0]] + x.drop_first());
        assert(y =~= seq![y[0]] + y.drop_first());
        row_order_law(x.drop_first(), y.drop_first());
        if x[0] == y[0] {
            if order::key_less(p, q) {
                let c = choose|c: int|
                    0 <= c < x.drop_first().len() && #[trigger] x.drop_first().take(c) == y.drop_first().take(c)
                        && x.drop_first()[c] != y.drop_first()[c] && order::lex_less(
                        cell_rank(x.drop_first()[c]),
                        cell_rank(y.drop_first()[c]),
                    );
                assert(x.take(c + 1) =~= seq![x[0]] + x.drop_first().take(c));
                assert(y.take(c + 1) =~= seq![y[0]] + y.drop_first().take(c));
                assert(x.take(c + 1) == y.take(c + 1));
            }
            if exists|c: int|
                0 <= c < x.len() && #[trigger] x.take(c) == y.take(c) && x[c] != y[c] && order::lex_less(
                    cell_rank(x[c]),
                    cell_rank(y[c]),
                ) {
                let c = choose|c: int|
                    0 <= c < x.len() && #[trigger] x.take(c) == y.take(c) && x[c] != y[c] && order::lex_less(
                        cell_rank(x[c]),
                        cell_rank(y[c]),
                    );
                assert(c > 0);
                assert(x.drop_first().take(c - 1) =~= x.take(c).drop_first());
                assert(y.drop_first().take(c - 1) =~= y.take(c).drop_first());
                assert(x.drop_first()[c - 1] == x[c] && y.drop_first()[c - 1] == y[c]);
            }
        } else {
            if cell_rank(x[0]) == cell_rank(y[0]) {
                cell_rank_injective(x[0], y[0]);
            }
            assert(x.take(0) =~= y.take(0));
            if exists|c: int|
                0 <= c < x.len() && #[trigger] x.take(c) == y.take(c) && x[c] != y[c] && order::lex_less(
                    cell_rank(x[c]),
                    cell_rank(y[c]),
                ) {
                let c = choose|c: int|
                    0 <= c < x.len() && #[trigger] x.take(c) == y.take(c) && x[c] != y[c] && order::lex_less(
                        cell_rank(x[c]),
                        cell_rank(y[c]),
                    );
                if c > 0 {
                    assert(x.take(c)[0] == y.take(c)[0]);
                }
            }
        }
    }
}

} // verus!
