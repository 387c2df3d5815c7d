//! Frames in JSON: one object for each line of a text.

use serde_json::Value;
use vstd::prelude::*;

use crate::json;
use crate::json::Json;
use crate::scene::dimension::Dimension;
use crate::scene::frames;
use crate::scene::frames::Frame;
use crate::scene::pyramid::PerceptronTokens;
use crate::scene::pyramid::PyramidFrame;
use crate::scene::restore::GridFrame;
use crate::scene::restore::TensorFrame;
use crate::hllset;
use crate::text;

verus! {

/// What is read, or words on why it cannot be.
pub type Reading<T> = Result<T, Seq<char>>;

/// A text without the carriage return at its end.
pub open spec fn bare(line: Seq<char>) -> Seq<char> {
    if line.len() > 0 && line.last() == '\r' {
        line.drop_last()
    } else {
        line
    }
}

/// The lines of a text. Only what a line feed ends loses a carriage return.
pub open spec fn lines_of(s: Seq<char>) -> Seq<Seq<char>> {
    let p = text::pieces(s, '\n');
    Seq::new(
        p.len(),
        |i: int|
            if i + 1 < p.len() {
                bare(p[i])
            } else {
                p[i]
            },
    )
}

/// The place of a line in a file.
pub open spec fn place_of(path: Seq<char>, n: nat) -> Seq<char> {
    path + ":"@ + text::decimal(n)
}

/// The values in lines that are not blank, each with its place.
pub open spec fn records_among(path: Seq<char>, lines: Seq<Seq<char>>) -> Seq<(Seq<char>, Reading<Json>)>
    decreases lines.len(),
{
    if lines.len() == 0 {
        Seq::empty()
    } else {
        let earlier = records_among(path, lines.drop_last());
        if text::trimmed(lines.last()).len() == 0 {
            earlier
        } else {
            earlier.push((place_of(path, (lines.len() - 1) as nat), json::parsed(lines.last())))
        }
    }
}

/// What the first records are read as: all of them, or the words on the first that
/// cannot be read.
pub open spec fn read_up_to<T>(
    records: Seq<(Seq<char>, Reading<Json>)>,
    read: spec_fn(Json, Seq<char>) -> Reading<T>,
    n: nat,
) -> Reading<Seq<T>>
    decreases n,
{
    if n == 0 {
        Ok(Seq::empty())
    } else {
        match read_up_to(records, read, (n - 1) as nat) {
            Err(w) => Err(w),
            Ok(list) => match records[n - 1].1 {
                Err(w) => Err(records[n - 1].0 + ": "@ + w),
                Ok(v) => match read(v, records[n - 1].0) {
                    Err(w) => Err(w),
                    Ok(x) => Ok(list.push(x)),
                },
            },
        }
    }
}

/// What the lines of a text are read as.
pub open spec fn read_all<T>(
    path: Seq<char>,
    content: Seq<char>,
    read: spec_fn(Json, Seq<char>) -> Reading<T>,
) -> Reading<Seq<T>> {
    let records = records_among(path, lines_of(content));
    read_up_to(records, read, records.len())
}

/// A record that cannot be read stands for all behind it.
proof fn fault_stays<T>(
    records: Seq<(Seq<char>, Reading<Json>)>,
    read: spec_fn(Json, Seq<char>) -> Reading<T>,
    k: nat,
    n: nat,
)
    requires
        k <= n,
        read_up_to(records, read, k) is Err,
    ensures
        read_up_to(records, read, n) == read_up_to(records, read, k),
    decreases n - k,
{
    if k < n {
        fault_stays(records, read, k, (n - 1) as nat);
    }
}

/// A line's place and its value.
struct Record {
    place: String,
    value: Result<Value, String>,
}

impl View for Record {
    type V = (Seq<char>, Reading<Json>);

    closed spec fn view(&self) -> (Seq<char>, Reading<Json>) {
        (
            self.place@,
            match self.value {
                Ok(v) => Ok(json::json_in(v)),
                Err(w) => Err(w@),
            },
        )
    }
}

spec fn record_views(list: Seq<Record>) -> Seq<(Seq<char>, Reading<Json>)> {
    list.map_values(|r: Record| r@)
}

/// Splits a text into lines.
fn split_lines(content: &str) -> (lines: Vec<Vec<char>>)
    ensures
        text::word_views(lines@) == lines_of(content@),
{
    let chars = text::chars_of(content);
    let pieces = text::split_pieces(chars.as_slice(), '\n');
    let ghost all = text::pieces(content@, '\n');
    let mut lines: Vec<Vec<char>> = Vec::new();
    let mut i: usize = 0;
    while i < pieces.len()
        invariant
            i <= pieces@.len(),
            text::word_views(pieces@) == all,
            lines@.len() == i,
            forall|j: int| 0 <= j < i ==> (#[trigger] lines@[j])@ == lines_of(content@)[j],
            all == text::pieces(content@, '\n'),
        decreases pieces.len() - i,
    {
        let piece = pieces[i].as_slice();
        let n = piece.len();
        proof {
            assert(all[i as int] == piece@);
        }
        if i + 1 < pieces.len() && n > 0 && piece[n - 1] == '\r' {
            let short = vstd::slice::slice_subrange(piece, 0, n - 1);
            proof {
                assert(short@ =~= piece@.drop_last());
            }
            lines.push(vstd::slice::slice_to_vec(short));
        } else {
            lines.push(vstd::slice::slice_to_vec(piece));
        }
        i = i + 1;
    }
    proof {
        assert(text::word_views(lines@) =~= lines_of(content@));
    }
    lines
}

/// Parses the lines of a text.
fn records(path: &str, content: &str) -> (list: Vec<Record>)
    ensures
        record_views(list@) == records_among(path@, lines_of(content@)),
{
    let lines = split_lines(content);
    let ghost all = lines_of(content@);
    let mut list: Vec<Record> = Vec::new();
    let mut i: usize = 0;
    proof {
        assert(record_views(list@) =~= records_among(path@, all.take(0)));
    }
    while i < lines.len()
        invariant
            i <= lines@.len(),
            text::word_views(lines@) == all,
            record_views(list@) == records_among(path@, all.take(i as int)),
        decreases lines.len() - i,
    {
        let line = lines[i].as_slice();
        proof {
            assert(all[i as int] == line@);
            assert(all.take(i + 1).drop_last() =~= all.take(i as int));
        }
        if text::trim(line).len() > 0 {
            let ghost before = record_views(list@);
            let number = text::decimal_string(i as u64);
            let place = text::concat3(path, ":", number.as_str());
            let value = json::parse(text::string_of(line).as_str());
            list.push(Record { place, value });
            proof {
                assert(record_views(list@) =~= before.push(list@.last()@));
            }
        }
        i = i + 1;
    }
    proof {
        assert(all.take(i as int) =~= all);
    }
    list
}

/// The number of a name.
pub open spec fn number_at(v: Json, name: Seq<char>, place: Seq<char>) -> Reading<u64> {
    match json::number_in(json::member(v, name)) {
        Some(n) => Ok(n),
        None => Err(place + ": missing "@ + name),
    }
}

fn read_number(v: &Value, name: &str, place: &str) -> (r: Result<u64, String>)
    ensures
        match r {
            Ok(n) => number_at(json::json_in(*v), name@, place@) == Ok::<u64, Seq<char>>(n),
            Err(w) => number_at(json::json_in(*v), name@, place@) == Err::<u64, Seq<char>>(w@),
        },
{
    match json::number(json::field(v, name)) {
        Some(n) => Ok(n),
        None => Err(text::concat3(place, ": missing ", name)),
    }
}

/// The texts under `tokens`.
pub open spec fn tokens_at(v: Json, place: Seq<char>) -> Reading<Seq<Seq<char>>> {
    json::strings_in(
        json::member(v, "tokens"@),
        place + ": missing tokens"@,
        place + ": token is not a string"@,
    )
}

fn read_tokens(v: &Value, place: &str) -> (r: Result<Vec<String>, String>)
    ensures
        match r {
            Ok(t) => tokens_at(json::json_in(*v), place@) == Ok::<Seq<Seq<char>>, Seq<char>>(text::texts(t@)),
            Err(w) => tokens_at(json::json_in(*v), place@) == Err::<Seq<Seq<char>>, Seq<char>>(w@),
        },
{
    let missing = text::concat2(place, ": missing tokens");
    let wrong = text::concat2(place, ": token is not a string");
    json::read_strings(json::field(v, "tokens"), missing.as_str(), wrong.as_str())
}

/// An id and texts.
pub struct FrameModel {
    pub id: u64,
    pub tokens: Seq<Seq<char>>,
}

impl View for Frame {
    type V = FrameModel;

    open spec fn view(&self) -> FrameModel {
        FrameModel { id: self.id, tokens: text::texts(self.tokens@) }
    }
}

pub open spec fn frame_views(list: Seq<Frame>) -> Seq<FrameModel> {
    list.map_values(|f: Frame| f@)
}

/// The frame in a value: an `id` and `tokens`.
pub open spec fn frame_in(v: Json, place: Seq<char>) -> Reading<FrameModel> {
    match number_at(v, "id"@, place) {
        Err(w) => Err(w),
        Ok(id) => match tokens_at(v, place) {
            Err(w) => Err(w),
            Ok(tokens) => Ok(FrameModel { id, tokens }),
        },
    }
}

/// Reads the frame in a value.
pub fn frame_of(v: &Value, place: &str) -> (r: Result<Frame, String>)
    ensures
        match r {
            Ok(f) => frame_in(json::json_in(*v), place@) == Ok::<FrameModel, Seq<char>>(f@),
            Err(w) => frame_in(json::json_in(*v), place@) == Err::<FrameModel, Seq<char>>(w@),
        },
{
    let id = match read_number(v, "id", place) {
        Ok(n) => n,
        Err(w) => {
            return Err(w);
        },
    };
    match read_tokens(v, place) {
        Ok(tokens) => Ok(Frame { id, tokens }),
        Err(w) => Err(w),
    }
}

/// Reads the frames in the lines of a text.
pub fn read_frames(path: &str, content: &str) -> (r: Result<Vec<Frame>, String>)
    ensures
        match r {
            Ok(list) => read_all(path@, content@, |v: Json, p: Seq<char>| frame_in(v, p)) == Ok::<Seq<FrameModel>, Seq<char>>(
                frame_views(list@),
            ),
            Err(w) => read_all(path@, content@, |v: Json, p: Seq<char>| frame_in(v, p)) == Err::<Seq<FrameModel>, Seq<char>>(w@),
        },
{
    let recs = records(path, content);
    let ghost all = records_among(path@, lines_of(content@));
    let ghost read = |v: Json, p: Seq<char>| frame_in(v, p);
    let mut out: Vec<Frame> = Vec::new();
    let mut i: usize = 0;
    proof {
        assert(frame_views(out@) =~= Seq::<FrameModel>::empty());
    }
    while i < recs.len()
        invariant
            i <= recs@.len(),
            record_views(recs@) == all,
            all == records_among(path@, lines_of(content@)),
            read == (|v: Json, p: Seq<char>| frame_in(v, p)),
            read_up_to(all, read, i as nat) == Ok::<Seq<FrameModel>, Seq<char>>(frame_views(out@)),
        decreases recs.len() - i,
    {
        let ghost before = frame_views(out@);
        proof {
            assert(all[i as int] == recs@[i as int]@);
        }
        match &recs[i].value {
            Err(w) => {
                let words = text::concat3(recs[i].place.as_str(), ": ", w.as_str());
                proof {
                    fault_stays(all, read, (i + 1) as nat, all.len());
                }
                return Err(words);
            },
            Ok(v) => match frame_of(v, recs[i].place.as_str()) {
                Err(w) => {
                    proof {
                        fault_stays(all, read, (i + 1) as nat, all.len());
                    }
                    return Err(w);
                },
                Ok(f) => {
                    out.push(f);
                    proof {
                        assert(frame_views(out@) =~= before.push(f@));
                    }
                },
            },
        }
        i = i + 1;
    }
    Ok(out)
}

/// A grid in plain values.
pub struct GridModel {
    pub id: u64,
    pub width: usize,
    pub height: usize,
    pub tokens: Seq<Seq<char>>,
}

impl View for GridFrame {
    type V = GridModel;

    open spec fn view(&self) -> GridModel {
        GridModel { id: self.id, width: self.width, height: self.height, tokens: text::texts(self.tokens@) }
    }
}

pub open spec fn grid_views(list: Seq<GridFrame>) -> Seq<GridModel> {
    list.map_values(|f: GridFrame| f@)
}

/// The grid in a value: an `id`, a `width`, a `height` and `tokens`.
pub open spec fn grid_in(v: Json, place: Seq<char>) -> Reading<GridModel> {
    match number_at(v, "id"@, place) {
        Err(w) => Err(w),
        Ok(id) => match number_at(v, "width"@, place) {
            Err(w) => Err(w),
            Ok(width) => match number_at(v, "height"@, place) {
                Err(w) => Err(w),
                Ok(height) => match tokens_at(v, place) {
                    Err(w) => Err(w),
                    Ok(tokens) => Ok(GridModel { id, width: width as usize, height: height as usize, tokens }),
                },
            },
        },
    }
}

/// Reads the grid in a value.
pub fn grid_frame_of(v: &Value, place: &str) -> (r: Result<GridFrame, String>)
    ensures
        match r {
            Ok(f) => grid_in(json::json_in(*v), place@) == Ok::<GridModel, Seq<char>>(f@),
            Err(w) => grid_in(json::json_in(*v), place@) == Err::<GridModel, Seq<char>>(w@),
        },
{
    let id = match read_number(v, "id", place) {
        Ok(n) => n,
        Err(w) => {
            return Err(w);
        },
    };
    let width = match read_number(v, "width", place) {
        Ok(n) => n,
        Err(w) => {
            return Err(w);
        },
    };
    let height = match read_number(v, "height", place) {
        Ok(n) => n,
        Err(w) => {
            return Err(w);
        },
    };
    match read_tokens(v, place) {
        Ok(tokens) => Ok(GridFrame { id, width: width as usize, height: height as usize, tokens }),
        Err(w) => Err(w),
    }
}

/// Reads the grids in the lines of a text.
pub fn read_grid_frames(path: &str, content: &str) -> (r: Result<Vec<GridFrame>, String>)
    ensures
        match r {
            Ok(list) => read_all(path@, content@, |v: Json, p: Seq<char>| grid_in(v, p)) == Ok::<Seq<GridModel>, Seq<char>>(
                grid_views(list@),
            ),
            Err(w) => read_all(path@, content@, |v: Json, p: Seq<char>| grid_in(v, p)) == Err::<Seq<GridModel>, Seq<char>>(w@),
        },
{
    let recs = records(path, content);
    let ghost all = records_among(path@, lines_of(content@));
    let ghost read = |v: Json, p: Seq<char>| grid_in(v, p);
    let mut out: Vec<GridFrame> = Vec::new();
    let mut i: usize = 0;
    proof {
        assert(grid_views(out@) =~= Seq::<GridModel>::empty());
    }
    while i < recs.len()
        invariant
            i <= recs@.len(),
            record_views(recs@) == all,
            all == records_among(path@, lines_of(content@)),
            read == (|v: Json, p: Seq<char>| grid_in(v, p)),
            read_up_to(all, read, i as nat) == Ok::<Seq<GridModel>, Seq<char>>(grid_views(out@)),
        decreases recs.len() - i,
    {
        let ghost before = grid_views(out@);
        proof {
            assert(all[i as int] == recs@[i as int]@);
        }
        match &recs[i].value {
            Err(w) => {
                let words = text::concat3(recs[i].place.as_str(), ": ", w.as_str());
                proof {
                    fault_stays(all, read, (i + 1) as nat, all.len());
                }
                return Err(words);
            },
            Ok(v) => match grid_frame_of(v, recs[i].place.as_str()) {
                Err(w) => {
                    proof {
                        fault_stays(all, read, (i + 1) as nat, all.len());
                    }
                    return Err(w);
                },
                Ok(f) => {
                    out.push(f);
                    proof {
                        assert(grid_views(out@) =~= before.push(f@));
                    }
                },
            },
        }
        i = i + 1;
    }
    Ok(out)
}

/// A tensor in plain values.
pub struct TensorModel {
    pub id: u64,
    pub shape: Seq<usize>,
    pub tokens: Seq<Seq<char>>,
}

impl View for TensorFrame {
    type V = TensorModel;

    open spec fn view(&self) -> TensorModel {
        TensorModel { id: self.id, shape: self.shape@, tokens: text::texts(self.tokens@) }
    }
}

pub open spec fn tensor_views(list: Seq<TensorFrame>) -> Seq<TensorModel> {
    list.map_values(|f: TensorFrame| f@)
}

/// The sizes under `shape`.
pub open spec fn shape_at(v: Json, place: Seq<char>) -> Reading<Seq<usize>> {
    match json::list_in(json::member(v, "shape"@)) {
        None => Err(place + ": missing shape"@),
        Some(items) => if forall|i: int| 0 <= i < items.len() ==> json::number_in(#[trigger] items[i]) is Some {
            Ok(items.map_values(|x: Json| json::number_in(x)->0 as usize))
        } else {
            Err(place + ": shape is not a list of integers"@)
        },
    }
}

fn read_shape(v: &Value, place: &str) -> (r: Result<Vec<usize>, String>)
    ensures
        match r {
            Ok(s) => shape_at(json::json_in(*v), place@) == Ok::<Seq<usize>, Seq<char>>(s@),
            Err(w) => shape_at(json::json_in(*v), place@) == Err::<Seq<usize>, Seq<char>>(w@),
        },
{
    let items = match json::list(json::field(v, "shape")) {
        Some(items) => items,
        None => {
            return Err(text::concat2(place, ": missing shape"));
        },
    };
    let ghost all = json::values_in(items@);
    let mut shape: Vec<usize> = Vec::new();
    let mut i: usize = 0;
    while i < items.len()
        invariant
            i <= items@.len(),
            all == json::values_in(items@),
            json::member(json::json_in(*v), "shape"@) == Json::List(all),
            shape@.len() == i,
            forall|j: int|
                0 <= j < i ==> json::number_in(#[trigger] all[j]) is Some && shape@[j] == json::number_in(all[j])->0 as usize,
        decreases items.len() - i,
    {
        match json::number(&items[i]) {
            Some(n) => {
                proof {
                    assert(all[i as int] == json::json_in(items@[i as int]));
                }
                shape.push(n as usize);
            },
            None => {
                proof {
                    assert(json::number_in(all[i as int]) is None);
                }
                return Err(text::concat2(place, ": shape is not a list of integers"));
            },
        }
        i = i + 1;
    }
    proof {
        assert(all.map_values(|x: Json| json::number_in(x)->0 as usize) =~= shape@);
    }
    Ok(shape)
}

/// The tensor in a value: an `id`, a `shape` and `tokens`.
pub open spec fn tensor_in(v: Json, place: Seq<char>) -> Reading<TensorModel> {
    match number_at(v, "id"@, place) {
        Err(w) => Err(w),
        Ok(id) => match shape_at(v, place) {
            Err(w) => Err(w),
            Ok(shape) => match tokens_at(v, place) {
                Err(w) => Err(w),
                Ok(tokens) => Ok(TensorModel { id, shape, tokens }),
            },
        },
    }
}

/// Reads the tensor in a value.
pub fn tensor_frame_of(v: &Value, place: &str) -> (r: Result<TensorFrame, String>)
    ensures
        match r {
            Ok(f) => tensor_in(json::json_in(*v), place@) == Ok::<TensorModel, Seq<char>>(f@),
            Err(w) => tensor_in(json::json_in(*v), place@) == Err::<TensorModel, Seq<char>>(w@),
        },
{
    let id = match read_number(v, "id", place) {
        Ok(n) => n,
        Err(w) => {
            return Err(w);
        },
    };
    let shape = match read_shape(v, place) {
        Ok(s) => s,
        Err(w) => {
            return Err(w);
        },
    };
    match read_tokens(v, place) {
        Ok(tokens) => Ok(TensorFrame { id, shape, tokens }),
        Err(w) => Err(w),
    }
}

/// Reads the tensors in the lines of a text.
pub fn read_tensor_frames(path: &str, content: &str) -> (r: Result<Vec<TensorFrame>, String>)
    ensures
        match r {
            Ok(list) => read_all(path@, content@, |v: Json, p: Seq<char>| tensor_in(v, p)) == Ok::<Seq<TensorModel>, Seq<char>>(
                tensor_views(list@),
            ),
            Err(w) => read_all(path@, content@, |v: Json, p: Seq<char>| tensor_in(v, p)) == Err::<Seq<TensorModel>, Seq<char>>(w@),
        },
{
    let recs = records(path, content);
    let ghost all = records_among(path@, lines_of(content@));
    let ghost read = |v: Json, p: Seq<char>| tensor_in(v, p);
    let mut out: Vec<TensorFrame> = Vec::new();
    let mut i: usize = 0;
    proof {
        assert(tensor_views(out@) =~= Seq::<TensorModel>::empty());
    }
    while i < recs.len()
        invariant
            i <= recs@.len(),
            record_views(recs@) == all,
            all == records_among(path@, lines_of(content@)),
            read == (|v: Json, p: Seq<char>| tensor_in(v, p)),
            read_up_to(all, read, i as nat) == Ok::<Seq<TensorModel>, Seq<char>>(tensor_views(out@)),
        decreases recs.len() - i,
    {
        let ghost before = tensor_views(out@);
        proof {
            assert(all[i as int] == recs@[i as int]@);
        }
        match &recs[i].value {
            Err(w) => {
                let words = text::concat3(recs[i].place.as_str(), ": ", w.as_str());
                proof {
                    fault_stays(all, read, (i + 1) as nat, all.len());
                }
                return Err(words);
            },
            Ok(v) => match tensor_frame_of(v, recs[i].place.as_str()) {
                Err(w) => {
                    proof {
                        fault_stays(all, read, (i + 1) as nat, all.len());
                    }
                    return Err(w);
                },
                Ok(f) => {
                    out.push(f);
                    proof {
                        assert(tensor_views(out@) =~= before.push(f@));
                    }
                },
            },
        }
        i = i + 1;
    }
    Ok(out)
}

/// Named texts.
pub struct PerceptronModel {
    pub name: Seq<char>,
    pub tokens: Seq<Seq<char>>,
}

/// Named texts under an id.
pub struct PyramidModel {
    pub id: u64,
    pub perceptrons: Seq<PerceptronModel>,
}

impl View for PerceptronTokens {
    type V = PerceptronModel;

    open spec fn view(&self) -> PerceptronModel {
        PerceptronModel { name: self.name@, tokens: text::texts(self.tokens@) }
    }
}

pub open spec fn perceptron_views(list: Seq<PerceptronTokens>) -> Seq<PerceptronModel> {
    list.map_values(|p: PerceptronTokens| p@)
}

impl View for PyramidFrame {
    type V = PyramidModel;

    open spec fn view(&self) -> PyramidModel {
        PyramidModel { id: self.id, perceptrons: perceptron_views(self.perceptrons@) }
    }
}

pub open spec fn pyramid_views(list: Seq<PyramidFrame>) -> Seq<PyramidModel> {
    list.map_values(|f: PyramidFrame| f@)
}

/// The texts of a member.
pub open spec fn perceptron_in(m: (Seq<char>, Json), place: Seq<char>) -> Reading<PerceptronModel> {
    match json::strings_in(
        m.1,
        place + ": perceptron "@ + m.0 + " is not a list"@,
        place + ": token is not a string"@,
    ) {
        Err(w) => Err(w),
        Ok(tokens) => Ok(PerceptronModel { name: m.0, tokens }),
    }
}

/// What the first members are read as: all of them, or the words on the first that
/// cannot be read.
pub open spec fn perceptrons_up_to(list: Seq<(Seq<char>, Json)>, place: Seq<char>, n: nat) -> Reading<Seq<PerceptronModel>>
    decreases n,
{
    if n == 0 {
        Ok(Seq::empty())
    } else {
        match perceptrons_up_to(list, place, (n - 1) as nat) {
            Err(w) => Err(w),
            Ok(earlier) => match perceptron_in(list[n - 1], place) {
                Err(w) => Err(w),
                Ok(p) => Ok(earlier.push(p)),
            },
        }
    }
}

proof fn perceptron_fault_stays(list: Seq<(Seq<char>, Json)>, place: Seq<char>, k: nat, n: nat)
    requires
        k <= n,
        perceptrons_up_to(list, place, k) is Err,
    ensures
        perceptrons_up_to(list, place, n) == perceptrons_up_to(list, place, k),
    decreases n - k,
{
    if k < n {
        perceptron_fault_stays(list, place, k, (n - 1) as nat);
    }
}

/// The perceptrons under `perceptrons`.
pub open spec fn perceptrons_at(v: Json, place: Seq<char>) -> Reading<Seq<PerceptronModel>> {
    match json::member(v, "perceptrons"@) {
        Json::Members(list) => perceptrons_up_to(list, place, list.len()),
        _ => Err(place + ": perceptrons must be an object"@),
    }
}

fn read_perceptrons(v: &Value, place: &str) -> (r: Result<Vec<PerceptronTokens>, String>)
    ensures
        match r {
            Ok(p) => perceptrons_at(json::json_in(*v), place@) == Ok::<Seq<PerceptronModel>, Seq<char>>(perceptron_views(p@)),
            Err(w) => perceptrons_at(json::json_in(*v), place@) == Err::<Seq<PerceptronModel>, Seq<char>>(w@),
        },
{
    let items = match json::members(json::field(v, "perceptrons")) {
        Some(items) => items,
        None => {
            return Err(text::concat2(place, ": perceptrons must be an object"));
        },
    };
    let ghost all = json::members_in(items@);
    let wrong = text::concat2(place, ": token is not a string");
    let mut out: Vec<PerceptronTokens> = Vec::new();
    let mut i: usize = 0;
    proof {
        assert(perceptron_views(out@) =~= Seq::<PerceptronModel>::empty());
    }
    while i < items.len()
        invariant
            i <= items@.len(),
            all == json::members_in(items@),
            json::member(json::json_in(*v), "perceptrons"@) == Json::Members(all),
            wrong@ == place@ + ": token is not a string"@,
            perceptrons_up_to(all, place@, i as nat) == Ok::<Seq<PerceptronModel>, Seq<char>>(perceptron_views(out@)),
        decreases items.len() - i,
    {
        let ghost before = perceptron_views(out@);
        let name = text::copy_str(items[i].0.as_str());
        let start = text::concat3(place, ": perceptron ", name.as_str());
        let missing = text::concat2(start.as_str(), " is not a list");
        proof {
            assert(all[i as int] == (items@[i as int].0@, json::json_in(items@[i as int].1)));
        }
        match json::read_strings(&items[i].1, missing.as_str(), wrong.as_str()) {
            Err(w) => {
                proof {
                    perceptron_fault_stays(all, place@, (i + 1) as nat, all.len());
                }
                return Err(w);
            },
            Ok(tokens) => {
                let p = PerceptronTokens { name, tokens };
                let ghost seen = p@;
                out.push(p);
                proof {
                    assert(perceptron_views(out@) =~= before.push(seen));
                }
            },
        }
        i = i + 1;
    }
    Ok(out)
}

/// The pyramid frame in a value: an `id` and `perceptrons`.
pub open spec fn pyramid_in(v: Json, place: Seq<char>) -> Reading<PyramidModel> {
    match number_at(v, "id"@, place) {
        Err(w) => Err(w),
        Ok(id) => match perceptrons_at(v, place) {
            Err(w) => Err(w),
            Ok(perceptrons) => Ok(PyramidModel { id, perceptrons }),
        },
    }
}

/// Reads the pyramid frame in a value.
pub fn pyramid_frame_of(v: &Value, place: &str) -> (r: Result<PyramidFrame, String>)
    ensures
        match r {
            Ok(f) => pyramid_in(json::json_in(*v), place@) == Ok::<PyramidModel, Seq<char>>(f@),
            Err(w) => pyramid_in(json::json_in(*v), place@) == Err::<PyramidModel, Seq<char>>(w@),
        },
{
    let id = match read_number(v, "id", place) {
        Ok(n) => n,
        Err(w) => {
            return Err(w);
        },
    };
    match read_perceptrons(v, place) {
        Ok(perceptrons) => Ok(PyramidFrame { id, perceptrons }),
        Err(w) => Err(w),
    }
}

/// Reads the pyramid frames in the lines of a text.
pub fn read_pyramid_frames(path: &str, content: &str) -> (r: Result<Vec<PyramidFrame>, String>)
    ensures
        match r {
            Ok(list) => read_all(path@, content@, |v: Json, p: Seq<char>| pyramid_in(v, p)) == Ok::<Seq<PyramidModel>, Seq<char>>(
                pyramid_views(list@),
            ),
            Err(w) => read_all(path@, content@, |v: Json, p: Seq<char>| pyramid_in(v, p)) == Err::<Seq<PyramidModel>, Seq<char>>(w@),
        },
{
    let recs = records(path, content);
    let ghost all = records_among(path@, lines_of(content@));
    let ghost read = |v: Json, p: Seq<char>| pyramid_in(v, p);
    let mut out: Vec<PyramidFrame> = Vec::new();
    let mut i: usize = 0;
    proof {
        assert(pyramid_views(out@) =~= Seq::<PyramidModel>::empty());
    }
    while i < recs.len()
        invariant
            i <= recs@.len(),
            record_views(recs@) == all,
            all == records_among(path@, lines_of(content@)),
            read == (|v: Json, p: Seq<char>| pyramid_in(v, p)),
            read_up_to(all, read, i as nat) == Ok::<Seq<PyramidModel>, Seq<char>>(pyramid_views(out@)),
        decreases recs.len() - i,
    {
        let ghost before = pyramid_views(out@);
        proof {
            assert(all[i as int] == recs@[i as int]@);
        }
        match &recs[i].value {
            Err(w) => {
                let words = text::concat3(recs[i].place.as_str(), ": ", w.as_str());
                proof {
                    fault_stays(all, read, (i + 1) as nat, all.len());
                }
                return Err(words);
            },
            Ok(v) => match pyramid_frame_of(v, recs[i].place.as_str()) {
                Err(w) => {
                    proof {
                        fault_stays(all, read, (i + 1) as nat, all.len());
                    }
                    return Err(w);
                },
                Ok(f) => {
                    out.push(f);
                    proof {
                        assert(pyramid_views(out@) =~= before.push(f@));
                    }
                },
            },
        }
        i = i + 1;
    }
    Ok(out)
}

/// A name and the tokens of a dimension.
pub struct DimensionModel {
    pub name: Seq<char>,
    pub tokens: Seq<Seq<char>>,
}

/// The tokens of texts.
pub open spec fn tokens_in(words: Seq<Seq<char>>) -> Seq<Seq<u8>> {
    words.map_values(|w: Seq<char>| text::utf8(w))
}

/// Whether a dimension is that of a name and tokens.
pub open spec fn is_dimension(d: Dimension, m: DimensionModel) -> bool {
    &&& d.name@ == m.name
    &&& d.hll@ == frames::sketch_of(tokens_in(m.tokens))
    &&& d.g1@ == hllset::token_bits(tokens_in(m.tokens), 0)
}

/// The dimension in a value: a `name` and `tokens`.
pub open spec fn dimension_in(v: Json, i: nat, path: Seq<char>) -> Reading<DimensionModel> {
    match json::text_in(json::member(v, "name"@)) {
        None => Err(path + ": dimension "@ + text::decimal(i) + " missing name"@),
        Some(name) => match json::strings_in(
            json::member(v, "tokens"@),
            path + ": dimension "@ + name + " missing tokens"@,
            path + ": dimension "@ + name + " token is not a string"@,
        ) {
            Err(w) => Err(w),
            Ok(tokens) => Ok(DimensionModel { name, tokens }),
        },
    }
}

/// What the first dimensions are read as.
pub open spec fn dimensions_up_to(items: Seq<Json>, path: Seq<char>, n: nat) -> Reading<Seq<DimensionModel>>
    decreases n,
{
    if n == 0 {
        Ok(Seq::empty())
    } else {
        match dimensions_up_to(items, path, (n - 1) as nat) {
            Err(w) => Err(w),
            Ok(earlier) => match dimension_in(items[n - 1], (n - 1) as nat, path) {
                Err(w) => Err(w),
                Ok(d) => Ok(earlier.push(d)),
            },
        }
    }
}

proof fn dimension_fault_stays(items: Seq<Json>, path: Seq<char>, k: nat, n: nat)
    requires
        k <= n,
        dimensions_up_to(items, path, k) is Err,
    ensures
        dimensions_up_to(items, path, n) == dimensions_up_to(items, path, k),
    decreases n - k,
{
    if k < n {
        dimension_fault_stays(items, path, k, (n - 1) as nat);
    }
}

/// The dimensions under `dimensions`.
pub open spec fn dimensions_in(v: Json, path: Seq<char>) -> Reading<Seq<DimensionModel>> {
    match json::list_in(json::member(v, "dimensions"@)) {
        None => Err(path + ": missing dimensions"@),
        Some(items) => dimensions_up_to(items, path, items.len()),
    }
}

/// The dimensions of models.
pub open spec fn are_dimensions(list: Seq<Dimension>, models: Seq<DimensionModel>) -> bool {
    list.len() == models.len() && forall|i: int| 0 <= i < list.len() ==> is_dimension(#[trigger] list[i], models[i])
}

fn read_dimension(v: &Value, i: usize, path: &str) -> (r: Result<Dimension, String>)
    ensures
        match r {
            Ok(d) => dimension_in(json::json_in(*v), i as nat, path@) is Ok && is_dimension(
                d,
                dimension_in(json::json_in(*v), i as nat, path@)->Ok_0,
            ),
            Err(w) => dimension_in(json::json_in(*v), i as nat, path@) == Err::<DimensionModel, Seq<char>>(w@),
        },
{
    let start = text::concat2(path, ": dimension ");
    let name = match json::string(json::field(v, "name")) {
        Some(s) => s,
        None => {
            let number = text::decimal_string(i as u64);
            return Err(text::concat3(start.as_str(), number.as_str(), " missing name"));
        },
    };
    let missing = text::concat3(start.as_str(), name.as_str(), " missing tokens");
    let wrong = text::concat3(start.as_str(), name.as_str(), " token is not a string");
    match json::read_strings(json::field(v, "tokens"), missing.as_str(), wrong.as_str()) {
        Err(w) => Err(w),
        Ok(tokens) => {
            proof {
                assert(tokens_in(text::texts(tokens@)) =~= frames::text_tokens(tokens@));
            }
            Ok(Dimension::from_tokens(name, &tokens))
        },
    }
}

/// Reads the dimensions in a value.
pub fn dimensions_of(v: &Value, path: &str) -> (r: Result<Vec<Dimension>, String>)
    ensures
        match r {
            Ok(list) => dimensions_in(json::json_in(*v), path@) is Ok && are_dimensions(
                list@,
                dimensions_in(json::json_in(*v), path@)->Ok_0,
            ),
            Err(w) => dimensions_in(json::json_in(*v), path@) == Err::<Seq<DimensionModel>, Seq<char>>(w@),
        },
{
    let items = match json::list(json::field(v, "dimensions")) {
        Some(items) => items,
        None => {
            return Err(text::concat2(path, ": missing dimensions"));
        },
    };
    let ghost all = json::values_in(items@);
    let mut out: Vec<Dimension> = Vec::new();
    let mut i: usize = 0;
    while i < items.len()
        invariant
            i <= items@.len(),
            all == json::values_in(items@),
            json::member(json::json_in(*v), "dimensions"@) == Json::List(all),
            dimensions_up_to(all, path@, i as nat) is Ok,
            are_dimensions(out@, dimensions_up_to(all, path@, i as nat)->Ok_0),
        decreases items.len() - i,
    {
        let ghost models = dimensions_up_to(all, path@, i as nat)->Ok_0;
        proof {
            assert(all[i as int] == json::json_in(items@[i as int]));
        }
        match read_dimension(&items[i], i, path) {
            Err(w) => {
                proof {
                    dimension_fault_stays(all, path@, (i + 1) as nat, all.len());
                }
                return Err(w);
            },
            Ok(d) => {
                let ghost before = out@;
                out.push(d);
                proof {
                    let after = dimensions_up_to(all, path@, (i + 1) as nat)->Ok_0;
                    assert forall|j: int| 0 <= j < out@.len() implies is_dimension(#[trigger] out@[j], after[j]) by {
                        if j < before.len() {
                            assert(out@[j] == before[j]);
                            assert(after[j] == models[j]);
                        }
                    }
                }
            },
        }
        i = i + 1;
    }
    Ok(out)
}

/// What the text of a file of dimensions is read as.
pub open spec fn dimensions_file(path: Seq<char>, content: Seq<char>) -> Reading<Seq<DimensionModel>> {
    match json::parsed(content) {
        Err(w) => Err(path + ": "@ + w),
        Ok(v) => dimensions_in(v, path),
    }
}

/// Reads the dimensions in a text.
pub fn read_dimensions(path: &str, content: &str) -> (r: Result<Vec<Dimension>, String>)
    ensures
        match r {
            Ok(list) => dimensions_file(path@, content@) is Ok && are_dimensions(
                list@,
                dimensions_file(path@, content@)->Ok_0,
            ),
            Err(w) => dimensions_file(path@, content@) == Err::<Seq<DimensionModel>, Seq<char>>(w@),
        },
{
    match json::parse(content) {
        Err(w) => Err(text::concat3(path, ": ", w.as_str())),
        Ok(v) => dimensions_of(&v, path),
    }
}

/// Every record is read by itself, in order: all can be read if and only if each can, and
/// what each gives stands in its place; the first that cannot is the fault.
pub proof fn records_law<T>(
    records: Seq<(Seq<char>, Reading<Json>)>,
    read: spec_fn(Json, Seq<char>) -> Reading<T>,
    n: nat,
)
    requires
        n <= records.len(),
    ensures
        read_up_to(records, read, n) matches Ok(list) ==> list.len() == n && forall|i: int|
            0 <= i < n ==> (#[trigger] records[i]).1 is Ok && read(records[i].1->Ok_0, records[i].0) == Ok::<T, Seq<char>>(list[i]),
        (forall|i: int| 0 <= i < n ==> (#[trigger] records[i]).1 is Ok && read(records[i].1->Ok_0, records[i].0) is Ok)
            ==> read_up_to(records, read, n) is Ok,
    decreases n,
{
    if n > 0 {
        records_law(records, read, (n - 1) as nat);
    }
}

/// A file's records are its lines that are not blank, in order, each with the path and
/// the number of its line, from zero.
pub proof fn lines_law(path: Seq<char>, lines: Seq<Seq<char>>, line: Seq<char>)
    ensures
        records_among(path, Seq::empty()) == Seq::<(Seq<char>, Reading<Json>)>::empty(),
        text::trimmed(line).len() == 0 ==> records_among(path, lines.push(line)) == records_among(path, lines),
        text::trimmed(line).len() > 0 ==> records_among(path, lines.push(line)) == records_among(path, lines).push(
            (path + ":"@ + text::decimal(lines.len()), json::parsed(line)),
        ),
{
    assert(lines.push(line).drop_last() =~= lines);
}

/// A frame is read from a value exactly where its `id` is a number and its `tokens` are
/// a list of texts, and then has them.
pub proof fn frame_law(v: Json, place: Seq<char>, f: FrameModel)
    ensures
        frame_in(v, place) == Ok::<FrameModel, Seq<char>>(f) <==> json::member(v, "id"@) == Json::Number(Some(f.id)) && (json::member(
            v,
            "tokens"@,
        ) matches Json::List(items) && items.len() == f.tokens.len() && forall|i: int|
            0 <= i < items.len() ==> #[trigger] items[i] == Json::Text(f.tokens[i])),
{
    json::strings_law(json::member(v, "tokens"@), f.tokens, place + ": missing tokens"@, place + ": token is not a string"@);
}

/// A grid that is read has the `id`, the `width`, the `height` and the `tokens` of its
/// value.
pub proof fn grid_law(v: Json, place: Seq<char>, f: GridModel)
    requires
        grid_in(v, place) == Ok::<GridModel, Seq<char>>(f),
    ensures
        json::member(v, "id"@) == Json::Number(Some(f.id)),
        json::member(v, "width"@) matches Json::Number(Some(n)) && f.width == n as usize,
        json::member(v, "height"@) matches Json::Number(Some(n)) && f.height == n as usize,
        json::member(v, "tokens"@) matches Json::List(items) && items.len() == f.tokens.len() && forall|i: int|
            0 <= i < items.len() ==> #[trigger] items[i] == Json::Text(f.tokens[i]),
{
    json::strings_law(json::member(v, "tokens"@), f.tokens, place + ": missing tokens"@, place + ": token is not a string"@);
}

/// A tensor that is read has the `id`, the `shape`, axis by axis, and the `tokens` of its
/// value.
pub proof fn tensor_law(v: Json, place: Seq<char>, f: TensorModel)
    requires
        tensor_in(v, place) == Ok::<TensorModel, Seq<char>>(f),
    ensures
        json::member(v, "id"@) == Json::Number(Some(f.id)),
        json::member(v, "shape"@) matches Json::List(items) && items.len() == f.shape.len() && forall|i: int|
            0 <= i < items.len() ==> (#[trigger] items[i] matches Json::Number(Some(n)) && f.shape[i] == n as usize),
        json::member(v, "tokens"@) matches Json::List(items) && items.len() == f.tokens.len() && forall|i: int|
            0 <= i < items.len() ==> #[trigger] items[i] == Json::Text(f.tokens[i]),
{
    json::strings_law(json::member(v, "tokens"@), f.tokens, place + ": missing tokens"@, place + ": token is not a string"@);
    let items = json::list_in(json::member(v, "shape"@))->0;
    assert forall|i: int| 0 <= i < items.len() implies (#[trigger] items[i] matches Json::Number(Some(n)) && f.shape[i] == n as usize) by {
        assert(json::number_in(items[i]) is Some);
    }
}

/// Perceptrons that are read have the names and the texts of the members, in order.
pub proof fn perceptrons_law(list: Seq<(Seq<char>, Json)>, place: Seq<char>, n: nat, out: Seq<PerceptronModel>, i: int)
    requires
        n <= list.len(),
        perceptrons_up_to(list, place, n) == Ok::<Seq<PerceptronModel>, Seq<char>>(out),
        0 <= i < n,
    ensures
        out.len() == n,
        out[i].name == list[i].0,
        list[i].1 matches Json::List(items) && items.len() == out[i].tokens.len() && forall|k: int|
            0 <= k < items.len() ==> #[trigger] items[k] == Json::Text(out[i].tokens[k]),
    decreases n,
{
    let earlier = perceptrons_up_to(list, place, (n - 1) as nat)->Ok_0;
    perceptrons_count(list, place, (n - 1) as nat);
    if i < n - 1 {
        perceptrons_law(list, place, (n - 1) as nat, earlier, i);
        assert(out[i] == earlier[i]);
    } else {
        let m = list[i];
        json::strings_law(
            m.1,
            out[i].tokens,
            place + ": perceptron "@ + m.0 + " is not a list"@,
            place + ": token is not a string"@,
        );
    }
}

proof fn perceptrons_count(list: Seq<(Seq<char>, Json)>, place: Seq<char>, n: nat)
    ensures
        perceptrons_up_to(list, place, n) matches Ok(out) ==> out.len() == n,
    decreases n,
{
    if n > 0 {
        perceptrons_count(list, place, (n - 1) as nat);
    }
}

/// A dimension that is read has the `name` and the `tokens` of its value.
pub proof fn dimension_law(v: Json, i: nat, path: Seq<char>, d: DimensionModel)
    requires
        dimension_in(v, i, path) == Ok::<DimensionModel, Seq<char>>(d),
    ensures
        json::member(v, "name"@) == Json::Text(d.name),
        json::member(v, "tokens"@) matches Json::List(items) && items.len() == d.tokens.len() && forall|k: int|
            0 <= k < items.len() ==> #[trigger] items[k] == Json::Text(d.tokens[k]),
{
    json::strings_law(
        json::member(v, "tokens"@),
        d.tokens,
        path + ": dimension "@ + d.name + " missing tokens"@,
        path + ": dimension "@ + d.name + " token is not a string"@,
    );
}

/// A list of dimensions is read one by one, in order.
pub proof fn dimensions_law(items: Seq<Json>, path: Seq<char>, n: nat)
    requires
        n <= items.len(),
    ensures
        dimensions_up_to(items, path, n) matches Ok(list) ==> list.len() == n && forall|i: int|
            0 <= i < n ==> dimension_in(#[trigger] items[i], i as nat, path) == Ok::<DimensionModel, Seq<char>>(list[i]),
        (forall|i: int| 0 <= i < n ==> dimension_in(#[trigger] items[i], i as nat, path) is Ok) ==> dimensions_up_to(items, path, n) is Ok,
    decreases n,
{
    if n > 0 {
        dimensions_law(items, path, (n - 1) as nat);
    }
}

} // verus!
