//! Reading cross-section polylines out of the lines of a segment-delimited file.
//!
//! The first two lines are a header and are skipped. Every later line either holds
//! the configured marker, which closes the current polyline, or is a vertex line
//! `id, x, y, z, ...` whose fields 1 to 3 are decimal coordinates.
//!
//! A line is taken for a marker line when the marker occurs anywhere in it. A vertex
//! line that happens to hold the marker text is therefore read as a marker line; pick
//! a marker that no vertex line can contain.
use vstd::prelude::*;
use vstd::utf8::encode_utf8;
use crate::geometry::{Cross, CrossCoordinate3d, cross_eq};
use crate::text::{contains_bytes, contains_seq, decimal_value, lemma_split_on_len, parse_fixed, split_bytes, split_on, trim};

verus! {

/// Why a cross-section file could not be read.
#[derive(Debug, Clone, Copy, PartialEq, Eq, Structural)]
pub enum CrossReadError {
    /// Coordinate field `field` (1 to 3) of line `line` (1-based, header lines counted)
    /// is missing or is not a decimal number.
    NumericField { line: usize, field: usize },
}

/// The value of a polyline as contracts see it: its group number and its vertices.
pub type CrossView = (i32, Seq<CrossCoordinate3d>);

/// The views of a sequence of polylines.
pub open spec fn views(s: Seq<Cross>) -> Seq<CrossView> {
    s.map_values(|c: Cross| c@)
}

/// Every polyline has at least two vertices.
pub open spec fn all_polylines(s: Seq<CrossView>) -> bool {
    forall|i: int| 0 <= i < s.len() ==> (#[trigger] s[i]).1.len() >= 2
}

/// The bytes of each line.
pub open spec fn line_bytes(lines: Seq<String>) -> Seq<Seq<u8>> {
    lines.map_values(|l: String| encode_utf8(l@))
}

/// Field `k` of a split line, read as a coordinate.
pub open spec fn field_value(fields: Seq<Seq<u8>>, k: int) -> Option<i64> {
    if k < fields.len() {
        decimal_value(trim(fields[k]))
    } else {
        None
    }
}

/// The vertex that a vertex line spells, or the first coordinate field that is bad.
pub open spec fn vertex_of(line: Seq<u8>, vertex_id: i32) -> Result<CrossCoordinate3d, usize> {
    let fs = split_on(line, 44u8);
    if field_value(fs, 1) is None {
        Err(1)
    } else if field_value(fs, 2) is None {
        Err(2)
    } else if field_value(fs, 3) is None {
        Err(3)
    } else {
        Ok(
            CrossCoordinate3d {
                x_coord: field_value(fs, 1)->Some_0,
                y_coord: field_value(fs, 2)->Some_0,
                z_coord: field_value(fs, 3)->Some_0,
                vertex_id,
            },
        )
    }
}

/// The polylines after the buffered vertices are closed as group `group_no + 1`: kept
/// only with two vertices or more, and left out when `dedup` holds and an equal
/// polyline is already there.
pub open spec fn close_group(
    crosses: Seq<CrossView>,
    group_no: int,
    buffer: Seq<CrossCoordinate3d>,
    dedup: bool,
) -> Seq<CrossView> {
    if buffer.len() >= 2 {
        let c: CrossView = ((group_no + 1) as i32, buffer);
        if dedup && crosses.contains(c) {
            crosses
        } else {
            crosses.push(c)
        }
    } else {
        crosses
    }
}

/// The outcome of reading `lines` from index `i` on, with the polylines found so far,
/// the current group number and the vertices buffered since the last marker line.
pub open spec fn read_from(
    lines: Seq<Seq<u8>>,
    i: int,
    marker: Seq<u8>,
    dedup: bool,
    flush_trailing: bool,
    crosses: Seq<CrossView>,
    group_no: int,
    buffer: Seq<CrossCoordinate3d>,
) -> Result<Seq<CrossView>, CrossReadError>
    decreases lines.len() - i,
{
    if i >= lines.len() {
        Ok(
            if flush_trailing {
                close_group(crosses, group_no, buffer, dedup)
            } else {
                crosses
            },
        )
    } else if contains_seq(lines[i], marker) {
        read_from(
            lines,
            i + 1,
            marker,
            dedup,
            flush_trailing,
            close_group(crosses, group_no, buffer, dedup),
            group_no + 1,
            Seq::empty(),
        )
    } else {
        match vertex_of(lines[i], (buffer.len() + 1) as i32) {
            Ok(v) => read_from(
                lines,
                i + 1,
                marker,
                dedup,
                flush_trailing,
                crosses,
                group_no,
                buffer.push(v),
            ),
            Err(field) => Err(CrossReadError::NumericField { line: (i + 1) as usize, field }),
        }
    }
}

/// What reading a whole file gives: the two header lines are skipped, groups are
/// numbered from 1, and vertex ids restart at 1 in each group.
pub open spec fn read_spec(lines: Seq<Seq<u8>>, marker: Seq<u8>, dedup: bool, flush_trailing: bool) -> Result<
    Seq<CrossView>,
    CrossReadError,
> {
    read_from(lines, 2, marker, dedup, flush_trailing, Seq::empty(), 0, Seq::empty())
}

/// Reading the same lines with the same settings twice gives the same outcome.
pub proof fn lemma_read_deterministic(
    lines: Seq<Seq<u8>>,
    marker: Seq<u8>,
    dedup: bool,
    flush_trailing: bool,
    first: Result<Seq<CrossView>, CrossReadError>,
    second: Result<Seq<CrossView>, CrossReadError>,
)
    requires
        first == read_spec(lines, marker, dedup, flush_trailing),
        second == read_spec(lines, marker, dedup, flush_trailing),
    ensures
        first == second,
{
}

/// From index `i` on, with `run` vertex lines since the last marker line, every line is
/// a marker line closing at least two vertex lines or a readable vertex line; vertex
/// lines after the last marker line are allowed.
pub open spec fn blocks_from(lines: Seq<Seq<u8>>, marker: Seq<u8>, i: int, run: int) -> bool
    decreases lines.len() - i,
{
    if i >= lines.len() || i < 0 {
        true
    } else if contains_seq(lines[i], marker) {
        run >= 2 && blocks_from(lines, marker, i + 1, 0)
    } else {
        vertex_of(lines[i], (run + 1) as i32) is Ok && blocks_from(lines, marker, i + 1, run + 1)
    }
}

/// Number of marker lines from index `i` on.
pub open spec fn markers_from(lines: Seq<Seq<u8>>, marker: Seq<u8>, i: int) -> int
    decreases lines.len() - i,
{
    if i >= lines.len() || i < 0 {
        0
    } else if contains_seq(lines[i], marker) {
        1 + markers_from(lines, marker, i + 1)
    } else {
        markers_from(lines, marker, i + 1)
    }
}

proof fn lemma_markers_from_bound(lines: Seq<Seq<u8>>, marker: Seq<u8>, i: int)
    requires
        0 <= i <= lines.len(),
    ensures
        0 <= markers_from(lines, marker, i) <= lines.len() - i,
    decreases lines.len() - i,
{
    if i < lines.len() {
        lemma_markers_from_bound(lines, marker, i + 1);
    }
}

proof fn lemma_read_blocks(
    lines: Seq<Seq<u8>>,
    marker: Seq<u8>,
    dedup: bool,
    i: int,
    crosses: Seq<CrossView>,
    g: int,
    buffer: Seq<CrossCoordinate3d>,
)
    requires
        0 <= g <= i <= lines.len(),
        buffer.len() <= i,
        lines.len() < i32::MAX,
        blocks_from(lines, marker, i, buffer.len() as int),
        forall|k: int| 0 <= k < crosses.len() ==> (#[trigger] crosses[k]).0 <= g,
    ensures
        read_from(lines, i, marker, dedup, false, crosses, g, buffer) is Ok,
        ({
            let v = read_from(lines, i, marker, dedup, false, crosses, g, buffer)->Ok_0;
            &&& v.len() == crosses.len() + markers_from(lines, marker, i)
            &&& v.take(crosses.len() as int) == crosses
            &&& forall|k: int|
                crosses.len() <= k < v.len() ==> (#[trigger] v[k]).0 == g + 1 + (k - crosses.len())
        }),
    decreases lines.len() - i,
{
    if i < lines.len() {
        if contains_seq(lines[i], marker) {
            let c: CrossView = ((g + 1) as i32, buffer);
            assert(!crosses.contains(c)) by {
                if crosses.contains(c) {
                    let k = choose|k: int| 0 <= k < crosses.len() && crosses[k] == c;
                    assert(crosses[k].0 <= g);
                }
            }
            let next = crosses.push(c);
            assert(close_group(crosses, g, buffer, dedup) == next);
            assert forall|k: int| 0 <= k < next.len() implies (#[trigger] next[k]).0 <= g + 1 by {
                if k < crosses.len() {
                    assert(next[k] == crosses[k]);
                }
            }
            lemma_read_blocks(lines, marker, dedup, i + 1, next, g + 1, Seq::empty());
            let v = read_from(lines, i + 1, marker, dedup, false, next, g + 1, Seq::empty())->Ok_0;
            lemma_markers_from_bound(lines, marker, i + 1);
            assert(v.take(next.len() as int) == next);
            assert(v[crosses.len() as int] == v.take(next.len() as int)[crosses.len() as int]);
            assert forall|k: int| 0 <= k < crosses.len() implies v.take(crosses.len() as int)[k]
                == crosses[k] by {
                assert(v[k] == v.take(next.len() as int)[k]);
                assert(next[k] == crosses[k]);
            }
            assert(v.take(crosses.len() as int) =~= crosses);
            assert(v[crosses.len() as int] == next[crosses.len() as int]);
        } else {
            let id = (buffer.len() + 1) as i32;
            let vtx = vertex_of(lines[i], id)->Ok_0;
            assert(buffer.push(vtx).len() == buffer.len() + 1);
            lemma_read_blocks(lines, marker, dedup, i + 1, crosses, g, buffer.push(vtx));
        }
    } else {
        assert(crosses.take(crosses.len() as int) =~= crosses);
    }
}

/// In a file whose body is made of blocks of at least two readable vertex lines each
/// closed by a marker line (vertex lines after the last marker line allowed), reading
/// without flushing gives one polyline per marker line, numbered 1, 2, ..., N in
/// order; so the largest group number is N, the number of marker lines, and an
/// unclosed last group is not counted.
pub proof fn lemma_group_numbering(lines: Seq<Seq<u8>>, marker: Seq<u8>, dedup: bool)
    requires
        2 <= lines.len() < i32::MAX,
        blocks_from(lines, marker, 2, 0),
    ensures
        read_spec(lines, marker, dedup, false) is Ok,
        (read_spec(lines, marker, dedup, false)->Ok_0).len() == markers_from(lines, marker, 2),
        forall|k: int|
            0 <= k < (read_spec(lines, marker, dedup, false)->Ok_0).len() ==> (#[trigger] (read_spec(
                lines,
                marker,
                dedup,
                false,
            )->Ok_0)[k]).0 == k + 1,
{
    lemma_read_blocks(lines, marker, dedup, 2, Seq::empty(), 0, Seq::empty());
}

/// Whether an equal polyline is among `crosses`.
pub fn contains_cross(crosses: &Vec<Cross>, c: &Cross) -> (r: bool)
    ensures
        r == views(crosses@).contains(c@),
{
    let mut i: usize = 0;
    while i < crosses.len()
        invariant
            i <= crosses@.len(),
            forall|j: int| 0 <= j < i ==> crosses@[j]@ != c@,
        decreases crosses@.len() - i,
    {
        if cross_eq(&crosses[i], c) {
            assert(views(crosses@)[i as int] == c@);
            return true;
        }
        i = i + 1;
    }
    assert forall|j: int| 0 <= j < views(crosses@).len() implies views(crosses@)[j] != c@ by {
        assert(views(crosses@)[j] == crosses@[j]@);
    }
    false
}

/// Reads one vertex line.
fn parse_vertex(line: &[u8], vertex_id: i32) -> (r: Result<CrossCoordinate3d, usize>)
    ensures
        r == vertex_of(line@, vertex_id),
{
    let fields = split_bytes(line, 44);
    proof {
        lemma_split_on_len(line@, 44u8);
    }
    let ghost fs = split_on(line@, 44u8);
    assert(fields@.len() == fs.len());
    let x = if fields.len() > 1 {
        assert(fields@[1]@ == fs[1]);
        parse_fixed(fields[1].as_slice())
    } else {
        None
    };
    let y = if fields.len() > 2 {
        assert(fields@[2]@ == fs[2]);
        parse_fixed(fields[2].as_slice())
    } else {
        None
    };
    let z = if fields.len() > 3 {
        assert(fields@[3]@ == fs[3]);
        parse_fixed(fields[3].as_slice())
    } else {
        None
    };
    match (x, y, z) {
        (Some(x), Some(y), Some(z)) => Ok(CrossCoordinate3d::new(x, y, z, vertex_id)),
        (None, _, _) => Err(1),
        (_, None, _) => Err(2),
        (_, _, None) => Err(3),
    }
}

/// Closes the buffered vertices as group `group_no + 1` (see [`close_group`]).
fn close_buffer(crosses: &mut Vec<Cross>, group_no: i32, buffer: Vec<CrossCoordinate3d>, dedup: bool)
    requires
        group_no < i32::MAX,
    ensures
        views(final(crosses)@) == close_group(views(old(crosses)@), group_no as int, buffer@, dedup),
        all_polylines(views(old(crosses)@)) ==> all_polylines(views(final(crosses)@)),
{
    if buffer.len() >= 2 {
        let c = Cross::new(group_no + 1, buffer);
        let seen = dedup && contains_cross(crosses, &c);
        if !seen {
            crosses.push(c);
            assert(views(crosses@) =~= views(old(crosses)@).push(c@));
        }
    }
}

/// Reads the polylines of a cross-section file given as its lines.
///
/// `seperator` is the marker text of group-closing lines. With `duplicate_avoiding`
/// a polyline equal to one already read is not added again. With `flush_trailing`
/// the vertices after the last marker line form a last polyline; without it they
/// are dropped.
pub fn read_cross_lines(
    lines: &Vec<String>,
    seperator: &str,
    duplicate_avoiding: bool,
    flush_trailing: bool,
) -> (r: Result<Vec<Cross>, CrossReadError>)
    requires
        lines@.len() < i32::MAX,
    ensures
        match r {
            Ok(v) => read_spec(line_bytes(lines@), encode_utf8(seperator@), duplicate_avoiding, flush_trailing) == Ok::<Seq<CrossView>, CrossReadError>(views(v@)),
            Err(e) => read_spec(line_bytes(lines@), encode_utf8(seperator@), duplicate_avoiding, flush_trailing) == Err::<Seq<CrossView>, CrossReadError>(e),
        },
        r matches Ok(v) ==> all_polylines(views(v@)),
{
    let ghost ls = line_bytes(lines@);
    let ghost marker = encode_utf8(seperator@);
    let marker_bytes = seperator.as_bytes();
    let mut crosses: Vec<Cross> = Vec::new();
    let mut group_no: i32 = 0;
    let mut buffer: Vec<CrossCoordinate3d> = Vec::new();
    let mut i: usize = 2;
    assert(views(crosses@) =~= Seq::<CrossView>::empty());
    if lines.len() < 2 {
        return Ok(crosses);
    }
    while i < lines.len()
        invariant
            2 <= i <= lines@.len(),
            lines@.len() < i32::MAX,
            ls == line_bytes(lines@),
            marker == encode_utf8(seperator@),
            marker_bytes@ == marker,
            0 <= group_no <= i,
            all_polylines(views(crosses@)),
            buffer@.len() <= i,
            read_spec(ls, marker, duplicate_avoiding, flush_trailing) == read_from(
                ls,
                i as int,
                marker,
                duplicate_avoiding,
                flush_trailing,
                views(crosses@),
                group_no as int,
                buffer@,
            ),
        decreases lines@.len() - i,
    {
        let line = lines[i].as_str().as_bytes();
        assert(line@ == ls[i as int]);
        if contains_bytes(line, marker_bytes) {
            close_buffer(&mut crosses, group_no, buffer, duplicate_avoiding);
            buffer = Vec::new();
            group_no = group_no + 1;
        } else {
            let id = (buffer.len() + 1) as i32;
            match parse_vertex(line, id) {
                Ok(v) => {
                    buffer.push(v);
                },
                Err(field) => {
                    return Err(CrossReadError::NumericField { line: i + 1, field });
                },
            }
        }
        i = i + 1;
    }
    if flush_trailing {
        close_buffer(&mut crosses, group_no, buffer, duplicate_avoiding);
    }
    Ok(crosses)
}

} // verus!

verus! {

/// Where and how a cross-section file is read.
#[derive(Debug)]
pub struct CrossInformation {
    pub path: String,
    /// Label of the mined element, carried along for display.
    pub mining_type: String,
    /// Marker text of the lines that close a polyline.
    pub seperator: String,
    /// Leave out a polyline equal to one already read.
    pub duplicate_avoiding: bool,
    /// Keep the vertices after the last marker line as a last polyline.
    pub flush_trailing: bool,
}

impl CrossInformation {
    /// Settings with duplicate avoidance on and the trailing open group dropped.
    pub fn new(path: String, mining_type: String, seperator: String) -> (r: CrossInformation)
        ensures
            r.path@ == path@,
            r.mining_type@ == mining_type@,
            r.seperator@ == seperator@,
            r.duplicate_avoiding,
            !r.flush_trailing,
    {
        CrossInformation { path, mining_type, seperator, duplicate_avoiding: true, flush_trailing: false }
    }

    /// What reading `lines` with these settings gives.
    pub open spec fn read_result(&self, lines: Seq<String>) -> Result<Seq<CrossView>, CrossReadError> {
        read_spec(
            line_bytes(lines),
            encode_utf8(self.seperator@),
            self.duplicate_avoiding,
            self.flush_trailing,
        )
    }

    /// Reads the polylines of a file given as its lines.
    pub fn read(&self, lines: &Vec<String>) -> (r: Result<Vec<Cross>, CrossReadError>)
        requires
            lines@.len() < i32::MAX,
        ensures
            match r {
                Ok(v) => self.read_result(lines@) == Ok::<Seq<CrossView>, CrossReadError>(views(v@)),
                Err(e) => self.read_result(lines@) == Err::<Seq<CrossView>, CrossReadError>(e),
            },
            r matches Ok(v) ==> all_polylines(views(v@)),
    {
        read_cross_lines(lines, self.seperator.as_str(), self.duplicate_avoiding, self.flush_trailing)
    }
}

} // verus!
