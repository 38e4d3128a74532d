//! `PointCloud`: an insertion-ordered collection of `Vector3` values, built
//! from delimited text, with an axis-aligned bounding-box query and a
//! closed-box filter.

use vstd::prelude::*;
use crate::parse::{
    lines_of, number_of, fits_scalar, split_fields, trim_of, views_of, split_lines, trim_chars,
    split_fields_chars, parse_scalar,
};
use crate::vector::Vector3;

verus! {

/// Failure of `PointCloud::load`: the first source line that is not a valid
/// data row, counted from 1 over the whole text (the header is line 1).
#[derive(Debug, PartialEq, Eq, Structural, Copy, Clone)]
pub struct ParseError {
    pub line: usize,
}

/// The point a data line denotes: at least three ", "-separated fields after
/// trimming, the first three being integer-valued decimal scalars that fit
/// the coordinate type. Fields beyond the third are ignored.
pub open spec fn row_of(line: Seq<char>) -> Option<Vector3> {
    let fs = split_fields(trim_of(line));
    if fs.len() < 3 {
        None
    } else {
        match (number_of(fs[0]), number_of(fs[1]), number_of(fs[2])) {
            (Some(x), Some(y), Some(z)) => if fits_scalar(x) && fits_scalar(y) && fits_scalar(z) {
                Some(Vector3 { x: x as i64, y: y as i64, z: z as i64 })
            } else {
                None
            },
            _ => None,
        }
    }
}

/// The data lines of a text: everything after the header line.
pub open spec fn data_lines_of(text: Seq<char>) -> Seq<Seq<char>> {
    if lines_of(text).len() == 0 {
        Seq::empty()
    } else {
        lines_of(text).skip(1)
    }
}

/// `p` lies within the closed axis-aligned box `[min, max]`.
pub open spec fn in_box(p: Vector3, min: Vector3, max: Vector3) -> bool {
    min.x <= p.x && p.x <= max.x && min.y <= p.y && p.y <= max.y && min.z <= p.z && p.z <= max.z
}

/// The box test as a predicate value, for use with `Seq::filter`.
pub open spec fn box_pred(min: Vector3, max: Vector3) -> spec_fn(Vector3) -> bool {
    |p: Vector3| in_box(p, min, max)
}

pub open spec fn min_i(a: int, b: int) -> int {
    if a <= b {
        a
    } else {
        b
    }
}

pub open spec fn max_i(a: int, b: int) -> int {
    if a >= b {
        a
    } else {
        b
    }
}

/// The componentwise minimum and maximum over a point sequence, and the
/// origin pair for the empty sequence.
pub open spec fn bounds_of(s: Seq<Vector3>) -> (Vector3, Vector3)
    decreases s.len(),
{
    if s.len() == 0 {
        (Vector3 { x: 0, y: 0, z: 0 }, Vector3 { x: 0, y: 0, z: 0 })
    } else if s.len() == 1 {
        (s[0], s[0])
    } else {
        let (mn, mx) = bounds_of(s.drop_last());
        let p = s.last();
        (
            Vector3 {
                x: min_i(mn.x as int, p.x as int) as i64,
                y: min_i(mn.y as int, p.y as int) as i64,
                z: min_i(mn.z as int, p.z as int) as i64,
            },
            Vector3 {
                x: max_i(mx.x as int, p.x as int) as i64,
                y: max_i(mx.y as int, p.y as int) as i64,
                z: max_i(mx.z as int, p.z as int) as i64,
            },
        )
    }
}

/// An insertion-ordered sequence of points. May hold duplicates; order is
/// exactly the order of appends, or of data lines when loaded from text.
#[derive(Debug)]
pub struct PointCloud {
    points: Vec<Vector3>,
}

impl View for PointCloud {
    type V = Seq<Vector3>;

    closed spec fn view(&self) -> Seq<Vector3> {
        self.points@
    }
}

/// Parse one line as a data row.
fn parse_row(line: &Vec<char>) -> (r: Option<Vector3>)
    ensures
        r == row_of(line@),
{
    let t = trim_chars(line);
    let fields = split_fields_chars(&t, 0);
    proof {
        assert(t@.skip(0) =~= t@);
        assert(views_of(fields@) == split_fields(trim_of(line@)));
    }
    if fields.len() < 3 {
        return None;
    }
    let x = match parse_scalar(&fields[0]) {
        Some(x) => x,
        None => {
            return None;
        },
    };
    let y = match parse_scalar(&fields[1]) {
        Some(y) => y,
        None => {
            return None;
        },
    };
    let z = match parse_scalar(&fields[2]) {
        Some(z) => z,
        None => {
            return None;
        },
    };
    Some(Vector3 { x, y, z })
}

impl PointCloud {
    /// The empty cloud.
    pub fn new() -> (pc: PointCloud)
        ensures
            pc@ == Seq::<Vector3>::empty(),
    {
        PointCloud { points: Vec::new() }
    }

    /// Build a cloud from delimited text: a header line (ignored), then one
    /// point per line. Any invalid data line aborts the whole load with the
    /// number of the first such line; otherwise the cloud holds exactly the
    /// points of the data lines, in line order.
    pub fn load(source: &str) -> (r: Result<PointCloud, ParseError>)
        ensures
            match r {
                Ok(pc) => {
                    &&& pc@.len() == data_lines_of(source@).len()
                    &&& forall|i: int|
                        0 <= i < pc@.len() ==> row_of(data_lines_of(source@)[i]) == Some(pc@[i])
                },
                Err(e) => {
                    &&& 2 <= e.line
                    &&& e.line - 2 < data_lines_of(source@).len()
                    &&& row_of(data_lines_of(source@)[e.line - 2]) is None
                    &&& forall|j: int|
                        0 <= j < e.line - 2 ==> row_of(data_lines_of(source@)[j]) is Some
                },
            },
    {
        let lines = split_lines(source);
        let mut points: Vec<Vector3> = Vec::new();
        let mut idx: usize = 1;
        while idx < lines.len()
            invariant
                1 <= idx,
                lines@.len() == 0 ==> idx == 1,
                lines@.len() > 0 ==> idx <= lines@.len(),
                views_of(lines@) == lines_of(source@),
                points@.len() == idx - 1,
                forall|i: int| 0 <= i < points@.len() ==> row_of(lines@[i + 1]@) == Some(points@[i]),
            decreases lines@.len() - idx,
        {
            match parse_row(&lines[idx]) {
                Some(p) => {
                    points.push(p);
                },
                None => {
                    proof {
                        assert(data_lines_of(source@)[idx - 1] == lines@[idx as int]@);
                        assert forall|j: int|
                            0 <= j < idx - 1 implies row_of(
                            #[trigger] data_lines_of(source@)[j],
                        ) is Some by {
                            assert(row_of(lines@[j + 1]@) == Some(points@[j]));
                            assert(data_lines_of(source@)[j] == lines@[j + 1]@);
                        }
                    }
                    return Err(ParseError { line: idx + 1 });
                },
            }
            idx += 1;
        }
        proof {
            assert(forall|j: int|
                0 <= j < points@.len() ==> #[trigger] data_lines_of(source@)[j] == lines@[j + 1]@);
        }
        Ok(PointCloud { points })
    }

    /// Read-only access to the points, in insertion order.
    pub fn iter_points(&self) -> (r: &Vec<Vector3>)
        ensures
            r@ == self@,
    {
        &self.points
    }

    /// Append a point at the end of the sequence.
    pub fn add_point(&mut self, point: Vector3)
        ensures
            final(self)@ == old(self)@.push(point),
    {
        self.points.push(point);
    }

    /// True exactly when the cloud holds no points.
    pub fn is_empty(&self) -> (r: bool)
        ensures
            r == (self@.len() == 0),
    {
        self.points.len() == 0
    }

    /// Consume the cloud and keep exactly the points within the closed box
    /// `[min, max]`, in their original relative order.
    pub fn sub_box(self, min: Vector3, max: Vector3) -> (r: PointCloud)
        ensures
            r@ == self@.filter(box_pred(min, max)),
    {
        let ghost s = self.points@;
        let mut out: Vec<Vector3> = Vec::new();
        let mut i: usize = 0;
        while i < self.points.len()
            invariant
                0 <= i <= s.len(),
                s == self.points@,
                out@ == s.take(i as int).filter(box_pred(min, max)),
            decreases s.len() - i,
        {
            let p = self.points[i];
            if min.x <= p.x && p.x <= max.x && min.y <= p.y && p.y <= max.y && min.z <= p.z
                && p.z <= max.z {
                out.push(p);
            }
            proof {
                lemma_filter_push(s.take(i as int), box_pred(min, max), p);
                assert(s.take(i + 1 as int) =~= s.take(i as int).push(p));
            }
            i += 1;
        }
        proof {
            assert(s.take(s.len() as int) =~= s);
        }
        PointCloud { points: out }
    }

    /// The axis-aligned bounding box: componentwise minimum and maximum over
    /// all points, in one pass. The empty cloud yields the origin pair — a
    /// sentinel, not an error; use `is_empty` to tell the two apart.
    pub fn boundaries(&self) -> (r: (Vector3, Vector3))
        ensures
            r == bounds_of(self@),
    {
        let ghost s = self.points@;
        if self.points.len() == 0 {
            return (Vector3 { x: 0, y: 0, z: 0 }, Vector3 { x: 0, y: 0, z: 0 });
        }
        let first = self.points[0];
        let mut mn = first;
        let mut mx = first;
        let mut i: usize = 1;
        while i < self.points.len()
            invariant
                1 <= i <= s.len(),
                s == self.points@,
                (mn, mx) == bounds_of(s.take(i as int)),
            decreases s.len() - i,
        {
            let p = self.points[i];
            proof {
                assert(s.take(i + 1 as int).drop_last() =~= s.take(i as int));
                assert(s.take(i + 1 as int).last() == s[i as int]);
            }
            if p.x < mn.x {
                mn.x = p.x;
            }
            if p.y < mn.y {
                mn.y = p.y;
            }
            if p.z < mn.z {
                mn.z = p.z;
            }
            if p.x > mx.x {
                mx.x = p.x;
            }
            if p.y > mx.y {
                mx.y = p.y;
            }
            if p.z > mx.z {
                mx.z = p.z;
            }
            i += 1;
        }
        proof {
            assert(s.take(s.len() as int) =~= s);
        }
        (mn, mx)
    }
}

/// Filtering a sequence extended by one element keeps the element exactly
/// when the predicate holds of it.
pub proof fn lemma_filter_push(s: Seq<Vector3>, pred: spec_fn(Vector3) -> bool, x: Vector3)
    ensures
        s.push(x).filter(pred) == (if pred(x) {
            s.filter(pred).push(x)
        } else {
            s.filter(pred)
        }),
{
    reveal(Seq::filter);
    assert(s.push(x).drop_last() =~= s);
    assert(s.push(x).last() == x);
}

/// Law: every point of a cloud lies within the cloud's bounding box,
/// componentwise, on every axis.
pub proof fn lemma_bounds_contain(s: Seq<Vector3>, i: int)
    requires
        0 <= i < s.len(),
    ensures
        bounds_of(s).0.x <= s[i].x <= bounds_of(s).1.x,
        bounds_of(s).0.y <= s[i].y <= bounds_of(s).1.y,
        bounds_of(s).0.z <= s[i].z <= bounds_of(s).1.z,
    decreases s.len(),
{
    if s.len() > 1 && i < s.len() - 1 {
        lemma_bounds_contain(s.drop_last(), i);
    }
}

/// Law: the bounding box of the empty cloud is the origin pair.
pub proof fn lemma_bounds_empty()
    ensures
        bounds_of(Seq::<Vector3>::empty()) == (
            Vector3 { x: 0, y: 0, z: 0 },
            Vector3 { x: 0, y: 0, z: 0 },
        ),
{
}

/// Law: filtering by the same box twice gives the same sequence as filtering
/// once, so `sub_box` is idempotent.
pub proof fn lemma_sub_box_idempotent(s: Seq<Vector3>, min: Vector3, max: Vector3)
    ensures
        s.filter(box_pred(min, max)).filter(box_pred(min, max)) == s.filter(box_pred(min, max)),
    decreases s.len(),
{
    reveal(Seq::filter);
    if s.len() > 0 {
        lemma_sub_box_idempotent(s.drop_last(), min, max);
        if box_pred(min, max)(s.last()) {
            lemma_filter_push(s.drop_last().filter(box_pred(min, max)), box_pred(min, max), s.last());
        }
    }
}

/// Law: with a well-formed box (`min` at most `max` on every axis), a point
/// equal to `min` on every axis, or to `max` on every axis, passes the box
/// test, so `sub_box` retains it.
pub proof fn lemma_sub_box_keeps_corners(s: Seq<Vector3>, min: Vector3, max: Vector3, i: int)
    requires
        min.x <= max.x,
        min.y <= max.y,
        min.z <= max.z,
        0 <= i < s.len(),
        s[i] == min || s[i] == max,
    ensures
        s.filter(box_pred(min, max)).contains(s[i]),
{
    assert(in_box(s[i], min, max));
    s.lemma_filter_contains(box_pred(min, max), i);
}

} // verus!
