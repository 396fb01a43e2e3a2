//! Polygons and the sign-consistency point-containment test.

use vstd::prelude::*;

use crate::parse::{
    parse_point, spec_parse_point, spec_split_lines, split_lines, ParseError,
};
use crate::point::{cross_product, lemma_cross_antisymmetric, spec_cross, Point};

verus! {

/// The exec points hold exactly the parsed coordinate values.
pub open spec fn points_match(ps: Seq<Point>, vs: Seq<(int, int)>) -> bool {
    &&& ps.len() == vs.len()
    &&& forall|k: int|
        0 <= k < ps.len() ==> (#[trigger] ps[k]).x == vs[k].0 && ps[k].y == vs[k].1
}

/// What parsing lines `i..` yields: the coordinate pairs of every line in
/// order, or the error of the first line that fails.
pub open spec fn spec_parse_lines(lines: Seq<Seq<u8>>, i: int) -> Result<
    Seq<(int, int)>,
    ParseError,
>
    decreases lines.len() - i,
{
    if i < 0 || i >= lines.len() {
        Ok(Seq::empty())
    } else {
        match spec_parse_point(lines[i]) {
            Err(e) => Err(e),
            Ok(v) => match spec_parse_lines(lines, i + 1) {
                Err(e) => Err(e),
                Ok(rest) => Ok(seq![v] + rest),
            },
        }
    }
}

/// What parsing a whole text blob yields.
pub open spec fn spec_parse_text(s: Seq<u8>) -> Result<Seq<(int, int)>, ParseError> {
    spec_parse_lines(spec_split_lines(s), 0)
}

#[verifier::rlimit(60)]
proof fn lemma_parse_lines_all_ok(lines: Seq<Seq<u8>>, i: int)
    requires
        0 <= i <= lines.len(),
        forall|j: int| i <= j < lines.len() ==> spec_parse_point(#[trigger] lines[j]) is Ok,
    ensures
        spec_parse_lines(lines, i) is Ok,
        spec_parse_lines(lines, i)->Ok_0.len() == lines.len() - i,
        forall|k: int|
            0 <= k < lines.len() - i ==> #[trigger] spec_parse_lines(lines, i)->Ok_0[k]
                == spec_parse_point(lines[i + k])->Ok_0,
    decreases lines.len() - i,
{
    if i < lines.len() {
        lemma_parse_lines_all_ok(lines, i + 1);
        let v = spec_parse_point(lines[i])->Ok_0;
        let rest = spec_parse_lines(lines, i + 1)->Ok_0;
        assert forall|k: int|
            0 <= k < lines.len() - i implies #[trigger] spec_parse_lines(lines, i)->Ok_0[k]
            == spec_parse_point(lines[i + k])->Ok_0 by {
            if k > 0 {
                assert((seq![v] + rest)[k] == rest[k - 1]);
            }
        }
    }
}

proof fn lemma_parse_lines_first_err(lines: Seq<Seq<u8>>, k: int, i: int)
    requires
        0 <= k <= i < lines.len(),
        forall|j: int| k <= j < i ==> spec_parse_point(#[trigger] lines[j]) is Ok,
        spec_parse_point(lines[i]) is Err,
    ensures
        spec_parse_lines(lines, k) is Err,
        spec_parse_lines(lines, k)->Err_0 == spec_parse_point(lines[i])->Err_0,
    decreases i - k,
{
    if k < i {
        lemma_parse_lines_first_err(lines, k + 1, i);
    }
}

/// Index of the vertex that follows `i` when walking the boundary: the
/// edge after the last vertex closes the polygon back to vertex `0`.
pub open spec fn next_vertex(i: int, n: int) -> int {
    if i + 1 == n {
        0
    } else {
        i + 1
    }
}

/// Cross product of edge `i` of the vertex sequence `s` with the query
/// point `q`: the edge runs from `s[i]` to the vertex after it.
pub open spec fn edge_cross(s: Seq<Point>, q: Point, i: int) -> int {
    spec_cross(s[i], s[next_vertex(i, s.len() as int)], q)
}

/// Some edge sees `q` strictly on its positive side.
pub open spec fn has_positive(s: Seq<Point>, q: Point) -> bool {
    exists|i: int| 0 <= i < s.len() && #[trigger] edge_cross(s, q, i) > 0
}

/// Some edge sees `q` strictly on its negative side.
pub open spec fn has_negative(s: Seq<Point>, q: Point) -> bool {
    exists|i: int| 0 <= i < s.len() && #[trigger] edge_cross(s, q, i) < 0
}

/// The containment predicate: `q` is inside the polygon with vertex
/// sequence `s` when the polygon has at least three vertices and no two
/// edges see `q` strictly on opposite sides.  Edges collinear with `q`
/// neither confirm nor deny containment, so a point exactly on an edge
/// counts as inside; a fully collinear vertex sequence makes every cross
/// product zero and also yields `true` — a tolerance artifact of the
/// sign test, not a deliberate classification of degenerate polygons.
pub open spec fn spec_contains(s: Seq<Point>, q: Point) -> bool {
    s.len() >= 3 && !(has_positive(s, q) && has_negative(s, q))
}

/// Every vertex of the sequence is within coordinate bounds.
pub open spec fn poly_wf(s: Seq<Point>) -> bool {
    forall|i: int| 0 <= i < s.len() ==> (#[trigger] s[i]).wf()
}

/// An ordered sequence of vertices, walked consistently (either clockwise
/// or counter-clockwise) around the boundary.  Read-only once built.
pub struct Polygon {
    vertices: Vec<Point>,
}

impl View for Polygon {
    type V = Seq<Point>;

    closed spec fn view(&self) -> Seq<Point> {
        self.vertices@
    }
}

impl Polygon {
    /// All vertices are within coordinate bounds.
    pub open spec fn wf(&self) -> bool {
        poly_wf(self@)
    }

    /// Builds a polygon from its vertices, in boundary order.
    pub fn new(vertices: Vec<Point>) -> (r: Polygon)
        ensures
            r@ == vertices@,
    {
        Polygon { vertices }
    }

    /// Number of vertices.
    pub fn vertex_count(&self) -> (n: usize)
        ensures
            n == self@.len(),
    {
        self.vertices.len()
    }

    /// The vertex at position `i` in boundary order.
    pub fn vertex(&self, i: usize) -> (p: Point)
        requires
            i < self@.len(),
        ensures
            p == self@[i as int],
    {
        self.vertices[i]
    }

    /// Runtime check for [`Polygon::wf`], for callers outside verified code.
    pub fn is_well_formed(&self) -> (r: bool)
        ensures
            r == self.wf(),
    {
        let mut i: usize = 0;
        while i < self.vertices.len()
            invariant
                i <= self@.len(),
                forall|j: int| 0 <= j < i ==> (#[trigger] self@[j]).wf(),
            decreases self@.len() - i,
        {
            if !self.vertices[i].is_well_formed() {
                return false;
            }
            i += 1;
        }
        true
    }

    /// Builds a polygon from a sequence of text lines, each parsed as one
    /// vertex via [`parse_point`], in order.  The first line that fails
    /// aborts construction with its error: no partial polygon is built.
    pub fn from_lines(lines: &Vec<Vec<u8>>) -> (r: Result<Polygon, ParseError>)
        ensures
            ({
                match spec_parse_lines(lines.deep_view(), 0) {
                    Ok(pts) => r is Ok && points_match(r->Ok_0@, pts) && r->Ok_0.wf(),
                    Err(e) => r is Err && r->Err_0 == e,
                }
            }),
    {
        let ghost ls = lines.deep_view();
        let mut pts: Vec<Point> = Vec::new();
        let mut i: usize = 0;
        while i < lines.len()
            invariant
                i <= lines@.len(),
                ls == lines.deep_view(),
                pts@.len() == i,
                forall|j: int| 0 <= j < i ==> spec_parse_point(#[trigger] ls[j]) is Ok,
                forall|j: int|
                    0 <= j < i ==> (#[trigger] pts@[j]).x == spec_parse_point(ls[j])->Ok_0.0
                        && pts@[j].y == spec_parse_point(ls[j])->Ok_0.1,
                forall|j: int| 0 <= j < i ==> (#[trigger] pts@[j]).wf(),
            decreases lines@.len() - i,
        {
            let line: &Vec<u8> = &lines[i];
            proof {
                assert(ls[i as int] =~= line@);
            }
            match parse_point(line.as_slice()) {
                Err(e) => {
                    proof {
                        lemma_parse_lines_first_err(ls, 0, i as int);
                    }
                    return Err(e);
                },
                Ok(p) => {
                    pts.push(p);
                },
            }
            i += 1;
        }
        proof {
            lemma_parse_lines_all_ok(ls, 0);
        }
        Ok(Polygon { vertices: pts })
    }

    /// Builds a polygon from a text blob of newline-separated lines, one
    /// vertex per line, failing fast on the first bad line.
    pub fn from_text(text: &[u8]) -> (r: Result<Polygon, ParseError>)
        ensures
            ({
                match spec_parse_text(text@) {
                    Ok(pts) => r is Ok && points_match(r->Ok_0@, pts) && r->Ok_0.wf(),
                    Err(e) => r is Err && r->Err_0 == e,
                }
            }),
    {
        let lines = split_lines(text);
        Polygon::from_lines(&lines)
    }

    /// Decides whether `point` lies inside the polygon (boundary included).
    ///
    /// Each edge's cross product with the query point is classified by
    /// sign; a zero is skipped.  The first nonzero sign sets the expected
    /// sign for the rest of the walk, and any later nonzero cross product
    /// of the opposite sign means the point is outside.  A polygon with
    /// fewer than three vertices contains nothing.
    pub fn check_point(&self, point: Point) -> (r: bool)
        requires
            self.wf(),
            point.wf(),
        ensures
            r == spec_contains(self@, point),
            self@.len() < 3 ==> r == false,
    {
        let n = self.vertices.len();
        if n < 3 {
            return false;
        }
        let mut seen_pos = false;
        let mut seen_neg = false;
        let mut i: usize = 0;
        while i < n
            invariant
                3 <= n == self@.len(),
                i <= n,
                self.wf(),
                point.wf(),
                seen_pos == exists|j: int|
                    0 <= j < i && #[trigger] edge_cross(self@, point, j) > 0,
                seen_neg == exists|j: int|
                    0 <= j < i && #[trigger] edge_cross(self@, point, j) < 0,
                !(seen_pos && seen_neg),
            decreases n - i,
        {
            let p1 = self.vertices[i];
            let succ = if i + 1 == n {
                0
            } else {
                i + 1
            };
            let p2 = self.vertices[succ];
            assert(self@[i as int].wf() && self@[succ as int].wf());
            let cross = cross_product(p1, p2, point);
            assert(cross == edge_cross(self@, point, i as int));
            if cross > 0 {
                if seen_neg {
                    assert(has_positive(self@, point));
                    assert(has_negative(self@, point));
                    return false;
                }
                seen_pos = true;
            } else if cross < 0 {
                if seen_pos {
                    assert(has_positive(self@, point));
                    assert(has_negative(self@, point));
                    return false;
                }
                seen_neg = true;
            }
            i += 1;
        }
        true
    }
}

/// Edge `j` of the reversed sequence retraces edge `rev_edge(j, n)` of the
/// original sequence in the opposite direction.
pub open spec fn rev_edge(j: int, n: int) -> int {
    if j == n - 1 {
        n - 1
    } else {
        n - 2 - j
    }
}

/// Containment is orientation-agnostic: reversing the vertex order of a
/// polygon never changes the result of the sign-consistency test, for any
/// query point.  Reversal rewrites each edge backwards, which negates every
/// cross product, and the test only asks whether two strict signs disagree.
pub proof fn lemma_check_point_reverse(s: Seq<Point>, q: Point)
    ensures
        spec_contains(s.reverse(), q) == spec_contains(s, q),
{
    let n = s.len() as int;
    let r = s.reverse();
    assert(r.len() == n);
    if n >= 3 {
        assert forall|j: int| 0 <= j < n implies #[trigger] edge_cross(r, q, j) == -edge_cross(
            s,
            q,
            rev_edge(j, n),
        ) by {
            if j < n - 1 {
                assert(r[j] == s[n - 1 - j]);
                assert(next_vertex(j, n) == j + 1);
                assert(r[j + 1] == s[n - 2 - j]);
                assert(next_vertex(n - 2 - j, n) == n - 1 - j);
                lemma_cross_antisymmetric(s[n - 1 - j], s[n - 2 - j], q);
            } else {
                assert(r[n - 1] == s[0]);
                assert(next_vertex(n - 1, n) == 0);
                assert(r[0] == s[n - 1]);
                lemma_cross_antisymmetric(s[0], s[n - 1], q);
            }
        }
        assert(has_positive(r, q) <==> has_negative(s, q)) by {
            if has_positive(r, q) {
                let j = choose|j: int| 0 <= j < n && #[trigger] edge_cross(r, q, j) > 0;
                assert(0 <= rev_edge(j, n) < n);
                assert(edge_cross(s, q, rev_edge(j, n)) < 0);
            }
            if has_negative(s, q) {
                let i = choose|i: int| 0 <= i < n && #[trigger] edge_cross(s, q, i) < 0;
                let j = rev_edge(i, n);
                assert(0 <= j < n && rev_edge(j, n) == i);
                assert(edge_cross(r, q, j) > 0);
            }
        }
        assert(has_negative(r, q) <==> has_positive(s, q)) by {
            if has_negative(r, q) {
                let j = choose|j: int| 0 <= j < n && #[trigger] edge_cross(r, q, j) < 0;
                assert(0 <= rev_edge(j, n) < n);
                assert(edge_cross(s, q, rev_edge(j, n)) > 0);
            }
            if has_positive(s, q) {
                let i = choose|i: int| 0 <= i < n && #[trigger] edge_cross(s, q, i) > 0;
                let j = rev_edge(i, n);
                assert(0 <= j < n && rev_edge(j, n) == i);
                assert(edge_cross(r, q, j) < 0);
            }
        }
    }
}

/// Containment is a pure function of the vertex sequence and the query
/// point: checking the same point against an unmodified polygon any number
/// of times yields the same answer every time.
pub proof fn lemma_check_point_deterministic(s1: Seq<Point>, s2: Seq<Point>, q1: Point, q2: Point)
    requires
        s1 == s2,
        q1 == q2,
    ensures
        spec_contains(s1, q1) == spec_contains(s2, q2),
{
}

} // verus!
