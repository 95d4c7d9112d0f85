//! The layout of ASCII STL text: which lines give facet normals and which
//! give vertices.
//!
//! Each line is trimmed of white space. A line that then starts with
//! `facet normal` gives a normal from the next three words after that prefix;
//! one that starts with `vertex` gives a vertex in the same way; other lines
//! are skipped. Every three vertices make a triangle (`stl_triangles`); the
//! caller reads the numbers from the words that the layout points at.

use vstd::prelude::*;
use crate::obj::{
    chars_of, find_line_end, lemma_line_end_bounds, lemma_scan_bounds, lemma_words_bounds, line_end, skip_ws,
    skip_ws_at, uranges, urange, words_between, words_from,
};

verus! {

/// Whether the characters of `p` stand at positions `a` on, before `e`.
pub open spec fn has_prefix(s: Seq<char>, a: int, e: int, p: Seq<char>) -> bool {
    &&& 0 <= a
    &&& a + p.len() <= e
    &&& e <= s.len()
    &&& s.subrange(a, a + p.len()) == p
}

/// The prefix of a facet normal line.
pub open spec fn normal_prefix() -> Seq<char> {
    seq!['f', 'a', 'c', 'e', 't', ' ', 'n', 'o', 'r', 'm', 'a', 'l']
}

/// The prefix of a vertex line.
pub open spec fn vertex_prefix() -> Seq<char> {
    seq!['v', 'e', 'r', 't', 'e', 'x']
}

/// A line that the layout reports: a facet normal or a vertex, whose three
/// numbers are the words at these character ranges of the text.
#[derive(Clone, Copy, PartialEq, Eq, Debug)]
pub enum StlRecord {
    Normal((usize, usize), (usize, usize), (usize, usize)),
    Vertex((usize, usize), (usize, usize), (usize, usize)),
}

/// Why ASCII STL text has no mesh: a facet normal or a vertex line without
/// three more words (or, found by the caller, with one that is not a number).
#[derive(Clone, Copy, PartialEq, Eq, Structural, Debug)]
pub enum StlError {
    BadNormal,
    BadVertex,
}

/// The message of each error.
pub open spec fn stl_error_message(e: StlError) -> Seq<char> {
    match e {
        StlError::BadNormal => "Bad Normal"@,
        StlError::BadVertex => "Bad Vertex"@,
    }
}

impl StlError {
    /// The message of this error.
    pub fn message(&self) -> (r: String)
        ensures
            r@ == stl_error_message(*self),
    {
        match self {
            StlError::BadNormal => "Bad Normal".to_owned(),
            StlError::BadVertex => "Bad Vertex".to_owned(),
        }
    }
}

/// What reading on from some point gives: the records up to the first error,
/// and that error, if any.
pub type StlRun = (Seq<StlRecord>, Option<StlError>);

/// Reading the lines from position `i` on.
pub open spec fn stl_from(s: Seq<char>, i: int) -> StlRun
    decreases s.len() - i,
{
    if i < 0 || i >= s.len() {
        (Seq::empty(), None)
    } else {
        let e = line_end(s, i);
        let next = if i <= e < s.len() { e + 1 } else { s.len() as int };
        let t = skip_ws(s, i, e);
        if has_prefix(s, t, e, normal_prefix()) {
            let ws = words_from(s, t + 12, e);
            if ws.len() < 3 {
                (Seq::empty(), Some(StlError::BadNormal))
            } else {
                let rest = stl_from(s, next);
                (seq![StlRecord::Normal(urange(ws[0]), urange(ws[1]), urange(ws[2]))] + rest.0, rest.1)
            }
        } else if has_prefix(s, t, e, vertex_prefix()) {
            let ws = words_from(s, t + 6, e);
            if ws.len() < 3 {
                (Seq::empty(), Some(StlError::BadVertex))
            } else {
                let rest = stl_from(s, next);
                (seq![StlRecord::Vertex(urange(ws[0]), urange(ws[1]), urange(ws[2]))] + rest.0, rest.1)
            }
        } else {
            stl_from(s, next)
        }
    }
}

/// The layout of the ASCII STL text `s`.
pub open spec fn stl_layout_of(s: Seq<char>) -> StlRun {
    stl_from(s, 0)
}

/// Whether the characters of `p` stand at positions `a` on, before `e`.
fn prefix_at(s: &Vec<char>, a: usize, e: usize, p: &[char]) -> (r: bool)
    requires
        a <= e <= s@.len(),
    ensures
        r == has_prefix(s@, a as int, e as int, p@),
{
    if e - a < p.len() {
        return false;
    }
    let mut k: usize = 0;
    while k < p.len()
        invariant
            a + p@.len() <= e <= s@.len(),
            k <= p@.len(),
            forall|j: int| 0 <= j < k ==> s@[a + j] == p@[j],
        decreases p@.len() - k,
    {
        if s[a + k] != p[k] {
            assert(s@.subrange(a as int, a + p@.len())[k as int] != p@[k as int]);
            return false;
        }
        k = k + 1;
    }
    assert(s@.subrange(a as int, a + p@.len()) =~= p@);
    true
}

/// The layout of the ASCII STL text `stl`, as `stl_layout_of` says.
pub fn parse_stl_ascii_layout(stl: &str) -> (r: (Vec<StlRecord>, Option<StlError>))
    ensures
        r.0@ == stl_layout_of(stl@).0,
        r.1 == stl_layout_of(stl@).1,
{
    let s = chars_of(stl);
    let ghost all = stl_layout_of(s@);
    let normal: [char; 12] = ['f', 'a', 'c', 'e', 't', ' ', 'n', 'o', 'r', 'm', 'a', 'l'];
    let vertex: [char; 6] = ['v', 'e', 'r', 't', 'e', 'x'];
    assert(normal@ =~= normal_prefix());
    assert(vertex@ =~= vertex_prefix());
    let mut records: Vec<StlRecord> = Vec::new();
    let mut i: usize = 0;
    while i < s.len()
        invariant
            i <= s@.len(),
            s@ == stl@,
            all == stl_layout_of(s@),
            normal@ == normal_prefix(),
            vertex@ == vertex_prefix(),
            records@ + stl_from(s@, i as int).0 == all.0,
            stl_from(s@, i as int).1 == all.1,
        decreases s@.len() - i,
    {
        let ghost here = stl_from(s@, i as int);
        let ghost before = records@;
        let e = find_line_end(&s, i);
        proof {
            lemma_line_end_bounds(s@, i as int);
            lemma_scan_bounds(s@, i as int, e as int);
        }
        let next = if e < s.len() { e + 1 } else { s.len() };
        let t = skip_ws_at(&s, i, e);
        let is_normal = prefix_at(&s, t, e, normal.as_slice());
        let is_vertex = !is_normal && prefix_at(&s, t, e, vertex.as_slice());
        if is_normal || is_vertex {
            let start = if is_normal { t + 12 } else { t + 6 };
            proof {
                lemma_words_bounds(s@, start as int, e as int);
            }
            let ws = words_between(&s, start, e);
            let ghost w = words_from(s@, start as int, e as int);
            assert(ws@.len() == w.len());
            if ws.len() < 3 {
                assert(records@ =~= all.0);
                let err = if is_normal { StlError::BadNormal } else { StlError::BadVertex };
                return (records, Some(err));
            }
            assert(ws@[0] == urange(w[0]) && ws@[1] == urange(w[1]) && ws@[2] == urange(w[2]));
            if is_normal {
                records.push(StlRecord::Normal(ws[0], ws[1], ws[2]));
            } else {
                records.push(StlRecord::Vertex(ws[0], ws[1], ws[2]));
            }
            let ghost rest = stl_from(s@, next as int);
            assert(here.0 == seq![records@.last()] + rest.0);
            assert(records@ =~= before + seq![records@.last()]);
            assert(records@ + rest.0 =~= before + here.0);
        }
        i = next;
    }
    assert(stl_from(s@, i as int).0 =~= Seq::<StlRecord>::empty());
    assert(records@ =~= all.0);
    (records, None)
}

/// The triangles that the records from `i` on make, every three vertices one
/// triangle: the indices of its three vertex records, then the index of the
/// first record after the triangle before it (or `start`). Its facet normal is
/// among the normal records from that index up to its last vertex. `vs` holds
/// the vertex records of the triangle under way.
pub open spec fn stl_triangles_from(recs: Seq<StlRecord>, i: int, start: int, vs: Seq<usize>) -> Seq<
    (usize, usize, usize, usize),
>
    decreases recs.len() - i,
{
    if i < 0 || i >= recs.len() {
        Seq::empty()
    } else {
        match recs[i] {
            StlRecord::Normal(..) => stl_triangles_from(recs, i + 1, start, vs),
            StlRecord::Vertex(..) => {
                let vs2 = vs.push(i as usize);
                if vs2.len() >= 3 {
                    seq![(vs2[0], vs2[1], vs2[2], start as usize)] + stl_triangles_from(recs, i + 1, i + 1, Seq::empty())
                } else {
                    stl_triangles_from(recs, i + 1, start, vs2)
                }
            },
        }
    }
}

/// The triangles of a sequence of STL records, as `stl_triangles_from` says
/// from the first record on.
pub fn stl_triangles(records: &Vec<StlRecord>) -> (r: Vec<(usize, usize, usize, usize)>)
    ensures
        r@ == stl_triangles_from(records@, 0, 0, Seq::empty()),
{
    let ghost all = stl_triangles_from(records@, 0, 0, Seq::empty());
    let mut out: Vec<(usize, usize, usize, usize)> = Vec::new();
    let mut vs: Vec<usize> = Vec::new();
    let mut start: usize = 0;
    let mut i: usize = 0;
    while i < records.len()
        invariant
            i <= records@.len(),
            start <= i,
            vs@.len() < 3,
            all == stl_triangles_from(records@, 0, 0, Seq::empty()),
            out@ + stl_triangles_from(records@, i as int, start as int, vs@) == all,
        decreases records@.len() - i,
    {
        let ghost before = out@;
        let ghost here = stl_triangles_from(records@, i as int, start as int, vs@);
        match records[i] {
            StlRecord::Normal(..) => {},
            StlRecord::Vertex(..) => {
                vs.push(i);
                if vs.len() >= 3 {
                    out.push((vs[0], vs[1], vs[2], start));
                    let ghost rest = stl_triangles_from(records@, i + 1, i + 1, Seq::empty());
                    assert(here == seq![out@.last()] + rest);
                    assert(out@ =~= before + seq![out@.last()]);
                    assert(out@ + rest =~= before + here);
                    vs = Vec::new();
                    start = i + 1;
                }
            },
        }
        i = i + 1;
    }
    assert(stl_triangles_from(records@, i as int, start as int, vs@) =~= Seq::<(usize, usize, usize, usize)>::empty());
    assert(out@ =~= all);
    out
}

} // verus!
