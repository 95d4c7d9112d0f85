//! The layout of Wavefront OBJ text: which lines give vertices and normals, and
//! which triangles the faces make.
//!
//! The text is read line by line; each line is cut into words at white space.
//! Empty lines and lines that start with `#` are skipped. A `v` or `vn` line
//! gives a vertex or a normal from its next three words; an `f` line gives a
//! fan of triangles over the vertices it names (1-based, as
//! `vertex/texture/normal`, a word whose vertex index does not parse being
//! left out); other lines are skipped. The numbers of vertices and normals are
//! read by the caller from the words that the layout points at.

use vstd::prelude::*;

verus! {

/// Whether `c` is white space (the Unicode `White_Space` property).
pub open spec fn is_ws(c: char) -> bool {
    let u = c as u32;
    ||| 0x9 <= u <= 0xd
    ||| u == 0x20
    ||| u == 0x85
    ||| u == 0xa0
    ||| u == 0x1680
    ||| 0x2000 <= u <= 0x200a
    ||| u == 0x2028
    ||| u == 0x2029
    ||| u == 0x202f
    ||| u == 0x205f
    ||| u == 0x3000
}

/// The end of the line that starts at `i`: the first newline at or after `i`,
/// or the end of the text.
pub open spec fn line_end(s: Seq<char>, i: int) -> int
    decreases s.len() - i,
{
    if i >= s.len() || s[i] == '\n' {
        i
    } else {
        line_end(s, i + 1)
    }
}

/// The first position at or after `i`, before `b`, that is not white space, or
/// `b`.
pub open spec fn skip_ws(s: Seq<char>, i: int, b: int) -> int
    decreases b - i,
{
    if i >= b || !is_ws(s[i]) {
        i
    } else {
        skip_ws(s, i + 1, b)
    }
}

/// The first position at or after `i`, before `b`, that is white space, or `b`.
pub open spec fn word_end(s: Seq<char>, i: int, b: int) -> int
    decreases b - i,
{
    if i >= b || is_ws(s[i]) {
        i
    } else {
        word_end(s, i + 1, b)
    }
}

pub proof fn lemma_scan_bounds(s: Seq<char>, i: int, b: int)
    requires
        i <= b,
    ensures
        i <= skip_ws(s, i, b) <= b,
        i <= word_end(s, i, b) <= b,
        skip_ws(s, i, b) < b ==> !is_ws(s[skip_ws(s, i, b)]),
        i < b && !is_ws(s[i]) ==> word_end(s, i, b) > i,
    decreases b - i,
{
    if i < b {
        lemma_scan_bounds(s, i + 1, b);
    }
}

pub proof fn lemma_line_end_bounds(s: Seq<char>, i: int)
    requires
        0 <= i <= s.len(),
    ensures
        i <= line_end(s, i) <= s.len(),
    decreases s.len() - i,
{
    if i < s.len() {
        lemma_line_end_bounds(s, i + 1);
    }
}

/// The words between `i` and `b`: the longest runs of characters that are not
/// white space, as ranges of positions.
pub open spec fn words_from(s: Seq<char>, i: int, b: int) -> Seq<(int, int)>
    decreases b - i,
{
    if i >= b {
        Seq::empty()
    } else {
        let st = skip_ws(s, i, b);
        if st >= b {
            Seq::empty()
        } else {
            let e = word_end(s, st, b);
            proof {
                lemma_scan_bounds(s, i, b);
                lemma_scan_bounds(s, st, b);
            }
            if e <= i {
                Seq::empty()
            } else {
                seq![(st, e)] + words_from(s, e, b)
            }
        }
    }
}

/// The first `/` at or after `i`, before `b`, or `b`.
pub open spec fn slash_at(s: Seq<char>, i: int, b: int) -> int
    decreases b - i,
{
    if i >= b || s[i] == '/' {
        i
    } else {
        slash_at(s, i + 1, b)
    }
}

/// Whether the characters from `i` to `j` are all decimal digits.
pub open spec fn all_digits(s: Seq<char>, i: int, j: int) -> bool {
    forall|k: int| i <= k < j ==> 48 <= #[trigger] (s[k] as u32) <= 57
}

/// The number that the digits from `i` to `j` write in decimal.
pub open spec fn digits_value(s: Seq<char>, i: int, j: int) -> int
    decreases j - i,
{
    if j <= i {
        0
    } else {
        digits_value(s, i, j - 1) * 10 + (s[j - 1] as u32 - 48)
    }
}

/// What `usize::from_str` gives for the characters from `i` to `j`: an
/// optional `+`, then one or more decimal digits whose value fits a `usize`.
pub open spec fn parse_usize(s: Seq<char>, i: int, j: int) -> Option<int> {
    let d = if i < j && s[i] == '+' { i + 1 } else { i };
    if d < j && all_digits(s, d, j) && digits_value(s, d, j) <= usize::MAX {
        Some(digits_value(s, d, j))
    } else {
        None
    }
}

/// The 0-based index that the 1-based number from `i` to `j` names, if it is
/// a number of at least 1.
pub open spec fn index_from(s: Seq<char>, i: int, j: int) -> Option<int> {
    match parse_usize(s, i, j) {
        Some(x) => if x >= 1 { Some(x - 1) } else { None },
        None => None,
    }
}

/// The vertex, texture and normal indices of the face word from `a` to `b`,
/// written `vertex/texture/normal`; a part that is missing or does not parse
/// gives `None`.
pub open spec fn face_indices(s: Seq<char>, a: int, b: int) -> (Option<int>, Option<int>, Option<int>) {
    let p1 = slash_at(s, a, b);
    let vi = index_from(s, a, p1);
    if p1 >= b {
        (vi, None, None)
    } else {
        let p2 = slash_at(s, p1 + 1, b);
        let ti = index_from(s, p1 + 1, p2);
        if p2 >= b {
            (vi, ti, None)
        } else {
            let p3 = slash_at(s, p2 + 1, b);
            (vi, ti, index_from(s, p2 + 1, p3))
        }
    }
}

/// The vertices of a face, from the words `ws[k..]`: each word's vertex and
/// normal index, words whose vertex index is `None` left out.
pub open spec fn face_entries(s: Seq<char>, ws: Seq<(int, int)>, k: int) -> Seq<(int, Option<int>)>
    decreases ws.len() - k,
{
    if k >= ws.len() {
        Seq::empty()
    } else {
        let f = face_indices(s, ws[k].0, ws[k].1);
        let rest = face_entries(s, ws, k + 1);
        match f.0 {
            Some(vi) => seq![(vi, f.2)] + rest,
            None => rest,
        }
    }
}

/// A line that the layout reports.
#[derive(Clone, Copy, PartialEq, Eq, Debug)]
pub enum ObjRecord {
    /// A vertex, whose three coordinates are the words at these character
    /// ranges of the text.
    Vertex((usize, usize), (usize, usize), (usize, usize)),
    /// A normal, whose three coordinates are the words at these ranges.
    Normal((usize, usize), (usize, usize), (usize, usize)),
    /// A triangle over these vertices (0-based, in the order the vertices
    /// were given), with these normals where all three are given.
    Triangle { verts: (usize, usize, usize), normals: Option<(usize, usize, usize)> },
}

/// Why OBJ text has no mesh.
#[derive(Clone, Copy, PartialEq, Eq, Structural, Debug)]
pub enum ObjError {
    /// A `v` or `vn` line without three more words, or with one that is not a
    /// number.
    MissingFloat,
    /// A face with fewer than three vertices.
    TooFewVertices,
    /// A face names a vertex not given before it.
    VertexOutOfRange,
    /// A face names a normal not given before it.
    NormalOutOfRange,
}

/// The message of each error.
pub open spec fn obj_error_message(e: ObjError) -> Seq<char> {
    match e {
        ObjError::MissingFloat => "Unable to get float from line"@,
        ObjError::TooFewVertices => "Triangle has less than 3 vertices"@,
        ObjError::VertexOutOfRange => "vertex index out of range"@,
        ObjError::NormalOutOfRange => "normal index out of range"@,
    }
}

impl ObjError {
    /// The message of this error.
    pub fn message(&self) -> (r: String)
        ensures
            r@ == obj_error_message(*self),
    {
        match self {
            ObjError::MissingFloat => "Unable to get float from line".to_owned(),
            ObjError::TooFewVertices => "Triangle has less than 3 vertices".to_owned(),
            ObjError::VertexOutOfRange => "vertex index out of range".to_owned(),
            ObjError::NormalOutOfRange => "normal index out of range".to_owned(),
        }
    }
}

/// The layout of OBJ text: what its lines give, in order, up to the first
/// error, and that error, if any.
pub struct ObjLayout {
    pub records: Vec<ObjRecord>,
    pub error: Option<ObjError>,
}

/// What reading on from some point gives: the records up to the first error,
/// and that error, if any.
pub type ObjRun = (Seq<ObjRecord>, Option<ObjError>);

/// A range of positions as `usize`s.
pub open spec fn urange(r: (int, int)) -> (usize, usize) {
    (r.0 as usize, r.1 as usize)
}

/// The triangles of the fan over `e`, from the one with corners `e[0]`,
/// `e[i]`, `e[i + 1]` on, while `vc` vertices and `nc` normals are known.
pub open spec fn fan_from(e: Seq<(int, Option<int>)>, i: int, vc: int, nc: int) -> ObjRun
    decreases e.len() - i,
{
    if i < 1 || i >= e.len() - 1 {
        (Seq::empty(), None)
    } else {
        let (v0, n0) = e[0];
        let (v1, n1) = e[i];
        let (v2, n2) = e[i + 1];
        if v0 >= vc || v1 >= vc || v2 >= vc {
            (Seq::empty(), Some(ObjError::VertexOutOfRange))
        } else {
            let verts = (v0 as usize, v1 as usize, v2 as usize);
            let rest = fan_from(e, i + 1, vc, nc);
            match (n0, n1, n2) {
                (Some(a), Some(b), Some(c)) => if a >= nc || b >= nc || c >= nc {
                    (Seq::empty(), Some(ObjError::NormalOutOfRange))
                } else {
                    (
                        seq![ObjRecord::Triangle { verts, normals: Some((a as usize, b as usize, c as usize)) }]
                            + rest.0,
                        rest.1,
                    )
                },
                _ => (seq![ObjRecord::Triangle { verts, normals: None }] + rest.0, rest.1),
            }
        }
    }
}

/// The fan over `e`, from corner pair `i` on, makes one triangle per corner
/// pair: triangle `t` has corners `e[0]`, `e[i + t]` and `e[i + t + 1]`, in
/// that order, each with its own vertex, and each with its own normal where all
/// three corners name one (no normals otherwise). Where no index is out of
/// range it makes all `e.len() - 1 - i` of them.
pub proof fn lemma_fan_corners(e: Seq<(int, Option<int>)>, i: int, vc: int, nc: int)
    requires
        1 <= i,
    ensures
        ({
            let f = fan_from(e, i, vc, nc);
            &&& f.1 is None ==> f.0.len() == if i < e.len() - 1 { e.len() - 1 - i } else { 0 }
            &&& forall|t: int|
                #![trigger f.0[t]]
                0 <= t < f.0.len() ==> f.0[t] == ObjRecord::Triangle {
                    verts: (e[0].0 as usize, e[i + t].0 as usize, e[i + t + 1].0 as usize),
                    normals: match (e[0].1, e[i + t].1, e[i + t + 1].1) {
                        (Some(a), Some(b), Some(c)) => Some((a as usize, b as usize, c as usize)),
                        _ => None,
                    },
                }
        }),
    decreases e.len() - i,
{
    if i < e.len() - 1 {
        lemma_fan_corners(e, i + 1, vc, nc);
        let f = fan_from(e, i, vc, nc);
        let rest = fan_from(e, i + 1, vc, nc);
        if f.0.len() > 0 {
            assert forall|t: int| 0 <= t < f.0.len() implies #[trigger] f.0[t] == ObjRecord::Triangle {
                verts: (e[0].0 as usize, e[i + t].0 as usize, e[i + t + 1].0 as usize),
                normals: match (e[0].1, e[i + t].1, e[i + t + 1].1) {
                    (Some(a), Some(b), Some(c)) => Some((a as usize, b as usize, c as usize)),
                    _ => None,
                },
            } by {
                if t > 0 {
                    assert(f.0[t] == rest.0[t - 1]);
                    assert(i + 1 + (t - 1) == i + t);
                }
            }
        }
    }
}

/// Whether the word `w` is the one- or two-letter word `c0` (`c1`).
pub open spec fn word_is(s: Seq<char>, w: (int, int), c0: char, c1: Option<char>) -> bool {
    match c1 {
        None => w.1 - w.0 == 1 && s[w.0] == c0,
        Some(c) => w.1 - w.0 == 2 && s[w.0] == c0 && s[w.0 + 1] == c,
    }
}

/// Reading the lines from position `i` on, while `vc` vertices and `nc`
/// normals are known.
pub open spec fn obj_from(s: Seq<char>, i: int, vc: int, nc: int) -> ObjRun
    decreases s.len() - i,
{
    if i < 0 || i >= s.len() {
        (Seq::empty(), None)
    } else {
        let e = line_end(s, i);
        // The next line starts after the newline; `line_end` never goes back.
        let next = if i <= e < s.len() { e + 1 } else { s.len() as int };
        let ws = words_from(s, i, e);
        if ws.len() == 0 || s[ws[0].0] == '#' {
            obj_from(s, next, vc, nc)
        } else if word_is(s, ws[0], 'v', None) || word_is(s, ws[0], 'v', Some('n')) {
            if ws.len() < 4 {
                (Seq::empty(), Some(ObjError::MissingFloat))
            } else {
                if word_is(s, ws[0], 'v', None) {
                    let rest = obj_from(s, next, vc + 1, nc);
                    (seq![ObjRecord::Vertex(urange(ws[1]), urange(ws[2]), urange(ws[3]))] + rest.0, rest.1)
                } else {
                    let rest = obj_from(s, next, vc, nc + 1);
                    (seq![ObjRecord::Normal(urange(ws[1]), urange(ws[2]), urange(ws[3]))] + rest.0, rest.1)
                }
            }
        } else if word_is(s, ws[0], 'f', None) {
            let entries = face_entries(s, ws, 1);
            if entries.len() < 3 {
                (Seq::empty(), Some(ObjError::TooFewVertices))
            } else {
                let fan = fan_from(entries, 1, vc, nc);
                if fan.1 is Some {
                    fan
                } else {
                    let rest = obj_from(s, next, vc, nc);
                    (fan.0 + rest.0, rest.1)
                }
            }
        } else {
            obj_from(s, next, vc, nc)
        }
    }
}

/// The ranges of `w` as `usize` pairs.
pub open spec fn uranges(w: Seq<(int, int)>) -> Seq<(usize, usize)> {
    w.map_values(|p: (int, int)| urange(p))
}

pub proof fn lemma_words_bounds(s: Seq<char>, i: int, b: int)
    requires
        0 <= i,
    ensures
        forall|k: int|
            #![trigger words_from(s, i, b)[k]]
            0 <= k < words_from(s, i, b).len() ==> {
                let w = words_from(s, i, b)[k];
                i <= w.0 < w.1 <= b
            },
    decreases b - i,
{
    if i < b {
        let st = skip_ws(s, i, b);
        lemma_scan_bounds(s, i, b);
        if st < b {
            let e = word_end(s, st, b);
            lemma_scan_bounds(s, st, b);
            if e > i {
                lemma_words_bounds(s, e, b);
                let w = words_from(s, i, b);
                assert forall|k: int| #![trigger w[k]] 0 <= k < w.len() implies i <= w[k].0 < w[k].1 <= b by {
                    if k > 0 {
                        assert(w[k] == words_from(s, e, b)[k - 1]);
                    }
                }
            }
        }
    }
}

/// The characters of `s`.
pub(crate) fn chars_of(s: &str) -> (r: Vec<char>)
    ensures
        r@ == s@,
{
    let mut r: Vec<char> = Vec::new();
    for c in it: s.chars()
        invariant
            r@ == it.seq().take(it.index() as int),
    {
        r.push(c);
    }
    proof {
        vstd::string::axiom_spec_iter(s);
    }
    assert(r@ =~= s@);
    r
}

/// Whether `c` is white space.
fn is_ws_char(c: char) -> (r: bool)
    ensures
        r == is_ws(c),
{
    let u = c as u32;
    (0x9 <= u && u <= 0xd) || u == 0x20 || u == 0x85 || u == 0xa0 || u == 0x1680 || (0x2000 <= u && u
        <= 0x200a) || u == 0x2028 || u == 0x2029 || u == 0x202f || u == 0x205f || u == 0x3000
}

pub(crate) fn find_line_end(s: &Vec<char>, i: usize) -> (j: usize)
    requires
        i <= s@.len(),
    ensures
        j == line_end(s@, i as int),
{
    let mut j = i;
    while j < s.len() && s[j] != '\n'
        invariant
            i <= j <= s@.len(),
            line_end(s@, i as int) == line_end(s@, j as int),
        decreases s@.len() - j,
    {
        j = j + 1;
    }
    j
}

pub(crate) fn skip_ws_at(s: &Vec<char>, i: usize, b: usize) -> (j: usize)
    requires
        i <= b <= s@.len(),
    ensures
        j == skip_ws(s@, i as int, b as int),
{
    let mut j = i;
    while j < b && is_ws_char(s[j])
        invariant
            i <= j <= b,
            b <= s@.len(),
            skip_ws(s@, i as int, b as int) == skip_ws(s@, j as int, b as int),
        decreases b - j,
    {
        j = j + 1;
    }
    j
}

fn word_end_at(s: &Vec<char>, i: usize, b: usize) -> (j: usize)
    requires
        i <= b <= s@.len(),
    ensures
        j == word_end(s@, i as int, b as int),
{
    let mut j = i;
    while j < b && !is_ws_char(s[j])
        invariant
            i <= j <= b,
            b <= s@.len(),
            word_end(s@, i as int, b as int) == word_end(s@, j as int, b as int),
        decreases b - j,
    {
        j = j + 1;
    }
    j
}

/// The words between positions `a` and `b`.
pub(crate) fn words_between(s: &Vec<char>, a: usize, b: usize) -> (r: Vec<(usize, usize)>)
    requires
        a <= b <= s@.len(),
    ensures
        r@ == uranges(words_from(s@, a as int, b as int)),
{
    let mut r: Vec<(usize, usize)> = Vec::new();
    let mut p = a;
    let ghost all = words_from(s@, a as int, b as int);
    while p < b
        invariant
            a <= p <= b,
            b <= s@.len(),
            all == words_from(s@, a as int, b as int),
            r@ + uranges(words_from(s@, p as int, b as int)) == uranges(all),
        decreases b - p,
    {
        let st = skip_ws_at(s, p, b);
        if st >= b {
            assert(words_from(s@, p as int, b as int) =~= Seq::<(int, int)>::empty());
            assert(uranges(Seq::<(int, int)>::empty()) =~= Seq::<(usize, usize)>::empty());
            assert(r@ =~= uranges(all));
            return r;
        }
        let e = word_end_at(s, st, b);
        proof {
            lemma_scan_bounds(s@, p as int, b as int);
            lemma_scan_bounds(s@, st as int, b as int);
        }
        let ghost rest = words_from(s@, e as int, b as int);
        assert(words_from(s@, p as int, b as int) == seq![(st as int, e as int)] + rest);
        assert(uranges(seq![(st as int, e as int)] + rest) =~= seq![(st, e)] + uranges(rest));
        r.push((st, e));
        assert(r@ + uranges(rest) =~= uranges(all));
        p = e;
    }
    assert(words_from(s@, p as int, b as int) =~= Seq::<(int, int)>::empty());
    assert(uranges(Seq::<(int, int)>::empty()) =~= Seq::<(usize, usize)>::empty());
    assert(r@ =~= uranges(all));
    r
}

fn slash_at_exec(s: &Vec<char>, i: usize, b: usize) -> (j: usize)
    requires
        i <= b <= s@.len(),
    ensures
        j == slash_at(s@, i as int, b as int),
        i <= j <= b,
{
    let mut j = i;
    while j < b && s[j] != '/'
        invariant
            i <= j <= b,
            b <= s@.len(),
            slash_at(s@, i as int, b as int) == slash_at(s@, j as int, b as int),
        decreases b - j,
    {
        j = j + 1;
    }
    j
}

/// The 0-based index that the 1-based number from `i` to `j` names, as
/// `index_from` says.
fn parse_index(s: &Vec<char>, i: usize, j: usize) -> (r: Option<usize>)
    requires
        i <= j <= s@.len(),
    ensures
        match r {
            Some(v) => index_from(s@, i as int, j as int) == Some(v as int),
            None => index_from(s@, i as int, j as int) is None,
        },
{
    let d = if i < j && s[i] == '+' { i + 1 } else { i };
    assert(d == (if i < j && s@[i as int] == '+' { i + 1 } else { i as int }));
    if d >= j {
        return None;
    }
    let mut v: usize = 0;
    let mut overflow = false;
    let mut k = d;
    while k < j
        invariant
            d <= k <= j,
            j <= s@.len(),
            d == (if i < j && s@[i as int] == '+' { i + 1 } else { i as int }),
            all_digits(s@, d as int, k as int),
            digits_value(s@, d as int, k as int) >= 0,
            !overflow ==> v == digits_value(s@, d as int, k as int),
            overflow ==> digits_value(s@, d as int, k as int) > usize::MAX,
        decreases j - k,
    {
        let u = s[k] as u32;
        if u < 48 || u > 57 {
            assert(!all_digits(s@, d as int, j as int)) by {
                assert(!(48 <= (s@[k as int] as u32) <= 57));
            }
            assert(parse_usize(s@, i as int, j as int) is None);
            return None;
        }
        let dig = (u - 48) as usize;
        if !overflow {
            match v.checked_mul(10) {
                Some(m) => match m.checked_add(dig) {
                    Some(n) => {
                        v = n;
                    },
                    None => {
                        overflow = true;
                    },
                },
                None => {
                    overflow = true;
                },
            }
        }
        k = k + 1;
    }
    if overflow || v < 1 {
        None
    } else {
        Some(v - 1)
    }
}

/// The vertex, texture and normal indices of the face word from `a` to `b`,
/// as `face_indices` says.
fn parse_obj_face_vertex_indices(s: &Vec<char>, a: usize, b: usize) -> (r: (Option<usize>, Option<usize>, Option<usize>))
    requires
        a <= b <= s@.len(),
    ensures
        ({
            let f = face_indices(s@, a as int, b as int);
            &&& (match r.0 { Some(v) => f.0 == Some(v as int), None => f.0 is None })
            &&& (match r.1 { Some(v) => f.1 == Some(v as int), None => f.1 is None })
            &&& (match r.2 { Some(v) => f.2 == Some(v as int), None => f.2 is None })
        }),
{
    let p1 = slash_at_exec(s, a, b);
    let vi = parse_index(s, a, p1);
    if p1 >= b {
        return (vi, None, None);
    }
    let p2 = slash_at_exec(s, p1 + 1, b);
    let ti = parse_index(s, p1 + 1, p2);
    if p2 >= b {
        return (vi, ti, None);
    }
    let p3 = slash_at_exec(s, p2 + 1, b);
    (vi, ti, parse_index(s, p2 + 1, p3))
}

/// Face entries with `int` indices.
pub open spec fn ientries(r: Seq<(usize, Option<usize>)>) -> Seq<(int, Option<int>)> {
    r.map_values(
        |p: (usize, Option<usize>)|
            (
                p.0 as int,
                match p.1 {
                    Some(n) => Some(n as int),
                    None => None,
                },
            ),
    )
}

/// The vertices of the face whose words are `ws[1..]`, as `face_entries`
/// says.
fn face_entries_exec(s: &Vec<char>, ws: &Vec<(usize, usize)>, Ghost(w): Ghost<Seq<(int, int)>>) -> (r: Vec<(usize, Option<usize>)>)
    requires
        ws@ == uranges(w),
        forall|k: int| #![trigger w[k]] 0 <= k < w.len() ==> 0 <= w[k].0 <= w[k].1 <= s@.len(),
    ensures
        ientries(r@) == face_entries(s@, w, 1),
{
    let mut r: Vec<(usize, Option<usize>)> = Vec::new();
    let mut k: usize = 1;
    let ghost all = face_entries(s@, w, 1);
    assert(ws@.len() == w.len());
    if ws.len() == 0 {
        assert(face_entries(s@, w, 1) =~= Seq::<(int, Option<int>)>::empty());
        assert(ientries(r@) =~= all);
        return r;
    }
    while k < ws.len()
        invariant
            1 <= k <= ws@.len(),
            ws@ == uranges(w),
            ws@.len() == w.len(),
            forall|j: int| #![trigger w[j]] 0 <= j < w.len() ==> 0 <= w[j].0 <= w[j].1 <= s@.len(),
            all == face_entries(s@, w, 1),
            ientries(r@) + face_entries(s@, w, k as int) == all,
        decreases ws@.len() - k,
    {
        let (a, b) = ws[k];
        assert(ws@[k as int] == urange(w[k as int]));
        assert(0 <= w[k as int].0 <= w[k as int].1 <= s@.len());
        assert(s@.len() == s.len());
        assert(w[k as int].0 == a && w[k as int].1 == b);
        let f = parse_obj_face_vertex_indices(s, a, b);
        let ghost rest = face_entries(s@, w, k + 1);
        let ghost before = r@;
        let ghost fs = face_indices(s@, a as int, b as int);
        match f.0 {
            Some(vi) => {
                r.push((vi, f.2));
                let ghost item = (vi as int, fs.2);
                assert(ientries(r@) =~= ientries(before) + seq![item]);
                assert(face_entries(s@, w, k as int) == seq![item] + rest);
                assert(ientries(r@) + rest =~= ientries(before) + face_entries(s@, w, k as int));
            },
            None => {
                assert(face_entries(s@, w, k as int) == rest);
            },
        }
        k = k + 1;
    }
    assert(face_entries(s@, w, k as int) =~= Seq::<(int, Option<int>)>::empty());
    assert(ientries(r@) =~= all);
    r
}

/// Appends the triangles of the fan over `e` to `out`, as `fan_from` says,
/// and gives its error, if any.
fn fan_exec(e: &Vec<(usize, Option<usize>)>, vc: usize, nc: usize, out: &mut Vec<ObjRecord>) -> (r: Option<ObjError>)
    ensures
        final(out)@ == old(out)@ + fan_from(ientries(e@), 1, vc as int, nc as int).0,
        r == fan_from(ientries(e@), 1, vc as int, nc as int).1,
{
    let ghost ie = ientries(e@);
    let ghost all = fan_from(ie, 1, vc as int, nc as int);
    let ghost start = out@;
    if e.len() < 3 {
        assert(out@ =~= start + all.0);
        return None;
    }
    let mut i: usize = 1;
    while i < e.len() - 1
        invariant
            1 <= i <= e@.len() - 1,
            e@.len() >= 3,
            ie == ientries(e@),
            start == old(out)@,
            all == fan_from(ie, 1, vc as int, nc as int),
            out@ + fan_from(ie, i as int, vc as int, nc as int).0 == start + all.0,
            fan_from(ie, i as int, vc as int, nc as int).1 == all.1,
        decreases e@.len() - i,
    {
        let (v0, n0) = e[0];
        let (v1, n1) = e[i];
        let (v2, n2) = e[i + 1];
        let ghost rest = fan_from(ie, i + 1, vc as int, nc as int);
        let ghost here = fan_from(ie, i as int, vc as int, nc as int);
        assert(ie[0] == (v0 as int, match n0 { Some(n) => Some(n as int), None => None }));
        assert(ie[i as int] == (v1 as int, match n1 { Some(n) => Some(n as int), None => None }));
        assert(ie[i + 1] == (v2 as int, match n2 { Some(n) => Some(n as int), None => None }));
        if v0 >= vc || v1 >= vc || v2 >= vc {
            assert(out@ =~= start + all.0);
            return Some(ObjError::VertexOutOfRange);
        }
        let verts = (v0, v1, v2);
        let ghost before = out@;
        match (n0, n1, n2) {
            (Some(a), Some(b), Some(c)) => {
                if a >= nc || b >= nc || c >= nc {
                    assert(out@ =~= start + all.0);
                    return Some(ObjError::NormalOutOfRange);
                }
                out.push(ObjRecord::Triangle { verts, normals: Some((a, b, c)) });
            },
            _ => {
                out.push(ObjRecord::Triangle { verts, normals: None });
            },
        }
        assert(here.0 == seq![out@.last()] + rest.0);
        assert(out@ =~= before + seq![out@.last()]);
        assert(out@ + rest.0 =~= before + here.0);
        i = i + 1;
    }
    assert(fan_from(ie, i as int, vc as int, nc as int).0 =~= Seq::<ObjRecord>::empty());
    assert(out@ =~= start + all.0);
    None
}

/// The layout of the OBJ text `s`.
pub open spec fn obj_layout_of(s: Seq<char>) -> ObjRun {
    obj_from(s, 0, 0, 0)
}

/// Every triangle of `recs` names only vertices and normals given before it:
/// `vc` vertices and `nc` normals are known before the first record.
pub open spec fn refs_given(recs: Seq<ObjRecord>, vc: int, nc: int) -> bool
    decreases recs.len(),
{
    if recs.len() == 0 {
        true
    } else {
        let rest = recs.drop_first();
        match recs[0] {
            ObjRecord::Vertex(..) => refs_given(rest, vc + 1, nc),
            ObjRecord::Normal(..) => refs_given(rest, vc, nc + 1),
            ObjRecord::Triangle { verts, normals } => {
                &&& verts.0 < vc
                &&& verts.1 < vc
                &&& verts.2 < vc
                &&& (match normals {
                    Some(n) => n.0 < nc && n.1 < nc && n.2 < nc,
                    None => true,
                })
                &&& refs_given(rest, vc, nc)
            },
        }
    }
}

/// Triangles that name only known vertices and normals may come before
/// records that do so themselves.
proof fn lemma_refs_given_prefix(a: Seq<ObjRecord>, b: Seq<ObjRecord>, vc: int, nc: int)
    requires
        forall|i: int| 0 <= i < a.len() ==> tri_in(#[trigger] a[i], vc, nc),
        refs_given(b, vc, nc),
    ensures
        refs_given(a + b, vc, nc),
    decreases a.len(),
{
    if a.len() > 0 {
        assert((a + b).drop_first() =~= a.drop_first() + b);
        assert forall|i: int| 0 <= i < a.drop_first().len() implies tri_in(#[trigger] a.drop_first()[i], vc, nc) by {
            assert(a.drop_first()[i] == a[i + 1]);
        }
        lemma_refs_given_prefix(a.drop_first(), b, vc, nc);
        assert(tri_in(a[0], vc, nc));
        assert((a + b)[0] == a[0]);
    }
}

/// An entry of a face whose indices fit a `usize`.
pub open spec fn entry_fits(x: (int, Option<int>)) -> bool {
    &&& 0 <= x.0 <= usize::MAX
    &&& (match x.1 {
        Some(n) => 0 <= n <= usize::MAX,
        None => true,
    })
}

proof fn lemma_index_fits(s: Seq<char>, i: int, j: int)
    ensures
        index_from(s, i, j) matches Some(x) ==> 0 <= x <= usize::MAX,
{
}

/// The indices of a face fit a `usize`.
proof fn lemma_entries_fit(s: Seq<char>, ws: Seq<(int, int)>, k: int)
    ensures
        forall|t: int| 0 <= t < face_entries(s, ws, k).len() ==> entry_fits(#[trigger] face_entries(s, ws, k)[t]),
    decreases ws.len() - k,
{
    if k < ws.len() {
        lemma_entries_fit(s, ws, k + 1);
        let f = face_indices(s, ws[k].0, ws[k].1);
        let rest = face_entries(s, ws, k + 1);
        let p1 = slash_at(s, ws[k].0, ws[k].1);
        let p2 = slash_at(s, p1 + 1, ws[k].1);
        lemma_index_fits(s, ws[k].0, p1);
        lemma_index_fits(s, p2 + 1, slash_at(s, p2 + 1, ws[k].1));
        match f.0 {
            Some(vi) => {
                let all = seq![(vi, f.2)] + rest;
                assert forall|t: int| 0 <= t < all.len() implies entry_fits(#[trigger] all[t]) by {
                    if t > 0 {
                        assert(all[t] == rest[t - 1]);
                    }
                }
            },
            None => {},
        }
    }
}

/// A triangle that names only the first `vc` vertices and `nc` normals.
pub open spec fn tri_in(r: ObjRecord, vc: int, nc: int) -> bool {
    &&& r matches ObjRecord::Triangle { verts, normals }
    &&& verts.0 < vc
    &&& verts.1 < vc
    &&& verts.2 < vc
    &&& (match normals {
        Some(n) => n.0 < nc && n.1 < nc && n.2 < nc,
        None => true,
    })
}

/// The triangles of a fan name only the vertices and normals known to it.
proof fn lemma_fan_refs(e: Seq<(int, Option<int>)>, i: int, vc: int, nc: int)
    requires
        forall|t: int| 0 <= t < e.len() ==> entry_fits(#[trigger] e[t]),
    ensures
        forall|t: int| 0 <= t < fan_from(e, i, vc, nc).0.len() ==> tri_in(#[trigger] fan_from(e, i, vc, nc).0[t], vc, nc),
    decreases e.len() - i,
{
    if i >= 1 && i < e.len() - 1 {
        lemma_fan_refs(e, i + 1, vc, nc);
        assert(entry_fits(e[0]) && entry_fits(e[i]) && entry_fits(e[i + 1]));
        let f = fan_from(e, i, vc, nc).0;
        let rest = fan_from(e, i + 1, vc, nc).0;
        if f.len() > 0 {
            assert forall|t: int| 0 <= t < f.len() implies tri_in(#[trigger] f[t], vc, nc) by {
                if t > 0 {
                    assert(f[t] == rest[t - 1]);
                }
            }
        }
    }
}

/// Every triangle that reading from `i` on reports names only vertices and
/// normals given before it.
proof fn lemma_obj_from_refs(s: Seq<char>, i: int, vc: int, nc: int)
    ensures
        refs_given(obj_from(s, i, vc, nc).0, vc, nc),
    decreases s.len() - i,
{
    if 0 <= i < s.len() {
        let e = line_end(s, i);
        let next = if i <= e < s.len() { e + 1 } else { s.len() as int };
        let r = obj_from(s, i, vc, nc).0;
        let ws = words_from(s, i, e);
        if ws.len() == 0 || s[ws[0].0] == '#' {
            lemma_obj_from_refs(s, next, vc, nc);
        } else if word_is(s, ws[0], 'v', None) || word_is(s, ws[0], 'v', Some('n')) {
            if ws.len() >= 4 {
                if word_is(s, ws[0], 'v', None) {
                    lemma_obj_from_refs(s, next, vc + 1, nc);
                    assert(r.drop_first() =~= obj_from(s, next, vc + 1, nc).0);
                } else {
                    lemma_obj_from_refs(s, next, vc, nc + 1);
                    assert(r.drop_first() =~= obj_from(s, next, vc, nc + 1).0);
                }
            }
        } else if word_is(s, ws[0], 'f', None) {
            let entries = face_entries(s, ws, 1);
            if entries.len() >= 3 {
                lemma_entries_fit(s, ws, 1);
                let fan = fan_from(entries, 1, vc, nc);
                lemma_fan_refs(entries, 1, vc, nc);
                if fan.1 is None {
                    lemma_obj_from_refs(s, next, vc, nc);
                    lemma_refs_given_prefix(fan.0, obj_from(s, next, vc, nc).0, vc, nc);
                } else {
                    lemma_refs_given_prefix(fan.0, Seq::empty(), vc, nc);
                    assert(fan.0 + Seq::<ObjRecord>::empty() =~= fan.0);
                }
            }
        } else {
            lemma_obj_from_refs(s, next, vc, nc);
        }
    }
}

/// A face of an OBJ layout names only vertices and normals given before it,
/// so the caller can look each of them up among those it has read.
pub proof fn lemma_layout_refs_given(s: Seq<char>)
    ensures
        refs_given(obj_layout_of(s).0, 0, 0),
{
    lemma_obj_from_refs(s, 0, 0, 0);
}

/// The layout of the OBJ text `obj`, as `obj_layout_of` says.
pub fn parse_obj_layout(obj: &str) -> (r: ObjLayout)
    ensures
        r.records@ == obj_layout_of(obj@).0,
        r.error == obj_layout_of(obj@).1,
{
    let s = chars_of(obj);
    let ghost all = obj_layout_of(s@);
    let mut records: Vec<ObjRecord> = Vec::new();
    let mut vc: usize = 0;
    let mut nc: usize = 0;
    let mut i: usize = 0;
    while i < s.len()
        invariant
            i <= s@.len(),
            s@ == obj@,
            all == obj_layout_of(s@),
            vc <= i,
            nc <= i,
            records@ + obj_from(s@, i as int, vc as int, nc as int).0 == all.0,
            obj_from(s@, i as int, vc as int, nc as int).1 == all.1,
        decreases s@.len() - i,
    {
        let ghost here = obj_from(s@, i as int, vc as int, nc as int);
        let ghost before = records@;
        let e = find_line_end(&s, i);
        proof {
            lemma_line_end_bounds(s@, i as int);
            lemma_words_bounds(s@, i as int, e as int);
        }
        let ws = words_between(&s, i, e);
        let ghost w = words_from(s@, i as int, e as int);
        let next = if e < s.len() { e + 1 } else { s.len() };
        assert(ws@.len() == w.len());
        if ws.len() == 0 {
            i = next;
            continue;
        }
        assert(ws@[0] == urange(w[0]));
        let (a0, b0) = ws[0];
        assert(a0 == w[0].0 && b0 == w[0].1);
        if s[a0] == '#' {
            i = next;
            continue;
        }
        let is_v = b0 - a0 == 1 && s[a0] == 'v';
        let is_vn = b0 - a0 == 2 && s[a0] == 'v' && s[a0 + 1] == 'n';
        let is_f = b0 - a0 == 1 && s[a0] == 'f';
        assert(is_v == word_is(s@, w[0], 'v', None));
        assert(is_vn == word_is(s@, w[0], 'v', Some('n')));
        assert(is_f == word_is(s@, w[0], 'f', None));
        if is_v || is_vn {
            if ws.len() < 4 {
                assert(records@ =~= all.0);
                return ObjLayout { records, error: Some(ObjError::MissingFloat) };
            }
            assert(ws@[1] == urange(w[1]) && ws@[2] == urange(w[2]) && ws@[3] == urange(w[3]));
            if is_v {
                records.push(ObjRecord::Vertex(ws[1], ws[2], ws[3]));
                vc = vc + 1;
            } else {
                records.push(ObjRecord::Normal(ws[1], ws[2], ws[3]));
                nc = nc + 1;
            }
            let ghost rest = obj_from(s@, next as int, vc as int, nc as int);
            assert(here.0 == seq![records@.last()] + rest.0);
            assert(records@ =~= before + seq![records@.last()]);
            assert(records@ + rest.0 =~= before + here.0);
        } else if is_f {
            let entries = face_entries_exec(&s, &ws, Ghost(w));
            if entries.len() < 3 {
                assert(records@ =~= all.0);
                return ObjLayout { records, error: Some(ObjError::TooFewVertices) };
            }
            assert(ientries(entries@) == face_entries(s@, w, 1));
            let err = fan_exec(&entries, vc, nc, &mut records);
            match err {
                Some(x) => {
                    assert(records@ =~= all.0);
                    return ObjLayout { records, error: Some(x) };
                },
                None => {},
            }
            let ghost rest = obj_from(s@, next as int, vc as int, nc as int);
            assert(records@ + rest.0 =~= before + here.0);
        }
        i = next;
    }
    assert(obj_from(s@, i as int, vc as int, nc as int).0 =~= Seq::<ObjRecord>::empty());
    assert(records@ =~= all.0);
    ObjLayout { records, error: None }
}

} // verus!
