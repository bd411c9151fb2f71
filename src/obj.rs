use vstd::prelude::*;

use crate::text::{
    chars_of, int_value, is_number, number_text, parse_int, split_chars, split_on, split_words,
    to_text, views, words,
};

verus! {

/// What went wrong in a record.
#[derive(Clone, Copy, Debug, PartialEq, Eq, Structural)]
pub enum ParseErrorKind {
    /// The record has fewer fields than its keyword requires.
    MissingField,
    /// A field that must be a number is not a number literal.
    InvalidNumber,
    /// A face record has no corners.
    EmptyFace,
    /// A face corner has no integer vertex index, or lacks an index that the face's first
    /// corner gives.
    MalformedCorner,
}

/// A parse failure: its kind, the line (counted from 1) and the field of that line (counted
/// from 1 after the keyword) where it was found.
#[derive(Clone, Copy, Debug, PartialEq, Eq, Structural)]
pub struct ParseError {
    pub kind: ParseErrorKind,
    pub line: usize,
    pub field: usize,
}

/// A geometric vertex. Each coordinate is kept as the number literal that the file wrote.
#[derive(Clone, Debug, PartialEq)]
pub struct Vertex {
    pub x: String,
    pub y: String,
    pub z: String,
    pub w: Option<String>,
}

/// A texture vertex; coordinates are number literals as written.
#[derive(Clone, Debug, PartialEq)]
pub struct TextureVertex {
    pub u: String,
    pub v: Option<String>,
    pub w: Option<String>,
}

/// A vertex normal; components are number literals as written.
#[derive(Clone, Debug, PartialEq)]
pub struct VertexNormal {
    pub i: String,
    pub j: String,
    pub k: String,
}

/// A polygon: one vertex index per corner, and optionally one texture-vertex index and one
/// normal index per corner. Indices are stored as written, neither resolved nor bounded.
#[derive(Clone, Debug, PartialEq)]
pub struct Face {
    pub vertices: Vec<i32>,
    pub texture_vertices: Option<Vec<i32>>,
    pub vertex_normals: Option<Vec<i32>>,
}

/// Everything a parse produces, each sequence in file order.
#[derive(Clone, Debug, PartialEq)]
pub struct ObjData {
    pub vertices: Vec<Vertex>,
    pub texture_vertices: Vec<TextureVertex>,
    pub vertex_normals: Vec<VertexNormal>,
    pub faces: Vec<Face>,
}

/// The abstract value of a `Vertex`.
pub struct VertexView {
    pub x: Seq<char>,
    pub y: Seq<char>,
    pub z: Seq<char>,
    pub w: Option<Seq<char>>,
}

/// The abstract value of a `TextureVertex`.
pub struct TextureView {
    pub u: Seq<char>,
    pub v: Option<Seq<char>>,
    pub w: Option<Seq<char>>,
}

/// The abstract value of a `VertexNormal`.
pub struct NormalView {
    pub i: Seq<char>,
    pub j: Seq<char>,
    pub k: Seq<char>,
}

/// The abstract value of a `Face`.
pub struct FaceView {
    pub vertices: Seq<i32>,
    pub texture_vertices: Option<Seq<i32>>,
    pub vertex_normals: Option<Seq<i32>>,
}

/// The abstract value of an `ObjData`.
pub struct ObjView {
    pub vertices: Seq<VertexView>,
    pub texture_vertices: Seq<TextureView>,
    pub vertex_normals: Seq<NormalView>,
    pub faces: Seq<FaceView>,
}

/// The characters of an optional string.
pub open spec fn text_opt(o: Option<String>) -> Option<Seq<char>> {
    match o {
        Some(s) => Some(s@),
        None => None,
    }
}

/// The integers of an optional list.
pub open spec fn ints_opt(o: Option<Vec<i32>>) -> Option<Seq<i32>> {
    match o {
        Some(v) => Some(v@),
        None => None,
    }
}

impl View for Vertex {
    type V = VertexView;

    open spec fn view(&self) -> VertexView {
        VertexView { x: self.x@, y: self.y@, z: self.z@, w: text_opt(self.w) }
    }
}

impl View for TextureVertex {
    type V = TextureView;

    open spec fn view(&self) -> TextureView {
        TextureView { u: self.u@, v: text_opt(self.v), w: text_opt(self.w) }
    }
}

impl View for VertexNormal {
    type V = NormalView;

    open spec fn view(&self) -> NormalView {
        NormalView { i: self.i@, j: self.j@, k: self.k@ }
    }
}

impl View for Face {
    type V = FaceView;

    open spec fn view(&self) -> FaceView {
        FaceView {
            vertices: self.vertices@,
            texture_vertices: ints_opt(self.texture_vertices),
            vertex_normals: ints_opt(self.vertex_normals),
        }
    }
}

impl View for ObjData {
    type V = ObjView;

    open spec fn view(&self) -> ObjView {
        ObjView {
            vertices: self.vertices@.map_values(|v: Vertex| v@),
            texture_vertices: self.texture_vertices@.map_values(|t: TextureVertex| t@),
            vertex_normals: self.vertex_normals@.map_values(|n: VertexNormal| n@),
            faces: self.faces@.map_values(|f: Face| f@),
        }
    }
}

/// What one line contributes.
pub enum Record {
    Vertex(VertexView),
    Texture(TextureView),
    Normal(NormalView),
    Face(FaceView),
    Other,
}

/// The problem with field `i` of the words `ws`, where that field must be a number.
pub open spec fn field_error(ws: Seq<Seq<char>>, i: int) -> Option<ParseErrorKind> {
    if i >= ws.len() {
        Some(ParseErrorKind::MissingField)
    } else if !is_number(ws[i]) {
        Some(ParseErrorKind::InvalidNumber)
    } else {
        None
    }
}

/// The first problem among the required number fields `1..=n`.
pub open spec fn required_error(ws: Seq<Seq<char>>, n: int) -> Option<(ParseErrorKind, usize)>
    decreases n,
{
    if n <= 0 {
        None
    } else {
        match required_error(ws, n - 1) {
            Some(e) => Some(e),
            None => match field_error(ws, n) {
                Some(k) => Some((k, n as usize)),
                None => None,
            },
        }
    }
}

/// Field `i`, where it is present and a number; an optional field that is not is left out.
pub open spec fn optional_number(ws: Seq<Seq<char>>, i: int) -> Option<Seq<char>> {
    if i < ws.len() && is_number(ws[i]) {
        Some(ws[i])
    } else {
        None
    }
}

/// The integers among the `/`-separated parts of a corner; parts that are not are skipped.
pub open spec fn parsed_ints(parts: Seq<Seq<char>>) -> Seq<i32>
    decreases parts.len(),
{
    if parts.len() == 0 {
        seq![]
    } else {
        let r = parsed_ints(parts.drop_last());
        match int_value(parts.last()) {
            Some(v) => r.push(v),
            None => r,
        }
    }
}

/// The integer parts of a corner, in order.
pub open spec fn corner_ints(c: Seq<char>) -> Seq<i32> {
    parsed_ints(split_on(c, '/'))
}

/// A corner is sound when its first part is an integer and it gives at least `need` integers.
pub open spec fn corner_ok(c: Seq<char>, need: nat) -> bool {
    int_value(split_on(c, '/')[0]) is Some && corner_ints(c).len() >= need
}

/// The vertex, texture and normal index lists of the corners `cs`, or the position (from 1)
/// of the first unsound corner.
pub open spec fn face_lists(cs: Seq<Seq<char>>, need: nat) -> Result<
    (Seq<i32>, Seq<i32>, Seq<i32>),
    usize,
>
    decreases cs.len(),
{
    if cs.len() == 0 {
        Ok((seq![], seq![], seq![]))
    } else {
        match face_lists(cs.drop_last(), need) {
            Err(i) => Err(i),
            Ok((v, t, n)) => {
                let c = cs.last();
                if corner_ok(c, need) {
                    let xs = corner_ints(c);
                    Ok(
                        (
                            v.push(xs[0]),
                            if need >= 2 {
                                t.push(xs[1])
                            } else {
                                t
                            },
                            if need >= 3 {
                                n.push(xs[2])
                            } else {
                                n
                            },
                        ),
                    )
                } else {
                    Err(cs.len() as usize)
                }
            },
        }
    }
}

/// How many indices each corner must give: as many as the first corner does, at most three.
pub open spec fn face_shape(first: Seq<char>) -> nat {
    let k = corner_ints(first).len();
    if k >= 3 {
        3
    } else {
        k
    }
}

/// The face that the words `ws` of an `f` line make, or the kind and field of its problem.
pub open spec fn face_record(ws: Seq<Seq<char>>) -> Result<Record, (ParseErrorKind, usize)> {
    let cs = ws.drop_first();
    if cs.len() == 0 {
        Err((ParseErrorKind::EmptyFace, 1))
    } else {
        let need = face_shape(cs[0]);
        match face_lists(cs, need) {
            Err(i) => Err((ParseErrorKind::MalformedCorner, i)),
            Ok((v, t, n)) => Ok(
                Record::Face(
                    FaceView {
                        vertices: v,
                        texture_vertices: if need >= 2 {
                            Some(t)
                        } else {
                            None
                        },
                        vertex_normals: if need >= 3 {
                            Some(n)
                        } else {
                            None
                        },
                    },
                ),
            ),
        }
    }
}

/// The record that a line's words `ws` make, or the kind and field of its first problem.
pub open spec fn record_of(ws: Seq<Seq<char>>) -> Result<Record, (ParseErrorKind, usize)> {
    if ws.len() == 0 {
        Ok(Record::Other)
    } else if ws[0] == seq!['v'] {
        match required_error(ws, 3) {
            Some(e) => Err(e),
            None => Ok(
                Record::Vertex(
                    VertexView { x: ws[1], y: ws[2], z: ws[3], w: optional_number(ws, 4) },
                ),
            ),
        }
    } else if ws[0] == seq!['v', 't'] {
        match required_error(ws, 1) {
            Some(e) => Err(e),
            None => Ok(
                Record::Texture(
                    TextureView {
                        u: ws[1],
                        v: optional_number(ws, 2),
                        w: optional_number(ws, 3),
                    },
                ),
            ),
        }
    } else if ws[0] == seq!['v', 'n'] {
        match required_error(ws, 3) {
            Some(e) => Err(e),
            None => Ok(Record::Normal(NormalView { i: ws[1], j: ws[2], k: ws[3] })),
        }
    } else if ws[0] == seq!['f'] {
        face_record(ws)
    } else {
        Ok(Record::Other)
    }
}

/// The data of a text with no records.
pub open spec fn empty_obj() -> ObjView {
    ObjView {
        vertices: seq![],
        texture_vertices: seq![],
        vertex_normals: seq![],
        faces: seq![],
    }
}

/// `m` with the record `r` appended to the sequence of its kind.
pub open spec fn add_record(m: ObjView, r: Record) -> ObjView {
    match r {
        Record::Vertex(v) => ObjView { vertices: m.vertices.push(v), ..m },
        Record::Texture(t) => ObjView { texture_vertices: m.texture_vertices.push(t), ..m },
        Record::Normal(n) => ObjView { vertex_normals: m.vertex_normals.push(n), ..m },
        Record::Face(f) => ObjView { faces: m.faces.push(f), ..m },
        Record::Other => m,
    }
}

/// The data that the lines `ls` describe, or the first error in them.
pub open spec fn parse_lines(ls: Seq<Seq<char>>) -> Result<ObjView, ParseError>
    decreases ls.len(),
{
    if ls.len() == 0 {
        Ok(empty_obj())
    } else {
        match parse_lines(ls.drop_last()) {
            Err(e) => Err(e),
            Ok(m) => match record_of(words(ls.last())) {
                Ok(r) => Ok(add_record(m, r)),
                Err((kind, field)) => Err(ParseError { kind, line: ls.len() as usize, field }),
            },
        }
    }
}

/// The data that an OBJ text describes, or its first error.
pub open spec fn parse_text(s: Seq<char>) -> Result<ObjView, ParseError> {
    parse_lines(split_on(s, '\n'))
}

/// The problem with number field `i`, if any.
fn check_field(ws: &Vec<Vec<char>>, i: usize) -> (r: Option<ParseErrorKind>)
    ensures
        r == field_error(views(ws@), i as int),
{
    if i >= ws.len() {
        Some(ParseErrorKind::MissingField)
    } else if !number_text(ws[i].as_slice()) {
        Some(ParseErrorKind::InvalidNumber)
    } else {
        None
    }
}

/// The first problem among the number fields `1..=n`, if any.
fn check_required(ws: &Vec<Vec<char>>, n: usize) -> (r: Option<(ParseErrorKind, usize)>)
    requires
        n <= 3,
    ensures
        r == required_error(views(ws@), n as int),
{
    let mut i: usize = 1;
    while i <= n
        invariant
            1 <= i <= n + 1,
            n <= 3,
            required_error(views(ws@), i - 1) is None,
        decreases n + 1 - i,
    {
        match check_field(ws, i) {
            Some(k) => {
                proof {
                    lemma_required_error_stays(views(ws@), i as int, n as int);
                }
                return Some((k, i));
            },
            None => {},
        }
        i = i + 1;
    }
    None
}

/// A problem among the first `i` fields is still the first among the first `n`.
proof fn lemma_required_error_stays(ws: Seq<Seq<char>>, i: int, n: int)
    requires
        1 <= i <= n,
        required_error(ws, i) is Some,
    ensures
        required_error(ws, n) == required_error(ws, i),
    decreases n - i,
{
    if i < n {
        lemma_required_error_stays(ws, i, n - 1);
    }
}

/// Field `i` where it is present and a number.
fn optional_field(ws: &Vec<Vec<char>>, i: usize) -> (r: Option<String>)
    ensures
        text_opt(r) == optional_number(views(ws@), i as int),
{
    if i < ws.len() && number_text(ws[i].as_slice()) {
        Some(to_text(ws[i].as_slice()))
    } else {
        None
    }
}

/// The integer parts of a corner, and its leading part read as an integer.
fn read_corner(c: &[char]) -> (r: (Option<i32>, Vec<i32>))
    ensures
        r.0 == int_value(split_on(c@, '/')[0]),
        r.1@ == corner_ints(c@),
{
    let parts = split_chars(c, '/');
    let ghost ps = views(parts@);
    let mut ints: Vec<i32> = Vec::new();
    let mut j: usize = 0;
    while j < parts.len()
        invariant
            j <= parts@.len(),
            ps == views(parts@),
            ps == split_on(c@, '/'),
            ints@ == parsed_ints(ps.take(j as int)),
        decreases parts@.len() - j,
    {
        assert(ps.take(j as int + 1).drop_last() =~= ps.take(j as int));
        assert(ps[j as int] == parts@[j as int]@);
        match parse_int(parts[j].as_slice()) {
            Some(v) => ints.push(v),
            None => {},
        }
        j = j + 1;
    }
    assert(ps.take(ps.len() as int) =~= ps);
    assert(ps.len() > 0);
    assert(ps[0] == parts@[0]@);
    let lead = parse_int(parts[0].as_slice());
    (lead, ints)
}

/// Where the first part is an integer, it is the first of the integer parts.
pub(crate) proof fn lemma_lead_int(parts: Seq<Seq<char>>)
    requires
        parts.len() > 0,
        int_value(parts[0]) is Some,
    ensures
        parsed_ints(parts).len() > 0,
        parsed_ints(parts)[0] == int_value(parts[0])->0,
    decreases parts.len(),
{
    if parts.len() > 1 {
        assert(parts.drop_last()[0] == parts[0]);
        lemma_lead_int(parts.drop_last());
        let r = parsed_ints(parts.drop_last());
        match int_value(parts.last()) {
            Some(v) => assert(r.push(v)[0] == r[0]),
            None => {},
        }
    } else {
        assert(parts.drop_last() =~= seq![]);
        assert(parsed_ints(parts.drop_last()) =~= seq![]);
        assert(parts.last() == parts[0]);
    }
}

/// Once a corner is unsound, later corners do not change the face's error.
proof fn lemma_face_error_stays(cs: Seq<Seq<char>>, need: nat, i: int)
    requires
        0 <= i <= cs.len(),
        face_lists(cs.take(i), need) is Err,
    ensures
        face_lists(cs, need) == face_lists(cs.take(i), need),
    decreases cs.len(),
{
    if i == cs.len() {
        assert(cs.take(i) =~= cs);
    } else {
        assert(cs.drop_last().take(i) =~= cs.take(i));
        lemma_face_error_stays(cs.drop_last(), need, i);
    }
}

/// Reads the face of the words `ws` of an `f` line.
fn read_face(ws: &Vec<Vec<char>>) -> (r: Result<Face, (ParseErrorKind, usize)>)
    requires
        ws@.len() >= 1,
    ensures
        match face_record(views(ws@)) {
            Ok(Record::Face(f)) => r matches Ok(face) && face@ == f,
            Ok(_) => false,
            Err(e) => r == Err::<Face, (ParseErrorKind, usize)>(e),
        },
{
    let ghost cs = views(ws@).drop_first();
    if ws.len() == 1 {
        return Err((ParseErrorKind::EmptyFace, 1));
    }
    let (_, first) = read_corner(ws[1].as_slice());
    assert(cs[0] == ws@[1]@);
    let need: usize = if first.len() >= 3 {
        3
    } else {
        first.len()
    };
    assert(need == face_shape(cs[0]));
    let mut vs: Vec<i32> = Vec::new();
    let mut ts: Vec<i32> = Vec::new();
    let mut ns: Vec<i32> = Vec::new();
    let mut i: usize = 1;
    while i < ws.len()
        invariant
            1 <= i <= ws@.len(),
            cs == views(ws@).drop_first(),
            need <= 3,
            cs.len() > 0,
            need == face_shape(cs[0]),
            face_lists(cs.take(i - 1), need as nat) == Ok::<_, usize>((vs@, ts@, ns@)),
        decreases ws@.len() - i,
    {
        let ghost pre = cs.take(i - 1);
        let ghost cur = cs.take(i as int);
        assert(cur.drop_last() =~= pre);
        assert(cur.last() == ws@[i as int]@);
        let (lead, ints) = read_corner(ws[i].as_slice());
        if lead.is_none() || ints.len() < need {
            proof {
                lemma_face_error_stays(cs, need as nat, i as int);
            }
            return Err((ParseErrorKind::MalformedCorner, i));
        }
        proof {
            lemma_lead_int(split_on(ws@[i as int]@, '/'));
        }
        vs.push(ints[0]);
        if need >= 2 {
            ts.push(ints[1]);
        }
        if need >= 3 {
            ns.push(ints[2]);
        }
        i = i + 1;
    }
    assert(cs.take(i - 1) =~= cs);
    Ok(
        Face {
            vertices: vs,
            texture_vertices: if need >= 2 {
                Some(ts)
            } else {
                None
            },
            vertex_normals: if need >= 3 {
                Some(ns)
            } else {
                None
            },
        },
    )
}

/// Tests whether the word `w` is `k`.
fn is_keyword(w: &Vec<char>, k: &[char]) -> (r: bool)
    ensures
        r == (w@ == k@),
{
    if w.len() != k.len() {
        return false;
    }
    let mut i: usize = 0;
    while i < w.len()
        invariant
            i <= w@.len(),
            w@.len() == k@.len(),
            forall|j: int| 0 <= j < i ==> w@[j] == k@[j],
        decreases w@.len() - i,
    {
        if w[i] != k[i] {
            return false;
        }
        i = i + 1;
    }
    assert(w@ =~= k@);
    true
}

/// Adds the record that the words `ws` of one line make to `data`, or reports the kind and
/// field of the line's first problem.
fn read_record(ws: &Vec<Vec<char>>, data: &mut ObjData) -> (r: Result<
    (),
    (ParseErrorKind, usize),
>)
    ensures
        match record_of(views(ws@)) {
            Ok(rec) => r is Ok && final(data)@ == add_record(old(data)@, rec),
            Err(e) => r == Err::<(), (ParseErrorKind, usize)>(e),
        },
{
    let ghost w = views(ws@);
    if ws.len() == 0 {
        return Ok(());
    }
    assert(w[0] == ws@[0]@);
    proof {
        assert forall|i: int| 0 <= i < ws@.len() implies #[trigger] w[i] == ws@[i]@ by {}
    }
    if is_keyword(&ws[0], &['v']) {
        assert(seq!['v'] =~= ['v']@);
        if let Some(e) = check_required(ws, 3) {
            return Err(e);
        }
        let x = to_text(ws[1].as_slice());
        let y = to_text(ws[2].as_slice());
        let z = to_text(ws[3].as_slice());
        let wv = optional_field(ws, 4);
        let ghost before = data.vertices@;
        data.vertices.push(Vertex { x, y, z, w: wv });
        assert(data.vertices@.map_values(|v: Vertex| v@) =~= before.map_values(
            |v: Vertex| v@,
        ).push(data.vertices@.last()@));
    } else if is_keyword(&ws[0], &['v', 't']) {
        assert(seq!['v', 't'] =~= ['v', 't']@);
        if let Some(e) = check_required(ws, 1) {
            return Err(e);
        }
        let u = to_text(ws[1].as_slice());
        let v = optional_field(ws, 2);
        let wt = optional_field(ws, 3);
        let ghost before = data.texture_vertices@;
        data.texture_vertices.push(TextureVertex { u, v, w: wt });
        assert(data.texture_vertices@.map_values(|t: TextureVertex| t@) =~= before.map_values(
            |t: TextureVertex| t@,
        ).push(data.texture_vertices@.last()@));
    } else if is_keyword(&ws[0], &['v', 'n']) {
        assert(seq!['v', 'n'] =~= ['v', 'n']@);
        if let Some(e) = check_required(ws, 3) {
            return Err(e);
        }
        let i = to_text(ws[1].as_slice());
        let j = to_text(ws[2].as_slice());
        let k = to_text(ws[3].as_slice());
        let ghost before = data.vertex_normals@;
        data.vertex_normals.push(VertexNormal { i, j, k });
        assert(data.vertex_normals@.map_values(|n: VertexNormal| n@) =~= before.map_values(
            |n: VertexNormal| n@,
        ).push(data.vertex_normals@.last()@));
    } else if is_keyword(&ws[0], &['f']) {
        assert(seq!['f'] =~= ['f']@);
        let face = read_face(ws)?;
        let ghost before = data.faces@;
        data.faces.push(face);
        assert(data.faces@.map_values(|f: Face| f@) =~= before.map_values(
            |f: Face| f@,
        ).push(data.faces@.last()@));
    } else {
        assert(w[0] != seq!['v'] && w[0] != seq!['v', 't'] && w[0] != seq!['v', 'n'] && w[0]
            != seq!['f']) by {
            assert(seq!['v'] =~= ['v']@);
            assert(seq!['v', 't'] =~= ['v', 't']@);
            assert(seq!['v', 'n'] =~= ['v', 'n']@);
            assert(seq!['f'] =~= ['f']@);
        }
    }
    Ok(())
}

/// Once a line fails, later lines do not change the error.
proof fn lemma_parse_error_stays(ls: Seq<Seq<char>>, i: int)
    requires
        0 <= i <= ls.len(),
        parse_lines(ls.take(i)) is Err,
    ensures
        parse_lines(ls) == parse_lines(ls.take(i)),
    decreases ls.len(),
{
    if i == ls.len() {
        assert(ls.take(i) =~= ls);
    } else {
        assert(ls.drop_last().take(i) =~= ls.take(i));
        lemma_parse_error_stays(ls.drop_last(), i);
    }
}

/// Reads an OBJ text: `v`, `vt`, `vn` and `f` records, one per line, in file order; other
/// lines are ignored. Fails with the first error, and then returns nothing else.
pub fn parse(data: &str) -> (r: Result<ObjData, ParseError>)
    ensures
        match r {
            Ok(d) => parse_text(data@) == Ok::<ObjView, ParseError>(d@),
            Err(e) => parse_text(data@) == Err::<ObjView, ParseError>(e),
        },
{
    let chars = chars_of(data);
    let lines = split_chars(chars.as_slice(), '\n');
    let ghost ls = views(lines@);
    let mut out = ObjData {
        vertices: Vec::new(),
        texture_vertices: Vec::new(),
        vertex_normals: Vec::new(),
        faces: Vec::new(),
    };
    assert(out@.vertices =~= empty_obj().vertices);
    assert(out@.texture_vertices =~= empty_obj().texture_vertices);
    assert(out@.vertex_normals =~= empty_obj().vertex_normals);
    assert(out@.faces =~= empty_obj().faces);
    let mut k: usize = 0;
    while k < lines.len()
        invariant
            k <= lines@.len(),
            ls == views(lines@),
            ls == split_on(data@, '\n'),
            parse_lines(ls.take(k as int)) == Ok::<ObjView, ParseError>(out@),
        decreases lines@.len() - k,
    {
        let ghost cur = ls.take(k as int + 1);
        assert(cur.drop_last() =~= ls.take(k as int));
        assert(cur.last() == lines@[k as int]@);
        let ws = split_words(lines[k].as_slice());
        match read_record(&ws, &mut out) {
            Ok(()) => {},
            Err((kind, field)) => {
                proof {
                    lemma_parse_error_stays(ls, k + 1);
                }
                return Err(ParseError { kind, line: k + 1, field });
            },
        }
        k = k + 1;
    }
    assert(ls.take(ls.len() as int) =~= ls);
    Ok(out)
}

} // verus!
