use vstd::prelude::*;
use vstd::string::StringExecFns;

use crate::obj::{
    add_record, corner_ints, corner_ok, empty_obj, face_lists, face_shape, field_error,
    optional_number, parse_lines, parse_text, parsed_ints, record_of, required_error, Face,
    FaceView, NormalView, ObjData, ObjView, Record, TextureVertex, TextureView, Vertex,
    VertexNormal, VertexView,
};
use crate::text::{
    all_digits, digits_value, int_value, is_digit, is_number, is_space, push_char, split_on,
    split_state, unsigned_part, words, words_state,
};

verus! {

/// The decimal digit `d`.
pub open spec fn digit_char(d: nat) -> char {
    seq!['0', '1', '2', '3', '4', '5', '6', '7', '8', '9'][d as int]
}

/// `n` in decimal, without leading zeros.
pub open spec fn nat_text(n: nat) -> Seq<char>
    decreases n,
{
    if n < 10 {
        seq![digit_char(n)]
    } else {
        nat_text(n / 10).push(digit_char(n % 10))
    }
}

/// `i` in decimal, with a `-` before a negative value.
pub open spec fn int_text(i: i32) -> Seq<char> {
    if i < 0 {
        seq!['-'] + nat_text((-(i as int)) as nat)
    } else {
        nat_text(i as nat)
    }
}

/// The digit characters are the ten in order.
proof fn lemma_digit_char(d: nat)
    requires
        d < 10,
    ensures
        is_digit(digit_char(d)),
        digit_char(d) as int - '0' as int == d,
{
    let ds = seq!['0', '1', '2', '3', '4', '5', '6', '7', '8', '9'];
    assert(ds[0] == '0' && ds[1] == '1' && ds[2] == '2' && ds[3] == '3' && ds[4] == '4');
    assert(ds[5] == '5' && ds[6] == '6' && ds[7] == '7' && ds[8] == '8' && ds[9] == '9');
}

/// The decimal text of `n` is a digit run that writes `n`.
proof fn lemma_nat_text(n: nat)
    ensures
        nat_text(n).len() > 0,
        nat_text(n)[0] != '-' && nat_text(n)[0] != '+',
        all_digits(nat_text(n)),
        digits_value(nat_text(n)) == n,
    decreases n,
{
    lemma_digit_char(n % 10);
    if n >= 10 {
        lemma_nat_text(n / 10);
        let p = nat_text(n / 10);
        let s = nat_text(n);
        assert(s.drop_last() =~= p);
        assert(s.last() == digit_char(n % 10));
        assert((n / 10) * 10 + n % 10 == n) by (nonlinear_arith);
        assert(digits_value(s) == digits_value(p) * 10 + (s.last() as int - '0' as int));
        assert forall|i: int| 0 <= i < s.len() implies is_digit(#[trigger] s[i]) by {
            if i < p.len() {
                assert(s[i] == p[i]);
            }
        }
    } else {
        assert(nat_text(n).drop_last() =~= seq![]);
        assert(n % 10 == n);
        let s = nat_text(n);
        assert(s.last() == digit_char(n));
        assert(digits_value(s.drop_last()) == 0);
        assert(digits_value(s) == digits_value(s.drop_last()) * 10 + (s.last() as int - '0' as int));
    }
}

/// Reading the decimal text of an integer gives the integer back.
pub proof fn int_text_reads_back(i: i32)
    ensures
        int_value(int_text(i)) == Some(i),
        int_text(i).len() > 0,
{
    if i < 0 {
        let n = (-(i as int)) as nat;
        lemma_nat_text(n);
        assert(unsigned_part(int_text(i)) =~= nat_text(n));
    } else {
        lemma_nat_text(i as nat);
        assert(unsigned_part(int_text(i)) =~= nat_text(i as nat));
    }
}

/// The pieces `ts` with `sep` between each two.
pub open spec fn join(ts: Seq<Seq<char>>, sep: char) -> Seq<char>
    decreases ts.len(),
{
    if ts.len() == 0 {
        seq![]
    } else if ts.len() == 1 {
        ts[0]
    } else {
        join(ts.drop_last(), sep).push(sep) + ts.last()
    }
}

/// Each line followed by a line break.
pub open spec fn lines_text(ls: Seq<Seq<char>>) -> Seq<char>
    decreases ls.len(),
{
    if ls.len() == 0 {
        seq![]
    } else {
        lines_text(ls.drop_last()) + ls.last().push('\n')
    }
}

/// `t` is a non-empty run of characters that are not white space.
pub open spec fn solid(t: Seq<char>) -> bool {
    t.len() > 0 && forall|i: int| 0 <= i < t.len() ==> !is_space(#[trigger] t[i])
}

/// Characters other than `sep` extend the piece being read.
proof fn lemma_split_extend(x: Seq<char>, y: Seq<char>, sep: char)
    requires
        !y.contains(sep),
    ensures
        split_state(x + y, sep) == (split_state(x, sep).0, split_state(x, sep).1 + y),
    decreases y.len(),
{
    if y.len() == 0 {
        assert(x + y =~= x);
        assert(split_state(x, sep).1 + y =~= split_state(x, sep).1);
    } else {
        let y0 = y.drop_last();
        assert(!y0.contains(sep)) by {
            if y0.contains(sep) {
                let k = choose|k: int| 0 <= k < y0.len() && y0[k] == sep;
                assert(y[k] == sep);
            }
        }
        lemma_split_extend(x, y0, sep);
        assert((x + y).drop_last() =~= x + y0);
        assert((x + y).last() == y.last());
        assert(y.last() != sep) by {
            assert(y[y.len() - 1] == y.last());
        }
        assert((split_state(x, sep).1 + y0).push(y.last()) =~= split_state(x, sep).1 + y);
    }
}

/// Cutting joined pieces at the separator gives the pieces back.
proof fn lemma_split_join(ts: Seq<Seq<char>>, sep: char)
    requires
        ts.len() > 0,
        forall|i: int| 0 <= i < ts.len() ==> !(#[trigger] ts[i]).contains(sep),
    ensures
        split_state(join(ts, sep), sep) == (ts.drop_last(), ts.last()),
        split_on(join(ts, sep), sep) == ts,
    decreases ts.len(),
{
    if ts.len() == 1 {
        lemma_split_extend(seq![], ts[0], sep);
        assert(seq![] + ts[0] =~= ts[0]);
        assert(Seq::<char>::empty() + ts[0] =~= ts[0]);
        assert(ts.drop_last() =~= seq![]);
    } else {
        let pre = ts.drop_last();
        assert forall|i: int| 0 <= i < pre.len() implies !(#[trigger] pre[i]).contains(sep) by {
            assert(pre[i] == ts[i]);
        }
        lemma_split_join(pre, sep);
        let x = join(pre, sep).push(sep);
        assert(x.drop_last() =~= join(pre, sep));
        assert(pre.drop_last().push(pre.last()) =~= pre);
        assert(split_state(x, sep) == (pre, Seq::<char>::empty()));
        assert(!ts[ts.len() - 1].contains(sep));
        lemma_split_extend(x, ts.last(), sep);
        assert(Seq::<char>::empty() + ts.last() =~= ts.last());
    }
    assert(ts.drop_last().push(ts.last()) =~= ts);
}

/// Cutting written lines at line breaks gives the lines back, then an empty piece.
proof fn lemma_lines_split(ls: Seq<Seq<char>>)
    requires
        forall|i: int| 0 <= i < ls.len() ==> !(#[trigger] ls[i]).contains('\n'),
    ensures
        split_state(lines_text(ls), '\n') == (ls, Seq::<char>::empty()),
    decreases ls.len(),
{
    if ls.len() == 0 {
        assert(ls =~= seq![]);
    } else {
        let pre = ls.drop_last();
        assert forall|i: int| 0 <= i < pre.len() implies !(#[trigger] pre[i]).contains('\n') by {
            assert(pre[i] == ls[i]);
        }
        lemma_lines_split(pre);
        assert(!ls[ls.len() - 1].contains('\n'));
        lemma_split_extend(lines_text(pre), ls.last(), '\n');
        let y = lines_text(pre) + ls.last();
        assert(lines_text(ls) =~= y.push('\n'));
        assert(y.push('\n').drop_last() =~= y);
        assert(Seq::<char>::empty() + ls.last() =~= ls.last());
        assert(pre.push(ls.last()) =~= ls);
    }
}

/// Non-space characters extend the word being read.
proof fn lemma_words_extend(x: Seq<char>, y: Seq<char>)
    requires
        forall|i: int| 0 <= i < y.len() ==> !is_space(#[trigger] y[i]),
    ensures
        words_state(x + y) == (words_state(x).0, words_state(x).1 + y),
    decreases y.len(),
{
    if y.len() == 0 {
        assert(x + y =~= x);
        assert(words_state(x).1 + y =~= words_state(x).1);
    } else {
        let y0 = y.drop_last();
        lemma_words_extend(x, y0);
        assert((x + y).drop_last() =~= x + y0);
        assert(!is_space(y[y.len() - 1]));
        assert((words_state(x).1 + y0).push(y.last()) =~= words_state(x).1 + y);
    }
}

/// The words of solid words joined by spaces are those words.
proof fn lemma_words_join(ts: Seq<Seq<char>>)
    requires
        ts.len() > 0,
        forall|i: int| 0 <= i < ts.len() ==> solid(#[trigger] ts[i]),
    ensures
        words_state(join(ts, ' ')) == (ts.drop_last(), ts.last()),
        words(join(ts, ' ')) == ts,
    decreases ts.len(),
{
    assert(solid(ts[ts.len() - 1]));
    if ts.len() == 1 {
        lemma_words_extend(seq![], ts[0]);
        assert(Seq::<char>::empty() + ts[0] =~= ts[0]);
        assert(ts.drop_last() =~= seq![]);
    } else {
        let pre = ts.drop_last();
        assert forall|i: int| 0 <= i < pre.len() implies solid(#[trigger] pre[i]) by {
            assert(pre[i] == ts[i]);
        }
        lemma_words_join(pre);
        assert(solid(pre[pre.len() - 1]));
        let x = join(pre, ' ').push(' ');
        assert(x.drop_last() =~= join(pre, ' '));
        assert(is_space(' '));
        assert(pre.drop_last().push(pre.last()) =~= pre);
        assert(words_state(x) == (pre, Seq::<char>::empty()));
        lemma_words_extend(x, ts.last());
        assert(Seq::<char>::empty() + ts.last() =~= ts.last());
    }
    assert(ts.drop_last().push(ts.last()) =~= ts);
}

/// No character of the decimal text of `i` is white space or a `/`.
proof fn lemma_int_text_chars(i: i32)
    ensures
        solid(int_text(i)),
        !int_text(i).contains('/'),
{
    int_text_reads_back(i);
    let t = int_text(i);
    let n = if i < 0 {
        (-(i as int)) as nat
    } else {
        i as nat
    };
    lemma_nat_text(n);
    assert forall|k: int| 0 <= k < t.len() implies t[k] == '-' || is_digit(#[trigger] t[k]) by {
        if i < 0 && k > 0 {
            assert(t[k] == nat_text(n)[k - 1]);
        }
    }
    assert(!t.contains('/')) by {
        if t.contains('/') {
            let k = choose|k: int| 0 <= k < t.len() && t[k] == '/';
            assert(t[k] == '-' || is_digit(t[k]));
        }
    }
}

/// The decimal texts of `vs` read back as `vs`.
proof fn lemma_parsed_texts(vs: Seq<i32>)
    ensures
        parsed_ints(vs.map_values(|x: i32| int_text(x))) == vs,
    decreases vs.len(),
{
    let ps = vs.map_values(|x: i32| int_text(x));
    if vs.len() > 0 {
        lemma_parsed_texts(vs.drop_last());
        assert(ps.drop_last() =~= vs.drop_last().map_values(|x: i32| int_text(x)));
        int_text_reads_back(vs.last());
        assert(vs.drop_last().push(vs.last()) =~= vs);
    } else {
        assert(vs =~= seq![]);
    }
}

/// The word of an optional field, where it is present.
pub open spec fn opt_token(o: Option<Seq<char>>) -> Seq<Seq<char>> {
    match o {
        Some(t) => seq![t],
        None => seq![],
    }
}

/// The words of the line that writes a vertex.
pub open spec fn vertex_tokens(v: VertexView) -> Seq<Seq<char>> {
    seq![seq!['v'], v.x, v.y, v.z] + opt_token(v.w)
}

/// The words of the line that writes a texture vertex.
pub open spec fn texture_tokens(t: TextureView) -> Seq<Seq<char>> {
    seq![seq!['v', 't'], t.u] + opt_token(t.v) + opt_token(t.w)
}

/// The words of the line that writes a vertex normal.
pub open spec fn normal_tokens(n: NormalView) -> Seq<Seq<char>> {
    seq![seq!['v', 'n'], n.i, n.j, n.k]
}

/// The indices of corner `i` of `f`: vertex, then texture vertex and normal where present.
pub open spec fn corner_values(f: FaceView, i: int) -> Seq<i32> {
    seq![f.vertices[i]] + match f.texture_vertices {
        Some(t) => seq![t[i]],
        None => seq![],
    } + match f.vertex_normals {
        Some(n) => seq![n[i]],
        None => seq![],
    }
}

/// Corner `i` of `f` as written: its indices in decimal, separated by `/`.
pub open spec fn corner_text(f: FaceView, i: int) -> Seq<char> {
    join(corner_values(f, i).map_values(|x: i32| int_text(x)), '/')
}

/// The words of the line that writes a face.
pub open spec fn face_tokens(f: FaceView) -> Seq<Seq<char>> {
    seq![seq!['f']] + Seq::new(f.vertices.len(), |i: int| corner_text(f, i))
}

/// The line that writes the words `ts`, separated by single spaces.
pub open spec fn line_of(ts: Seq<Seq<char>>) -> Seq<char> {
    join(ts, ' ')
}

/// The lines that write `m`: vertices, texture vertices, normals, then faces.
pub open spec fn obj_lines(m: ObjView) -> Seq<Seq<char>> {
    m.vertices.map_values(|v: VertexView| line_of(vertex_tokens(v))) + m.texture_vertices.map_values(
        |t: TextureView| line_of(texture_tokens(t)),
    ) + m.vertex_normals.map_values(|n: NormalView| line_of(normal_tokens(n)))
        + m.faces.map_values(|f: FaceView| line_of(face_tokens(f)))
}

/// The OBJ text that writes `m`.
pub open spec fn obj_text(m: ObjView) -> Seq<char> {
    lines_text(obj_lines(m))
}

/// A field that a line can carry and read back: a number literal without white space.
pub open spec fn number_token(t: Seq<char>) -> bool {
    solid(t) && is_number(t)
}

/// An optional field that is absent, or a field that a line can carry.
pub open spec fn opt_number_token(o: Option<Seq<char>>) -> bool {
    match o {
        Some(t) => number_token(t),
        None => true,
    }
}

/// A vertex whose coordinates a line can carry and read back.
pub open spec fn vertex_wf(v: VertexView) -> bool {
    number_token(v.x) && number_token(v.y) && number_token(v.z) && opt_number_token(v.w)
}

/// A texture vertex with a `w` also has a `v`, as a line can only give them in that order.
pub open spec fn texture_wf(t: TextureView) -> bool {
    number_token(t.u) && opt_number_token(t.v) && opt_number_token(t.w) && (t.w is Some ==> t.v
        is Some)
}

/// A normal whose components a line can carry and read back.
pub open spec fn normal_wf(n: NormalView) -> bool {
    number_token(n.i) && number_token(n.j) && number_token(n.k)
}

/// A face has corners, one entry per corner in each list it has, and normals only together
/// with texture vertices.
pub open spec fn face_wf(f: FaceView) -> bool {
    &&& f.vertices.len() > 0
    &&& f.texture_vertices matches Some(t) ==> t.len() == f.vertices.len()
    &&& f.vertex_normals matches Some(n) ==> n.len() == f.vertices.len()
    &&& f.vertex_normals is Some ==> f.texture_vertices is Some
}

/// Data that parsing can return.
pub open spec fn obj_wf(m: ObjView) -> bool {
    &&& forall|i: int| 0 <= i < m.vertices.len() ==> vertex_wf(#[trigger] m.vertices[i])
    &&& forall|i: int| 0 <= i < m.texture_vertices.len() ==> texture_wf(
        #[trigger] m.texture_vertices[i],
    )
    &&& forall|i: int| 0 <= i < m.vertex_normals.len() ==> normal_wf(#[trigger] m.vertex_normals[i])
    &&& forall|i: int| 0 <= i < m.faces.len() ==> face_wf(#[trigger] m.faces[i])
}

/// A line of solid words has no line break.
proof fn lemma_line_no_break(ts: Seq<Seq<char>>)
    requires
        forall|i: int| 0 <= i < ts.len() ==> solid(#[trigger] ts[i]),
    ensures
        !line_of(ts).contains('\n'),
    decreases ts.len(),
{
    let j = line_of(ts);
    if ts.len() == 1 {
        assert(j == ts[0]);
        assert(solid(ts[0]));
    } else if ts.len() > 1 {
        let pre = ts.drop_last();
        assert forall|i: int| 0 <= i < pre.len() implies solid(#[trigger] pre[i]) by {
            assert(pre[i] == ts[i]);
        }
        lemma_line_no_break(pre);
        assert(solid(ts[ts.len() - 1]));
        let a = line_of(pre).push(' ');
        assert(j == a + ts.last());
        assert forall|k: int| 0 <= k < j.len() implies j[k] != '\n' by {
            if k < a.len() - 1 {
                assert(j[k] == line_of(pre)[k]);
            } else if k >= a.len() {
                assert(j[k] == ts.last()[k - a.len()]);
                assert(!is_space(ts.last()[k - a.len()]));
            }
        }
    }
    if j.contains('\n') {
        let k = choose|k: int| 0 <= k < j.len() && j[k] == '\n';
        if ts.len() == 1 {
            assert(!is_space(ts[0][k]));
        }
    }
}

/// The line that writes a well-formed vertex reads back as that vertex.
proof fn lemma_vertex_record(v: VertexView)
    requires
        vertex_wf(v),
    ensures
        words(line_of(vertex_tokens(v))) == vertex_tokens(v),
        !line_of(vertex_tokens(v)).contains('\n'),
        record_of(vertex_tokens(v)) == Ok::<Record, (crate::obj::ParseErrorKind, usize)>(
            Record::Vertex(v),
        ),
{
    let ws = vertex_tokens(v);
    assert(ws[1] == v.x && ws[2] == v.y && ws[3] == v.z);
    assert forall|i: int| 0 <= i < ws.len() implies solid(#[trigger] ws[i]) by {
        if i == 0 {
            assert(ws[0] =~= seq!['v']);
            assert(!is_space('v'));
        }
    }
    lemma_words_join(ws);
    lemma_line_no_break(ws);
    assert(required_error(ws, 0) is None);
    assert(required_error(ws, 1) is None);
    assert(required_error(ws, 2) is None);
    assert(required_error(ws, 3) is None);
    if v.w is Some {
        assert(ws[4] == v.w->0);
    }
}

/// The line that writes a well-formed texture vertex reads back as it.
proof fn lemma_texture_record(t: TextureView)
    requires
        texture_wf(t),
    ensures
        words(line_of(texture_tokens(t))) == texture_tokens(t),
        !line_of(texture_tokens(t)).contains('\n'),
        record_of(texture_tokens(t)) == Ok::<Record, (crate::obj::ParseErrorKind, usize)>(
            Record::Texture(t),
        ),
{
    let ws = texture_tokens(t);
    assert(ws[1] == t.u);
    assert forall|i: int| 0 <= i < ws.len() implies solid(#[trigger] ws[i]) by {
        if i == 0 {
            assert(ws[0] =~= seq!['v', 't']);
            assert(!is_space('v') && !is_space('t'));
        } else if i == 2 && t.v is Some {
            assert(ws[2] == t.v->0);
        } else if i == 2 {
            assert(ws[2] == t.w->0);
        } else if i == 3 {
            assert(ws[3] == t.w->0);
        }
    }
    lemma_words_join(ws);
    lemma_line_no_break(ws);
    assert(ws[0] != seq!['v']) by {
        assert(seq!['v'].len() == 1);
    }
    assert(required_error(ws, 0) is None);
    assert(required_error(ws, 1) is None);
    if t.v is Some {
        assert(ws[2] == t.v->0);
        if t.w is Some {
            assert(ws[3] == t.w->0);
        }
    }
}

/// The line that writes a well-formed normal reads back as it.
proof fn lemma_normal_record(n: NormalView)
    requires
        normal_wf(n),
    ensures
        words(line_of(normal_tokens(n))) == normal_tokens(n),
        !line_of(normal_tokens(n)).contains('\n'),
        record_of(normal_tokens(n)) == Ok::<Record, (crate::obj::ParseErrorKind, usize)>(
            Record::Normal(n),
        ),
{
    let ws = normal_tokens(n);
    assert forall|i: int| 0 <= i < ws.len() implies solid(#[trigger] ws[i]) by {
        if i == 0 {
            assert(ws[0] =~= seq!['v', 'n']);
            assert(!is_space('v') && !is_space('n'));
        }
    }
    lemma_words_join(ws);
    lemma_line_no_break(ws);
    assert(ws[0] != seq!['v']) by {
        assert(seq!['v'].len() == 1);
    }
    assert(ws[0] != seq!['v', 't']) by {
        assert(seq!['v', 't'][1] == 't');
    }
    assert(required_error(ws, 0) is None);
    assert(required_error(ws, 1) is None);
    assert(required_error(ws, 2) is None);
    assert(required_error(ws, 3) is None);
}

/// Solid pieces joined by a non-space separator are solid.
proof fn lemma_join_solid(ts: Seq<Seq<char>>, sep: char)
    requires
        ts.len() > 0,
        !is_space(sep),
        forall|i: int| 0 <= i < ts.len() ==> solid(#[trigger] ts[i]),
    ensures
        solid(join(ts, sep)),
    decreases ts.len(),
{
    assert(solid(ts[ts.len() - 1]));
    if ts.len() > 1 {
        let pre = ts.drop_last();
        assert forall|i: int| 0 <= i < pre.len() implies solid(#[trigger] pre[i]) by {
            assert(pre[i] == ts[i]);
        }
        lemma_join_solid(pre, sep);
        let a = join(pre, sep).push(sep);
        let j = a + ts.last();
        assert forall|k: int| 0 <= k < j.len() implies !is_space(#[trigger] j[k]) by {
            if k < a.len() - 1 {
                assert(j[k] == join(pre, sep)[k]);
            } else if k >= a.len() {
                assert(j[k] == ts.last()[k - a.len()]);
            }
        }
    }
}

/// A written corner is solid, starts with its vertex index and reads back as its indices.
proof fn lemma_corner(f: FaceView, i: int)
    requires
        face_wf(f),
        0 <= i < f.vertices.len(),
    ensures
        solid(corner_text(f, i)),
        split_on(corner_text(f, i), '/')[0] == int_text(f.vertices[i]),
        corner_ints(corner_text(f, i)) == corner_values(f, i),
{
    let cv = corner_values(f, i);
    let ps = cv.map_values(|x: i32| int_text(x));
    assert forall|k: int| 0 <= k < ps.len() implies !(#[trigger] ps[k]).contains('/') && solid(
        ps[k],
    ) by {
        lemma_int_text_chars(cv[k]);
    }
    lemma_split_join(ps, '/');
    lemma_parsed_texts(cv);
    assert(!is_space('/'));
    lemma_join_solid(ps, '/');
    assert(cv[0] == f.vertices[i]);
}

/// The words of the line that writes a face are its tokens.
proof fn lemma_face_words(f: FaceView)
    requires
        face_wf(f),
    ensures
        words(line_of(face_tokens(f))) == face_tokens(f),
        !line_of(face_tokens(f)).contains('\n'),
        forall|i: int|
            0 <= i < f.vertices.len() ==> #[trigger] face_tokens(f).drop_first()[i] == corner_text(
                f,
                i,
            ),
{
    let ws = face_tokens(f);
    let cs = ws.drop_first();
    assert forall|i: int| 0 <= i < cs.len() implies cs[i] == corner_text(f, i) by {
        assert(cs[i] == ws[i + 1]);
    }
    assert forall|i: int| 0 <= i < ws.len() implies solid(#[trigger] ws[i]) by {
        if i == 0 {
            assert(ws[0] =~= seq!['f']);
            assert(!is_space('f'));
        } else {
            assert(ws[i] == cs[i - 1]);
            lemma_corner(f, i - 1);
        }
    }
    lemma_words_join(ws);
    lemma_line_no_break(ws);
}

/// The index lists that the corners of a written face give back.
proof fn lemma_face_lists_back(f: FaceView, cs: Seq<Seq<char>>)
    requires
        face_wf(f),
        cs.len() == f.vertices.len(),
        forall|i: int| 0 <= i < cs.len() ==> #[trigger] cs[i] == corner_text(f, i),
    ensures
        face_shape(cs[0]) == corner_values(f, 0).len(),
        face_lists(cs, corner_values(f, 0).len()) is Ok,
        ({
            let (v, t, n) = face_lists(cs, corner_values(f, 0).len())->Ok_0;
            &&& v == f.vertices
            &&& f.texture_vertices is Some ==> t == f.texture_vertices->0
            &&& f.vertex_normals is Some ==> n == f.vertex_normals->0
        }),
{
    let len = f.vertices.len();
    let need = corner_values(f, 0).len();
    lemma_corner(f, 0);
    assert forall|i: int| 0 <= i < len implies #[trigger] corner_ints(cs[i]) == corner_values(
        f,
        i,
    ) by {
        lemma_corner(f, i);
    }
    assert forall|i: int| 0 <= i < len implies corner_ok(#[trigger] cs[i], need) by {
        lemma_corner(f, i);
        int_text_reads_back(f.vertices[i]);
        assert(corner_values(f, i).len() == need);
    }
    crate::laws::lemma_face_lists_sound(cs, need);
    let (v, t, n) = face_lists(cs, need)->Ok_0;
    assert(v =~= f.vertices) by {
        assert forall|i: int| 0 <= i < len implies v[i] == f.vertices[i] by {
            assert(corner_ints(cs[i]) == corner_values(f, i));
            assert(corner_values(f, i)[0] == f.vertices[i]);
        }
    }
    if f.texture_vertices is Some {
        assert(t =~= f.texture_vertices->0) by {
            assert forall|i: int| 0 <= i < len implies t[i] == f.texture_vertices->0[i] by {
                assert(corner_ints(cs[i]) == corner_values(f, i));
                assert(corner_values(f, i)[1] == f.texture_vertices->0[i]);
            }
        }
    }
    if f.vertex_normals is Some {
        assert(n =~= f.vertex_normals->0) by {
            assert forall|i: int| 0 <= i < len implies n[i] == f.vertex_normals->0[i] by {
                assert(corner_ints(cs[i]) == corner_values(f, i));
                assert(corner_values(f, i)[2] == f.vertex_normals->0[i]);
            }
        }
    }
}

/// The line that writes a well-formed face reads back as that face.
proof fn lemma_face_record(f: FaceView)
    requires
        face_wf(f),
    ensures
        words(line_of(face_tokens(f))) == face_tokens(f),
        !line_of(face_tokens(f)).contains('\n'),
        record_of(face_tokens(f)) == Ok::<Record, (crate::obj::ParseErrorKind, usize)>(
            Record::Face(f),
        ),
{
    let ws = face_tokens(f);
    let cs = ws.drop_first();
    lemma_face_words(f);
    crate::laws::lemma_face_keyword(ws);
    lemma_face_lists_back(f, cs);
}

/// Lines that write vertexs, after lines that parse to `m0`, append them to `m0`.
proof fn lemma_vertex_lines(p: Seq<Seq<char>>, m0: ObjView, xs: Seq<VertexView>)
    requires
        parse_lines(p) == Ok::<ObjView, crate::obj::ParseError>(m0),
        forall|i: int| 0 <= i < xs.len() ==> vertex_wf(#[trigger] xs[i]),
    ensures
        parse_lines(p + xs.map_values(|v: VertexView| line_of(vertex_tokens(v)))) == Ok::<
            ObjView,
            crate::obj::ParseError,
        >(ObjView { vertices: m0.vertices + xs, ..m0 }),
    decreases xs.len(),
{
    let ls = p + xs.map_values(|v: VertexView| line_of(vertex_tokens(v)));
    if xs.len() == 0 {
        assert(ls =~= p);
        assert(m0.vertices + xs =~= m0.vertices);
    } else {
        let pre = xs.drop_last();
        assert forall|i: int| 0 <= i < pre.len() implies vertex_wf(#[trigger] pre[i]) by {
            assert(pre[i] == xs[i]);
        }
        lemma_vertex_lines(p, m0, pre);
        assert(ls.drop_last() =~= p + pre.map_values(|v: VertexView| line_of(vertex_tokens(v))));
        assert(vertex_wf(xs[xs.len() - 1]));
        lemma_vertex_record(xs.last());
        assert(ls.last() == line_of(vertex_tokens(xs.last())));
        assert((m0.vertices + pre).push(xs.last()) =~= m0.vertices + xs);
    }
}

/// Lines that write texture vertexs, after lines that parse to `m0`, append them to `m0`.
proof fn lemma_texture_lines(p: Seq<Seq<char>>, m0: ObjView, xs: Seq<TextureView>)
    requires
        parse_lines(p) == Ok::<ObjView, crate::obj::ParseError>(m0),
        forall|i: int| 0 <= i < xs.len() ==> texture_wf(#[trigger] xs[i]),
    ensures
        parse_lines(p + xs.map_values(|t: TextureView| line_of(texture_tokens(t)))) == Ok::<
            ObjView,
            crate::obj::ParseError,
        >(ObjView { texture_vertices: m0.texture_vertices + xs, ..m0 }),
    decreases xs.len(),
{
    let ls = p + xs.map_values(|t: TextureView| line_of(texture_tokens(t)));
    if xs.len() == 0 {
        assert(ls =~= p);
        assert(m0.texture_vertices + xs =~= m0.texture_vertices);
    } else {
        let pre = xs.drop_last();
        assert forall|i: int| 0 <= i < pre.len() implies texture_wf(#[trigger] pre[i]) by {
            assert(pre[i] == xs[i]);
        }
        lemma_texture_lines(p, m0, pre);
        assert(ls.drop_last() =~= p + pre.map_values(|t: TextureView| line_of(texture_tokens(t))));
        assert(texture_wf(xs[xs.len() - 1]));
        lemma_texture_record(xs.last());
        assert(ls.last() == line_of(texture_tokens(xs.last())));
        assert((m0.texture_vertices + pre).push(xs.last()) =~= m0.texture_vertices + xs);
    }
}

/// Lines that write normals, after lines that parse to `m0`, append them to `m0`.
proof fn lemma_normal_lines(p: Seq<Seq<char>>, m0: ObjView, xs: Seq<NormalView>)
    requires
        parse_lines(p) == Ok::<ObjView, crate::obj::ParseError>(m0),
        forall|i: int| 0 <= i < xs.len() ==> normal_wf(#[trigger] xs[i]),
    ensures
        parse_lines(p + xs.map_values(|n: NormalView| line_of(normal_tokens(n)))) == Ok::<
            ObjView,
            crate::obj::ParseError,
        >(ObjView { vertex_normals: m0.vertex_normals + xs, ..m0 }),
    decreases xs.len(),
{
    let ls = p + xs.map_values(|n: NormalView| line_of(normal_tokens(n)));
    if xs.len() == 0 {
        assert(ls =~= p);
        assert(m0.vertex_normals + xs =~= m0.vertex_normals);
    } else {
        let pre = xs.drop_last();
        assert forall|i: int| 0 <= i < pre.len() implies normal_wf(#[trigger] pre[i]) by {
            assert(pre[i] == xs[i]);
        }
        lemma_normal_lines(p, m0, pre);
        assert(ls.drop_last() =~= p + pre.map_values(|n: NormalView| line_of(normal_tokens(n))));
        assert(normal_wf(xs[xs.len() - 1]));
        lemma_normal_record(xs.last());
        assert(ls.last() == line_of(normal_tokens(xs.last())));
        assert((m0.vertex_normals + pre).push(xs.last()) =~= m0.vertex_normals + xs);
    }
}

/// Lines that write faces, after lines that parse to `m0`, append them to `m0`.
proof fn lemma_face_lines(p: Seq<Seq<char>>, m0: ObjView, xs: Seq<FaceView>)
    requires
        parse_lines(p) == Ok::<ObjView, crate::obj::ParseError>(m0),
        forall|i: int| 0 <= i < xs.len() ==> face_wf(#[trigger] xs[i]),
    ensures
        parse_lines(p + xs.map_values(|f: FaceView| line_of(face_tokens(f)))) == Ok::<
            ObjView,
            crate::obj::ParseError,
        >(ObjView { faces: m0.faces + xs, ..m0 }),
    decreases xs.len(),
{
    let ls = p + xs.map_values(|f: FaceView| line_of(face_tokens(f)));
    if xs.len() == 0 {
        assert(ls =~= p);
        assert(m0.faces + xs =~= m0.faces);
    } else {
        let pre = xs.drop_last();
        assert forall|i: int| 0 <= i < pre.len() implies face_wf(#[trigger] pre[i]) by {
            assert(pre[i] == xs[i]);
        }
        lemma_face_lines(p, m0, pre);
        assert(ls.drop_last() =~= p + pre.map_values(|f: FaceView| line_of(face_tokens(f))));
        assert(face_wf(xs[xs.len() - 1]));
        lemma_face_record(xs.last());
        assert(ls.last() == line_of(face_tokens(xs.last())));
        assert((m0.faces + pre).push(xs.last()) =~= m0.faces + xs);
    }
}

/// Writing well-formed data and reading the text back gives the same data.
pub proof fn write_then_parse(m: ObjView)
    requires
        obj_wf(m),
    ensures
        parse_text(obj_text(m)) == Ok::<ObjView, crate::obj::ParseError>(m),
{
    let vl = m.vertices.map_values(|v: VertexView| line_of(vertex_tokens(v)));
    let tl = m.texture_vertices.map_values(|t: TextureView| line_of(texture_tokens(t)));
    let nl = m.vertex_normals.map_values(|n: NormalView| line_of(normal_tokens(n)));
    let fl = m.faces.map_values(|f: FaceView| line_of(face_tokens(f)));
    let e = empty_obj();
    assert(parse_lines(Seq::<Seq<char>>::empty()) == Ok::<ObjView, crate::obj::ParseError>(e));
    lemma_vertex_lines(seq![], e, m.vertices);
    let m1 = ObjView { vertices: e.vertices + m.vertices, ..e };
    assert(Seq::<Seq<char>>::empty() + vl =~= vl);
    lemma_texture_lines(vl, m1, m.texture_vertices);
    let m2 = ObjView { texture_vertices: m1.texture_vertices + m.texture_vertices, ..m1 };
    lemma_normal_lines(vl + tl, m2, m.vertex_normals);
    let m3 = ObjView { vertex_normals: m2.vertex_normals + m.vertex_normals, ..m2 };
    lemma_face_lines(vl + tl + nl, m3, m.faces);
    let m4 = ObjView { faces: m3.faces + m.faces, ..m3 };
    assert(m4.vertices =~= m.vertices);
    assert(m4.texture_vertices =~= m.texture_vertices);
    assert(m4.vertex_normals =~= m.vertex_normals);
    assert(m4.faces =~= m.faces);
    let ls = obj_lines(m);
    assert(ls == vl + tl + nl + fl);
    assert forall|i: int| 0 <= i < ls.len() implies !(#[trigger] ls[i]).contains('\n') by {
        if i < vl.len() {
            assert(ls[i] == vl[i]);
            lemma_vertex_record(m.vertices[i]);
        } else if i < vl.len() + tl.len() {
            assert(ls[i] == tl[i - vl.len()]);
            lemma_texture_record(m.texture_vertices[i - vl.len()]);
        } else if i < vl.len() + tl.len() + nl.len() {
            assert(ls[i] == nl[i - vl.len() - tl.len()]);
            lemma_normal_record(m.vertex_normals[i - vl.len() - tl.len()]);
        } else {
            assert(ls[i] == fl[i - vl.len() - tl.len() - nl.len()]);
            lemma_face_record(m.faces[i - vl.len() - tl.len() - nl.len()]);
        }
    }
    lemma_lines_split(ls);
    let all = ls.push(seq![]);
    assert(all.drop_last() =~= ls);
    assert(words(Seq::<char>::empty()) =~= seq![]);
}

/// Joining one more piece appends the separator and the piece.
proof fn lemma_join_push(ts: Seq<Seq<char>>, t: Seq<char>, sep: char)
    requires
        ts.len() >= 1,
    ensures
        join(ts.push(t), sep) == join(ts, sep).push(sep) + t,
{
    assert(ts.push(t).drop_last() =~= ts);
}

/// Appends `n` in decimal.
fn write_nat(n: u32, out: &mut String)
    ensures
        final(out)@ == old(out)@ + nat_text(n as nat),
    decreases n,
{
    let ds = ['0', '1', '2', '3', '4', '5', '6', '7', '8', '9'];
    assert(ds@ =~= seq!['0', '1', '2', '3', '4', '5', '6', '7', '8', '9']);
    let ghost start = out@;
    if n >= 10 {
        write_nat(n / 10, out);
    }
    push_char(out, ds[(n % 10) as usize]);
    if n >= 10 {
        assert(out@ =~= start + nat_text(n as nat));
    } else {
        assert(out@ =~= start + nat_text(n as nat));
    }
}

/// Appends `i` in decimal.
fn write_int(i: i32, out: &mut String)
    ensures
        final(out)@ == old(out)@ + int_text(i),
{
    let ghost start = out@;
    if i < 0 {
        push_char(out, '-');
        write_nat((0i64 - i as i64) as u32, out);
        assert(out@ =~= start + int_text(i));
    } else {
        write_nat(i as u32, out);
    }
}

/// Appends a space and the word `w` to a line whose words so far are `ts`.
fn add_word(
    out: &mut String,
    w: &str,
    Ghost(head): Ghost<Seq<char>>,
    Ghost(ts): Ghost<Seq<Seq<char>>>,
)
    requires
        ts.len() >= 1,
        old(out)@ == head + join(ts, ' '),
    ensures
        final(out)@ == head + join(ts.push(w@), ' '),
{
    push_char(out, ' ');
    out.append(w);
    proof {
        lemma_join_push(ts, w@, ' ');
    }
    assert(out@ =~= head + join(ts.push(w@), ' '));
}

/// Appends the word `w` where it is present.
fn add_optional_word(
    out: &mut String,
    w: &Option<String>,
    Ghost(head): Ghost<Seq<char>>,
    Ghost(ts): Ghost<Seq<Seq<char>>>,
)
    requires
        ts.len() >= 1,
        old(out)@ == head + join(ts, ' '),
    ensures
        final(out)@ == head + join(ts + opt_token(crate::obj::text_opt(*w)), ' '),
{
    match w {
        Some(x) => {
            add_word(out, x.as_str(), Ghost(head), Ghost(ts));
            assert(ts + opt_token(crate::obj::text_opt(*w)) =~= ts.push(x@));
        },
        None => {
            assert(ts + opt_token(crate::obj::text_opt(*w)) =~= ts);
        },
    }
}

/// Appends the line that writes `v`.
fn write_vertex(v: &Vertex, out: &mut String)
    ensures
        final(out)@ == old(out)@ + line_of(vertex_tokens(v@)).push('\n'),
{
    let ghost head = out@;
    let ghost ts = seq![seq!['v']];
    push_char(out, 'v');
    assert(out@ =~= head + join(ts, ' '));
    add_word(out, v.x.as_str(), Ghost(head), Ghost(ts));
    add_word(out, v.y.as_str(), Ghost(head), Ghost(ts.push(v.x@)));
    add_word(out, v.z.as_str(), Ghost(head), Ghost(ts.push(v.x@).push(v.y@)));
    add_optional_word(out, &v.w, Ghost(head), Ghost(ts.push(v.x@).push(v.y@).push(v.z@)));
    assert(ts.push(v.x@).push(v.y@).push(v.z@) + opt_token(crate::obj::text_opt(v.w))
        =~= vertex_tokens(v@));
    push_char(out, '\n');
    assert(out@ =~= head + line_of(vertex_tokens(v@)).push('\n'));
}

/// Appends the line that writes `t`.
fn write_texture(t: &TextureVertex, out: &mut String)
    ensures
        final(out)@ == old(out)@ + line_of(texture_tokens(t@)).push('\n'),
{
    let ghost head = out@;
    let ghost ts = seq![seq!['v', 't']];
    push_char(out, 'v');
    push_char(out, 't');
    assert(out@ =~= head + join(ts, ' '));
    add_word(out, t.u.as_str(), Ghost(head), Ghost(ts));
    let ghost ts1 = ts.push(t.u@);
    add_optional_word(out, &t.v, Ghost(head), Ghost(ts1));
    let ghost ts2 = ts1 + opt_token(crate::obj::text_opt(t.v));
    add_optional_word(out, &t.w, Ghost(head), Ghost(ts2));
    assert(ts2 + opt_token(crate::obj::text_opt(t.w)) =~= texture_tokens(t@));
    push_char(out, '\n');
    assert(out@ =~= head + line_of(texture_tokens(t@)).push('\n'));
}

/// Appends the line that writes `n`.
fn write_normal(n: &VertexNormal, out: &mut String)
    ensures
        final(out)@ == old(out)@ + line_of(normal_tokens(n@)).push('\n'),
{
    let ghost head = out@;
    let ghost ts = seq![seq!['v', 'n']];
    push_char(out, 'v');
    push_char(out, 'n');
    assert(out@ =~= head + join(ts, ' '));
    add_word(out, n.i.as_str(), Ghost(head), Ghost(ts));
    add_word(out, n.j.as_str(), Ghost(head), Ghost(ts.push(n.i@)));
    add_word(out, n.k.as_str(), Ghost(head), Ghost(ts.push(n.i@).push(n.j@)));
    assert(ts.push(n.i@).push(n.j@).push(n.k@) =~= normal_tokens(n@));
    push_char(out, '\n');
    assert(out@ =~= head + line_of(normal_tokens(n@)).push('\n'));
}

/// Each list of indices that a face has holds one entry per corner.
pub open spec fn face_lists_match(f: FaceView) -> bool {
    &&& f.texture_vertices matches Some(t) ==> t.len() == f.vertices.len()
    &&& f.vertex_normals matches Some(n) ==> n.len() == f.vertices.len()
}

/// Corner `i` of `f` as written.
fn write_corner(f: &Face, i: usize) -> (r: String)
    requires
        i < f.vertices@.len(),
        face_lists_match(f@),
    ensures
        r@ == corner_text(f@, i as int),
{
    let mut out = String::new();
    write_int(f.vertices[i], &mut out);
    let ghost ts = seq![int_text(f.vertices@[i as int])];
    assert(out@ =~= join(ts, '/'));
    match &f.texture_vertices {
        Some(t) => {
            push_char(&mut out, '/');
            write_int(t[i], &mut out);
            proof {
                lemma_join_push(ts, int_text(t@[i as int]), '/');
                ts = ts.push(int_text(t@[i as int]));
            }
            assert(out@ =~= join(ts, '/'));
        },
        None => {},
    }
    match &f.vertex_normals {
        Some(n) => {
            push_char(&mut out, '/');
            write_int(n[i], &mut out);
            proof {
                lemma_join_push(ts, int_text(n@[i as int]), '/');
                ts = ts.push(int_text(n@[i as int]));
            }
            assert(out@ =~= join(ts, '/'));
        },
        None => {},
    }
    assert(ts =~= corner_values(f@, i as int).map_values(|x: i32| int_text(x)));
    out
}

/// Appends the line that writes `f`.
fn write_face(f: &Face, out: &mut String)
    requires
        face_lists_match(f@),
    ensures
        final(out)@ == old(out)@ + line_of(face_tokens(f@)).push('\n'),
{
    let ghost head = out@;
    let ghost fv = f@;
    push_char(out, 'f');
    assert(out@ =~= head + join(seq![seq!['f']], ' '));
    let mut i: usize = 0;
    while i < f.vertices.len()
        invariant
            i <= f.vertices@.len(),
            fv == f@,
            face_lists_match(fv),
            out@ == head + join(
                seq![seq!['f']] + Seq::new(i as nat, |k: int| corner_text(fv, k)),
                ' ',
            ),
        decreases f.vertices@.len() - i,
    {
        let c = write_corner(f, i);
        let ghost ts = seq![seq!['f']] + Seq::new(i as nat, |k: int| corner_text(fv, k));
        add_word(out, c.as_str(), Ghost(head), Ghost(ts));
        assert(ts.push(c@) =~= seq![seq!['f']] + Seq::new(
            (i + 1) as nat,
            |k: int| corner_text(fv, k),
        ));
        i = i + 1;
    }
    assert(seq![seq!['f']] + Seq::new(i as nat, |k: int| corner_text(fv, k)) =~= face_tokens(fv));
    push_char(out, '\n');
    assert(out@ =~= head + line_of(face_tokens(fv)).push('\n'));
}

/// Writing one more line appends it and a line break.
proof fn lemma_lines_text_step(ls: Seq<Seq<char>>, k: int)
    requires
        0 <= k < ls.len(),
    ensures
        lines_text(ls.take(k + 1)) == lines_text(ls.take(k)) + ls[k].push('\n'),
{
    assert(ls.take(k + 1).drop_last() =~= ls.take(k));
}

/// Writes `d` as OBJ text: one line per record, vertices first, then texture vertices,
/// normals and faces, each line ending in a line break.
pub fn write_obj(d: &ObjData) -> (r: String)
    requires
        forall|i: int| 0 <= i < d@.faces.len() ==> face_lists_match(#[trigger] d@.faces[i]),
    ensures
        r@ == obj_text(d@),
{
    let ghost m = d@;
    let ghost ls = obj_lines(m);
    let ghost vl = m.vertices.map_values(|v: VertexView| line_of(vertex_tokens(v)));
    let ghost tl = m.texture_vertices.map_values(|t: TextureView| line_of(texture_tokens(t)));
    let ghost nl = m.vertex_normals.map_values(|n: NormalView| line_of(normal_tokens(n)));
    let ghost fl = m.faces.map_values(|f: FaceView| line_of(face_tokens(f)));
    assert(ls == vl + tl + nl + fl);
    let mut out = String::new();
    assert(out@ =~= lines_text(ls.take(0)));
    let mut j: usize = 0;
    while j < d.vertices.len()
        invariant
            m == d@,
            ls == vl + tl + nl + fl,
            vl == m.vertices.map_values(|v: VertexView| line_of(vertex_tokens(v))),
            j <= d.vertices@.len(),
            out@ == lines_text(ls.take(j as int)),
        decreases d.vertices@.len() - j,
    {
        write_vertex(&d.vertices[j], &mut out);
        proof {
            lemma_lines_text_step(ls, j as int);
            assert(ls[j as int] == vl[j as int]);
        }
        j = j + 1;
    }
    let ghost base: int = j as int;
    let mut j: usize = 0;
    while j < d.texture_vertices.len()
        invariant
            m == d@,
            ls == vl + tl + nl + fl,
            base == vl.len(),
            tl == m.texture_vertices.map_values(|t: TextureView| line_of(texture_tokens(t))),
            j <= d.texture_vertices@.len(),
            out@ == lines_text(ls.take(base + j)),
        decreases d.texture_vertices@.len() - j,
    {
        write_texture(&d.texture_vertices[j], &mut out);
        proof {
            lemma_lines_text_step(ls, base + j);
            assert(ls[base + j] == tl[j as int]);
        }
        j = j + 1;
    }
    let ghost base: int = base + j;
    let mut j: usize = 0;
    while j < d.vertex_normals.len()
        invariant
            m == d@,
            ls == vl + tl + nl + fl,
            base == vl.len() + tl.len(),
            nl == m.vertex_normals.map_values(|n: NormalView| line_of(normal_tokens(n))),
            j <= d.vertex_normals@.len(),
            out@ == lines_text(ls.take(base + j)),
        decreases d.vertex_normals@.len() - j,
    {
        write_normal(&d.vertex_normals[j], &mut out);
        proof {
            lemma_lines_text_step(ls, base + j);
            assert(ls[base + j] == nl[j as int]);
        }
        j = j + 1;
    }
    let ghost base: int = base + j;
    let mut j: usize = 0;
    while j < d.faces.len()
        invariant
            m == d@,
            ls == vl + tl + nl + fl,
            base == vl.len() + tl.len() + nl.len(),
            fl == m.faces.map_values(|f: FaceView| line_of(face_tokens(f))),
            forall|i: int| 0 <= i < m.faces.len() ==> face_lists_match(#[trigger] m.faces[i]),
            j <= d.faces@.len(),
            out@ == lines_text(ls.take(base + j)),
        decreases d.faces@.len() - j,
    {
        assert(face_lists_match(m.faces[j as int]));
        write_face(&d.faces[j], &mut out);
        proof {
            lemma_lines_text_step(ls, base + j);
            assert(ls[base + j] == fl[j as int]);
        }
        j = j + 1;
    }
    assert(ls.take(base + j) =~= ls);
    out
}

/// Words read so far are solid, and the word being read has no white space.
proof fn lemma_words_state_solid(s: Seq<char>)
    ensures
        forall|i: int| 0 <= i < words_state(s).0.len() ==> solid(#[trigger] words_state(s).0[i]),
        forall|i: int| 0 <= i < words_state(s).1.len() ==> !is_space(#[trigger] words_state(s).1[i]),
    decreases s.len(),
{
    if s.len() > 0 {
        lemma_words_state_solid(s.drop_last());
        let (d, c) = words_state(s.drop_last());
        if !is_space(s.last()) {
            let c2 = c.push(s.last());
            assert forall|i: int| 0 <= i < c2.len() implies !is_space(#[trigger] c2[i]) by {
                if i < c.len() {
                    assert(c2[i] == c[i]);
                }
            }
        } else if c.len() > 0 {
            let d2 = d.push(c);
            assert forall|i: int| 0 <= i < d2.len() implies solid(#[trigger] d2[i]) by {
                if i < d.len() {
                    assert(d2[i] == d[i]);
                }
            }
        }
    }
}

/// Every word of a text is solid.
proof fn lemma_words_solid(s: Seq<char>)
    ensures
        forall|i: int| 0 <= i < words(s).len() ==> solid(#[trigger] words(s)[i]),
{
    lemma_words_state_solid(s);
    let (d, c) = words_state(s);
    if c.len() > 0 {
        let d2 = d.push(c);
        assert forall|i: int| 0 <= i < d2.len() implies solid(#[trigger] d2[i]) by {
            if i < d.len() {
                assert(d2[i] == d[i]);
            }
        }
    }
}

/// Each index list of a face has one entry per corner.
proof fn lemma_face_lists_lengths(cs: Seq<Seq<char>>, need: nat)
    requires
        face_lists(cs, need) is Ok,
    ensures
        ({
            let (v, t, n) = face_lists(cs, need)->Ok_0;
            &&& v.len() == cs.len()
            &&& need >= 2 ==> t.len() == cs.len()
            &&& need >= 3 ==> n.len() == cs.len()
        }),
    decreases cs.len(),
{
    if cs.len() > 0 {
        lemma_face_lists_lengths(cs.drop_last(), need);
    }
}

/// The required number fields `1..=n` of a line without problems are number literals.
proof fn lemma_required_fields(ws: Seq<Seq<char>>, n: int)
    requires
        required_error(ws, n) is None,
        forall|i: int| 0 <= i < ws.len() ==> solid(#[trigger] ws[i]),
    ensures
        forall|i: int| 1 <= i <= n ==> i < ws.len() && number_token(#[trigger] ws[i]),
    decreases n,
{
    if n > 0 {
        lemma_required_fields(ws, n - 1);
        assert(field_error(ws, n) is None);
    }
}

/// An optional field that was kept is a field that a line can carry.
proof fn lemma_optional_field(ws: Seq<Seq<char>>, i: int)
    requires
        0 <= i,
        forall|k: int| 0 <= k < ws.len() ==> solid(#[trigger] ws[k]),
    ensures
        opt_number_token(optional_number(ws, i)),
{
    if 0 <= i < ws.len() {
        assert(solid(ws[i]));
    }
}

/// What a line of solid words makes is well-formed; for a texture vertex, but for the order
/// of `v` and `w`.
proof fn lemma_record_wf(ws: Seq<Seq<char>>)
    requires
        forall|i: int| 0 <= i < ws.len() ==> solid(#[trigger] ws[i]),
        record_of(ws) is Ok,
    ensures
        match record_of(ws)->Ok_0 {
            Record::Vertex(v) => vertex_wf(v),
            Record::Texture(t) => number_token(t.u) && opt_number_token(t.v) && opt_number_token(
                t.w,
            ),
            Record::Normal(n) => normal_wf(n),
            Record::Face(f) => face_wf(f),
            Record::Other => true,
        },
{
    if ws.len() > 0 {
        if ws[0] == seq!['v'] || ws[0] == seq!['v', 'n'] {
            lemma_required_fields(ws, 3);
            lemma_optional_field(ws, 4);
        } else if ws[0] == seq!['v', 't'] {
            lemma_required_fields(ws, 1);
            lemma_optional_field(ws, 2);
            lemma_optional_field(ws, 3);
        } else if ws[0] == seq!['f'] {
            let cs = ws.drop_first();
            let need = face_shape(cs[0]);
            lemma_face_lists_lengths(cs, need);
        }
    }
}

/// Data that parsing returns is well-formed, but for the order of texture `v` and `w`.
proof fn lemma_parse_lines_wf(ls: Seq<Seq<char>>)
    requires
        parse_lines(ls) is Ok,
    ensures
        ({
            let m = parse_lines(ls)->Ok_0;
            &&& forall|i: int| 0 <= i < m.vertices.len() ==> vertex_wf(#[trigger] m.vertices[i])
            &&& forall|i: int| 0 <= i < m.texture_vertices.len() ==> {
                let t = #[trigger] m.texture_vertices[i];
                number_token(t.u) && opt_number_token(t.v) && opt_number_token(t.w)
            }
            &&& forall|i: int| 0 <= i < m.vertex_normals.len() ==> normal_wf(
                #[trigger] m.vertex_normals[i],
            )
            &&& forall|i: int| 0 <= i < m.faces.len() ==> face_wf(#[trigger] m.faces[i])
        }),
    decreases ls.len(),
{
    if ls.len() > 0 {
        lemma_parse_lines_wf(ls.drop_last());
        let ws = words(ls.last());
        lemma_words_solid(ls.last());
        lemma_record_wf(ws);
        let m0 = parse_lines(ls.drop_last())->Ok_0;
        let m = parse_lines(ls)->Ok_0;
        assert(m == add_record(m0, record_of(ws)->Ok_0));
        assert forall|i: int| 0 <= i < m.vertices.len() implies vertex_wf(#[trigger] m.vertices[i]) by {
            if i < m0.vertices.len() {
                assert(m.vertices[i] == m0.vertices[i]);
            }
        }
        assert forall|i: int| 0 <= i < m.texture_vertices.len() implies {
            let t = #[trigger] m.texture_vertices[i];
            number_token(t.u) && opt_number_token(t.v) && opt_number_token(t.w)
        } by {
            if i < m0.texture_vertices.len() {
                assert(m.texture_vertices[i] == m0.texture_vertices[i]);
            }
        }
        assert forall|i: int| 0 <= i < m.vertex_normals.len() implies normal_wf(
            #[trigger] m.vertex_normals[i],
        ) by {
            if i < m0.vertex_normals.len() {
                assert(m.vertex_normals[i] == m0.vertex_normals[i]);
            }
        }
        assert forall|i: int| 0 <= i < m.faces.len() implies face_wf(#[trigger] m.faces[i]) by {
            if i < m0.faces.len() {
                assert(m.faces[i] == m0.faces[i]);
            }
        }
    }
}

/// Parsing a text, writing what it gave and parsing that again gives the same data, unless a
/// texture vertex of the text has a `w` but no `v` (its `v` field was not a number): written
/// back, that `w` would be read as `v`.
pub proof fn parse_write_parse(s: Seq<char>)
    requires
        parse_text(s) is Ok,
        forall|i: int|
            0 <= i < parse_text(s)->Ok_0.texture_vertices.len() ==> (#[trigger] parse_text(
                s,
            )->Ok_0.texture_vertices[i]).w is Some ==> parse_text(s)->Ok_0.texture_vertices[i].v
                is Some,
    ensures
        parse_text(obj_text(parse_text(s)->Ok_0)) == parse_text(s),
        forall|i: int|
            0 <= i < parse_text(s)->Ok_0.faces.len() ==> face_lists_match(
                #[trigger] parse_text(s)->Ok_0.faces[i],
            ),
{
    let m = parse_text(s)->Ok_0;
    lemma_parse_lines_wf(split_on(s, '\n'));
    assert forall|i: int| 0 <= i < m.texture_vertices.len() implies texture_wf(
        #[trigger] m.texture_vertices[i],
    ) by {}
    write_then_parse(m);
}

} // verus!
