use vstd::prelude::*;

use crate::obj::{
    add_record, corner_ints, corner_ok, empty_obj, face_lists, face_shape, parse_lines,
    parse_text, parsed_ints, record_of, required_error, ObjView, VertexView,
};
use crate::text::{int_value, is_number, split_on, split_state, words};

verus! {

/// A text without a line break is a single line.
proof fn lemma_one_line(l: Seq<char>)
    requires
        !l.contains('\n'),
    ensures
        split_on(l, '\n') == seq![l],
{
    lemma_no_separator(l);
    assert(seq![].push(l) =~= seq![l]);
}

/// Reading a text without a line break completes no line.
proof fn lemma_no_separator(l: Seq<char>)
    requires
        !l.contains('\n'),
    ensures
        split_state(l, '\n') == (Seq::<Seq<char>>::empty(), l),
    decreases l.len(),
{
    if l.len() > 0 {
        assert(!l.drop_last().contains('\n')) by {
            if l.drop_last().contains('\n') {
                let i = choose|i: int| 0 <= i < l.drop_last().len() && l.drop_last()[i] == '\n';
                assert(l[i] == '\n');
            }
        }
        lemma_no_separator(l.drop_last());
        assert(l[l.len() - 1] != '\n');
        assert(l.drop_last().push(l.last()) =~= l);
    } else {
        assert(l =~= seq![]);
    }
}

/// The data of a text made of one line.
proof fn lemma_single_line(l: Seq<char>)
    requires
        !l.contains('\n'),
    ensures
        parse_text(l) == match record_of(words(l)) {
            Ok(r) => Ok(add_record(empty_obj(), r)),
            Err((kind, field)) => Err(crate::obj::ParseError { kind, line: 1, field }),
        },
{
    lemma_one_line(l);
    let ls = seq![l];
    assert(ls.drop_last() =~= seq![]);
    assert(parse_lines(ls.drop_last()) == Ok::<ObjView, crate::obj::ParseError>(empty_obj()));
}

/// A line `v x y z` of three number literals gives one vertex of those coordinates, without
/// `w`; a line `v x y z w` of four gives one vertex whose `w` is the fourth.
pub proof fn vertex_line_fields(l: Seq<char>)
    requires
        !l.contains('\n'),
        words(l).len() == 4 || words(l).len() == 5,
        words(l)[0] == seq!['v'],
        forall|i: int| 1 <= i < words(l).len() ==> is_number(#[trigger] words(l)[i]),
    ensures
        ({
            let ws = words(l);
            parse_text(l) == Ok::<ObjView, crate::obj::ParseError>(
                ObjView {
                    vertices: seq![
                        VertexView {
                            x: ws[1],
                            y: ws[2],
                            z: ws[3],
                            w: if ws.len() == 5 {
                                Some(ws[4])
                            } else {
                                None
                            },
                        },
                    ],
                    ..empty_obj()
                },
            )
        }),
{
    let ws = words(l);
    lemma_single_line(l);
    assert(is_number(ws[1]) && is_number(ws[2]) && is_number(ws[3]));
    assert(required_error(ws, 0) is None);
    assert(required_error(ws, 1) is None);
    assert(required_error(ws, 2) is None);
    assert(required_error(ws, 3) is None);
    if ws.len() == 5 {
        assert(is_number(ws[4]));
    }
    assert(seq![].push(
        VertexView {
            x: ws[1],
            y: ws[2],
            z: ws[3],
            w: if ws.len() == 5 {
                Some(ws[4])
            } else {
                None
            },
        },
    ) =~= seq![
        VertexView {
            x: ws[1],
            y: ws[2],
            z: ws[3],
            w: if ws.len() == 5 {
                Some(ws[4])
            } else {
                None
            },
        },
    ]);
}

/// When every corner is sound for `need`, each corner gives one entry to each list in use.
pub(crate) proof fn lemma_face_lists_sound(cs: Seq<Seq<char>>, need: nat)
    requires
        forall|i: int| 0 <= i < cs.len() ==> corner_ok(#[trigger] cs[i], need),
    ensures
        face_lists(cs, need) is Ok,
        ({
            let (v, t, n) = face_lists(cs, need)->Ok_0;
            &&& v.len() == cs.len()
            &&& forall|i: int| 0 <= i < cs.len() ==> v[i] == #[trigger] corner_ints(cs[i])[0]
            &&& need >= 2 ==> t.len() == cs.len() && forall|i: int|
                0 <= i < cs.len() ==> t[i] == #[trigger] corner_ints(cs[i])[1]
            &&& need >= 3 ==> n.len() == cs.len() && forall|i: int|
                0 <= i < cs.len() ==> n[i] == #[trigger] corner_ints(cs[i])[2]
        }),
    decreases cs.len(),
{
    if cs.len() > 0 {
        let pre = cs.drop_last();
        assert forall|i: int| 0 <= i < pre.len() implies corner_ok(#[trigger] pre[i], need) by {
            assert(pre[i] == cs[i]);
        }
        lemma_face_lists_sound(pre, need);
        assert(corner_ok(cs[cs.len() - 1], need));
        let c = cs.last();
        crate::obj::lemma_lead_int(split_on(c, '/'));
        let (v, t, n) = face_lists(cs, need)->Ok_0;
        assert forall|i: int| 0 <= i < cs.len() implies v[i] == #[trigger] corner_ints(
            cs[i],
        )[0] by {
            if i < pre.len() {
                assert(pre[i] == cs[i]);
            }
        }
        if need >= 2 {
            assert forall|i: int| 0 <= i < cs.len() implies t[i] == #[trigger] corner_ints(
                cs[i],
            )[1] by {
                if i < pre.len() {
                    assert(pre[i] == cs[i]);
                }
            }
        }
        if need >= 3 {
            assert forall|i: int| 0 <= i < cs.len() implies n[i] == #[trigger] corner_ints(
                cs[i],
            )[2] by {
                if i < pre.len() {
                    assert(pre[i] == cs[i]);
                }
            }
        }
    }
}

pub(crate) proof fn lemma_face_keyword(ws: Seq<Seq<char>>)
    requires
        ws.len() >= 1,
        ws[0] == seq!['f'],
    ensures
        record_of(ws) == crate::obj::face_record(ws),
{
    assert(ws[0][0] == 'f');
    assert(ws[0] != seq!['v']) by {
        assert(seq!['v'][0] == 'v');
    }
    assert(ws[0] != seq!['v', 't']) by {
        assert(seq!['v', 't'].len() == 2);
    }
    assert(ws[0] != seq!['v', 'n']) by {
        assert(seq!['v', 'n'].len() == 2);
    }
}

/// A corner written `v/vt/vn`: three `/`-separated parts, each an integer.
pub open spec fn full_corner(c: Seq<char>) -> bool {
    let p = split_on(c, '/');
    p.len() == 3 && int_value(p[0]) is Some && int_value(p[1]) is Some && int_value(p[2]) is Some
}

/// A corner written `v`: a single part, an integer.
pub open spec fn plain_corner(c: Seq<char>) -> bool {
    let p = split_on(c, '/');
    p.len() == 1 && int_value(p[0]) is Some
}

/// The `k`-th part of corner `c` read as an integer.
pub open spec fn corner_part(c: Seq<char>, k: int) -> i32 {
    int_value(split_on(c, '/')[k])->0
}

proof fn lemma_full_corner(c: Seq<char>)
    requires
        full_corner(c),
    ensures
        corner_ints(c) == seq![corner_part(c, 0), corner_part(c, 1), corner_part(c, 2)],
{
    let p = split_on(c, '/');
    assert(p.drop_last().drop_last().drop_last() =~= seq![]);
    assert(p.drop_last().drop_last().last() == p[0]);
    assert(p.drop_last().last() == p[1]);
    assert(parsed_ints(p.drop_last().drop_last().drop_last()) =~= seq![]);
    assert(parsed_ints(p.drop_last().drop_last()) =~= seq![corner_part(c, 0)]);
    assert(parsed_ints(p.drop_last()) =~= seq![corner_part(c, 0), corner_part(c, 1)]);
    assert(parsed_ints(p) =~= seq![corner_part(c, 0), corner_part(c, 1), corner_part(c, 2)]);
}

proof fn lemma_plain_corner(c: Seq<char>)
    requires
        plain_corner(c),
    ensures
        corner_ints(c) == seq![corner_part(c, 0)],
{
    let p = split_on(c, '/');
    assert(p.drop_last() =~= seq![]);
    assert(parsed_ints(p.drop_last()) =~= seq![]);
    assert(parsed_ints(p) =~= seq![corner_part(c, 0)]);
}

/// A face line whose corners are all written `v/vt/vn` gives one face with a vertex, a
/// texture-vertex and a normal index per corner: the corner's three parts, in order.
pub proof fn full_corner_face(l: Seq<char>)
    requires
        !l.contains('\n'),
        words(l).len() >= 2,
        words(l)[0] == seq!['f'],
        forall|i: int| 1 <= i < words(l).len() ==> full_corner(#[trigger] words(l)[i]),
    ensures
        parse_text(l) is Ok,
        parse_text(l)->Ok_0.faces.len() == 1,
        ({
            let cs = words(l).drop_first();
            let f = parse_text(l)->Ok_0.faces[0];
            &&& f.texture_vertices is Some
            &&& f.vertex_normals is Some
            &&& f.vertices.len() == cs.len()
            &&& f.texture_vertices->0.len() == cs.len()
            &&& f.vertex_normals->0.len() == cs.len()
            &&& forall|i: int|
                0 <= i < cs.len() ==> {
                    &&& f.vertices[i] == corner_part(#[trigger] cs[i], 0)
                    &&& f.texture_vertices->0[i] == corner_part(cs[i], 1)
                    &&& f.vertex_normals->0[i] == corner_part(cs[i], 2)
                }
        }),
{
    let ws = words(l);
    let cs = ws.drop_first();
    lemma_single_line(l);
    lemma_face_keyword(ws);
    assert forall|i: int| 0 <= i < cs.len() implies corner_ok(#[trigger] cs[i], 3) by {
        assert(cs[i] == ws[i + 1]);
        lemma_full_corner(cs[i]);
    }
    assert(cs[0] == ws[1]);
    lemma_full_corner(cs[0]);
    assert(face_shape(cs[0]) == 3);
    lemma_face_lists_sound(cs, 3);
    assert forall|i: int| 0 <= i < cs.len() implies corner_ints(#[trigger] cs[i]) == seq![
        corner_part(cs[i], 0),
        corner_part(cs[i], 1),
        corner_part(cs[i], 2),
    ] by {
        assert(cs[i] == ws[i + 1]);
        lemma_full_corner(cs[i]);
    }
    assert(empty_obj().faces.push(parse_text(l)->Ok_0.faces.last()).len() == 1);
}

/// A face line whose corners are all written `v` gives one face with neither texture-vertex
/// nor normal indices, and one vertex index per corner.
pub proof fn plain_corner_face(l: Seq<char>)
    requires
        !l.contains('\n'),
        words(l).len() >= 2,
        words(l)[0] == seq!['f'],
        forall|i: int| 1 <= i < words(l).len() ==> plain_corner(#[trigger] words(l)[i]),
    ensures
        parse_text(l) is Ok,
        parse_text(l)->Ok_0.faces.len() == 1,
        ({
            let cs = words(l).drop_first();
            let f = parse_text(l)->Ok_0.faces[0];
            &&& f.texture_vertices is None
            &&& f.vertex_normals is None
            &&& f.vertices.len() == cs.len()
            &&& forall|i: int| 0 <= i < cs.len() ==> f.vertices[i] == corner_part(#[trigger] cs[i], 0)
        }),
{
    let ws = words(l);
    let cs = ws.drop_first();
    lemma_single_line(l);
    lemma_face_keyword(ws);
    assert forall|i: int| 0 <= i < cs.len() implies corner_ok(#[trigger] cs[i], 1) by {
        assert(cs[i] == ws[i + 1]);
        lemma_plain_corner(cs[i]);
    }
    assert(cs[0] == ws[1]);
    lemma_plain_corner(cs[0]);
    assert(face_shape(cs[0]) == 1);
    lemma_face_lists_sound(cs, 1);
    let f = parse_text(l)->Ok_0.faces[0];
    let v = face_lists(cs, 1)->Ok_0.0;
    assert(f.vertices == v);
    assert forall|i: int| 0 <= i < cs.len() implies f.vertices[i] == corner_part(
        #[trigger] cs[i],
        0,
    ) by {
        assert(cs[i] == ws[i + 1]);
        lemma_plain_corner(cs[i]);
        assert(v[i] == corner_ints(cs[i])[0]);
    }
}

} // verus!
