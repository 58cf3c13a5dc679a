//! Wavefront OBJ.
//!
//! Read: `v x y z` (extra values, such as `w` or a colour, are ignored), `f` with `v`, `v/vt`,
//! `v/vt/vn` or `v//vn` references (1-based, or negative for relative), `g`, `o` and `usemtl`.
//! Every other statement is ignored; line (`l`) and point (`p`) elements are counted, since they
//! are geometry a room cannot use. A `#` starts a comment.
//!
//! Faces are grouped by the `usemtl` material or by the `g`/`o` name ([`ObjGroups`]); a group name
//! is the whole rest of its line, its words joined by single spaces. Coordinates are kept as their
//! text.
use crate::chars::{find_c, find_char, parse_int, parse_int_of, string_of};
use crate::import::{ImportError, ObjGroups, is_invalid, is_syntax, is_unsupported};
use crate::stl::{coords_view, polys_view, texts_view};
use crate::text::{dec, lossy_text, message_i64, message_str, message_u64, string_from_utf8_lossy};
use crate::words::{first_word, float_word, is_float_word, lines, lines_of, same_chars, words, words_of};
use vstd::prelude::*;

verus! {

/// The format's name in errors.
pub const FMT: &'static str = "obj";

/// What kind of refusal a malformed file gets.
#[derive(Clone, Copy, Debug, PartialEq, Eq, Structural)]
pub enum ObjFault {
    Syntax,
    Invalid,
    Unsupported,
}

/// `e` is an error of the kind `f`, of OBJ.
pub open spec fn is_obj_fault(e: ImportError, f: ObjFault) -> bool {
    match f {
        ObjFault::Syntax => is_syntax(e, FMT),
        ObjFault::Invalid => is_invalid(e, FMT),
        ObjFault::Unsupported => is_unsupported(e, FMT),
    }
}

/// The rows of an OBJ file: per vertex its coordinates' text, the faces (0-based vertex indices)
/// with their group, the groups, and notes.
#[derive(Debug)]
pub struct ObjRows {
    pub texts: Vec<(String, String, String)>,
    pub polygons: Vec<(Vec<u32>, u32)>,
    pub groups: Vec<String>,
    pub notes: Vec<String>,
}

/// What the lines read so far gave: the vertices' coordinates, the faces (1-based indices, their
/// group, their line number), the groups, the current `g`/`o` name and material, and the line
/// and point elements counted.
#[verifier::ext_equal]
pub ghost struct ObjState {
    pub verts: Seq<(Seq<char>, Seq<char>, Seq<char>)>,
    pub faces: Seq<(Seq<u64>, u32, int)>,
    pub groups: Seq<Seq<char>>,
    pub group: Seq<char>,
    pub material: Seq<char>,
    pub lines_ignored: nat,
    pub points_ignored: nat,
}

/// A line without its comment: what comes before the first `#`.
pub open spec fn before_hash(l: Seq<char>) -> Seq<char> {
    match find_char(l, '#') {
        Some(i) => l.subrange(0, i),
        None => l,
    }
}

/// The words from `j` on, joined by single spaces.
pub open spec fn join_from(ws: Seq<Seq<char>>, j: int) -> Seq<char>
    decreases ws.len() - j,
{
    if j < 0 || j >= ws.len() {
        seq![]
    } else if j == ws.len() - 1 {
        ws[j]
    } else {
        ws[j] + seq![' '] + join_from(ws, j + 1)
    }
}

/// The name a `g`, `o` or `usemtl` statement gives: the rest of its words, or `default`.
pub open spec fn name_of(ws: Seq<Seq<char>>) -> Seq<char> {
    if ws.len() <= 1 {
        "default"@
    } else {
        join_from(ws, 1)
    }
}

/// A face reference's vertex part: what comes before the first `/`.
pub open spec fn ref_text(t: Seq<char>) -> Seq<char> {
    match find_char(t, '/') {
        Some(i) => t.subrange(0, i),
        None => t,
    }
}

/// The 1-based vertex a reference `v` names, `n` vertices read before it: `v` itself when
/// positive, `n + v + 1` when negative; none for 0 or before the first vertex.
pub open spec fn resolve(v: i64, n: int) -> Option<u64> {
    if v > 0 {
        Some(v as u64)
    } else if v < 0 {
        if n + v + 1 < 1 {
            None
        } else {
            Some((n + v + 1) as u64)
        }
    } else {
        None
    }
}

/// The vertices a face's references from word `j` on name, `n` vertices read before it.
pub open spec fn face_refs(ws: Seq<Seq<char>>, j: int, n: int) -> Result<Seq<u64>, ObjFault>
    decreases ws.len() - j,
{
    if j < 0 || j >= ws.len() {
        Ok(seq![])
    } else {
        match parse_int(ref_text(ws[j])) {
            None => Err(ObjFault::Syntax),
            Some(v) => match resolve(v, n) {
                None => Err(ObjFault::Invalid),
                Some(r) => match face_refs(ws, j + 1, n) {
                    Err(f) => Err(f),
                    Ok(rest) => Ok(seq![r] + rest),
                },
            },
        }
    }
}

/// The first group from `k` on named `name`.
pub open spec fn group_at(gs: Seq<Seq<char>>, name: Seq<char>, k: int) -> Option<int>
    decreases gs.len() - k,
{
    if k < 0 || k >= gs.len() {
        None
    } else if gs[k] == name {
        Some(k)
    } else {
        group_at(gs, name, k + 1)
    }
}

/// The groups once `name` is among them, and its index.
pub open spec fn with_group(gs: Seq<Seq<char>>, name: Seq<char>) -> (Seq<Seq<char>>, u32) {
    match group_at(gs, name, 0) {
        Some(k) => (gs, k as u32),
        None => (gs.push(name), gs.len() as u32),
    }
}

/// What line `l`, numbered `no`, adds to `st`; faces are grouped by material when `by_mat`.
pub open spec fn obj_line(st: ObjState, l: Seq<char>, no: int, by_mat: bool) -> Result<ObjState, ObjFault> {
    let w = words(before_hash(l));
    if w.len() == 0 {
        Ok(st)
    } else if w[0] == "v"@ {
        if w.len() < 4 || !(float_word(w[1]) && float_word(w[2]) && float_word(w[3])) {
            Err(ObjFault::Syntax)
        } else {
            Ok(ObjState { verts: st.verts.push((w[1], w[2], w[3])), ..st })
        }
    } else if w[0] == "f"@ {
        match face_refs(w, 1, st.verts.len() as int) {
            Err(f) => Err(f),
            Ok(idx) => if idx.len() < 3 {
                Err(ObjFault::Invalid)
            } else {
                let (gs, g) = with_group(
                    st.groups,
                    if by_mat {
                        st.material
                    } else {
                        st.group
                    },
                );
                Ok(ObjState { faces: st.faces.push((idx, g, no)), groups: gs, ..st })
            },
        }
    } else if w[0] == "g"@ || w[0] == "o"@ {
        Ok(ObjState { group: name_of(w), ..st })
    } else if w[0] == "usemtl"@ {
        Ok(ObjState { material: name_of(w), ..st })
    } else if w[0] == "l"@ {
        Ok(ObjState { lines_ignored: st.lines_ignored + 1, ..st })
    } else if w[0] == "p"@ {
        Ok(ObjState { points_ignored: st.points_ignored + 1, ..st })
    } else {
        Ok(st)
    }
}

/// The lines from `k` on (numbered from 1).
pub open spec fn obj_lines(ls: Seq<Seq<char>>, k: int, st: ObjState, by_mat: bool) -> Result<ObjState, ObjFault>
    decreases ls.len() - k,
{
    if k < 0 || k >= ls.len() {
        Ok(st)
    } else {
        match obj_line(st, ls[k], k + 1, by_mat) {
            Err(f) => Err(f),
            Ok(s2) => obj_lines(ls, k + 1, s2, by_mat),
        }
    }
}

/// Whether faces are grouped by material: asked for, or, by default, when some line's first word
/// is `usemtl`.
pub open spec fn by_material(ls: Seq<Seq<char>>, mode: ObjGroups) -> bool {
    match mode {
        ObjGroups::Material => true,
        ObjGroups::Group => false,
        ObjGroups::Auto => exists|k: int| 0 <= k < ls.len() && first_word(#[trigger] ls[k]) == "usemtl"@,
    }
}

/// Nothing read before the first line.
pub open spec fn obj_start() -> ObjState {
    ObjState {
        verts: seq![],
        faces: seq![],
        groups: seq![],
        group: "default"@,
        material: "default"@,
        lines_ignored: 0,
        points_ignored: 0,
    }
}

/// Some face names a vertex past the `n` read.
pub open spec fn face_past(faces: Seq<(Seq<u64>, u32, int)>, n: int) -> bool {
    exists|k: int, j: int| 0 <= k < faces.len() && 0 <= j < faces[k].0.len() && #[trigger] faces[k].0[j] > n
}

/// An OBJ text's content, or the kind of refusal it gets.
pub open spec fn spec_obj(c: Seq<char>, mode: ObjGroups) -> Result<ObjState, ObjFault> {
    let ls = lines(c);
    match obj_lines(ls, 0, obj_start(), by_material(ls, mode)) {
        Err(f) => Err(f),
        Ok(st) => if st.verts.len() > u32::MAX {
            Err(ObjFault::Unsupported)
        } else if face_past(st.faces, st.verts.len() as int) {
            Err(ObjFault::Invalid)
        } else {
            Ok(st)
        },
    }
}

/// The faces with 0-based indices.
pub open spec fn zero_based(faces: Seq<(Seq<u64>, u32, int)>) -> Seq<(Seq<u32>, u32)> {
    faces.map_values(|f: (Seq<u64>, u32, int)| (f.0.map_values(|v: u64| (v - 1) as u32), f.1))
}

/// The notes of an OBJ import: how faces were grouped, and the line and point elements ignored.
pub open spec fn obj_notes(by_mat: bool, nl: nat, np: nat) -> Seq<Seq<char>> {
    let first = if by_mat {
        "faces grouped by `usemtl` material"@
    } else {
        "faces grouped by `g`/`o` name"@
    };
    let a = if nl > 0 {
        seq![dec(nl) + " line elements (`l`) ignored"@]
    } else {
        seq![]
    };
    let b = if np > 0 {
        seq![dec(np) + " point elements (`p`) ignored"@]
    } else {
        seq![]
    };
    seq![first] + a + b
}

/// The line without its comment ([`before_hash`]).
fn strip_comment(l: &[char]) -> (r: &[char])
    ensures
        r@ == before_hash(l@),
{
    match find_c(l, '#') {
        Some(i) => vstd::slice::slice_subrange(l, 0, i),
        None => l,
    }
}

/// A reference's vertex part ([`ref_text`]).
fn ref_part(t: &[char]) -> (r: &[char])
    ensures
        r@ == ref_text(t@),
{
    match find_c(t, '/') {
        Some(i) => vstd::slice::slice_subrange(t, 0, i),
        None => t,
    }
}

/// The words as values.
pub open spec fn words_view(w: Seq<Vec<char>>) -> Seq<Seq<char>> {
    w.map_values(|x: Vec<char>| x@)
}

/// The name a `g`, `o` or `usemtl` line gives ([`name_of`]).
fn name_in(w: &Vec<Vec<char>>) -> (r: Vec<char>)
    ensures
        r@ == name_of(words_view(w@)),
{
    let ghost wv = words_view(w@);
    if w.len() <= 1 {
        let d = crate::chars::chars_of("default");
        return d;
    }
    let mut out: Vec<char> = Vec::new();
    let mut j: usize = w.len();
    // Built from the last word back: join_from(wv, j) for j going down to 1.
    j = j - 1;
    let mut k: usize = 0;
    while k < w[j].len()
        invariant
            j == w@.len() - 1,
            k <= w@[j as int]@.len(),
            out@ == w@[j as int]@.subrange(0, k as int),
        decreases w@[j as int]@.len() - k,
    {
        out.push(w[j][k]);
        assert(w@[j as int]@.subrange(0, k + 1) =~= w@[j as int]@.subrange(0, k as int).push(w@[j as int]@[k as int]));
        k = k + 1;
    }
    assert(out@ =~= join_from(wv, j as int)) by {
        assert(w@[j as int]@.subrange(0, w@[j as int]@.len() as int) =~= w@[j as int]@);
    }
    while j > 1
        invariant
            1 <= j < w@.len(),
            wv == words_view(w@),
            out@ == join_from(wv, j as int),
        decreases j,
    {
        j = j - 1;
        let mut next: Vec<char> = Vec::new();
        let mut k: usize = 0;
        while k < w[j].len()
            invariant
                j < w@.len(),
                k <= w@[j as int]@.len(),
                next@ == w@[j as int]@.subrange(0, k as int),
            decreases w@[j as int]@.len() - k,
        {
            next.push(w[j][k]);
            assert(w@[j as int]@.subrange(0, k + 1) =~= w@[j as int]@.subrange(0, k as int).push(w@[j as int]@[k as int]));
            k = k + 1;
        }
        assert(w@[j as int]@.subrange(0, w@[j as int]@.len() as int) =~= w@[j as int]@);
        next.push(' ');
        let ghost before = out@;
        let mut m: usize = 0;
        while m < out.len()
            invariant
                m <= out@.len(),
                out@ == before,
                next@ == wv[j as int] + seq![' '] + before.subrange(0, m as int),
            decreases out@.len() - m,
        {
            next.push(out[m]);
            assert(before.subrange(0, m + 1) =~= before.subrange(0, m as int).push(before[m as int]));
            assert(next@ =~= wv[j as int] + seq![' '] + before.subrange(0, m + 1));
            m = m + 1;
        }
        assert(before.subrange(0, before.len() as int) =~= before);
        out = next;
        assert(out@ =~= join_from(wv, j as int));
    }
    out
}

/// The vertices a face line's references name ([`face_refs`] from its second word), `n`
/// vertices read before it, the line numbered `no`.
fn read_refs(w: &Vec<Vec<char>>, n: usize, no: usize) -> (r: Result<Vec<u64>, ImportError>)
    ensures
        match (r, face_refs(words_view(w@), 1, n as int)) {
            (Ok(v), Ok(s)) => v@ == s && forall|i: int| 0 <= i < v@.len() ==> v@[i] >= 1,
            (Err(e), Err(f)) => is_obj_fault(e, f),
            _ => false,
        },
{
    let ghost wv = words_view(w@);
    let mut acc: Vec<u64> = Vec::new();
    let mut j: usize = 1;
    while j < w.len()
        invariant
            1 <= j,
            wv == words_view(w@),
            face_refs(wv, 1, n as int) == match face_refs(wv, j as int, n as int) {
                Err(f) => Err(f),
                Ok(rest) => Ok(acc@ + rest),
            },
            forall|i: int| 0 <= i < acc@.len() ==> acc@[i] >= 1,
        decreases w@.len() - j,
    {
        let t = w[j].as_slice();
        assert(wv[j as int] == t@);
        let v = match parse_int_of(ref_part(t)) {
            Some(v) => v,
            None => {
                let shown = string_of(t);
                return Err(ImportError::syntax(FMT, line_text(no), message_str("`", shown.as_str(), "` is not a vertex reference")));
            },
        };
        let r: u64 = if v > 0 {
            v as u64
        } else if v < 0 {
            if (n as i128) + (v as i128) + 1 < 1 {
                let m1 = message_u64("line ", no as u64, ": relative vertex ");
                return Err(ImportError::invalid(FMT, message_i64(m1.as_str(), v, " reaches before the first vertex")));
            }
            ((n as i128) + (v as i128) + 1) as u64
        } else {
            return Err(ImportError::invalid(FMT, message_u64("line ", no as u64, ": vertex index 0 (OBJ indices start at 1)")));
        };
        assert(resolve(v, n as int) == Some(r));
        let ghost ab = acc@;
        acc.push(r);
        proof {
            match face_refs(wv, j + 1, n as int) {
                Err(f) => {},
                Ok(rest) => {
                    assert(ab + (seq![r] + rest) =~= acc@ + rest);
                },
            }
        }
        j = j + 1;
    }
    assert(acc@ + seq![] =~= acc@);
    Ok(acc)
}

/// `line <n>`.
fn line_text(n: usize) -> (r: String)
    ensures
        r@ == "line "@ + dec(n as nat),
{
    proof {
        reveal_strlit("");
    }
    let r = message_u64("line ", n as u64, "");
    assert(r@ =~= "line "@ + dec(n as nat));
    r
}

/// The groups once `name` is among them, and its index ([`with_group`]).
fn group_index(groups: &mut Vec<Vec<char>>, name: &Vec<char>) -> (r: u32)
    ensures
        (words_view(final(groups)@), r) == with_group(words_view(old(groups)@), name@),
{
    let ghost gv = words_view(groups@);
    let mut k: usize = 0;
    while k < groups.len()
        invariant
            k <= groups@.len(),
            gv == words_view(groups@),
            group_at(gv, name@, 0) == group_at(gv, name@, k as int),
        decreases groups@.len() - k,
    {
        if same_seq(groups[k].as_slice(), name.as_slice()) {
            assert(gv[k as int] == name@);
            return #[verifier::truncate] (k as u32);
        }
        k = k + 1;
    }
    let g = #[verifier::truncate] (groups.len() as u32);
    groups.push(name.clone());
    assert(words_view(groups@) =~= gv.push(name@));
    g
}

/// Whether `a` and `b` hold the same characters.
fn same_seq(a: &[char], b: &[char]) -> (r: bool)
    ensures
        r == (a@ == b@),
{
    if a.len() != b.len() {
        return false;
    }
    let mut i: usize = 0;
    while i < a.len()
        invariant
            a@.len() == b@.len(),
            i <= a@.len(),
            forall|j: int| 0 <= j < i ==> a@[j] == b@[j],
        decreases a@.len() - i,
    {
        if a[i] != b[i] {
            return false;
        }
        i = i + 1;
    }
    assert(a@ =~= b@);
    true
}

/// The faces as values.
pub open spec fn faces_view(f: Seq<(Vec<u64>, u32, usize)>) -> Seq<(Seq<u64>, u32, int)> {
    f.map_values(|x: (Vec<u64>, u32, usize)| (x.0@, x.1, x.2 as int))
}

/// The state the exec variables hold.
pub open spec fn obj_state_of(
    verts: Seq<(String, String, String)>,
    faces: Seq<(Vec<u64>, u32, usize)>,
    groups: Seq<Vec<char>>,
    group: Seq<char>,
    material: Seq<char>,
    nl: usize,
    np: usize,
) -> ObjState {
    ObjState {
        verts: coords_view(verts),
        faces: faces_view(faces),
        groups: words_view(groups),
        group,
        material,
        lines_ignored: nl as nat,
        points_ignored: np as nat,
    }
}

/// The coordinates of a `v` line's words ([`obj_line`]): three numbers after the keyword.
fn read_vertex(w: &Vec<Vec<char>>, no: usize) -> (r: Result<(String, String, String), ImportError>)
    requires
        w@.len() >= 1,
    ensures
        ({
            let wv = words_view(w@);
            let ok = wv.len() >= 4 && float_word(wv[1]) && float_word(wv[2]) && float_word(wv[3]);
            match r {
                Ok(x) => ok && (x.0@, x.1@, x.2@) == (wv[1], wv[2], wv[3]),
                Err(e) => !ok && is_obj_fault(e, ObjFault::Syntax),
            }
        }),
{
    let ghost wv = words_view(w@);
    if w.len() < 4 {
        return Err(ImportError::syntax(FMT, line_text(no), "a vertex needs three coordinates".to_owned()));
    }
    let mut c: usize = 1;
    while c <= 3
        invariant
            1 <= c <= 4,
            w@.len() >= 4,
            wv == words_view(w@),
            forall|j: int| 1 <= j < c ==> float_word(#[trigger] wv[j]),
        decreases 4 - c,
    {
        assert(wv[c as int] == w@[c as int]@);
        if !is_float_word(w[c].as_slice()) {
            let shown = string_of(w[c].as_slice());
            return Err(ImportError::syntax(FMT, line_text(no), message_str("`", shown.as_str(), "` is not a number")));
        }
        c = c + 1;
    }
    assert(wv[1] == w@[1]@ && wv[2] == w@[2]@ && wv[3] == w@[3]@);
    Ok((string_of(w[1].as_slice()), string_of(w[2].as_slice()), string_of(w[3].as_slice())))
}

/// A face's vertices 0-based ([`zero_based`]), or, for the first one past the `n` read, the
/// refusal; `no` is the face's line.
fn face_indices(f: &Vec<u64>, n: usize, no: usize) -> (r: Result<Vec<u32>, ImportError>)
    requires
        n <= u32::MAX,
        forall|i: int| 0 <= i < f@.len() ==> f@[i] >= 1,
    ensures
        match r {
            Ok(v) => (forall|i: int| 0 <= i < f@.len() ==> f@[i] <= n) && v@ == f@.map_values(|x: u64| (x - 1) as u32),
            Err(e) => (exists|i: int| 0 <= i < f@.len() && f@[i] > n) && is_obj_fault(e, ObjFault::Invalid),
        },
{
    let mut out: Vec<u32> = Vec::new();
    let mut j: usize = 0;
    while j < f.len()
        invariant
            j <= f@.len(),
            n <= u32::MAX,
            forall|i: int| 0 <= i < f@.len() ==> f@[i] >= 1,
            forall|i: int| 0 <= i < j ==> f@[i] <= n,
            out@ =~= f@.subrange(0, j as int).map_values(|x: u64| (x - 1) as u32),
        decreases f@.len() - j,
    {
        let v = f[j];
        if v > n as u64 {
            let m1 = message_u64("line ", no as u64, ": vertex ");
            let m2 = message_u64(m1.as_str(), v, ", but the file has ");
            return Err(ImportError::invalid(FMT, message_u64(m2.as_str(), n as u64, " vertices")));
        }
        out.push((v - 1) as u32);
        j = j + 1;
    }
    assert(f@.subrange(0, f@.len() as int) =~= f@);
    Ok(out)
}

/// Whether some line's first word is `usemtl`.
fn has_usemtl(ls: &Vec<Vec<char>>) -> (r: bool)
    ensures
        r == exists|k: int| 0 <= k < ls@.len() && first_word(#[trigger] words_view(ls@)[k]) == "usemtl"@,
{
    let ghost lv = words_view(ls@);
    let mut k: usize = 0;
    while k < ls.len()
        invariant
            k <= ls@.len(),
            lv == words_view(ls@),
            forall|j: int| 0 <= j < k ==> first_word(#[trigger] lv[j]) != "usemtl"@,
        decreases ls@.len() - k,
    {
        let w = words_of(ls[k].as_slice());
        assert(lv[k as int] == ls@[k as int]@);
        let ghost wv = words_view(w@);
        assert(wv == words(lv[k as int]));
        if w.len() > 0 {
            assert(wv[0] == w@[0]@);
            if same_chars(w[0].as_slice(), "usemtl") {
                assert(first_word(lv[k as int]) == "usemtl"@);
                return true;
            }
            assert(first_word(lv[k as int]) != "usemtl"@);
        } else {
            proof {
                reveal_strlit("usemtl");
            }
            assert(first_word(lv[k as int]) =~= Seq::<char>::empty());
            assert("usemtl"@.len() == 6);
            assert(first_word(lv[k as int]) != "usemtl"@);
        }
        k = k + 1;
    }
    false
}

/// Reads an OBJ text ([`spec_obj`]): its vertices' text, its faces with 0-based indices and
/// their group, the groups, and notes.
#[verifier::rlimit(60)]
pub fn obj_text(text: &str, mode: ObjGroups) -> (r: Result<ObjRows, ImportError>)
    ensures
        ({
            let ls = lines(text@);
            let by_mat = by_material(ls, mode);
            match (r, spec_obj(text@, mode)) {
                (Ok(rows), Ok(st)) => {
                    &&& coords_view(rows.texts@) == st.verts
                    &&& polys_view(rows.polygons@) == zero_based(st.faces)
                    &&& texts_view(rows.groups@) == st.groups
                    &&& texts_view(rows.notes@) == obj_notes(by_mat, st.lines_ignored, st.points_ignored)
                },
                (Err(e), Err(f)) => is_obj_fault(e, f),
                _ => false,
            }
        }),
{
    let cs = crate::chars::chars_of(text);
    let ls = lines_of(cs.as_slice());
    let ghost lv = words_view(ls@);
    assert(lv == lines(text@));
    let by_mat = match mode {
        ObjGroups::Material => true,
        ObjGroups::Group => false,
        ObjGroups::Auto => has_usemtl(&ls),
    };
    assert(by_mat == by_material(lv, mode));
    let ghost result = obj_lines(lv, 0, obj_start(), by_mat);
    let mut verts: Vec<(String, String, String)> = Vec::new();
    let mut faces: Vec<(Vec<u64>, u32, usize)> = Vec::new();
    let mut groups: Vec<Vec<char>> = Vec::new();
    let mut group = crate::chars::chars_of("default");
    let mut material = crate::chars::chars_of("default");
    let mut nl: usize = 0;
    let mut np: usize = 0;
    assert(obj_state_of(verts@, faces@, groups@, group@, material@, nl, np) =~= obj_start());
    let mut k: usize = 0;
    while k < ls.len()
        invariant
            k <= ls@.len(),
            lv == words_view(ls@),
            lv == lines(text@),
            by_mat == by_material(lv, mode),
            nl + np <= k,
            result == obj_lines(lv, 0, obj_start(), by_mat),
            result == obj_lines(lv, k as int, obj_state_of(verts@, faces@, groups@, group@, material@, nl, np), by_mat),
            forall|a: int, j: int| 0 <= a < faces@.len() && 0 <= j < faces@[a].0@.len() ==> #[trigger] faces@[a].0@[j] >= 1,
        decreases ls@.len() - k,
    {
        let no = k + 1;
        let ghost st = obj_state_of(verts@, faces@, groups@, group@, material@, nl, np);
        let w = words_of(strip_comment(ls[k].as_slice()));
        assert(lv[k as int] == ls@[k as int]@);
        let ghost wv = words_view(w@);
        assert(wv == words(before_hash(lv[k as int])));
        if w.len() == 0 {
        } else if same_chars(w[0].as_slice(), "v") {
            assert(wv[0] == w@[0]@);
            let xyz = read_vertex(&w, no)?;
            let ghost vb = coords_view(verts@);
            verts.push(xyz);
            assert(coords_view(verts@) =~= vb.push((wv[1], wv[2], wv[3])));
        } else if same_chars(w[0].as_slice(), "f") {
            assert(wv[0] == w@[0]@);
            proof {
                reveal_strlit("v");
                reveal_strlit("f");
            }
            let idx = read_refs(&w, verts.len(), no)?;
            if idx.len() < 3 {
                let m1 = message_u64("line ", no as u64, ": a face with ");
                return Err(ImportError::invalid(FMT, message_u64(m1.as_str(), idx.len() as u64, " vertices; a face needs 3 or more")));
            }
            let g = if by_mat {
                group_index(&mut groups, &material)
            } else {
                group_index(&mut groups, &group)
            };
            let ghost fb = faces_view(faces@);
            faces.push((idx, g, no));
            assert(faces_view(faces@) =~= fb.push((idx@, g, no as int)));
        } else if same_chars(w[0].as_slice(), "g") || same_chars(w[0].as_slice(), "o") {
            assert(wv[0] == w@[0]@);
            proof {
                reveal_strlit("v");
                reveal_strlit("f");
                reveal_strlit("g");
                reveal_strlit("o");
            }
            group = name_in(&w);
        } else if same_chars(w[0].as_slice(), "usemtl") {
            assert(wv[0] == w@[0]@);
            proof {
                reveal_strlit("v");
                reveal_strlit("f");
                reveal_strlit("g");
                reveal_strlit("o");
                reveal_strlit("usemtl");
            }
            material = name_in(&w);
        } else if same_chars(w[0].as_slice(), "l") {
            assert(wv[0] == w@[0]@);
            proof {
                reveal_strlit("v");
                reveal_strlit("f");
                reveal_strlit("g");
                reveal_strlit("o");
                reveal_strlit("usemtl");
                reveal_strlit("l");
            }
            nl = nl + 1;
        } else if same_chars(w[0].as_slice(), "p") {
            assert(wv[0] == w@[0]@);
            proof {
                reveal_strlit("v");
                reveal_strlit("f");
                reveal_strlit("g");
                reveal_strlit("o");
                reveal_strlit("usemtl");
                reveal_strlit("l");
                reveal_strlit("p");
            }
            np = np + 1;
        } else {
            assert(wv[0] == w@[0]@);
            proof {
                reveal_strlit("v");
                reveal_strlit("f");
                reveal_strlit("g");
                reveal_strlit("o");
                reveal_strlit("usemtl");
                reveal_strlit("l");
                reveal_strlit("p");
            }
        }
        k = k + 1;
    }
    let ghost st = obj_state_of(verts@, faces@, groups@, group@, material@, nl, np);
    assert(result == Ok::<ObjState, ObjFault>(st));
    if verts.len() > 4294967295 {
        return Err(ImportError::unsupported(FMT, "more than 4,294,967,295 vertices".to_owned()));
    }
    let n = verts.len();
    let mut polygons: Vec<(Vec<u32>, u32)> = Vec::new();
    let mut q: usize = 0;
    while q < faces.len()
        invariant
            q <= faces@.len(),
            n == verts@.len() <= u32::MAX,
            lv == lines(text@),
            by_mat == by_material(lv, mode),
            result == obj_lines(lv, 0, obj_start(), by_mat),
            result == Ok::<ObjState, ObjFault>(obj_state_of(verts@, faces@, groups@, group@, material@, nl, np)),
            forall|a: int, j: int| 0 <= a < faces@.len() && 0 <= j < faces@[a].0@.len() ==> #[trigger] faces@[a].0@[j] >= 1,
            forall|a: int, j: int| 0 <= a < q && 0 <= j < faces@[a].0@.len() ==> #[trigger] faces@[a].0@[j] <= n,
            polys_view(polygons@) =~= zero_based(faces_view(faces@).subrange(0, q as int)),
        decreases faces@.len() - q,
    {
        let f = &faces[q];
        let out = match face_indices(&f.0, n, f.2) {
            Ok(v) => v,
            Err(e) => {
                proof {
                    let i = choose|i: int| 0 <= i < f.0@.len() && f.0@[i] > n;
                    assert(faces_view(faces@)[q as int].0[i] > n);
                    assert(face_past(faces_view(faces@), n as int));
                }
                return Err(e);
            },
        };
        let ghost pb = polys_view(polygons@);
        polygons.push((out, f.1));
        assert(polys_view(polygons@) =~= pb.push((f.0@.map_values(|v: u64| (v - 1) as u32), f.1)));
        assert(faces_view(faces@).subrange(0, q + 1) =~= faces_view(faces@).subrange(0, q as int).push(faces_view(faces@)[q as int]));
        q = q + 1;
    }
    proof {
        if face_past(faces_view(faces@), n as int) {
            let (a, j) = choose|a: int, j: int| 0 <= a < faces_view(faces@).len() && 0 <= j < faces_view(faces@)[a].0.len() && #[trigger] faces_view(faces@)[a].0[j] > n;
            assert(faces@[a].0@[j] <= n);
        }
        assert(faces_view(faces@).subrange(0, faces@.len() as int) =~= faces_view(faces@));
    }
    let mut notes: Vec<String> = Vec::new();
    if by_mat {
        notes.push("faces grouped by `usemtl` material".to_owned());
    } else {
        notes.push("faces grouped by `g`/`o` name".to_owned());
    }
    if nl > 0 {
        notes.push(message_u64("", nl as u64, " line elements (`l`) ignored"));
    }
    if np > 0 {
        notes.push(message_u64("", np as u64, " point elements (`p`) ignored"));
    }
    proof {
        reveal_strlit("");
    }
    assert(texts_view(notes@) =~= obj_notes(by_mat, nl as nat, np as nat));
    let mut names: Vec<String> = Vec::new();
    let mut i: usize = 0;
    while i < groups.len()
        invariant
            i <= groups@.len(),
            texts_view(names@) =~= words_view(groups@).subrange(0, i as int),
        decreases groups@.len() - i,
    {
        let ghost nb = texts_view(names@);
        names.push(string_of(groups[i].as_slice()));
        assert(texts_view(names@) =~= nb.push(groups@[i as int]@));
        assert(words_view(groups@).subrange(0, i + 1) =~= words_view(groups@).subrange(0, i as int).push(groups@[i as int]@));
        i = i + 1;
    }
    assert(words_view(groups@).subrange(0, groups@.len() as int) =~= words_view(groups@));
    Ok(ObjRows { texts: verts, polygons, groups: names, notes })
}

/// Reads an OBJ file's bytes as text and its rows ([`obj_text`]): the text is the bytes'
/// `String::from_utf8_lossy` text ([`lossy_text`]), which is the text they encode when they are
/// valid UTF-8; an invalid sequence becomes whatever that text holds in its place.
pub fn read_obj_rows(bytes: &[u8], mode: ObjGroups) -> (r: Result<ObjRows, ImportError>)
    ensures
        match (r, spec_obj(lossy_text(bytes@), mode)) {
            (Ok(rows), Ok(st)) => {
                &&& coords_view(rows.texts@) == st.verts
                &&& polys_view(rows.polygons@) == zero_based(st.faces)
                &&& texts_view(rows.groups@) == st.groups
                &&& texts_view(rows.notes@) == obj_notes(
                    by_material(lines(lossy_text(bytes@)), mode),
                    st.lines_ignored,
                    st.points_ignored,
                )
            },
            (Err(e), Err(f)) => is_obj_fault(e, f),
            _ => false,
        },
{
    let text = string_from_utf8_lossy(bytes);
    obj_text(text.as_str(), mode)
}

/// A line whose first word is `o` names the current group exactly as a `g` line does: the
/// group becomes the rest of its words joined by single spaces, or `default` when there are none,
/// and nothing else changes.
pub proof fn lemma_object_names_group(st: ObjState, l: Seq<char>, no: int, by_mat: bool)
    requires
        words(before_hash(l)).len() > 0,
        words(before_hash(l))[0] == seq!['o'] || words(before_hash(l))[0] == seq!['g'],
    ensures
        obj_line(st, l, no, by_mat) == Ok::<ObjState, ObjFault>(
            ObjState {
                group: if words(before_hash(l)).len() == 1 {
                    seq!['d', 'e', 'f', 'a', 'u', 'l', 't']
                } else {
                    join_from(words(before_hash(l)), 1)
                },
                ..st
            },
        ),
{
    let w = words(before_hash(l));
    reveal_strlit("v");
    reveal_strlit("f");
    reveal_strlit("g");
    reveal_strlit("o");
    reveal_strlit("default");
    assert(w[0] != "v"@) by {
        assert(w[0][0] != 'v');
    }
    assert(w[0] != "f"@) by {
        assert(w[0][0] != 'f');
    }
    assert(w[0] == "g"@ || w[0] == "o"@);
    assert("default"@ =~= seq!['d', 'e', 'f', 'a', 'u', 'l', 't']);
    assert(obj_line(st, l, no, by_mat) == Ok::<ObjState, ObjFault>(ObjState { group: name_of(w), ..st }));
}

proof fn lemma_group_at(gs: Seq<Seq<char>>, name: Seq<char>, k: int)
    requires
        0 <= k,
    ensures
        group_at(gs, name, k) matches Some(i) ==> k <= i < gs.len() && gs[i] == name,
        group_at(gs, name, k) is None ==> forall|i: int| k <= i < gs.len() ==> gs[i] != name,
    decreases gs.len() - k,
{
    if k < gs.len() && gs[k] != name {
        lemma_group_at(gs, name, k + 1);
    }
}

/// A face line files its face under the current group (the current material when faces are
/// grouped by material): the face's group is that name, the groups read before keep their
/// places, and a name not yet among them is added once, at the end. (Group indices are `u32`.)
pub proof fn lemma_face_group(st: ObjState, l: Seq<char>, no: int, by_mat: bool)
    requires
        obj_line(st, l, no, by_mat) is Ok,
        obj_line(st, l, no, by_mat)->Ok_0.faces.len() == st.faces.len() + 1,
        st.groups.len() < u32::MAX,
    ensures
        ({
            let s2 = obj_line(st, l, no, by_mat)->Ok_0;
            let name = if by_mat {
                st.material
            } else {
                st.group
            };
            let g = s2.faces.last().1;
            &&& g < s2.groups.len()
            &&& s2.groups[g as int] == name
            &&& s2.groups.subrange(0, st.groups.len() as int) == st.groups
            &&& s2.groups.len() == st.groups.len() || (s2.groups.len() == st.groups.len() + 1 && !st.groups.contains(name))
            &&& s2.faces.subrange(0, st.faces.len() as int) == st.faces
        }),
{
    let name = if by_mat {
        st.material
    } else {
        st.group
    };
    lemma_group_at(st.groups, name, 0);
    let s2 = obj_line(st, l, no, by_mat)->Ok_0;
    let w = words(before_hash(l));
    assert(w.len() > 0 && w[0] == "f"@);
    let idx = face_refs(w, 1, st.verts.len() as int)->Ok_0;
    let (gs, g) = with_group(st.groups, name);
    assert(s2 == ObjState { faces: st.faces.push((idx, g, no)), groups: gs, ..st });
    assert(s2.faces.subrange(0, st.faces.len() as int) =~= st.faces);
    assert(s2.groups.subrange(0, st.groups.len() as int) =~= st.groups);
    if group_at(st.groups, name, 0) is None {
        assert(!st.groups.contains(name));
    }
}

} // verus!
