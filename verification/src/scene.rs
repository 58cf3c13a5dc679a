//! `sceneMesh.bin`, the scene mesh of an upstream project: a `u32` major and minor version, then
//! a chain of nodes (`u16` type, 2 bytes of padding, `u32` first son, `u32` next brother). Type 0
//! holds the vertices (`u32` count, then `f32` x, y, z); type 1 a mesh group (a 255-byte name, 1
//! byte of padding, `u32` face count, then the face records); types 2 to 4 (materials, textures,
//! texture coordinates) are skipped. A face record's size is taken from the node's span (its next
//! brother, or the end of the file for the last node) divided by the face count, and must be the
//! size of the version's face struct: 20 bytes in version 1.0, 32 in 1.1 and 1.2. Only the first
//! three `u32` of a record, the vertex indices, are read.
//!
//! Coordinates are kept as the bits of their `f32`.
use crate::import::{ImportError, is_invalid, is_truncated, is_unsupported};
use crate::proj::{FMT_MESH, le_u32, read_u32};
use crate::text::{dec, lossy_text, message_str, message_u64, push_u64, string_from_utf8_lossy};
use vstd::prelude::*;

verus! {

/// A mesh group: its name and its faces (three vertex indices each).
#[derive(Debug)]
pub struct SceneGroup {
    pub name: String,
    pub faces: Vec<[u32; 3]>,
}

/// A scene mesh as `sceneMesh.bin` holds it: its version, its vertices (the bits of each
/// coordinate's `f32`), its groups, and the face record size found, if any group has a face.
#[derive(Debug)]
pub struct SceneMesh {
    pub version: (u32, u32),
    pub vertices: Vec<[u32; 3]>,
    pub groups: Vec<SceneGroup>,
    pub face_record_bytes: Option<usize>,
}

/// What the node chain gave so far: the vertices, if a vertex node was read; per group its name's
/// bytes and its faces; the face record size, once a group had a face.
#[verifier::ext_equal]
pub ghost struct Walk {
    pub vertices: Option<Seq<[u32; 3]>>,
    pub groups: Seq<(Seq<u8>, Seq<[u32; 3]>)>,
    pub record: Option<usize>,
}

/// What kind of refusal a malformed file gets.
#[derive(Clone, Copy, Debug, PartialEq, Eq, Structural)]
pub enum SceneFault {
    Truncated,
    Invalid,
    Unsupported,
}

/// `e` is an error of the kind `f`, of `sceneMesh.bin`.
pub open spec fn is_scene_fault(e: ImportError, f: SceneFault) -> bool {
    match f {
        SceneFault::Truncated => is_truncated(e, FMT_MESH),
        SceneFault::Invalid => is_invalid(e, FMT_MESH),
        SceneFault::Unsupported => is_unsupported(e, FMT_MESH),
    }
}

/// The `u16` stored little-endian at `at` in `b`.
pub open spec fn le_u16(b: Seq<u8>, at: int) -> int {
    b[at] + 256 * b[at + 1]
}

/// The three `u32` stored little-endian from `at` on.
pub open spec fn triple(b: Seq<u8>, at: int) -> [u32; 3] {
    [le_u32(b, at) as u32, le_u32(b, at + 4) as u32, le_u32(b, at + 8) as u32]
}

/// The face record size of a version: 20 bytes in 1.0, 32 in 1.1 and 1.2; none for another.
pub open spec fn record_of(major: int, minor: int) -> Option<int> {
    if major == 1 && minor == 0 {
        Some(20)
    } else if major == 1 && (minor == 1 || minor == 2) {
        Some(32)
    } else {
        None
    }
}

/// How many bytes of the 255 from `p` on come before the first 0, or 255.
pub open spec fn name_len(b: Seq<u8>, p: int, i: int) -> int
    decreases 255 - i,
{
    if i >= 255 || i < 0 {
        255
    } else if b[p + i] == 0 {
        i
    } else {
        name_len(b, p, i + 1)
    }
}

/// What one node, at `off` and ending at `end`, adds to `st`; `rec` is the version's face
/// record size.
pub open spec fn node(b: Seq<u8>, rec: int, off: int, end: int, st: Walk) -> Result<Walk, SceneFault> {
    let t = le_u16(b, off);
    let p = off + 12;
    if t == 0 {
        if st.vertices is Some {
            Err(SceneFault::Invalid)
        } else if p + 4 > b.len() {
            Err(SceneFault::Truncated)
        } else {
            let count = le_u32(b, p);
            if (count as u64) * 12 + 4 > (end - p) as u64 {
                Err(SceneFault::Truncated)
            } else {
                Ok(Walk { vertices: Some(Seq::new(count as nat, |i: int| triple(b, p + 4 + 12 * i))), ..st })
            }
        }
    } else if t == 1 {
        if p + 260 > b.len() {
            Err(SceneFault::Truncated)
        } else {
            let name = b.subrange(p, p + name_len(b, p, 0));
            let count = le_u32(b, p + 256);
            let first = p + 260;
            if end < first {
                Err(SceneFault::Truncated)
            } else if count > 0 && ((end - first) % count != 0 || (end - first) / count != rec) {
                Err(SceneFault::Invalid)
            } else {
                Ok(
                    Walk {
                        groups: st.groups.push((name, Seq::new(count as nat, |i: int| triple(b, first + rec * i)))),
                        record: if count > 0 {
                            Some(rec as usize)
                        } else {
                            st.record
                        },
                        ..st
                    },
                )
            }
        }
    } else if 2 <= t <= 4 {
        Ok(st)
    } else {
        Err(SceneFault::Invalid)
    }
}

/// The node chain from `off` on, `st` what the nodes before gave.
pub open spec fn walk(b: Seq<u8>, rec: int, off: int, st: Walk) -> Result<Walk, SceneFault>
    decreases b.len() - off,
{
    if off + 12 > b.len() {
        Err(SceneFault::Truncated)
    } else {
        let next = le_u32(b, off + 8);
        let end = if next == 0 {
            b.len() as int
        } else {
            next
        };
        if (next != 0 && end <= off + 12) || end > b.len() {
            Err(SceneFault::Invalid)
        } else {
            match node(b, rec, off, end, st) {
                Err(f) => Err(f),
                Ok(st2) => if next == 0 {
                    Ok(st2)
                } else {
                    walk(b, rec, next, st2)
                },
            }
        }
    }
}

/// Face `f` uses only vertices among the `n`.
pub open spec fn face_in_range(f: [u32; 3], n: int) -> bool {
    f[0] < n && f[1] < n && f[2] < n
}

/// Some face of some group uses a vertex past the `n` vertices.
pub open spec fn face_out_of_range(groups: Seq<(Seq<u8>, Seq<[u32; 3]>)>, n: int) -> bool {
    exists|k: int, j: int| 0 <= k < groups.len() && 0 <= j < groups[k].1.len() && !face_in_range(#[trigger] groups[k].1[j], n)
}

/// A scene mesh file's version and content, or the kind of refusal it gets: the header, a known
/// version, the node chain, exactly one vertex node, and faces within the vertices.
pub open spec fn spec_scene_mesh(b: Seq<u8>) -> Result<(u32, u32, Walk), SceneFault> {
    if b.len() < 8 {
        Err(SceneFault::Truncated)
    } else {
        let major = le_u32(b, 0);
        let minor = le_u32(b, 4);
        match record_of(major, minor) {
            None => Err(SceneFault::Unsupported),
            Some(rec) => match walk(b, rec, 8, Walk { vertices: None, groups: seq![], record: None }) {
                Err(f) => Err(f),
                Ok(w) => match w.vertices {
                    None => Err(SceneFault::Invalid),
                    Some(v) => if face_out_of_range(w.groups, v.len() as int) {
                        Err(SceneFault::Invalid)
                    } else {
                        Ok((major as u32, minor as u32, w))
                    },
                },
            },
        }
    }
}

/// `mesh` is what `w` describes, of version `(major, minor)`: the same vertices, the same
/// faces per group, the same record size; a group's name is its bytes as text, invalid UTF-8
/// replaced ([`lossy_text`]).
pub open spec fn describes(mesh: SceneMesh, major: u32, minor: u32, w: Walk) -> bool {
    &&& mesh.version == (major, minor)
    &&& w.vertices == Some(mesh.vertices@)
    &&& mesh.face_record_bytes == w.record
    &&& mesh.groups@.len() == w.groups.len()
    &&& forall|k: int| 0 <= k < w.groups.len() ==> (#[trigger] mesh.groups@[k]).faces@ == w.groups[k].1
    &&& forall|k: int|
        0 <= k < w.groups.len() && vstd::utf8::valid_utf8(w.groups[k].0) ==> (#[trigger] mesh.groups@[k]).name@
            == vstd::utf8::decode_utf8(w.groups[k].0)
    &&& forall|k: int| 0 <= k < w.groups.len() ==> (#[trigger] mesh.groups@[k]).name@ == lossy_text(w.groups[k].0)
}

/// The state the exec variables hold: the vertices read, the groups with their names' bytes,
/// the record size.
pub open spec fn walk_of(
    v: Option<Vec<[u32; 3]>>,
    g: Seq<SceneGroup>,
    names: Seq<Seq<u8>>,
    record: Option<usize>,
) -> Walk {
    Walk {
        vertices: match v {
            Some(x) => Some(x@),
            None => None,
        },
        groups: Seq::new(names.len(), |k: int| (names[k], g[k].faces@)),
        record,
    }
}

/// The `u16` at `at`, read.
fn read_u16(b: &[u8], at: usize) -> (r: u16)
    requires
        at + 2 <= b@.len(),
    ensures
        r == le_u16(b@, at as int),
{
    b[at] as u16 + 256 * (b[at + 1] as u16)
}

/// The three `u32` at `at`, read.
fn read_triple(b: &[u8], at: usize) -> (r: [u32; 3])
    requires
        at + 12 <= b@.len(),
    ensures
        r == triple(b@, at as int),
{
    let l = b.len();
    [read_u32(b, at), read_u32(b, at + 4), read_u32(b, at + 8)]
}

/// `count` triples from `at` on, `step` bytes apart.
fn read_triples(b: &[u8], at: usize, step: usize, count: usize) -> (r: Vec<[u32; 3]>)
    requires
        step >= 12,
        count == 0 || at + step * count <= b@.len(),
    ensures
        r@ == Seq::new(count as nat, |i: int| triple(b@, at + step * i)),
{
    let l = b.len();
    let mut out: Vec<[u32; 3]> = Vec::new();
    let mut i: usize = 0;
    while i < count
        invariant
            l == b@.len(),
            step >= 12,
            i <= count,
            count == 0 || at + step * count <= b@.len(),
            out@ =~= Seq::new(i as nat, |q: int| triple(b@, at + step * q)),
        decreases count - i,
    {
        proof {
            assert(step * i + step <= step * count) by (nonlinear_arith)
                requires
                    i < count,
            ;
            assert(step * (i + 1) == step * i + step) by (nonlinear_arith);
        }
        out.push(read_triple(b, at + step * i));
        i = i + 1;
    }
    out
}

/// [`name_len`]: the bytes before the first 0 of the 255 from `p` on.
fn name_length(b: &[u8], p: usize) -> (r: usize)
    requires
        p + 255 <= b@.len(),
    ensures
        r == name_len(b@, p as int, 0),
        r <= 255,
{
    let l = b.len();
    let mut i: usize = 0;
    while i < 255
        invariant
            l == b@.len(),
            i <= 255,
            p + 255 <= b@.len(),
            name_len(b@, p as int, 0) == name_len(b@, p as int, i as int),
        decreases 255 - i,
    {
        if b[p + i] == 0 {
            return i;
        }
        i = i + 1;
    }
    255
}

/// "`the node at <off>`".
fn node_at(off: usize) -> (r: String)
    ensures
        r@ == "the node at "@ + dec(off as nat),
{
    proof {
        reveal_strlit("");
    }
    let r = message_u64("the node at ", off as u64, "");
    assert(r@ =~= "the node at "@ + dec(off as nat));
    r
}

/// One node at `off` ending at `end`, added to the state; the ghost `names` are the groups'
/// name bytes.
fn read_node(
    b: &[u8],
    rec: usize,
    major: u32,
    minor: u32,
    off: usize,
    end: usize,
    vertices: &mut Option<Vec<[u32; 3]>>,
    groups: &mut Vec<SceneGroup>,
    record: &mut Option<usize>,
    Ghost(names): Ghost<Seq<Seq<u8>>>,
) -> (r: Result<Ghost<Seq<Seq<u8>>>, ImportError>)
    requires
        rec == 20 || rec == 32,
        off + 12 <= end <= b@.len(),
        old(groups)@.len() == names.len(),
    ensures
        ({
            let st = walk_of(*old(vertices), old(groups)@, names, *old(record));
            match (r, node(b@, rec as int, off as int, end as int, st)) {
                (Ok(nm), Ok(st2)) => {
                    &&& st2 == walk_of(*final(vertices), final(groups)@, nm@, *final(record))
                    &&& final(groups)@.len() == nm@.len()
                    &&& forall|k: int|
                        0 <= k < names.len() ==> #[trigger] final(groups)@[k] == old(groups)@[k] && nm@[k] == names[k]
                    &&& forall|k: int|
                        names.len() <= k < nm@.len() && vstd::utf8::valid_utf8(nm@[k])
                            ==> (#[trigger] final(groups)@[k]).name@ == vstd::utf8::decode_utf8(nm@[k])
                    &&& forall|k: int|
                        names.len() <= k < nm@.len() ==> (#[trigger] final(groups)@[k]).name@ == lossy_text(nm@[k])
                },
                (Err(e), Err(f)) => is_scene_fault(e, f),
                _ => false,
            }
        }),
{
    let l = b.len();
    let t = read_u16(b, off);
    let p = off + 12;
    if t == 0 {
        if vertices.is_some() {
            return Err(ImportError::invalid(FMT_MESH, "two vertex nodes".to_owned()));
        }
        if l - p < 4 {
            return Err(ImportError::truncated(FMT_MESH, "the vertex count".to_owned()));
        }
        let count = read_u32(b, p) as usize;
        if (count as u64) * 12 + 4 > (end - p) as u64 {
            return Err(ImportError::truncated(FMT_MESH, message_u64("the ", count as u64, " vertices")));
        }
        let vs = read_triples(b, p + 4, 12, count);
        *vertices = Some(vs);
        proof {
            assert(Seq::new(names.len(), |k: int| (names[k], groups@[k].faces@)) =~= Seq::new(
                names.len(),
                |k: int| (names[k], old(groups)@[k].faces@),
            ));
        }
        Ok(Ghost(names))
    } else if t == 1 {
        if l - p < 260 {
            if l - p < 255 {
                return Err(ImportError::truncated(FMT_MESH, "a group name".to_owned()));
            }
            return Err(ImportError::truncated(FMT_MESH, "a group's face count".to_owned()));
        }
        let nl = name_length(b, p);
        let name_bytes = vstd::slice::slice_subrange(b, p, p + nl);
        let name = string_from_utf8_lossy(name_bytes);
        let count = read_u32(b, p + 256) as usize;
        let first = p + 260;
        if end < first {
            return Err(ImportError::truncated(FMT_MESH, message_str("group `", name.as_str(), "`")));
        }
        let span = end - first;
        if count > 0 && (span % count != 0 || span / count != rec) {
            let m1 = message_str("group `", name.as_str(), "`: ");
            let m2 = message_u64(m1.as_str(), span as u64, " bytes for ");
            let m3 = message_u64(m2.as_str(), count as u64, " faces is not the ");
            let m4 = message_u64(m3.as_str(), rec as u64, "-byte face record of version ");
            let m5 = message_u64(m4.as_str(), major as u64, ".");
            let m = message_u64(m5.as_str(), minor as u64, "");
            return Err(ImportError::invalid(FMT_MESH, m));
        }
        proof {
            if count > 0 {
                assert(span == rec * count) by (nonlinear_arith)
                    requires
                        span % count == 0,
                        span / count == rec,
                        count > 0,
                ;
            }
        }
        let faces = read_triples(b, first, rec, count);
        if count > 0 {
            *record = Some(rec);
        }
        let ghost nb = name_bytes@;
        groups.push(SceneGroup { name, faces });
        let ghost nm = names.push(nb);
        proof {
            assert(nb == b@.subrange(p as int, p + name_len(b@, p as int, 0)));
            assert(Seq::new(nm.len(), |k: int| (nm[k], groups@[k].faces@)) =~= Seq::new(
                names.len(),
                |k: int| (names[k], old(groups)@[k].faces@),
            ).push((nb, Seq::new(count as nat, |i: int| triple(b@, first + rec * i)))));
        }
        Ok(Ghost(nm))
    } else if 2 <= t && t <= 4 {
        proof {
            assert(Seq::new(names.len(), |k: int| (names[k], groups@[k].faces@)) =~= Seq::new(
                names.len(),
                |k: int| (names[k], old(groups)@[k].faces@),
            ));
        }
        Ok(Ghost(names))
    } else {
        let mut m = message_u64("unknown node type ", t as u64, " at ");
        push_u64(&mut m, off as u64);
        Err(ImportError::invalid(FMT_MESH, m))
    }
}

/// The first face of `faces` using a vertex past `n`, if one does.
fn first_bad_face(faces: &Vec<[u32; 3]>, n: usize) -> (r: Option<usize>)
    ensures
        match r {
            Some(j) => j < faces@.len() && !face_in_range(faces@[j as int], n as int),
            None => forall|j: int| 0 <= j < faces@.len() ==> face_in_range(#[trigger] faces@[j], n as int),
        },
{
    let mut j: usize = 0;
    while j < faces.len()
        invariant
            j <= faces@.len(),
            forall|q: int| 0 <= q < j ==> face_in_range(#[trigger] faces@[q], n as int),
        decreases faces@.len() - j,
    {
        let f = faces[j];
        if f[0] as usize >= n || f[1] as usize >= n || f[2] as usize >= n {
            return Some(j);
        }
        j = j + 1;
    }
    None
}

/// Reads `sceneMesh.bin` ([`spec_scene_mesh`]): its header and version, its node chain, one
/// vertex node, faces within the vertices. Whether the coordinates are finite is not checked
/// here ([`non_finite_vertex`]).
pub fn parse_scene_mesh(bytes: &[u8]) -> (r: Result<SceneMesh, ImportError>)
    ensures
        match (r, spec_scene_mesh(bytes@)) {
            (Ok(mesh), Ok((major, minor, w))) => describes(mesh, major, minor, w),
            (Err(e), Err(f)) => is_scene_fault(e, f),
            _ => false,
        },
{
    let l = bytes.len();
    if l < 8 {
        return Err(ImportError::truncated(FMT_MESH, "the header".to_owned()));
    }
    let major = read_u32(bytes, 0);
    let minor = read_u32(bytes, 4);
    let rec: usize = if major == 1 && minor == 0 {
        20
    } else if major == 1 && (minor == 1 || minor == 2) {
        32
    } else {
        let m1 = message_u64("version ", major as u64, ".");
        return Err(
            ImportError::unsupported(FMT_MESH, message_u64(m1.as_str(), minor as u64, "; versions 1.0 to 1.2 are read")),
        );
    };
    let ghost init = Walk { vertices: None, groups: seq![], record: None };
    let ghost result = walk(bytes@, rec as int, 8, init);
    let mut vertices: Option<Vec<[u32; 3]>> = None;
    let mut groups: Vec<SceneGroup> = Vec::new();
    let mut record: Option<usize> = None;
    let ghost mut names: Seq<Seq<u8>> = seq![];
    assert(walk_of(vertices, groups@, names, record) =~= init);
    let mut off: usize = 8;
    loop
        invariant_except_break
            8 <= off <= l,
            walk(bytes@, rec as int, off as int, walk_of(vertices, groups@, names, record)) == result,
        invariant
            l == bytes@.len(),
            rec == 20 || rec == 32,
            record_of(major as int, minor as int) == Some(rec as int),
            major == le_u32(bytes@, 0),
            minor == le_u32(bytes@, 4),
            init == (Walk { vertices: None, groups: seq![], record: None }),
            result == walk(bytes@, rec as int, 8, init),
            groups@.len() == names.len(),
            forall|k: int|
                0 <= k < names.len() && vstd::utf8::valid_utf8(names[k]) ==> (#[trigger] groups@[k]).name@
                    == vstd::utf8::decode_utf8(names[k]),
            forall|k: int| 0 <= k < names.len() ==> (#[trigger] groups@[k]).name@ == lossy_text(names[k]),
        ensures
            result == Ok::<Walk, SceneFault>(walk_of(vertices, groups@, names, record)),
        decreases l - off,
    {
        if l - off < 12 {
            return Err(ImportError::truncated(FMT_MESH, node_at(off)));
        }
        let next = read_u32(bytes, off + 8) as usize;
        let end = if next == 0 {
            l
        } else {
            next
        };
        if (next != 0 && end <= off + 12) || end > l {
            let m1 = message_u64("the node at ", off as u64, " points its next node to ");
            return Err(ImportError::invalid(FMT_MESH, message_u64(m1.as_str(), next as u64, "")));
        }
        let ghost old_groups = groups@;
        match read_node(bytes, rec, major, minor, off, end, &mut vertices, &mut groups, &mut record, Ghost(names)) {
            Err(e) => {
                return Err(e);
            },
            Ok(nm) => {
                proof {
                    let old_names = names;
                    names = nm@;
                    assert forall|k: int|
                        0 <= k < names.len() && vstd::utf8::valid_utf8(names[k]) implies (#[trigger] groups@[k]).name@
                        == vstd::utf8::decode_utf8(names[k]) by {
                        if k < old_names.len() {
                            assert(groups@[k] == old_groups[k]);
                        }
                    }
                    assert forall|k: int| 0 <= k < names.len() implies (#[trigger] groups@[k]).name@ == lossy_text(
                        names[k],
                    ) by {
                        if k < old_names.len() {
                            assert(groups@[k] == old_groups[k]);
                        }
                    }
                }
            },
        }
        if next == 0 {
            break;
        }
        off = next;
    }
    let ghost done = walk_of(vertices, groups@, names, record);
    let vs = match vertices {
        Some(v) => v,
        None => {
            return Err(ImportError::invalid(FMT_MESH, "no vertex node".to_owned()));
        },
    };
    assert(done == walk_of(Some(vs), groups@, names, record));
    let n = vs.len();
    let mut k: usize = 0;
    while k < groups.len()
        invariant
            k <= groups@.len(),
            groups@.len() == names.len(),
            l == bytes@.len(),
            l >= 8,
            record_of(major as int, minor as int) == Some(rec as int),
            major == le_u32(bytes@, 0),
            minor == le_u32(bytes@, 4),
            init == (Walk { vertices: None, groups: seq![], record: None }),
            result == walk(bytes@, rec as int, 8, init),
            result == Ok::<Walk, SceneFault>(walk_of(Some(vs), groups@, names, record)),
            n == vs@.len(),
            forall|q: int, j: int|
                0 <= q < k && 0 <= j < groups@[q].faces@.len() ==> face_in_range(#[trigger] groups@[q].faces@[j], n as int),
        decreases groups@.len() - k,
    {
        match first_bad_face(&groups[k].faces, n) {
            Some(j) => {
                let f = groups[k].faces[j];
                let m1 = message_str("group `", groups[k].name.as_str(), "` face ");
                let m2 = message_u64(m1.as_str(), j as u64, " uses vertices [");
                let m3 = message_u64(m2.as_str(), f[0] as u64, ", ");
                let m4 = message_u64(m3.as_str(), f[1] as u64, ", ");
                let m5 = message_u64(m4.as_str(), f[2] as u64, "], but there are ");
                let m = message_u64(m5.as_str(), n as u64, "");
                proof {
                    let w = walk_of(Some(vs), groups@, names, record);
                    assert(w.groups[k as int].1 == groups@[k as int].faces@);
                    assert(!face_in_range(w.groups[k as int].1[j as int], n as int));
                    assert(face_out_of_range(w.groups, n as int));
                }
                return Err(ImportError::invalid(FMT_MESH, m));
            },
            None => {},
        }
        k = k + 1;
    }
    proof {
        let w = walk_of(Some(vs), groups@, names, record);
        if face_out_of_range(w.groups, n as int) {
            let (q, j) = choose|q: int, j: int|
                0 <= q < w.groups.len() && 0 <= j < w.groups[q].1.len() && !face_in_range(#[trigger] w.groups[q].1[j], n as int);
            assert(w.groups[q].1 == groups@[q].faces@);
            assert(face_in_range(groups@[q].faces@[j], n as int));
        }
    }
    Ok(SceneMesh { version: (major, minor), vertices: vs, groups, face_record_bytes: record })
}

/// An `f32` with these bits is finite: its exponent is not all ones.
pub open spec fn finite_bits(x: u32) -> bool {
    (x >> 23u32) & 0xffu32 != 0xffu32
}

/// An `f32` triple with these bits is finite on every axis.
pub open spec fn finite_vertex(v: [u32; 3]) -> bool {
    finite_bits(v[0]) && finite_bits(v[1]) && finite_bits(v[2])
}

/// [`finite_vertex`].
fn is_finite_vertex(v: [u32; 3]) -> (r: bool)
    ensures
        r == finite_vertex(v),
{
    (v[0] >> 23u32) & 0xffu32 != 0xffu32 && (v[1] >> 23u32) & 0xffu32 != 0xffu32 && (v[2] >> 23u32) & 0xffu32
        != 0xffu32
}

/// The first vertex with a coordinate that is not finite (infinite or NaN), if any.
pub fn non_finite_vertex(vertices: &Vec<[u32; 3]>) -> (r: Option<usize>)
    ensures
        match r {
            Some(i) => i < vertices@.len() && !finite_vertex(vertices@[i as int]) && forall|j: int|
                0 <= j < i ==> finite_vertex(#[trigger] vertices@[j]),
            None => forall|j: int| 0 <= j < vertices@.len() ==> finite_vertex(#[trigger] vertices@[j]),
        },
{
    let mut i: usize = 0;
    while i < vertices.len()
        invariant
            i <= vertices@.len(),
            forall|j: int| 0 <= j < i ==> finite_vertex(#[trigger] vertices@[j]),
        decreases vertices@.len() - i,
    {
        if !is_finite_vertex(vertices[i]) {
            return Some(i);
        }
        i = i + 1;
    }
    None
}


/// Reads `sceneMesh.bin` as [`parse_scene_mesh`] does and refuses a vertex with a coordinate that
/// is not finite ([`ImportError::Invalid`]): every vertex of a mesh it returns is finite.
pub fn read_scene_mesh(bytes: &[u8]) -> (r: Result<SceneMesh, ImportError>)
    ensures
        match (r, spec_scene_mesh(bytes@)) {
            (Ok(mesh), Ok((major, minor, w))) => describes(mesh, major, minor, w) && forall|j: int|
                0 <= j < mesh.vertices@.len() ==> finite_vertex(#[trigger] mesh.vertices@[j]),
            (Err(e), Err(f)) => is_scene_fault(e, f),
            (Err(e), Ok((major, minor, w))) => is_invalid(e, FMT_MESH) && (w.vertices matches Some(vs) && exists|j: int|
                0 <= j < vs.len() && !finite_vertex(#[trigger] vs[j])),
            _ => false,
        },
{
    let m = parse_scene_mesh(bytes)?;
    match non_finite_vertex(&m.vertices) {
        Some(i) => {
            let mut msg = message_u64("vertex ", i as u64, " has a non-finite coordinate: bits ");
            push_u64(&mut msg, m.vertices[i][0] as u64);
            msg.append(", ");
            push_u64(&mut msg, m.vertices[i][1] as u64);
            msg.append(", ");
            push_u64(&mut msg, m.vertices[i][2] as u64);
            Err(ImportError::invalid(FMT_MESH, msg))
        },
        None => Ok(m),
    }
}
} // verus!
