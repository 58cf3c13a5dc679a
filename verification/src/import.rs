//! Geometry import: the options a mesh file is read with, the reasons an import fails, and the
//! deterministic ids an import gives. Units scale and axes turn in floating point, which this
//! crate leaves to its callers; what is decided here is decided on names, bytes and integers.
use vstd::prelude::*;
use vstd::slice::slice_subrange;
use vstd::string::StringSliceAdditionalSpecFns;

verus! {

/// A length unit a mesh file may be drawn in.
#[derive(Clone, Copy, Debug, PartialEq, Eq, Hash, Structural)]
pub enum Unit {
    Metre,
    Centimetre,
    Millimetre,
    Foot,
    Inch,
}

/// The symbol of a unit, as text.
pub open spec fn unit_symbol(u: Unit) -> Seq<char> {
    match u {
        Unit::Metre => seq!['m'],
        Unit::Centimetre => seq!['c', 'm'],
        Unit::Millimetre => seq!['m', 'm'],
        Unit::Foot => seq!['f', 't'],
        Unit::Inch => seq!['i', 'n'],
    }
}

impl Unit {
    /// The unit's symbol: `m`, `cm`, `mm`, `ft`, `in`.
    pub fn symbol(self) -> (r: &'static str)
        ensures
            r@ == unit_symbol(self),
    {
        proof {
            reveal_strlit("m");
            reveal_strlit("cm");
            reveal_strlit("mm");
            reveal_strlit("ft");
            reveal_strlit("in");
        }
        match self {
            Unit::Metre => "m",
            Unit::Centimetre => "cm",
            Unit::Millimetre => "mm",
            Unit::Foot => "ft",
            Unit::Inch => "in",
        }
    }

    /// The unit named by its symbol ([`Unit::symbol`]).
    pub fn from_symbol(symbol: &str) -> (r: Option<Unit>)
        ensures
            r matches Some(u) ==> unit_symbol(u) == symbol@,
            r is None ==> forall|u: Unit| unit_symbol(u) != symbol@,
    {
        let all = [Unit::Metre, Unit::Centimetre, Unit::Millimetre, Unit::Foot, Unit::Inch];
        let mut i: usize = 0;
        while i < 5
            invariant
                0 <= i <= 5,
                all@ == seq![Unit::Metre, Unit::Centimetre, Unit::Millimetre, Unit::Foot, Unit::Inch],
                forall|j: int| 0 <= j < i ==> unit_symbol(#[trigger] all@[j]) != symbol@,
            decreases 5 - i,
        {
            let u = all[i];
            if str_eq(u.symbol(), symbol) {
                return Some(u);
            }
            i = i + 1;
        }
        proof {
            assert forall|u: Unit| unit_symbol(u) != symbol@ by {
                match u {
                    Unit::Metre => assert(all@[0] == u),
                    Unit::Centimetre => assert(all@[1] == u),
                    Unit::Millimetre => assert(all@[2] == u),
                    Unit::Foot => assert(all@[3] == u),
                    Unit::Inch => assert(all@[4] == u),
                }
            }
        }
        None
    }
}

/// Whether two texts are equal, byte for byte.
pub fn str_eq(a: &str, b: &str) -> (r: bool)
    ensures
        r == (a@ == b@),
{
    let x = a.as_bytes();
    let y = b.as_bytes();
    proof {
        vstd::utf8::encode_utf8_decode_utf8(a@);
        vstd::utf8::encode_utf8_decode_utf8(b@);
    }
    if x.len() != y.len() {
        return false;
    }
    let mut i: usize = 0;
    while i < x.len()
        invariant
            x@ == a.spec_bytes(),
            y@ == b.spec_bytes(),
            x@.len() == y@.len(),
            0 <= i <= x@.len(),
            forall|j: int| 0 <= j < i ==> x@[j] == y@[j],
        decreases x@.len() - i,
    {
        if x[i] != y[i] {
            assert(x@[i as int] != y@[i as int]);
            return false;
        }
        i = i + 1;
    }
    assert(x@ =~= y@);
    true
}

/// The file's vertical axis. The world's is +Z.
#[derive(Clone, Copy, Debug, PartialEq, Eq, Hash, Structural)]
pub enum Up {
    /// The file is Y-up: `(x, y, z)` becomes `(x, -z, y)`.
    Y,
    /// The file is Z-up, like the world: coordinates are kept.
    Z,
}

impl Up {
    /// `y` or `z`, in either case.
    pub fn from_name(name: &str) -> (r: Option<Up>)
        ensures
            r == (if name@ == seq!['y'] || name@ == seq!['Y'] {
                Some(Up::Y)
            } else if name@ == seq!['z'] || name@ == seq!['Z'] {
                Some(Up::Z)
            } else {
                None
            }),
    {
        proof {
            reveal_strlit("y");
            reveal_strlit("Y");
            reveal_strlit("z");
            reveal_strlit("Z");
        }
        assert("y"@ == seq!['y'] && "Y"@ == seq!['Y'] && "z"@ == seq!['z'] && "Z"@ == seq!['Z']);
        if str_eq(name, "y") || str_eq(name, "Y") {
            Some(Up::Y)
        } else if str_eq(name, "z") || str_eq(name, "Z") {
            Some(Up::Z)
        } else {
            None
        }
    }
}

/// Which OBJ statement names a face's surface group.
#[derive(Clone, Copy, Debug, PartialEq, Eq, Hash, Structural)]
pub enum ObjGroups {
    /// `usemtl` if the file has any `usemtl` statement, otherwise `g`/`o`.
    Auto,
    /// The current `usemtl` material name (`default` before the first one).
    Material,
    /// The current `g` or `o` name, whichever came last (`default` before the first one).
    Group,
}

/// Whether an import merges vertices with equal coordinates.
#[derive(Clone, Copy, Debug, PartialEq, Eq, Hash, Structural)]
pub enum Weld {
    /// STL is welded; PLY and OBJ keep the file's vertices.
    ByFormat,
    /// Every two vertices with equal coordinates are merged, whatever the format.
    Exact,
    /// Every vertex a face uses is kept, whatever the format.
    Off,
}

/// How to read a mesh file. There is no `Default`: the unit and the up axis must be given.
#[derive(Clone, Copy, Debug, PartialEq, Eq, Hash, Structural)]
pub struct ImportOptions {
    pub unit: Unit,
    pub up: Up,
    /// OBJ only.
    pub obj_groups: ObjGroups,
    pub weld: Weld,
}

/// The file formats the mesh readers read.
#[derive(Clone, Copy, Debug, PartialEq, Eq, Hash, Structural)]
pub enum MeshFormat {
    Ply,
    Obj,
    Stl,
}

/// Whether a file of format `format` is welded under the weld option `weld`.
pub open spec fn spec_welds(weld: Weld, format: MeshFormat) -> bool {
    match weld {
        Weld::ByFormat => format == MeshFormat::Stl,
        Weld::Exact => true,
        Weld::Off => false,
    }
}

impl ImportOptions {
    /// `unit` and `up`, with OBJ groups [`ObjGroups::Auto`] and welding [`Weld::ByFormat`].
    pub fn new(unit: Unit, up: Up) -> (r: Self)
        ensures
            r == (ImportOptions { unit, up, obj_groups: ObjGroups::Auto, weld: Weld::ByFormat }),
    {
        ImportOptions { unit, up, obj_groups: ObjGroups::Auto, weld: Weld::ByFormat }
    }

    /// Whether a file of this format is welded under these options.
    pub fn welds(&self, format: MeshFormat) -> (r: bool)
        ensures
            r == spec_welds(self.weld, format),
    {
        match self.weld {
            Weld::ByFormat => match format {
                MeshFormat::Stl => true,
                _ => false,
            },
            Weld::Exact => true,
            Weld::Off => false,
        }
    }
}

/// The lower-case text of an extension, if it names a format.
pub open spec fn format_of_extension(ext: Seq<u8>) -> Option<MeshFormat> {
    if ext.len() != 3 {
        None
    } else {
        let e = seq![spec_lower(ext[0]), spec_lower(ext[1]), spec_lower(ext[2])];
        if e == seq![112u8, 108u8, 121u8] {
            Some(MeshFormat::Ply)
        } else if e == seq![111u8, 98u8, 106u8] {
            Some(MeshFormat::Obj)
        } else if e == seq![115u8, 116u8, 108u8] {
            Some(MeshFormat::Stl)
        } else {
            None
        }
    }
}

/// The last component of a `/`-separated path, without the slashes and the `.` components that
/// may end it (`b.ply/.` names `b.ply`).
pub open spec fn last_component(p: Seq<u8>) -> Seq<u8>
    decreases p.len(),
{
    if p.len() > 0 && p.last() == 47u8 {
        last_component(p.drop_last())
    } else if p.len() >= 2 && p.last() == 46u8 && p[p.len() - 2] == 47u8 {
        last_component(p.drop_last())
    } else {
        after_last_slash(p)
    }
}

/// What follows the last `/` of `p` (all of `p` when it has none).
pub open spec fn after_last_slash(p: Seq<u8>) -> Seq<u8>
    decreases p.len(),
{
    if p.len() == 0 {
        p
    } else if p.last() == 47u8 {
        Seq::empty()
    } else {
        after_last_slash(p.drop_last()).push(p.last())
    }
}

/// The extension of a file name: what follows its last `.`, unless that `.` is its first byte
/// (a name such as `.ply` has none), and none for `.` and `..`.
pub open spec fn spec_extension(name: Seq<u8>) -> Option<Seq<u8>> {
    if name.len() == 0 || name == seq![46u8] || name == seq![46u8, 46u8] {
        None
    } else {
        match last_dot(name) {
            Some(i) => if i == 0 {
                None
            } else {
                Some(name.subrange(i + 1, name.len() as int))
            },
            None => None,
        }
    }
}

/// The position of the last `.` in `s`.
pub open spec fn last_dot(s: Seq<u8>) -> Option<int>
    decreases s.len(),
{
    if s.len() == 0 {
        None
    } else if s.last() == 46u8 {
        Some(s.len() - 1)
    } else {
        last_dot(s.drop_last())
    }
}


/// Where the last component of `p` lies in it.
fn component_range(p: &[u8]) -> (r: (usize, usize))
    ensures
        r.0 <= r.1 <= p@.len(),
        p@.subrange(r.0 as int, r.1 as int) == last_component(p@),
{
    let mut end = p.len();
    assert(p@.subrange(0, end as int) =~= p@);
    while end > 0 && (p[end - 1] == 47u8 || (end >= 2 && p[end - 1] == 46u8 && p[end - 2] == 47u8))
        invariant
            end <= p@.len(),
            last_component(p@) == last_component(p@.subrange(0, end as int)),
        decreases end,
    {
        assert(p@.subrange(0, end as int).drop_last() =~= p@.subrange(0, end - 1));
        end = end - 1;
    }
    let mut start = end;
    while start > 0 && p[start - 1] != 47u8
        invariant
            start <= end <= p@.len(),
            after_last_slash(p@.subrange(0, end as int)) == after_last_slash(
                p@.subrange(0, start as int),
            ) + p@.subrange(start as int, end as int),
        decreases start,
    {
        assert(p@.subrange(0, start as int).drop_last() =~= p@.subrange(0, start - 1));
        assert(p@.subrange(start - 1, end as int) =~= seq![p@[start - 1]] + p@.subrange(
            start as int,
            end as int,
        ));
        assert(after_last_slash(p@.subrange(0, start - 1)).push(p@[start - 1]) + p@.subrange(
            start as int,
            end as int,
        ) =~= after_last_slash(p@.subrange(0, start - 1)) + p@.subrange(start - 1, end as int));
        start = start - 1;
    }
    proof {
        if start > 0 {
            assert(p@.subrange(0, start as int).last() == 47u8);
            assert(after_last_slash(p@.subrange(0, start as int)) =~= Seq::<u8>::empty());
        } else {
            assert(after_last_slash(p@.subrange(0, 0)) =~= Seq::<u8>::empty());
        }
        assert(Seq::<u8>::empty() + p@.subrange(start as int, end as int) =~= p@.subrange(
            start as int,
            end as int,
        ));
    }
    (start, end)
}

/// Where the extension of the file name `name` starts, if it has one.
fn extension_range(name: &[u8]) -> (r: Option<usize>)
    ensures
        match r {
            Some(k) => k <= name@.len() && spec_extension(name@) == Some(
                name@.subrange(k as int, name@.len() as int),
            ),
            None => spec_extension(name@) is None,
        },
{
    let ghost g = name@;
    let n = name.len();
    if n == 0 || (n == 1 && name[0] == 46u8) || (n == 2 && name[0] == 46u8 && name[1] == 46u8) {
        proof {
            if n == 1 {
                assert(g =~= seq![46u8]);
            }
            if n == 2 {
                assert(g =~= seq![46u8, 46u8]);
            }
        }
        return None;
    }
    assert(g != seq![46u8] && g != seq![46u8, 46u8]) by {
        if g == seq![46u8] {
            assert(g.len() == 1 && g[0] == 46u8);
        }
        if g == seq![46u8, 46u8] {
            assert(g.len() == 2 && g[0] == 46u8 && g[1] == 46u8);
        }
    }
    let mut k = n;
    assert(g.subrange(0, k as int) =~= g);
    while k > 0 && name[k - 1] != 46u8
        invariant
            k <= n == g.len(),
            name@ == g,
            last_dot(g) == last_dot(g.subrange(0, k as int)),
        decreases k,
    {
        assert(g.subrange(0, k as int).drop_last() =~= g.subrange(0, k - 1));
        k = k - 1;
    }
    if k == 0 {
        assert(last_dot(g.subrange(0, 0)) == None::<int>);
        return None;
    }
    assert(g.subrange(0, k as int).last() == 46u8);
    assert(last_dot(g) == Some((k - 1) as int));
    if k == 1 {
        return None;
    }
    Some(k)
}

/// The format an extension names, in any case.
fn format_of(ext: &[u8]) -> (r: Option<MeshFormat>)
    ensures
        r == format_of_extension(ext@),
{
    if ext.len() != 3 {
        return None;
    }
    let (a, b, c) = (lower_ascii(ext[0]), lower_ascii(ext[1]), lower_ascii(ext[2]));
    let ghost e = seq![a, b, c];
    if a == 112u8 && b == 108u8 && c == 121u8 {
        assert(e =~= seq![112u8, 108u8, 121u8]);
        Some(MeshFormat::Ply)
    } else if a == 111u8 && b == 98u8 && c == 106u8 {
        assert(e =~= seq![111u8, 98u8, 106u8]);
        Some(MeshFormat::Obj)
    } else if a == 115u8 && b == 116u8 && c == 108u8 {
        assert(e =~= seq![115u8, 116u8, 108u8]);
        Some(MeshFormat::Stl)
    } else {
        assert(e != seq![112u8, 108u8, 121u8] && e != seq![111u8, 98u8, 106u8] && e != seq![
            115u8,
            116u8,
            108u8,
        ]) by {
            if e == seq![112u8, 108u8, 121u8] {
                assert(e[0] == 112u8 && e[1] == 108u8 && e[2] == 121u8);
            }
            if e == seq![111u8, 98u8, 106u8] {
                assert(e[0] == 111u8 && e[1] == 98u8 && e[2] == 106u8);
            }
            if e == seq![115u8, 116u8, 108u8] {
                assert(e[0] == 115u8 && e[1] == 116u8 && e[2] == 108u8);
            }
        }
        None
    }
}

/// An ASCII letter in lower case; any other byte as it is.
pub open spec fn spec_lower(b: u8) -> u8 {
    if 65 <= b <= 90 {
        (b + 32) as u8
    } else {
        b
    }
}

/// [`spec_lower`].
pub fn lower_ascii(b: u8) -> (r: u8)
    ensures
        r == spec_lower(b),
{
    if 65 <= b && b <= 90 {
        b + 32
    } else {
        b
    }
}

impl MeshFormat {
    /// The format a file's extension names (any case), if one does. The path is `/`-separated
    /// text; its last component that is not `.` is the file name.
    pub fn from_path(path: &str) -> (r: Option<MeshFormat>)
        ensures
            r == (match spec_extension(last_component(path.spec_bytes())) {
                Some(e) => format_of_extension(e),
                None => None,
            }),
    {
        let p = path.as_bytes();
        let (start, end) = component_range(p);
        let name = slice_subrange(p, start, end);
        match extension_range(name) {
            None => None,
            Some(k) => format_of(slice_subrange(name, k, name.len())),
        }
    }

    /// `ply`, `obj` or `stl`.
    pub fn name(self) -> (r: &'static str)
        ensures
            r@ == format_name(self),
    {
        proof {
            reveal_strlit("ply");
            reveal_strlit("obj");
            reveal_strlit("stl");
        }
        match self {
            MeshFormat::Ply => "ply",
            MeshFormat::Obj => "obj",
            MeshFormat::Stl => "stl",
        }
    }
}

/// The name of a format.
pub open spec fn format_name(f: MeshFormat) -> Seq<char> {
    match f {
        MeshFormat::Ply => seq!['p', 'l', 'y'],
        MeshFormat::Obj => seq!['o', 'b', 'j'],
        MeshFormat::Stl => seq!['s', 't', 'l'],
    }
}

/// Why a file could not be imported. [`ImportError::code`] is a stable reason code.
#[derive(Debug)]
pub enum ImportError {
    /// The file could not be read.
    Io { path: String, message: String },
    /// The file's extension names no format the mesh readers read.
    UnknownFormat { path: String },
    /// The file is not well-formed: a bad header line, a token that is not a number.
    Syntax { format: &'static str, location: String, message: String },
    /// The data ends before something the header or a count promised.
    Truncated { format: &'static str, what: String },
    /// Well-formed but wrong: an index out of range, a non-finite coordinate, a bad count.
    Invalid { format: &'static str, message: String },
    /// Something this importer does not read, and why.
    Unsupported { format: &'static str, message: String },
    /// A project refused for a reason with its own stable code (`reason`), which
    /// [`ImportError::code`] returns.
    Refused { format: &'static str, reason: &'static str, message: String },
    /// The file holds no face.
    Empty { format: &'static str },
    /// The imported project fails its integrity check.
    Integrity { message: String },
}

/// The stable code of an import error.
pub open spec fn spec_import_code(e: ImportError) -> Seq<char> {
    match e {
        ImportError::Io { .. } => seq!['i', 'o'],
        ImportError::UnknownFormat { .. } => "unknown_format"@,
        ImportError::Syntax { .. } => "syntax"@,
        ImportError::Truncated { .. } => "truncated"@,
        ImportError::Invalid { .. } => "invalid"@,
        ImportError::Unsupported { .. } => "unsupported"@,
        ImportError::Refused { reason, .. } => reason@,
        ImportError::Empty { .. } => "empty"@,
        ImportError::Integrity { .. } => "integrity"@,
    }
}

/// `e` is an [`ImportError::Invalid`] of the format named `f`.
pub open spec fn is_invalid(e: ImportError, f: &str) -> bool {
    e matches ImportError::Invalid { format, .. } && format@ == f@
}

/// `e` is an [`ImportError::Truncated`] of the format named `f`.
pub open spec fn is_truncated(e: ImportError, f: &str) -> bool {
    e matches ImportError::Truncated { format, .. } && format@ == f@
}

/// `e` is an [`ImportError::Unsupported`] of the format named `f`.
pub open spec fn is_unsupported(e: ImportError, f: &str) -> bool {
    e matches ImportError::Unsupported { format, .. } && format@ == f@
}

/// `e` is an [`ImportError::Syntax`] error of the format named `f`.
pub open spec fn is_syntax(e: ImportError, f: &str) -> bool {
    e matches ImportError::Syntax { format, .. } && format@ == f@
}

impl ImportError {
    /// The stable reason code: the variant's name in snake_case, or a refusal's own code.
    pub fn code(&self) -> (r: &'static str)
        ensures
            r@ == spec_import_code(*self),
    {
        proof {
            reveal_strlit("io");
        }
        match self {
            ImportError::Io { .. } => "io",
            ImportError::UnknownFormat { .. } => "unknown_format",
            ImportError::Syntax { .. } => "syntax",
            ImportError::Truncated { .. } => "truncated",
            ImportError::Invalid { .. } => "invalid",
            ImportError::Unsupported { .. } => "unsupported",
            ImportError::Refused { reason, .. } => reason,
            ImportError::Empty { .. } => "empty",
            ImportError::Integrity { .. } => "integrity",
        }
    }

    /// An [`ImportError::Invalid`] of `format`.
    pub fn invalid(format: &'static str, message: String) -> (r: Self)
        ensures
            r == (ImportError::Invalid { format, message }),
    {
        ImportError::Invalid { format, message }
    }

    /// An [`ImportError::Unsupported`] of `format`.
    pub fn unsupported(format: &'static str, message: String) -> (r: Self)
        ensures
            r == (ImportError::Unsupported { format, message }),
    {
        ImportError::Unsupported { format, message }
    }

    /// An [`ImportError::Refused`] of `format`, with its own code `reason`.
    pub fn refused(format: &'static str, reason: &'static str, message: String) -> (r: Self)
        ensures
            r == (ImportError::Refused { format, reason, message }),
    {
        ImportError::Refused { format, reason, message }
    }

    /// An [`ImportError::Truncated`] of `format`.
    pub fn truncated(format: &'static str, what: String) -> (r: Self)
        ensures
            r == (ImportError::Truncated { format, what }),
    {
        ImportError::Truncated { format, what }
    }

    /// An [`ImportError::Syntax`] of `format`.
    pub fn syntax(format: &'static str, location: String, message: String) -> (r: Self)
        ensures
            r == (ImportError::Syntax { format, location, message }),
    {
        ImportError::Syntax { format, location, message }
    }
}

/// What an import did to the file's data, for the user to see.
#[derive(Clone, Debug, PartialEq, Eq)]
pub struct ImportReport {
    /// Vertices in the file.
    pub source_vertices: usize,
    /// Faces (polygons, facets) in the file.
    pub source_faces: usize,
    /// Triangles imported.
    pub triangles: usize,
    /// Faces with more than 3 vertices, fan-triangulated.
    pub polygons_split: usize,
    /// Whether vertices with equal coordinates were merged ([`Weld`]).
    pub welded: bool,
    /// Vertices merged into an earlier vertex with equal coordinates.
    pub welded_vertices: usize,
    /// Vertices no face uses, dropped.
    pub unused_vertices: usize,
    /// Groups the file declares that hold no face, dropped.
    pub empty_groups: Vec<String>,
    /// Anything else worth knowing, one sentence each.
    pub notes: Vec<String>,
}

} // verus!
