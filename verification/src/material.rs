//! A material of a project's own database (`bdd/materiaux`), read as I-Simpa's loader reads it:
//! its id, name, colour, side, and per band its absorption, scattering, reflection law and
//! transmission loss. Numbers stay the text the file holds, checked against the number grammar;
//! turning them into values is left to the caller.
use crate::chars::{chars_of, parse_int, parse_uint, parse_uint_of, string_of, trim, trim_of};
use crate::import::{is_invalid, ImportError};
use crate::proj::{spec_strtol_prefix, strtol_prefix, FMT_XML};
use crate::props::{element_type, int_attr, lemma_elements_in, opt_prop_choice, prop, prop_choice, spec_prop};
use crate::words::{float_word, is_float_word};
use crate::xml::{attr_of, attribute, element_kids, element_order, find_child, first_match, lemma_first_match_in, XmlNode, XmlTree};
use vstd::prelude::*;

verus! {

/// The code of a project refused for a band row of the old form (values as attributes) whose
/// value upstream reports as unreadable or leaves undefined.
pub const MATERIAL_ROW_UNREADABLE: &'static str = "proj_material_row_unreadable";

/// The code of a project refused for a reflection law that is none of upstream's seven (0 to 6).
pub const REFLECTION_LAW_OUT_OF_RANGE: &'static str = "proj_reflection_law_out_of_range";

/// The element type of a material's band row of the old form (`<bfreq>`).
pub const EID_ROW_MATERIAU: i64 = 52;

/// A material as the file holds it: its id (`idmateriau`), name, colour, whether both sides
/// reflect, and per band the text of its absorption and scattering, its reflection law, and the
/// text of its transmission loss where the band transmits (all `None` when no band does).
pub struct MaterialText {
    pub solver_id: u32,
    pub name: String,
    pub color: (u8, u8, u8),
    pub absorption: Vec<String>,
    pub scattering: Vec<String>,
    pub laws: Vec<u8>,
    pub transmission_loss: Option<Vec<Option<String>>>,
    pub double_sided: bool,
}

/// Why a material is not read.
pub enum MaterialFault {
    /// The element tree is invalid for it.
    Invalid,
    /// A band row names a frequency the project's bands do not have.
    Unsupported,
    /// An old-form row holds a value upstream reads as unreadable.
    Unreadable,
    /// A reflection law is none of upstream's seven.
    LawOutOfRange,
}

/// `e` is the error for `f`.
pub open spec fn fault_is(e: ImportError, f: MaterialFault) -> bool {
    match f {
        MaterialFault::Invalid => is_invalid(e, FMT_XML),
        MaterialFault::Unsupported => e matches ImportError::Unsupported { format, .. } && format@ == FMT_XML@,
        MaterialFault::Unreadable => e matches ImportError::Refused { format, reason, .. } && format@ == FMT_XML@
            && reason@ == MATERIAL_ROW_UNREADABLE@,
        MaterialFault::LawOutOfRange => e matches ImportError::Refused { format, reason, .. } && format@ == FMT_XML@
            && reason@ == REFLECTION_LAW_OUT_OF_RANGE@,
    }
}

/// Holds a decimal digit.
pub open spec fn has_digit(t: Seq<char>) -> bool {
    exists|i: int| 0 <= i < t.len() && '0' <= #[trigger] t[i] <= '9'
}

/// A number as upstream's GUI writes it, in the C locale or with a decimal comma (a text with a
/// comma and no point reads its commas as points), trimmed.
pub open spec fn decimal(t: Seq<char>) -> Seq<char> {
    let s = trim(t);
    if s.contains(',') && !s.contains('.') {
        s.map_values(|c: char| if c == ',' { '.' } else { c })
    } else {
        s
    }
}

/// `t` is a number: [`decimal`] in the float grammar ([`float_word`]), and not `inf` or `nan`,
/// the grammar's only words that hold no digit.
pub open spec fn is_number(t: Seq<char>) -> bool {
    float_word(decimal(t)) && has_digit(decimal(t))
}

/// [`is_number`].
pub fn number_text(t: &str) -> (r: bool)
    ensures
        r == is_number(t@),
{
    let cs = chars_of(t);
    let s = trim_of(cs.as_slice());
    let mut comma = false;
    let mut point = false;
    let mut i: usize = 0;
    while i < s.len()
        invariant
            i <= s@.len(),
            s@ == trim(t@),
            comma == exists|j: int| 0 <= j < i && s@[j] == ',',
            point == exists|j: int| 0 <= j < i && s@[j] == '.',
        decreases s@.len() - i,
    {
        if s[i] == ',' {
            comma = true;
        }
        if s[i] == '.' {
            point = true;
        }
        i = i + 1;
    }
    let ghost sv = s@;
    assert(comma == sv.contains(','));
    assert(point == sv.contains('.'));
    let mut d: Vec<char> = Vec::new();
    let swap = comma && !point;
    let mut digit = false;
    let mut i: usize = 0;
    while i < s.len()
        invariant
            i <= s@.len(),
            s@ == sv,
            d@ == (if swap {
                sv.map_values(|c: char| if c == ',' { '.' } else { c })
            } else {
                sv
            }).subrange(0, i as int),
            digit == exists|j: int| 0 <= j < i && '0' <= #[trigger] d@[j] <= '9',
        decreases s@.len() - i,
    {
        let c = if swap && s[i] == ',' {
            '.'
        } else {
            s[i]
        };
        let ghost d0 = d@;
        d.push(c);
        if '0' <= c && c <= '9' {
            digit = true;
        }
        proof {
            assert(d@[i as int] == c);
            assert forall|j: int| 0 <= j < i implies d@[j] == d0[j] by {}
            if digit && !('0' <= c && c <= '9') {
                let j = choose|j: int| 0 <= j < i && '0' <= #[trigger] d0[j] <= '9';
                assert(d@[j] == d0[j]);
            }
            if exists|j: int| 0 <= j < i + 1 && '0' <= #[trigger] d@[j] <= '9' {
                let j = choose|j: int| 0 <= j < i + 1 && '0' <= #[trigger] d@[j] <= '9';
                if j < i {
                    assert(d0[j] == d@[j]);
                }
            }
        }
        i = i + 1;
    }
    let ghost full = if swap {
        sv.map_values(|c: char| if c == ',' { '.' } else { c })
    } else {
        sv
    };
    assert(full.subrange(0, full.len() as int) =~= full);
    assert(d@ == decimal(t@));
    assert(digit == has_digit(d@));
    digit && is_float_word(d.as_slice())
}

/// The first position of `freq` among `bands` from `i` on.
pub open spec fn band_from(bands: Seq<u32>, freq: u32, i: int) -> Option<int>
    decreases bands.len() - i,
{
    if i < 0 || i >= bands.len() {
        None
    } else if bands[i] == freq {
        Some(i)
    } else {
        band_from(bands, freq, i + 1)
    }
}

/// The first position of `freq` among `bands`.
pub open spec fn band_of(bands: Seq<u32>, freq: u32) -> Option<int> {
    band_from(bands, freq, 0)
}

proof fn lemma_band_from(bands: Seq<u32>, freq: u32, i: int)
    requires
        0 <= i,
    ensures
        band_from(bands, freq, i) matches Some(b) ==> i <= b < bands.len(),
    decreases bands.len() - i,
{
    if i < bands.len() && bands[i] != freq {
        lemma_band_from(bands, freq, i + 1);
    }
}

/// Attribute `name` of `n` trimmed and read as an unsigned integer of at most `max`
/// (`str::parse` of an unsigned type).
pub open spec fn uint_attr(n: XmlNode, name: Seq<char>, max: u64) -> Option<u64> {
    match attr_of(n, name) {
        Some(v) => match parse_uint(trim(v@)) {
            Some(x) => if x <= max {
                Some(x)
            } else {
                None
            },
            None => None,
        },
        None => None,
    }
}

/// [`uint_attr`].
fn uint_attr_of(n: &XmlNode, name: &str, max: u64) -> (r: Option<u64>)
    ensures
        r == uint_attr(*n, name@, max),
{
    match attribute(n, name) {
        Some(v) => {
            let cs = chars_of(v.as_str());
            match parse_uint_of(trim_of(cs.as_slice())) {
                Some(x) => if x <= max {
                    Some(x)
                } else {
                    None
                },
                None => None,
            }
        },
        None => None,
    }
}

/// What is read of each band so far: absorption, scattering, law, and the transmission loss
/// (`Some(None)` for a band read without one).
pub type Bands = (Seq<Option<Seq<char>>>, Seq<Option<Seq<char>>>, Seq<Option<i64>>, Seq<Option<Option<Seq<char>>>>);

/// A band row: a `<p>`, or a `<bfreq>` of type 52.
pub open spec fn is_row(n: XmlNode) -> bool {
    n.tag@ == "p"@ || (n.tag@ == "bfreq"@ && int_attr(n, "eid"@) == Some(EID_ROW_MATERIAU))
}

/// An old-form value: the attribute's text, which must be a number.
pub open spec fn old_value(n: XmlNode, a: Seq<char>) -> Result<Option<Seq<char>>, MaterialFault> {
    match attr_of(n, a) {
        None => Ok(None),
        Some(v) => if is_number(v@) {
            Ok(Some(v@))
        } else {
            Err(MaterialFault::Unreadable)
        },
    }
}

/// A new-form value of property `a` of row `r`, which must be there, have a `value`, and be a
/// number.
pub open spec fn new_value(t: Seq<XmlNode>, r: int, a: Seq<char>) -> Result<Seq<char>, MaterialFault> {
    match spec_prop(t, r, a) {
        None => Err(MaterialFault::Invalid),
        Some(p) => match attr_of(t[p as int], "value"@) {
            None => Err(MaterialFault::Invalid),
            Some(v) => if is_number(v@) {
                Ok(v@)
            } else {
                Err(MaterialFault::Invalid)
            },
        },
    }
}

/// Whether row `r`'s `transmission` switch is on: off without the property; its `value` (or
/// `choice`), trimmed, read as an integer, on when not 0.
pub open spec fn switch_on(t: Seq<XmlNode>, r: int) -> Result<bool, MaterialFault> {
    match spec_prop(t, r, "transmission"@) {
        None => Ok(false),
        Some(p) => {
            let text = match attr_of(t[p as int], "value"@) {
                Some(v) => Some(v),
                None => attr_of(t[p as int], "choice"@),
            };
            match text {
                None => Err(MaterialFault::Invalid),
                Some(v) => match parse_int(trim(v@)) {
                    Some(x) => Ok(x != 0),
                    None => Err(MaterialFault::Invalid),
                },
            }
        },
    }
}

/// The bands after row `r` of band `b` is read.
#[verifier::opaque]
pub open spec fn row_values(t: Seq<XmlNode>, r: int, b: int, st: Bands) -> Result<Bands, MaterialFault> {
    let n = t[r];
    if attr_of(n, "absorb"@) is Some {
        match (old_value(n, "absorb"@), old_value(n, "diffusion"@)) {
            (Err(f), _) => Err(f),
            (Ok(None), _) => Err(MaterialFault::Unreadable),
            (Ok(Some(_)), Err(f)) => Err(f),
            (Ok(Some(_)), Ok(None)) => Err(MaterialFault::Unreadable),
            (Ok(Some(a)), Ok(Some(s))) => {
                let loi = match attr_of(n, "loi"@) {
                    Some(v) => v@,
                    None => seq![],
                };
                match spec_strtol_prefix(vstd::utf8::encode_utf8(loi)) {
                    None => Err(MaterialFault::Unreadable),
                    Some(law) => match old_value(n, "affaiblissement"@) {
                        Err(f) => Err(f),
                        Ok(tl) => Ok((st.0.update(b, Some(a)), st.1.update(b, Some(s)), st.2.update(b, Some(law)), st.3.update(b, Some(tl)))),
                    },
                }
            },
        }
    } else {
        match new_value(t, r, "absorb"@) {
            Err(f) => Err(f),
            Ok(a) => match new_value(t, r, "diffusion"@) {
                Err(f) => Err(f),
                Ok(s) => match prop_choice(t, r, "loi"@) {
                    Err(_) => Err(MaterialFault::Invalid),
                    Ok(c) => {
                        let law = match c {
                            Some(x) => x,
                            None => 0,
                        };
                        match switch_on(t, r) {
                            Err(f) => Err(f),
                            Ok(false) => Ok((st.0.update(b, Some(a)), st.1.update(b, Some(s)), st.2.update(b, Some(law)), st.3.update(b, Some(None)))),
                            Ok(true) => match new_value(t, r, "affaiblissement"@) {
                                Err(f) => Err(f),
                                Ok(tl) => Ok((st.0.update(b, Some(a)), st.1.update(b, Some(s)), st.2.update(b, Some(law)), st.3.update(b, Some(Some(tl))))),
                            },
                        }
                    },
                }
            },
        }
    }
}

/// The bands after the element children `kids[..k]` of a material are read: a band row names
/// its band by its frequency (`name`); a row with none is skipped, one naming no band of
/// `bands` is not read.
pub open spec fn rows_upto(t: Seq<XmlNode>, kids: Seq<usize>, bands: Seq<u32>, k: int, st0: Bands) -> Result<Bands, MaterialFault>
    decreases k,
{
    if k <= 0 {
        Ok(st0)
    } else {
        match rows_upto(t, kids, bands, k - 1, st0) {
            Err(f) => Err(f),
            Ok(st) => {
                let r = kids[k - 1] as int;
                if !(0 <= r < t.len()) || !is_row(t[r]) {
                    Ok(st)
                } else {
                    match uint_attr(t[r], "name"@, u32::MAX as u64) {
                        None => Ok(st),
                        Some(freq) => match band_of(bands, freq as u32) {
                            None => Err(MaterialFault::Unsupported),
                            Some(b) => row_values(t, r, b, st),
                        },
                    }
                }
            },
        }
    }
}

/// No band read yet.
pub open spec fn no_bands(n: nat) -> Bands {
    (Seq::new(n, |i: int| None), Seq::new(n, |i: int| None), Seq::new(n, |i: int| None), Seq::new(n, |i: int| None))
}

/// Every band of `s` was read.
pub open spec fn all_read<T>(s: Seq<Option<T>>) -> bool {
    forall|b: int| 0 <= b < s.len() ==> #[trigger] s[b] is Some
}

/// Every law is one of upstream's seven.
pub open spec fn laws_known(s: Seq<Option<i64>>) -> bool {
    forall|b: int| 0 <= b < s.len() ==> 0 <= (#[trigger] s[b])->Some_0 <= 6
}

/// A colour channel of `mat_color`: its attribute trimmed and read as a byte, 128 without one.
pub open spec fn channel(p: Option<XmlNode>, a: Seq<char>) -> u8 {
    match p {
        Some(n) => match uint_attr(n, a, 255) {
            Some(v) => v as u8,
            None => 128,
        },
        None => 128,
    }
}

/// The `mat_color` property of the owner's `matcolor` child.
pub open spec fn color_prop(t: Seq<XmlNode>, owner: Option<usize>) -> Option<XmlNode> {
    match owner {
        None => None,
        Some(o) => match first_match(t, element_order(t, o as int), "matcolor"@, None) {
            None => None,
            Some(c) => match spec_prop(t, c as int, "mat_color"@) {
                Some(p) => Some(t[p as int]),
                None => None,
            },
        },
    }
}

/// Whether both sides reflect: the `side_material` choice of the owner's `property` child is 1
/// or absent; a fault when it is there and not an integer.
pub open spec fn sides_of(t: Seq<XmlNode>, owner: Option<usize>) -> Result<bool, MaterialFault> {
    match owner {
        None => Ok(true),
        Some(o) => match first_match(t, element_order(t, o as int), "property"@, None) {
            None => Ok(true),
            Some(p) => match prop_choice(t, p as int, "side_material"@) {
                Err(_) => Err(MaterialFault::Invalid),
                Ok(None) => Ok(true),
                Ok(Some(c)) => Ok(c == 1),
            },
        },
    }
}

/// The name of material `id` owned by `owner`: the owner's `name`, or `Material <id>` when it
/// has none or it is empty.
pub open spec fn material_name(t: Seq<XmlNode>, owner: Option<usize>, id: u32) -> Seq<char> {
    let own = match owner {
        Some(o) => match attr_of(t[o as int], "name"@) {
            Some(v) => v@,
            None => seq![],
        },
        None => seq![],
    };
    if own.len() == 0 {
        "Material "@ + crate::text::dec(id as nat)
    } else {
        own
    }
}

/// What the file says of material `m` (owned by `owner`) over `bands`: its `idmateriau` (a
/// fault without one), its band rows ([`rows_upto`]), every band read (a fault for the first
/// that is not: absorption, then scattering, then law), every law known, and its side.
pub open spec fn spec_material(t: Seq<XmlNode>, m: int, owner: Option<usize>, bands: Seq<u32>) -> Result<
    (u32, Bands, bool),
    MaterialFault,
> {
    match uint_attr(t[m], "idmateriau"@, u32::MAX as u64) {
        None => Err(MaterialFault::Invalid),
        Some(id) => {
            let kids = element_order(t, m);
            match rows_upto(t, kids, bands, kids.len() as int, no_bands(bands.len())) {
                Err(f) => Err(f),
                Ok(st) => if !all_read(st.0) || !all_read(st.1) || !all_read(st.2) {
                    Err(MaterialFault::Invalid)
                } else if !laws_known(st.2) {
                    Err(MaterialFault::LawOutOfRange)
                } else {
                    match sides_of(t, owner) {
                        Err(f) => Err(f),
                        Ok(d) => Ok((id as u32, st, d)),
                    }
                },
            }
        },
    }
}

/// A band's transmission loss, if it transmits.
pub open spec fn flat(o: Option<Option<Seq<char>>>) -> Option<Seq<char>> {
    match o {
        Some(Some(t)) => Some(t),
        _ => None,
    }
}

/// Some band transmits.
pub open spec fn transmits(s: Seq<Option<Option<Seq<char>>>>) -> bool {
    exists|b: int| 0 <= b < s.len() && (#[trigger] s[b]) matches Some(Some(_))
}

/// Texts as values.
pub open spec fn texts_of(v: Seq<String>) -> Seq<Seq<char>> {
    v.map_values(|x: String| x@)
}

/// Optional texts as values.
pub open spec fn opt_texts(v: Seq<Option<String>>) -> Seq<Option<Seq<char>>> {
    v.map_values(|x: Option<String>| match x {
        Some(s) => Some(s@),
        None => None,
    })
}

/// Optional optional texts as values.
pub open spec fn opt_opt_texts(v: Seq<Option<Option<String>>>) -> Seq<Option<Option<Seq<char>>>> {
    v.map_values(|x: Option<Option<String>>| match x {
        Some(Some(s)) => Some(Some(s@)),
        Some(None) => Some(None),
        None => None,
    })
}

/// [`old_value`].
fn old_value_of(n: &XmlNode, a: &str) -> (r: Result<Option<String>, MaterialFault>)
    ensures
        match (r, old_value(*n, a@)) {
            (Ok(Some(x)), Ok(Some(y))) => x@ == y,
            (Ok(None), Ok(None)) => true,
            (Err(f), Err(g)) => f == g,
            _ => false,
        },
{
    match attribute(n, a) {
        None => Ok(None),
        Some(v) => if number_text(v.as_str()) {
            Ok(Some(v))
        } else {
            Err(MaterialFault::Unreadable)
        },
    }
}

/// [`new_value`].
fn new_value_of(tree: &XmlTree, r: usize, a: &str) -> (res: Result<String, MaterialFault>)
    requires
        r < tree.nodes@.len(),
    ensures
        match (res, new_value(tree.nodes@, r as int, a@)) {
            (Ok(x), Ok(y)) => x@ == y,
            (Err(f), Err(g)) => f == g,
            _ => false,
        },
{
    match prop(tree, r, a) {
        None => Err(MaterialFault::Invalid),
        Some(p) => match attribute(&tree.nodes[p], "value") {
            None => Err(MaterialFault::Invalid),
            Some(v) => if number_text(v.as_str()) {
                Ok(v)
            } else {
                Err(MaterialFault::Invalid)
            },
        },
    }
}

/// [`switch_on`].
fn switch_on_of(tree: &XmlTree, r: usize) -> (res: Result<bool, MaterialFault>)
    requires
        r < tree.nodes@.len(),
    ensures
        match (res, switch_on(tree.nodes@, r as int)) {
            (Ok(x), Ok(y)) => x == y,
            (Err(f), Err(g)) => f == g,
            _ => false,
        },
{
    match prop(tree, r, "transmission") {
        None => Ok(false),
        Some(p) => {
            let text = match attribute(&tree.nodes[p], "value") {
                Some(v) => Some(v),
                None => attribute(&tree.nodes[p], "choice"),
            };
            match text {
                None => Err(MaterialFault::Invalid),
                Some(v) => {
                    let cs = chars_of(v.as_str());
                    match crate::chars::parse_int_of(trim_of(cs.as_slice())) {
                        Some(x) => Ok(x != 0),
                        None => Err(MaterialFault::Invalid),
                    }
                },
            }
        },
    }
}

/// The band state as values.
pub open spec fn bands_view(
    a: Seq<Option<String>>,
    s: Seq<Option<String>>,
    l: Seq<Option<i64>>,
    tl: Seq<Option<Option<String>>>,
) -> Bands {
    (opt_texts(a), opt_texts(s), l, opt_opt_texts(tl))
}

/// Reads row `r` of band `b` ([`row_values`]).
fn read_row(
    tree: &XmlTree,
    r: usize,
    b: usize,
    a: &mut Vec<Option<String>>,
    s: &mut Vec<Option<String>>,
    l: &mut Vec<Option<i64>>,
    tl: &mut Vec<Option<Option<String>>>,
) -> (res: Result<(), MaterialFault>)
    requires
        r < tree.nodes@.len(),
        b < old(a)@.len(),
        old(s)@.len() == old(a)@.len() && old(l)@.len() == old(a)@.len() && old(tl)@.len() == old(a)@.len(),
    ensures
        final(a)@.len() == old(a)@.len() && final(s)@.len() == old(a)@.len() && final(l)@.len() == old(a)@.len()
            && final(tl)@.len() == old(a)@.len(),
        match (res, row_values(tree.nodes@, r as int, b as int, bands_view(old(a)@, old(s)@, old(l)@, old(tl)@))) {
            (Ok(()), Ok(st)) => bands_view(final(a)@, final(s)@, final(l)@, final(tl)@) == st,
            (Err(f), Err(g)) => f == g,
            _ => false,
        },
{
    reveal(row_values);
    let ghost st = bands_view(a@, s@, l@, tl@);
    let n = &tree.nodes[r];
    if attribute(n, "absorb").is_some() {
        let av = match old_value_of(n, "absorb") {
            Err(f) => return Err(f),
            Ok(None) => return Err(MaterialFault::Unreadable),
            Ok(Some(x)) => x,
        };
        let sv = match old_value_of(n, "diffusion") {
            Err(f) => return Err(f),
            Ok(None) => return Err(MaterialFault::Unreadable),
            Ok(Some(x)) => x,
        };
        let loi = match attribute(n, "loi") {
            Some(v) => v,
            None => String::new(),
        };
        let law = match strtol_prefix(loi.as_str()) {
            None => return Err(MaterialFault::Unreadable),
            Some(x) => x,
        };
        let t = match old_value_of(n, "affaiblissement") {
            Err(f) => return Err(f),
            Ok(x) => x,
        };
        a.set(b, Some(av));
        s.set(b, Some(sv));
        l.set(b, Some(law));
        tl.set(b, Some(t));
        proof {
            assert(bands_view(a@, s@, l@, tl@).0 =~= st.0.update(b as int, Some(a@[b as int]->Some_0@)));
            assert(bands_view(a@, s@, l@, tl@).1 =~= st.1.update(b as int, Some(s@[b as int]->Some_0@)));
            assert(bands_view(a@, s@, l@, tl@).2 =~= st.2.update(b as int, Some(law)));
            assert(bands_view(a@, s@, l@, tl@).3 =~= st.3.update(b as int, opt_opt_texts(tl@)[b as int]));
        }
        Ok(())
    } else {
        let av = match new_value_of(tree, r, "absorb") {
            Err(f) => return Err(f),
            Ok(x) => x,
        };
        let sv = match new_value_of(tree, r, "diffusion") {
            Err(f) => return Err(f),
            Ok(x) => x,
        };
        let law = match opt_prop_choice(tree, r, "loi") {
            Err(_) => return Err(MaterialFault::Invalid),
            Ok(Some(x)) => x,
            Ok(None) => 0,
        };
        let on = match switch_on_of(tree, r) {
            Err(f) => return Err(f),
            Ok(x) => x,
        };
        let t = if on {
            match new_value_of(tree, r, "affaiblissement") {
                Err(f) => return Err(f),
                Ok(x) => Some(x),
            }
        } else {
            None
        };
        a.set(b, Some(av));
        s.set(b, Some(sv));
        l.set(b, Some(law));
        tl.set(b, Some(t));
        proof {
            assert(bands_view(a@, s@, l@, tl@).0 =~= st.0.update(b as int, Some(a@[b as int]->Some_0@)));
            assert(bands_view(a@, s@, l@, tl@).1 =~= st.1.update(b as int, Some(s@[b as int]->Some_0@)));
            assert(bands_view(a@, s@, l@, tl@).2 =~= st.2.update(b as int, Some(law)));
            assert(bands_view(a@, s@, l@, tl@).3 =~= st.3.update(b as int, opt_opt_texts(tl@)[b as int]));
        }
        Ok(())
    }
}

/// The first position of `freq` among `bands` ([`band_of`]).
fn band_index(bands: &Vec<u32>, freq: u32) -> (r: Option<usize>)
    ensures
        match band_of(bands@, freq) {
            Some(b) => r == Some(b as usize) && 0 <= b < bands@.len(),
            None => r is None,
        },
{
    proof {
        lemma_band_from(bands@, freq, 0);
    }
    let mut b: usize = 0;
    while b < bands.len()
        invariant
            b <= bands@.len(),
            band_of(bands@, freq) == band_from(bands@, freq, b as int),
        decreases bands@.len() - b,
    {
        if bands[b] == freq {
            return Some(b);
        }
        b = b + 1;
    }
    None
}

proof fn lemma_rows_err(t: Seq<XmlNode>, kids: Seq<usize>, bands: Seq<u32>, k: int, n: int, st0: Bands)
    requires
        0 <= k <= n,
        rows_upto(t, kids, bands, k, st0) is Err,
    ensures
        rows_upto(t, kids, bands, n, st0) == rows_upto(t, kids, bands, k, st0),
    decreases n - k,
{
    if k < n {
        lemma_rows_err(t, kids, bands, k, n - 1, st0);
    }
}

/// The error for `f`.
fn fault_error(f: MaterialFault) -> (r: ImportError)
    ensures
        fault_is(r, f),
{
    match f {
        MaterialFault::Invalid => ImportError::invalid(FMT_XML, "a material of the project database is malformed".to_owned()),
        MaterialFault::Unsupported => ImportError::Unsupported {
            format: FMT_XML,
            message: "a material row names a band the project does not have".to_owned(),
        },
        MaterialFault::Unreadable => ImportError::Refused {
            format: FMT_XML,
            reason: MATERIAL_ROW_UNREADABLE,
            message: "a material row holds a value upstream reads as unreadable".to_owned(),
        },
        MaterialFault::LawOutOfRange => ImportError::Refused {
            format: FMT_XML,
            reason: REFLECTION_LAW_OUT_OF_RANGE,
            message: "a reflection law is none of upstream's seven, 0 to 6".to_owned(),
        },
    }
}

/// The band rows of material `m` ([`rows_upto`] over all its element children).
#[verifier::rlimit(50)]
fn read_rows(tree: &XmlTree, m: usize, bands: &Vec<u32>) -> (r: Result<
    (Vec<Option<String>>, Vec<Option<String>>, Vec<Option<i64>>, Vec<Option<Option<String>>>),
    MaterialFault,
>)
    requires
        m < tree.nodes@.len(),
    ensures
        ({
            let kids = element_order(tree.nodes@, m as int);
            match (r, rows_upto(tree.nodes@, kids, bands@, kids.len() as int, no_bands(bands@.len()))) {
                (Ok(v), Ok(st)) => bands_view(v.0@, v.1@, v.2@, v.3@) == st && v.0@.len() == bands@.len() && v.1@.len()
                    == bands@.len() && v.2@.len() == bands@.len() && v.3@.len() == bands@.len(),
                (Err(f), Err(g)) => f == g,
                _ => false,
            }
        }),
{
    let ghost t = tree.nodes@;
    let n = bands.len();
    let mut a: Vec<Option<String>> = Vec::new();
    let mut sc: Vec<Option<String>> = Vec::new();
    let mut l: Vec<Option<i64>> = Vec::new();
    let mut tl: Vec<Option<Option<String>>> = Vec::new();
    let mut i: usize = 0;
    while i < n
        invariant
            i <= n,
            a@.len() == i && sc@.len() == i && l@.len() == i && tl@.len() == i,
            forall|j: int| 0 <= j < i ==> a@[j] is None && sc@[j] is None && l@[j] is None && tl@[j] is None,
        decreases n - i,
    {
        a.push(None);
        sc.push(None);
        l.push(None);
        tl.push(None);
        i = i + 1;
    }
    assert(bands_view(a@, sc@, l@, tl@) =~= no_bands(n as nat)) by {
        assert(opt_texts(a@) =~= Seq::new(n as nat, |i: int| None));
        assert(opt_texts(sc@) =~= Seq::new(n as nat, |i: int| None));
        assert(l@ =~= Seq::new(n as nat, |i: int| None));
        assert(opt_opt_texts(tl@) =~= Seq::new(n as nat, |i: int| None));
    }
    let kids = element_kids(tree, m);
    proof {
        lemma_elements_in(t, crate::xml::load_order(t, m as int));
        reveal_strlit("p");
        reveal_strlit("bfreq");
    }
    let mut k: usize = 0;
    while k < kids.len()
        invariant
            t == tree.nodes@,
            kids@ == element_order(t, m as int),
            forall|j: int| 0 <= j < kids@.len() ==> #[trigger] kids@[j] < t.len(),
            k <= kids@.len(),
            n == bands@.len(),
            a@.len() == n && sc@.len() == n && l@.len() == n && tl@.len() == n,
            rows_upto(t, kids@, bands@, k as int, no_bands(n as nat)) == Ok::<Bands, MaterialFault>(bands_view(a@, sc@, l@, tl@)),
        decreases kids@.len() - k,
    {
        let c = kids[k];
        let node = &tree.nodes[c];
        let row = crate::import::str_eq(node.tag.as_str(), "p") || (crate::import::str_eq(node.tag.as_str(), "bfreq")
            && element_type(node) == Some(EID_ROW_MATERIAU));
        assert(row == is_row(t[c as int]));
        let ghost st = bands_view(a@, sc@, l@, tl@);
        assert(kids@[k as int] == c);
        if row {
            match uint_attr_of(node, "name", 4294967295u64) {
                None => {},
                Some(freq) => match band_index(bands, freq as u32) {
                    None => {
                        proof {
                            lemma_rows_err(t, kids@, bands@, k + 1, kids@.len() as int, no_bands(n as nat));
                        }
                        return Err(MaterialFault::Unsupported);
                    },
                    Some(b) => {
                        assert(band_of(bands@, freq as u32) == Some(b as int));
                        assert(b < n);
                        assert(rows_upto(t, kids@, bands@, k + 1, no_bands(n as nat)) == row_values(t, c as int, b as int, st));
                        match read_row(tree, c, b, &mut a, &mut sc, &mut l, &mut tl) {
                            Err(f) => {
                                proof {
                                    lemma_rows_err(t, kids@, bands@, k + 1, kids@.len() as int, no_bands(n as nat));
                                }
                                return Err(f);
                            },
                            Ok(()) => {},
                        }
                    },
                },
            }
        }
        k = k + 1;
    }
    Ok((a, sc, l, tl))
}

/// The values of every band, when every band was read: absorption, scattering and law.
fn all_bands(a: &Vec<Option<String>>, sc: &Vec<Option<String>>, l: &Vec<Option<i64>>) -> (r: Option<
    (Vec<String>, Vec<String>, Vec<i64>),
>)
    requires
        sc@.len() == a@.len() && l@.len() == a@.len(),
    ensures
        match r {
            None => !all_read(opt_texts(a@)) || !all_read(opt_texts(sc@)) || !all_read(l@),
            Some(v) => all_read(opt_texts(a@)) && all_read(opt_texts(sc@)) && all_read(l@) && texts_of(v.0@)
                == opt_texts(a@).map_values(|o: Option<Seq<char>>| o->Some_0) && texts_of(v.1@) == opt_texts(sc@).map_values(
                |o: Option<Seq<char>>| o->Some_0,
            ) && v.2@ == l@.map_values(|o: Option<i64>| o->Some_0),
        },
{
    let n = a.len();
    let mut x: Vec<String> = Vec::new();
    let mut y: Vec<String> = Vec::new();
    let mut z: Vec<i64> = Vec::new();
    let mut b: usize = 0;
    while b < n
        invariant
            b <= n,
            a@.len() == n && sc@.len() == n && l@.len() == n,
            x@.len() == b && y@.len() == b && z@.len() == b,
            forall|j: int| 0 <= j < b ==> a@[j] is Some && sc@[j] is Some && l@[j] is Some,
            forall|j: int| 0 <= j < b ==> (#[trigger] x@[j])@ == a@[j]->Some_0@,
            forall|j: int| 0 <= j < b ==> (#[trigger] y@[j])@ == sc@[j]->Some_0@,
            forall|j: int| 0 <= j < b ==> #[trigger] z@[j] == l@[j]->Some_0,
        decreases n - b,
    {
        match (&a[b], &sc[b], &l[b]) {
            (Some(p), Some(q), Some(w)) => {
                x.push(p.clone());
                y.push(q.clone());
                z.push(*w);
            },
            _ => {
                proof {
                    if a@[b as int] is None {
                        assert(opt_texts(a@)[b as int] is None);
                    } else if sc@[b as int] is None {
                        assert(opt_texts(sc@)[b as int] is None);
                    } else {
                        assert(l@[b as int] is None);
                    }
                }
                return None;
            },
        }
        b = b + 1;
    }
    assert(texts_of(x@) =~= opt_texts(a@).map_values(|o: Option<Seq<char>>| o->Some_0));
    assert(texts_of(y@) =~= opt_texts(sc@).map_values(|o: Option<Seq<char>>| o->Some_0));
    assert(z@ =~= l@.map_values(|o: Option<i64>| o->Some_0));
    Some((x, y, z))
}

/// The laws as bytes, when each is one of upstream's seven.
fn law_bytes(l: &Vec<i64>) -> (r: Option<Vec<u8>>)
    ensures
        match r {
            None => exists|b: int| 0 <= b < l@.len() && !(0 <= #[trigger] l@[b] <= 6),
            Some(v) => (forall|b: int| 0 <= b < l@.len() ==> 0 <= #[trigger] l@[b] <= 6) && v@ == l@.map_values(
                |x: i64| x as u8,
            ),
        },
{
    let mut v: Vec<u8> = Vec::new();
    let mut b: usize = 0;
    while b < l.len()
        invariant
            b <= l@.len(),
            v@.len() == b,
            forall|j: int| 0 <= j < b ==> 0 <= #[trigger] l@[j] <= 6 && v@[j] == l@[j] as u8,
        decreases l@.len() - b,
    {
        if l[b] < 0 || l[b] > 6 {
            return None;
        }
        v.push(l[b] as u8);
        b = b + 1;
    }
    assert(v@ =~= l@.map_values(|x: i64| x as u8));
    Some(v)
}

/// The transmission losses by band ([`flat`]), and whether some band transmits.
fn losses_of(tl: &Vec<Option<Option<String>>>) -> (r: (Vec<Option<String>>, bool))
    ensures
        opt_texts(r.0@) == opt_opt_texts(tl@).map_values(|o: Option<Option<Seq<char>>>| flat(o)),
        r.1 == transmits(opt_opt_texts(tl@)),
{
    let ghost st = opt_opt_texts(tl@);
    let mut v: Vec<Option<String>> = Vec::new();
    let mut any = false;
    let mut b: usize = 0;
    while b < tl.len()
        invariant
            b <= tl@.len(),
            st == opt_opt_texts(tl@),
            v@.len() == b,
            forall|j: int| 0 <= j < b ==> #[trigger] opt_texts(v@)[j] == flat(st[j]),
            any == exists|j: int| 0 <= j < b && (#[trigger] st[j]) matches Some(Some(_)),
        decreases tl@.len() - b,
    {
        let x = match &tl[b] {
            Some(Some(s)) => Some(s.clone()),
            _ => None,
        };
        let some = x.is_some();
        let ghost v0 = v@;
        v.push(x);
        proof {
            assert(opt_texts(v@)[b as int] == flat(st[b as int]));
            assert forall|j: int| 0 <= j < b implies #[trigger] opt_texts(v@)[j] == flat(st[j]) by {
                assert(opt_texts(v@)[j] == opt_texts(v0)[j]);
            }
        }
        if some {
            any = true;
            assert(st[b as int] matches Some(Some(_)));
        } else {
            proof {
                if exists|j: int| 0 <= j < b + 1 && (#[trigger] st[j]) matches Some(Some(_)) {
                    let j = choose|j: int| 0 <= j < b + 1 && (#[trigger] st[j]) matches Some(Some(_));
                    assert(j < b);
                }
            }
        }
        b = b + 1;
    }
    assert(opt_texts(v@) =~= st.map_values(|o: Option<Option<Seq<char>>>| flat(o)));
    (v, any)
}

/// `x` holds what was found of a material owned by `owner` ([`spec_material`]): its band values as
/// their texts, its laws as bytes, its transmission losses ([`flat`]) only when some band
/// transmits, its name ([`material_name`]) and colour ([`channel`] of [`color_prop`]).
pub open spec fn material_is(x: MaterialText, t: Seq<XmlNode>, owner: Option<usize>, found: (u32, Bands, bool)) -> bool {
    let (id, st, d) = found;
    let cp = color_prop(t, owner);
    &&& x.solver_id == id
    &&& x.name@ == material_name(t, owner, id)
    &&& x.color == (channel(cp, "r"@), channel(cp, "g"@), channel(cp, "b"@))
    &&& texts_of(x.absorption@) == st.0.map_values(|o: Option<Seq<char>>| o->Some_0)
    &&& texts_of(x.scattering@) == st.1.map_values(|o: Option<Seq<char>>| o->Some_0)
    &&& x.laws@ == st.2.map_values(|o: Option<i64>| o->Some_0 as u8)
    &&& match x.transmission_loss {
        None => !transmits(st.3),
        Some(v) => transmits(st.3) && opt_texts(v@) == st.3.map_values(|o: Option<Option<Seq<char>>>| flat(o)),
    }
    &&& x.double_sided == d
}

/// [`sides_of`].
fn sides_of_exec(tree: &XmlTree, owner: Option<usize>) -> (r: Result<bool, MaterialFault>)
    requires
        owner matches Some(o) ==> o < tree.nodes@.len(),
    ensures
        match (r, sides_of(tree.nodes@, owner)) {
            (Ok(x), Ok(y)) => x == y,
            (Err(f), Err(g)) => f == g,
            _ => false,
        },
{
    match owner {
        None => Ok(true),
        Some(o) => {
            let fp = find_child(tree, o, "property", None);
            proof {
                lemma_first_match_in(tree.nodes@, element_order(tree.nodes@, o as int), "property"@, None);
            }
            match fp {
                None => Ok(true),
                Some(p) => match opt_prop_choice(tree, p, "side_material") {
                    Err(_) => Err(MaterialFault::Invalid),
                    Ok(None) => Ok(true),
                    Ok(Some(c)) => Ok(c == 1),
                },
            }
        },
    }
}

/// A colour channel ([`channel`]).
fn channel_of(tree: &XmlTree, p: Option<usize>, name: &str) -> (r: u8)
    requires
        p matches Some(i) ==> i < tree.nodes@.len(),
    ensures
        r == channel(
            match p {
                Some(i) => Some(tree.nodes@[i as int]),
                None => None,
            },
            name@,
        ),
{
    match p {
        Some(i) => match uint_attr_of(&tree.nodes[i], name, 255) {
            Some(v) => v as u8,
            None => 128,
        },
        None => 128,
    }
}

/// The colour ([`channel`] of [`color_prop`]).
fn color_of(tree: &XmlTree, owner: Option<usize>) -> (r: (u8, u8, u8))
    requires
        owner matches Some(o) ==> o < tree.nodes@.len(),
    ensures
        ({
            let cp = color_prop(tree.nodes@, owner);
            r == (channel(cp, "r"@), channel(cp, "g"@), channel(cp, "b"@))
        }),
{
    let cp: Option<usize> = match owner {
        None => None,
        Some(o) => {
            let fc = find_child(tree, o, "matcolor", None);
            proof {
                lemma_first_match_in(tree.nodes@, element_order(tree.nodes@, o as int), "matcolor"@, None);
            }
            match fc {
                None => None,
                Some(c) => prop(tree, c, "mat_color"),
            }
        },
    };
    (channel_of(tree, cp, "r"), channel_of(tree, cp, "g"), channel_of(tree, cp, "b"))
}

/// [`material_name`].
fn material_name_of(tree: &XmlTree, owner: Option<usize>, id: u32) -> (r: String)
    requires
        owner matches Some(o) ==> o < tree.nodes@.len(),
    ensures
        r@ == material_name(tree.nodes@, owner, id),
{
    let own = match owner {
        Some(o) => match attribute(&tree.nodes[o], "name") {
            Some(v) => v,
            None => String::new(),
        },
        None => String::new(),
    };
    proof {
        reveal_strlit("");
        reveal_strlit("Material ");
        assert(own@.len() == 0 ==> own@ =~= ""@);
    }
    if crate::import::str_eq(own.as_str(), "") {
        let x = crate::text::message_u64("Material ", id as u64, "");
        assert(x@ =~= "Material "@ + crate::text::dec(id as nat));
        x
    } else {
        own
    }
}

/// Reads material `m` of the project database, owned by `owner` (the element that holds it),
/// over the project's `bands` (their frequencies in Hz): what [`spec_material`] finds, its band
/// values as their texts, its laws as bytes, its transmission losses ([`flat`]) only when some
/// band transmits, its name ([`material_name`]) and colour ([`channel`] of [`color_prop`]).
pub fn read_material(tree: &XmlTree, m: usize, owner: Option<usize>, bands: &Vec<u32>) -> (r: Result<
    MaterialText,
    ImportError,
>)
    requires
        m < tree.nodes@.len(),
        owner matches Some(o) ==> o < tree.nodes@.len(),
    ensures
        match (r, spec_material(tree.nodes@, m as int, owner, bands@)) {
            (Ok(x), Ok(found)) => material_is(x, tree.nodes@, owner, found),
            (Err(e), Err(f)) => fault_is(e, f),
            _ => false,
        },
{
    let id = match uint_attr_of(&tree.nodes[m], "idmateriau", 4294967295u64) {
        None => return Err(fault_error(MaterialFault::Invalid)),
        Some(x) => x as u32,
    };
    let (a, sc, l, tl) = match read_rows(tree, m, bands) {
        Err(f) => return Err(fault_error(f)),
        Ok(v) => v,
    };
    let (absorption, scattering, laws_i) = match all_bands(&a, &sc, &l) {
        None => return Err(fault_error(MaterialFault::Invalid)),
        Some(v) => v,
    };
    let laws = match law_bytes(&laws_i) {
        None => {
            proof {
                let b = choose|b: int| 0 <= b < laws_i@.len() && !(0 <= #[trigger] laws_i@[b] <= 6);
                assert(laws_i@[b] == l@[b]->Some_0);
            }
            return Err(fault_error(MaterialFault::LawOutOfRange));
        },
        Some(v) => v,
    };
    proof {
        assert(laws_known(l@)) by {
            assert forall|b: int| 0 <= b < l@.len() implies 0 <= (#[trigger] l@[b])->Some_0 <= 6 by {
                assert(laws_i@[b] == l@[b]->Some_0);
            }
        }
        assert(laws@ =~= l@.map_values(|o: Option<i64>| o->Some_0 as u8));
    }
    let double_sided = match sides_of_exec(tree, owner) {
        Err(f) => return Err(fault_error(f)),
        Ok(d) => d,
    };
    let color = color_of(tree, owner);
    let name = material_name_of(tree, owner, id);
    let (losses, any) = losses_of(&tl);
    let transmission_loss = if any {
        Some(losses)
    } else {
        None
    };
    Ok(MaterialText { solver_id: id, name, color, absorption, scattering, laws, transmission_loss, double_sided })
}

// ---------------------------------------------------------------------------------------------
// The material database
// ---------------------------------------------------------------------------------------------
/// Every element below the elements `kids` (the children of `parent`), each before those below
/// it, depth first, each level in load order, with the element that holds it. `depth` bounds
/// the levels followed; a walk of a tree is given its size, which no tree's depth reaches.
pub open spec fn elements_below(t: Seq<XmlNode>, kids: Seq<usize>, parent: usize, depth: nat) -> Seq<(usize, usize)>
    decreases depth, kids.len(),
{
    if kids.len() == 0 {
        seq![]
    } else {
        let c = kids[0];
        let below = if depth == 0 || c >= t.len() {
            seq![]
        } else {
            elements_below(t, element_order(t, c as int), c, (depth - 1) as nat)
        };
        seq![(c, parent)] + below + elements_below(t, kids.drop_first(), parent, depth)
    }
}

/// The elements below `kids` ([`elements_below`]), appended to `out`.
fn walk_below(tree: &XmlTree, kids: &Vec<usize>, parent: usize, depth: usize, out: &mut Vec<(usize, usize)>)
    requires
        forall|k: int| 0 <= k < kids@.len() ==> #[trigger] kids@[k] < tree.nodes@.len(),
    ensures
        final(out)@ == old(out)@ + elements_below(tree.nodes@, kids@, parent, depth as nat),
    decreases depth,
{
    let ghost t = tree.nodes@;
    let ghost start = out@;
    let ghost mut acc: Seq<(usize, usize)> = seq![];
    let mut k: usize = 0;
    assert(kids@.skip(0) =~= kids@);
    while k < kids.len()
        invariant
            t == tree.nodes@,
            forall|j: int| 0 <= j < kids@.len() ==> #[trigger] kids@[j] < t.len(),
            k <= kids@.len(),
            elements_below(t, kids@, parent, depth as nat) == acc + elements_below(t, kids@.skip(k as int), parent, depth as nat),
            out@ == start + acc,
        decreases kids@.len() - k,
    {
        let c = kids[k];
        let ghost rest = kids@.skip(k as int);
        assert(rest[0] == c);
        assert(rest.drop_first() =~= kids@.skip(k + 1));
        let ghost o0 = out@;
        out.push((c, parent));
        if depth > 0 {
            let inner = element_kids(tree, c);
            proof {
                crate::props::lemma_elements_in(t, crate::xml::load_order(t, c as int));
            }
            walk_below(tree, &inner, c, depth - 1, out);
        }
        proof {
            let below = if depth == 0 {
                seq![]
            } else {
                elements_below(t, element_order(t, c as int), c, (depth - 1) as nat)
            };
            assert(out@ =~= o0 + (seq![(c, parent)] + below));
            let tail = elements_below(t, kids@.skip(k + 1), parent, depth as nat);
            assert(acc + (seq![(c, parent)] + below + tail) =~= (acc + (seq![(c, parent)] + below)) + tail);
            acc = acc + (seq![(c, parent)] + below);
        }
        k = k + 1;
    }
    proof {
        assert(kids@.skip(k as int).len() == 0);
        assert(acc + seq![] =~= acc);
    }
}

/// Why the material database is not read.
pub enum DbFault {
    /// A material is not read.
    Material(MaterialFault),
    /// Two materials have one id.
    Duplicate,
}

/// A `materiau` element.
pub open spec fn is_materiau(t: Seq<XmlNode>, m: usize) -> bool {
    m < t.len() && t[m as int].tag@ == "materiau"@
}

/// The materials among the first `k` of the walk `s` (element, holder), in order.
pub open spec fn materials_upto(t: Seq<XmlNode>, s: Seq<(usize, usize)>, k: int) -> Seq<(usize, usize)>
    decreases k,
{
    if k <= 0 {
        seq![]
    } else if is_materiau(t, s[k - 1].0) {
        materials_upto(t, s, k - 1).push(s[k - 1])
    } else {
        materials_upto(t, s, k - 1)
    }
}

/// The ids of the materials among the first `k` of the walk `s`, each read over `bands`
/// ([`spec_material`], owned by its holder); the first that is not read, or whose id an earlier
/// one has, is a fault.
pub open spec fn db_upto(t: Seq<XmlNode>, s: Seq<(usize, usize)>, bands: Seq<u32>, k: int) -> Result<Seq<u32>, DbFault>
    decreases k,
{
    if k <= 0 {
        Ok(seq![])
    } else {
        match db_upto(t, s, bands, k - 1) {
            Err(e) => Err(e),
            Ok(ids) => {
                let (m, o) = s[k - 1];
                if !is_materiau(t, m) {
                    Ok(ids)
                } else {
                    match spec_material(t, m as int, Some(o), bands) {
                        Err(f) => Err(DbFault::Material(f)),
                        Ok(found) => if ids.contains(found.0) {
                            Err(DbFault::Duplicate)
                        } else {
                            Ok(ids.push(found.0))
                        },
                    }
                }
            },
        }
    }
}

proof fn lemma_db_err(t: Seq<XmlNode>, s: Seq<(usize, usize)>, bands: Seq<u32>, k: int, n: int)
    requires
        0 <= k <= n,
        db_upto(t, s, bands, k) is Err,
    ensures
        db_upto(t, s, bands, n) == db_upto(t, s, bands, k),
    decreases n - k,
{
    if k < n {
        lemma_db_err(t, s, bands, k, n - 1);
    }
}

/// Whether one of `out` has material id `id`.
fn has_id(out: &Vec<(usize, usize, MaterialText)>, id: u32) -> (r: bool)
    ensures
        r == out@.map_values(|x: (usize, usize, MaterialText)| x.2.solver_id).contains(id),
{
    let ghost ids = out@.map_values(|x: (usize, usize, MaterialText)| x.2.solver_id);
    let mut j: usize = 0;
    while j < out.len()
        invariant
            j <= out@.len(),
            ids == out@.map_values(|x: (usize, usize, MaterialText)| x.2.solver_id),
            forall|q: int| 0 <= q < j ==> ids[q] != id,
        decreases out@.len() - j,
    {
        assert(ids[j as int] == out@[j as int].2.solver_id);
        if out[j].2.solver_id == id {
            return true;
        }
        j = j + 1;
    }
    false
}

proof fn lemma_below_holders(t: Seq<XmlNode>, kids: Seq<usize>, parent: usize, depth: nat)
    requires
        parent < t.len(),
        forall|k: int| 0 <= k < kids.len() ==> #[trigger] kids[k] < t.len(),
    ensures
        forall|j: int|
            0 <= j < elements_below(t, kids, parent, depth).len() ==> (#[trigger] elements_below(t, kids, parent, depth)[j]).1
                < t.len(),
    decreases depth, kids.len(),
{
    if kids.len() > 0 {
        let c = kids[0];
        let below = if depth == 0 || c >= t.len() {
            seq![]
        } else {
            elements_below(t, element_order(t, c as int), c, (depth - 1) as nat)
        };
        if !(depth == 0 || c >= t.len()) {
            crate::props::lemma_elements_in(t, crate::xml::load_order(t, c as int));
            lemma_below_holders(t, element_order(t, c as int), c, (depth - 1) as nat);
        }
        assert forall|k: int| 0 <= k < kids.drop_first().len() implies #[trigger] kids.drop_first()[k] < t.len() by {
            assert(kids.drop_first()[k] == kids[k + 1]);
        }
        lemma_below_holders(t, kids.drop_first(), parent, depth);
        let rest = elements_below(t, kids.drop_first(), parent, depth);
        let all = seq![(c, parent)] + below + rest;
        assert forall|j: int| 0 <= j < all.len() implies (#[trigger] all[j]).1 < t.len() by {
            if j == 0 {
            } else if j < 1 + below.len() {
                assert(all[j] == below[j - 1]);
            } else {
                assert(all[j] == rest[j - 1 - below.len()]);
            }
        }
    }
}

/// `x` is its element's material as read over `bands`, owned by its holder.
pub open spec fn read_as(t: Seq<XmlNode>, x: (usize, usize, MaterialText), bands: Seq<u32>) -> bool {
    spec_material(t, x.0 as int, Some(x.1), bands) matches Ok(found) && material_is(x.2, t, Some(x.1), found)
}

/// Reads every material of the database element `mats` (`bdd/materiaux`): each `materiau` below
/// it, depth first in load order ([`elements_below`], [`materials_upto`]), owned by the element
/// that holds it ([`read_material`]); two with one id are refused as invalid. Each comes with
/// its element and its holder.
#[verifier::rlimit(50)]
pub fn read_materials(tree: &XmlTree, mats: usize, bands: &Vec<u32>) -> (r: Result<Vec<(usize, usize, MaterialText)>, ImportError>)
    requires
        mats < tree.nodes@.len(),
    ensures
        ({
            let t = tree.nodes@;
            let s = elements_below(t, element_order(t, mats as int), mats, t.len());
            match (r, db_upto(t, s, bands@, s.len() as int)) {
                (Ok(v), Ok(ids)) => {
                    &&& v@.map_values(|x: (usize, usize, MaterialText)| (x.0, x.1)) == materials_upto(t, s, s.len() as int)
                    &&& v@.map_values(|x: (usize, usize, MaterialText)| x.2.solver_id) == ids
                    &&& forall|k: int| 0 <= k < v@.len() ==> read_as(t, #[trigger] v@[k], bands@)
                },
                (Err(e), Err(DbFault::Material(f))) => fault_is(e, f),
                (Err(e), Err(DbFault::Duplicate)) => is_invalid(e, FMT_XML),
                _ => false,
            }
        }),
{
    let ghost t = tree.nodes@;
    let kids = element_kids(tree, mats);
    proof {
        crate::props::lemma_elements_in(t, crate::xml::load_order(t, mats as int));
    }
    let mut s: Vec<(usize, usize)> = Vec::new();
    walk_below(tree, &kids, mats, tree.nodes.len(), &mut s);
    assert(s@ =~= elements_below(t, element_order(t, mats as int), mats, t.len()));
    proof {
        lemma_below_holders(t, element_order(t, mats as int), mats, t.len());
    }
    let mut out: Vec<(usize, usize, MaterialText)> = Vec::new();
    let ghost mut ids: Seq<u32> = seq![];
    let mut k: usize = 0;
    proof {
        reveal_strlit("materiau");
    }
    while k < s.len()
        invariant
            t == tree.nodes@,
            k <= s@.len(),
            db_upto(t, s@, bands@, k as int) == Ok::<Seq<u32>, DbFault>(ids),
            s@ == elements_below(t, element_order(t, mats as int), mats, t.len()),
            out@.map_values(|x: (usize, usize, MaterialText)| (x.0, x.1)) == materials_upto(t, s@, k as int),
            out@.map_values(|x: (usize, usize, MaterialText)| x.2.solver_id) == ids,
            forall|j: int| 0 <= j < out@.len() ==> read_as(t, #[trigger] out@[j], bands@),
            forall|j: int| 0 <= j < out@.len() ==> (#[trigger] out@[j]).0 < t.len() && out@[j].1 < t.len(),
            forall|j: int| 0 <= j < s@.len() ==> (#[trigger] s@[j]).1 < t.len(),
        decreases s@.len() - k,
    {
        let (m, o) = s[k];
        assert(s@[k as int] == (m, o));
        if m < tree.nodes.len() && crate::import::str_eq(tree.nodes[m].tag.as_str(), "materiau") {
            match read_material(tree, m, Some(o), bands) {
                Err(e) => {
                    proof {
                        lemma_db_err(t, s@, bands@, k + 1, s@.len() as int);
                    }
                    return Err(e);
                },
                Ok(x) => {
                    let dup = has_id(&out, x.solver_id);
                    if dup {
                        proof {
                            lemma_db_err(t, s@, bands@, k + 1, s@.len() as int);
                        }
                        return Err(ImportError::invalid(FMT_XML, "two materials of the project database have one id".to_owned()));
                    }
                    let ghost o0 = out@;
                    out.push((m, o, x));
                    proof {
                        ids = ids.push(out@[out@.len() - 1].2.solver_id);
                        assert(out@.map_values(|x: (usize, usize, MaterialText)| (x.0, x.1)) =~= o0.map_values(
                            |x: (usize, usize, MaterialText)| (x.0, x.1),
                        ).push((m, o)));
                        assert(out@.map_values(|x: (usize, usize, MaterialText)| x.2.solver_id) =~= o0.map_values(
                            |x: (usize, usize, MaterialText)| x.2.solver_id,
                        ).push(out@[out@.len() - 1].2.solver_id));
                        assert forall|j: int| 0 <= j < out@.len() implies read_as(t, #[trigger] out@[j], bands@) by {
                            if j < o0.len() {
                                assert(out@[j] == o0[j]);
                            }
                        }
                    }
                },
            }
        }
        k = k + 1;
    }
    Ok(out)
}

} // verus!
