//! Placing the face-connected components in one another. A ray cast from each component (on
//! coordinates, by the caller) gives the side node facing out of it, its exit, and, for each other
//! component it meets, the side node of the first face it hits there that faces back along the
//! ray. A component lies inside another when that node is not in the other's outward class; it
//! is placed in the one it lies inside that the most others enclose, and joined to the exterior
//! when none encloses it.
use crate::cells::{joined_all, together, Sides, UnionFind};
use crate::census::count_where;
use vstd::prelude::*;

verus! {

/// What a ray cast from a component found: the side node facing out of the component, and for
/// each other component it met, in the order met, that component and the side node facing the
/// ray's start.
pub struct Ray {
    pub exit: u32,
    pub first: Vec<(u32, u32)>,
}

/// The representative of component `c`'s outward side, when its ray was cast.
pub open spec fn out_root(uf: UnionFind, rays: Seq<Option<Ray>>, c: int) -> Option<int> {
    match rays[c] {
        Some(ray) => Some(uf.root(ray.exit as int)),
        None => None,
    }
}

/// Component `j`, met through side node `node`, encloses the ray's start: its ray was cast, and
/// `node` is not on its outward side.
pub open spec fn encloses(uf: UnionFind, rays: Seq<Option<Ray>>, j: u32, node: u32) -> bool {
    &&& j < rays.len()
    &&& out_root(uf, rays, j as int) matches Some(o) && uf.root(node as int) != o
}

/// The components enclosing component `c`, each with the node its ray met, in the order met.
pub open spec fn enclosing_upto(uf: UnionFind, rays: Seq<Option<Ray>>, first: Seq<(u32, u32)>, n: int) -> Seq<(u32, u32)>
    decreases n,
{
    if n <= 0 {
        seq![]
    } else {
        let before = enclosing_upto(uf, rays, first, n - 1);
        if encloses(uf, rays, first[n - 1].0, first[n - 1].1) {
            before.push(first[n - 1])
        } else {
            before
        }
    }
}

/// The components enclosing component `c` ([`enclosing_upto`]); none when its ray failed.
pub open spec fn enclosing(uf: UnionFind, rays: Seq<Option<Ray>>, c: int) -> Seq<(u32, u32)> {
    match rays[c] {
        Some(ray) => enclosing_upto(uf, rays, ray.first@, ray.first@.len() as int),
        None => seq![],
    }
}

/// How many components enclose component `j`.
pub open spec fn nesting(uf: UnionFind, rays: Seq<Option<Ray>>, j: int) -> int {
    if 0 <= j < rays.len() {
        enclosing(uf, rays, j).len() as int
    } else {
        0
    }
}

/// `a` goes before `b`: more components enclose it, or as many and it comes first.
pub open spec fn better(uf: UnionFind, rays: Seq<Option<Ray>>, a: (u32, u32), b: (u32, u32)) -> bool {
    nesting(uf, rays, a.0 as int) > nesting(uf, rays, b.0 as int) || (nesting(uf, rays, a.0 as int)
        == nesting(uf, rays, b.0 as int) && a.0 <= b.0)
}

/// The candidate the placement takes among `s`: the one that the most components enclose, the
/// first component of those.
pub open spec fn best(uf: UnionFind, rays: Seq<Option<Ray>>, s: Seq<(u32, u32)>) -> Option<(u32, u32)>
    decreases s.len(),
{
    if s.len() == 0 {
        None
    } else {
        match best(uf, rays, s.drop_last()) {
            None => Some(s.last()),
            Some(b) => if better(uf, rays, b, s.last()) {
                Some(b)
            } else {
                Some(s.last())
            },
        }
    }
}

/// How many of `s` as many components enclose as enclose `top`.
pub open spec fn tied_with(uf: UnionFind, rays: Seq<Option<Ray>>, s: Seq<(u32, u32)>, top: int) -> nat
    decreases s.len(),
{
    if s.len() == 0 {
        0
    } else {
        tied_with(uf, rays, s.drop_last(), top) + if nesting(uf, rays, s.last().0 as int) == top {
            1nat
        } else {
            0nat
        }
    }
}

/// Component `c`'s placement is ambiguous: its ray was cast, and two candidates share the
/// largest nesting.
pub open spec fn ambiguous_at(uf: UnionFind, rays: Seq<Option<Ray>>, c: int) -> bool {
    &&& rays[c] is Some
    &&& best(uf, rays, enclosing(uf, rays, c)) matches Some(b) && tied_with(
        uf,
        rays,
        enclosing(uf, rays, c),
        nesting(uf, rays, b.0 as int),
    ) >= 2
}

/// What component `c` is joined with: its outward side (its exit, or its seed face's front when
/// its ray failed) with the candidate's node, or with the exterior.
pub open spec fn place_pair(uf: UnionFind, rays: Seq<Option<Ray>>, seeds: Seq<u32>, ext: u32, c: int) -> (int, int) {
    let own = match rays[c] {
        Some(ray) => ray.exit as int,
        None => 2 * seeds[c],
    };
    match best(uf, rays, enclosing(uf, rays, c)) {
        Some(b) => (own, b.1 as int),
        None => (own, ext as int),
    }
}

/// The joins of every component, in component order.
pub open spec fn place_pairs(uf: UnionFind, rays: Seq<Option<Ray>>, seeds: Seq<u32>, ext: u32) -> Seq<(int, int)> {
    Seq::new(rays.len(), |c: int| place_pair(uf, rays, seeds, ext, c))
}

/// The nodes the rays name are side nodes.
pub open spec fn rays_in(rays: Seq<Option<Ray>>, len: nat) -> bool {
    forall|c: int|
        0 <= c < rays.len() ==> match #[trigger] rays[c] {
            Some(ray) => ray.exit < len && forall|k: int| 0 <= k < ray.first@.len() ==> (#[trigger] ray.first@[k]).1 < len,
            None => true,
        }
}

/// The components enclosing one, in the order its ray met them ([`enclosing_upto`]).
fn enclosing_of(
    uf: &mut UnionFind,
    rays: &Vec<Option<Ray>>,
    outs: &Vec<Option<u32>>,
    ray: &Ray,
    Ghost(u0): Ghost<UnionFind>,
) -> (r: Vec<(u32, u32)>)
    requires
        old(uf).wf(),
        old(uf).len() == u0.len(),
        forall|y: int| 0 <= y < u0.len() ==> #[trigger] old(uf).root(y) == u0.root(y),
        outs@.len() == rays@.len(),
        forall|j: int| 0 <= j < rays@.len() ==> #[trigger] outs@[j] == match out_root(u0, rays@, j) {
            Some(o) => Some(o as u32),
            None => None,
        },
        forall|j: int| 0 <= j < rays@.len() ==> (#[trigger] out_root(u0, rays@, j) matches Some(o) ==> 0 <= o <= u32::MAX),
        forall|k: int| 0 <= k < ray.first@.len() ==> (#[trigger] ray.first@[k]).1 < u0.len(),
    ensures
        final(uf).wf(),
        final(uf).len() == u0.len(),
        forall|y: int| 0 <= y < u0.len() ==> #[trigger] final(uf).root(y) == u0.root(y),
        r@ == enclosing_upto(u0, rays@, ray.first@, ray.first@.len() as int),
{
    let mut out: Vec<(u32, u32)> = Vec::new();
    let mut k: usize = 0;
    while k < ray.first.len()
        invariant
            uf.wf(),
            uf.len() == u0.len(),
            forall|y: int| 0 <= y < u0.len() ==> #[trigger] uf.root(y) == u0.root(y),
            k <= ray.first@.len(),
            outs@.len() == rays@.len(),
            forall|j: int| 0 <= j < rays@.len() ==> #[trigger] outs@[j] == match out_root(u0, rays@, j) {
                Some(o) => Some(o as u32),
                None => None,
            },
            forall|j: int| 0 <= j < rays@.len() ==> (#[trigger] out_root(u0, rays@, j) matches Some(o) ==> 0 <= o <= u32::MAX),
            forall|q: int| 0 <= q < ray.first@.len() ==> (#[trigger] ray.first@[q]).1 < u0.len(),
            out@ == enclosing_upto(u0, rays@, ray.first@, k as int),
        decreases ray.first@.len() - k,
    {
        let (j, node) = ray.first[k];
        let ghost pk = ray.first@[k as int];
        assert(pk.1 < u0.len());
        if (j as usize) < outs.len() {
            match outs[j as usize] {
                Some(o) => {
                    let rn = uf.find(node);
                    assert(rn == u0.root(node as int));
                    if rn != o {
                        out.push((j, node));
                    }
                },
                None => {},
            }
        }
        k = k + 1;
    }
    out
}

/// The candidate of `s` ([`best`]), and how many of `s` share its nesting ([`tied_with`]).
fn pick(s: &Vec<(u32, u32)>, nest: &Vec<usize>, Ghost(uf): Ghost<UnionFind>, Ghost(rays): Ghost<Seq<Option<Ray>>>) -> (r: (
    Option<(u32, u32)>,
    bool,
))
    requires
        nest@.len() == rays.len(),
        forall|j: int| 0 <= j < rays.len() ==> #[trigger] nest@[j] == nesting(uf, rays, j),
    ensures
        r.0 == best(uf, rays, s@),
        r.1 == (best(uf, rays, s@) matches Some(b) && tied_with(uf, rays, s@, nesting(uf, rays, b.0 as int)) >= 2),
{
    let mut b: Option<(u32, u32)> = None;
    let mut k: usize = 0;
    while k < s.len()
        invariant
            k <= s@.len(),
            nest@.len() == rays.len(),
            forall|j: int| 0 <= j < rays.len() ==> #[trigger] nest@[j] == nesting(uf, rays, j),
            b == best(uf, rays, s@.take(k as int)),
        decreases s@.len() - k,
    {
        assert(s@.take(k + 1).drop_last() =~= s@.take(k as int));
        let e = s[k];
        let ne: usize = if (e.0 as usize) < nest.len() { nest[e.0 as usize] } else { 0 };
        match b {
            None => {
                b = Some(e);
            },
            Some(x) => {
                let nx: usize = if (x.0 as usize) < nest.len() { nest[x.0 as usize] } else { 0 };
                if !(nx > ne || (nx == ne && x.0 <= e.0)) {
                    b = Some(e);
                }
            },
        }
        k = k + 1;
    }
    assert(s@.take(s@.len() as int) =~= s@);
    match b {
        None => (None, false),
        Some(x) => {
            let top: usize = if (x.0 as usize) < nest.len() { nest[x.0 as usize] } else { 0 };
            let mut n: usize = 0;
            let mut q: usize = 0;
            while q < s.len()
                invariant
                    q <= s@.len(),
                    nest@.len() == rays.len(),
                    forall|j: int| 0 <= j < rays.len() ==> #[trigger] nest@[j] == nesting(uf, rays, j),
                    top == nesting(uf, rays, x.0 as int),
                    n == tied_with(uf, rays, s@.take(q as int), top as int),
                    n <= q,
                decreases s@.len() - q,
            {
                assert(s@.take(q + 1).drop_last() =~= s@.take(q as int));
                let e = s[q];
                let ne: usize = if (e.0 as usize) < nest.len() { nest[e.0 as usize] } else { 0 };
                if ne == top {
                    n = n + 1;
                }
                q = q + 1;
            }
            assert(s@.take(s@.len() as int) =~= s@);
            (b, n >= 2)
        },
    }
}

/// Places the components ([`place_pairs`]): joins each component's outward side with the node
/// of the component it lies in, or with the exterior, and nothing else ([`joined_all`]); and
/// counts the components whose ray failed and those whose placement is ambiguous
/// ([`ambiguous_at`]). `seeds` holds each component's face the ray was cast from.
pub fn place(sides: &mut Sides, rays: &Vec<Option<Ray>>, seeds: &Vec<u32>) -> (r: (usize, usize))
    requires
        old(sides).uf.wf(),
        seeds@.len() == rays@.len(),
        forall|c: int| 0 <= c < seeds@.len() ==> 2 * #[trigger] seeds@[c] + 1 < old(sides).uf.len(),
        old(sides).exterior < old(sides).uf.len(),
        rays_in(rays@, old(sides).uf.len()),
    ensures
        final(sides).uf.wf(),
        final(sides).uf.len() == old(sides).uf.len(),
        final(sides).exterior == old(sides).exterior,
        forall|x: int, y: int|
            0 <= x < old(sides).uf.len() && 0 <= y < old(sides).uf.len() ==> #[trigger] together(final(sides).uf)(x, y)
                == joined_all(
                together(old(sides).uf),
                place_pairs(old(sides).uf, rays@, seeds@, old(sides).exterior),
                rays@.len() as int,
            )(x, y),
        r.0 == count_where(|c: int| rays@[c] is None, rays@.len() as int),
        r.1 == count_where(|c: int| ambiguous_at(old(sides).uf, rays@, c), rays@.len() as int),
{
    let ghost u0 = sides.uf;
    let m = rays.len();
    // Each component's outward class, before any placement.
    let mut outs: Vec<Option<u32>> = Vec::new();
    let mut c: usize = 0;
    while c < m
        invariant
            sides.uf.wf(),
            sides.uf.len() == u0.len(),
            forall|y: int| 0 <= y < u0.len() ==> #[trigger] sides.uf.root(y) == u0.root(y),
            rays_in(rays@, u0.len()),
            m == rays@.len(),
            c <= m,
            outs@.len() == c,
            forall|j: int| 0 <= j < c ==> #[trigger] outs@[j] == match out_root(u0, rays@, j) {
                Some(o) => Some(o as u32),
                None => None,
            },
            sides.exterior == old(sides).exterior,
            u0 == old(sides).uf,
        decreases m - c,
    {
        match &rays[c] {
            Some(ray) => {
                proof {
                assert(rays@[c as int] == Some(*ray));
            }
            let o = sides.uf.find(ray.exit);
                outs.push(Some(o));
            },
            None => {
                outs.push(None);
            },
        }
        c = c + 1;
    }
    proof {
        assert forall|j: int| 0 <= j < rays@.len() implies (#[trigger] out_root(u0, rays@, j) matches Some(o) ==> 0 <= o <= u32::MAX) by {
            if rays@[j] is Some {
                u0.lemma_bounds(rays@[j]->0.exit as int);
            }
        }
    }
    // The components enclosing each, and how many.
    let mut encl: Vec<Vec<(u32, u32)>> = Vec::new();
    let mut nest: Vec<usize> = Vec::new();
    c = 0;
    while c < m
        invariant
            sides.uf.wf(),
            sides.uf.len() == u0.len(),
            forall|y: int| 0 <= y < u0.len() ==> #[trigger] sides.uf.root(y) == u0.root(y),
            rays_in(rays@, u0.len()),
            m == rays@.len() == outs@.len(),
            c <= m,
            forall|j: int| 0 <= j < rays@.len() ==> #[trigger] outs@[j] == match out_root(u0, rays@, j) {
                Some(o) => Some(o as u32),
                None => None,
            },
            forall|j: int| 0 <= j < rays@.len() ==> (#[trigger] out_root(u0, rays@, j) matches Some(o) ==> 0 <= o <= u32::MAX),
            sides.exterior == old(sides).exterior,
            u0 == old(sides).uf,
            encl@.len() == c && nest@.len() == c,
            forall|j: int| 0 <= j < c ==> #[trigger] encl@[j]@ == enclosing(u0, rays@, j),
            forall|j: int| 0 <= j < c ==> #[trigger] nest@[j] == nesting(u0, rays@, j),
        decreases m - c,
    {
        match &rays[c] {
            Some(ray) => {
                assert(rays@[c as int] == Some(*ray));
                let e = enclosing_of(&mut sides.uf, rays, &outs, ray, Ghost(u0));
                assert(e@ == enclosing(u0, rays@, c as int));
                nest.push(e.len());
                encl.push(e);
            },
            None => {
                nest.push(0);
                encl.push(Vec::new());
            },
        }
        c = c + 1;
    }
    // Place each, in component order.
    proof {
        u0.lemma_bounds(sides.exterior as int);
    }
    let mut unresolved: usize = 0;
    let mut ambiguous: usize = 0;
    let ghost pairs = place_pairs(u0, rays@, seeds@, sides.exterior);
    c = 0;
    while c < m
        invariant
            sides.uf.wf(),
            sides.uf.len() == u0.len(),
            sides.exterior == old(sides).exterior,
            u0 == old(sides).uf,
            sides.exterior < u0.len(),
            rays_in(rays@, u0.len()),
            seeds@.len() == rays@.len(),
            forall|q: int| 0 <= q < seeds@.len() ==> 2 * #[trigger] seeds@[q] + 1 < u0.len(),
            m == rays@.len() == encl@.len() == nest@.len(),
            c <= m,
            pairs == place_pairs(u0, rays@, seeds@, sides.exterior),
            forall|j: int| 0 <= j < m ==> #[trigger] encl@[j]@ == enclosing(u0, rays@, j),
            forall|j: int| 0 <= j < m ==> #[trigger] nest@[j] == nesting(u0, rays@, j),
            u0.len() <= u32::MAX,
            forall|x: int, y: int|
                0 <= x < u0.len() && 0 <= y < u0.len() ==> #[trigger] together(sides.uf)(x, y) == joined_all(
                    together(u0),
                    pairs,
                    c as int,
                )(x, y),
            unresolved == count_where(|q: int| rays@[q] is None, c as int),
            ambiguous == count_where(|q: int| ambiguous_at(u0, rays@, q), c as int),
            unresolved <= c && ambiguous <= c,
        decreases m - c,
    {
        let (target, amb) = pick(&encl[c], &nest, Ghost(u0), Ghost(rays@));
        let own = match &rays[c] {
            Some(ray) => ray.exit,
            None => {
                unresolved = unresolved + 1;
                2 * seeds[c]
            },
        };
        if rays[c].is_some() && amb {
            ambiguous = ambiguous + 1;
        }
        let other = match target {
            Some(t) => {
                proof {
                    lemma_best_in(u0, rays@, encl@[c as int]@);
                    let k = choose|k: int| 0 <= k < encl@[c as int]@.len() && encl@[c as int]@[k] == t;
                    lemma_enclosing_in(u0, rays@, c as int, k);
                }
                t.1
            },
            None => sides.exterior,
        };
        assert(own == pairs[c as int].0 && other == pairs[c as int].1);
        let ghost prev = sides.uf;
        sides.uf.union(own, other);
        proof {
            assert forall|x: int, y: int|
                0 <= x < u0.len() && 0 <= y < u0.len() implies #[trigger] together(sides.uf)(x, y) == joined_all(
                    together(u0),
                    pairs,
                    c + 1,
                )(x, y) by {
                let j = joined_all(together(u0), pairs, c as int);
                let a = own as int;
                let b = other as int;
                assert(j(x, y) == together(prev)(x, y));
                assert(j(x, a) == together(prev)(x, a));
                assert(j(x, b) == together(prev)(x, b));
                assert(j(y, a) == together(prev)(y, a));
                assert(j(y, b) == together(prev)(y, b));
                let ra = prev.root(a);
                let rb = prev.root(b);
                let ina = |z: int| prev.root(z) == ra || prev.root(z) == rb;
                assert(sides.uf.root(x) == if ina(x) { sides.uf.root(a) } else { prev.root(x) });
                assert(sides.uf.root(y) == if ina(y) { sides.uf.root(a) } else { prev.root(y) });
            }
        }
        c = c + 1;
    }
    (unresolved, ambiguous)
}

proof fn lemma_best_in(uf: UnionFind, rays: Seq<Option<Ray>>, s: Seq<(u32, u32)>)
    ensures
        best(uf, rays, s) matches Some(b) ==> exists|k: int| 0 <= k < s.len() && s[k] == b,
    decreases s.len(),
{
    if s.len() > 0 {
        lemma_best_in(uf, rays, s.drop_last());
        match best(uf, rays, s.drop_last()) {
            Some(b) => {
                let k = choose|k: int| 0 <= k < s.drop_last().len() && s.drop_last()[k] == b;
                assert(s[k] == b);
            },
            None => {},
        }
        assert(s[s.len() - 1] == s.last());
    }
}

proof fn lemma_enclosing_in(uf: UnionFind, rays: Seq<Option<Ray>>, c: int, k: int)
    requires
        0 <= c < rays.len(),
        0 <= k < enclosing(uf, rays, c).len(),
    ensures
        rays[c] matches Some(ray) && exists|q: int| 0 <= q < ray.first@.len() && ray.first@[q] == enclosing(uf, rays, c)[k],
{
    let ray = rays[c]->0;
    lemma_upto_in(uf, rays, ray.first@, ray.first@.len() as int, k);
}

proof fn lemma_upto_in(uf: UnionFind, rays: Seq<Option<Ray>>, first: Seq<(u32, u32)>, n: int, k: int)
    requires
        0 <= n <= first.len(),
        0 <= k < enclosing_upto(uf, rays, first, n).len(),
    ensures
        exists|q: int| 0 <= q < first.len() && first[q] == enclosing_upto(uf, rays, first, n)[k],
    decreases n,
{
    if n > 0 {
        if k < enclosing_upto(uf, rays, first, n - 1).len() {
            lemma_upto_in(uf, rays, first, n - 1, k);
        } else {
            assert(first[n - 1] == enclosing_upto(uf, rays, first, n)[k]);
        }
    }
}

} // verus!
