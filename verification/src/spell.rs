use vstd::prelude::*;

use crate::animation::EffectType;
use crate::animation::TileEffect;
use crate::character::OrdDir;
use crate::character::Piece;
use crate::model::species_eq;
use crate::model::species_view;
use crate::model::SpeciesView;
use crate::world::map_wrap;
use crate::world::matching_indices;
use crate::world::piece_pos;
use crate::world::spec_first_at;
use crate::world::wrap_point;
use crate::world::Manager;
use crate::world::SavePayload;

verus! {

/// The presentation of one spell node in a grimoire: name, icon and flavour
/// text, keyed by the codename that `match_axiom_with_codename` computes.
#[derive(Clone, Debug)]
pub struct Spell {
    pub name: String,
    pub icon: i32,
    pub lore: String,
    pub description: String,
}

/// The reach of a radio transmission.
#[derive(Debug)]
pub enum Range {
    Targeted(String),
    Contained(String),
    Local(String),
    Global(String),
    Synaptic(String),
}

/// What a grid cell "is" for propagation purposes: scenery, creatures, and
/// the axiom nodes that make up spell programs.
///
/// Species values are plain data: recursive variants own a boxed copy of
/// their sub-species, never a reference.
#[derive(Debug)]
pub enum Species {
    Wall,
    Terminal,
    WorldStem,
    EpsilonHead,
    EpsilonTail(usize),
    WatchBot,
    // AXIOMS
    // Contingencies
    Keypress(String),
    RadioReceiver(Range),
    OnTurn,
    OnCollision(Box<Species>),
    // Anointers
    SelectSpecies(Box<Species>),
    AnointToTarget(Box<Species>),
    SelectRealityAnchor,
    // Forms
    PathfindTargeter(Box<Species>),
    CardinalTargeter(OrdDir),
    PlusTargeter,
    SelfTargeter,
    MomentumBeam,
    SpecificCoord((i32, i32, i32)),
    // Mutators
    RealmShift(i32),
    ClearThisCaster(Box<Species>),
    Orbit(usize),
    Halo(usize),
    // Functions
    Teleport,
    Twinning,
    SwapAnchor,
    RadioBroadcaster(Range),
    Fireworks,
    SaveGame,
    LoadGame,
    TurnIncrementer,
}

/// The codename under which an axiom's spell entry is filed, or `None` for
/// species that are not axioms with an entry.
pub fn match_axiom_with_codename(species: &Species) -> (r: Option<&str>)
    ensures
        match *species {
            Species::Keypress(_) => r is Some && r.unwrap()@ == "keypress"@,
            Species::CardinalTargeter(_) => r is Some && r.unwrap()@ == "cardinal_targeter"@,
            Species::SelectSpecies(_) => r is Some && r.unwrap()@ == "select_species"@,
            Species::RadioBroadcaster(_) => r is Some && r.unwrap()@ == "radio_broadcaster"@,
            Species::RadioReceiver(_) => r is Some && r.unwrap()@ == "radio_receiver"@,
            Species::Teleport => r is Some && r.unwrap()@ == "teleport"@,
            _ => r is None,
        },
{
    match species {
        Species::Keypress(_) => Some("keypress"),
        Species::CardinalTargeter(_) => Some("cardinal_targeter"),
        Species::SelectSpecies(_) => Some("select_species"),
        Species::RadioBroadcaster(_) => Some("radio_broadcaster"),
        Species::RadioReceiver(_) => Some("radio_receiver"),
        Species::Teleport => Some("teleport"),
        _ => None,
    }
}

} // verus!

verus! {

/// Manhattan distance between two coordinates, as unbounded integers.
pub open spec fn manhattan_spec(a: (i32, i32, i32), b: (i32, i32, i32)) -> int {
    vstd::math::abs(a.0 - b.0) as int + vstd::math::abs(a.1 - b.1) as int + vstd::math::abs(
        a.2 - b.2,
    ) as int
}

/// Find the Manhattan distance between two coordinates.
pub fn manhattan_distance(a: (i32, i32, i32), b: (i32, i32, i32)) -> (r: i32)
    requires
        manhattan_spec(a, b) <= i32::MAX,
    ensures
        r == manhattan_spec(a, b),
{
    let dx = if a.0 >= b.0 { a.0 - b.0 } else { b.0 - a.0 };
    let dy = if a.1 >= b.1 { a.1 - b.1 } else { b.1 - a.1 };
    let dz = if a.2 >= b.2 { a.2 - b.2 } else { b.2 - a.2 };
    dx + dy + dz
}

/// Manhattan distance, computed without any overflow restriction.
fn manhattan_wide(a: (i32, i32, i32), b: (i32, i32, i32)) -> (r: i64)
    ensures
        r == manhattan_spec(a, b),
{
    let dx = (a.0 as i64) - (b.0 as i64);
    let dy = (a.1 as i64) - (b.1 as i64);
    let dz = (a.2 as i64) - (b.2 as i64);
    let dx = if dx < 0 { -dx } else { dx };
    let dy = if dy < 0 { -dy } else { dy };
    let dz = if dz < 0 { -dz } else { dz };
    dx + dy + dz
}

/// From `start`, the four rotations in a clockwise direction.
pub fn generate_clockwise_rotation(start: OrdDir) -> (r: [OrdDir; 4])
    ensures
        r@.len() == 4,
        r@[0] == start,
        r@[1] == start.rotated_spec(),
        r@[2] == start.rotated_spec().rotated_spec(),
        r@[3] == start.rotated_spec().rotated_spec().rotated_spec(),
{
    let second = start.rotated();
    let third = second.rotated();
    let fourth = third.rotated();
    [start, second, third, fourth]
}

/// Find the tile with the shortest Manhattan distance to `target`.
///
/// Ties are broken in favour of the earliest tile; a tile whose distance
/// reaches `i32::MAX` is never selected, as the search starts from that bound.
pub fn find_closest_coordinate(coordinates: &Vec<(i32, i32, i32)>, target: (i32, i32, i32)) -> (r:
    Option<(i32, i32, i32)>)
    ensures
        match r {
            Some(c) => exists|i: int|
                {
                    &&& 0 <= i < coordinates@.len()
                    &&& #[trigger] coordinates@[i] == c
                    &&& manhattan_spec(c, target) < i32::MAX
                    &&& forall|j: int|
                        0 <= j < coordinates@.len() ==> manhattan_spec(
                            #[trigger] coordinates@[j],
                            target,
                        ) >= manhattan_spec(c, target)
                    &&& forall|j: int|
                        0 <= j < i ==> manhattan_spec(#[trigger] coordinates@[j], target)
                            > manhattan_spec(c, target)
                },
            None => forall|j: int|
                0 <= j < coordinates@.len() ==> manhattan_spec(#[trigger] coordinates@[j], target)
                    >= i32::MAX,
        },
        r == spec_closest(coordinates@, target),
{
    let mut min_distance: i64 = i32::MAX as i64;
    let mut closest: Option<(i32, i32, i32)> = None;
    let ghost mut best: int = 0int;
    let n = coordinates.len();
    let mut i: usize = 0;
    while i < n
        invariant
            n == coordinates@.len(),
            0 <= i <= n,
            min_distance <= i32::MAX,
            forall|j: int|
                0 <= j < i ==> manhattan_spec(#[trigger] coordinates@[j], target) >= min_distance,
            match closest {
                Some(c) => {
                    &&& 0 <= best < i
                    &&& coordinates@[best] == c
                    &&& manhattan_spec(c, target) == min_distance
                    &&& min_distance < i32::MAX
                    &&& forall|j: int|
                        0 <= j < best ==> manhattan_spec(#[trigger] coordinates@[j], target)
                            > min_distance
                },
                None => min_distance == i32::MAX,
            },
            spec_closest(coordinates@, target) == closest_fold(
                coordinates@,
                target,
                i as int,
                min_distance as int,
                closest,
            ),
        decreases n - i,
    {
        let c = coordinates[i];
        let d = manhattan_wide(c, target);
        if d < min_distance {
            min_distance = d;
            closest = Some(c);
            proof {
                best = i as int;
            }
        }
        i = i + 1;
    }
    proof {
        if closest is Some {
            assert(coordinates@[best] == closest.unwrap());
        }
    }
    closest
}

/// Whether a coordinate list holds the given tile.
fn coords_contains(v: &Vec<(i32, i32, i32)>, t: (i32, i32, i32)) -> (r: bool)
    ensures
        r == v@.contains(t),
{
    let n = v.len();
    let mut i: usize = 0;
    while i < n
        invariant
            n == v@.len(),
            0 <= i <= n,
            forall|j: int| 0 <= j < i ==> #[trigger] v@[j] != t,
        decreases n - i,
    {
        let c = v[i];
        if c.0 == t.0 && c.1 == t.1 && c.2 == t.2 {
            proof {
                assert(v@[i as int] == t);
            }
            return true;
        }
        i = i + 1;
    }
    false
}


/// An exact copy of a coordinate list.
pub fn clone_coords(v: &Vec<(i32, i32, i32)>) -> (r: Vec<(i32, i32, i32)>)
    ensures
        r@ == v@,
{
    let mut r: Vec<(i32, i32, i32)> = Vec::new();
    let n = v.len();
    let mut i: usize = 0;
    while i < n
        invariant
            n == v@.len(),
            0 <= i <= n,
            r@ =~= v@.subrange(0, i as int),
        decreases n - i,
    {
        r.push(v[i]);
        proof {
            assert(r@ =~= v@.subrange(0, i + 1));
        }
        i = i + 1;
    }
    proof {
        assert(r@ =~= v@);
    }
    r
}

/// One selected caster piece (an index into the world's arena), with the
/// targets computed for it so far.
#[derive(Debug)]
pub struct CasterTarget {
    pub caster: usize,
    pub targets: Vec<(i32, i32, i32)>,
}

/// Mathematical image of a `CasterTarget`.
#[verifier::ext_equal]
pub struct CasterTargetView {
    pub caster: usize,
    pub targets: Seq<(i32, i32, i32)>,
}

impl View for CasterTarget {
    type V = CasterTargetView;

    open spec fn view(&self) -> CasterTargetView {
        CasterTargetView { caster: self.caster, targets: self.targets@ }
    }
}

impl CasterTarget {
    pub fn new(caster: usize, targets: Vec<(i32, i32, i32)>) -> (r: CasterTarget)
        ensures
            r.caster == caster,
            r.targets@ == targets@,
    {
        CasterTarget { caster, targets }
    }
}

impl Clone for CasterTarget {
    fn clone(&self) -> (res: Self)
        ensures
            res@ == self@,
    {
        CasterTarget { caster: self.caster, targets: clone_coords(&self.targets) }
    }
}

/// The traveling signal of a spell: accumulated caster/target state, a
/// momentum, the coordinate currently pulsing, and the coordinates this
/// lineage has already processed.
#[derive(Debug)]
pub struct Synapse {
    pub casters: Vec<CasterTarget>,
    pub momentum: OrdDir,
    pub pulse: (i32, i32, i32),
    pub visited: Vec<(i32, i32, i32)>,
}

/// Mathematical image of a `Synapse`.
#[verifier::ext_equal]
pub struct SynapseView {
    pub casters: Seq<CasterTargetView>,
    pub momentum: OrdDir,
    pub pulse: (i32, i32, i32),
    pub visited: Seq<(i32, i32, i32)>,
}

impl View for Synapse {
    type V = SynapseView;

    open spec fn view(&self) -> SynapseView {
        SynapseView {
            casters: self.casters@.map_values(|c: CasterTarget| c@),
            momentum: self.momentum,
            pulse: self.pulse,
            visited: self.visited@,
        }
    }
}

impl Synapse {
    /// A fresh synapse at the given coordinate: no casters yet, momentum
    /// pointing up, nothing visited.
    pub fn new(x: i32, y: i32, z: i32) -> (r: Synapse)
        ensures
            r@ == (SynapseView {
                casters: Seq::empty(),
                momentum: OrdDir::Up,
                pulse: (x, y, z),
                visited: Seq::empty(),
            }),
    {
        let r = Synapse {
            casters: Vec::new(),
            momentum: OrdDir::Up,
            pulse: (x, y, z),
            visited: Vec::new(),
        };
        proof {
            assert(r@ =~~= (SynapseView {
                casters: Seq::empty(),
                momentum: OrdDir::Up,
                pulse: (x, y, z),
                visited: Seq::empty(),
            }));
        }
        r
    }
}

impl Clone for Synapse {
    fn clone(&self) -> (res: Self)
        ensures
            res@ == self@,
    {
        let casters = self.casters.clone();
        proof {
            assert forall|i: int| 0 <= i < self.casters@.len() implies casters@[i]@
                == self.casters@[i]@ by {
                assert(cloned::<CasterTarget>(self.casters@[i], casters@[i]));
            }
            assert(casters@.map_values(|c: CasterTarget| c@) =~= self.casters@.map_values(
                |c: CasterTarget| c@,
            ));
        }
        let res = Synapse {
            casters,
            momentum: self.momentum,
            pulse: self.pulse,
            visited: clone_coords(&self.visited),
        };
        res
    }
}

} // verus!

verus! {

/// The integer square root: the largest `r >= 0` with `r * r <= n`.
pub open spec fn isqrt_spec(n: int) -> int
    recommends
        n >= 0,
    decreases n,
{
    if n <= 0 {
        0
    } else {
        let r = isqrt_spec(n - 1);
        if (r + 1) * (r + 1) <= n {
            r + 1
        } else {
            r
        }
    }
}

#[verifier::rlimit(100)]
#[verifier::spinoff_prover]
pub proof fn lemma_isqrt_bounds(n: int)
    requires
        n >= 0,
    ensures
        isqrt_spec(n) >= 0,
        isqrt_spec(n) * isqrt_spec(n) <= n,
        n < (isqrt_spec(n) + 1) * (isqrt_spec(n) + 1),
    decreases n,
{
    if n == 0 {
        assert(isqrt_spec(0) == 0);
    } else {
        lemma_isqrt_bounds(n - 1);
        let r = isqrt_spec(n - 1);
        if (r + 1) * (r + 1) <= n {
            assert(isqrt_spec(n) == r + 1);
            assert((r + 2) * (r + 2) > n) by (nonlinear_arith)
                requires
                    r >= 0,
                    n - 1 < (r + 1) * (r + 1),
                    (r + 1) * (r + 1) <= n,
            ;
        } else {
            assert(isqrt_spec(n) == r);
            assert(r * r <= n - 1);
            assert(n < (r + 1) * (r + 1));
        }
    }
}

proof fn lemma_square_mono(a: int, b: int)
    by (nonlinear_arith)
    requires
        0 <= a <= b,
    ensures
        a * a <= b * b,
{
}

proof fn lemma_isqrt_unique(n: int, r1: int, r2: int)
    requires
        r1 >= 0,
        r1 * r1 <= n < (r1 + 1) * (r1 + 1),
        r2 >= 0,
        r2 * r2 <= n < (r2 + 1) * (r2 + 1),
    ensures
        r1 == r2,
{
    if r1 < r2 {
        lemma_square_mono(r1 + 1, r2);
        assert(false);
    }
    if r2 < r1 {
        lemma_square_mono(r2 + 1, r1);
        assert(false);
    }
}

proof fn lemma_sq_le(a: int, b: int)
    by (nonlinear_arith)
    requires
        a >= 0,
        b >= 0,
        a * a <= b * b,
    ensures
        a <= b,
{
}

fn isqrt(n: u64) -> (r: u64)
    requires
        n <= 0xFFFF_FFFF,
    ensures
        r * r <= n < (r + 1) * (r + 1),
        r == isqrt_spec(n as int),
{
    let mut r: u64 = 0;
    loop
        invariant
            n <= 0xFFFF_FFFF,
            r <= 0xFFFF,
            r * r <= n,
        ensures
            r * r <= n < (r + 1) * (r + 1),
        decreases 0x10000u64 - r,
    {
        proof {
            assert((r + 1) * (r + 1) <= 0x1_0000_0000) by (nonlinear_arith)
                requires
                    r <= 0xFFFF,
            ;
        }
        let next = (r + 1) * (r + 1);
        if next > n {
            break;
        }
        proof {
            if r + 1 > 0xFFFF {
                assert((r + 1) * (r + 1) > 0xFFFF_FFFF) by (nonlinear_arith)
                    requires
                        r + 1 > 0xFFFF,
                ;
            }
        }
        r = r + 1;
    }
    proof {
        lemma_isqrt_bounds(n as int);
        lemma_isqrt_unique(n as int, isqrt_spec(n as int), r as int);
    }
    r
}

/// The eight mirror images that one rasterization step contributes to a
/// circle outline, in the order the generator emits them.
pub open spec fn octet(c: (i32, i32, i32), rr: int, d: int) -> Seq<(i32, i32, i32)> {
    seq![
        ((c.0 - d) as i32, (c.1 + rr) as i32, c.2),
        ((c.0 + d) as i32, (c.1 + rr) as i32, c.2),
        ((c.0 - d) as i32, (c.1 - rr) as i32, c.2),
        ((c.0 + d) as i32, (c.1 - rr) as i32, c.2),
        ((c.0 + rr) as i32, (c.1 - d) as i32, c.2),
        ((c.0 + rr) as i32, (c.1 + d) as i32, c.2),
        ((c.0 - rr) as i32, (c.1 - d) as i32, c.2),
        ((c.0 - rr) as i32, (c.1 + d) as i32, c.2),
    ]
}

/// Append a tile unless it is already present.
pub open spec fn add_unique(s: Seq<(i32, i32, i32)>, t: (i32, i32, i32)) -> Seq<(i32, i32, i32)> {
    if s.contains(t) {
        s
    } else {
        s.push(t)
    }
}

/// Fold `add_unique` over `pts[k..]`.
pub open spec fn add_octet(s: Seq<(i32, i32, i32)>, pts: Seq<(i32, i32, i32)>, k: int) -> Seq<
    (i32, i32, i32),
>
    decreases pts.len() - k,
{
    if k < 0 || k >= pts.len() {
        s
    } else {
        add_octet(add_unique(s, pts[k]), pts, k + 1)
    }
}

/// The rasterized outline of a circle of radius `radius` around `c`: for each
/// `rr` from `0` up to `isqrt(radius * radius / 2)`, the eight mirror images
/// of `(isqrt(radius * radius - rr * rr), rr)`, deduplicated in order.
pub open spec fn circle_build(
    c: (i32, i32, i32),
    radius: int,
    rr: int,
    acc: Seq<(i32, i32, i32)>,
) -> Seq<(i32, i32, i32)>
    decreases isqrt_spec(radius * radius / 2) + 1 - rr,
{
    if rr < 0 || rr > isqrt_spec(radius * radius / 2) {
        acc
    } else {
        circle_build(
            c,
            radius,
            rr + 1,
            add_octet(acc, octet(c, rr, isqrt_spec(radius * radius - rr * rr)), 0),
        )
    }
}

pub open spec fn circle_points(c: (i32, i32, i32), radius: int) -> Seq<(i32, i32, i32)> {
    circle_build(c, radius, 0, Seq::empty())
}

/// Whether a point lies in the bounding box of a circle around `c`.
pub open spec fn near_center(p: (i32, i32, i32), c: (i32, i32, i32)) -> bool {
    &&& c.0 - 46340 <= p.0 <= c.0 + 46340
    &&& c.1 - 46340 <= p.1 <= c.1 + 46340
    &&& p.2 == c.2
}

/// Generate the points across the outline of a circle.
pub fn circle_around(center: &(i32, i32, i32), radius: i32) -> (r: Vec<(i32, i32, i32)>)
    requires
        0 <= radius <= 46340,
        i32::MIN + 46341 <= center.0 <= i32::MAX - 46341,
        i32::MIN + 46341 <= center.1 <= i32::MAX - 46341,
    ensures
        r@ == circle_points(*center, radius as int),
        r@.no_duplicates(),
        r@.len() >= 1,
        forall|l: int| 0 <= l < r@.len() ==> near_center(#[trigger] r@[l], *center),
{
    proof {
        assert((radius as int) * (radius as int) <= 46340 * 46340) by (nonlinear_arith)
            requires
                0 <= radius <= 46340,
        ;
    }
    let rsq: u64 = (radius as u64) * (radius as u64);
    let rmax: u64 = isqrt(rsq / 2);
    proof {
        lemma_sq_le(rmax as int, radius as int);
    }
    let mut circle: Vec<(i32, i32, i32)> = Vec::new();
    let mut rr: u64 = 0;
    while rr <= rmax
        invariant
            0 <= radius <= 46340,
            i32::MIN + 46341 <= center.0 <= i32::MAX - 46341,
            i32::MIN + 46341 <= center.1 <= i32::MAX - 46341,
            rsq == (radius as int) * (radius as int),
            rsq <= 0xFFFF_FFFF,
            rmax == isqrt_spec(rsq as int / 2),
            rmax * rmax <= rsq / 2,
            rmax <= 46340,
            rr <= rmax + 1,
            circle_points(*center, radius as int) == circle_build(
                *center,
                radius as int,
                rr as int,
                circle@,
            ),
            circle@.no_duplicates(),
            rr >= 1 ==> circle@.len() >= 1,
            forall|l: int| 0 <= l < circle@.len() ==> near_center(#[trigger] circle@[l], *center),
        decreases rmax + 1 - rr,
    {
        proof {
            lemma_square_mono(rr as int, rmax as int);
        }
        let d: u64 = isqrt(rsq - rr * rr);
        proof {
            lemma_sq_le(d as int, radius as int);
        }
        let dx: i32 = d as i32;
        let rri: i32 = rr as i32;
        let pts: [(i32, i32, i32); 8] = [
            (center.0 - dx, center.1 + rri, center.2),
            (center.0 + dx, center.1 + rri, center.2),
            (center.0 - dx, center.1 - rri, center.2),
            (center.0 + dx, center.1 - rri, center.2),
            (center.0 + rri, center.1 - dx, center.2),
            (center.0 + rri, center.1 + dx, center.2),
            (center.0 - rri, center.1 - dx, center.2),
            (center.0 - rri, center.1 + dx, center.2),
        ];
        let ghost oct = octet(*center, rr as int, d as int);
        let ghost acc0 = circle@;
        proof {
            assert(pts@.len() == 8);
            assert forall|k: int| 0 <= k < 8 implies pts@[k] == oct[k] by {
                assert(oct == octet(*center, rr as int, d as int));
            }
        }
        let mut k: usize = 0;
        while k < 8
            invariant
                0 <= k <= 8,
                oct.len() == 8,
                forall|j: int| 0 <= j < 8 ==> pts@[j] == oct[j],
                add_octet(acc0, oct, 0) == add_octet(circle@, oct, k as int),
                circle@.no_duplicates(),
                circle@.len() >= acc0.len(),
                k >= 1 && acc0.len() == 0 ==> circle@.len() >= 1,
                dx <= 46340,
                rri <= 46340,
                forall|j: int| 0 <= j < 8 ==> near_center(#[trigger] pts@[j], *center),
                forall|l: int| 0 <= l < circle@.len() ==> near_center(#[trigger] circle@[l], *center),
            decreases 8 - k,
        {
            let p = pts[k];
            let ghost before = circle@;
            if !coords_contains(&circle, p) {
                circle.push(p);
            }
            proof {
                assert(circle@ == add_unique(before, oct[k as int]));
                assert(add_octet(before, oct, k as int) == add_octet(circle@, oct, k + 1));
            }
            k = k + 1;
        }
        proof {
            assert(add_octet(circle@, oct, 8) == circle@);
            assert(circle_build(*center, radius as int, rr as int, acc0) == circle_build(
                *center,
                radius as int,
                rr + 1,
                add_octet(acc0, oct, 0),
            ));
        }
        rr = rr + 1;
    }
    circle
}

} // verus!

verus! {

/// Which stretch of the angle scale a point's offset `(dx, dy)` falls in,
/// for angles measured as `atan2(dy, dx)` over `(-pi, pi]`: `0` for negative
/// angles, `1` for angle zero (including the centre itself), `2` for
/// positive angles below `pi`, and `3` for `pi` exactly.
pub open spec fn angle_class(dx: int, dy: int) -> int {
    if dy < 0 {
        0
    } else if dy == 0 && dx >= 0 {
        1
    } else if dy > 0 {
        2
    } else {
        3
    }
}

/// Whether `a` comes strictly before `b` when the points around `c` are
/// ordered by ascending `atan2(dy, dx)`: first by angle class, then, inside
/// one class, by the sign of the cross product, which decides order within
/// any open half turn.
pub open spec fn angle_lt_spec(c: (i32, i32, i32), a: (i32, i32, i32), b: (i32, i32, i32)) -> bool {
    let ax = a.0 - c.0;
    let ay = a.1 - c.1;
    let bx = b.0 - c.0;
    let by = b.1 - c.1;
    if angle_class(ax, ay) != angle_class(bx, by) {
        angle_class(ax, ay) < angle_class(bx, by)
    } else {
        ax * by - ay * bx > 0
    }
}

fn angle_lt(c: &(i32, i32, i32), a: &(i32, i32, i32), b: &(i32, i32, i32)) -> (r: bool)
    ensures
        r == angle_lt_spec(*c, *a, *b),
{
    let ax = (a.0 as i64) - (c.0 as i64);
    let ay = (a.1 as i64) - (c.1 as i64);
    let bx = (b.0 as i64) - (c.0 as i64);
    let by = (b.1 as i64) - (c.1 as i64);
    let ca: u8 = if ay < 0 {
        0
    } else if ay == 0 && ax >= 0 {
        1
    } else if ay > 0 {
        2
    } else {
        3
    };
    let cb: u8 = if by < 0 {
        0
    } else if by == 0 && bx >= 0 {
        1
    } else if by > 0 {
        2
    } else {
        3
    };
    if ca != cb {
        ca < cb
    } else {
        proof {
            assert((ax as i128) * (by as i128) < 0x1_0000_0000_0000_0000i128 && (ax as i128) * (
            by as i128) > -0x1_0000_0000_0000_0000i128) by (nonlinear_arith)
                requires
                    -0x1_0000_0000i128 < (ax as i128) < 0x1_0000_0000i128,
                    -0x1_0000_0000i128 < (by as i128) < 0x1_0000_0000i128,
            ;
            assert((ay as i128) * (bx as i128) < 0x1_0000_0000_0000_0000i128 && (ay as i128) * (
            bx as i128) > -0x1_0000_0000_0000_0000i128) by (nonlinear_arith)
                requires
                    -0x1_0000_0000i128 < (ay as i128) < 0x1_0000_0000i128,
                    -0x1_0000_0000i128 < (bx as i128) < 0x1_0000_0000i128,
            ;
        }
        (ax as i128) * (by as i128) - (ay as i128) * (bx as i128) > 0
    }
}

/// Where the stable clockwise insertion places `x` in the ordered list `s`:
/// directly before the first element that `x` strictly precedes.
pub open spec fn insert_pos(c: (i32, i32, i32), s: Seq<(i32, i32, i32)>, x: (i32, i32, i32)) -> int
    decreases s.len(),
{
    if s.len() == 0 {
        0
    } else if angle_lt_spec(c, x, s[0]) {
        0
    } else {
        1 + insert_pos(c, s.drop_first(), x)
    }
}

proof fn lemma_insert_pos_bounds(c: (i32, i32, i32), s: Seq<(i32, i32, i32)>, x: (i32, i32, i32))
    ensures
        0 <= insert_pos(c, s, x) <= s.len(),
    decreases s.len(),
{
    if s.len() > 0 && !angle_lt_spec(c, x, s[0]) {
        lemma_insert_pos_bounds(c, s.drop_first(), x);
    }
}

/// `insert_pos` is the first index whose element `x` strictly precedes.
proof fn lemma_insert_pos_first(
    c: (i32, i32, i32),
    s: Seq<(i32, i32, i32)>,
    x: (i32, i32, i32),
    j: int,
)
    requires
        0 <= j <= s.len(),
        forall|k: int| 0 <= k < j ==> !angle_lt_spec(c, x, #[trigger] s[k]),
        j < s.len() ==> angle_lt_spec(c, x, s[j]),
    ensures
        insert_pos(c, s, x) == j,
    decreases s.len(),
{
    if j == 0 {
    } else {
        assert(!angle_lt_spec(c, x, s[0]));
        let t = s.drop_first();
        assert forall|k: int| 0 <= k < j - 1 implies !angle_lt_spec(c, x, #[trigger] t[k]) by {
            assert(t[k] == s[k + 1]);
        }
        if j - 1 < t.len() {
            assert(t[j - 1] == s[j]);
        }
        lemma_insert_pos_first(c, t, x, j - 1);
    }
}

/// One step of the stable clockwise sort: insert `x` at its position.
pub open spec fn insert_clockwise(
    c: (i32, i32, i32),
    s: Seq<(i32, i32, i32)>,
    x: (i32, i32, i32),
) -> Seq<(i32, i32, i32)> {
    s.insert(insert_pos(c, s, x), x)
}

/// The list sorted by clockwise angle around `c`: each element inserted in
/// turn, so that elements with equal angles keep their relative order.
pub open spec fn sort_clockwise_spec(c: (i32, i32, i32), s: Seq<(i32, i32, i32)>) -> Seq<
    (i32, i32, i32),
>
    decreases s.len(),
{
    if s.len() == 0 {
        Seq::empty()
    } else {
        insert_clockwise(c, sort_clockwise_spec(c, s.drop_last()), s.last())
    }
}

/// Sort tiles by ascending angle around `c`, keeping the relative order of
/// tiles whose angles agree.
pub fn sort_clockwise(c: &(i32, i32, i32), v: &Vec<(i32, i32, i32)>) -> (r: Vec<(i32, i32, i32)>)
    ensures
        r@ == sort_clockwise_spec(*c, v@),
{
    let mut r: Vec<(i32, i32, i32)> = Vec::new();
    let n = v.len();
    let mut i: usize = 0;
    proof {
        assert(v@.subrange(0, 0) =~= Seq::<(i32, i32, i32)>::empty());
    }
    while i < n
        invariant
            n == v@.len(),
            0 <= i <= n,
            r@ == sort_clockwise_spec(*c, v@.subrange(0, i as int)),
        decreases n - i,
    {
        let x = v[i];
        let m = r.len();
        let mut j: usize = 0;
        loop
            invariant
                m == r@.len(),
                0 <= j <= m,
                forall|k: int| 0 <= k < j ==> !angle_lt_spec(*c, x, #[trigger] r@[k]),
            ensures
                0 <= j <= m,
                forall|k: int| 0 <= k < j ==> !angle_lt_spec(*c, x, #[trigger] r@[k]),
                j < m ==> angle_lt_spec(*c, x, r@[j as int]),
            decreases m - j,
        {
            if j == m {
                break;
            }
            if angle_lt(c, &x, &r[j]) {
                break;
            }
            j = j + 1;
        }
        proof {
            lemma_insert_pos_first(*c, r@, x, j as int);
        }
        r.insert(j, x);
        proof {
            let prefix = v@.subrange(0, i + 1);
            assert(prefix.drop_last() =~= v@.subrange(0, i as int));
            assert(prefix.last() == x);
        }
        i = i + 1;
    }
    proof {
        assert(v@.subrange(0, n as int) =~= v@);
    }
    r
}

/// Inserting keeps the multiset of tiles.
proof fn lemma_insert_clockwise_multiset(
    c: (i32, i32, i32),
    s: Seq<(i32, i32, i32)>,
    x: (i32, i32, i32),
)
    ensures
        insert_clockwise(c, s, x).to_multiset() == s.to_multiset().insert(x),
{
    broadcast use vstd::seq_lib::group_seq_properties;

    let p = insert_pos(c, s, x);
    lemma_insert_pos_bounds(c, s, x);
    let left = s.subrange(0, p);
    let right = s.subrange(p, s.len() as int);
    assert(insert_clockwise(c, s, x) == left.push(x) + right);
    vstd::seq_lib::lemma_multiset_commutative(left.push(x), right);
    vstd::seq_lib::lemma_multiset_commutative(left, right);
    assert(left.push(x).to_multiset() =~= left.to_multiset().insert(x));
    assert(left + right =~= s);
    assert((left + right).to_multiset() == s.to_multiset());
    assert(insert_clockwise(c, s, x).to_multiset() =~= s.to_multiset().insert(x));
}

/// Sorting keeps the multiset of tiles: the sorted circle is a permutation.
pub proof fn lemma_sort_clockwise_multiset(c: (i32, i32, i32), s: Seq<(i32, i32, i32)>)
    ensures
        sort_clockwise_spec(c, s).to_multiset() == s.to_multiset(),
    decreases s.len(),
{
    broadcast use vstd::seq_lib::group_seq_properties;

    if s.len() > 0 {
        lemma_sort_clockwise_multiset(c, s.drop_last());
        lemma_insert_clockwise_multiset(c, sort_clockwise_spec(c, s.drop_last()), s.last());
        assert(s.drop_last().push(s.last()) =~= s);
        assert(s.drop_last().push(s.last()).to_multiset() =~= s.drop_last().to_multiset().insert(
            s.last(),
        ));
    }
}

/// A sorted circle keeps its points distinct.
pub proof fn lemma_sort_clockwise_distinct(c: (i32, i32, i32), s: Seq<(i32, i32, i32)>)
    requires
        s.no_duplicates(),
    ensures
        sort_clockwise_spec(c, s).no_duplicates(),
        sort_clockwise_spec(c, s).len() == s.len(),
{
    broadcast use vstd::seq_lib::group_to_multiset_ensures;

    lemma_sort_clockwise_multiset(c, s);
    s.lemma_multiset_has_no_duplicates();
    let t = sort_clockwise_spec(c, s);
    assert forall|x: (i32, i32, i32)| t.to_multiset().contains(x) implies t.to_multiset().count(x)
        == 1 by {
        assert(s.to_multiset().count(x) == t.to_multiset().count(x));
    }
    t.lemma_multiset_has_no_duplicates_conv();
    assert(t.len() == t.to_multiset().len());
    assert(s.len() == s.to_multiset().len());
}

} // verus!

verus! {

/// The fold the closest-coordinate search computes: scan from `k`, keeping
/// the earliest tile whose distance strictly beats the best so far.
pub open spec fn closest_fold(
    coords: Seq<(i32, i32, i32)>,
    target: (i32, i32, i32),
    k: int,
    bestd: int,
    best: Option<(i32, i32, i32)>,
) -> Option<(i32, i32, i32)>
    decreases coords.len() - k,
{
    if k < 0 || k >= coords.len() {
        best
    } else if manhattan_spec(coords[k], target) < bestd {
        closest_fold(coords, target, k + 1, manhattan_spec(coords[k], target), Some(coords[k]))
    } else {
        closest_fold(coords, target, k + 1, bestd, best)
    }
}

/// The coordinate the closest-coordinate search returns, starting from the
/// `i32::MAX` sentinel the original search starts with.
pub open spec fn spec_closest(coords: Seq<(i32, i32, i32)>, target: (i32, i32, i32)) -> Option<
    (i32, i32, i32),
> {
    closest_fold(coords, target, 0, i32::MAX as int, None)
}

/// Whether no piece of the arena stands on the tile.
pub open spec fn free_at(chars: Seq<Piece>, t: (i32, i32, i32)) -> bool {
    spec_first_at(chars, t, 0) == chars.len()
}

/// Remove all targets containing a creature.
pub fn filter_targets_by_unoccupied(manager: &Manager, targets: &Vec<(i32, i32, i32)>) -> (r: Vec<
    (i32, i32, i32),
>)
    ensures
        r@ == targets@.filter(|t: (i32, i32, i32)| free_at(manager.characters@, t)),
{
    let ghost pred = |t: (i32, i32, i32)| free_at(manager.characters@, t);
    let mut r: Vec<(i32, i32, i32)> = Vec::new();
    let n = targets.len();
    let mut i: usize = 0;
    proof {
        assert(targets@.subrange(0, 0).filter(pred) =~= Seq::<(i32, i32, i32)>::empty());
    }
    while i < n
        invariant
            n == targets@.len(),
            0 <= i <= n,
            pred == (|t: (i32, i32, i32)| free_at(manager.characters@, t)),
            r@ == targets@.subrange(0, i as int).filter(pred),
        decreases n - i,
    {
        let t = targets[i];
        if manager.get_character_at(t.0, t.1, t.2).is_none() {
            r.push(t);
        }
        proof {
            let prefix = targets@.subrange(0, i + 1);
            assert(prefix.drop_last() =~= targets@.subrange(0, i as int));
            assert(prefix.last() == t);
            reveal_with_fuel(Seq::filter, 2);
        }
        i = i + 1;
    }
    proof {
        assert(targets@.subrange(0, n as int) =~= targets@);
    }
    r
}

/// Remove all targets NOT containing a creature.
pub fn filter_targets_by_occupied(manager: &Manager, targets: &Vec<(i32, i32, i32)>) -> (r: Vec<
    (i32, i32, i32),
>)
    ensures
        r@ == targets@.filter(|t: (i32, i32, i32)| !free_at(manager.characters@, t)),
{
    let ghost pred = |t: (i32, i32, i32)| !free_at(manager.characters@, t);
    let mut r: Vec<(i32, i32, i32)> = Vec::new();
    let n = targets.len();
    let mut i: usize = 0;
    proof {
        assert(targets@.subrange(0, 0).filter(pred) =~= Seq::<(i32, i32, i32)>::empty());
    }
    while i < n
        invariant
            n == targets@.len(),
            0 <= i <= n,
            pred == (|t: (i32, i32, i32)| !free_at(manager.characters@, t)),
            r@ == targets@.subrange(0, i as int).filter(pred),
        decreases n - i,
    {
        let t = targets[i];
        if manager.get_character_at(t.0, t.1, t.2).is_some() {
            r.push(t);
        }
        proof {
            let prefix = targets@.subrange(0, i + 1);
            assert(prefix.drop_last() =~= targets@.subrange(0, i as int));
            assert(prefix.last() == t);
            reveal_with_fuel(Seq::filter, 2);
        }
        i = i + 1;
    }
    proof {
        assert(targets@.subrange(0, n as int) =~= targets@);
    }
    r
}

/// Whether a beam may start from this tile without its hundred steps leaving
/// machine range.
pub open spec fn beam_origin_ok(t: (i32, i32, i32)) -> bool {
    &&& i32::MIN + 190 <= t.0 <= i32::MAX - 145
    &&& i32::MIN + 190 <= t.1 <= i32::MAX - 145
}

/// The tiles of a beam cast from `origin` in direction `dir`, starting with
/// step `k`: each step's wrapped tile, stopping at the first occupied tile
/// or after the hundredth step.
pub open spec fn beam_spec(m: Manager, dir: OrdDir, origin: (i32, i32, i32), k: int) -> Seq<
    (i32, i32, i32),
>
    decreases 101 - k,
{
    if k < 1 || k > 100 {
        Seq::empty()
    } else {
        let off = dir.offset_spec();
        let t = wrap_point(
            ((origin.0 + k * off.0) as i32, (origin.1 + k * off.1) as i32, origin.2),
        );
        if m.occupied_at(t.0, t.1, t.2) {
            seq![t]
        } else {
            seq![t] + beam_spec(m, dir, origin, k + 1)
        }
    }
}

/// Return all tiles in the path of a beam that stops at the first
/// encountered creature, or after a hardcoded maximum range of a hundred
/// tiles.
pub fn beam_from_point(manager: &Manager, dir: OrdDir, origin: (i32, i32, i32)) -> (r: Vec<
    (i32, i32, i32),
>)
    requires
        beam_origin_ok(origin),
    ensures
        r@ == beam_spec(*manager, dir, origin, 1),
{
    let off = dir.as_offset();
    let mut out: Vec<(i32, i32, i32)> = Vec::new();
    let mut k: u32 = 1;
    proof {
        assert(out@ + beam_spec(*manager, dir, origin, 1) =~= beam_spec(*manager, dir, origin, 1));
    }
    loop
        invariant_except_break
            beam_spec(*manager, dir, origin, 1) == out@ + beam_spec(
                *manager,
                dir,
                origin,
                k as int,
            ),
        invariant
            1 <= k <= 101,
            beam_origin_ok(origin),
            off == dir.offset_spec(),
        ensures
            out@ == beam_spec(*manager, dir, origin, 1),
        decreases 101 - k,
    {
        if k > 100 {
            proof {
                assert(out@ + beam_spec(*manager, dir, origin, k as int) =~= out@);
            }
            break;
        }
        proof {
            assert(-1 <= off.0 <= 1 && -1 <= off.1 <= 1);
            assert(-100 <= (k as i32) * off.0 <= 100 && -100 <= (k as i32) * off.1
                <= 100) by (nonlinear_arith)
                requires
                    -1 <= off.0 <= 1,
                    -1 <= off.1 <= 1,
                    1 <= k <= 100,
            ;
        }
        let t = map_wrap(origin.0 + (k as i32) * off.0, origin.1 + (k as i32) * off.1, origin.2);
        out.push(t);
        if manager.get_character_at(t.0, t.1, t.2).is_some() {
            proof {
                assert(beam_spec(*manager, dir, origin, k as int) =~= seq![t]);
                assert(out@ =~= beam_spec(*manager, dir, origin, 1));
            }
            break;
        }
        proof {
            assert(beam_spec(*manager, dir, origin, k as int) =~= seq![t] + beam_spec(
                *manager,
                dir,
                origin,
                k + 1,
            ));
            assert(out@ + beam_spec(*manager, dir, origin, k + 1) =~= beam_spec(
                *manager,
                dir,
                origin,
                1,
            ));
        }
        k = k + 1;
    }
    out
}

} // verus!

verus! {

/// The views of a list of caster/target pairs.
pub open spec fn cviews(s: Seq<CasterTarget>) -> Seq<CasterTargetView> {
    s.map_values(|c: CasterTarget| c@)
}

impl SynapseView {
    /// Every caster names a piece inside an arena of `n` pieces.
    pub open spec fn wf(self, n: nat) -> bool {
        forall|i: int| 0 <= i < self.casters.len() ==> (#[trigger] self.casters[i]).caster < n
    }

    /// The lineage invariant: no coordinate is recorded twice, and the cell
    /// about to pulse has not been processed before.
    pub open spec fn visited_wf(self) -> bool {
        self.visited.no_duplicates() && !self.visited.contains(wrap_point(self.pulse))
    }
}

/// New caster entries: one per index, all sharing one target list.
pub open spec fn casters_with_indices(idxs: Seq<usize>, targets: Seq<(i32, i32, i32)>) -> Seq<
    CasterTargetView,
> {
    idxs.map_values(|i: usize| CasterTargetView { caster: i, targets: targets })
}

/// The positions of the casters' pieces, in caster order.
pub open spec fn caster_positions(chars: Seq<Piece>, cs: Seq<CasterTargetView>) -> Seq<
    (i32, i32, i32),
> {
    cs.map_values(|c: CasterTargetView| piece_pos(chars[c.caster as int]))
}

/// Append one freshly computed target to a caster's list, where the rule
/// produced one.
pub open spec fn with_targets(c: CasterTargetView, targets: Seq<(i32, i32, i32)>) -> CasterTargetView {
    CasterTargetView { caster: c.caster, targets: targets }
}

} // verus!

verus! {

/// What `SelectSpecies` leaves as the caster list: every piece of the given
/// species appended as a fresh caster with no targets.
pub open spec fn selected_casters(
    chars: Seq<Piece>,
    cs: Seq<CasterTargetView>,
    sv: SpeciesView,
) -> Seq<CasterTargetView> {
    cs + casters_with_indices(matching_indices(chars, sv, 0), Seq::empty())
}

/// What `AnointToTarget` leaves: every piece of the species appended as a
/// caster whose targets are the current casters' positions.
pub open spec fn anointed_casters(
    chars: Seq<Piece>,
    cs: Seq<CasterTargetView>,
    sv: SpeciesView,
) -> Seq<CasterTargetView> {
    cs + casters_with_indices(matching_indices(chars, sv, 0), caster_positions(chars, cs))
}

/// What `ClearThisCaster` leaves: only the pairs whose caster is not of the
/// given species.
pub open spec fn cleared_casters(
    chars: Seq<Piece>,
    cs: Seq<CasterTargetView>,
    sv: SpeciesView,
) -> Seq<CasterTargetView> {
    cs.filter(|c: CasterTargetView| chars[c.caster as int].species@ != sv)
}

/// Append the indices in `found` as fresh casters sharing `targets`.
fn append_casters(syn: &mut Synapse, found: &Vec<usize>, targets: &Vec<(i32, i32, i32)>)
    ensures
        final(syn)@.casters == old(syn)@.casters + casters_with_indices(found@, targets@),
        final(syn).momentum == old(syn).momentum,
        final(syn).pulse == old(syn).pulse,
        final(syn).visited@ == old(syn).visited@,
{
    let n = found.len();
    let mut i: usize = 0;
    proof {
        assert(cviews(syn.casters@) =~= old(syn)@.casters + casters_with_indices(
            found@.subrange(0, 0),
            targets@,
        ));
    }
    while i < n
        invariant
            n == found@.len(),
            0 <= i <= n,
            cviews(syn.casters@) == old(syn)@.casters + casters_with_indices(
                found@.subrange(0, i as int),
                targets@,
            ),
            syn.momentum == old(syn).momentum,
            syn.pulse == old(syn).pulse,
            syn.visited@ == old(syn).visited@,
        decreases n - i,
    {
        let idx = found[i];
        let ghost prev = syn.casters@;
        let ghost ctv = CasterTargetView { caster: idx, targets: targets@ };
        syn.casters.push(CasterTarget::new(idx, clone_coords(targets)));
        proof {
            assert(syn.casters@.len() == prev.len() + 1);
            assert(syn.casters@[syn.casters@.len() - 1]@ =~= ctv);
            assert(forall|j: int| 0 <= j < prev.len() ==> syn.casters@[j] == prev[j]);
            assert(cviews(syn.casters@) =~~= cviews(prev).push(syn.casters@[prev.len() as int]@));
            assert(cviews(syn.casters@) =~~= cviews(prev).push(ctv));
            assert(found@.subrange(0, i + 1) =~= found@.subrange(0, i as int).push(idx));
            assert(casters_with_indices(found@.subrange(0, i + 1), targets@) =~= casters_with_indices(
                found@.subrange(0, i as int),
                targets@,
            ).push(CasterTargetView { caster: idx, targets: targets@ }));
            assert(cviews(syn.casters@) =~~= old(syn)@.casters + casters_with_indices(
                found@.subrange(0, i + 1),
                targets@,
            ));
        }
        i = i + 1;
    }
    proof {
        assert(found@.subrange(0, n as int) =~= found@);
    }
}

/// `SelectSpecies`: anoint all pieces of a given species as casters.
fn effect_select_species(syn: &mut Synapse, mgr: &Manager, species: &Species)
    ensures
        final(syn)@.casters == selected_casters(mgr.characters@, old(syn)@.casters, species@),
        final(syn).momentum == old(syn).momentum,
        final(syn).pulse == old(syn).pulse,
        final(syn).visited@ == old(syn).visited@,
{
    let found = mgr.get_characters_of_species(species);
    let empty: Vec<(i32, i32, i32)> = Vec::new();
    append_casters(syn, &found, &empty);
}

/// `SelectRealityAnchor`: anoint the world's anchor piece as a caster.
fn effect_select_anchor(syn: &mut Synapse, mgr: &Manager)
    ensures
        final(syn)@.casters == old(syn)@.casters.push(
            CasterTargetView { caster: mgr.reality_anchor, targets: Seq::empty() },
        ),
        final(syn).momentum == old(syn).momentum,
        final(syn).pulse == old(syn).pulse,
        final(syn).visited@ == old(syn).visited@,
{
    syn.casters.push(CasterTarget::new(mgr.reality_anchor, Vec::new()));
    proof {
        assert(cviews(syn.casters@) =~= old(syn)@.casters.push(
            CasterTargetView { caster: mgr.reality_anchor, targets: Seq::empty() },
        ));
    }
}

/// `AnointToTarget`: the casters' positions become a shared target list for
/// every piece of the species, appended as new casters.
fn effect_anoint(syn: &mut Synapse, mgr: &Manager, species: &Species)
    requires
        old(syn)@.wf(mgr.characters@.len()),
    ensures
        final(syn)@.casters == anointed_casters(mgr.characters@, old(syn)@.casters, species@),
        final(syn).momentum == old(syn).momentum,
        final(syn).pulse == old(syn).pulse,
        final(syn).visited@ == old(syn).visited@,
{
    let mut positions: Vec<(i32, i32, i32)> = Vec::new();
    let n = syn.casters.len();
    let mut i: usize = 0;
    while i < n
        invariant
            n == syn.casters@.len(),
            n == old(syn).casters@.len(),
            0 <= i <= n,
            syn@.wf(mgr.characters@.len()),
            positions@ =~= caster_positions(mgr.characters@, cviews(syn.casters@)).subrange(
                0,
                i as int,
            ),
        decreases n - i,
    {
        proof {
            assert(syn@.casters[i as int].caster < mgr.characters@.len());
        }
        let c = &syn.casters[i];
        let p = &mgr.characters[c.caster];
        positions.push((p.x, p.y, p.z));
        proof {
            assert(caster_positions(mgr.characters@, cviews(syn.casters@)).subrange(0, i + 1)
                =~= caster_positions(mgr.characters@, cviews(syn.casters@)).subrange(
                0,
                i as int,
            ).push(piece_pos(mgr.characters@[syn.casters@[i as int]@.caster as int])));
        }
        i = i + 1;
    }
    proof {
        assert(positions@ =~= caster_positions(mgr.characters@, cviews(syn.casters@)));
    }
    let found = mgr.get_characters_of_species(species);
    append_casters(syn, &found, &positions);
}

/// `ClearThisCaster`: drop every caster/target pair whose caster is of the
/// given species.
fn effect_clear_caster(syn: &mut Synapse, mgr: &Manager, species: &Species)
    requires
        old(syn)@.wf(mgr.characters@.len()),
    ensures
        final(syn)@.casters == cleared_casters(mgr.characters@, old(syn)@.casters, species@),
        final(syn)@.wf(mgr.characters@.len()),
        final(syn).momentum == old(syn).momentum,
        final(syn).pulse == old(syn).pulse,
        final(syn).visited@ == old(syn).visited@,
{
    let ghost pred = |c: CasterTargetView| mgr.characters@[c.caster as int].species@ != species@;
    let mut kept: Vec<CasterTarget> = Vec::new();
    let n = syn.casters.len();
    let mut i: usize = 0;
    proof {
        assert(cviews(syn.casters@).subrange(0, 0).filter(pred) =~= Seq::<
            CasterTargetView,
        >::empty());
        assert(cviews(kept@) =~= Seq::<CasterTargetView>::empty());
    }
    while i < n
        invariant
            n == syn.casters@.len(),
            n == old(syn).casters@.len(),
            0 <= i <= n,
            syn@.wf(mgr.characters@.len()),
            pred == (|c: CasterTargetView| mgr.characters@[c.caster as int].species@ != species@),
            cviews(kept@) == cviews(syn.casters@).subrange(0, i as int).filter(pred),
            forall|k: int| 0 <= k < kept@.len() ==> (#[trigger] kept@[k]).caster < mgr.characters@.len(),
            syn.momentum == old(syn).momentum,
            syn.pulse == old(syn).pulse,
            syn.visited@ == old(syn).visited@,
            syn.casters@ == old(syn).casters@,
        decreases n - i,
    {
        proof {
            assert(syn@.casters[i as int].caster < mgr.characters@.len());
        }
        let c = &syn.casters[i];
        let ghost prev = cviews(kept@);
        if !species_eq(&mgr.characters[c.caster].species, species) {
            kept.push(c.clone());
            proof {
                assert(cviews(kept@) =~= prev.push(syn.casters@[i as int]@));
            }
        }
        proof {
            let prefix = cviews(syn.casters@).subrange(0, i + 1);
            assert(prefix.drop_last() =~= cviews(syn.casters@).subrange(0, i as int));
            assert(prefix.last() == syn.casters@[i as int]@);
            reveal_with_fuel(Seq::filter, 2);
        }
        i = i + 1;
    }
    proof {
        assert(cviews(syn.casters@).subrange(0, n as int) =~= cviews(syn.casters@));
    }
    syn.casters = kept;
}

} // verus!

verus! {

/// Whether the four neighbours of a position can be wrapped without
/// overflow.
pub open spec fn neighbor_wrappable(t: (i32, i32, i32)) -> bool {
    &&& i32::MIN + 91 <= t.0 <= i32::MAX - 46
    &&& i32::MIN + 91 <= t.1 <= i32::MAX - 46
}

/// What `SpecificCoord` leaves: the wrapped literal appended to every
/// caster's targets.
pub open spec fn specific_applied(cs: Seq<CasterTargetView>, t: (i32, i32, i32)) -> Seq<
    CasterTargetView,
> {
    cs.map_values(
        |c: CasterTargetView| CasterTargetView {
            caster: c.caster,
            targets: c.targets.push(wrap_point(t)),
        },
    )
}

/// What `CardinalTargeter` leaves: for each caster whose neighbours are
/// wrappable, the wrapped cell one step in the direction appended.
pub open spec fn cardinal_applied(
    chars: Seq<Piece>,
    cs: Seq<CasterTargetView>,
    dir: OrdDir,
) -> Seq<CasterTargetView> {
    cs.map_values(
        |c: CasterTargetView|
            {
                let p = piece_pos(chars[c.caster as int]);
                let off = dir.offset_spec();
                if neighbor_wrappable(p) {
                    CasterTargetView {
                        caster: c.caster,
                        targets: c.targets.push(
                            wrap_point(((p.0 + off.0) as i32, (p.1 + off.1) as i32, p.2)),
                        ),
                    }
                } else {
                    c
                }
            },
    )
}

/// The four orthogonal neighbours of a position, wrapped, in the order the
/// plus targeter emits them.
pub open spec fn plus_neighbors(p: (i32, i32, i32)) -> Seq<(i32, i32, i32)> {
    seq![
        wrap_point(((p.0 - 1) as i32, p.1, p.2)),
        wrap_point(((p.0 + 1) as i32, p.1, p.2)),
        wrap_point((p.0, (p.1 + 1) as i32, p.2)),
        wrap_point((p.0, (p.1 - 1) as i32, p.2)),
    ]
}

/// What `PlusTargeter` leaves: all four wrapped orthogonal neighbours of
/// each (wrappable) caster appended.
pub open spec fn plus_applied(chars: Seq<Piece>, cs: Seq<CasterTargetView>) -> Seq<
    CasterTargetView,
> {
    cs.map_values(
        |c: CasterTargetView|
            {
                let p = piece_pos(chars[c.caster as int]);
                if neighbor_wrappable(p) {
                    CasterTargetView { caster: c.caster, targets: c.targets + plus_neighbors(p) }
                } else {
                    c
                }
            },
    )
}

/// What `SelfTargeter` leaves: each caster's own position appended.
pub open spec fn self_applied(chars: Seq<Piece>, cs: Seq<CasterTargetView>) -> Seq<
    CasterTargetView,
> {
    cs.map_values(
        |c: CasterTargetView| CasterTargetView {
            caster: c.caster,
            targets: c.targets.push(piece_pos(chars[c.caster as int])),
        },
    )
}

/// What `MomentumBeam` leaves: each caster's beam, cast along the momentum
/// of its piece, appended to its targets.
pub open spec fn beam_applied(m: Manager, cs: Seq<CasterTargetView>) -> Seq<CasterTargetView> {
    cs.map_values(
        |c: CasterTargetView|
            {
                let p = piece_pos(m.characters@[c.caster as int]);
                if beam_origin_ok(p) {
                    CasterTargetView {
                        caster: c.caster,
                        targets: c.targets + beam_spec(
                            m,
                            m.characters@[c.caster as int].momentum,
                            p,
                            1,
                        ),
                    }
                } else {
                    c
                }
            },
    )
}

/// What `RealmShift` leaves: every target's layer overwritten.
pub open spec fn realm_applied(cs: Seq<CasterTargetView>, realm: i32) -> Seq<CasterTargetView> {
    cs.map_values(
        |c: CasterTargetView| CasterTargetView {
            caster: c.caster,
            targets: c.targets.map_values(|t: (i32, i32, i32)| (t.0, t.1, realm)),
        },
    )
}

/// `SpecificCoord`: target this specific coordinate, wrapped.
fn effect_specific(syn: &mut Synapse, coord: (i32, i32, i32))
    ensures
        final(syn)@.casters == specific_applied(old(syn)@.casters, coord),
        final(syn).momentum == old(syn).momentum,
        final(syn).pulse == old(syn).pulse,
        final(syn).visited@ == old(syn).visited@,
{
    let w = map_wrap(coord.0, coord.1, coord.2);
    let n = syn.casters.len();
    let mut i: usize = 0;
    while i < n
        invariant
            n == syn.casters@.len(),
            n == old(syn).casters@.len(),
            0 <= i <= n,
            w == wrap_point(coord),
            forall|j: int|
                0 <= j < i ==> syn.casters@[j]@ =~= (CasterTargetView {
                    caster: old(syn).casters@[j]@.caster,
                    targets: old(syn).casters@[j]@.targets.push(w),
                }),
            forall|j: int| i <= j < n ==> syn.casters@[j] == old(syn).casters@[j],
            syn.momentum == old(syn).momentum,
            syn.pulse == old(syn).pulse,
            syn.visited@ == old(syn).visited@,
        decreases n - i,
    {
        let ct = &mut syn.casters[i];
        ct.targets.push(w);
        i = i + 1;
    }
    proof {
        assert(cviews(syn.casters@) =~~= specific_applied(old(syn)@.casters, coord));
    }
}

/// `CardinalTargeter`: target an adjacent tile to each caster.
fn effect_cardinal(syn: &mut Synapse, mgr: &Manager, dir: OrdDir)
    requires
        old(syn)@.wf(mgr.characters@.len()),
    ensures
        final(syn)@.casters == cardinal_applied(mgr.characters@, old(syn)@.casters, dir),
        final(syn).momentum == old(syn).momentum,
        final(syn).pulse == old(syn).pulse,
        final(syn).visited@ == old(syn).visited@,
{
    let off = dir.as_offset();
    let n = syn.casters.len();
    let mut i: usize = 0;
    while i < n
        invariant
            n == syn.casters@.len(),
            n == old(syn).casters@.len(),
            0 <= i <= n,
            old(syn)@.wf(mgr.characters@.len()),
            off == dir.offset_spec(),
            forall|j: int|
                0 <= j < i ==> syn.casters@[j]@ =~= cardinal_applied(
                    mgr.characters@,
                    old(syn)@.casters,
                    dir,
                )[j],
            forall|j: int| i <= j < n ==> syn.casters@[j] == old(syn).casters@[j],
            syn.momentum == old(syn).momentum,
            syn.pulse == old(syn).pulse,
            syn.visited@ == old(syn).visited@,
        decreases n - i,
    {
        proof {
            assert(old(syn)@.casters[i as int].caster < mgr.characters@.len());
            assert(-1 <= off.0 <= 1 && -1 <= off.1 <= 1);
        }
        let caster_idx = syn.casters[i].caster;
        let p = &mgr.characters[caster_idx];
        let (px, py, pz) = (p.x, p.y, p.z);
        if i32::MIN + 91 <= px && px <= i32::MAX - 46 && i32::MIN + 91 <= py && py
            <= i32::MAX - 46 {
            let w = map_wrap(px + off.0, py + off.1, pz);
            let ct = &mut syn.casters[i];
            ct.targets.push(w);
        }
        i = i + 1;
    }
    proof {
        assert(cviews(syn.casters@) =~~= cardinal_applied(
            mgr.characters@,
            old(syn)@.casters,
            dir,
        ));
    }
}

/// `PlusTargeter`: target all orthogonal tiles of each caster.
fn effect_plus(syn: &mut Synapse, mgr: &Manager)
    requires
        old(syn)@.wf(mgr.characters@.len()),
    ensures
        final(syn)@.casters == plus_applied(mgr.characters@, old(syn)@.casters),
        final(syn).momentum == old(syn).momentum,
        final(syn).pulse == old(syn).pulse,
        final(syn).visited@ == old(syn).visited@,
{
    let n = syn.casters.len();
    let mut i: usize = 0;
    while i < n
        invariant
            n == syn.casters@.len(),
            n == old(syn).casters@.len(),
            0 <= i <= n,
            old(syn)@.wf(mgr.characters@.len()),
            forall|j: int|
                0 <= j < i ==> syn.casters@[j]@ =~= plus_applied(
                    mgr.characters@,
                    old(syn)@.casters,
                )[j],
            forall|j: int| i <= j < n ==> syn.casters@[j] == old(syn).casters@[j],
            syn.momentum == old(syn).momentum,
            syn.pulse == old(syn).pulse,
            syn.visited@ == old(syn).visited@,
        decreases n - i,
    {
        proof {
            assert(old(syn)@.casters[i as int].caster < mgr.characters@.len());
        }
        let caster_idx = syn.casters[i].caster;
        let p = &mgr.characters[caster_idx];
        let (px, py, pz) = (p.x, p.y, p.z);
        if i32::MIN + 91 <= px && px <= i32::MAX - 46 && i32::MIN + 91 <= py && py
            <= i32::MAX - 46 {
            let w0 = map_wrap(px - 1, py, pz);
            let w1 = map_wrap(px + 1, py, pz);
            let w2 = map_wrap(px, py + 1, pz);
            let w3 = map_wrap(px, py - 1, pz);
            let ct = &mut syn.casters[i];
            ct.targets.push(w0);
            ct.targets.push(w1);
            ct.targets.push(w2);
            ct.targets.push(w3);
            proof {
                assert(syn.casters@[i as int]@.targets =~= old(syn)@.casters[i as int].targets
                    + plus_neighbors((px, py, pz)));
            }
        }
        i = i + 1;
    }
    proof {
        assert(cviews(syn.casters@) =~~= plus_applied(mgr.characters@, old(syn)@.casters));
    }
}

/// `SelfTargeter`: target the tiles the casters stand on.
fn effect_self(syn: &mut Synapse, mgr: &Manager)
    requires
        old(syn)@.wf(mgr.characters@.len()),
    ensures
        final(syn)@.casters == self_applied(mgr.characters@, old(syn)@.casters),
        final(syn).momentum == old(syn).momentum,
        final(syn).pulse == old(syn).pulse,
        final(syn).visited@ == old(syn).visited@,
{
    let n = syn.casters.len();
    let mut i: usize = 0;
    while i < n
        invariant
            n == syn.casters@.len(),
            n == old(syn).casters@.len(),
            0 <= i <= n,
            old(syn)@.wf(mgr.characters@.len()),
            forall|j: int|
                0 <= j < i ==> syn.casters@[j]@ =~= self_applied(
                    mgr.characters@,
                    old(syn)@.casters,
                )[j],
            forall|j: int| i <= j < n ==> syn.casters@[j] == old(syn).casters@[j],
            syn.momentum == old(syn).momentum,
            syn.pulse == old(syn).pulse,
            syn.visited@ == old(syn).visited@,
        decreases n - i,
    {
        proof {
            assert(old(syn)@.casters[i as int].caster < mgr.characters@.len());
        }
        let caster_idx = syn.casters[i].caster;
        let p = &mgr.characters[caster_idx];
        let pos = (p.x, p.y, p.z);
        let ct = &mut syn.casters[i];
        ct.targets.push(pos);
        i = i + 1;
    }
    proof {
        assert(cviews(syn.casters@) =~~= self_applied(mgr.characters@, old(syn)@.casters));
    }
}

/// `MomentumBeam`: target tiles with a beam shooting from each caster in the
/// direction of its momentum.
fn effect_beam(syn: &mut Synapse, mgr: &Manager)
    requires
        old(syn)@.wf(mgr.characters@.len()),
    ensures
        final(syn)@.casters == beam_applied(*mgr, old(syn)@.casters),
        final(syn).momentum == old(syn).momentum,
        final(syn).pulse == old(syn).pulse,
        final(syn).visited@ == old(syn).visited@,
{
    let n = syn.casters.len();
    let mut i: usize = 0;
    while i < n
        invariant
            n == syn.casters@.len(),
            n == old(syn).casters@.len(),
            0 <= i <= n,
            old(syn)@.wf(mgr.characters@.len()),
            forall|j: int|
                0 <= j < i ==> syn.casters@[j]@ =~= beam_applied(*mgr, old(syn)@.casters)[j],
            forall|j: int| i <= j < n ==> syn.casters@[j] == old(syn).casters@[j],
            syn.momentum == old(syn).momentum,
            syn.pulse == old(syn).pulse,
            syn.visited@ == old(syn).visited@,
        decreases n - i,
    {
        proof {
            assert(old(syn)@.casters[i as int].caster < mgr.characters@.len());
        }
        let caster_idx = syn.casters[i].caster;
        let p = &mgr.characters[caster_idx];
        let (px, py, pz) = (p.x, p.y, p.z);
        let dir = p.momentum;
        if i32::MIN + 190 <= px && px <= i32::MAX - 145 && i32::MIN + 190 <= py && py
            <= i32::MAX - 145 {
            let mut beam = beam_from_point(mgr, dir, (px, py, pz));
            let ghost before = syn.casters@[i as int]@.targets;
            let ct = &mut syn.casters[i];
            ct.targets.append(&mut beam);
            proof {
                assert(syn.casters@[i as int]@.targets =~= before + beam_spec(
                    *mgr,
                    dir,
                    (px, py, pz),
                    1,
                ));
            }
        }
        i = i + 1;
    }
    proof {
        assert(cviews(syn.casters@) =~~= beam_applied(*mgr, old(syn)@.casters));
    }
}

/// `RealmShift`: every target's layer becomes `realm`.
fn effect_realm_shift(syn: &mut Synapse, realm: i32)
    ensures
        final(syn)@.casters == realm_applied(old(syn)@.casters, realm),
        final(syn).momentum == old(syn).momentum,
        final(syn).pulse == old(syn).pulse,
        final(syn).visited@ == old(syn).visited@,
{
    let n = syn.casters.len();
    let mut i: usize = 0;
    while i < n
        invariant
            n == syn.casters@.len(),
            n == old(syn).casters@.len(),
            0 <= i <= n,
            forall|j: int|
                0 <= j < i ==> syn.casters@[j]@ =~= realm_applied(old(syn)@.casters, realm)[j],
            forall|j: int| i <= j < n ==> syn.casters@[j] == old(syn).casters@[j],
            syn.momentum == old(syn).momentum,
            syn.pulse == old(syn).pulse,
            syn.visited@ == old(syn).visited@,
        decreases n - i,
    {
        let m = syn.casters[i].targets.len();
        let mut k: usize = 0;
        while k < m
            invariant
                0 <= i < n,
                n == syn.casters@.len(),
                m == syn.casters@[i as int]@.targets.len(),
                0 <= k <= m,
                forall|l: int|
                    0 <= l < k ==> syn.casters@[i as int]@.targets[l] == ((
                    old(syn).casters@[i as int]@.targets[l].0,
                    old(syn).casters@[i as int]@.targets[l].1,
                    realm,
                )),
                forall|l: int|
                    k <= l < m ==> syn.casters@[i as int]@.targets[l] == old(
                        syn,
                    ).casters@[i as int]@.targets[l],
                syn.casters@[i as int]@.caster == old(syn).casters@[i as int]@.caster,
                forall|j: int|
                    0 <= j < i ==> syn.casters@[j]@ =~= realm_applied(old(syn)@.casters, realm)[j],
                forall|j: int| i < j < n ==> syn.casters@[j] == old(syn).casters@[j],
                syn.momentum == old(syn).momentum,
                syn.pulse == old(syn).pulse,
                syn.visited@ == old(syn).visited@,
            decreases m - k,
        {
            let ct = &mut syn.casters[i];
            let t = ct.targets[k];
            let tr = &mut ct.targets[k];
            *tr = (t.0, t.1, realm);
            k = k + 1;
        }
        proof {
            assert(syn.casters@[i as int]@ =~= realm_applied(old(syn)@.casters, realm)[i as int]);
        }
        i = i + 1;
    }
    proof {
        assert(cviews(syn.casters@) =~~= realm_applied(old(syn)@.casters, realm));
    }
}

} // verus!

verus! {

/// Whether a tile may serve as the centre of a radius-bounded circle whose
/// points can still be wrapped.
pub open spec fn circle_center_ok(t: (i32, i32, i32)) -> bool {
    &&& i32::MIN + 46430 <= t.0 <= i32::MAX - 46385
    &&& i32::MIN + 46430 <= t.1 <= i32::MAX - 46385
}

/// The largest circle radius the engine will rasterize; anything larger
/// would overflow the squared arithmetic of the generator.
pub const MAX_CIRCLE_RADIUS: usize = 46340;

/// The wrapped, clockwise-sorted candidate points of an orbit around `t`.
pub open spec fn orbit_candidates(t: (i32, i32, i32), radius: int) -> Seq<(i32, i32, i32)> {
    sort_clockwise_spec(t, circle_points(t, radius)).map_values(
        |p: (i32, i32, i32)| wrap_point(p),
    )
}

/// The single orbit point the turn counter selects: candidate number
/// `turns mod count`, so that larger circles cycle more slowly.
pub open spec fn orbit_point_spec(t: (i32, i32, i32), radius: int, turns: int) -> (i32, i32, i32) {
    let cands = orbit_candidates(t, radius);
    cands[turns % (cands.len() as int)]
}

/// What `Orbit` leaves: every (safe) target replaced by its orbit point.
pub open spec fn orbit_applied(cs: Seq<CasterTargetView>, radius: int, turns: int) -> Seq<
    CasterTargetView,
> {
    if radius > MAX_CIRCLE_RADIUS {
        cs
    } else {
        cs.map_values(
            |c: CasterTargetView| CasterTargetView {
                caster: c.caster,
                targets: c.targets.map_values(
                    |t: (i32, i32, i32)|
                        if circle_center_ok(t) {
                            orbit_point_spec(t, radius, turns)
                        } else {
                            t
                        },
                ),
            },
        )
    }
}

/// The halo around one target: the whole sorted outline where the circle
/// can be built, and the bare target where it cannot.
pub open spec fn halo_of(t: (i32, i32, i32), radius: int) -> Seq<(i32, i32, i32)> {
    if circle_center_ok(t) {
        sort_clockwise_spec(t, circle_points(t, radius))
    } else {
        seq![t]
    }
}

/// What `Halo` leaves: every target replaced by its full circle outline.
pub open spec fn halo_applied(cs: Seq<CasterTargetView>, radius: int) -> Seq<CasterTargetView> {
    if radius > MAX_CIRCLE_RADIUS {
        cs
    } else {
        cs.map_values(
            |c: CasterTargetView| CasterTargetView {
                caster: c.caster,
                targets: c.targets.map_values(
                    |t: (i32, i32, i32)| halo_of(t, radius),
                ).flatten(),
            },
        )
    }
}

/// The orbit point around `t` for the given turn count.
fn orbit_pick(t: (i32, i32, i32), radius: usize, turns: usize) -> (r: (i32, i32, i32))
    requires
        radius <= MAX_CIRCLE_RADIUS,
        circle_center_ok(t),
    ensures
        r == orbit_point_spec(t, radius as int, turns as int),
{
    let circle = circle_around(&t, radius as i32);
    let sorted = sort_clockwise(&t, &circle);
    proof {
        broadcast use vstd::seq_lib::group_seq_properties;
        broadcast use Seq::to_multiset_ensures;

        lemma_sort_clockwise_distinct(t, circle@);
        assert(sorted@.len() >= 1);
    }
    let mut wrapped: Vec<(i32, i32, i32)> = Vec::new();
    let n = sorted.len();
    let mut k: usize = 0;
    while k < n
        invariant
            n == sorted@.len(),
            0 <= k <= n,
            circle_center_ok(t),
            wrapped@.len() == k,
            forall|l: int| 0 <= l < k ==> wrapped@[l] == wrap_point(#[trigger] sorted@[l]),
        decreases n - k,
    {
        let p = sorted[k];
        let w = map_wrap(p.0, p.1, p.2);
        wrapped.push(w);
        k = k + 1;
    }
    proof {
        assert(wrapped@ =~= orbit_candidates(t, radius as int));
    }
    let idx = turns % wrapped.len();
    wrapped[idx]
}

/// `Orbit`: each target becomes the turn-selected point of a circle of the
/// given radius around it.
fn effect_orbit(syn: &mut Synapse, radius: usize, turns: usize)
    ensures
        final(syn)@.casters == orbit_applied(old(syn)@.casters, radius as int, turns as int),
        final(syn).momentum == old(syn).momentum,
        final(syn).pulse == old(syn).pulse,
        final(syn).visited@ == old(syn).visited@,
{
    if radius > MAX_CIRCLE_RADIUS {
        return ;
    }
    let n = syn.casters.len();
    let mut i: usize = 0;
    while i < n
        invariant
            n == syn.casters@.len(),
            n == old(syn).casters@.len(),
            0 <= i <= n,
            radius <= MAX_CIRCLE_RADIUS,
            forall|j: int|
                0 <= j < i ==> syn.casters@[j]@ =~= orbit_applied(
                    old(syn)@.casters,
                    radius as int,
                    turns as int,
                )[j],
            forall|j: int| i <= j < n ==> syn.casters@[j] == old(syn).casters@[j],
            syn.momentum == old(syn).momentum,
            syn.pulse == old(syn).pulse,
            syn.visited@ == old(syn).visited@,
        decreases n - i,
    {
        let m = syn.casters[i].targets.len();
        let mut k: usize = 0;
        while k < m
            invariant
                0 <= i < n,
                n == syn.casters@.len(),
                radius <= MAX_CIRCLE_RADIUS,
                m == syn.casters@[i as int]@.targets.len(),
                m == old(syn).casters@[i as int]@.targets.len(),
                0 <= k <= m,
                forall|l: int|
                    0 <= l < k ==> syn.casters@[i as int]@.targets[l] == ({
                        let t = old(syn).casters@[i as int]@.targets[l];
                        if circle_center_ok(t) {
                            orbit_point_spec(t, radius as int, turns as int)
                        } else {
                            t
                        }
                    }),
                forall|l: int|
                    k <= l < m ==> syn.casters@[i as int]@.targets[l] == old(
                        syn,
                    ).casters@[i as int]@.targets[l],
                syn.casters@[i as int]@.caster == old(syn).casters@[i as int]@.caster,
                forall|j: int|
                    0 <= j < i ==> syn.casters@[j]@ =~= orbit_applied(
                        old(syn)@.casters,
                        radius as int,
                        turns as int,
                    )[j],
                forall|j: int| i < j < n ==> syn.casters@[j] == old(syn).casters@[j],
                syn.momentum == old(syn).momentum,
                syn.pulse == old(syn).pulse,
                syn.visited@ == old(syn).visited@,
            decreases m - k,
        {
            let ct = &syn.casters[i];
            let t = ct.targets[k];
            if i32::MIN + 46430 <= t.0 && t.0 <= i32::MAX - 46385 && i32::MIN + 46430 <= t.1
                && t.1 <= i32::MAX - 46385 {
                let p = orbit_pick(t, radius, turns);
                let ct = &mut syn.casters[i];
                let tr = &mut ct.targets[k];
                *tr = p;
            }
            k = k + 1;
        }
        proof {
            assert(syn.casters@[i as int]@ =~= orbit_applied(
                old(syn)@.casters,
                radius as int,
                turns as int,
            )[i as int]);
        }
        i = i + 1;
    }
    proof {
        assert(cviews(syn.casters@) =~~= orbit_applied(
            old(syn)@.casters,
            radius as int,
            turns as int,
        ));
    }
}

/// `Halo`: each target becomes the whole outline of a circle of the given
/// radius around it.
fn effect_halo(syn: &mut Synapse, radius: usize)
    ensures
        final(syn)@.casters == halo_applied(old(syn)@.casters, radius as int),
        final(syn).momentum == old(syn).momentum,
        final(syn).pulse == old(syn).pulse,
        final(syn).visited@ == old(syn).visited@,
{
    if radius > MAX_CIRCLE_RADIUS {
        return ;
    }
    let n = syn.casters.len();
    let mut i: usize = 0;
    while i < n
        invariant
            n == syn.casters@.len(),
            n == old(syn).casters@.len(),
            0 <= i <= n,
            radius <= MAX_CIRCLE_RADIUS,
            forall|j: int|
                0 <= j < i ==> syn.casters@[j]@ =~= halo_applied(
                    old(syn)@.casters,
                    radius as int,
                )[j],
            forall|j: int| i <= j < n ==> syn.casters@[j] == old(syn).casters@[j],
            syn.momentum == old(syn).momentum,
            syn.pulse == old(syn).pulse,
            syn.visited@ == old(syn).visited@,
        decreases n - i,
    {
        let ghost old_targets = syn.casters@[i as int]@.targets;
        let ghost f = |t: (i32, i32, i32)| halo_of(t, radius as int);
        let m = syn.casters[i].targets.len();
        let mut halo: Vec<(i32, i32, i32)> = Vec::new();
        let mut k: usize = 0;
        proof {
            assert(old_targets.subrange(0, 0).map_values(f).flatten() =~= Seq::<
                (i32, i32, i32),
            >::empty());
        }
        while k < m
            invariant
                0 <= i < n,
                n == syn.casters@.len(),
                radius <= MAX_CIRCLE_RADIUS,
                old_targets == syn.casters@[i as int]@.targets,
                m == old_targets.len(),
                0 <= k <= m,
                f == (|t: (i32, i32, i32)| halo_of(t, radius as int)),
                halo@ == old_targets.subrange(0, k as int).map_values(f).flatten(),
            decreases m - k,
        {
            let ct = &syn.casters[i];
            let t = ct.targets[k];
            let ghost before = halo@;
            if i32::MIN + 46430 <= t.0 && t.0 <= i32::MAX - 46385 && i32::MIN + 46430 <= t.1
                && t.1 <= i32::MAX - 46385 {
                let circle = circle_around(&t, radius as i32);
                let mut sorted = sort_clockwise(&t, &circle);
                halo.append(&mut sorted);
            } else {
                halo.push(t);
            }
            proof {
                broadcast use Seq::lemma_flatten_push;

                assert(halo@ =~= before + f(t));
                let prefix1 = old_targets.subrange(0, k + 1);
                assert(prefix1.drop_last() =~= old_targets.subrange(0, k as int));
                assert(prefix1.map_values(f).drop_last() =~= prefix1.drop_last().map_values(f));
                assert(prefix1.map_values(f) =~= prefix1.drop_last().map_values(f).push(f(t)));
                assert(halo@ =~= old_targets.subrange(0, k + 1).map_values(f).flatten());
            }
            k = k + 1;
        }
        proof {
            assert(old_targets.subrange(0, m as int) =~= old_targets);
        }
        let ct = &mut syn.casters[i];
        ct.targets = halo;
        proof {
            assert(syn.casters@[i as int]@ =~= halo_applied(
                old(syn)@.casters,
                radius as int,
            )[i as int]);
        }
        i = i + 1;
    }
    proof {
        assert(cviews(syn.casters@) =~~= halo_applied(old(syn)@.casters, radius as int));
    }
}

} // verus!

verus! {

/// A collision species as a (possibly empty) queue contribution.
pub open spec fn opt_species_seq(o: Option<Species>) -> Seq<Species> {
    match o {
        Option::Some(s) => seq![s],
        Option::None => Seq::empty(),
    }
}

/// One caster's teleport: filter its targets to the free ones, pick the
/// nearest survivor, and attempt the displacement; the collision species, if
/// one arises from wrapping onto an occupied cell, is queued.
pub open spec fn teleport_step(chars: Seq<Piece>, c: CasterTargetView) -> (Seq<Piece>, Seq<Species>) {
    let filtered = c.targets.filter(|t: (i32, i32, i32)| free_at(chars, t));
    let cpos = piece_pos(chars[c.caster as int]);
    match spec_closest(filtered, cpos) {
        Option::None => (chars, Seq::empty()),
        Option::Some(dest) => {
            let r = crate::world::teleport_result(chars, c.caster as int, dest);
            (r.0, opt_species_seq(r.1))
        },
    }
}

/// What `Teleport` leaves: each caster teleported in turn, with the
/// collision species the attempts produced, in order.
pub open spec fn teleport_all(chars: Seq<Piece>, cs: Seq<CasterTargetView>, k: int) -> (
    Seq<Piece>,
    Seq<Species>,
)
    decreases cs.len() - k,
{
    if k < 0 || k >= cs.len() {
        (chars, Seq::empty())
    } else {
        let step = teleport_step(chars, cs[k]);
        let rest = teleport_all(step.0, cs, k + 1);
        (rest.0, step.1 + rest.1)
    }
}

/// `Teleport`: teleport each caster to its closest unoccupied target.
fn effect_teleport(syn: &Synapse, mgr: &mut Manager, collisions: &mut Vec<Species>)
    requires
        syn@.wf(old(mgr).characters@.len()),
        old(mgr).wf(),
    ensures
        final(mgr).characters@ == teleport_all(old(mgr).characters@, syn@.casters, 0).0,
        final(collisions)@ == old(collisions)@ + teleport_all(
            old(mgr).characters@,
            syn@.casters,
            0,
        ).1,
        final(mgr).wf(),
        final(mgr).characters@.len() == old(mgr).characters@.len(),
        final(mgr).reality_anchor == old(mgr).reality_anchor,
        final(mgr).effects@ == old(mgr).effects@,
        final(mgr).turn_count == old(mgr).turn_count,
        final(mgr).location == old(mgr).location,
        final(mgr).current_level == old(mgr).current_level,
{
    let n = syn.casters.len();
    let mut i: usize = 0;
    proof {
        assert(old(collisions)@ + Seq::<Species>::empty() =~= old(collisions)@);
    }
    while i < n
        invariant
            n == syn.casters@.len(),
            0 <= i <= n,
            syn@.wf(mgr.characters@.len()),
            mgr.wf(),
            mgr.characters@.len() == old(mgr).characters@.len(),
            mgr.reality_anchor == old(mgr).reality_anchor,
            mgr.effects@ == old(mgr).effects@,
            mgr.turn_count == old(mgr).turn_count,
            mgr.location == old(mgr).location,
            mgr.current_level == old(mgr).current_level,
            teleport_all(old(mgr).characters@, syn@.casters, 0).0 == teleport_all(
                mgr.characters@,
                syn@.casters,
                i as int,
            ).0,
            old(collisions)@ + teleport_all(old(mgr).characters@, syn@.casters, 0).1
                =~= collisions@ + teleport_all(mgr.characters@, syn@.casters, i as int).1,
        decreases n - i,
    {
        proof {
            assert(syn@.casters[i as int].caster < mgr.characters@.len());
        }
        let ghost chars0 = mgr.characters@;
        let ct = &syn.casters[i];
        let filtered = filter_targets_by_unoccupied(mgr, &ct.targets);
        let me = &mgr.characters[ct.caster];
        let cpos = (me.x, me.y, me.z);
        let dest = find_closest_coordinate(&filtered, cpos);
        proof {
            assert(cviews(syn.casters@)[i as int] == ct@);
            assert(filtered@ == ct.targets@.filter(
                |t: (i32, i32, i32)| free_at(chars0, t),
            ));
        }
        match dest {
            Some(d) => {
                let (_moved, hit) = mgr.teleport_core(ct.caster, d.0, d.1, d.2);
                match hit {
                    Some(s) => {
                        collisions.push(s);
                    },
                    None => {},
                }
            },
            None => {},
        }
        proof {
            let step = teleport_step(chars0, syn@.casters[i as int]);
            assert(mgr.characters@ == step.0);
            assert(teleport_all(chars0, syn@.casters, i as int) == (
                teleport_all(step.0, syn@.casters, i + 1).0,
                step.1 + teleport_all(step.0, syn@.casters, i + 1).1,
            ));
            assert(old(collisions)@ + teleport_all(old(mgr).characters@, syn@.casters, 0).1
                =~= collisions@ + teleport_all(mgr.characters@, syn@.casters, i + 1).1);
        }
        i = i + 1;
    }
    proof {
        assert(final(collisions)@ =~= old(collisions)@ + teleport_all(
            old(mgr).characters@,
            syn@.casters,
            0,
        ).1);
    }
}

} // verus!

verus! {

/// One caster's twinning sweep: each target's first occupant, in order,
/// takes on the caster's species.
pub open spec fn twin_sweep(
    chars: Seq<Piece>,
    sp: Species,
    targets: Seq<(i32, i32, i32)>,
    k: int,
) -> Seq<Piece>
    decreases targets.len() - k,
{
    if k < 0 || k >= targets.len() {
        chars
    } else {
        let j = spec_first_at(chars, targets[k], 0);
        let chars2 = if j < chars.len() {
            chars.update(j, (Piece { species: sp, ..chars[j] }))
        } else {
            chars
        };
        twin_sweep(chars2, sp, targets, k + 1)
    }
}

/// What `Twinning` leaves: caster by caster, every targeted occupant
/// rewritten to the caster's own (current) species.
pub open spec fn twin_all(chars: Seq<Piece>, cs: Seq<CasterTargetView>, k: int) -> Seq<Piece>
    decreases cs.len() - k,
{
    if k < 0 || k >= cs.len() {
        chars
    } else {
        let sp = chars[cs[k].caster as int].species;
        twin_all(twin_sweep(chars, sp, cs[k].targets, 0), cs, k + 1)
    }
}

/// `Twinning`: transform each target's occupant into a clone of the caster.
fn effect_twinning(syn: &Synapse, mgr: &mut Manager)
    requires
        syn@.wf(old(mgr).characters@.len()),
        old(mgr).wf(),
    ensures
        final(mgr).characters@ == twin_all(old(mgr).characters@, syn@.casters, 0),
        final(mgr).wf(),
        final(mgr).characters@.len() == old(mgr).characters@.len(),
        final(mgr).reality_anchor == old(mgr).reality_anchor,
        final(mgr).effects@ == old(mgr).effects@,
        final(mgr).turn_count == old(mgr).turn_count,
        final(mgr).location == old(mgr).location,
        final(mgr).current_level == old(mgr).current_level,
{
    let n = syn.casters.len();
    let mut i: usize = 0;
    while i < n
        invariant
            n == syn.casters@.len(),
            0 <= i <= n,
            syn@.wf(mgr.characters@.len()),
            mgr.wf(),
            mgr.characters@.len() == old(mgr).characters@.len(),
            mgr.reality_anchor == old(mgr).reality_anchor,
            mgr.effects@ == old(mgr).effects@,
            mgr.turn_count == old(mgr).turn_count,
            mgr.location == old(mgr).location,
            mgr.current_level == old(mgr).current_level,
            twin_all(old(mgr).characters@, syn@.casters, 0) == twin_all(
                mgr.characters@,
                syn@.casters,
                i as int,
            ),
        decreases n - i,
    {
        proof {
            assert(syn@.casters[i as int].caster < mgr.characters@.len());
        }
        let ghost chars_start = mgr.characters@;
        let ct = &syn.casters[i];
        let sp = mgr.characters[ct.caster].species.clone();
        let m = ct.targets.len();
        let mut k: usize = 0;
        while k < m
            invariant
                0 <= i < n,
                n == syn.casters@.len(),
                m == syn.casters@[i as int]@.targets.len(),
                0 <= k <= m,
                sp == chars_start[syn@.casters[i as int].caster as int].species,
                mgr.wf(),
                mgr.characters@.len() == chars_start.len(),
                mgr.reality_anchor == old(mgr).reality_anchor,
                mgr.effects@ == old(mgr).effects@,
                mgr.turn_count == old(mgr).turn_count,
                mgr.location == old(mgr).location,
                mgr.current_level == old(mgr).current_level,
                twin_sweep(chars_start, sp, syn@.casters[i as int].targets, 0) == twin_sweep(
                    mgr.characters@,
                    sp,
                    syn@.casters[i as int].targets,
                    k as int,
                ),
            decreases m - k,
        {
            proof {
                assert(cviews(syn.casters@)[i as int] == syn.casters@[i as int]@);
            }
            let t = syn.casters[i].targets[k];
            let ghost chars_k = mgr.characters@;
            match mgr.get_character_at(t.0, t.1, t.2) {
                Some(v) => {
                    let twin = sp.clone();
                    let pr = &mut mgr.characters[v];
                    pr.species = twin;
                    proof {
                        assert(mgr.characters@ =~= chars_k.update(
                            v as int,
                            (Piece { species: sp, ..chars_k[v as int] }),
                        ));
                    }
                },
                None => {},
            }
            k = k + 1;
        }
        proof {
            assert(twin_all(chars_start, syn@.casters, i as int) == twin_all(
                mgr.characters@,
                syn@.casters,
                i + 1,
            ));
        }
        i = i + 1;
    }
}

/// One caster's anchor swap: among the occupied targets, the nearest
/// occupant trades anchor status with the caster, where one of the two holds
/// it; a caster may not swap with itself.
pub open spec fn swap_step(chars: Seq<Piece>, anchor: usize, c: CasterTargetView) -> usize {
    let filtered = c.targets.filter(|t: (i32, i32, i32)| !free_at(chars, t));
    let cpos = piece_pos(chars[c.caster as int]);
    match spec_closest(filtered, cpos) {
        Option::None => anchor,
        Option::Some(tpos) => {
            let j = spec_first_at(chars, tpos, 0);
            if j >= chars.len() {
                anchor
            } else if c.caster == anchor {
                if j == anchor {
                    anchor
                } else {
                    j as usize
                }
            } else if j == anchor {
                c.caster
            } else {
                anchor
            }
        },
    }
}

/// What `SwapAnchor` leaves the reality anchor as, after every caster's
/// swap attempt in order.
pub open spec fn swap_all(chars: Seq<Piece>, anchor: usize, cs: Seq<CasterTargetView>, k: int) -> usize
    decreases cs.len() - k,
{
    if k < 0 || k >= cs.len() {
        anchor
    } else {
        swap_all(chars, swap_step(chars, anchor, cs[k]), cs, k + 1)
    }
}

/// `SwapAnchor`: swap the reality-anchor status of each caster with its
/// closest occupied target.
fn effect_swap_anchor(syn: &Synapse, mgr: &mut Manager)
    requires
        syn@.wf(old(mgr).characters@.len()),
        old(mgr).wf(),
    ensures
        final(mgr).reality_anchor == swap_all(
            old(mgr).characters@,
            old(mgr).reality_anchor,
            syn@.casters,
            0,
        ),
        final(mgr).characters@ == old(mgr).characters@,
        final(mgr).wf(),
        final(mgr).effects@ == old(mgr).effects@,
        final(mgr).turn_count == old(mgr).turn_count,
        final(mgr).location == old(mgr).location,
        final(mgr).current_level == old(mgr).current_level,
{
    let n = syn.casters.len();
    let mut i: usize = 0;
    while i < n
        invariant
            n == syn.casters@.len(),
            0 <= i <= n,
            syn@.wf(mgr.characters@.len()),
            mgr.wf(),
            mgr.characters@ == old(mgr).characters@,
            mgr.effects@ == old(mgr).effects@,
            mgr.turn_count == old(mgr).turn_count,
            mgr.location == old(mgr).location,
            mgr.current_level == old(mgr).current_level,
            swap_all(old(mgr).characters@, old(mgr).reality_anchor, syn@.casters, 0) == swap_all(
                mgr.characters@,
                mgr.reality_anchor,
                syn@.casters,
                i as int,
            ),
        decreases n - i,
    {
        proof {
            assert(syn@.casters[i as int].caster < mgr.characters@.len());
            assert(cviews(syn.casters@)[i as int] == syn.casters@[i as int]@);
        }
        let ct = &syn.casters[i];
        let filtered = filter_targets_by_occupied(mgr, &ct.targets);
        let me = &mgr.characters[ct.caster];
        let cpos = (me.x, me.y, me.z);
        match find_closest_coordinate(&filtered, cpos) {
            Some(tpos) => {
                match mgr.get_character_at(tpos.0, tpos.1, tpos.2) {
                    Some(j) => {
                        if ct.caster == mgr.reality_anchor {
                            if j != mgr.reality_anchor {
                                mgr.reality_anchor = j;
                            }
                        } else if j == mgr.reality_anchor {
                            mgr.reality_anchor = ct.caster;
                        }
                    },
                    None => {},
                }
            },
            None => {},
        }
        i = i + 1;
    }
}

/// The cosmetic effects `Fireworks` spawns: one fading red tile per target,
/// caster by caster.
pub open spec fn fireworks_effects(cs: Seq<CasterTargetView>) -> Seq<TileEffect> {
    cs.map_values(
        |c: CasterTargetView|
            c.targets.map_values(
                |t: (i32, i32, i32)| TileEffect {
                    x: t.0,
                    y: t.1,
                    z: t.2,
                    alpha: 255,
                    texture: EffectType::Red,
                },
            ),
    ).flatten()
}

/// `Fireworks`: add a fading tile effect on each target.
fn effect_fireworks(syn: &Synapse, mgr: &mut Manager)
    ensures
        final(mgr).effects@ == old(mgr).effects@ + fireworks_effects(syn@.casters),
        final(mgr).characters@ == old(mgr).characters@,
        final(mgr).reality_anchor == old(mgr).reality_anchor,
        final(mgr).turn_count == old(mgr).turn_count,
        final(mgr).location == old(mgr).location,
        final(mgr).current_level == old(mgr).current_level,
{
    let ghost f = |c: CasterTargetView|
        c.targets.map_values(
            |t: (i32, i32, i32)| TileEffect {
                x: t.0,
                y: t.1,
                z: t.2,
                alpha: 255,
                texture: EffectType::Red,
            },
        );
    let ghost g = |t: (i32, i32, i32)| TileEffect {
        x: t.0,
        y: t.1,
        z: t.2,
        alpha: 255,
        texture: EffectType::Red,
    };
    let n = syn.casters.len();
    let mut i: usize = 0;
    proof {
        assert(cviews(syn.casters@).subrange(0, 0).map_values(f).flatten() =~= Seq::<
            TileEffect,
        >::empty());
        assert(mgr.effects@ + Seq::<TileEffect>::empty() =~= mgr.effects@);
    }
    while i < n
        invariant
            n == syn.casters@.len(),
            0 <= i <= n,
            f == (|c: CasterTargetView|
                c.targets.map_values(
                    |t: (i32, i32, i32)| TileEffect {
                        x: t.0,
                        y: t.1,
                        z: t.2,
                        alpha: 255,
                        texture: EffectType::Red,
                    },
                )),
            g == (|t: (i32, i32, i32)| TileEffect {
                x: t.0,
                y: t.1,
                z: t.2,
                alpha: 255,
                texture: EffectType::Red,
            }),
            mgr.effects@ == old(mgr).effects@ + cviews(syn.casters@).subrange(
                0,
                i as int,
            ).map_values(f).flatten(),
            mgr.characters@ == old(mgr).characters@,
            mgr.reality_anchor == old(mgr).reality_anchor,
            mgr.turn_count == old(mgr).turn_count,
            mgr.location == old(mgr).location,
            mgr.current_level == old(mgr).current_level,
        decreases n - i,
    {
        let m = syn.casters[i].targets.len();
        let mut k: usize = 0;
        while k < m
            invariant
                0 <= i < n,
                n == syn.casters@.len(),
                m == syn.casters@[i as int]@.targets.len(),
                0 <= k <= m,
                g == (|t: (i32, i32, i32)| TileEffect {
                    x: t.0,
                    y: t.1,
                    z: t.2,
                    alpha: 255,
                    texture: EffectType::Red,
                }),
                mgr.effects@ == old(mgr).effects@ + cviews(syn.casters@).subrange(
                    0,
                    i as int,
                ).map_values(f).flatten() + syn.casters@[i as int]@.targets.subrange(
                    0,
                    k as int,
                ).map_values(g),
                f == (|c: CasterTargetView|
                    c.targets.map_values(
                        |t: (i32, i32, i32)| TileEffect {
                            x: t.0,
                            y: t.1,
                            z: t.2,
                            alpha: 255,
                            texture: EffectType::Red,
                        },
                    )),
                mgr.characters@ == old(mgr).characters@,
                mgr.reality_anchor == old(mgr).reality_anchor,
                mgr.turn_count == old(mgr).turn_count,
                mgr.location == old(mgr).location,
                mgr.current_level == old(mgr).current_level,
            decreases m - k,
        {
            let t = syn.casters[i].targets[k];
            mgr.effects.push(
                TileEffect { x: t.0, y: t.1, z: t.2, alpha: 255, texture: EffectType::Red },
            );
            proof {
                let ts = syn.casters@[i as int]@.targets;
                assert(ts.subrange(0, k + 1) =~= ts.subrange(0, k as int).push(ts[k as int]));
                assert(ts.subrange(0, k + 1).map_values(g) =~= ts.subrange(0, k as int).map_values(
                    g,
                ).push(g(ts[k as int])));
                assert(mgr.effects@ =~= old(mgr).effects@ + cviews(syn.casters@).subrange(
                    0,
                    i as int,
                ).map_values(f).flatten() + ts.subrange(0, k + 1).map_values(g));
            }
            k = k + 1;
        }
        proof {
            broadcast use Seq::lemma_flatten_push;

            let prefix1 = cviews(syn.casters@).subrange(0, i + 1);
            assert(prefix1.drop_last() =~= cviews(syn.casters@).subrange(0, i as int));
            assert(prefix1.map_values(f) =~= prefix1.drop_last().map_values(f).push(
                f(syn.casters@[i as int]@),
            ));
            assert(f(syn.casters@[i as int]@) == syn.casters@[i as int]@.targets.map_values(g));
            assert(syn.casters@[i as int]@.targets.subrange(
                0,
                m as int,
            ) =~= syn.casters@[i as int]@.targets);
            assert(mgr.effects@ =~= old(mgr).effects@ + prefix1.map_values(f).flatten());
        }
        i = i + 1;
    }
    proof {
        assert(cviews(syn.casters@).subrange(0, n as int) =~= cviews(syn.casters@));
    }
}

} // verus!

verus! {

/// The result of a propagation run.
pub struct Outcome {
    /// A replacement world produced by a `LoadGame` effect, to be swapped in
    /// by the caller.
    pub new_manager: Option<Manager>,
    /// Set when a `LoadGame` effect found a payload whose anchor matches no
    /// saved piece: the persisted state is malformed.
    pub load_failed: bool,
    /// Set when the run exceeded the propagation ceiling. This signals a
    /// cyclic axiom graph — an authoring bug — and callers should treat it
    /// as fatal.
    pub halted: bool,
}

/// The views of a list of synapses.
pub open spec fn synviews(s: Seq<Synapse>) -> Seq<SynapseView> {
    s.map_values(|x: Synapse| x@)
}

/// The views of a list of pending runs.
pub open spec fn pendviews(s: Seq<Vec<Synapse>>) -> Seq<Seq<SynapseView>> {
    s.map_values(|r: Vec<Synapse>| synviews(r@))
}

/// A synapse fit to enter the scheduler against an arena of `n` pieces.
pub open spec fn synapse_ok(s: SynapseView, n: nat) -> bool {
    s.wf(n) && s.visited_wf()
}

/// A run whose synapses are all fit to enter the scheduler.
pub open spec fn run_ok(r: Seq<SynapseView>, n: nat) -> bool {
    forall|i: int| 0 <= i < r.len() ==> synapse_ok(#[trigger] r[i], n)
}

/// Pending runs that are all fit to enter the scheduler.
pub open spec fn pending_ok(p: Seq<Seq<SynapseView>>, n: nat) -> bool {
    forall|i: int| 0 <= i < p.len() ==> run_ok(#[trigger] p[i], n)
}

/// The runs a contingency condition seeds: one single-synapse run per piece
/// of the condition species, in arena order.
pub open spec fn contingency_runs(chars: Seq<Piece>, sv: SpeciesView, i: int) -> Seq<
    Seq<SynapseView>,
>
    decreases chars.len() - i,
{
    if i < 0 || i >= chars.len() {
        Seq::empty()
    } else {
        let rest = contingency_runs(chars, sv, i + 1);
        if chars[i].species@ == sv {
            seq![
                seq![
                    SynapseView {
                        casters: Seq::empty(),
                        momentum: OrdDir::Up,
                        pulse: piece_pos(chars[i]),
                        visited: Seq::empty(),
                    },
                ],
            ] + rest
        } else {
            rest
        }
    }
}

/// Queue the runs that a contingency condition seeds.
fn seed_contingency_runs(mgr: &Manager, condition: &Species, pending: &mut Vec<Vec<Synapse>>)
    ensures
        pendviews(final(pending)@) == pendviews(old(pending)@) + contingency_runs(
            mgr.characters@,
            condition@,
            0,
        ),
        final(pending)@.len() >= old(pending)@.len(),
        forall|k: int|
            0 <= k < old(pending)@.len() ==> final(pending)@[k] == #[trigger] old(pending)@[k],
{
    let n = mgr.characters.len();
    let mut i: usize = 0;
    proof {
        assert(pendviews(pending@) =~= pendviews(old(pending)@) + Seq::<Seq<SynapseView>>::empty());
    }
    while i < n
        invariant
            n == mgr.characters@.len(),
            0 <= i <= n,
            contingency_runs(mgr.characters@, condition@, 0) == pendviews(pending@).skip(
                pendviews(old(pending)@).len() as int,
            ) + contingency_runs(mgr.characters@, condition@, i as int),
            pendviews(pending@).take(pendviews(old(pending)@).len() as int) == pendviews(
                old(pending)@,
            ),
            pending@.len() >= old(pending)@.len(),
            forall|k: int|
                0 <= k < old(pending)@.len() ==> pending@[k] == #[trigger] old(pending)@[k],
        decreases n - i,
    {
        let p = &mgr.characters[i];
        if species_eq(&p.species, condition) {
            let (px, py, pz) = (p.x, p.y, p.z);
            let mut run: Vec<Synapse> = Vec::new();
            run.push(Synapse::new(px, py, pz));
            proof {
                assert(synviews(run@) =~= seq![
                    SynapseView {
                        casters: Seq::empty(),
                        momentum: OrdDir::Up,
                        pulse: piece_pos(mgr.characters@[i as int]),
                        visited: Seq::empty(),
                    },
                ]);
            }
            let ghost before = pending@;
            pending.push(run);
            proof {
                assert(pendviews(pending@) =~= pendviews(before).push(synviews(run@)));
                assert(pendviews(pending@).take(pendviews(old(pending)@).len() as int)
                    =~= pendviews(old(pending)@));
                assert(pendviews(pending@).skip(pendviews(old(pending)@).len() as int)
                    =~= pendviews(before).skip(pendviews(old(pending)@).len() as int).push(
                    synviews(run@),
                ));
            }
        }
        proof {
            assert(contingency_runs(mgr.characters@, condition@, i as int)
                == if mgr.characters@[i as int].species@ == condition@ {
                seq![
                    seq![
                        SynapseView {
                            casters: Seq::empty(),
                            momentum: OrdDir::Up,
                            pulse: piece_pos(mgr.characters@[i as int]),
                            visited: Seq::empty(),
                        },
                    ],
                ] + contingency_runs(mgr.characters@, condition@, i + 1)
            } else {
                contingency_runs(mgr.characters@, condition@, i + 1)
            });
            assert(contingency_runs(mgr.characters@, condition@, 0) =~= pendviews(pending@).skip(
                pendviews(old(pending)@).len() as int,
            ) + contingency_runs(mgr.characters@, condition@, i + 1));
        }
        i = i + 1;
    }
    proof {
        assert(contingency_runs(mgr.characters@, condition@, n as int) =~= Seq::<
            Seq<SynapseView>,
        >::empty());
        assert(pendviews(pending@) =~= pendviews(pending@).take(pendviews(old(pending)@).len() as int)
            + pendviews(pending@).skip(pendviews(old(pending)@).len() as int));
        assert(pendviews(pending@) =~= pendviews(old(pending)@) + contingency_runs(
            mgr.characters@,
            condition@,
            0,
        ));
    }
}

} // verus!

verus! {

use crate::model::RangeView;

/// The runs a global radio broadcast triggers: for each receiver whose
/// message matches and whose layer is at or below the anchor's, either a
/// fresh synapse at the receiver (`Global` receivers) or the broadcasting
/// synapse's own state continued there (`Synaptic` receivers, skipping
/// receivers this lineage has already processed). Receivers of other kinds
/// trigger nothing.
pub open spec fn broadcast_runs(
    chars: Seq<Piece>,
    anchor_z: i32,
    msg: Seq<char>,
    syn: SynapseView,
    i: int,
) -> Seq<Seq<SynapseView>>
    decreases chars.len() - i,
{
    if i < 0 || i >= chars.len() {
        Seq::empty()
    } else {
        let rest = broadcast_runs(chars, anchor_z, msg, syn, i + 1);
        let p = chars[i];
        match p.species@ {
            SpeciesView::RadioReceiver(rv) => match rv {
                RangeView::Global(im) => {
                    if im == msg && p.z <= anchor_z {
                        seq![
                            seq![
                                SynapseView {
                                    casters: Seq::empty(),
                                    momentum: OrdDir::Up,
                                    pulse: piece_pos(p),
                                    visited: Seq::empty(),
                                },
                            ],
                        ] + rest
                    } else {
                        rest
                    }
                },
                RangeView::Synaptic(im) => {
                    if im == msg && p.z <= anchor_z && !syn.visited.contains(
                        wrap_point(piece_pos(p)),
                    ) {
                        seq![
                            seq![
                                SynapseView {
                                    casters: syn.casters,
                                    momentum: syn.momentum,
                                    pulse: piece_pos(p),
                                    visited: syn.visited,
                                },
                            ],
                        ] + rest
                    } else {
                        rest
                    }
                },
                _ => rest,
            },
            _ => rest,
        }
    }
}

/// `RadioBroadcaster(Global(..))`: queue a run for every matching receiver
/// at or below the anchor's layer.
fn effect_broadcast(
    syn: &Synapse,
    mgr: &Manager,
    msg: &String,
    pending: &mut Vec<Vec<Synapse>>,
)
    requires
        mgr.wf(),
    ensures
        pendviews(final(pending)@) == pendviews(old(pending)@) + broadcast_runs(
            mgr.characters@,
            mgr.characters@[mgr.reality_anchor as int].z,
            msg@,
            syn@,
            0,
        ),
        final(pending)@.len() >= old(pending)@.len(),
        forall|k: int|
            0 <= k < old(pending)@.len() ==> final(pending)@[k] == #[trigger] old(pending)@[k],
{
    let anchor_z = mgr.characters[mgr.reality_anchor].z;
    let n = mgr.characters.len();
    let mut i: usize = 0;
    proof {
        assert(pendviews(pending@) =~= pendviews(old(pending)@) + Seq::<Seq<SynapseView>>::empty());
    }
    while i < n
        invariant
            n == mgr.characters@.len(),
            0 <= i <= n,
            anchor_z == mgr.characters@[mgr.reality_anchor as int].z,
            broadcast_runs(mgr.characters@, anchor_z, msg@, syn@, 0) == pendviews(pending@).skip(
                pendviews(old(pending)@).len() as int,
            ) + broadcast_runs(mgr.characters@, anchor_z, msg@, syn@, i as int),
            pendviews(pending@).take(pendviews(old(pending)@).len() as int) == pendviews(
                old(pending)@,
            ),
            pending@.len() >= old(pending)@.len(),
            forall|k: int|
                0 <= k < old(pending)@.len() ==> pending@[k] == #[trigger] old(pending)@[k],
        decreases n - i,
    {
        let p = &mgr.characters[i];
        let (px, py, pz) = (p.x, p.y, p.z);
        let ghost before_iter = pending@;
        match &p.species {
            Species::RadioReceiver(range) => {
                match range {
                    Range::Global(im) => {
                        if *im == *msg && pz <= anchor_z {
                            let mut run: Vec<Synapse> = Vec::new();
                            run.push(Synapse::new(px, py, pz));
                            proof {
                                assert(synviews(run@) =~= seq![
                                    SynapseView {
                                        casters: Seq::empty(),
                                        momentum: OrdDir::Up,
                                        pulse: piece_pos(mgr.characters@[i as int]),
                                        visited: Seq::empty(),
                                    },
                                ]);
                            }
                            pending.push(run);
                        }
                    },
                    Range::Synaptic(im) => {
                        if *im == *msg && pz <= anchor_z {
                            let w = map_wrap(px, py, pz);
                            if !coords_contains(&syn.visited, w) {
                                let continued = Synapse {
                                    casters: syn.casters.clone(),
                                    momentum: syn.momentum,
                                    pulse: (px, py, pz),
                                    visited: clone_coords(&syn.visited),
                                };
                                proof {
                                    assert forall|l: int|
                                        0 <= l < syn.casters@.len() implies continued.casters@[l]@
                                        == syn.casters@[l]@ by {
                                        assert(cloned::<CasterTarget>(
                                            syn.casters@[l],
                                            continued.casters@[l],
                                        ));
                                    }
                                    assert(continued@ =~~= (SynapseView {
                                        casters: syn@.casters,
                                        momentum: syn@.momentum,
                                        pulse: piece_pos(mgr.characters@[i as int]),
                                        visited: syn@.visited,
                                    }));
                                }
                                let mut run: Vec<Synapse> = Vec::new();
                                run.push(continued);
                                proof {
                                    assert(synviews(run@) =~= seq![
                                        SynapseView {
                                            casters: syn@.casters,
                                            momentum: syn@.momentum,
                                            pulse: piece_pos(mgr.characters@[i as int]),
                                            visited: syn@.visited,
                                        },
                                    ]);
                                }
                                pending.push(run);
                            }
                        }
                    },
                    _ => {},
                }
            },
            _ => {},
        }
        proof {
            if pending@ != before_iter {
                assert(pendviews(pending@) =~= pendviews(before_iter).push(
                    synviews(pending@[pending@.len() - 1]@),
                ));
                assert(pendviews(pending@).take(pendviews(old(pending)@).len() as int)
                    =~= pendviews(old(pending)@));
            }
            assert(broadcast_runs(mgr.characters@, anchor_z, msg@, syn@, 0) =~= pendviews(
                pending@,
            ).skip(pendviews(old(pending)@).len() as int) + broadcast_runs(
                mgr.characters@,
                anchor_z,
                msg@,
                syn@,
                i + 1,
            ));
        }
        i = i + 1;
    }
    proof {
        assert(broadcast_runs(mgr.characters@, anchor_z, msg@, syn@, n as int) =~= Seq::<
            Seq<SynapseView>,
        >::empty());
        assert(pendviews(pending@) =~= pendviews(pending@).take(
            pendviews(old(pending)@).len() as int,
        ) + pendviews(pending@).skip(pendviews(old(pending)@).len() as int));
        assert(pendviews(pending@) =~= pendviews(old(pending)@) + broadcast_runs(
            mgr.characters@,
            mgr.characters@[mgr.reality_anchor as int].z,
            msg@,
            syn@,
            0,
        ));
    }
}

/// `TurnIncrementer`: advance the turn counter (which saturates at the
/// machine's limit rather than wrapping), then fire the turn-tick
/// contingency.
fn effect_turn(mgr: &mut Manager, pending: &mut Vec<Vec<Synapse>>)
    ensures
        final(mgr).turn_count.turns == if old(mgr).turn_count.turns < usize::MAX {
            old(mgr).turn_count.turns + 1
        } else {
            old(mgr).turn_count.turns as int
        },
        final(mgr).characters@ == old(mgr).characters@,
        final(mgr).reality_anchor == old(mgr).reality_anchor,
        final(mgr).effects@ == old(mgr).effects@,
        final(mgr).location == old(mgr).location,
        final(mgr).current_level == old(mgr).current_level,
        pendviews(final(pending)@) == pendviews(old(pending)@) + contingency_runs(
            old(mgr).characters@,
            crate::model::SpeciesView::OnTurn,
            0,
        ),
        final(pending)@.len() >= old(pending)@.len(),
        forall|k: int|
            0 <= k < old(pending)@.len() ==> final(pending)@[k] == #[trigger] old(pending)@[k],
{
    if mgr.turn_count.turns < usize::MAX {
        mgr.turn_count.turns = mgr.turn_count.turns + 1;
    }
    seed_contingency_runs(mgr, &Species::OnTurn, pending);
    proof {
        assert(Species::OnTurn@ == crate::model::SpeciesView::OnTurn);
    }
}

} // verus!

verus! {

/// Fitness of contingency-seeded runs for any arena size.
proof fn lemma_contingency_runs_ok(chars: Seq<Piece>, sv: SpeciesView, i: int, n: nat)
    ensures
        pending_ok(contingency_runs(chars, sv, i), n),
    decreases chars.len() - i,
{
    if 0 <= i < chars.len() {
        lemma_contingency_runs_ok(chars, sv, i + 1, n);
        let rest = contingency_runs(chars, sv, i + 1);
        if chars[i].species@ == sv {
            let run = seq![
                SynapseView {
                    casters: Seq::<CasterTargetView>::empty(),
                    momentum: OrdDir::Up,
                    pulse: piece_pos(chars[i]),
                    visited: Seq::<(i32, i32, i32)>::empty(),
                },
            ];
            assert(run_ok(run, n)) by {
                assert(synapse_ok(run[0], n));
            }
            assert forall|k: int|
                0 <= k < contingency_runs(chars, sv, i).len() implies run_ok(
                #[trigger] contingency_runs(chars, sv, i)[k],
                n,
            ) by {
                if k >= 1 {
                    assert(contingency_runs(chars, sv, i)[k] == rest[k - 1]);
                }
            }
        }
    }
}

/// Fitness of broadcast-triggered runs.
proof fn lemma_broadcast_runs_ok(
    chars: Seq<Piece>,
    anchor_z: i32,
    msg: Seq<char>,
    syn: SynapseView,
    i: int,
    n: nat,
)
    requires
        syn.wf(n),
        syn.visited.no_duplicates(),
    ensures
        pending_ok(broadcast_runs(chars, anchor_z, msg, syn, i), n),
    decreases chars.len() - i,
{
    if 0 <= i < chars.len() {
        lemma_broadcast_runs_ok(chars, anchor_z, msg, syn, i + 1, n);
        let whole = broadcast_runs(chars, anchor_z, msg, syn, i);
        let rest = broadcast_runs(chars, anchor_z, msg, syn, i + 1);
        assert forall|k: int| 0 <= k < whole.len() implies run_ok(#[trigger] whole[k], n) by {
            if whole.len() == rest.len() {
                assert(whole[k] == rest[k]);
            } else {
                if k >= 1 {
                    assert(whole[k] == rest[k - 1]);
                } else {
                    assert(run_ok(whole[0], n)) by {
                        assert(synapse_ok(whole[0][0], n));
                    }
                }
            }
        }
    }
}

/// The contingency runs seeded for each collision species, in order.
pub open spec fn collision_runs(chars: Seq<Piece>, hits: Seq<Species>, k: int) -> Seq<
    Seq<SynapseView>,
>
    decreases hits.len() - k,
{
    if k < 0 || k >= hits.len() {
        Seq::empty()
    } else {
        contingency_runs(
            chars,
            SpeciesView::OnCollision(Box::new(hits[k]@)),
            0,
        ) + collision_runs(chars, hits, k + 1)
    }
}

} // verus!

verus! {

/// Whether a caster position admits its four raw (unwrapped) neighbours.
pub open spec fn pathfind_ok(p: (i32, i32, i32)) -> bool {
    i32::MIN < p.0 < i32::MAX && i32::MIN < p.1 < i32::MAX
}

/// The four orthogonal raw neighbours the pathfinder considers, unwrapped,
/// in the order the original considers them.
pub open spec fn pathfind_neighbors(p: (i32, i32, i32)) -> Seq<(i32, i32, i32)> {
    seq![
        ((p.0 + 1) as i32, p.1, p.2),
        ((p.0 - 1) as i32, p.1, p.2),
        (p.0, (p.1 - 1) as i32, p.2),
        (p.0, (p.1 + 1) as i32, p.2),
    ]
}

/// The positions of the pieces named by `idxs`.
pub open spec fn positions_of(chars: Seq<Piece>, idxs: Seq<usize>) -> Seq<(i32, i32, i32)> {
    idxs.map_values(|i: usize| piece_pos(chars[i as int]))
}

/// One caster's pathfinding step: find the nearest piece of the species,
/// then the nearest free orthogonal neighbour toward it, if any.
pub open spec fn pathfind_one(chars: Seq<Piece>, c: CasterTargetView, sv: SpeciesView) -> Seq<
    (i32, i32, i32),
> {
    let cpos = piece_pos(chars[c.caster as int]);
    let cands = positions_of(chars, matching_indices(chars, sv, 0));
    match spec_closest(cands, cpos) {
        Option::None => c.targets,
        Option::Some(chosen) => {
            if pathfind_ok(cpos) {
                let pot = pathfind_neighbors(cpos).filter(|t: (i32, i32, i32)| free_at(chars, t));
                match spec_closest(pot, chosen) {
                    Option::None => c.targets,
                    Option::Some(t) => c.targets.push(t),
                }
            } else {
                c.targets
            }
        },
    }
}

/// What `PathfindTargeter` leaves: each caster's greedy one-step target.
pub open spec fn pathfind_applied(
    chars: Seq<Piece>,
    cs: Seq<CasterTargetView>,
    sv: SpeciesView,
) -> Seq<CasterTargetView> {
    cs.map_values(
        |c: CasterTargetView| CasterTargetView {
            caster: c.caster,
            targets: pathfind_one(chars, c, sv),
        },
    )
}

/// `PathfindTargeter`: target the free adjacent tile closest to the nearest
/// representative of the species — a greedy single step, not a full path
/// search, and blind to map wrapping, exactly as the game plays it.
fn effect_pathfind(syn: &mut Synapse, mgr: &Manager, species: &Species)
    requires
        old(syn)@.wf(mgr.characters@.len()),
    ensures
        final(syn)@.casters == pathfind_applied(mgr.characters@, old(syn)@.casters, species@),
        final(syn).momentum == old(syn).momentum,
        final(syn).pulse == old(syn).pulse,
        final(syn).visited@ == old(syn).visited@,
{
    let found = mgr.get_characters_of_species(species);
    let mut cands: Vec<(i32, i32, i32)> = Vec::new();
    let fn_ = found.len();
    let mut fi: usize = 0;
    proof {
        crate::world::lemma_matching_indices_bounds(mgr.characters@, species@, 0);
    }
    while fi < fn_
        invariant
            fn_ == found@.len(),
            0 <= fi <= fn_,
            found@ == matching_indices(mgr.characters@, species@, 0),
            forall|k: int| 0 <= k < fn_ ==> (#[trigger] found@[k]) < mgr.characters@.len(),
            cands@ =~= positions_of(mgr.characters@, found@).subrange(0, fi as int),
        decreases fn_ - fi,
    {
        let idx = found[fi];
        let p = &mgr.characters[idx];
        cands.push((p.x, p.y, p.z));
        proof {
            assert(positions_of(mgr.characters@, found@).subrange(0, fi + 1) =~= positions_of(
                mgr.characters@,
                found@,
            ).subrange(0, fi as int).push(piece_pos(mgr.characters@[found@[fi as int] as int])));
        }
        fi = fi + 1;
    }
    proof {
        assert(cands@ =~= positions_of(mgr.characters@, found@));
    }
    let n = syn.casters.len();
    let mut i: usize = 0;
    while i < n
        invariant
            n == syn.casters@.len(),
            n == old(syn).casters@.len(),
            0 <= i <= n,
            old(syn)@.wf(mgr.characters@.len()),
            cands@ == positions_of(
                mgr.characters@,
                matching_indices(mgr.characters@, species@, 0),
            ),
            forall|j: int|
                0 <= j < i ==> syn.casters@[j]@ =~= pathfind_applied(
                    mgr.characters@,
                    old(syn)@.casters,
                    species@,
                )[j],
            forall|j: int| i <= j < n ==> syn.casters@[j] == old(syn).casters@[j],
            syn.momentum == old(syn).momentum,
            syn.pulse == old(syn).pulse,
            syn.visited@ == old(syn).visited@,
        decreases n - i,
    {
        proof {
            assert(old(syn)@.casters[i as int].caster < mgr.characters@.len());
        }
        let caster_idx = syn.casters[i].caster;
        let me = &mgr.characters[caster_idx];
        let cpos = (me.x, me.y, me.z);
        match find_closest_coordinate(&cands, cpos) {
            Some(chosen) => {
                if i32::MIN < cpos.0 && cpos.0 < i32::MAX && i32::MIN < cpos.1 && cpos.1
                    < i32::MAX {
                    let mut pot: Vec<(i32, i32, i32)> = Vec::new();
                    pot.push((cpos.0 + 1, cpos.1, cpos.2));
                    pot.push((cpos.0 - 1, cpos.1, cpos.2));
                    pot.push((cpos.0, cpos.1 - 1, cpos.2));
                    pot.push((cpos.0, cpos.1 + 1, cpos.2));
                    proof {
                        assert(pot@ =~= pathfind_neighbors(cpos));
                    }
                    let pot = filter_targets_by_unoccupied(mgr, &pot);
                    match find_closest_coordinate(&pot, chosen) {
                        Some(t) => {
                            let ct = &mut syn.casters[i];
                            ct.targets.push(t);
                        },
                        None => {},
                    }
                }
            },
            None => {},
        }
        proof {
            assert(syn.casters@[i as int]@ =~= pathfind_applied(
                mgr.characters@,
                old(syn)@.casters,
                species@,
            )[i as int]);
        }
        i = i + 1;
    }
    proof {
        assert(cviews(syn.casters@) =~~= pathfind_applied(
            mgr.characters@,
            old(syn)@.casters,
            species@,
        ));
    }
}

} // verus!

verus! {

/// Whether the parts of the world the interpreter may touch are unchanged.
pub open spec fn same_world(a: Manager, b: Manager) -> bool {
    &&& a.characters@ == b.characters@
    &&& a.reality_anchor == b.reality_anchor
    &&& a.effects@ == b.effects@
    &&& a.turn_count == b.turn_count
}

/// Whether the pending queue gained exactly `added`.
pub open spec fn pending_plus(
    oldp: Seq<Seq<SynapseView>>,
    newp: Seq<Seq<SynapseView>>,
    added: Seq<Seq<SynapseView>>,
) -> bool {
    newp == oldp + added
}

/// The exact transformation each species applies, relating the state
/// before (`syn0`, `mgr0`, `store0`, `pending0`, `out0`) to the state after.
/// Species that are not effect nodes change nothing.
pub open spec fn effect_spec(
    species: Species,
    syn0: SynapseView,
    syn1: SynapseView,
    mgr0: Manager,
    mgr1: Manager,
    store0: Option<SavePayload>,
    store1: Option<SavePayload>,
    pending0: Seq<Seq<SynapseView>>,
    pending1: Seq<Seq<SynapseView>>,
    out0: Outcome,
    out1: Outcome,
) -> bool {
        match species {
            Species::SelectSpecies(ref inner) => {
                &&& syn1.casters == selected_casters(
                    mgr0.characters@,
                    syn0.casters,
                    species_view(**inner),
                )
                &&& same_world(mgr1, mgr0)
                &&& store1 == store0
                &&& pending1 == pending0
                &&& out1 == out0
            },
            Species::SelectRealityAnchor => {
                &&& syn1.casters == syn0.casters.push(
                    CasterTargetView { caster: mgr0.reality_anchor, targets: Seq::empty() },
                )
                &&& same_world(mgr1, mgr0)
                &&& store1 == store0
                &&& pending1 == pending0
                &&& out1 == out0
            },
            Species::AnointToTarget(ref inner) => {
                &&& syn1.casters == anointed_casters(
                    mgr0.characters@,
                    syn0.casters,
                    species_view(**inner),
                )
                &&& same_world(mgr1, mgr0)
                &&& store1 == store0
                &&& pending1 == pending0
                &&& out1 == out0
            },
            Species::ClearThisCaster(ref inner) => {
                &&& syn1.casters == cleared_casters(
                    mgr0.characters@,
                    syn0.casters,
                    species_view(**inner),
                )
                &&& same_world(mgr1, mgr0)
                &&& store1 == store0
                &&& pending1 == pending0
                &&& out1 == out0
            },
            Species::SpecificCoord(coord) => {
                &&& syn1.casters == specific_applied(syn0.casters, coord)
                &&& same_world(mgr1, mgr0)
                &&& store1 == store0
                &&& pending1 == pending0
                &&& out1 == out0
            },
            Species::CardinalTargeter(dir) => {
                &&& syn1.casters == cardinal_applied(
                    mgr0.characters@,
                    syn0.casters,
                    dir,
                )
                &&& same_world(mgr1, mgr0)
                &&& store1 == store0
                &&& pending1 == pending0
                &&& out1 == out0
            },
            Species::PathfindTargeter(ref inner) => {
                &&& syn1.casters == pathfind_applied(
                    mgr0.characters@,
                    syn0.casters,
                    species_view(**inner),
                )
                &&& same_world(mgr1, mgr0)
                &&& store1 == store0
                &&& pending1 == pending0
                &&& out1 == out0
            },
            Species::PlusTargeter => {
                &&& syn1.casters == plus_applied(mgr0.characters@, syn0.casters)
                &&& same_world(mgr1, mgr0)
                &&& store1 == store0
                &&& pending1 == pending0
                &&& out1 == out0
            },
            Species::SelfTargeter => {
                &&& syn1.casters == self_applied(mgr0.characters@, syn0.casters)
                &&& same_world(mgr1, mgr0)
                &&& store1 == store0
                &&& pending1 == pending0
                &&& out1 == out0
            },
            Species::MomentumBeam => {
                &&& syn1.casters == beam_applied(mgr0, syn0.casters)
                &&& same_world(mgr1, mgr0)
                &&& store1 == store0
                &&& pending1 == pending0
                &&& out1 == out0
            },
            Species::RealmShift(realm) => {
                &&& syn1.casters == realm_applied(syn0.casters, realm)
                &&& same_world(mgr1, mgr0)
                &&& store1 == store0
                &&& pending1 == pending0
                &&& out1 == out0
            },
            Species::Orbit(radius) => {
                &&& syn1.casters == orbit_applied(
                    syn0.casters,
                    radius as int,
                    mgr0.turn_count.turns as int,
                )
                &&& same_world(mgr1, mgr0)
                &&& store1 == store0
                &&& pending1 == pending0
                &&& out1 == out0
            },
            Species::Halo(radius) => {
                &&& syn1.casters == halo_applied(syn0.casters, radius as int)
                &&& same_world(mgr1, mgr0)
                &&& store1 == store0
                &&& pending1 == pending0
                &&& out1 == out0
            },
            Species::Teleport => {
                &&& syn1.casters == syn0.casters
                &&& mgr1.characters@ == teleport_all(
                    mgr0.characters@,
                    syn0.casters,
                    0,
                ).0
                &&& mgr1.reality_anchor == mgr0.reality_anchor
                &&& mgr1.effects@ == mgr0.effects@
                &&& mgr1.turn_count == mgr0.turn_count
                &&& store1 == store0
                &&& pending_plus(
                    pending0,
                    pending1,
                    collision_runs(
                        mgr1.characters@,
                        teleport_all(mgr0.characters@, syn0.casters, 0).1,
                        0,
                    ),
                )
                &&& out1 == out0
            },
            Species::Twinning => {
                &&& syn1.casters == syn0.casters
                &&& mgr1.characters@ == twin_all(mgr0.characters@, syn0.casters, 0)
                &&& mgr1.reality_anchor == mgr0.reality_anchor
                &&& mgr1.effects@ == mgr0.effects@
                &&& mgr1.turn_count == mgr0.turn_count
                &&& store1 == store0
                &&& pending1 == pending0
                &&& out1 == out0
            },
            Species::SwapAnchor => {
                &&& syn1.casters == syn0.casters
                &&& mgr1.characters@ == mgr0.characters@
                &&& mgr1.reality_anchor == swap_all(
                    mgr0.characters@,
                    mgr0.reality_anchor,
                    syn0.casters,
                    0,
                )
                &&& mgr1.effects@ == mgr0.effects@
                &&& mgr1.turn_count == mgr0.turn_count
                &&& store1 == store0
                &&& pending1 == pending0
                &&& out1 == out0
            },
            Species::RadioBroadcaster(ref range) => match *range {
                Range::Global(ref msg) => {
                    &&& syn1.casters == syn0.casters
                    &&& same_world(mgr1, mgr0)
                    &&& store1 == store0
                    &&& pending_plus(
                        pending0,
                        pending1,
                        broadcast_runs(
                            mgr0.characters@,
                            mgr0.characters@[mgr0.reality_anchor as int].z,
                            msg@,
                            syn0,
                            0,
                        ),
                    )
                    &&& out1 == out0
                },
                _ => {
                    &&& syn1.casters == syn0.casters
                    &&& same_world(mgr1, mgr0)
                    &&& store1 == store0
                    &&& pending1 == pending0
                    &&& out1 == out0
                },
            },
            Species::SaveGame => {
                &&& syn1.casters == syn0.casters
                &&& same_world(mgr1, mgr0)
                &&& store1 matches Some(p) && p.characters@ == mgr0.characters@
                    && p.reality_anchor == mgr0.characters@[mgr0.reality_anchor as int]
                    && p.turn_count == mgr0.turn_count.turns
                &&& pending1 == pending0
                &&& out1 == out0
            },
            Species::LoadGame => {
                &&& syn1.casters == syn0.casters
                &&& same_world(mgr1, mgr0)
                &&& store1 == store0
                &&& pending1 == pending0
                &&& out1.halted == out0.halted
                &&& match store0 {
                    Option::None => out1 == out0,
                    Option::Some(ref p) => {
                        if exists|j: int|
                            0 <= j < p.characters@.len() && piece_pos(
                                #[trigger] p.characters@[j],
                            ) == piece_pos(p.reality_anchor) {
                            &&& out1.new_manager matches Some(m) && m.wf()
                                && m.characters@ == p.characters@ && m.turn_count.turns
                                == p.turn_count && m.location == mgr0.location
                                && m.current_level == mgr0.current_level && m.effects@
                                == mgr0.effects@ && piece_pos(m.characters@[m.reality_anchor as int])
                                == piece_pos(p.reality_anchor)
                            &&& out1.load_failed == out0.load_failed
                        } else {
                            &&& out1.load_failed == true
                            &&& out1.new_manager == out0.new_manager
                        }
                    },
                }
            },
            Species::Fireworks => {
                &&& syn1.casters == syn0.casters
                &&& mgr1.characters@ == mgr0.characters@
                &&& mgr1.reality_anchor == mgr0.reality_anchor
                &&& mgr1.effects@ == mgr0.effects@ + fireworks_effects(syn0.casters)
                &&& mgr1.turn_count == mgr0.turn_count
                &&& store1 == store0
                &&& pending1 == pending0
                &&& out1 == out0
            },
            Species::TurnIncrementer => {
                &&& syn1.casters == syn0.casters
                &&& mgr1.characters@ == mgr0.characters@
                &&& mgr1.reality_anchor == mgr0.reality_anchor
                &&& mgr1.effects@ == mgr0.effects@
                &&& mgr1.turn_count.turns == if mgr0.turn_count.turns < usize::MAX {
                    mgr0.turn_count.turns + 1
                } else {
                    mgr0.turn_count.turns as int
                }
                &&& store1 == store0
                &&& pending_plus(
                    pending0,
                    pending1,
                    contingency_runs(mgr0.characters@, SpeciesView::OnTurn, 0),
                )
                &&& out1 == out0
            },
            _ => {
                &&& syn1.casters == syn0.casters
                &&& same_world(mgr1, mgr0)
                &&& store1 == store0
                &&& pending1 == pending0
                &&& out1 == out0
            },
    }
}

/// Dispatch the axiom species standing at the synapse's cell, and apply its
/// effect: exactly one of the transformations below, with species that are
/// not effect nodes leaving everything untouched.
#[verifier::rlimit(100)]
fn apply_species_effect(
    species: &Species,
    syn: &mut Synapse,
    mgr: &mut Manager,
    store: &mut Option<SavePayload>,
    pending: &mut Vec<Vec<Synapse>>,
    outcome: &mut Outcome,
)
    requires
        old(syn)@.wf(old(mgr).characters@.len()),
        old(syn).visited@.no_duplicates(),
        old(mgr).wf(),
        old(outcome).new_manager matches Some(m0) ==> m0.wf(),
    ensures
        final(mgr).wf(),
        final(mgr).characters@.len() == old(mgr).characters@.len(),
        final(mgr).location == old(mgr).location,
        final(mgr).current_level == old(mgr).current_level,
        final(outcome).new_manager matches Some(m) ==> m.wf(),
        final(syn)@.wf(final(mgr).characters@.len()),
        final(syn).momentum == old(syn).momentum,
        final(syn).pulse == old(syn).pulse,
        final(syn).visited@ == old(syn).visited@,
        final(pending)@.len() >= old(pending)@.len(),
        forall|k: int|
            0 <= k < old(pending)@.len() ==> final(pending)@[k] == #[trigger] old(pending)@[k],
        pending_ok(
            pendviews(final(pending)@).skip(old(pending)@.len() as int),
            final(mgr).characters@.len(),
        ),
        final(outcome).halted == old(outcome).halted,
        effect_spec(
            *species,
            old(syn)@,
            final(syn)@,
            *old(mgr),
            *final(mgr),
            *old(store),
            *final(store),
            pendviews(old(pending)@),
            pendviews(final(pending)@),
            *old(outcome),
            *final(outcome),
        ),
{
    let ghost n = old(mgr).characters@.len();
    match species {
        Species::SelectSpecies(inner) => {
            effect_select_species(syn, mgr, inner);
            proof {
                crate::world::lemma_matching_indices_bounds(mgr.characters@, species_view(**inner), 0);
            }
        },
        Species::SelectRealityAnchor => {
            effect_select_anchor(syn, mgr);
        },
        Species::AnointToTarget(inner) => {
            effect_anoint(syn, mgr, inner);
            proof {
                crate::world::lemma_matching_indices_bounds(mgr.characters@, species_view(**inner), 0);
            }
        },
        Species::ClearThisCaster(inner) => {
            effect_clear_caster(syn, mgr, inner);
        },
        Species::SpecificCoord(coord) => {
            effect_specific(syn, *coord);
        },
        Species::CardinalTargeter(dir) => {
            effect_cardinal(syn, mgr, *dir);
        },
        Species::PathfindTargeter(inner) => {
            effect_pathfind(syn, mgr, inner);
        },
        Species::PlusTargeter => {
            effect_plus(syn, mgr);
        },
        Species::SelfTargeter => {
            effect_self(syn, mgr);
        },
        Species::MomentumBeam => {
            effect_beam(syn, mgr);
        },
        Species::RealmShift(realm) => {
            effect_realm_shift(syn, *realm);
        },
        Species::Orbit(radius) => {
            effect_orbit(syn, *radius, mgr.turn_count.turns);
        },
        Species::Halo(radius) => {
            effect_halo(syn, *radius);
        },
        Species::Teleport => {
            let mut collisions: Vec<Species> = Vec::new();
            effect_teleport(syn, mgr, &mut collisions);
            let ghost hits = teleport_all(old(mgr).characters@, old(syn)@.casters, 0).1;
            let hn = collisions.len();
            let mut j: usize = 0;
            proof {
                assert(pendviews(pending@) =~= pendviews(old(pending)@) + Seq::<
                    Seq<SynapseView>,
                >::empty());
                assert(collision_runs(mgr.characters@, hits, hn as int) =~= Seq::<
                    Seq<SynapseView>,
                >::empty());
            }
            while j < hn
                invariant
                    hn == collisions@.len(),
                    0 <= j <= hn,
                    collisions@ == hits,
                    mgr.wf(),
                    pendviews(pending@) == pendviews(old(pending)@) + collision_runs(
                        mgr.characters@,
                        hits,
                        0,
                    ).take(
                        (pendviews(pending@).len() - pendviews(old(pending)@).len()) as int,
                    ),
                    collision_runs(mgr.characters@, hits, 0) == pendviews(pending@).skip(
                        old(pending)@.len() as int,
                    ) + collision_runs(mgr.characters@, hits, j as int),
                    pending@.len() >= old(pending)@.len(),
                    forall|k: int|
                        0 <= k < old(pending)@.len() ==> pending@[k] == #[trigger] old(
                            pending,
                        )@[k],
                    pending_ok(
                        pendviews(pending@).skip(old(pending)@.len() as int),
                        mgr.characters@.len(),
                    ),
                decreases hn - j,
            {
                let cond = Species::OnCollision(Box::new(collisions[j].clone()));
                let ghost before = pending@;
                seed_contingency_runs(mgr, &cond, pending);
                proof {
                    assert(cond@ == SpeciesView::OnCollision(Box::new(hits[j as int]@)));
                    lemma_contingency_runs_ok(
                        mgr.characters@,
                        cond@,
                        0,
                        mgr.characters@.len(),
                    );
                    assert(pendviews(pending@) =~= pendviews(before) + contingency_runs(
                        mgr.characters@,
                        cond@,
                        0,
                    ));
                    assert(collision_runs(mgr.characters@, hits, j as int) == contingency_runs(
                        mgr.characters@,
                        cond@,
                        0,
                    ) + collision_runs(mgr.characters@, hits, j + 1));
                    assert(pendviews(pending@).skip(old(pending)@.len() as int) =~= pendviews(
                        before,
                    ).skip(old(pending)@.len() as int) + contingency_runs(
                        mgr.characters@,
                        cond@,
                        0,
                    ));
                    assert(collision_runs(mgr.characters@, hits, 0) =~= pendviews(pending@).skip(
                        old(pending)@.len() as int,
                    ) + collision_runs(mgr.characters@, hits, j + 1));
                    assert(pendviews(pending@) =~= pendviews(old(pending)@) + collision_runs(
                        mgr.characters@,
                        hits,
                        0,
                    ).take(
                        (pendviews(pending@).len() - pendviews(old(pending)@).len()) as int,
                    ));
                }
                j = j + 1;
            }
            proof {
                assert(pendviews(pending@) =~= pendviews(old(pending)@) + collision_runs(
                    mgr.characters@,
                    hits,
                    0,
                ));
            }
        },
        Species::Twinning => {
            effect_twinning(syn, mgr);
        },
        Species::SwapAnchor => {
            effect_swap_anchor(syn, mgr);
        },
        Species::RadioBroadcaster(range) => {
            match range {
                Range::Global(msg) => {
                    effect_broadcast(syn, mgr, msg, pending);
                    proof {
                        lemma_broadcast_runs_ok(
                            mgr.characters@,
                            mgr.characters@[mgr.reality_anchor as int].z,
                            msg@,
                            old(syn)@,
                            0,
                            mgr.characters@.len(),
                        );
                        assert(pendviews(pending@).skip(old(pending)@.len() as int)
                            =~= broadcast_runs(
                            mgr.characters@,
                            mgr.characters@[mgr.reality_anchor as int].z,
                            msg@,
                            old(syn)@,
                            0,
                        ));
                    }
                },
                _ => {},
            }
        },
        Species::SaveGame => {
            let payload = mgr.save_payload();
            *store = Some(payload);
        },
        Species::LoadGame => {
            let loaded = match store {
                Some(p) => Some(crate::world::restore(p, mgr)),
                None => None,
            };
            match loaded {
                Some(Some(m)) => {
                    outcome.new_manager = Some(m);
                },
                Some(None) => {
                    outcome.load_failed = true;
                },
                None => {},
            }
        },
        Species::Fireworks => {
            effect_fireworks(syn, mgr);
        },
        Species::TurnIncrementer => {
            effect_turn(mgr, pending);
            proof {
                lemma_contingency_runs_ok(
                    mgr.characters@,
                    SpeciesView::OnTurn,
                    0,
                    mgr.characters@.len(),
                );
                assert(pendviews(pending@).skip(old(pending)@.len() as int) =~= contingency_runs(
                    mgr.characters@,
                    SpeciesView::OnTurn,
                    0,
                ));
            }
        },
        _ => {},
    }
    proof {
        assert(pendviews(pending@).skip(old(pending)@.len() as int).len() == pendviews(
            pending@,
        ).len() - old(pending)@.len());
        if pending@.len() == old(pending)@.len() {
            assert(pendviews(pending@).skip(old(pending)@.len() as int) =~= Seq::<
                Seq<SynapseView>,
            >::empty());
        }
    }
}

} // verus!

verus! {

/// The `k`-th direction of the clockwise search order starting at
/// `momentum`.
pub open spec fn rotation_dir(momentum: OrdDir, k: int) -> OrdDir
    decreases k,
{
    if k <= 0 {
        momentum
    } else {
        rotation_dir(momentum, k - 1).rotated_spec()
    }
}

/// The neighbours that qualify to continue a wavefront standing on the
/// wrapped cell `w`: scanning clockwise from the momentum, the wrapped
/// adjacent cells that hold a piece and have not been visited by this
/// lineage.
pub open spec fn qualifying(
    m: Manager,
    w: (i32, i32, i32),
    momentum: OrdDir,
    visited: Seq<(i32, i32, i32)>,
    k: int,
) -> Seq<(OrdDir, (i32, i32, i32))>
    decreases 4 - k,
{
    if k < 0 || k >= 4 {
        Seq::empty()
    } else {
        let dir = rotation_dir(momentum, k);
        let off = dir.offset_spec();
        let t = wrap_point(((w.0 + off.0) as i32, (w.1 + off.1) as i32, w.2));
        let rest = qualifying(m, w, momentum, visited, k + 1);
        if !free_at(m.characters@, t) && !visited.contains(t) {
            seq![(dir, t)] + rest
        } else {
            rest
        }
    }
}

/// All qualifying neighbours lie on the board and are fresh to the lineage.
pub proof fn lemma_qualifying_entries(
    m: Manager,
    w: (i32, i32, i32),
    momentum: OrdDir,
    visited: Seq<(i32, i32, i32)>,
    k: int,
)
    requires
        -45 < w.0 < 45,
        -45 < w.1 < 45,
    ensures
        forall|i: int|
            0 <= i < qualifying(m, w, momentum, visited, k).len() ==> {
                let e = #[trigger] qualifying(m, w, momentum, visited, k)[i];
                &&& 0 <= e.1.0 < 45
                &&& 0 <= e.1.1 < 45
                &&& e.1.2 == w.2
                &&& wrap_point(e.1) == e.1
                &&& !visited.contains(e.1)
                &&& !free_at(m.characters@, e.1)
            },
    decreases 4 - k,
{
    if 0 <= k < 4 {
        lemma_qualifying_entries(m, w, momentum, visited, k + 1);
        let whole = qualifying(m, w, momentum, visited, k);
        let rest = qualifying(m, w, momentum, visited, k + 1);
        assert forall|i: int| 0 <= i < whole.len() implies {
            let e = #[trigger] whole[i];
            &&& 0 <= e.1.0 < 45
            &&& 0 <= e.1.1 < 45
            &&& e.1.2 == w.2
            &&& wrap_point(e.1) == e.1
            &&& !visited.contains(e.1)
            &&& !free_at(m.characters@, e.1)
        } by {
            if whole.len() != rest.len() && i == 0 {
                let dir = rotation_dir(momentum, k);
                let off = dir.offset_spec();
                assert(-1 <= off.0 <= 1 && -1 <= off.1 <= 1);
                let vx = (w.0 + off.0) as i32;
                let vy = (w.1 + off.1) as i32;
                assert(-45 <= vx <= 45 && -45 <= vy <= 45);
                let t = wrap_point((vx, vy, w.2));
                assert(0 <= t.0 < 45 && 0 <= t.1 < 45);
                assert(wrap_point(t) == t);
            } else if whole.len() != rest.len() {
                assert(whole[i] == rest[i - 1]);
            } else {
                assert(whole[i] == rest[i]);
            }
        }
    }
}

/// Compute the qualifying continuation neighbours of a wavefront.
fn scan_neighbors(
    mgr: &Manager,
    w: (i32, i32, i32),
    momentum: OrdDir,
    visited: &Vec<(i32, i32, i32)>,
) -> (r: Vec<(OrdDir, (i32, i32, i32))>)
    requires
        -45 < w.0 < 45,
        -45 < w.1 < 45,
    ensures
        r@ == qualifying(*mgr, w, momentum, visited@, 0),
{
    let dirs = generate_clockwise_rotation(momentum);
    let mut r: Vec<(OrdDir, (i32, i32, i32))> = Vec::new();
    let mut k: usize = 0;
    proof {
        assert(qualifying(*mgr, w, momentum, visited@, 0) =~= r@ + qualifying(
            *mgr,
            w,
            momentum,
            visited@,
            0,
        ));
        assert(rotation_dir(momentum, 0) == momentum);
        assert(rotation_dir(momentum, 1) == momentum.rotated_spec());
        assert(rotation_dir(momentum, 2) == momentum.rotated_spec().rotated_spec());
        assert(rotation_dir(momentum, 3) == momentum.rotated_spec().rotated_spec().rotated_spec());
    }
    while k < 4
        invariant
            0 <= k <= 4,
            -45 < w.0 < 45,
            -45 < w.1 < 45,
            dirs@.len() == 4,
            forall|j: int| 0 <= j < 4 ==> dirs@[j] == rotation_dir(momentum, j),
            qualifying(*mgr, w, momentum, visited@, 0) == r@ + qualifying(
                *mgr,
                w,
                momentum,
                visited@,
                k as int,
            ),
        decreases 4 - k,
    {
        let dir = dirs[k];
        let off = dir.as_offset();
        proof {
            assert(-1 <= off.0 <= 1 && -1 <= off.1 <= 1);
        }
        let t = map_wrap(w.0 + off.0, w.1 + off.1, w.2);
        let ghost before = r@;
        if mgr.get_character_at(t.0, t.1, t.2).is_some() && !coords_contains(visited, t) {
            r.push((dir, t));
        }
        proof {
            let rest = qualifying(*mgr, w, momentum, visited@, k + 1);
            if !free_at(mgr.characters@, t) && !visited@.contains(t) {
                assert(qualifying(*mgr, w, momentum, visited@, k as int) =~= seq![(dir, t)]
                    + rest);
                assert(r@ =~= before.push((dir, t)));
                assert(before + (seq![(dir, t)] + rest) =~= r@ + rest);
            } else {
                assert(qualifying(*mgr, w, momentum, visited@, k as int) == rest);
            }
        }
        k = k + 1;
    }
    proof {
        assert(qualifying(*mgr, w, momentum, visited@, 4) =~= Seq::<
            (OrdDir, (i32, i32, i32)),
        >::empty());
        assert(r@ + qualifying(*mgr, w, momentum, visited@, 4) =~= r@);
    }
    r
}

/// The full result of one synapse step, as one ghost record: whether the
/// synapse retired, the synapse afterwards, its spawned branches, and the
/// world, store, pending queue and outcome left behind.
pub struct StepOutcome {
    pub retired: bool,
    pub syn: SynapseView,
    pub spawned: Seq<SynapseView>,
    pub world: Manager,
    pub store: Option<SavePayload>,
    pub pending: Seq<Seq<SynapseView>>,
    pub outcome: Outcome,
}

/// How one scheduler step relates the state before it to the state after:
/// the pulse cell is wrapped and recorded as visited; an empty cell retires
/// the synapse with nothing else touched; an occupied one applies the
/// occupant's effect per `effect_spec`, after which the first qualifying
/// neighbour clockwise from the momentum continues the synapse and every
/// further one spawns a clone, or the synapse retires when none qualifies.
pub open spec fn step_rel(
    s0: SynapseView,
    w0: Manager,
    st0: Option<SavePayload>,
    p0: Seq<Seq<SynapseView>>,
    o0: Outcome,
    r: StepOutcome,
) -> bool {
    let w = wrap_point(s0.pulse);
    let occ = spec_first_at(w0.characters@, w, 0);
    let visited1 = s0.visited.push(w);
    &&& r.syn.visited == visited1
    &&& r.world.location == w0.location
    &&& r.world.current_level == w0.current_level
    &&& r.world.characters@.len() == w0.characters@.len()
    &&& r.outcome.halted == o0.halted
    &&& if occ == w0.characters@.len() {
        &&& r.retired
        &&& r.spawned.len() == 0
        &&& same_world(r.world, w0)
        &&& r.store == st0
        &&& r.pending == p0
        &&& r.outcome == o0
        &&& r.syn.casters == s0.casters
        &&& r.syn.momentum == s0.momentum
        &&& r.syn.pulse == s0.pulse
    } else {
        let q = qualifying(r.world, w, s0.momentum, visited1, 0);
        &&& effect_spec(
            w0.characters@[occ].species,
            SynapseView {
                casters: s0.casters,
                momentum: s0.momentum,
                pulse: s0.pulse,
                visited: visited1,
            },
            SynapseView {
                casters: r.syn.casters,
                momentum: s0.momentum,
                pulse: s0.pulse,
                visited: visited1,
            },
            w0,
            r.world,
            st0,
            r.store,
            p0,
            r.pending,
            o0,
            r.outcome,
        )
        &&& if q.len() == 0 {
            &&& r.retired
            &&& r.spawned.len() == 0
            &&& r.syn.momentum == s0.momentum
            &&& r.syn.pulse == s0.pulse
        } else {
            &&& !r.retired
            &&& r.syn.momentum == q[0].0
            &&& r.syn.pulse == q[0].1
            &&& r.spawned.len() == q.len() - 1
            &&& forall|i: int|
                0 <= i < r.spawned.len() ==> #[trigger] r.spawned[i] == (SynapseView {
                    casters: r.syn.casters,
                    momentum: q[i + 1].0,
                    pulse: q[i + 1].1,
                    visited: visited1,
                })
        }
    }
}

/// One step of one synapse: wrap and visit the pulse cell, interpret the
/// occupant's species, then continue clockwise from the momentum — the
/// first fresh occupied neighbour continues this synapse, every further one
/// spawns a clone. Returns whether the synapse retires, and the spawned
/// branches.
pub fn step_synapse(
    syn: &mut Synapse,
    mgr: &mut Manager,
    store: &mut Option<SavePayload>,
    pending: &mut Vec<Vec<Synapse>>,
    outcome: &mut Outcome,
) -> (res: (bool, Vec<Synapse>))
    requires
        synapse_ok(old(syn)@, old(mgr).characters@.len()),
        old(mgr).wf(),
        old(outcome).new_manager matches Some(m0) ==> m0.wf(),
    ensures
        final(mgr).wf(),
        final(mgr).characters@.len() == old(mgr).characters@.len(),
        final(mgr).location == old(mgr).location,
        final(mgr).current_level == old(mgr).current_level,
        final(pending)@.len() >= old(pending)@.len(),
        forall|k: int|
            0 <= k < old(pending)@.len() ==> final(pending)@[k] == #[trigger] old(pending)@[k],
        pending_ok(
            pendviews(final(pending)@).skip(old(pending)@.len() as int),
            final(mgr).characters@.len(),
        ),
        final(outcome).halted == old(outcome).halted,
        final(outcome).new_manager matches Some(m) ==> m.wf(),
        final(syn).visited@ == old(syn).visited@.push(wrap_point(old(syn).pulse)),
        final(syn).visited@.no_duplicates(),
        final(syn)@.wf(final(mgr).characters@.len()),
        res.0 == false ==> synapse_ok(final(syn)@, final(mgr).characters@.len()),
        forall|i: int|
            0 <= i < res.1@.len() ==> synapse_ok((#[trigger] res.1@[i])@, final(mgr).characters@.len()),
        step_rel(
            old(syn)@,
            *old(mgr),
            *old(store),
            pendviews(old(pending)@),
            *old(outcome),
            StepOutcome {
                retired: res.0,
                syn: final(syn)@,
                spawned: synviews(res.1@),
                world: *final(mgr),
                store: *final(store),
                pending: pendviews(final(pending)@),
                outcome: *final(outcome),
            },
        ),
{
    let (px, py, pz) = map_wrap(syn.pulse.0, syn.pulse.1, syn.pulse.2);
    syn.visited.push((px, py, pz));
    proof {
        let prev = old(syn).visited@;
        let w = wrap_point(old(syn).pulse);
        assert(syn.visited@ =~= prev.push(w));
        assert forall|i: int, j: int|
            0 <= i < j < syn.visited@.len() implies syn.visited@[i] != syn.visited@[j] by {
            if j == syn.visited@.len() - 1 {
                assert(!prev.contains(w));
                assert(prev[i] == syn.visited@[i]);
            }
        }
        assert(syn@.casters =~= old(syn)@.casters);
    }
    let occupant = mgr.get_character_at(px, py, pz);
    match occupant {
        None => {
            proof {
                assert((px, py, pz) == wrap_point(old(syn).pulse));
            }
            return (true, Vec::new());
        },
        Some(occ) => {
            let species = mgr.characters[occ].species.clone();
            apply_species_effect(&species, syn, mgr, store, pending, outcome);
            let ghost visited1 = syn.visited@;
            let q = scan_neighbors(mgr, (px, py, pz), syn.momentum, &syn.visited);
            proof {
                lemma_qualifying_entries(*mgr, (px, py, pz), syn.momentum, visited1, 0);
            }
            if q.len() == 0 {
                return (true, Vec::new());
            }
            let first = q[0];
            syn.momentum = first.0;
            syn.pulse = first.1;
            let qn = q.len();
            let mut spawned: Vec<Synapse> = Vec::new();
            let mut i: usize = 1;
            while i < qn
                invariant
                    1 <= i <= qn,
                    qn == q@.len(),
                    spawned@.len() == i - 1,
                    forall|j: int|
                        0 <= j < spawned@.len() ==> (#[trigger] spawned@[j])@ == (SynapseView {
                            casters: syn@.casters,
                            momentum: q@[j + 1].0,
                            pulse: q@[j + 1].1,
                            visited: syn.visited@,
                        }),
                decreases qn - i,
            {
                let branch = Synapse {
                    casters: syn.casters.clone(),
                    momentum: q[i].0,
                    pulse: q[i].1,
                    visited: clone_coords(&syn.visited),
                };
                proof {
                    assert forall|l: int| 0 <= l < syn.casters@.len() implies branch.casters@[l]@
                        == syn.casters@[l]@ by {
                        assert(cloned::<CasterTarget>(syn.casters@[l], branch.casters@[l]));
                    }
                    assert(branch@ =~~= (SynapseView {
                        casters: syn@.casters,
                        momentum: q@[i as int].0,
                        pulse: q@[i as int].1,
                        visited: syn.visited@,
                    }));
                }
                spawned.push(branch);
                i = i + 1;
            }
            (false, spawned)
        },
    }
}

} // verus!

verus! {

/// Whether a pass's per-synapse step outcomes form a chain: the step at
/// position `k` starts from the state the step before it left behind (the
/// first from the pass's own starting state).
pub open spec fn chain_ok(
    active: Seq<SynapseView>,
    w0: Manager,
    st0: Option<SavePayload>,
    p0: Seq<Seq<SynapseView>>,
    o0: Outcome,
    rs: Seq<StepOutcome>,
) -> bool
    decreases rs.len(),
{
    if rs.len() == 0 {
        true
    } else {
        let k = rs.len() - 1;
        &&& chain_ok(active, w0, st0, p0, o0, rs.drop_last())
        &&& k < active.len()
        &&& if k == 0 {
            step_rel(active[0], w0, st0, p0, o0, rs[0])
        } else {
            step_rel(active[k], rs[k - 1].world, rs[k - 1].store, rs[k - 1].pending, rs[k - 1].outcome, rs[k])
        }
    }
}

/// The synapses a chained pass keeps: the survivors, in order.
pub open spec fn chain_survivors(rs: Seq<StepOutcome>) -> Seq<SynapseView>
    decreases rs.len(),
{
    if rs.len() == 0 {
        Seq::empty()
    } else {
        chain_survivors(rs.drop_last()) + if rs.last().retired {
            Seq::empty()
        } else {
            seq![rs.last().syn]
        }
    }
}

/// The branches a chained pass spawned, in order.
pub open spec fn chain_spawned(rs: Seq<StepOutcome>) -> Seq<SynapseView>
    decreases rs.len(),
{
    if rs.len() == 0 {
        Seq::empty()
    } else {
        chain_spawned(rs.drop_last()) + rs.last().spawned
    }
}

/// The world a chain ends in.
pub open spec fn chain_end_world(w0: Manager, rs: Seq<StepOutcome>) -> Manager {
    if rs.len() == 0 {
        w0
    } else {
        rs.last().world
    }
}

/// The store a chain ends in.
pub open spec fn chain_end_store(st0: Option<SavePayload>, rs: Seq<StepOutcome>) -> Option<
    SavePayload,
> {
    if rs.len() == 0 {
        st0
    } else {
        rs.last().store
    }
}

/// The pending queue a chain ends in.
pub open spec fn chain_end_pending(p0: Seq<Seq<SynapseView>>, rs: Seq<StepOutcome>) -> Seq<
    Seq<SynapseView>,
> {
    if rs.len() == 0 {
        p0
    } else {
        rs.last().pending
    }
}

/// The outcome a chain ends in.
pub open spec fn chain_end_outcome(o0: Outcome, rs: Seq<StepOutcome>) -> Outcome {
    if rs.len() == 0 {
        o0
    } else {
        rs.last().outcome
    }
}

/// How one full scheduler pass relates states: every active synapse takes
/// one step (each from the state the one before it left), and the new
/// active list is the survivors followed by all spawned branches —
/// removals and additions resolved only after the whole pass.
pub open spec fn pass_rel(
    active0: Seq<SynapseView>,
    w0: Manager,
    st0: Option<SavePayload>,
    p0: Seq<Seq<SynapseView>>,
    o0: Outcome,
    active1: Seq<SynapseView>,
    w1: Manager,
    st1: Option<SavePayload>,
    p1: Seq<Seq<SynapseView>>,
    o1: Outcome,
) -> bool {
    exists|rs: Seq<StepOutcome>|
        {
            &&& rs.len() == active0.len()
            &&& #[trigger] chain_ok(active0, w0, st0, p0, o0, rs)
            &&& active1 == chain_survivors(rs) + chain_spawned(rs)
            &&& w1 == chain_end_world(w0, rs)
            &&& st1 == chain_end_store(st0, rs)
            &&& p1 == chain_end_pending(p0, rs)
            &&& o1 == chain_end_outcome(o0, rs)
        }
}

/// The hard propagation ceiling: a run that exceeds this many passes is a
/// cyclic axiom graph and is reported as halted.
pub const PROPAGATION_CEILING: usize = 500;

/// One pass of the wavefront scheduler over the active list: every synapse
/// takes one step; removals and additions are resolved only after the whole
/// pass, so branches never perturb the pass that spawned them.
fn wavefront_pass(
    active: &mut Vec<Synapse>,
    mgr: &mut Manager,
    store: &mut Option<SavePayload>,
    pending: &mut Vec<Vec<Synapse>>,
    outcome: &mut Outcome,
)
    requires
        run_ok(synviews(old(active)@), old(mgr).characters@.len()),
        pending_ok(pendviews(old(pending)@), old(mgr).characters@.len()),
        old(mgr).wf(),
        old(outcome).new_manager matches Some(m0) ==> m0.wf(),
    ensures
        final(mgr).wf(),
        final(mgr).characters@.len() == old(mgr).characters@.len(),
        final(mgr).location == old(mgr).location,
        final(mgr).current_level == old(mgr).current_level,
        run_ok(synviews(final(active)@), final(mgr).characters@.len()),
        pending_ok(pendviews(final(pending)@), final(mgr).characters@.len()),
        final(outcome).halted == old(outcome).halted,
        final(outcome).new_manager matches Some(m) ==> m.wf(),
        pass_rel(
            synviews(old(active)@),
            *old(mgr),
            *old(store),
            pendviews(old(pending)@),
            *old(outcome),
            synviews(final(active)@),
            *final(mgr),
            *final(store),
            pendviews(final(pending)@),
            *final(outcome),
        ),
{
    let ghost n = old(mgr).characters@.len();
    let ghost a0 = synviews(old(active)@);
    let ghost w_init = *old(mgr);
    let ghost st_init = *old(store);
    let ghost p_init = pendviews(old(pending)@);
    let ghost o_init = *old(outcome);
    let ghost mut rs: Seq<StepOutcome> = Seq::empty();
    let mut next: Vec<Synapse> = Vec::new();
    let mut spawned_all: Vec<Synapse> = Vec::new();
    while active.len() > 0
        invariant
            mgr.wf(),
            mgr.characters@.len() == n,
            mgr.location == old(mgr).location,
            mgr.current_level == old(mgr).current_level,
            run_ok(synviews(active@), n),
            run_ok(synviews(next@), n),
            run_ok(synviews(spawned_all@), n),
            pending_ok(pendviews(pending@), n),
            outcome.halted == old(outcome).halted,
            outcome.new_manager matches Some(m) ==> m.wf(),
            a0 == synviews(old(active)@),
            w_init == *old(mgr),
            st_init == *old(store),
            p_init == pendviews(old(pending)@),
            o_init == *old(outcome),
            rs.len() + active@.len() == a0.len(),
            synviews(active@) == a0.skip(rs.len() as int),
            chain_ok(a0, w_init, st_init, p_init, o_init, rs),
            *mgr == chain_end_world(w_init, rs),
            *store == chain_end_store(st_init, rs),
            pendviews(pending@) == chain_end_pending(p_init, rs),
            *outcome == chain_end_outcome(o_init, rs),
            synviews(next@) == chain_survivors(rs),
            synviews(spawned_all@) == chain_spawned(rs),
        decreases active@.len(),
    {
        proof {
            assert(synviews(active@)[0] == active@[0]@);
        }
        let ghost act0 = active@;
        let ghost k = rs.len() as int;
        let mut syn = active.remove(0);
        proof {
            assert forall|j: int| 0 <= j < active@.len() implies synapse_ok(
                #[trigger] synviews(active@)[j],
                n,
            ) by {
                assert(active@[j] == act0[j + 1]);
                assert(synviews(act0)[j + 1] == act0[j + 1]@);
                assert(synviews(active@)[j] == active@[j]@);
            }
            assert forall|j: int| 0 <= j < active@.len() implies synviews(active@)[j] == a0.skip(
                k + 1,
            )[j] by {
                assert(active@[j] == act0[j + 1]);
                assert(synviews(act0)[j + 1] == act0[j + 1]@);
                assert(synviews(act0)[j + 1] == a0.skip(k)[j + 1]);
                assert(synviews(active@)[j] == active@[j]@);
            }
            assert(synviews(active@) =~= a0.skip(k + 1));
            assert(syn@ == synviews(act0)[0]);
            assert(synviews(act0)[0] == a0.skip(k)[0]);
            assert(syn@ == a0[k]);
        }
        let ghost pending0 = pending@;
        let (retired, mut spawned) = step_synapse(&mut syn, mgr, store, pending, outcome);
        let ghost stepped = StepOutcome {
            retired: retired,
            syn: syn@,
            spawned: synviews(spawned@),
            world: *mgr,
            store: *store,
            pending: pendviews(pending@),
            outcome: *outcome,
        };
        proof {
            let rs2 = rs.push(stepped);
            assert(rs2.drop_last() =~= rs);
            assert(rs2.last() == stepped);
            assert(step_rel(
                a0[k],
                chain_end_world(w_init, rs),
                chain_end_store(st_init, rs),
                chain_end_pending(p_init, rs),
                chain_end_outcome(o_init, rs),
                stepped,
            ));
            if k > 0 {
                assert(rs2[k - 1] == rs[k - 1]);
            }
            assert(chain_ok(a0, w_init, st_init, p_init, o_init, rs2));
            rs = rs2;
        }
        proof {
            assert forall|j: int| 0 <= j < pending@.len() implies run_ok(
                #[trigger] pendviews(pending@)[j],
                n,
            ) by {
                if j < pending0.len() {
                    assert(pending@[j] == pending0[j]);
                    assert(pendviews(pending@)[j] == pendviews(pending0)[j]);
                } else {
                    assert(pendviews(pending@)[j] == pendviews(pending@).skip(
                        pending0.len() as int,
                    )[j - pending0.len()]);
                }
            }
        }
        let ghost next0 = next@;
        if !retired {
            next.push(syn);
        }
        proof {
            assert forall|j: int| 0 <= j < next@.len() implies synapse_ok(
                #[trigger] synviews(next@)[j],
                n,
            ) by {
                assert(synviews(next@)[j] == next@[j]@);
                if j < next0.len() {
                    assert(next@[j] == next0[j]);
                    assert(synviews(next0)[j] == next0[j]@);
                } else {
                    assert(next@[j] == syn);
                }
            }
            assert(rs.drop_last() =~= rs.subrange(0, rs.len() - 1));
            assert(chain_survivors(rs) == chain_survivors(rs.drop_last()) + if rs.last().retired {
                Seq::<SynapseView>::empty()
            } else {
                seq![rs.last().syn]
            });
            assert(synviews(next@) =~= chain_survivors(rs));
        }
        let ghost spawned_prev = spawned_all@;
        let ghost spawned_in = spawned@;
        spawned_all.append(&mut spawned);
        proof {
            assert forall|j: int| 0 <= j < spawned_all@.len() implies synapse_ok(
                #[trigger] synviews(spawned_all@)[j],
                n,
            ) by {
                assert(synviews(spawned_all@)[j] == spawned_all@[j]@);
                if j < spawned_prev.len() {
                    assert(spawned_all@[j] == spawned_prev[j]);
                    assert(synviews(spawned_prev)[j] == spawned_prev[j]@);
                } else {
                    assert(spawned_all@[j] == spawned_in[j - spawned_prev.len()]);
                }
            }
            assert(chain_spawned(rs) == chain_spawned(rs.drop_last()) + rs.last().spawned);
            assert(synviews(spawned_all@) =~= chain_spawned(rs));
        }
    }
    let mut replacement = next;
    let ghost repl0 = replacement@;
    let ghost spawned_fin = spawned_all@;
    replacement.append(&mut spawned_all);
    proof {
        assert forall|j: int| 0 <= j < replacement@.len() implies synapse_ok(
            #[trigger] synviews(replacement@)[j],
            n,
        ) by {
            assert(synviews(replacement@)[j] == replacement@[j]@);
            if j < repl0.len() {
                assert(replacement@[j] == repl0[j]);
                assert(synviews(repl0)[j] == repl0[j]@);
            } else {
                assert(replacement@[j] == spawned_fin[j - repl0.len()]);
                assert(synviews(spawned_fin)[j - repl0.len()] == spawned_fin[j - repl0.len()]@);
            }
        }
        assert(synviews(replacement@) =~= synviews(repl0) + synviews(spawned_fin));
        assert(rs.len() == a0.len());
        assert(synviews(replacement@) == chain_survivors(rs) + chain_spawned(rs));
    }
    *active = replacement;
    proof {
        assert(chain_ok(a0, w_init, st_init, p_init, o_init, rs));
        assert(pass_rel(
            a0,
            w_init,
            st_init,
            p_init,
            o_init,
            synviews(active@),
            *mgr,
            *store,
            pendviews(pending@),
            *outcome,
        ));
    }
}

/// One point of a scheduler run: what is active, which runs wait, and the
/// world, store and outcome so far.
pub struct EngineState {
    pub active: Seq<SynapseView>,
    pub pending: Seq<Seq<SynapseView>>,
    pub world: Manager,
    pub store: Option<SavePayload>,
    pub outcome: Outcome,
}

/// How one iteration of the engine advances: an empty active list pops the
/// next pending run, touching nothing else; a non-empty one takes one full
/// pass.
pub open spec fn engine_iter(s: EngineState, s2: EngineState) -> bool {
    if s.active.len() == 0 {
        &&& s.pending.len() > 0
        &&& s2.active == s.pending[0]
        &&& s2.pending == s.pending.drop_first()
        &&& s2.world == s.world
        &&& s2.store == s.store
        &&& s2.outcome == s.outcome
    } else {
        pass_rel(
            s.active,
            s.world,
            s.store,
            s.pending,
            s.outcome,
            s2.active,
            s2.world,
            s2.store,
            s2.pending,
            s2.outcome,
        )
    }
}

/// How many of a trace's transitions are passes; pops are free, and only
/// passes count against the propagation ceiling.
pub open spec fn trace_passes(tr: Seq<EngineState>) -> int
    decreases tr.len(),
{
    if tr.len() <= 1 {
        0
    } else {
        trace_passes(tr.drop_last()) + if tr[tr.len() - 2].active.len() > 0 {
            1int
        } else {
            0int
        }
    }
}

/// A whole run of the wavefront scheduler: some sequence of engine states
/// starts at the seeds and queued runs with a fresh outcome, each adjacent
/// pair is one engine iteration, and the trace ends either exhausted —
/// nothing active, nothing pending, the outcome as the effects left it —
/// or halted with work still left after exactly the ceiling's worth of
/// passes.
pub open spec fn engine_run(
    seeds: Seq<SynapseView>,
    runs: Seq<Seq<SynapseView>>,
    w0: Manager,
    st0: Option<SavePayload>,
    w1: Manager,
    st1: Option<SavePayload>,
    out: Outcome,
) -> bool {
    exists|tr: Seq<EngineState>|
        {
            &&& tr.len() >= 1
            &&& tr[0] == (EngineState {
                active: seeds,
                pending: runs,
                world: w0,
                store: st0,
                outcome: (Outcome { new_manager: Option::None, load_failed: false, halted: false }),
            })
            &&& forall|i: int| 0 <= i < tr.len() - 1 ==> engine_iter(#[trigger] tr[i], tr[i + 1])
            &&& #[trigger] trace_passes(tr) <= PROPAGATION_CEILING
            &&& tr.last().world == w1
            &&& tr.last().store == st1
            &&& if out.halted {
                &&& out == (Outcome { halted: true, ..tr.last().outcome })
                &&& tr.last().active.len() > 0
                &&& trace_passes(tr) == PROPAGATION_CEILING
            } else {
                &&& out == tr.last().outcome
                &&& tr.last().active.len() == 0
                &&& tr.last().pending.len() == 0
            }
        }
}

/// Drive a work queue of runs to exhaustion under the global propagation
/// ceiling.
#[verifier::rlimit(100)]
fn run_engine(
    seeds: Vec<Synapse>,
    runs: Vec<Vec<Synapse>>,
    mgr: &mut Manager,
    store: &mut Option<SavePayload>,
) -> (out: Outcome)
    requires
        old(mgr).wf(),
        run_ok(synviews(seeds@), old(mgr).characters@.len()),
        pending_ok(pendviews(runs@), old(mgr).characters@.len()),
    ensures
        final(mgr).wf(),
        final(mgr).characters@.len() == old(mgr).characters@.len(),
        final(mgr).location == old(mgr).location,
        final(mgr).current_level == old(mgr).current_level,
        out.new_manager matches Some(m) ==> m.wf(),
        engine_run(
            synviews(seeds@),
            pendviews(runs@),
            *old(mgr),
            *old(store),
            *final(mgr),
            *final(store),
            out,
        ),
        seeds@.len() == 0 && runs@.len() == 0 ==> {
            &&& same_world(*final(mgr), *old(mgr))
            &&& *final(store) == *old(store)
            &&& out.new_manager is None
            &&& !out.load_failed
            &&& !out.halted
        },
{
    let ghost n = old(mgr).characters@.len();
    let ghost a_init = synviews(seeds@);
    let ghost p_init = pendviews(runs@);
    let ghost w_init = *old(mgr);
    let ghost st_init = *old(store);
    let ghost o_init = Outcome { new_manager: Option::None, load_failed: false, halted: false };
    let ghost init = EngineState {
        active: a_init,
        pending: p_init,
        world: w_init,
        store: st_init,
        outcome: o_init,
    };
    if seeds.is_empty() && runs.is_empty() {
        let out = Outcome { new_manager: None, load_failed: false, halted: false };
        proof {
            let tr = seq![init];
            assert(tr.last() == init);
            assert(trace_passes(tr) == 0);
            assert(engine_run(a_init, p_init, w_init, st_init, *mgr, *store, out));
        }
        return out;
    }
    let mut active = seeds;
    let mut pending = runs;
    let mut outcome = Outcome { new_manager: None, load_failed: false, halted: false };
    let mut guard: usize = 0;
    let ghost mut tr: Seq<EngineState> = seq![init];
    proof {
        assert(tr.last() == init);
        assert(trace_passes(tr) == 0);
    }
    loop
        invariant_except_break
            outcome.halted == false,
            tr.last().outcome == outcome,
        invariant
            mgr.wf(),
            mgr.characters@.len() == n,
            mgr.location == old(mgr).location,
            mgr.current_level == old(mgr).current_level,
            run_ok(synviews(active@), n),
            pending_ok(pendviews(pending@), n),
            guard <= PROPAGATION_CEILING,
            outcome.new_manager matches Some(m) ==> m.wf(),
            init == (EngineState {
                active: a_init,
                pending: p_init,
                world: w_init,
                store: st_init,
                outcome: o_init,
            }),
            o_init == (Outcome { new_manager: Option::None, load_failed: false, halted: false }),
            tr.len() >= 1,
            tr[0] == init,
            forall|i: int| 0 <= i < tr.len() - 1 ==> engine_iter(#[trigger] tr[i], tr[i + 1]),
            tr.last().active == synviews(active@),
            tr.last().pending == pendviews(pending@),
            tr.last().world == *mgr,
            tr.last().store == *store,
            trace_passes(tr) == guard,
        ensures
            mgr.wf(),
            mgr.characters@.len() == n,
            mgr.location == old(mgr).location,
            mgr.current_level == old(mgr).current_level,
            outcome.new_manager matches Some(m) ==> m.wf(),
            engine_run(a_init, p_init, w_init, st_init, *mgr, *store, outcome),
        decreases PROPAGATION_CEILING - guard, pending@.len() + 1,
    {
        if active.is_empty() {
            if pending.is_empty() {
                proof {
                    assert(engine_run(a_init, p_init, w_init, st_init, *mgr, *store, outcome));
                }
                break;
            }
            proof {
                assert(pendviews(pending@)[0] == synviews(pending@[0]@));
            }
            let ghost pend0 = pending@;
            let ghost prev = tr.last();
            let run = pending.remove(0);
            proof {
                assert forall|j: int| 0 <= j < pending@.len() implies run_ok(
                    #[trigger] pendviews(pending@)[j],
                    n,
                ) by {
                    assert(pending@[j] == pend0[j + 1]);
                    assert(pendviews(pend0)[j + 1] == synviews(pend0[j + 1]@));
                    assert(pendviews(pending@)[j] == synviews(pending@[j]@));
                }
            }
            active = run;
            proof {
                assert forall|j: int|
                    0 <= j < pendviews(pending@).len() implies pendviews(pending@)[j]
                    == pendviews(pend0).drop_first()[j] by {
                    assert(pending@[j] == pend0[j + 1]);
                    assert(pendviews(pend0)[j + 1] == synviews(pend0[j + 1]@));
                    assert(pendviews(pending@)[j] == synviews(pending@[j]@));
                }
                assert(pendviews(pending@) =~= pendviews(pend0).drop_first());
                let s2 = EngineState {
                    active: synviews(active@),
                    pending: pendviews(pending@),
                    world: *mgr,
                    store: *store,
                    outcome: outcome,
                };
                assert(prev.active.len() == 0);
                assert(engine_iter(prev, s2));
                let tr2 = tr.push(s2);
                assert(tr2.drop_last() =~= tr);
                assert(tr2.last() == s2);
                assert forall|i: int| 0 <= i < tr2.len() - 1 implies engine_iter(
                    #[trigger] tr2[i],
                    tr2[i + 1],
                ) by {
                    if i < tr.len() - 1 {
                        assert(tr2[i] == tr[i]);
                        assert(tr2[i + 1] == tr[i + 1]);
                    } else {
                        assert(tr2[i] == tr.last());
                        assert(tr2[i + 1] == s2);
                    }
                }
                assert(tr2[tr2.len() - 2] == prev);
                assert(trace_passes(tr2) == trace_passes(tr));
                assert(tr2[0] == tr[0]);
                tr = tr2;
            }
        } else {
            if guard == PROPAGATION_CEILING {
                proof {
                    assert(tr.last().active.len() > 0);
                }
                outcome.halted = true;
                proof {
                    assert(outcome == (Outcome { halted: true, ..tr.last().outcome }));
                    assert(engine_run(a_init, p_init, w_init, st_init, *mgr, *store, outcome));
                }
                break;
            }
            guard = guard + 1;
            let ghost prev = tr.last();
            proof {
                assert(prev.active.len() > 0);
            }
            wavefront_pass(&mut active, mgr, store, &mut pending, &mut outcome);
            proof {
                let s2 = EngineState {
                    active: synviews(active@),
                    pending: pendviews(pending@),
                    world: *mgr,
                    store: *store,
                    outcome: outcome,
                };
                assert(pass_rel(
                    prev.active,
                    prev.world,
                    prev.store,
                    prev.pending,
                    prev.outcome,
                    s2.active,
                    s2.world,
                    s2.store,
                    s2.pending,
                    s2.outcome,
                ));
                assert(engine_iter(prev, s2));
                let tr2 = tr.push(s2);
                assert(tr2.drop_last() =~= tr);
                assert(tr2.last() == s2);
                assert forall|i: int| 0 <= i < tr2.len() - 1 implies engine_iter(
                    #[trigger] tr2[i],
                    tr2[i + 1],
                ) by {
                    if i < tr.len() - 1 {
                        assert(tr2[i] == tr[i]);
                        assert(tr2[i + 1] == tr[i + 1]);
                    } else {
                        assert(tr2[i] == tr.last());
                        assert(tr2[i + 1] == s2);
                    }
                }
                assert(tr2[tr2.len() - 2] == prev);
                assert(trace_passes(tr2) == trace_passes(tr) + 1);
                assert(tr2[0] == tr[0]);
                tr = tr2;
            }
        }
    }
    outcome
}

/// Run seed synapses to exhaustion through the axiom interpreter: an
/// `engine_run` from the seeds, with nothing queued, connects the world and
/// store before the call to the world and store after it, and fixes the
/// outcome — a replacement world if a `LoadGame` effect fired, a malformed
/// save if one was seen, and whether the propagation ceiling was hit.
pub fn process_axioms(synapses: Vec<Synapse>, mgr: &mut Manager, store: &mut Option<SavePayload>) -> (out:
    Outcome)
    requires
        old(mgr).wf(),
        run_ok(synviews(synapses@), old(mgr).characters@.len()),
    ensures
        final(mgr).wf(),
        final(mgr).characters@.len() == old(mgr).characters@.len(),
        final(mgr).location == old(mgr).location,
        final(mgr).current_level == old(mgr).current_level,
        out.new_manager matches Some(m) ==> m.wf(),
        engine_run(
            synviews(synapses@),
            Seq::empty(),
            *old(mgr),
            *old(store),
            *final(mgr),
            *final(store),
            out,
        ),
        synapses@.len() == 0 ==> {
            &&& same_world(*final(mgr), *old(mgr))
            &&& *final(store) == *old(store)
            &&& out.new_manager is None
            &&& !out.load_failed
            &&& !out.halted
        },
{
    let empty_runs: Vec<Vec<Synapse>> = Vec::new();
    proof {
        assert(pendviews(empty_runs@) =~= Seq::<Seq<SynapseView>>::empty());
    }
    run_engine(synapses, empty_runs, mgr, store)
}

/// Scan the world for pieces whose species equals the trigger condition and
/// run a seed synapse at each, in arena order: an `engine_run` with no
/// initial synapses and exactly the condition's `contingency_runs` queued
/// connects the world and store before the call to those after it.
pub fn trigger_contingency(
    mgr: &mut Manager,
    contingency: &Species,
    store: &mut Option<SavePayload>,
) -> (out: Outcome)
    requires
        old(mgr).wf(),
    ensures
        final(mgr).wf(),
        final(mgr).characters@.len() == old(mgr).characters@.len(),
        final(mgr).location == old(mgr).location,
        final(mgr).current_level == old(mgr).current_level,
        out.new_manager matches Some(m) ==> m.wf(),
        engine_run(
            Seq::empty(),
            contingency_runs(old(mgr).characters@, contingency@, 0),
            *old(mgr),
            *old(store),
            *final(mgr),
            *final(store),
            out,
        ),
        contingency_runs(old(mgr).characters@, contingency@, 0).len() == 0 ==> {
            &&& same_world(*final(mgr), *old(mgr))
            &&& *final(store) == *old(store)
            &&& out.new_manager is None
            &&& !out.load_failed
            &&& !out.halted
        },
{
    let mut runs: Vec<Vec<Synapse>> = Vec::new();
    seed_contingency_runs(mgr, contingency, &mut runs);
    proof {
        lemma_contingency_runs_ok(mgr.characters@, contingency@, 0, mgr.characters@.len());
        assert(pendviews(runs@) =~= Seq::<Seq<SynapseView>>::empty() + contingency_runs(
            mgr.characters@,
            contingency@,
            0,
        ));
        assert(pendviews(runs@) =~= contingency_runs(mgr.characters@, contingency@, 0));
        assert(synviews(Seq::<Synapse>::empty()) =~= Seq::<SynapseView>::empty());
    }
    let no_seeds: Vec<Synapse> = Vec::new();
    proof {
        assert(synviews(no_seeds@) =~= Seq::<SynapseView>::empty());
    }
    run_engine(no_seeds, runs, mgr, store)
}

} // verus!

verus! {

/// No synapse the scheduler accepts ever revisits a coordinate of its own
/// lineage: its visited list holds no coordinate twice, and the cell it is
/// about to pulse is not among them. `step_synapse` establishes the same
/// shape again for the continued synapse and for every spawned branch, so
/// the property is carried through a whole run.
pub proof fn lemma_lineage_never_revisits(s: SynapseView, n: nat)
    requires
        synapse_ok(s, n),
    ensures
        s.visited.no_duplicates(),
        !s.visited.contains(wrap_point(s.pulse)),
{
}

/// A wavefront standing on a cell with no occupied neighbour finds nothing
/// to continue into: it retires after its single step.
pub proof fn lemma_isolated_cell_retires(
    m: Manager,
    w: (i32, i32, i32),
    momentum: OrdDir,
    visited: Seq<(i32, i32, i32)>,
)
    requires
        forall|d: OrdDir|
            free_at(
                m.characters@,
                wrap_point(
                    (
                        (w.0 + (#[trigger] d.offset_spec()).0) as i32,
                        (w.1 + d.offset_spec().1) as i32,
                        w.2,
                    ),
                ),
            ),
    ensures
        qualifying(m, w, momentum, visited, 0).len() == 0,
{
    assert forall|k: int| 0 <= k < 4 implies (#[trigger] qualifying(m, w, momentum, visited, k))
        == qualifying(m, w, momentum, visited, k + 1) by {
        let dir = rotation_dir(momentum, k);
        assert(free_at(
            m.characters@,
            wrap_point(
                ((w.0 + dir.offset_spec().0) as i32, (w.1 + dir.offset_spec().1) as i32, w.2),
            ),
        ));
    }
    assert(qualifying(m, w, momentum, visited, 0) == qualifying(m, w, momentum, visited, 4));
}

/// Filtering with a predicate no element satisfies leaves nothing.
proof fn lemma_filter_all_false<A>(s: Seq<A>, pred: spec_fn(A) -> bool)
    requires
        forall|k: int| 0 <= k < s.len() ==> !pred(#[trigger] s[k]),
    ensures
        s.filter(pred) == Seq::<A>::empty(),
    decreases s.len(),
{
    reveal(Seq::filter);
    if s.len() > 0 {
        assert forall|k: int| 0 <= k < s.drop_last().len() implies !pred(
            #[trigger] s.drop_last()[k],
        ) by {
            assert(s.drop_last()[k] == s[k]);
        }
        lemma_filter_all_false(s.drop_last(), pred);
        assert(!pred(s.last()));
    }
}

/// Teleport is idempotent with respect to unreachable targets: a caster all
/// of whose targets are occupied does not move, and nothing collides.
pub proof fn lemma_teleport_unreachable_is_noop(chars: Seq<Piece>, c: CasterTargetView)
    requires
        forall|k: int| 0 <= k < c.targets.len() ==> !free_at(chars, #[trigger] c.targets[k]),
    ensures
        teleport_step(chars, c).0 == chars,
        teleport_step(chars, c).1 == Seq::<Species>::empty(),
{
    let pred = |t: (i32, i32, i32)| free_at(chars, t);
    assert forall|k: int| 0 <= k < c.targets.len() implies !pred(#[trigger] c.targets[k]) by {
        assert(!free_at(chars, c.targets[k]));
    }
    lemma_filter_all_false(c.targets, pred);
    assert(spec_closest(Seq::<(i32, i32, i32)>::empty(), piece_pos(chars[c.caster as int]))
        is None);
}

proof fn lemma_add_unique_grows(s: Seq<(i32, i32, i32)>, t: (i32, i32, i32))
    ensures
        add_unique(s, t).len() >= s.len(),
        s.len() == 0 ==> add_unique(s, t).len() >= 1,
{
}

proof fn lemma_add_octet_grows(s: Seq<(i32, i32, i32)>, pts: Seq<(i32, i32, i32)>, k: int)
    ensures
        add_octet(s, pts, k).len() >= s.len(),
        s.len() == 0 && k == 0 && pts.len() > 0 ==> add_octet(s, pts, k).len() >= 1,
    decreases pts.len() - k,
{
    if 0 <= k < pts.len() {
        lemma_add_unique_grows(s, pts[k]);
        lemma_add_octet_grows(add_unique(s, pts[k]), pts, k + 1);
    }
}

proof fn lemma_circle_build_grows(
    c: (i32, i32, i32),
    radius: int,
    rr: int,
    acc: Seq<(i32, i32, i32)>,
)
    ensures
        circle_build(c, radius, rr, acc).len() >= acc.len(),
    decreases isqrt_spec(radius * radius / 2) + 1 - rr,
{
    if !(rr < 0 || rr > isqrt_spec(radius * radius / 2)) {
        let oct = octet(c, rr, isqrt_spec(radius * radius - rr * rr));
        lemma_add_octet_grows(acc, oct, 0);
        lemma_circle_build_grows(c, radius, rr + 1, add_octet(acc, oct, 0));
    }
}

/// A circle of any permitted radius offers at least one candidate point.
pub proof fn lemma_circle_points_nonempty(c: (i32, i32, i32), radius: int)
    requires
        0 <= radius,
    ensures
        circle_points(c, radius).len() >= 1,
{
    lemma_isqrt_bounds(radius * radius / 2);
    assert((radius * radius) / 2 >= 0) by (nonlinear_arith)
        requires
            radius >= 0,
    ;
    let rmax = isqrt_spec(radius * radius / 2);
    let oct = octet(c, 0, isqrt_spec(radius * radius));
    lemma_add_octet_grows(Seq::<(i32, i32, i32)>::empty(), oct, 0);
    lemma_circle_build_grows(c, radius, 1, add_octet(Seq::<(i32, i32, i32)>::empty(), oct, 0));
    assert(circle_points(c, radius) == circle_build(
        c,
        radius,
        1,
        add_octet(Seq::<(i32, i32, i32)>::empty(), oct, 0),
    ));
}

proof fn lemma_add_unique_distinct(s: Seq<(i32, i32, i32)>, t: (i32, i32, i32))
    requires
        s.no_duplicates(),
    ensures
        add_unique(s, t).no_duplicates(),
{
    if !s.contains(t) {
        assert forall|i: int, j: int|
            0 <= i < j < add_unique(s, t).len() implies add_unique(s, t)[i] != add_unique(
            s,
            t,
        )[j] by {
            if j == add_unique(s, t).len() - 1 {
                assert(add_unique(s, t)[i] == s[i]);
            }
        }
    }
}

proof fn lemma_add_octet_distinct(s: Seq<(i32, i32, i32)>, pts: Seq<(i32, i32, i32)>, k: int)
    requires
        s.no_duplicates(),
    ensures
        add_octet(s, pts, k).no_duplicates(),
    decreases pts.len() - k,
{
    if 0 <= k < pts.len() {
        lemma_add_unique_distinct(s, pts[k]);
        lemma_add_octet_distinct(add_unique(s, pts[k]), pts, k + 1);
    }
}

proof fn lemma_circle_build_distinct(
    c: (i32, i32, i32),
    radius: int,
    rr: int,
    acc: Seq<(i32, i32, i32)>,
)
    requires
        acc.no_duplicates(),
    ensures
        circle_build(c, radius, rr, acc).no_duplicates(),
    decreases isqrt_spec(radius * radius / 2) + 1 - rr,
{
    if !(rr < 0 || rr > isqrt_spec(radius * radius / 2)) {
        let oct = octet(c, rr, isqrt_spec(radius * radius - rr * rr));
        lemma_add_octet_distinct(acc, oct, 0);
        lemma_circle_build_distinct(c, radius, rr + 1, add_octet(acc, oct, 0));
    }
}

/// The circle generator never emits a point twice.
pub proof fn lemma_circle_points_distinct(c: (i32, i32, i32), radius: int)
    ensures
        circle_points(c, radius).no_duplicates(),
{
    assert(Seq::<(i32, i32, i32)>::empty().no_duplicates());
    lemma_circle_build_distinct(c, radius, 0, Seq::<(i32, i32, i32)>::empty());
}

/// Orbit with radius `R` over a fixed circle-candidate count `C` produces a
/// periodic sequence: the candidates are exactly the `C` distinct sorted
/// circle points (wrapped onto the board), and advancing the turn counter
/// by `C` selects the same point again.
pub proof fn lemma_orbit_periodic(t: (i32, i32, i32), radius: int, turns: int)
    requires
        0 <= radius <= MAX_CIRCLE_RADIUS,
        0 <= turns,
    ensures
        ({
            let sorted = sort_clockwise_spec(t, circle_points(t, radius));
            let cands = orbit_candidates(t, radius);
            &&& sorted.no_duplicates()
            &&& sorted.len() == circle_points(t, radius).len()
            &&& cands.len() == sorted.len()
            &&& cands.len() >= 1
            &&& orbit_point_spec(t, radius, turns + cands.len()) == orbit_point_spec(
                t,
                radius,
                turns,
            )
        }),
{
    let circle = circle_points(t, radius);
    lemma_circle_points_nonempty(t, radius);
    lemma_circle_points_distinct(t, radius);
    lemma_sort_clockwise_distinct(t, circle);
    let cands = orbit_candidates(t, radius);
    let c = cands.len() as int;
    assert((turns + c) % c == turns % c) by {
        vstd::arithmetic::div_mod::lemma_mod_multiples_vanish(1, turns, c);
    }
}

} // verus!
