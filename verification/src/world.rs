use vstd::prelude::*;

use crate::animation::TileEffect;
use crate::character::OrdDir;
use crate::character::Piece;
use crate::model::SpeciesView;
use crate::spell::Species;

verus! {

pub const WORLD_ROWS: usize = 45;

pub const WORLD_COLS: usize = 45;

/// The position a piece occupies, as one value.
pub open spec fn piece_pos(p: Piece) -> (i32, i32, i32) {
    (p.x, p.y, p.z)
}

/// One coordinate component wrapped onto the board: the Euclidean remainder
/// by the board size, which lands in `[0, m)` for every input.
pub open spec fn wrap_component_spec(v: i32, m: int) -> int {
    (v as int) % m
}

/// The toroidal wrap of a coordinate: both board axes wrap for every input,
/// and the layer `z` always passes through untouched.
pub open spec fn map_wrap_spec(x: i32, y: i32, z: i32) -> (int, int, int) {
    (wrap_component_spec(x, WORLD_COLS as int), wrap_component_spec(y, WORLD_ROWS as int), z as int)
}

fn wrap_component(v: i32, m: i32) -> (r: i32)
    requires
        0 < m,
    ensures
        r == wrap_component_spec(v, m as int),
        0 <= r < m,
{
    if v >= 0 {
        v % m
    } else {
        let p: i64 = -(v as i64);
        let rp: i64 = p % (m as i64);
        let r: i32 = if rp == 0 {
            0
        } else {
            m - (rp as i32)
        };
        proof {
            let mi = m as int;
            let pi = p as int;
            vstd::arithmetic::div_mod::lemma_fundamental_div_mod(pi, mi);
            if rp == 0 {
                assert((-(pi / mi)) * mi + 0 == -(mi * (pi / mi))) by (nonlinear_arith);
                assert(v as int == (-(pi / mi)) * mi + 0);
                vstd::arithmetic::div_mod::lemma_fundamental_div_mod_converse_mod(
                    v as int,
                    mi,
                    -(pi / mi),
                    0,
                );
            } else {
                assert((-(pi / mi) - 1) * mi == -(mi * (pi / mi)) - mi) by (nonlinear_arith);
                assert(v as int == (-(pi / mi) - 1) * mi + (mi - (rp as int)));
                vstd::arithmetic::div_mod::lemma_fundamental_div_mod_converse_mod(
                    v as int,
                    mi,
                    -(pi / mi) - 1,
                    mi - (rp as int),
                );
            }
        }
        r
    }
}

/// `map_wrap_spec`, packed back into machine integers; the wrapped
/// components always lie in `[0, 45)`, so nothing is truncated.
pub open spec fn wrap_point(t: (i32, i32, i32)) -> (i32, i32, i32) {
    let w = map_wrap_spec(t.0, t.1, t.2);
    (w.0 as i32, w.1 as i32, w.2 as i32)
}

/// Wrap a coordinate onto the toroidal board. Every input lands on the
/// board, positions already on it are unchanged, and wrapping is
/// idempotent.
pub fn map_wrap(x: i32, y: i32, z: i32) -> (r: (i32, i32, i32))
    ensures
        (r.0 as int, r.1 as int, r.2 as int) == map_wrap_spec(x, y, z),
        r == wrap_point((x, y, z)),
        0 <= r.0 < 45,
        0 <= r.1 < 45,
        0 <= x < 45 && 0 <= y < 45 ==> r == (x, y, z),
        wrap_point(r) == r,
        r.2 == z,
{
    let wx = wrap_component(x, WORLD_COLS as i32);
    let wy = wrap_component(y, WORLD_ROWS as i32);
    (wx, wy, z)
}

/// The total number of turns elapsed, incremented by `TurnIncrementer`.
#[derive(Clone, Copy, Debug, PartialEq, Eq, Structural)]
pub struct TurnCounter {
    pub turns: usize,
}

/// Contains information about what should generate on each floor.
#[derive(Debug)]
pub struct Level {
    pub name: String,
}

impl Clone for Level {
    fn clone(&self) -> (res: Self)
        ensures
            res == *self,
    {
        Level { name: self.name.clone() }
    }
}

impl Default for Level {
    fn default() -> (r: Self)
        ensures
            r.name@ == "New Level"@,
    {
        Level { name: String::from_str("New Level") }
    }
}

#[derive(Debug)]
pub struct Location {
    /// Which level is currently loaded.
    ///
    /// This is usually implicit (see `Manager::current_level`),
    /// but storing it is important for serialization.
    pub level: String,
    pub floor: usize,
}

impl Clone for Location {
    fn clone(&self) -> (res: Self)
        ensures
            res == *self,
    {
        Location { level: self.level.clone(), floor: self.floor }
    }
}

/// The data to keep when the world is persisted: every piece, the piece the
/// camera follows, and the turn counter.
#[derive(Debug)]
pub struct SavePayload {
    pub characters: Vec<Piece>,
    pub reality_anchor: Piece,
    pub turn_count: usize,
}

/// This struct contains all information that is relevant during gameplay.
///
/// Pieces are held in one owning arena, `characters`; `reality_anchor` is an
/// index into it. Indices are stable for the whole of a propagation run,
/// since nothing removes pieces while the engine works.
#[derive(Debug)]
pub struct Manager {
    /// Where in the world the characters are.
    pub location: Location,
    /// This is the level pointed to by `location.level`.
    pub current_level: Level,
    pub characters: Vec<Piece>,
    /// The current player, on which the world focuses: an index into
    /// `characters`.
    pub reality_anchor: usize,
    pub effects: Vec<TileEffect>,
    pub turn_count: TurnCounter,
}

impl Manager {
    /// The arena is well formed when the reality anchor names a real piece.
    pub open spec fn wf(&self) -> bool {
        self.reality_anchor < self.characters@.len()
    }

    /// Whether some piece stands at the given (already wrapped) position.
    pub open spec fn occupied_at(&self, x: i32, y: i32, z: i32) -> bool {
        exists|j: int|
            0 <= j < self.characters@.len() && piece_pos(#[trigger] self.characters@[j]) == (
            x,
            y,
            z,
            )
    }
}

/// The first index at or after `i` whose piece stands at `t`, or the length
/// of the arena when no such piece exists.
pub open spec fn spec_first_at(pieces: Seq<Piece>, t: (i32, i32, i32), i: int) -> int
    decreases pieces.len() - i,
{
    if i < 0 || i >= pieces.len() {
        pieces.len() as int
    } else if piece_pos(pieces[i]) == t {
        i
    } else {
        spec_first_at(pieces, t, i + 1)
    }
}

pub proof fn lemma_spec_first_at(pieces: Seq<Piece>, t: (i32, i32, i32), j: int)
    requires
        0 <= j <= pieces.len(),
        forall|k: int| 0 <= k < j ==> piece_pos(#[trigger] pieces[k]) != t,
        j < pieces.len() ==> piece_pos(pieces[j]) == t,
    ensures
        spec_first_at(pieces, t, 0) == j,
{
    lemma_spec_first_at_from(pieces, t, j, 0);
}

proof fn lemma_spec_first_at_from(pieces: Seq<Piece>, t: (i32, i32, i32), j: int, i: int)
    requires
        0 <= i <= j <= pieces.len(),
        forall|k: int| i <= k < j ==> piece_pos(#[trigger] pieces[k]) != t,
        j < pieces.len() ==> piece_pos(pieces[j]) == t,
    ensures
        spec_first_at(pieces, t, i) == if j < pieces.len() {
            j
        } else {
            pieces.len() as int
        },
    decreases pieces.len() - i,
{
    if i < pieces.len() && i < j {
        lemma_spec_first_at_from(pieces, t, j, i + 1);
    }
}

/// The indices, in increasing order, of the pieces at or after `i` whose
/// species views equal `sv`.
pub open spec fn matching_indices(pieces: Seq<Piece>, sv: SpeciesView, i: int) -> Seq<
    usize,
>
    decreases pieces.len() - i,
{
    if i < 0 || i >= pieces.len() {
        Seq::empty()
    } else if pieces[i].species@ == sv {
        seq![i as usize] + matching_indices(pieces, sv, i + 1)
    } else {
        matching_indices(pieces, sv, i + 1)
    }
}

/// Every matching index names a piece of the arena.
pub proof fn lemma_matching_indices_bounds(
    pieces: Seq<Piece>,
    sv: SpeciesView,
    i: int,
)
    ensures
        forall|k: int|
            0 <= k < matching_indices(pieces, sv, i).len() ==> (#[trigger] matching_indices(
                pieces,
                sv,
                i,
            )[k]) < pieces.len(),
    decreases pieces.len() - i,
{
    if 0 <= i < pieces.len() {
        lemma_matching_indices_bounds(pieces, sv, i + 1);
        let whole = matching_indices(pieces, sv, i);
        let rest = matching_indices(pieces, sv, i + 1);
        assert forall|k: int| 0 <= k < whole.len() implies (#[trigger] whole[k])
            < pieces.len() by {
            if pieces[i].species@ == sv {
                if k == 0 {
                    assert(whole[0] == i as usize);
                } else {
                    assert(whole[k] == rest[k - 1]);
                }
            } else {
                assert(whole[k] == rest[k]);
            }
        }
    }
}

/// The first piece of `pieces` standing exactly at `(x, y, z)`, if any.
pub fn find_piece_at(pieces: &Vec<Piece>, x: i32, y: i32, z: i32) -> (r: Option<usize>)
    ensures
        match r {
            Some(i) => 0 <= i < pieces@.len() && piece_pos(pieces@[i as int]) == (x, y, z)
                && forall|j: int|
                0 <= j < i ==> piece_pos(#[trigger] pieces@[j]) != (x, y, z),
            None => forall|j: int|
                0 <= j < pieces@.len() ==> piece_pos(#[trigger] pieces@[j]) != (x, y, z),
        },
        r matches Some(i) ==> spec_first_at(pieces@, (x, y, z), 0) == i,
        r is None ==> spec_first_at(pieces@, (x, y, z), 0) == pieces@.len(),
{
    let n = pieces.len();
    let mut i: usize = 0;
    while i < n
        invariant
            n == pieces@.len(),
            0 <= i <= n,
            forall|j: int| 0 <= j < i ==> piece_pos(#[trigger] pieces@[j]) != (x, y, z),
        decreases n - i,
    {
        let p = &pieces[i];
        if p.x == x && p.y == y && p.z == z {
            proof {
                lemma_spec_first_at(pieces@, (x, y, z), i as int);
            }
            return Some(i);
        }
        i = i + 1;
    }
    proof {
        lemma_spec_first_at(pieces@, (x, y, z), pieces@.len() as int);
    }
    None
}

impl Manager {
    /// Returns the index of the piece at the given position, or `None` if the
    /// cell is empty. Earlier pieces shadow later ones sharing a cell.
    pub fn get_character_at(&self, x: i32, y: i32, z: i32) -> (r: Option<usize>)
        ensures
            match r {
                Some(i) => 0 <= i < self.characters@.len() && piece_pos(
                    self.characters@[i as int],
                ) == (x, y, z) && forall|j: int|
                    0 <= j < i ==> piece_pos(#[trigger] self.characters@[j]) != (x, y, z),
                None => !self.occupied_at(x, y, z),
            },
            r is Some <==> self.occupied_at(x, y, z),
            r matches Some(i) ==> spec_first_at(self.characters@, (x, y, z), 0) == i,
            r is None ==> spec_first_at(self.characters@, (x, y, z), 0) == self.characters@.len(),
    {
        let r = find_piece_at(&self.characters, x, y, z);
        proof {
            if r is Some {
                assert(piece_pos(self.characters@[r.unwrap() as int]) == (x, y, z));
            }
        }
        r
    }

    /// All indices of pieces of the given species, in increasing order.
    pub fn get_characters_of_species(&self, species: &Species) -> (r: Vec<usize>)
        ensures
            forall|k: int|
                0 <= k < r@.len() ==> 0 <= #[trigger] r@[k] < self.characters@.len()
                    && self.characters@[r@[k] as int].species@ == species@,
            forall|j: int|
                0 <= j < self.characters@.len() && (#[trigger] self.characters@[j]).species@
                    == species@ ==> r@.contains(j as usize),
            forall|k1: int, k2: int| 0 <= k1 < k2 < r@.len() ==> r@[k1] < r@[k2],
            r@ == matching_indices(self.characters@, species@, 0),
    {
        let n = self.characters.len();
        let mut r: Vec<usize> = Vec::new();
        let mut i: usize = 0;
        while i < n
            invariant
                n == self.characters@.len(),
                0 <= i <= n,
                forall|k: int|
                    0 <= k < r@.len() ==> 0 <= #[trigger] r@[k] < i
                        && self.characters@[r@[k] as int].species@ == species@,
                forall|j: int|
                    0 <= j < i && (#[trigger] self.characters@[j]).species@ == species@
                        ==> r@.contains(j as usize),
                forall|k1: int, k2: int| 0 <= k1 < k2 < r@.len() ==> r@[k1] < r@[k2],
                matching_indices(self.characters@, species@, 0) == r@ + matching_indices(
                    self.characters@,
                    species@,
                    i as int,
                ),
            decreases n - i,
        {
            let ghost prev = r@;
            if crate::model::species_eq(&self.characters[i].species, species) {
                r.push(i);
            }
            proof {
                if self.characters@[i as int].species@ == species@ {
                    assert(matching_indices(self.characters@, species@, i as int) == seq![
                        i as usize,
                    ] + matching_indices(self.characters@, species@, i + 1));
                    assert(prev + matching_indices(self.characters@, species@, i as int) =~= r@
                        + matching_indices(self.characters@, species@, i + 1));
                } else {
                    assert(matching_indices(self.characters@, species@, i as int)
                        == matching_indices(self.characters@, species@, i + 1));
                }
                assert forall|j: int|
                    0 <= j < i + 1 && (#[trigger] self.characters@[j]).species@
                        == species@ implies r@.contains(j as usize) by {
                    if j < i {
                        let k = choose|k: int| 0 <= k < prev.len() && prev[k] == j as usize;
                        assert(r@[k] == j as usize);
                    } else {
                        assert(r@[r@.len() - 1] == i as usize);
                    }
                }
            }
            i = i + 1;
        }
        proof {
            assert(matching_indices(self.characters@, species@, n as int) =~= Seq::<
                usize,
            >::empty());
            assert(r@ + matching_indices(self.characters@, species@, n as int) =~= r@);
        }
        r
    }

    /// The piece whose turn comes next.
    pub fn next_character(&self) -> (r: &Piece)
        requires
            self.characters@.len() > 0,
        ensures
            *r == self.characters@[0],
    {
        &self.characters[0]
    }

    /// Find, among this world's pieces, the one standing where the saved
    /// reality anchor stood; the saved anchor is matched by position, since
    /// identities cannot be persisted.
    pub fn locate_player(&self, payload: &SavePayload) -> (r: Option<usize>)
        ensures
            match r {
                Some(i) => 0 <= i < self.characters@.len() && piece_pos(
                    self.characters@[i as int],
                ) == piece_pos(payload.reality_anchor) && forall|j: int|
                    0 <= j < i ==> piece_pos(#[trigger] self.characters@[j]) != piece_pos(
                        payload.reality_anchor,
                    ),
                None => forall|j: int|
                    0 <= j < self.characters@.len() ==> piece_pos(#[trigger] self.characters@[j])
                        != piece_pos(payload.reality_anchor),
            },
    {
        find_piece_at(
            &self.characters,
            payload.reality_anchor.x,
            payload.reality_anchor.y,
            payload.reality_anchor.z,
        )
    }
}

/// An exact copy of a piece arena.
pub fn clone_pieces(v: &Vec<Piece>) -> (r: Vec<Piece>)
    ensures
        r@ == v@,
{
    let r = v.clone();
    proof {
        assert forall|i: int| 0 <= i < v@.len() implies r@[i] == v@[i] by {
            assert(cloned::<Piece>(v@[i], r@[i]));
        }
        assert(r@ =~= v@);
    }
    r
}

impl Manager {
    /// The snapshot that `SaveGame` persists: every piece, the anchor piece
    /// itself (to be re-resolved by position on load), and the turn count.
    pub fn save_payload(&self) -> (p: SavePayload)
        requires
            self.wf(),
        ensures
            p.characters@ == self.characters@,
            p.reality_anchor == self.characters@[self.reality_anchor as int],
            p.turn_count == self.turn_count.turns,
    {
        SavePayload {
            characters: clone_pieces(&self.characters),
            reality_anchor: self.characters[self.reality_anchor].clone(),
            turn_count: self.turn_count.turns,
        }
    }
}

/// Build the world a save payload describes, keeping from `base` what a save
/// file does not carry (level metadata and cosmetic effects). Fails (with
/// `None`) only when no saved piece stands where the saved anchor stood.
pub fn restore(payload: &SavePayload, base: &Manager) -> (r: Option<Manager>)
    ensures
        r is Some <==> exists|j: int|
            0 <= j < payload.characters@.len() && piece_pos(#[trigger] payload.characters@[j])
                == piece_pos(payload.reality_anchor),
        r is Some ==> {
            let m = r.unwrap();
            &&& m.wf()
            &&& m.characters@ == payload.characters@
            &&& m.turn_count.turns == payload.turn_count
            &&& m.location == base.location
            &&& m.current_level == base.current_level
            &&& m.effects@ == base.effects@
            &&& piece_pos(m.characters@[m.reality_anchor as int]) == piece_pos(
                payload.reality_anchor,
            )
        },
{
    let anchor = find_piece_at(
        &payload.characters,
        payload.reality_anchor.x,
        payload.reality_anchor.y,
        payload.reality_anchor.z,
    );
    match anchor {
        None => None,
        Some(idx) => {
            let effects = clone_effects(&base.effects);
            Some(
                Manager {
                    location: base.location.clone(),
                    current_level: base.current_level.clone(),
                    characters: clone_pieces(&payload.characters),
                    reality_anchor: idx,
                    effects,
                    turn_count: TurnCounter { turns: payload.turn_count },
                },
            )
        },
    }
}

/// An exact copy of a list of tile effects.
pub fn clone_effects(v: &Vec<TileEffect>) -> (r: Vec<TileEffect>)
    ensures
        r@ == v@,
{
    let r = v.clone();
    proof {
        assert forall|i: int| 0 <= i < v@.len() implies r@[i] == v@[i] by {
            assert(cloned::<TileEffect>(v@[i], r@[i]));
        }
        assert(r@ =~= v@);
    }
    r
}

#[derive(Clone, Debug)]
pub enum MovementResult {
    Move,
    Attack(AttackResult),
}

#[derive(Clone, Debug)]
pub enum MovementError {
    HitWall,
    HitVoid,
}

#[derive(Clone, Debug)]
pub enum AttackResult {
    Hit { message: String, weak: bool },
}

#[derive(Clone, Debug)]
pub enum AttackError {
    Ally,
    NoAttacks,
}

impl MovementError {
    /// The narration line for this failure.
    pub fn message(&self) -> (r: &'static str)
        ensures
            match *self {
                MovementError::HitWall => r@ == "hit a wall"@,
                MovementError::HitVoid => r@ == "hit the void"@,
            },
    {
        match self {
            MovementError::HitWall => "hit a wall",
            MovementError::HitVoid => "hit the void",
        }
    }
}

impl AttackError {
    /// The narration line for this failure.
    pub fn message(&self) -> (r: &'static str)
        ensures
            match *self {
                AttackError::Ally => r@ == "attempted to attack an ally"@,
                AttackError::NoAttacks => r@ == "attacker has no attacks defined"@,
            },
    {
        match self {
            AttackError::Ally => "attempted to attack an ally",
            AttackError::NoAttacks => "attacker has no attacks defined",
        }
    }
}

} // verus!

verus! {

/// The cardinal direction nearest to a motion of `(dx, dy)`: the dominant
/// axis wins, horizontal on ties, and no motion at all counts as rightward
/// (the zero angle).
pub open spec fn momentum_toward(dx: int, dy: int) -> OrdDir {
    if vstd::math::abs(dy) > vstd::math::abs(dx) {
        if dy > 0 {
            OrdDir::Down
        } else {
            OrdDir::Up
        }
    } else if dx >= 0 {
        OrdDir::Right
    } else {
        OrdDir::Left
    }
}

fn momentum_dir(dx: i64, dy: i64) -> (r: OrdDir)
    requires
        -0x1_0000_0000 < dx < 0x1_0000_0000,
        -0x1_0000_0000 < dy < 0x1_0000_0000,
    ensures
        r == momentum_toward(dx as int, dy as int),
{
    let ax = if dx < 0 { -dx } else { dx };
    let ay = if dy < 0 { -dy } else { dy };
    if ay > ax {
        if dy > 0 {
            OrdDir::Down
        } else {
            OrdDir::Up
        }
    } else if dx >= 0 {
        OrdDir::Right
    } else {
        OrdDir::Left
    }
}

/// What one attempted displacement leaves behind, and which species (if
/// any) was collided with: on a free (wrapped) destination the piece moves
/// there with its momentum turned toward the motion; on an occupied one
/// nothing moves, but both parties' momenta turn toward the motion — unless
/// the "collision" is the piece standing on the destination itself, which
/// changes nothing.
pub open spec fn teleport_result(chars: Seq<Piece>, idx: int, t: (i32, i32, i32)) -> (
    Seq<Piece>,
    Option<Species>,
) {
    let w = wrap_point(t);
    let occ = spec_first_at(chars, w, 0);
    let me = chars[idx];
    let dir = momentum_toward(w.0 - me.x, w.1 - me.y);
    if occ < chars.len() {
        if piece_pos(me) == w {
            (chars, Option::None)
        } else {
            (
                chars.update(idx, (Piece { momentum: dir, ..me })).update(
                    occ,
                    (Piece { momentum: dir, ..chars[occ] }),
                ),
                Option::Some(chars[occ].species),
            )
        }
    } else {
        (chars.update(idx, (Piece { x: w.0, y: w.1, z: w.2, momentum: dir, ..me })), Option::None)
    }
}

impl Manager {
    /// Whether this world is `before` after one attempted displacement.
    pub open spec fn teleported(self, before: Manager, idx: usize, t: (i32, i32, i32)) -> bool {
        self.characters@ == teleport_result(before.characters@, idx as int, t).0
    }

    /// The displacement primitive: wrap the destination, then move or
    /// collide. A collision reports the species of the piece that was hit,
    /// so that the caller can fire the matching contingency.
    pub(crate) fn teleport_core(&mut self, idx: usize, x: i32, y: i32, z: i32) -> (res: (
        Result<MovementResult, MovementError>,
        Option<Species>,
    ))
        requires
            old(self).wf(),
            idx < old(self).characters@.len(),
        ensures
            final(self).wf(),
            final(self).characters@.len() == old(self).characters@.len(),
            final(self).reality_anchor == old(self).reality_anchor,
            final(self).effects@ == old(self).effects@,
            final(self).turn_count == old(self).turn_count,
            final(self).location == old(self).location,
            final(self).current_level == old(self).current_level,
            final(self).teleported(*old(self), idx, (x, y, z)),
            res.1 == teleport_result(old(self).characters@, idx as int, (x, y, z)).1,
            ({
                let w = wrap_point((x, y, z));
                let chars = old(self).characters@;
                let occ = spec_first_at(chars, w, 0);
                if occ < chars.len() {
                    res.0 matches Err(e) && e is HitWall
                } else {
                    res.0 matches Ok(m) && m is Move
                }
            }),
    {
        let (wx, wy, wz) = map_wrap(x, y, z);
        match self.get_character_at(wx, wy, wz) {
            Some(occ) => {
                let me = &self.characters[idx];
                if me.x == wx && me.y == wy && me.z == wz {
                    // Prevent entities from colliding with themselves.
                    return (Err(MovementError::HitWall), None);
                }
                let dx = (wx as i64) - (me.x as i64);
                let dy = (wy as i64) - (me.y as i64);
                let dir = momentum_dir(dx, dy);
                let mover = &mut self.characters[idx];
                mover.momentum = dir;
                let hit = &mut self.characters[occ];
                hit.momentum = dir;
                let species = self.characters[occ].species.clone();
                (Err(MovementError::HitWall), Some(species))
            },
            None => {
                let me = &mut self.characters[idx];
                let dx = (wx as i64) - (me.x as i64);
                let dy = (wy as i64) - (me.y as i64);
                me.x = wx;
                me.y = wy;
                me.z = wz;
                me.momentum = momentum_dir(dx, dy);
                (Ok(MovementResult::Move), None)
            },
        }
    }
}

} // verus!

verus! {

impl Manager {
    /// Teleport a piece to the (wrapped) destination. A blocked move reports
    /// `HitWall` and fires the collision contingency for the species that
    /// was struck; the piece stays put, but both parties' momenta turn
    /// toward the attempted motion.
    pub fn teleport_piece(
        &mut self,
        idx: usize,
        x: i32,
        y: i32,
        z: i32,
        store: &mut Option<SavePayload>,
    ) -> (r: Result<MovementResult, MovementError>)
        requires
            old(self).wf(),
            idx < old(self).characters@.len(),
        ensures
            final(self).wf(),
            final(self).characters@.len() == old(self).characters@.len(),
            final(self).location == old(self).location,
            final(self).current_level == old(self).current_level,
            ({
                let w = wrap_point((x, y, z));
                let chars = old(self).characters@;
                let occ = spec_first_at(chars, w, 0);
                if occ < chars.len() {
                    &&& r matches Err(e) && e is HitWall
                    &&& if piece_pos(chars[idx as int]) == w {
                        // Self-collision: the guard rejects the move before
                        // anything changes, and no contingency fires.
                        &&& crate::spell::same_world(*final(self), *old(self))
                        &&& *final(store) == *old(store)
                    } else {
                        // Both parties' momenta turn toward the motion, and
                        // the collision contingency for the struck species
                        // runs from that state.
                        exists|mid: Manager, o: crate::spell::Outcome|
                            {
                                &&& mid.characters@ == teleport_result(
                                    chars,
                                    idx as int,
                                    (x, y, z),
                                ).0
                                &&& mid.reality_anchor == old(self).reality_anchor
                                &&& mid.effects@ == old(self).effects@
                                &&& mid.turn_count == old(self).turn_count
                                &&& mid.location == old(self).location
                                &&& mid.current_level == old(self).current_level
                                &&& #[trigger] crate::spell::engine_run(
                                    Seq::empty(),
                                    crate::spell::contingency_runs(
                                        mid.characters@,
                                        SpeciesView::OnCollision(
                                            Box::new(chars[occ].species@),
                                        ),
                                        0,
                                    ),
                                    mid,
                                    *old(store),
                                    *final(self),
                                    *final(store),
                                    o,
                                )
                            }
                    }
                } else {
                    &&& r matches Ok(m) && m is Move
                    &&& final(self).characters@ == teleport_result(chars, idx as int, (x, y, z)).0
                    &&& final(self).reality_anchor == old(self).reality_anchor
                    &&& final(self).effects@ == old(self).effects@
                    &&& final(self).turn_count == old(self).turn_count
                    &&& *final(store) == *old(store)
                }
            }),
    {
        let (res, hit) = self.teleport_core(idx, x, y, z);
        match hit {
            Some(species) => {
                proof {
                    assert(Species::OnCollision(Box::new(species))@
                        == SpeciesView::OnCollision(
                        Box::new(
                            old(self).characters@[spec_first_at(
                                old(self).characters@,
                                wrap_point((x, y, z)),
                                0,
                            )].species@,
                        ),
                    ));
                }
                let ghost mid = *self;
                let condition = Species::OnCollision(Box::new(species));
                let out = crate::spell::trigger_contingency(self, &condition, store);
                proof {
                    assert(crate::spell::engine_run(
                        Seq::empty(),
                        crate::spell::contingency_runs(mid.characters@, condition@, 0),
                        mid,
                        *old(store),
                        *self,
                        *store,
                        out,
                    ));
                }
            },
            None => {},
        }
        res
    }

    /// Move a piece one step in a cardinal direction, colliding as
    /// `teleport_piece` does.
    pub fn move_piece(
        &mut self,
        idx: usize,
        dir: OrdDir,
        store: &mut Option<SavePayload>,
    ) -> (r: Result<MovementResult, MovementError>)
        requires
            old(self).wf(),
            idx < old(self).characters@.len(),
            i32::MIN + 91 <= old(self).characters@[idx as int].x <= i32::MAX - 46,
            i32::MIN + 91 <= old(self).characters@[idx as int].y <= i32::MAX - 46,
        ensures
            final(self).wf(),
            final(self).characters@.len() == old(self).characters@.len(),
            final(self).location == old(self).location,
            final(self).current_level == old(self).current_level,
            ({
                let me = old(self).characters@[idx as int];
                let off = dir.offset_spec();
                let dest = ((me.x + off.0) as i32, (me.y + off.1) as i32, me.z);
                let w = wrap_point(dest);
                let chars = old(self).characters@;
                let occ = spec_first_at(chars, w, 0);
                if occ < chars.len() {
                    &&& r matches Err(e) && e is HitWall
                    &&& if piece_pos(chars[idx as int]) == w {
                        &&& crate::spell::same_world(*final(self), *old(self))
                        &&& *final(store) == *old(store)
                    } else {
                        exists|mid: Manager, o: crate::spell::Outcome|
                            {
                                &&& mid.characters@ == teleport_result(chars, idx as int, dest).0
                                &&& mid.reality_anchor == old(self).reality_anchor
                                &&& mid.effects@ == old(self).effects@
                                &&& mid.turn_count == old(self).turn_count
                                &&& mid.location == old(self).location
                                &&& mid.current_level == old(self).current_level
                                &&& #[trigger] crate::spell::engine_run(
                                    Seq::empty(),
                                    crate::spell::contingency_runs(
                                        mid.characters@,
                                        SpeciesView::OnCollision(
                                            Box::new(chars[occ].species@),
                                        ),
                                        0,
                                    ),
                                    mid,
                                    *old(store),
                                    *final(self),
                                    *final(store),
                                    o,
                                )
                            }
                    }
                } else {
                    &&& r matches Ok(m) && m is Move
                    &&& final(self).characters@ == teleport_result(chars, idx as int, dest).0
                    &&& final(self).reality_anchor == old(self).reality_anchor
                    &&& final(self).effects@ == old(self).effects@
                    &&& final(self).turn_count == old(self).turn_count
                    &&& *final(store) == *old(store)
                }
            }),
    {
        let off = dir.as_offset();
        proof {
            assert(-1 <= off.0 <= 1 && -1 <= off.1 <= 1);
        }
        let (dest_x, dest_y, z) = {
            let character = &self.characters[idx];
            (character.x + off.0, character.y + off.1, character.z)
        };
        self.teleport_piece(idx, dest_x, dest_y, z, store)
    }

    /// Stamp a vault's characters into the world at an offset. The model
    /// keeps only species and positions; the sheets the vault names are
    /// resolved by the resource layer outside this crate, so placed pieces
    /// enter as plain walls.
    pub fn apply_vault(&mut self, x: i32, y: i32, z: i32, vault: &crate::vault::Vault)
        requires
            old(self).wf(),
            forall|k: int|
                0 <= k < vault.characters@.len() ==> i32::MIN <= x + (#[trigger] vault.characters@[k]).0
                    <= i32::MAX && i32::MIN <= y + vault.characters@[k].1 <= i32::MAX,
        ensures
            final(self).wf(),
            final(self).characters@.len() == old(self).characters@.len()
                + vault.characters@.len(),
            forall|j: int|
                0 <= j < old(self).characters@.len() ==> final(self).characters@[j] == #[trigger] old(
                    self,
                ).characters@[j],
            forall|k: int|
                0 <= k < vault.characters@.len() ==> {
                    let p = #[trigger] final(self).characters@[old(self).characters@.len() + k];
                    &&& p.species == Species::Wall
                    &&& p.x == x + vault.characters@[k].0
                    &&& p.y == y + vault.characters@[k].1
                    &&& p.z == z
                },
            final(self).reality_anchor == old(self).reality_anchor,
            final(self).effects@ == old(self).effects@,
            final(self).turn_count == old(self).turn_count,
            final(self).location == old(self).location,
            final(self).current_level == old(self).current_level,
    {
        let n = vault.characters.len();
        let mut k: usize = 0;
        while k < n
            invariant
                n == vault.characters@.len(),
                0 <= k <= n,
                old(self).wf(),
                forall|kk: int|
                    0 <= kk < n ==> i32::MIN <= x + (#[trigger] vault.characters@[kk]).0
                        <= i32::MAX && i32::MIN <= y + vault.characters@[kk].1 <= i32::MAX,
                self.characters@.len() == old(self).characters@.len() + k,
                forall|j: int|
                    0 <= j < old(self).characters@.len() ==> self.characters@[j] == #[trigger] old(
                        self,
                    ).characters@[j],
                forall|kk: int|
                    0 <= kk < k ==> {
                        let p = #[trigger] self.characters@[old(self).characters@.len() + kk];
                        &&& p.species == Species::Wall
                        &&& p.x == x + vault.characters@[kk].0
                        &&& p.y == y + vault.characters@[kk].1
                        &&& p.z == z
                    },
                self.reality_anchor == old(self).reality_anchor,
                self.effects@ == old(self).effects@,
                self.turn_count == old(self).turn_count,
                self.location == old(self).location,
                self.current_level == old(self).current_level,
            decreases n - k,
        {
            let entry = &vault.characters[k];
            let piece = Piece::new(Species::Wall, x + entry.0, y + entry.1, z);
            self.characters.push(piece);
            k = k + 1;
        }
    }
}

} // verus!

verus! {

/// Restoring a freshly taken snapshot gives back a world with the same
/// character list and turn count, with the anchor re-resolved to a piece
/// standing where the saved anchor stood. The preconditions are exactly
/// what `Manager::save_payload` promises of its snapshot and what
/// `restore` promises of its result.
pub proof fn lemma_persistence_roundtrip(m: Manager, p: SavePayload, r: Option<Manager>)
    requires
        m.wf(),
        p.characters@ == m.characters@,
        p.reality_anchor == m.characters@[m.reality_anchor as int],
        p.turn_count == m.turn_count.turns,
        r is Some <==> exists|j: int|
            0 <= j < p.characters@.len() && piece_pos(#[trigger] p.characters@[j]) == piece_pos(
                p.reality_anchor,
            ),
        r is Some ==> {
            let rm = r.unwrap();
            &&& rm.characters@ == p.characters@
            &&& rm.turn_count.turns == p.turn_count
            &&& piece_pos(rm.characters@[rm.reality_anchor as int]) == piece_pos(p.reality_anchor)
        },
    ensures
        r is Some,
        r.unwrap().characters@ == m.characters@,
        r.unwrap().turn_count.turns == m.turn_count.turns,
        piece_pos(r.unwrap().characters@[r.unwrap().reality_anchor as int]) == piece_pos(
            m.characters@[m.reality_anchor as int],
        ),
{
    assert(piece_pos(p.characters@[m.reality_anchor as int]) == piece_pos(p.reality_anchor));
}

} // verus!
