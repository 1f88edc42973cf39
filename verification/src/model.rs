use vstd::prelude::*;

use crate::character::Piece;
use crate::spell::Range;
use crate::spell::Species;

verus! {

/// Mathematical image of a `Range`: message strings become character
/// sequences, so that equality of views is equality of contents.
pub enum RangeView {
    Targeted(Seq<char>),
    Contained(Seq<char>),
    Local(Seq<char>),
    Global(Seq<char>),
    Synaptic(Seq<char>),
}

pub open spec fn range_view(r: Range) -> RangeView {
    match r {
        Range::Targeted(s) => RangeView::Targeted(s@),
        Range::Contained(s) => RangeView::Contained(s@),
        Range::Local(s) => RangeView::Local(s@),
        Range::Global(s) => RangeView::Global(s@),
        Range::Synaptic(s) => RangeView::Synaptic(s@),
    }
}

impl View for Range {
    type V = RangeView;

    open spec fn view(&self) -> RangeView {
        range_view(*self)
    }
}

/// Mathematical image of a `Species` value, mirroring its variants with
/// strings abstracted to character sequences.
pub enum SpeciesView {
    Wall,
    Terminal,
    WorldStem,
    EpsilonHead,
    EpsilonTail(usize),
    WatchBot,
    Keypress(Seq<char>),
    RadioReceiver(RangeView),
    OnTurn,
    OnCollision(Box<SpeciesView>),
    SelectSpecies(Box<SpeciesView>),
    AnointToTarget(Box<SpeciesView>),
    SelectRealityAnchor,
    PathfindTargeter(Box<SpeciesView>),
    CardinalTargeter(crate::character::OrdDir),
    PlusTargeter,
    SelfTargeter,
    MomentumBeam,
    SpecificCoord((i32, i32, i32)),
    RealmShift(i32),
    ClearThisCaster(Box<SpeciesView>),
    Orbit(usize),
    Halo(usize),
    Teleport,
    Twinning,
    SwapAnchor,
    RadioBroadcaster(RangeView),
    Fireworks,
    SaveGame,
    LoadGame,
    TurnIncrementer,
}

pub open spec fn species_view(s: Species) -> SpeciesView
    decreases s,
{
    match s {
        Species::Wall => SpeciesView::Wall,
        Species::Terminal => SpeciesView::Terminal,
        Species::WorldStem => SpeciesView::WorldStem,
        Species::EpsilonHead => SpeciesView::EpsilonHead,
        Species::EpsilonTail(n) => SpeciesView::EpsilonTail(n),
        Species::WatchBot => SpeciesView::WatchBot,
        Species::Keypress(key) => SpeciesView::Keypress(key@),
        Species::RadioReceiver(range) => SpeciesView::RadioReceiver(range@),
        Species::OnTurn => SpeciesView::OnTurn,
        Species::OnCollision(inner) => SpeciesView::OnCollision(Box::new(species_view(*inner))),
        Species::SelectSpecies(inner) => SpeciesView::SelectSpecies(Box::new(species_view(*inner))),
        Species::AnointToTarget(inner) => SpeciesView::AnointToTarget(
            Box::new(species_view(*inner)),
        ),
        Species::SelectRealityAnchor => SpeciesView::SelectRealityAnchor,
        Species::PathfindTargeter(inner) => SpeciesView::PathfindTargeter(
            Box::new(species_view(*inner)),
        ),
        Species::CardinalTargeter(dir) => SpeciesView::CardinalTargeter(dir),
        Species::PlusTargeter => SpeciesView::PlusTargeter,
        Species::SelfTargeter => SpeciesView::SelfTargeter,
        Species::MomentumBeam => SpeciesView::MomentumBeam,
        Species::SpecificCoord(coord) => SpeciesView::SpecificCoord(coord),
        Species::RealmShift(realm) => SpeciesView::RealmShift(realm),
        Species::ClearThisCaster(inner) => SpeciesView::ClearThisCaster(
            Box::new(species_view(*inner)),
        ),
        Species::Orbit(radius) => SpeciesView::Orbit(radius),
        Species::Halo(radius) => SpeciesView::Halo(radius),
        Species::Teleport => SpeciesView::Teleport,
        Species::Twinning => SpeciesView::Twinning,
        Species::SwapAnchor => SpeciesView::SwapAnchor,
        Species::RadioBroadcaster(range) => SpeciesView::RadioBroadcaster(range@),
        Species::Fireworks => SpeciesView::Fireworks,
        Species::SaveGame => SpeciesView::SaveGame,
        Species::LoadGame => SpeciesView::LoadGame,
        Species::TurnIncrementer => SpeciesView::TurnIncrementer,
    }
}

impl View for Species {
    type V = SpeciesView;

    open spec fn view(&self) -> SpeciesView {
        species_view(*self)
    }
}

/// Decides equality of two ranges, in the sense of their views.
pub fn range_eq(a: &Range, b: &Range) -> (r: bool)
    ensures
        r == (a@ == b@),
{
    match a {
        Range::Targeted(x) => match b {
            Range::Targeted(y) => *x == *y,
            _ => false,
        },
        Range::Contained(x) => match b {
            Range::Contained(y) => *x == *y,
            _ => false,
        },
        Range::Local(x) => match b {
            Range::Local(y) => *x == *y,
            _ => false,
        },
        Range::Global(x) => match b {
            Range::Global(y) => *x == *y,
            _ => false,
        },
        Range::Synaptic(x) => match b {
            Range::Synaptic(y) => *x == *y,
            _ => false,
        },
    }
}

/// Decides structural equality of two species values, in the sense of their
/// views; this is the equality the propagation engine dispatches on.
pub fn species_eq(a: &Species, b: &Species) -> (r: bool)
    ensures
        r == (a@ == b@),
    decreases *a,
{
    match (a, b) {
        (Species::Wall, Species::Wall) => true,
        (Species::Terminal, Species::Terminal) => true,
        (Species::WorldStem, Species::WorldStem) => true,
        (Species::EpsilonHead, Species::EpsilonHead) => true,
        (Species::EpsilonTail(x), Species::EpsilonTail(y)) => *x == *y,
        (Species::WatchBot, Species::WatchBot) => true,
        (Species::Keypress(x), Species::Keypress(y)) => *x == *y,
        (Species::RadioReceiver(x), Species::RadioReceiver(y)) => range_eq(x, y),
        (Species::OnTurn, Species::OnTurn) => true,
        (Species::OnCollision(x), Species::OnCollision(y)) => species_eq(x, y),
        (Species::SelectSpecies(x), Species::SelectSpecies(y)) => species_eq(x, y),
        (Species::AnointToTarget(x), Species::AnointToTarget(y)) => species_eq(x, y),
        (Species::SelectRealityAnchor, Species::SelectRealityAnchor) => true,
        (Species::PathfindTargeter(x), Species::PathfindTargeter(y)) => species_eq(x, y),
        (Species::CardinalTargeter(x), Species::CardinalTargeter(y)) => *x == *y,
        (Species::PlusTargeter, Species::PlusTargeter) => true,
        (Species::SelfTargeter, Species::SelfTargeter) => true,
        (Species::MomentumBeam, Species::MomentumBeam) => true,
        (Species::SpecificCoord(x), Species::SpecificCoord(y)) => x.0 == y.0 && x.1 == y.1
            && x.2 == y.2,
        (Species::RealmShift(x), Species::RealmShift(y)) => *x == *y,
        (Species::ClearThisCaster(x), Species::ClearThisCaster(y)) => species_eq(x, y),
        (Species::Orbit(x), Species::Orbit(y)) => *x == *y,
        (Species::Halo(x), Species::Halo(y)) => *x == *y,
        (Species::Teleport, Species::Teleport) => true,
        (Species::Twinning, Species::Twinning) => true,
        (Species::SwapAnchor, Species::SwapAnchor) => true,
        (Species::RadioBroadcaster(x), Species::RadioBroadcaster(y)) => range_eq(x, y),
        (Species::Fireworks, Species::Fireworks) => true,
        (Species::SaveGame, Species::SaveGame) => true,
        (Species::LoadGame, Species::LoadGame) => true,
        (Species::TurnIncrementer, Species::TurnIncrementer) => true,
        _ => false,
    }
}

impl Clone for Range {
    fn clone(&self) -> (res: Self)
        ensures
            res == *self,
    {
        match self {
            Range::Targeted(s) => Range::Targeted(s.clone()),
            Range::Contained(s) => Range::Contained(s.clone()),
            Range::Local(s) => Range::Local(s.clone()),
            Range::Global(s) => Range::Global(s.clone()),
            Range::Synaptic(s) => Range::Synaptic(s.clone()),
        }
    }
}

impl Clone for Species {
    /// Species are plain data; a clone is indistinguishable from its source.
    fn clone(&self) -> (res: Self)
        ensures
            res == *self,
        decreases *self,
    {
        match self {
            Species::Wall => Species::Wall,
            Species::Terminal => Species::Terminal,
            Species::WorldStem => Species::WorldStem,
            Species::EpsilonHead => Species::EpsilonHead,
            Species::EpsilonTail(n) => Species::EpsilonTail(*n),
            Species::WatchBot => Species::WatchBot,
            Species::Keypress(key) => Species::Keypress(key.clone()),
            Species::RadioReceiver(range) => Species::RadioReceiver(range.clone()),
            Species::OnTurn => Species::OnTurn,
            Species::OnCollision(inner) => Species::OnCollision(Box::new((**inner).clone())),
            Species::SelectSpecies(inner) => Species::SelectSpecies(Box::new((**inner).clone())),
            Species::AnointToTarget(inner) => Species::AnointToTarget(Box::new((**inner).clone())),
            Species::SelectRealityAnchor => Species::SelectRealityAnchor,
            Species::PathfindTargeter(inner) => Species::PathfindTargeter(
                Box::new((**inner).clone()),
            ),
            Species::CardinalTargeter(dir) => Species::CardinalTargeter(*dir),
            Species::PlusTargeter => Species::PlusTargeter,
            Species::SelfTargeter => Species::SelfTargeter,
            Species::MomentumBeam => Species::MomentumBeam,
            Species::SpecificCoord(coord) => Species::SpecificCoord(*coord),
            Species::RealmShift(realm) => Species::RealmShift(*realm),
            Species::ClearThisCaster(inner) => Species::ClearThisCaster(Box::new((**inner).clone())),
            Species::Orbit(radius) => Species::Orbit(*radius),
            Species::Halo(radius) => Species::Halo(*radius),
            Species::Teleport => Species::Teleport,
            Species::Twinning => Species::Twinning,
            Species::SwapAnchor => Species::SwapAnchor,
            Species::RadioBroadcaster(range) => Species::RadioBroadcaster(range.clone()),
            Species::Fireworks => Species::Fireworks,
            Species::SaveGame => Species::SaveGame,
            Species::LoadGame => Species::LoadGame,
            Species::TurnIncrementer => Species::TurnIncrementer,
        }
    }
}

impl Clone for Piece {
    fn clone(&self) -> (res: Self)
        ensures
            res == *self,
    {
        Piece {
            species: self.species.clone(),
            x: self.x,
            y: self.y,
            z: self.z,
            momentum: self.momentum,
        }
    }
}

} // verus!
