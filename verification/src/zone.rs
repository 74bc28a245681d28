//! Zoning: what a block *is* — downtown towers, low-rise housing, a park, a plaza.

use vstd::prelude::*;

verus! {

/// Land-use character of a block.
#[derive(Clone, Copy, Debug, PartialEq, Eq, Hash, Structural)]
pub enum Zone {
    /// 12–45 storey towers, tight setbacks, glass and steel.
    Downtown,
    /// 5–12 storey mixed-use: shops at street level, flats above.
    MidRise,
    /// 2–4 storey terraced housing and small workshops.
    LowRise,
    /// Suburban-feeling detached houses with gardens.
    Residential,
    /// Parkland: lawn, trees, ponds, winding paths.
    Park,
    /// Open civic plaza: paving, fountains, flags, no buildings.
    Plaza,
    /// Surface car park with marked stalls and light masts.
    Parking,
}

/// Open zones carry no buildings.
pub open spec fn spec_is_open(z: Zone) -> bool {
    z == Zone::Park || z == Zone::Plaza || z == Zone::Parking
}

/// Storey-count envelope `(min, max)` of each zone.
pub open spec fn spec_floors_envelope(z: Zone) -> (usize, usize) {
    match z {
        Zone::Downtown => (8, 42),
        Zone::MidRise => (3, 12),
        Zone::LowRise => (1, 4),
        Zone::Residential => (1, 3),
        _ => (0, 0),
    }
}

impl Zone {
    /// Storey-count envelope `(min, max)` before noise.
    pub fn floors_envelope(self) -> (r: (usize, usize))
        ensures
            r == spec_floors_envelope(self),
            !spec_is_open(self) ==> 1 <= r.0 <= r.1,
            spec_is_open(self) ==> r == (0usize, 0usize),
    {
        match self {
            Zone::Downtown => (8, 42),
            Zone::MidRise => (3, 12),
            Zone::LowRise => (1, 4),
            Zone::Residential => (1, 3),
            _ => (0, 0),
        }
    }

    /// Park, plaza and parking are open space.
    pub fn is_open(self) -> (r: bool)
        ensures
            r == spec_is_open(self),
    {
        matches!(self, Zone::Park | Zone::Plaza | Zone::Parking)
    }
}

/// How a building's facade is drawn.
#[derive(Clone, Copy, Debug, PartialEq, Eq, Structural)]
pub enum Facade {
    /// Curtain wall: continuous glazing, thin mullions.
    CurtainWall,
    /// Concrete frame with punched glazing and stone spandrels.
    FrameGrid,
    /// Brick / stucco with regular sash windows and balconies.
    Masonry,
    /// Retail base: large glazing, awning, signage band.
    Shopfront,
    /// Multi-storey car park: open decks with ribbed concrete.
    CarPark,
    /// House: solid walls, pitched roof, chimney.
    House,
}

/// A uniform draw is `bits / 2^24` for the 24 random bits of [`crate::rng::Rng::unit_bits`];
/// these are the draws below which each facade threshold is met, exactly (`0.3`, `0.45`,
/// `0.62`, `0.75`, `0.8` and `0.82` as `f32`, times `2^24`).
pub const DRAW_0_30: u32 = 5_033_165;
pub const DRAW_0_45: u32 = 7_549_747;
pub const DRAW_0_62: u32 = 10_401_874;
pub const DRAW_0_75: u32 = 12_582_912;
pub const DRAW_0_80: u32 = 13_421_773;
pub const DRAW_0_82: u32 = 13_757_317;

/// Facade of a building of `floors` storeys in `zone` for the uniform draw `draw / 2^24`.
pub open spec fn spec_facade_of(zone: Zone, floors: usize, draw: u32) -> Facade {
    match zone {
        Zone::Downtown => if floors > 18 {
            if draw < DRAW_0_62 {
                Facade::CurtainWall
            } else {
                Facade::FrameGrid
            }
        } else if draw < DRAW_0_30 {
            Facade::Shopfront
        } else if draw < DRAW_0_75 {
            Facade::FrameGrid
        } else {
            Facade::CurtainWall
        },
        Zone::MidRise => if draw < DRAW_0_30 {
            Facade::Shopfront
        } else if draw < DRAW_0_62 {
            Facade::Masonry
        } else {
            Facade::FrameGrid
        },
        Zone::LowRise => if draw < DRAW_0_45 {
            Facade::Masonry
        } else if draw < DRAW_0_80 {
            Facade::Shopfront
        } else {
            Facade::FrameGrid
        },
        Zone::Residential => if draw < DRAW_0_82 {
            Facade::House
        } else {
            Facade::Masonry
        },
        Zone::Parking => Facade::CarPark,
        _ => Facade::House,
    }
}

/// Picks a facade style for a building of `floors` storeys in `zone`, given the 24 bits
/// `draw` of one uniform draw: towers over 18 storeys are mostly curtain wall, lower
/// downtown blocks mix shopfronts and frames, houses dominate residential streets and
/// car parks always get open decks.
pub fn facade_of(zone: Zone, floors: usize, draw: u32) -> (r: Facade)
    ensures
        r == spec_facade_of(zone, floors, draw),
        zone == Zone::Downtown && floors <= 18 ==> r == (if draw < DRAW_0_30 {
            Facade::Shopfront
        } else if draw < DRAW_0_75 {
            Facade::FrameGrid
        } else {
            Facade::CurtainWall
        }),
        zone == Zone::Downtown && floors > 18 ==> r == (if draw < DRAW_0_62 {
            Facade::CurtainWall
        } else {
            Facade::FrameGrid
        }),
{
    match zone {
        Zone::Downtown => {
            if floors > 18 {
                if draw < DRAW_0_62 {
                    Facade::CurtainWall
                } else {
                    Facade::FrameGrid
                }
            } else if draw < DRAW_0_30 {
                Facade::Shopfront
            } else if draw < DRAW_0_75 {
                Facade::FrameGrid
            } else {
                Facade::CurtainWall
            }
        },
        Zone::MidRise => {
            if draw < DRAW_0_30 {
                Facade::Shopfront
            } else if draw < DRAW_0_62 {
                Facade::Masonry
            } else {
                Facade::FrameGrid
            }
        },
        Zone::LowRise => {
            if draw < DRAW_0_45 {
                Facade::Masonry
            } else if draw < DRAW_0_80 {
                Facade::Shopfront
            } else {
                Facade::FrameGrid
            }
        },
        Zone::Residential => {
            if draw < DRAW_0_82 {
                Facade::House
            } else {
                Facade::Masonry
            }
        },
        Zone::Parking => Facade::CarPark,
        _ => Facade::House,
    }
}

/// Facades follow the zone: residential streets only get houses and masonry, car parks
/// only open decks, and curtain walls and frames appear only in the commercial zones.
pub proof fn lemma_facades_match_zone(zone: Zone, floors: usize, draw: u32)
    ensures
        zone == Zone::Residential ==> (spec_facade_of(zone, floors, draw) == Facade::House
            || spec_facade_of(zone, floors, draw) == Facade::Masonry),
        zone == Zone::Parking ==> spec_facade_of(zone, floors, draw) == Facade::CarPark,
        spec_facade_of(zone, floors, draw) == Facade::CurtainWall ==> zone == Zone::Downtown,
        spec_facade_of(zone, floors, draw) == Facade::CarPark ==> zone == Zone::Parking,
{
}

/// Each draw threshold sits within one draw step (`2^-24`) of its decimal fraction, and
/// the thresholds rise in the order of their fractions below the full range `2^24`.
pub proof fn lemma_draw_thresholds()
    ensures
        DRAW_0_30 < DRAW_0_45 < DRAW_0_62 < DRAW_0_75 < DRAW_0_80 < DRAW_0_82 < 0x100_0000,
        -10 < 10 * DRAW_0_30 - 3 * 0x100_0000 < 10,
        -100 < 100 * DRAW_0_45 - 45 * 0x100_0000 < 100,
        -100 < 100 * DRAW_0_62 - 62 * 0x100_0000 < 100,
        -100 < 100 * DRAW_0_75 - 75 * 0x100_0000 < 100,
        -10 < 10 * DRAW_0_80 - 8 * 0x100_0000 < 10,
        -100 < 100 * DRAW_0_82 - 82 * 0x100_0000 < 100,
{
}

/// A building's height changes its facade only downtown, and only across 18 storeys:
/// two heights on the same side of 19 storeys, or any two heights outside downtown,
/// get the same facade from the same draw.
pub proof fn lemma_height_matters_only_for_towers(zone: Zone, f1: usize, f2: usize, draw: u32)
    requires
        zone != Zone::Downtown || (f1 <= 18) == (f2 <= 18),
    ensures
        spec_facade_of(zone, f1, draw) == spec_facade_of(zone, f2, draw),
{
}

/// The downtown mix: shopfronts only on buildings of at most 18 storeys, for the lowest
/// 30% of draws; above 18 storeys the tower mix of curtain wall (first 62%) and frame
/// grid; at most 18 storeys, frame grid for draws from 30% to 75% and curtain wall above.
pub proof fn lemma_downtown_mix(floors: usize, draw: u32)
    ensures
        (spec_facade_of(Zone::Downtown, floors, draw) == Facade::Shopfront) <==> (floors <= 18
            && draw < DRAW_0_30),
        floors > 18 ==> ((spec_facade_of(Zone::Downtown, floors, draw) == Facade::CurtainWall)
            <==> draw < DRAW_0_62),
        floors > 18 ==> ((spec_facade_of(Zone::Downtown, floors, draw) == Facade::FrameGrid)
            <==> draw >= DRAW_0_62),
        floors <= 18 ==> ((spec_facade_of(Zone::Downtown, floors, draw) == Facade::FrameGrid)
            <==> DRAW_0_30 <= draw < DRAW_0_75),
        floors <= 18 ==> ((spec_facade_of(Zone::Downtown, floors, draw) == Facade::CurtainWall)
            <==> draw >= DRAW_0_75),
        spec_facade_of(Zone::Downtown, floors, draw) != Facade::Masonry,
        spec_facade_of(Zone::Downtown, floors, draw) != Facade::House,
{
}

/// The mixes of the other built zones, by draw band: mid-rise is shopfront below 30%,
/// masonry to 62%, frame grid above; low-rise masonry below 45%, shopfront to 80%,
/// frame grid above; residential houses below 82%, masonry above.
pub proof fn lemma_zone_mixes(floors: usize, draw: u32)
    ensures
        (spec_facade_of(Zone::MidRise, floors, draw) == Facade::Shopfront) <==> draw < DRAW_0_30,
        (spec_facade_of(Zone::MidRise, floors, draw) == Facade::Masonry) <==> (DRAW_0_30 <= draw
            < DRAW_0_62),
        (spec_facade_of(Zone::MidRise, floors, draw) == Facade::FrameGrid) <==> draw >= DRAW_0_62,
        (spec_facade_of(Zone::LowRise, floors, draw) == Facade::Masonry) <==> draw < DRAW_0_45,
        (spec_facade_of(Zone::LowRise, floors, draw) == Facade::Shopfront) <==> (DRAW_0_45 <= draw
            < DRAW_0_80),
        (spec_facade_of(Zone::LowRise, floors, draw) == Facade::FrameGrid) <==> draw >= DRAW_0_80,
        (spec_facade_of(Zone::Residential, floors, draw) == Facade::House) <==> draw < DRAW_0_82,
        (spec_facade_of(Zone::Residential, floors, draw) == Facade::Masonry) <==> draw
            >= DRAW_0_82,
        spec_facade_of(Zone::Park, floors, draw) == Facade::House,
        spec_facade_of(Zone::Plaza, floors, draw) == Facade::House,
{
}

/// Storey envelopes step down from downtown to the suburbs: each built zone's lowest and
/// highest storey counts are no higher than the previous zone's (the highest strictly
/// lower), only downtown reaches past 18 storeys into the tower mix, and open zones have
/// no storeys.
pub proof fn lemma_envelopes_step_down()
    ensures
        spec_floors_envelope(Zone::Downtown).1 > spec_floors_envelope(Zone::MidRise).1,
        spec_floors_envelope(Zone::MidRise).1 > spec_floors_envelope(Zone::LowRise).1,
        spec_floors_envelope(Zone::LowRise).1 > spec_floors_envelope(Zone::Residential).1,
        spec_floors_envelope(Zone::Downtown).0 > spec_floors_envelope(Zone::MidRise).0,
        spec_floors_envelope(Zone::MidRise).0 > spec_floors_envelope(Zone::LowRise).0,
        spec_floors_envelope(Zone::LowRise).0 >= spec_floors_envelope(Zone::Residential).0,
        spec_floors_envelope(Zone::Downtown).1 > 18,
        spec_floors_envelope(Zone::Downtown).0 <= 18,
        spec_floors_envelope(Zone::MidRise).1 <= 18,
        forall|z: Zone| #[trigger] spec_is_open(z) ==> spec_floors_envelope(z) == (0usize, 0usize),
        forall|z: Zone| !#[trigger] spec_is_open(z) ==> 1 <= spec_floors_envelope(z).0
            <= spec_floors_envelope(z).1,
{
}

} // verus!
