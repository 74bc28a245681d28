//! What occupies a block: the block, tree, lamp and roof vocabularies, and the choices
//! that follow from a block's zone.

use vstd::prelude::*;

use crate::graph::WalkKind;
use crate::zone::{spec_is_open, Facade, Zone};

verus! {

/// Put a crossing at every Nth sidewalk-ring sample.
pub const CROSS_EVERY: usize = 3;

/// What occupies the block interior.
#[derive(Clone, Copy, Debug, PartialEq, Eq, Structural)]
pub enum BlockKind {
    /// Lots with buildings.
    Building,
    /// Parkland: lawn, trees, sometimes a pond.
    Park,
    /// Open civic paving.
    Plaza,
    /// Surface car park.
    Parking,
}

/// Foliage flavour — drives silhouette and palette.
#[derive(Clone, Copy, Debug, PartialEq, Eq, Structural)]
pub enum TreeKind {
    /// Round broadleaf canopy on a trunk.
    Canopy,
    /// Low dense blob.
    Bush,
    /// Slim conifer.
    Conifer,
}

/// Where a lamp belongs.
#[derive(Clone, Copy, Debug, PartialEq, Eq, Structural)]
pub enum LampKind {
    /// Kerbside street light.
    Street,
    /// Lower park / plaza globe light.
    Park,
}

/// Roof treatment.
#[derive(Clone, Copy, Debug, PartialEq, Eq, Structural)]
pub enum RoofKind {
    /// Parapet ring over a flat deck.
    Flat,
    /// Gable roof (houses).
    Pitched,
    /// Chamfered cap (mid- and high-rise).
    Chamfer,
}

/// The block interior each zone gets.
pub open spec fn spec_block_kind(zone: Zone) -> BlockKind {
    match zone {
        Zone::Park => BlockKind::Park,
        Zone::Plaza => BlockKind::Plaza,
        Zone::Parking => BlockKind::Parking,
        _ => BlockKind::Building,
    }
}

impl BlockKind {
    /// The interior a block of `zone` is built with: the open zones give their own kind,
    /// every other zone gets lots with buildings.
    pub fn of_zone(zone: Zone) -> (r: BlockKind)
        ensures
            r == spec_block_kind(zone),
    {
        match zone {
            Zone::Park => BlockKind::Park,
            Zone::Plaza => BlockKind::Plaza,
            Zone::Parking => BlockKind::Parking,
            _ => BlockKind::Building,
        }
    }

    /// Kind of the walk nodes on this block's sidewalk ring.
    pub fn walk_kind(self) -> (r: WalkKind)
        ensures
            r == match self {
                BlockKind::Park => WalkKind::Park,
                BlockKind::Plaza => WalkKind::Plaza,
                _ => WalkKind::Sidewalk,
            },
    {
        match self {
            BlockKind::Park => WalkKind::Park,
            BlockKind::Plaza => WalkKind::Plaza,
            BlockKind::Parking => WalkKind::Sidewalk,
            BlockKind::Building => WalkKind::Sidewalk,
        }
    }

    /// Kind of the corner lamps: street lights on built blocks, park lights elsewhere.
    pub fn lamp_kind(self) -> (r: LampKind)
        ensures
            r == (if self == BlockKind::Building {
                LampKind::Street
            } else {
                LampKind::Park
            }),
    {
        if self == BlockKind::Building {
            LampKind::Street
        } else {
            LampKind::Park
        }
    }

    /// Big open paved blocks (car parks and plazas) get extra light masts along one edge.
    pub fn has_masts(self) -> (r: bool)
        ensures
            r == (self == BlockKind::Parking || self == BlockKind::Plaza),
    {
        self == BlockKind::Parking || self == BlockKind::Plaza
    }
}

/// Roof for a building: houses are pitched when `pitched` (the outcome of the 85%
/// draw) holds and flat otherwise; other facades get a chamfered cap above four storeys
/// and a flat deck up to four.
pub fn roof_for(facade: Facade, floors: usize, pitched: bool) -> (r: RoofKind)
    ensures
        facade == Facade::House ==> r == (if pitched {
            RoofKind::Pitched
        } else {
            RoofKind::Flat
        }),
        facade != Facade::House ==> r == (if floors > 4 {
            RoofKind::Chamfer
        } else {
            RoofKind::Flat
        }),
{
    match facade {
        Facade::House => {
            if pitched {
                RoofKind::Pitched
            } else {
                RoofKind::Flat
            }
        },
        _ => {
            if floors > 4 {
                RoofKind::Chamfer
            } else {
                RoofKind::Flat
            }
        },
    }
}

/// Open zones never get buildings, and every other zone gets nothing but buildings.
pub proof fn lemma_open_zones_are_building_free(zone: Zone)
    ensures
        (spec_block_kind(zone) == BlockKind::Building) <==> !spec_is_open(zone),
{
}

} // verus!
