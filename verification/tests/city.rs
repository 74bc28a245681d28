use gta_core::blocks::{roof_for, BlockKind, LampKind, RoofKind};
use gta_core::graph::WalkKind;
use gta_core::params::{block_salt, block_slot, is_avenue, stream};
use gta_core::rng::Rng;
use gta_core::roads::{junction_slot, lane_slot, lanes_for, road_id, Axis};
use gta_core::traffic::{turn_lane, turned_forward};
use gta_core::zone::{facade_of, Facade, Zone};

fn f32_of(r: &mut Rng) -> f32 {
    r.unit_bits() as f32 * (1.0 / 16_777_216.0)
}

#[test]
fn rng_streams_are_independent_per_salt() {
    let a = f32_of(&mut stream(1234, 1));
    let b = f32_of(&mut stream(1234, 2));
    assert_ne!(a, b);
    assert_eq!(a, f32_of(&mut stream(1234, 1)));
    assert_eq!(stream(1234, 1).next_u64(), Rng::new(12063102878148599099).next_u64());
}

#[test]
fn block_streams_are_salted_by_index() {
    assert_eq!(block_salt(5), 1663341876846539396);
    assert_ne!(block_salt(5), block_salt(6));
}

#[test]
fn avenues_are_symmetric_and_include_the_centre() {
    let (grid, every) = (11usize, 4usize);
    let m = grid / 2;
    assert!(is_avenue(grid, every, m));
    for i in 0..=grid {
        let d = (i as isize - m as isize).unsigned_abs();
        assert_eq!(is_avenue(grid, every, i), d % 4 == 0, "line {i}");
    }
    assert!(is_avenue(5, 0, 3));
    assert!(is_avenue(5, 1, 0));
    assert!(!is_avenue(5, 2, 1));
}

#[test]
fn facades_match_zone() {
    let mut rng = Rng::new(4);
    assert_eq!(facade_of(Zone::Parking, 4, rng.unit_bits()), Facade::CarPark);
    for _ in 0..200 {
        let f = facade_of(Zone::Residential, 2, rng.unit_bits());
        assert!(matches!(f, Facade::House | Facade::Masonry));
    }
}

#[test]
fn facade_draws_match_float_thresholds() {
    // The integer thresholds agree with comparing the f32 draw against the f32 constant.
    let float_pick = |zone: Zone, floors: usize, r: f32| -> Facade {
        match zone {
            Zone::Downtown => {
                if floors > 18 {
                    if r < 0.62 { Facade::CurtainWall } else { Facade::FrameGrid }
                } else if r < 0.3 {
                    Facade::Shopfront
                } else if r < 0.75 {
                    Facade::FrameGrid
                } else {
                    Facade::CurtainWall
                }
            }
            Zone::MidRise => {
                if r < 0.3 { Facade::Shopfront } else if r < 0.62 { Facade::Masonry } else { Facade::FrameGrid }
            }
            Zone::LowRise => {
                if r < 0.45 { Facade::Masonry } else if r < 0.8 { Facade::Shopfront } else { Facade::FrameGrid }
            }
            Zone::Residential => {
                if r < 0.82 { Facade::House } else { Facade::Masonry }
            }
            Zone::Parking => Facade::CarPark,
            _ => Facade::House,
        }
    };
    let zones = [Zone::Downtown, Zone::MidRise, Zone::LowRise, Zone::Residential, Zone::Park, Zone::Parking];
    let edges = [5_033_165u32, 7_549_747, 10_401_874, 12_582_912, 13_421_773, 13_757_317];
    let mut draws: Vec<u32> = vec![0, 1, 0xFF_FFFF];
    for e in edges {
        draws.extend([e - 1, e, e + 1]);
    }
    let mut rng = Rng::new(77);
    for _ in 0..2000 {
        draws.push(rng.unit_bits());
    }
    for &z in &zones {
        for floors in [2usize, 19] {
            for &d in &draws {
                let r = d as f32 * (1.0 / 16_777_216.0);
                assert_eq!(facade_of(z, floors, d), float_pick(z, floors, r), "{z:?} {floors} {d}");
            }
        }
    }
}

#[test]
fn envelopes_are_sane() {
    for z in [Zone::Downtown, Zone::MidRise, Zone::LowRise, Zone::Residential] {
        let (lo, hi) = z.floors_envelope();
        assert!(lo >= 1 && lo <= hi, "{z:?} envelope");
        assert!(!z.is_open());
        assert_eq!(BlockKind::of_zone(z), BlockKind::Building);
    }
    assert_eq!(Zone::Downtown.floors_envelope(), (8, 42));
    assert_eq!(Zone::Residential.floors_envelope(), (1, 3));
    for z in [Zone::Park, Zone::Plaza, Zone::Parking] {
        assert!(z.is_open());
        assert_eq!(z.floors_envelope(), (0, 0));
        assert_ne!(BlockKind::of_zone(z), BlockKind::Building);
    }
    assert!(Zone::Park.is_open());
    assert!(!Zone::MidRise.is_open());
}

#[test]
fn block_kinds_drive_walks_and_lamps() {
    assert_eq!(BlockKind::of_zone(Zone::Park), BlockKind::Park);
    assert_eq!(BlockKind::of_zone(Zone::Plaza), BlockKind::Plaza);
    assert_eq!(BlockKind::of_zone(Zone::Parking), BlockKind::Parking);
    assert_eq!(BlockKind::Park.walk_kind(), WalkKind::Park);
    assert_eq!(BlockKind::Plaza.walk_kind(), WalkKind::Plaza);
    assert_eq!(BlockKind::Parking.walk_kind(), WalkKind::Sidewalk);
    assert_eq!(BlockKind::Building.walk_kind(), WalkKind::Sidewalk);
    assert_eq!(BlockKind::Building.lamp_kind(), LampKind::Street);
    assert_eq!(BlockKind::Park.lamp_kind(), LampKind::Park);
    assert!(BlockKind::Parking.has_masts() && BlockKind::Plaza.has_masts());
    assert!(!BlockKind::Building.has_masts() && !BlockKind::Park.has_masts());
}

#[test]
fn roofs_follow_facade_and_height() {
    assert_eq!(roof_for(Facade::House, 2, true), RoofKind::Pitched);
    assert_eq!(roof_for(Facade::House, 9, false), RoofKind::Flat);
    assert_eq!(roof_for(Facade::FrameGrid, 5, true), RoofKind::Chamfer);
    assert_eq!(roof_for(Facade::Masonry, 4, true), RoofKind::Flat);
}

#[test]
fn road_and_junction_numbering() {
    assert_eq!(road_id(Axis::X, 0), 0);
    assert_eq!(road_id(Axis::Z, 0), 1);
    assert_eq!(road_id(Axis::X, 3), 6);
    assert_eq!(road_id(Axis::Z, 3), 7);
    assert_eq!(junction_slot(6, 0, 0), Some(0));
    assert_eq!(junction_slot(6, 2, 3), Some(20));
    assert_eq!(junction_slot(6, 0, 6), None);
    assert_eq!(junction_slot(6, 6, 0), None);
    assert_eq!(block_slot(7, 1, 2), Some(15));
    assert_eq!(block_slot(7, 7, 0), None);
    assert_eq!(Axis::X.other(), Axis::Z);
    assert_eq!(Axis::Z.other().other(), Axis::Z);
}

#[test]
fn lanes_are_clamped_and_counted() {
    assert_eq!(lanes_for(true), 2);
    assert_eq!(lanes_for(false), 1);
    assert_eq!(lane_slot(2, 0), 0);
    assert_eq!(lane_slot(2, 1), 1);
    assert_eq!(lane_slot(2, 5), 1);
    assert_eq!(lane_slot(0, 3), 0);
}

#[test]
fn turns_pick_heading_and_lane() {
    // From +X a right turn heads +Z, from +Z it heads -X.
    assert!(turned_forward(Axis::X, true, true));
    assert!(!turned_forward(Axis::Z, true, true));
    assert!(turned_forward(Axis::Z, true, false));
    assert!(turned_forward(Axis::Z, false, true));
    assert!(!turned_forward(Axis::X, false, true));
    // Two rights make a U-turn.
    for axis in [Axis::X, Axis::Z] {
        for f in [true, false] {
            assert_eq!(turned_forward(axis.other(), turned_forward(axis, f, true), true), !f);
        }
    }
    assert_eq!(turn_lane(true, 2), 0);
    assert_eq!(turn_lane(false, 2), 1);
    assert_eq!(turn_lane(false, 1), 0);
}
