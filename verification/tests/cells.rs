use sand_engine::cell::{displacement_chance, should_displace, Cell, CellType, PhysicsType, Rgba};
use sand_engine::cell_types::{DirectionType, StateType};

#[test]
fn test_cell_new_sand() {
    let cell = Cell::new(CellType::Sand);
    assert!(matches!(cell.physics, PhysicsType::SoftSolid(CellType::Sand)));
    assert!(!cell.updated);
    assert_eq!(cell.color.a, 255);
    assert!(!cell.is_empty());
}

#[test]
fn test_cell_new_each_material_physics() {
    assert!(matches!(Cell::new(CellType::Empty).physics, PhysicsType::Empty));
    assert!(matches!(Cell::new(CellType::Dirt).physics, PhysicsType::SoftSolid(CellType::Dirt)));
    assert!(matches!(Cell::new(CellType::Stone).physics, PhysicsType::HardSolid(CellType::Stone)));
    assert!(matches!(Cell::new(CellType::Water).physics, PhysicsType::Liquid(CellType::Water)));
    assert!(matches!(Cell::new(CellType::Smoke).physics, PhysicsType::Gas(CellType::Smoke)));
}

#[test]
fn test_cell_empty_and_default() {
    let empty = Cell::empty();
    assert!(empty.is_empty());
    assert!(!empty.updated);
    assert_eq!(empty.color, Rgba { r: 0, g: 0, b: 0, a: 0 });
    assert_eq!(Cell::default(), empty);
}

#[test]
fn test_cell_object() {
    let object = Cell::object();
    assert!(matches!(object.physics, PhysicsType::RigidBody(CellType::Empty)));
    assert!(object.updated);
    assert_eq!(object.color, Rgba { r: 0, g: 0, b: 0, a: 255 });
}

#[test]
fn test_cell_rigidbody_with_color() {
    let color = Rgba { r: 10, g: 20, b: 30, a: 40 };
    let cell = Cell::with_cell_and_color_rigidbody(CellType::Stone, color);
    assert!(matches!(cell.physics, PhysicsType::RigidBody(CellType::Stone)));
    assert_eq!(cell.color, color);
    assert!(!cell.updated);
}

#[test]
fn test_density_table() {
    assert_eq!(CellType::Empty.cell_density(), 0);
    assert_eq!(CellType::Sand.cell_density(), 60);
    assert_eq!(CellType::Dirt.cell_density(), 60);
    assert_eq!(CellType::Stone.cell_density(), 100);
    assert_eq!(CellType::Water.cell_density(), 50);
    assert_eq!(CellType::Smoke.cell_density(), 10);
}

#[test]
fn test_density_ordering_against_empty() {
    // Every real material is denser than emptiness.
    let materials = [CellType::Sand, CellType::Dirt, CellType::Stone, CellType::Water,
        CellType::Smoke];
    for material in materials {
        assert!(material.cell_density() > CellType::Empty.cell_density());
        assert!(displacement_chance(material, CellType::Empty) > 0);
    }
}

#[test]
fn test_inertia_table() {
    assert_eq!(CellType::Empty.cell_inertia(), 0);
    assert_eq!(CellType::Sand.cell_inertia(), 50);
    assert_eq!(CellType::Dirt.cell_inertia(), 65);
    assert_eq!(CellType::Stone.cell_inertia(), 90);
    assert_eq!(CellType::Water.cell_inertia(), 40);
    assert_eq!(CellType::Smoke.cell_inertia(), 20);
}

#[test]
fn test_mass_table() {
    assert_eq!(CellType::Empty.cell_mass(), 0);
    assert_eq!(CellType::Sand.cell_mass(), 10);
    assert_eq!(CellType::Dirt.cell_mass(), 15);
    assert_eq!(CellType::Stone.cell_mass(), 30);
    assert_eq!(CellType::Water.cell_mass(), 10);
    assert_eq!(CellType::Smoke.cell_mass(), 1);
}

#[test]
fn test_displacement_chance_values() {
    // Chance is the density difference, since the scale tops out at 100.
    assert_eq!(displacement_chance(CellType::Sand, CellType::Water), 10);
    assert_eq!(displacement_chance(CellType::Stone, CellType::Smoke), 90);
    assert_eq!(displacement_chance(CellType::Sand, CellType::Empty), 60);
    // Not strictly denser: no chance at all.
    assert_eq!(displacement_chance(CellType::Water, CellType::Sand), 0);
    assert_eq!(displacement_chance(CellType::Sand, CellType::Dirt), 0);
    assert_eq!(displacement_chance(CellType::Empty, CellType::Empty), 0);
}

#[test]
fn test_should_displace_threshold() {
    assert!(should_displace(CellType::Sand, CellType::Water, 9));
    assert!(!should_displace(CellType::Sand, CellType::Water, 10));
    assert!(should_displace(CellType::Stone, CellType::Smoke, 89));
    assert!(!should_displace(CellType::Stone, CellType::Smoke, 90));
    assert!(!should_displace(CellType::Water, CellType::Sand, 0));
}

#[test]
fn test_sand_color_jitter_stays_in_band() {
    // The colour jitter is the one place randomness reaches a cell's state:
    // each channel must stay within its documented band around the base.
    for _ in 0..100 {
        let cell = Cell::new(CellType::Sand);
        assert!(cell.color.r >= 210 && cell.color.r < 250);
        assert!(cell.color.g >= 175 && cell.color.g < 215);
        assert!(cell.color.b >= 72 && cell.color.b < 112);
        assert_eq!(cell.color.a, 255);
    }
}

#[test]
fn test_water_and_smoke_translucent() {
    assert_eq!(Cell::new(CellType::Water).color.a, 150);
    assert_eq!(Cell::new(CellType::Smoke).color.a, 150);
}

#[test]
fn test_state_type_of_cell_type() {
    assert_eq!(StateType::of_cell_type(CellType::Empty), StateType::Empty(CellType::Empty));
    assert_eq!(StateType::of_cell_type(CellType::Sand), StateType::SoftSolid(CellType::Sand));
    assert_eq!(StateType::of_cell_type(CellType::Dirt), StateType::SoftSolid(CellType::Dirt));
    assert_eq!(StateType::of_cell_type(CellType::Stone), StateType::HardSolid(CellType::Stone));
    assert_eq!(StateType::of_cell_type(CellType::Water), StateType::Liquid(CellType::Water));
    assert_eq!(StateType::of_cell_type(CellType::Smoke), StateType::Gas(CellType::Smoke));
    assert_eq!(StateType::default(), StateType::Empty(CellType::Empty));
    assert_eq!(StateType::of_cell_type(CellType::Water).cell_type(), CellType::Water);
}

#[test]
fn test_get_tuple_direction() {
    assert_eq!(DirectionType::Still.get_tuple_direction(), (0, 0));
    assert_eq!(DirectionType::Down.get_tuple_direction(), (0, -1));
    assert_eq!(DirectionType::DownLeft.get_tuple_direction(), (-1, -1));
    assert_eq!(DirectionType::DownRight.get_tuple_direction(), (1, -1));
    assert_eq!(DirectionType::Left.get_tuple_direction(), (-1, 0));
    assert_eq!(DirectionType::Right.get_tuple_direction(), (1, 0));
    assert_eq!(DirectionType::Up.get_tuple_direction(), (0, 1));
    assert_eq!(DirectionType::UpLeft.get_tuple_direction(), (-1, 1));
    assert_eq!(DirectionType::UpRight.get_tuple_direction(), (1, 1));
}
