use cellsim::elements::CellConnection;
use cellsim::features::CellType;
use cellsim::genes::Gene;
use cellsim::models::{Color, ShapeDesc};
use cellsim::sim::{SimContext, SimulationState};

fn angle(a: f64) -> u64 {
    a.to_bits()
}

/// Removing a cell removes every connection that points toward it, and no
/// dangling index remains referenced in the connection list afterward.
#[test]
fn remove_purges_connections() {
    let mut state: SimulationState<u32> = SimulationState::new(SimContext { viscosity: 0 });
    state.cells.insert_alloc_vec(vec![10, 20, 30]);
    state.connections.push(CellConnection::new(0, angle(0.0), 1, angle(1.0)));
    state.connections.push(CellConnection::new(1, angle(0.5), 2, angle(1.5)));
    state.connections.push(CellConnection::new(0, angle(0.25), 2, angle(0.75)));

    state.remove(1);

    for conn in &state.connections {
        assert!(!conn.points_toward(1));
    }
    assert_eq!(state.connections.len(), 1);
    assert_eq!(state.connections[0].id_a, 0);
    assert_eq!(state.connections[0].id_b, 2);
    assert!(!state.cells.is_occupied(1));
    assert!(state.cells.is_occupied(0));
    assert!(state.cells.is_occupied(2));
}

/// Removing a cell no connection points toward leaves the list unchanged.
#[test]
fn remove_isolated_cell_keeps_connections() {
    let mut state: SimulationState<u32> = SimulationState::new(SimContext { viscosity: 0 });
    state.cells.insert_alloc_vec(vec![10, 20, 30]);
    state.connections.push(CellConnection::new(0, angle(0.0), 1, angle(0.0)));

    state.remove(2);

    assert_eq!(state.connections.len(), 1);
    assert!(state.connections[0].points_toward(0));
    assert!(state.connections[0].points_toward(1));
}

/// A fresh simulation state is empty and keeps its context.
#[test]
fn fresh_state() {
    let viscosity = 0.25f64.to_bits();
    let state: SimulationState<u32> = SimulationState::new(SimContext { viscosity });
    assert_eq!(state.context.viscosity, viscosity);
    assert_eq!(state.connections.len(), 0);
    assert_eq!(state.cells.len(), 100);
    assert!(!state.cells.is_occupied(0));
}

/// A connection points toward both of its endpoints and nothing else.
#[test]
fn connection_points_toward_endpoints() {
    let conn = CellConnection::new(3, angle(0.1), 7, angle(0.2));
    assert!(conn.points_toward(3));
    assert!(conn.points_toward(7));
    assert!(!conn.points_toward(5));
    assert_eq!(conn.angle_a, angle(0.1));
    assert_eq!(conn.angle_b, angle(0.2));
}

/// A leaf gene has no stems and keeps its cell type.
#[test]
fn leaf_gene() {
    let gene = Gene::leaf_node(CellType::Muscle);
    assert_eq!(gene.stems.len(), 0);
    assert!(matches!(gene.typ, CellType::Muscle));
}

/// Shape codes are the side counts, with star variants offset by ten.
#[test]
fn shape_codes() {
    assert_eq!(ShapeDesc::Circle.code(), 0);
    assert_eq!(ShapeDesc::Triangle.code(), 3);
    assert_eq!(ShapeDesc::Pentagon.code(), 5);
    assert_eq!(ShapeDesc::Pentagram.code(), 15);
    assert_eq!(ShapeDesc::Decagram.code(), 20);
}

/// The membrane table is total and matches the intended palette.
#[test]
fn membrane_styles() {
    let (shape, color) = CellType::Neural.membrane_style();
    assert_eq!(shape.code(), 0);
    assert_eq!(color, Color::blue());

    let (shape, color) = CellType::Muscle.membrane_style();
    assert_eq!(shape.code(), 6);
    assert_eq!(color, Color::red());

    let (shape, color) = CellType::Spore.membrane_style();
    assert_eq!(shape.code(), 4);
    assert_eq!(color, Color::gray());
}

/// The color table matches the palette the renderer expects.
#[test]
fn color_table() {
    assert_eq!(Color::blue(), Color { r: 0, g: 0, b: 255, a: 255 });
    assert_eq!(Color::brown(), Color { r: 139, g: 69, b: 19, a: 255 });
    assert_eq!(Color::gray(), Color { r: 128, g: 128, b: 128, a: 255 });
}
