use stephens_sausage_roll_solver::coord::Coord;
use stephens_sausage_roll_solver::graph::{generate_graph, LevelGraph};
use stephens_sausage_roll_solver::level::{DescriptionError, LevelDescription, TileType};
use stephens_sausage_roll_solver::sausage::{Sausage, SausageOrientation};
use stephens_sausage_roll_solver::state::{LevelState, LevelStatus};

fn c(x: i32, y: i32, z: i32) -> Coord {
    Coord::new(x, y, z)
}

fn floor(cells: &[(i32, i32)]) -> Vec<Coord> {
    cells.iter().map(|&(x, y)| c(x, y, 0)).collect()
}

fn sausage(x: i32, y: i32, cooked: [[u8; 2]; 2], o: SausageOrientation) -> Sausage {
    Sausage::new(c(x, y, 1), cooked, o)
}

fn level(
    start: (i32, i32),
    dir: (i32, i32),
    ground: &[(i32, i32)],
    grills: &[(i32, i32)],
    sausages: Vec<Sausage>,
) -> LevelDescription {
    LevelDescription::new(
        c(start.0, start.1, 1),
        c(dir.0, dir.1, 0),
        floor(ground),
        floor(grills),
        sausages,
    )
    .unwrap()
}

const RAW: [[u8; 2]; 2] = [[0, 0], [0, 0]];

#[test]
fn tile_classification() {
    let d = level((0, 0), (1, 0), &[(0, 0), (1, 0)], &[(1, 0), (2, 0)], vec![]);
    assert_eq!(d.get_tile_type(c(0, 0, 0)), TileType::Ground);
    assert_eq!(d.get_tile_type(c(1, 0, 0)), TileType::Ground);
    assert_eq!(d.get_tile_type(c(2, 0, 0)), TileType::Grill);
    assert_eq!(d.get_tile_type(c(3, 0, 0)), TileType::Water);
    assert_eq!(d.get_tile_type(c(0, 0, 1)), TileType::Water);
}

#[test]
fn description_rejects_bad_start_direction() {
    let r = LevelDescription::new(c(0, 0, 1), c(1, 1, 0), vec![], vec![], vec![]);
    assert_eq!(r.unwrap_err(), DescriptionError::BadStartDirection);
    let r = LevelDescription::new(c(0, 0, 1), c(0, 0, 1), vec![], vec![], vec![]);
    assert_eq!(r.unwrap_err(), DescriptionError::BadStartDirection);
}

#[test]
fn description_rejects_far_coordinates() {
    let r = LevelDescription::new(c(0, 0, 1), c(0, 1, 0), vec![c(i32::MAX, 0, 0)], vec![], vec![]);
    assert_eq!(r.unwrap_err(), DescriptionError::CoordinateOutOfRange);
    let far = Sausage::new(c(0, i32::MIN, 1), RAW, SausageOrientation::Vertical);
    let r = LevelDescription::new(c(0, 0, 1), c(0, 1, 0), vec![], vec![], vec![far]);
    assert_eq!(r.unwrap_err(), DescriptionError::CoordinateOutOfRange);
}

#[test]
fn sausage_accessors() {
    let s = Sausage::new(c(3, 4, 1), [[1, 2], [3, 4]], SausageOrientation::Horizontal);
    assert_eq!(s.pos(), vec![3, 4]);
    assert_eq!(s.cooked(), vec![1, 2, 3, 4]);
    assert!(s.check_collision(3, 4, 1));
    assert!(s.check_collision(4, 4, 1));
    assert!(!s.check_collision(3, 5, 1));
    assert!(!s.check_collision(3, 4, 0));
    let v = Sausage::new(c(3, 4, 1), RAW, SausageOrientation::Vertical);
    assert!(v.check_collision(3, 5, 1));
    assert!(!v.check_collision(4, 4, 1));
}

#[test]
fn push_unpush_symmetry() {
    let d = level((9, 9), (1, 0), &[], &[], vec![sausage(0, 0, RAW, SausageOrientation::Horizontal)]);
    let mut st = LevelState::from(&d);
    assert!(st.can_push(c(0, 0, 1), c(1, 0, 0)));
    st.push(c(0, 0, 1), c(1, 0, 0));
    assert_eq!(st.sausages(), vec![sausage(1, 0, RAW, SausageOrientation::Horizontal)]);
    assert!(st.can_push(c(1, 0, 1), c(-1, 0, 0)));
    st.push(c(1, 0, 1), c(-1, 0, 0));
    assert_eq!(st.sausages(), vec![sausage(0, 0, RAW, SausageOrientation::Horizontal)]);
}

#[test]
fn chain_propagation() {
    let d = level(
        (9, 9),
        (1, 0),
        &[],
        &[],
        vec![
            sausage(0, 0, RAW, SausageOrientation::Horizontal),
            sausage(2, 0, RAW, SausageOrientation::Horizontal),
        ],
    );
    let mut st = LevelState::from(&d);
    assert!(st.can_push(c(0, 0, 1), c(1, 0, 0)));
    st.push(c(0, 0, 1), c(1, 0, 0));
    assert_eq!(
        st.sausages(),
        vec![
            sausage(1, 0, RAW, SausageOrientation::Horizontal),
            sausage(3, 0, RAW, SausageOrientation::Horizontal),
        ]
    );
}

#[test]
fn roll_swap() {
    let d = level((9, 9), (1, 0), &[], &[], vec![sausage(0, 0, [[0, 1], [0, 0]], SausageOrientation::Horizontal)]);
    let mut st = LevelState::from(&d);
    assert!(st.can_push(c(0, 0, 1), c(0, 1, 0)));
    st.push(c(0, 0, 1), c(0, 1, 0));
    assert_eq!(st.sausages(), vec![sausage(0, 1, [[0, 0], [0, 1]], SausageOrientation::Horizontal)]);
}

#[test]
fn push_cooks_over_grill() {
    let d = level((9, 9), (1, 0), &[(0, 0), (1, 0)], &[(2, 0)], vec![sausage(0, 0, RAW, SausageOrientation::Horizontal)]);
    let mut st = LevelState::from(&d);
    st.push(c(0, 0, 1), c(1, 0, 0));
    assert_eq!(st.sausages(), vec![sausage(1, 0, [[0, 1], [0, 0]], SausageOrientation::Horizontal)]);
}

#[test]
fn push_blocked_by_terrain() {
    let d = level((9, 9), (1, 0), &[(0, 0)], &[(5, 0)], vec![]);
    let st = LevelState::from(&d);
    assert!(!st.can_push(c(0, 0, 0), c(1, 0, 0)));
    assert!(!st.can_push(c(5, 0, 0), c(1, 0, 0)));
    assert!(st.can_push(c(0, 0, 1), c(1, 0, 0)));
}

#[test]
fn roll_spreads_across_two_sausages() {
    let d = level(
        (9, 9),
        (1, 0),
        &[],
        &[],
        vec![sausage(0, 0, RAW, SausageOrientation::Vertical), sausage(1, 0, RAW, SausageOrientation::Vertical)],
    );
    let mut st = LevelState::from(&d);
    assert!(st.can_push(c(0, 1, 1), c(1, 0, 0)));
    st.push(c(0, 1, 1), c(1, 0, 0));
    assert_eq!(
        st.sausages(),
        vec![sausage(1, 0, RAW, SausageOrientation::Vertical), sausage(2, 0, RAW, SausageOrientation::Vertical)]
    );
}

#[test]
fn push_blocked_by_a_wall_behind_the_chain() {
    let wall = vec![c(2, 0, 1)];
    let d = LevelDescription::new(
        c(9, 9, 1),
        c(1, 0, 0),
        wall,
        vec![],
        vec![sausage(0, 0, RAW, SausageOrientation::Horizontal)],
    )
    .unwrap();
    let st = LevelState::from(&d);
    assert!(!st.can_push(c(0, 0, 1), c(1, 0, 0)));
    assert!(st.can_push(c(1, 0, 1), c(-1, 0, 0)));
}

fn corridor() -> Vec<(i32, i32)> {
    vec![(0, 0), (1, 0), (2, 0), (3, 0), (0, -1), (1, -1)]
}

#[test]
fn forward_backward_and_blocked_steps() {
    let d = level((0, 0), (1, 0), &corridor(), &[], vec![]);
    let st = LevelState::from(&d);
    let fwd = st.get_next_state(c(1, 0, 0));
    assert_eq!(fwd.player_pos(), c(1, 0, 1));
    assert_eq!(fwd.player_dir(), c(1, 0, 0));
    let back = fwd.get_next_state(c(-1, 0, 0));
    assert_eq!(back.player_pos(), c(0, 0, 1));
    assert_eq!(back.player_dir(), c(1, 0, 0));
    let stuck = back.get_next_state(c(-1, 0, 0));
    assert_eq!(stuck.player_pos(), c(0, 0, 1));
    let d_end = level((3, 0), (1, 0), &corridor(), &[], vec![]);
    let at_end = LevelState::from(&d_end);
    let still = at_end.get_next_state(c(1, 0, 0));
    assert_eq!(still.player_pos(), c(3, 0, 1));
}

#[test]
fn turning_changes_facing_only() {
    let d = level((0, 0), (1, 0), &corridor(), &[], vec![]);
    let st = LevelState::from(&d);
    let left = st.get_next_state(c(0, -1, 0));
    assert_eq!(left.player_pos(), c(0, 0, 1));
    assert_eq!(left.player_dir(), c(0, -1, 0));
    let right = st.get_next_state(c(0, 1, 0));
    assert_eq!(right.player_dir(), c(0, 1, 0));
}

#[test]
fn turn_sweeps_a_sausage() {
    let d = level((0, 0), (1, 0), &corridor(), &[], vec![sausage(1, 1, RAW, SausageOrientation::Vertical)]);
    let st = LevelState::from(&d);
    let turned = st.get_next_state(c(0, 1, 0));
    assert_eq!(turned.player_dir(), c(0, 1, 0));
    assert_eq!(turned.sausages()[0].pos(), vec![1, 2]);
}

#[test]
fn grill_shoves_the_player_back() {
    let d = level(
        (0, 0),
        (1, 0),
        &[(0, 0), (3, 0), (4, 0)],
        &[(1, 0)],
        vec![sausage(2, 0, RAW, SausageOrientation::Horizontal)],
    );
    let st = LevelState::from(&d);
    let next = st.get_next_state(c(1, 0, 0));
    assert_eq!(next.player_pos(), c(0, 0, 1));
    assert_eq!(next.sausages(), vec![sausage(3, 0, RAW, SausageOrientation::Horizontal)]);
}

#[test]
fn sausage_half_over_water_is_lost_but_stays() {
    let d = level((0, 0), (1, 0), &corridor(), &[], vec![sausage(2, 0, RAW, SausageOrientation::Horizontal)]);
    let st = LevelState::from(&d);
    assert_eq!(st.get_status(), LevelStatus::Unsolved);
    let next = st.get_next_state(c(1, 0, 0));
    assert_eq!(next.sausages(), vec![sausage(3, 0, RAW, SausageOrientation::Horizontal)]);
    assert_eq!(next.get_status(), LevelStatus::Lost);
}

#[test]
fn gravity_drops_one_unit() {
    let d = level((0, 0), (1, 0), &corridor(), &[], vec![sausage(4, 0, RAW, SausageOrientation::Horizontal)]);
    let st = LevelState::from(&d);
    let next = st.get_next_state(c(1, 0, 0));
    assert_eq!(next.player_pos(), c(1, 0, 1));
    assert_eq!(next.sausages(), vec![Sausage::new(c(4, 0, 0), RAW, SausageOrientation::Horizontal)]);
    assert_eq!(next.get_status(), LevelStatus::Lost);
}

#[test]
fn status_priority_lost_before_burnt() {
    let d = level((0, 0), (1, 0), &[(0, 0)], &[], vec![sausage(5, 5, [[2, 0], [0, 0]], SausageOrientation::Vertical)]);
    assert_eq!(LevelState::from(&d).get_status(), LevelStatus::Lost);
}

#[test]
fn status_burnt_solution_unsolved() {
    let tiles = [(0, 0), (1, 0), (2, 0)];
    let burnt = level((0, 0), (1, 0), &tiles, &[], vec![sausage(1, 0, [[1, 2], [1, 1]], SausageOrientation::Horizontal)]);
    assert_eq!(LevelState::from(&burnt).get_status(), LevelStatus::Burnt);
    let done = level((0, 0), (1, 0), &tiles, &[], vec![sausage(1, 0, [[1, 1], [1, 1]], SausageOrientation::Horizontal)]);
    let st = LevelState::from(&done);
    assert_eq!(st.get_status(), LevelStatus::Solution);
    let turned = st.get_next_state(c(0, 1, 0));
    assert_eq!(turned.get_status(), LevelStatus::Unsolved);
    let raw = level((0, 0), (1, 0), &tiles, &[], vec![sausage(1, 0, [[1, 1], [1, 0]], SausageOrientation::Horizontal)]);
    assert_eq!(LevelState::from(&raw).get_status(), LevelStatus::Unsolved);
}

#[test]
fn next_state_is_deterministic() {
    let d = level((0, 0), (1, 0), &corridor(), &[(2, 0)], vec![sausage(2, 0, RAW, SausageOrientation::Vertical)]);
    let st = LevelState::from(&d);
    for dir in [c(1, 0, 0), c(-1, 0, 0), c(0, 1, 0), c(0, -1, 0)] {
        let a = st.get_next_state(dir);
        let b = st.get_next_state(dir);
        assert!(a == b);
        assert_eq!(a.get_id(), b.get_id());
    }
    assert!(st == LevelState::from(&d));
}

#[test]
fn id_follows_pose_and_sausages() {
    let d = level((0, 0), (1, 0), &[(0, 0)], &[], vec![sausage(1, 2, [[0, 1], [2, 3]], SausageOrientation::Vertical)]);
    let st = LevelState::from(&d);
    let mix = |h: u64, w: u64| h.wrapping_mul(0x0000_0100_0000_01b3).wrapping_add(w);
    let word = |v: i32| (v as i64 + 0x8000_0000) as u64;
    let mut h: u64 = 0xcbf2_9ce4_8422_2325;
    for v in [0, 0, 1, 1, 0, 0, 1, 2, 1] {
        h = mix(h, word(v));
    }
    for w in [1u64, 0, 1, 2, 3] {
        h = mix(h, w);
    }
    assert_eq!(st.get_id(), h);
    let other = level((0, 0), (1, 0), &[(0, 0)], &[], vec![sausage(1, 2, [[0, 1], [2, 2]], SausageOrientation::Vertical)]);
    assert_ne!(st.get_id(), LevelState::from(&other).get_id());
}

#[test]
fn dedup_insertion_keeps_one_node() {
    let d = level((0, 0), (1, 0), &corridor(), &[], vec![]);
    let mut g = LevelGraph::new(&d);
    assert_eq!(g.node_count(), 1);
    let st = LevelState::from(&d);
    let moved = st.get_next_state(c(1, 0, 0));
    let again = st.get_next_state(c(1, 0, 0));
    let i = g.insert(moved);
    let j = g.insert(again);
    assert_eq!(i, 1);
    assert_eq!(i, j);
    assert_eq!(g.node_count(), 2);
    assert_eq!(g.insert(LevelState::from(&d)), 0);
    assert_eq!(g.node_count(), 2);
}

#[test]
fn end_to_end_scenario() {
    let d = level(
        (2, 2),
        (0, -1),
        &[(4, 1), (2, 2), (3, 2), (4, 2)],
        &[(5, 1), (6, 1), (5, 2), (6, 2)],
        vec![sausage(4, 1, RAW, SausageOrientation::Vertical)],
    );
    let g = generate_graph(&d);
    assert!(g.node_count() >= 1);
    assert_eq!(g.initial_state(), 0);
    assert!(*g.state(0) == LevelState::from(&d));
    assert!(g.edge_count() <= 4 * g.node_count());
    for e in 0..g.edge_count() {
        let (a, b) = g.edge(e);
        assert!(a < g.node_count() && b < g.node_count());
        assert_eq!(*g.state(b), g.state(a).get_next_state(dir_of_edge(&g, e)));
    }
}

fn dir_of_edge(g: &LevelGraph, e: usize) -> Coord {
    let (a, _) = g.edge(e);
    let f = g.state(a).player_dir();
    let k = (0..e).filter(|&x| g.edge(x).0 == a).count();
    match k {
        0 => f,
        1 => c(-f.x, -f.y, 0),
        2 => c(f.y, -f.x, 0),
        _ => c(-f.y, f.x, 0),
    }
}

#[test]
fn search_terminates_on_small_level() {
    let d = level(
        (0, 0),
        (1, 0),
        &[(0, 0), (1, 0), (2, 0), (0, 1), (1, 1), (2, 1)],
        &[(3, 0), (3, 1)],
        vec![sausage(1, 1, RAW, SausageOrientation::Horizontal)],
    );
    let g = generate_graph(&d);
    let n = g.node_count();
    assert!(n > 1);
    for i in 0..n {
        for j in (i + 1)..n {
            assert!(!(*g.state(i) == *g.state(j)));
        }
    }
    let expanded = (0..n).filter(|&i| g.state(i).get_status() == LevelStatus::Unsolved).count();
    assert_eq!(g.edge_count(), 4 * expanded);
}

#[test]
fn level_with_no_sausages_is_solved_at_start() {
    let d = level((0, 0), (1, 0), &[(0, 0), (1, 0)], &[], vec![]);
    let g = generate_graph(&d);
    assert_eq!(g.node_count(), 1);
    assert_eq!(g.edge_count(), 0);
    assert_eq!(g.state(0).get_status(), LevelStatus::Solution);
}
