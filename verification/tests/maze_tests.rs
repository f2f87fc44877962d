use lavirint::field::Field;
use lavirint::maze::{Maze, MazeError, DEFAULT_COLUMNS, DEFAULT_ROWS};
use lavirint::state::PathCache;

fn cell(
    position: (usize, usize),
    walls: [bool; 4],
    doors: [bool; 4],
    key: bool,
    exit: bool,
) -> Field {
    Field { position, exit, key, walls, doors }
}

fn closed(position: (usize, usize)) -> Field {
    cell(position, [true, true, true, true], [false, false, false, false], false, false)
}

/// A 1 by 2 grid: start at (0,0) with the east side open, exit at (0,1).
fn tiny_corridor() -> Maze {
    let f00 = cell((0, 0), [true, false, true, true], [false, false, false, false], false, false);
    let f01 = cell((0, 1), [false, true, true, true], [false, false, false, false], false, true);
    Maze {
        fields: vec![vec![f00, f01]],
        dimensions: (1, 2),
        start: (0, 0),
        exits: vec![(0, 1)],
        state: None,
    }
}

/// A 2 by 3 grid where the direct route to the exit passes a locked door
/// and the only key lies one cell south of the start.
///
/// Free passages: (0,0)<->(0,1), (0,0)<->(1,0); the boundary
/// (0,1)->(0,2) is open but holds a door in both directions.
fn door_with_detour() -> Maze {
    let f00 = cell((0, 0), [true, false, true, false], [false, false, false, false], false, false);
    let f01 = cell((0, 1), [false, false, true, true], [false, true, false, false], false, false);
    let f02 = cell((0, 2), [false, true, true, true], [true, false, false, false], false, true);
    let f10 = cell((1, 0), [true, true, false, true], [false, false, false, false], true, false);
    let f11 = closed((1, 1));
    let f12 = closed((1, 2));
    Maze {
        fields: vec![vec![f00, f01, f02], vec![f10, f11, f12]],
        dimensions: (2, 3),
        start: (0, 0),
        exits: vec![(0, 2)],
        state: None,
    }
}

/// The same grid with the key removed: the door can never be opened.
fn door_without_key() -> Maze {
    let mut m = door_with_detour();
    m.fields[1][0].key = false;
    m
}

#[test]
fn shortest_path_on_tiny_corridor() {
    let mut m = tiny_corridor();
    let path = m.get_shortest_path();
    assert_eq!(path, Some(vec![(0, 0), (0, 1)]));
}

#[test]
fn path_starts_at_start_and_ends_on_exit() {
    let mut m = door_with_detour();
    let path = m.get_shortest_path().expect("a path exists");
    assert_eq!(path[0], m.start);
    assert!(m.exits.contains(path.last().unwrap()));
}

#[test]
fn key_detour_lengthens_the_path() {
    let mut m = door_with_detour();
    let path = m.get_shortest_path().expect("a path exists");
    // Without the lock the shortest route would visit three cells; the
    // key detour costs two extra moves.
    assert_eq!(path.len(), 5);
    assert_eq!(path, vec![(0, 0), (1, 0), (0, 0), (0, 1), (0, 2)]);
}

#[test]
fn locked_door_without_keys_means_no_path() {
    let mut m = door_without_key();
    assert_eq!(m.get_shortest_path(), None);
}

#[test]
fn engines_agree_on_length() {
    let m = door_with_detour();
    let st1 = lavirint::state::State::create_from_maze(&m);
    let st2 = lavirint::state::State::create_from_maze(&m);
    let seq_path = m.search_for_shortest_path(st1);
    let par_path = m.search_for_shortest_path_parallel(st2);
    let a = seq_path.expect("sequential engine finds a path");
    let b = par_path.expect("fan-out engine finds a path");
    assert_eq!(a.len(), b.len());
    assert_eq!(a, b);
}

#[test]
fn engines_agree_on_no_path() {
    let m = door_without_key();
    let st1 = lavirint::state::State::create_from_maze(&m);
    let st2 = lavirint::state::State::create_from_maze(&m);
    assert_eq!(m.search_for_shortest_path(st1), None);
    assert_eq!(m.search_for_shortest_path_parallel(st2), None);
}

#[test]
fn shortest_path_is_cached_and_idempotent() {
    let mut m = door_with_detour();
    let first = m.get_shortest_path();
    let second = m.get_shortest_path();
    assert_eq!(first, second);
    match &m.state {
        Some(st) => match &st.shortest_path {
            PathCache::Found(p) => assert_eq!(Some(p.clone()), first),
            _ => panic!("the cache should hold the found path"),
        },
        None => panic!("the canonical state should be materialised"),
    }
}

#[test]
fn no_path_outcome_is_cached_distinctly() {
    let mut m = door_without_key();
    assert_eq!(m.get_shortest_path(), None);
    match &m.state {
        Some(st) => assert!(matches!(st.shortest_path, PathCache::NoPath)),
        None => panic!("the canonical state should be materialised"),
    }
    assert_eq!(m.get_shortest_path(), None);
}

#[test]
fn start_on_exit_is_a_one_cell_path() {
    let mut m = tiny_corridor();
    m.fields[0][0].exit = true;
    m.exits.push((0, 0));
    let path = m.get_shortest_path();
    assert_eq!(path, Some(vec![(0, 0)]));
}

#[test]
fn key_on_the_route_opens_the_door() {
    // 1 by 3: free passage to (0,1) where a key lies, then a door to the
    // exit at (0,2).
    let f00 = cell((0, 0), [true, false, true, true], [false, false, false, false], false, false);
    let f01 = cell((0, 1), [false, false, true, true], [false, true, false, false], true, false);
    let f02 = cell((0, 2), [false, true, true, true], [true, false, false, false], false, true);
    let mut m = Maze {
        fields: vec![vec![f00, f01, f02]],
        dimensions: (1, 3),
        start: (0, 0),
        exits: vec![(0, 2)],
        state: None,
    };
    assert_eq!(m.get_shortest_path(), Some(vec![(0, 0), (0, 1), (0, 2)]));
}

#[test]
fn key_under_the_start_cell_is_collected_immediately() {
    // A key lying on the start cell is picked up when the search is
    // seeded, so it opens the door out of the start; removing the key
    // from the grid entirely leaves no path.
    let f00 = cell((0, 0), [true, false, true, true], [false, true, false, false], true, false);
    let f01 = cell((0, 1), [false, false, true, true], [true, false, false, false], false, false);
    let f02 = cell((0, 2), [false, true, true, true], [false, false, false, false], false, true);
    let mut m = Maze {
        fields: vec![vec![f00, f01, f02]],
        dimensions: (1, 3),
        start: (0, 0),
        exits: vec![(0, 2)],
        state: None,
    };
    let mut keyless = Maze {
        fields: m.fields.clone(),
        dimensions: m.dimensions,
        start: m.start,
        exits: m.exits.clone(),
        state: None,
    };
    keyless.fields[0][0].key = false;
    assert_eq!(m.get_shortest_path(), Some(vec![(0, 0), (0, 1), (0, 2)]));
    assert_eq!(keyless.get_shortest_path(), None);
}

#[test]
fn direct_and_door_neighbours() {
    let m = door_with_detour();
    assert_eq!(m.get_direct_neighbours(&(0, 0)), vec![(0, 1), (1, 0)]);
    assert_eq!(m.get_direct_neighbours(&(0, 1)), vec![(0, 0), (0, 2)]);
    assert_eq!(m.get_door_neighbours(&(0, 1)), vec![(0, 2)]);
    assert_eq!(m.get_door_neighbours(&(0, 2)), vec![(0, 1)]);
    assert_eq!(m.get_door_neighbours(&(0, 0)), Vec::<(usize, usize)>::new());
}

#[test]
fn keys_set_lists_key_cells() {
    let m = door_with_detour();
    assert_eq!(m.get_keys_set(), vec![(1, 0)]);
    assert_eq!(door_without_key().get_keys_set(), Vec::<(usize, usize)>::new());
}

#[test]
fn parse_rejects_short_data() {
    match Maze::parse_from_vector(Vec::new()) {
        Err(e) => assert_eq!(e, MazeError::IncompleteData),
        Ok(_) => panic!("an empty stream cannot describe a grid"),
    }
    let eighty = vec![0u8; 80];
    match Maze::parse_from_vector(eighty) {
        Err(e) => assert_eq!(e, MazeError::IncompleteData),
        Ok(_) => panic!("eighty bytes are too few for a 6 by 9 grid"),
    }
}

#[test]
fn parse_rejects_gridless_exit() {
    let data = vec![0u8; 81];
    match Maze::parse_from_vector(data) {
        Err(e) => assert_eq!(e, MazeError::NoExit),
        Ok(_) => panic!("an all-zero grid has no exit"),
    }
}

#[test]
fn parse_accepts_a_grid_with_an_exit() {
    let mut data = vec![0u8; 81];
    // Cell (0,0) reads its info bits from the high nibble of the second
    // byte; 0b0011 marks an exit without a key.
    data[1] = 0x30;
    let m = Maze::parse_from_vector(data).expect("the grid has an exit");
    assert_eq!(m.dimensions, (DEFAULT_ROWS, DEFAULT_COLUMNS));
    assert_eq!(m.start, (0, 0));
    assert!(m.fields[0][0].exit);
    assert!(!m.fields[0][0].key);
    assert_eq!(m.exits, vec![(0, 0)]);
    // With every wall bit clear, every boundary is a wall.
    assert_eq!(m.fields[2][4].walls, [true, true, true, true]);
    assert_eq!(m.fields[2][4].doors, [false, false, false, false]);
    assert!(m.state.is_some());
}

#[test]
fn parsed_maze_with_start_on_exit_solves_trivially() {
    let mut data = vec![0u8; 81];
    data[1] = 0x30;
    let mut m = Maze::parse_from_vector(data).expect("the grid has an exit");
    assert_eq!(m.get_shortest_path(), Some(vec![(0, 0)]));
}

#[test]
fn parse_decodes_key_flags() {
    let mut data = vec![0u8; 81];
    data[1] = 0x30;
    // Cell (0,1) is odd: its info bits are the full third byte; 0b1100
    // marks a key without an exit.
    data[2] = 0x0c;
    let m = Maze::parse_from_vector(data).expect("the grid has an exit");
    assert!(m.fields[0][1].key);
    assert!(!m.fields[0][1].exit);
    assert_eq!(m.get_keys_set(), vec![(0, 1)]);
}

#[test]
fn default_maze_is_an_empty_grid() {
    let m = Maze::default();
    assert_eq!(m.dimensions, (DEFAULT_ROWS, DEFAULT_COLUMNS));
    assert_eq!(m.start, (0, 0));
    assert!(m.fields.is_empty());
    assert!(m.exits.is_empty());
    assert!(m.state.is_none());
}

#[test]
fn live_state_supports_interactive_moves() {
    let mut m = door_with_detour();
    let st = m.get_state_mut();
    assert_eq!(st.position, (0, 0));
    // The interaction layer walks the actor south, picks up the key on
    // arrival, walks back and opens the door east of (0,1).
    st.move_to(&(1, 0));
    st.collect_key(&(1, 0));
    assert_eq!(st.keys, 1);
    st.move_to(&(0, 1));
    assert!(matches!(st.unlock_door(&(0, 2)), lavirint::state::UnlockDoor::Unlocked));
    assert_eq!(st.keys, 0);
    // The maze's canonical state carries the changes.
    assert_eq!(m.state.as_ref().unwrap().position, (0, 1));
}

#[test]
fn first_exit_in_direction_order_wins() {
    // Exits on both sides of the start at equal distance: the west
    // neighbour is examined first, so the west exit wins the tie.
    let f00 = cell((0, 0), [false, true, true, true], [false, false, false, false], false, true);
    let f01 = cell((0, 1), [false, false, true, true], [false, false, false, false], false, false);
    let f02 = cell((0, 2), [false, true, true, true], [false, false, false, false], false, true);
    let mut m = Maze {
        fields: vec![vec![f00, f01, f02]],
        dimensions: (1, 3),
        start: (0, 1),
        exits: vec![(0, 0), (0, 2)],
        state: None,
    };
    assert_eq!(m.get_shortest_path(), Some(vec![(0, 1), (0, 0)]));
}

#[test]
fn parse_decodes_wall_and_door_bits() {
    let mut data = vec![0u8; 81];
    // Cell (0,0) is even: its high nibble holds the wall bits, its low
    // nibble the door bits; 0x44 opens the east boundary and puts a
    // locked door on it.
    data[0] = 0x44;
    // Cell (0,1) is odd: its info bits are the full third byte.
    data[2] = 0x03;
    let mut m = Maze::parse_from_vector(data).expect("the grid has an exit");
    assert!(!m.fields[0][0].walls[1]);
    assert!(m.fields[0][0].walls[0]);
    assert!(m.fields[0][0].walls[2]);
    assert!(m.fields[0][0].walls[3]);
    assert!(m.fields[0][0].doors[1]);
    assert!(!m.fields[0][0].doors[0]);
    assert!(m.fields[0][1].exit);
    assert_eq!(m.exits, vec![(0, 1)]);
    // The only route out of the start is door-gated and no key exists.
    assert_eq!(m.get_shortest_path(), None);
}

#[test]
fn parsed_corridor_is_solvable() {
    let mut data = vec![0u8; 81];
    // Cell (0,0): east boundary open, no door; cell (0,1): exit.
    data[0] = 0x40;
    data[2] = 0x03;
    let mut m = Maze::parse_from_vector(data).expect("the grid has an exit");
    assert_eq!(m.get_shortest_path(), Some(vec![(0, 0), (0, 1)]));
}

#[test]
fn text_form_decodes_like_the_bytes() {
    // The same corridor written as binary text, eight digits per byte.
    let mut text = String::new();
    text.push_str("01000000");
    text.push_str("00000000");
    text.push_str("00000011");
    for _ in 0..78 {
        text.push_str("00000000");
    }
    let data = lavirint::utilities::convert_string_to_u8(&text);
    assert_eq!(data.len(), 81);
    assert_eq!(data[0], 0x40);
    assert_eq!(data[2], 0x03);
    let mut m = Maze::parse_from_vector(data).expect("the grid has an exit");
    assert_eq!(m.get_shortest_path(), Some(vec![(0, 0), (0, 1)]));
}
