use lavirint::graph::Graph;
use lavirint::state::{PathCache, State, UnlockDoor};
use lavirint::utilities::convert_string_to_u8;

/// A 1 by 2 grid's doors graph with one door edge in each direction
/// between (0,0) and (0,1).
fn two_cell_doors() -> Graph {
    Graph { rows: 1, cols: 2, adj: vec![vec![(0, 1)], vec![(0, 0)]] }
}

fn state_at(position: (usize, usize), keys: usize) -> State {
    State {
        position,
        keys,
        doors_graph: two_cell_doors(),
        keys_set: vec![(0, 1)],
        shortest_path: PathCache::Unknown,
    }
}

#[test]
fn unlock_door_without_key_reports_no_key() {
    let mut st = state_at((0, 0), 0);
    assert!(matches!(st.unlock_door(&(0, 1)), UnlockDoor::NoKey));
    assert_eq!(st.keys, 0);
    assert_eq!(st.doors_graph.adj[0], vec![(0, 1)]);
}

#[test]
fn unlock_door_spends_a_key_and_removes_the_edge() {
    let mut st = state_at((0, 0), 2);
    assert!(matches!(st.unlock_door(&(0, 1)), UnlockDoor::Unlocked));
    assert_eq!(st.keys, 1);
    assert_eq!(st.doors_graph.adj[0], Vec::<(usize, usize)>::new());
    // The reverse door edge stays locked.
    assert_eq!(st.doors_graph.adj[1], vec![(0, 0)]);
    // A second attempt finds no door any more.
    assert!(matches!(st.unlock_door(&(0, 1)), UnlockDoor::NoDoor));
    assert_eq!(st.keys, 1);
}

#[test]
fn unlock_door_elsewhere_reports_no_door() {
    let mut st = state_at((0, 1), 1);
    assert!(matches!(st.unlock_door(&(0, 1)), UnlockDoor::NoDoor));
    assert_eq!(st.keys, 1);
}

#[test]
fn collect_key_takes_each_key_once() {
    let mut st = state_at((0, 0), 0);
    st.collect_key(&(0, 1));
    assert_eq!(st.keys, 1);
    assert_eq!(st.keys_set, Vec::<(usize, usize)>::new());
    st.collect_key(&(0, 1));
    assert_eq!(st.keys, 1);
    st.collect_key(&(5, 5));
    assert_eq!(st.keys, 1);
}

#[test]
fn move_to_changes_only_the_position() {
    let mut st = state_at((0, 0), 3);
    st.move_to(&(0, 1));
    assert_eq!(st.position, (0, 1));
    assert_eq!(st.keys, 3);
    assert_eq!(st.keys_set, vec![(0, 1)]);
}

#[test]
fn transfer_state_blocks_on_a_locked_door_without_keys() {
    let st = state_at((0, 0), 0);
    assert!(st.transfer_state(&(0, 1)).is_none());
    // The input state is untouched.
    assert_eq!(st.keys, 0);
    assert_eq!(st.doors_graph.adj[0], vec![(0, 1)]);
}

#[test]
fn transfer_state_unlocks_and_collects() {
    let st = state_at((0, 0), 1);
    let next = st.transfer_state(&(0, 1)).expect("a key opens the door");
    // One key spent at the door, one picked up on arrival.
    assert_eq!(next.position, (0, 1));
    assert_eq!(next.keys, 1);
    assert_eq!(next.keys_set, Vec::<(usize, usize)>::new());
    assert_eq!(next.doors_graph.adj[0], Vec::<(usize, usize)>::new());
    // The input state still owns its door edge and its key cell.
    assert_eq!(st.keys, 1);
    assert_eq!(st.doors_graph.adj[0], vec![(0, 1)]);
    assert_eq!(st.keys_set, vec![(0, 1)]);
}

#[test]
fn transfer_state_without_a_door_just_moves() {
    let st = State {
        position: (0, 1),
        keys: 0,
        doors_graph: Graph { rows: 1, cols: 2, adj: vec![vec![(0, 1)], vec![]] },
        keys_set: vec![],
        shortest_path: PathCache::Unknown,
    };
    let next = st.transfer_state(&(0, 0)).expect("no door bars the way");
    assert_eq!(next.position, (0, 0));
    assert_eq!(next.keys, 0);
}

#[test]
fn duplicate_is_a_deep_copy() {
    let st = state_at((0, 0), 1);
    let mut copy = st.duplicate();
    copy.collect_key(&(0, 1));
    copy.unlock_door(&(0, 1));
    assert_eq!(st.keys, 1);
    assert_eq!(st.keys_set, vec![(0, 1)]);
    assert_eq!(st.doors_graph.adj[0], vec![(0, 1)]);
}

#[test]
fn convert_packs_eight_bits_per_byte() {
    assert_eq!(convert_string_to_u8(&"10000001".to_string()), vec![0x81]);
    assert_eq!(convert_string_to_u8(&"1111111100000000".to_string()), vec![0xff, 0x00]);
}

#[test]
fn convert_pads_a_trailing_group_with_zeros() {
    assert_eq!(convert_string_to_u8(&"1".to_string()), vec![0x80]);
    assert_eq!(convert_string_to_u8(&"101".to_string()), vec![0xa0]);
    assert_eq!(convert_string_to_u8(&"111111111".to_string()), vec![0xff, 0x80]);
}

#[test]
fn convert_ignores_other_characters() {
    assert_eq!(convert_string_to_u8(&String::new()), Vec::<u8>::new());
    assert_eq!(convert_string_to_u8(&"abc \n".to_string()), Vec::<u8>::new());
    assert_eq!(convert_string_to_u8(&"0a1b0 1\n0101".to_string()), vec![0x55]);
}

#[test]
fn default_state_is_empty() {
    let st = State::default();
    assert_eq!(st.position, (0, 0));
    assert_eq!(st.keys, 0);
    assert!(st.doors_graph.adj.is_empty());
    assert!(st.keys_set.is_empty());
    assert!(matches!(st.shortest_path, PathCache::Unknown));
}

#[test]
fn states_compare_by_position_and_keys() {
    let a = state_at((0, 0), 1);
    let mut b = state_at((0, 0), 1);
    b.keys_set.clear();
    b.doors_graph.adj[0].clear();
    // Doors and keys differ, yet the states make the same stop.
    assert!(a == b);
    let c = state_at((0, 0), 2);
    assert!(a != c);
    let d = state_at((0, 1), 1);
    assert!(a != d);
}
