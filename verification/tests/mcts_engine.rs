use mcts::fixed_point::SQRT2_Q32;
use mcts::game_state_trait::GameResult;
use mcts::mcts::{MCTSNode, MCTSTree};
use mcts::placeholder_env::PlaceHolderState;

const Q32: f64 = 4294967296.0;

/// Renders a Q32 UCT value with three decimals, as the checks below expect.
fn uct_str(tree: &MCTSTree<u16, PlaceHolderState>, child: usize) -> String {
    format!("{:.3}", tree.uct(child, Some(SQRT2_Q32)) as f64 / Q32)
}

/// Generates an MCTS sample tree for use during tests.
/// Draws are ignored because they don't affect internal MCTS logic.
fn test_generate_example_tree() -> MCTSTree<u16, PlaceHolderState> {
    // Arbitrary tree parameters as PlaceHolderState largely ignores them.
    let mut tree = MCTSTree::<u16, PlaceHolderState>::with_capacity(100, None, "".to_string(), 10)
        .unwrap();
    tree.arena[0].wins = 5;
    tree.arena[0].sims = 12;
    tree.arena[0].expanded = vec![1, 8];
    // Left branch in example tree
    tree.arena.push(MCTSNode {
        game_state: PlaceHolderState { last_action_made: 0, depth_counter: 1 },
        parent: Some(0),
        expanded: vec![2, 4, 5],
        unexpanded: Vec::new(),
        wins: 5,
        draws: 0,
        sims: 8,
    });
    // Left-Left branch in example tree.
    tree.arena.push(MCTSNode {
        game_state: PlaceHolderState { last_action_made: 0, depth_counter: 2 },
        parent: Some(1),
        expanded: vec![3],
        unexpanded: Vec::new(),
        wins: 1,
        draws: 0,
        sims: 2,
    });
    // Left-Left-Mid branch in example tree.
    tree.arena.push(MCTSNode {
        game_state: PlaceHolderState { last_action_made: 0, depth_counter: 3 },
        parent: Some(2),
        expanded: vec![],
        unexpanded: vec![10, 11],
        wins: 1,
        draws: 0,
        sims: 1,
    });
    // Left-Mid branch in example tree.
    tree.arena.push(MCTSNode {
        game_state: PlaceHolderState { last_action_made: 0, depth_counter: 2 },
        parent: Some(1),
        expanded: vec![],
        unexpanded: Vec::new(),
        wins: 0,
        draws: 0,
        sims: 1,
    });
    // Left-Right branch in example tree.
    tree.arena.push(MCTSNode {
        game_state: PlaceHolderState { last_action_made: 0, depth_counter: 2 },
        parent: Some(1),
        expanded: vec![6, 7],
        unexpanded: Vec::new(),
        wins: 2,
        draws: 0,
        sims: 4,
    });
    // Left-Right-Left branch in example tree.
    tree.arena.push(MCTSNode {
        game_state: PlaceHolderState { last_action_made: 0, depth_counter: 3 },
        parent: Some(5),
        expanded: vec![],
        unexpanded: Vec::new(),
        wins: 0,
        draws: 0,
        sims: 1,
    });
    // Left-Right-Right branch in example tree.
    tree.arena.push(MCTSNode {
        game_state: PlaceHolderState { last_action_made: 0, depth_counter: 3 },
        parent: Some(5),
        expanded: vec![],
        unexpanded: Vec::new(),
        wins: 2,
        draws: 0,
        sims: 2,
    });
    // Right branch in example tree.
    tree.arena.push(MCTSNode {
        game_state: PlaceHolderState { last_action_made: 0, depth_counter: 1 },
        parent: Some(0),
        expanded: vec![9, 10],
        unexpanded: Vec::new(),
        wins: 2,
        draws: 0,
        sims: 4,
    });
    // Right-Left in example tree.
    tree.arena.push(MCTSNode {
        game_state: PlaceHolderState { last_action_made: 0, depth_counter: 2 },
        parent: Some(8),
        expanded: vec![],
        unexpanded: Vec::new(),
        wins: 1,
        draws: 0,
        sims: 1,
    });
    // Right-Right in example tree.
    tree.arena.push(MCTSNode {
        game_state: PlaceHolderState { last_action_made: 0, depth_counter: 2 },
        parent: Some(8),
        expanded: vec![11],
        unexpanded: Vec::new(),
        wins: 1,
        draws: 0,
        sims: 2,
    });
    // Right-Right-Mid branch in example tree.
    tree.arena.push(MCTSNode {
        game_state: PlaceHolderState { last_action_made: 0, depth_counter: 3 },
        parent: Some(10),
        expanded: vec![],
        unexpanded: Vec::new(),
        wins: 0,
        draws: 0,
        sims: 1,
    });

    tree
}

/// Running uct on the root is invalid. Ensures the unwrap on the parent
/// panics.
#[test]
#[should_panic]
fn test_uct_root() {
    let tree = test_generate_example_tree();
    tree.uct(0, Some(SQRT2_Q32));
}

/// Tests if the uct function generates the correct uct values
/// based on the example tree.
#[test]
fn test_uct() {
    let tree = test_generate_example_tree();
    assert!(uct_str(&tree, 1) == "1.413");
    assert!(uct_str(&tree, 2) == "1.942");
    assert!(uct_str(&tree, 3) == "2.177");
    assert!(uct_str(&tree, 4) == "2.039");
    assert!(uct_str(&tree, 5) == "1.520");
    assert!(uct_str(&tree, 6) == "1.665");
    assert!(uct_str(&tree, 7) == "2.177");
    assert!(uct_str(&tree, 8) == "1.615");
    assert!(uct_str(&tree, 9) == "2.665");
    assert!(uct_str(&tree, 10) == "1.677");
    assert!(uct_str(&tree, 11) == "1.177");
}

/// Tests if the select function selects the correct node from
/// the tree based on the example tree.
#[test]
fn test_select() {
    let mut tree = test_generate_example_tree();
    println!("{}", tree.select(0, Some(SQRT2_Q32)));
    assert!(tree.select(0, Some(SQRT2_Q32)) == 9);
    tree.arena[1].wins = 8;
    assert!(tree.select(0, Some(SQRT2_Q32)) == 4);
}

/// Tests if the expansion function expands and reconfigures
/// the nodes correctly.
#[test]
fn test_expand() {
    let mut tree = test_generate_example_tree();
    let i0 = tree.expand(3);
    let i1 = tree.expand(3);
    let i2 = tree.expand(3);
    assert!(
        tree.arena[i0].game_state.last_action_made == 11
            || tree.arena[i0].game_state.last_action_made == 10
    );
    if tree.arena[i0].game_state.last_action_made == 11 {
        assert!(tree.arena[i1].game_state.last_action_made == 10);
    } else {
        assert!(tree.arena[i1].game_state.last_action_made == 11);
    }
    assert!(tree.arena[i2].game_state.last_action_made == 0);
    assert!(tree.arena[3].expanded == (vec![i0, i1] as Vec<usize>));
    assert!(tree.arena[3].unexpanded.len() == 0);
}

/// Tests if the tree backpropagation correctly feeds
/// the simulation result to the nodes of the tree.
#[test]
fn test_backpropagate() {
    let mut tree = test_generate_example_tree();
    tree.backpropagate(0, GameResult::SecondPlayerWin);
    tree.backpropagate(6, GameResult::SecondPlayerWin);
    tree.backpropagate(10, GameResult::SecondPlayerWin);
    assert!(tree.arena[0].wins == 8 && tree.arena[0].sims == 15);
    assert!(tree.arena[1].wins == 5 && tree.arena[1].sims == 9);
    assert!(tree.arena[2].wins == 1 && tree.arena[2].sims == 2);
    assert!(tree.arena[3].wins == 1 && tree.arena[3].sims == 1);
    assert!(tree.arena[4].wins == 0 && tree.arena[4].sims == 1);
    assert!(tree.arena[5].wins == 3 && tree.arena[5].sims == 5);
    assert!(tree.arena[6].wins == 0 && tree.arena[6].sims == 2);
    assert!(tree.arena[7].wins == 2 && tree.arena[7].sims == 2);
    assert!(tree.arena[8].wins == 2 && tree.arena[8].sims == 5);
    assert!(tree.arena[9].wins == 1 && tree.arena[9].sims == 1);
    assert!(tree.arena[10].wins == 2 && tree.arena[10].sims == 3);
    assert!(tree.arena[11].wins == 0 && tree.arena[11].sims == 1);

    tree.backpropagate(11, GameResult::FirstPlayerWin);
    tree.backpropagate(3, GameResult::FirstPlayerWin);
    tree.backpropagate(1, GameResult::FirstPlayerWin);
    assert!(tree.arena[0].wins == 8 && tree.arena[0].sims == 18);
    assert!(tree.arena[1].wins == 7 && tree.arena[1].sims == 11);
    assert!(tree.arena[2].wins == 1 && tree.arena[2].sims == 3);
    assert!(tree.arena[3].wins == 2 && tree.arena[3].sims == 2);
    assert!(tree.arena[4].wins == 0 && tree.arena[4].sims == 1);
    assert!(tree.arena[5].wins == 3 && tree.arena[5].sims == 5);
    assert!(tree.arena[6].wins == 0 && tree.arena[6].sims == 2);
    assert!(tree.arena[7].wins == 2 && tree.arena[7].sims == 2);
    assert!(tree.arena[8].wins == 3 && tree.arena[8].sims == 6);
    assert!(tree.arena[9].wins == 1 && tree.arena[9].sims == 1);
    assert!(tree.arena[10].wins == 2 && tree.arena[10].sims == 4);
    assert!(tree.arena[11].wins == 1 && tree.arena[11].sims == 2);

    tree.backpropagate(4, GameResult::Draw);
    tree.backpropagate(7, GameResult::Draw);
    tree.backpropagate(9, GameResult::Draw);
    assert!(tree.arena[0].wins == 8 && tree.arena[0].sims == 21);
    assert!(tree.arena[1].wins == 7 && tree.arena[1].sims == 13);
    assert!(tree.arena[2].wins == 1 && tree.arena[2].sims == 3);
    assert!(tree.arena[3].wins == 2 && tree.arena[3].sims == 2);
    assert!(tree.arena[4].wins == 0 && tree.arena[4].sims == 2);
    assert!(tree.arena[5].wins == 3 && tree.arena[5].sims == 6);
    assert!(tree.arena[6].wins == 0 && tree.arena[6].sims == 2);
    assert!(tree.arena[7].wins == 2 && tree.arena[7].sims == 3);
    assert!(tree.arena[8].wins == 3 && tree.arena[8].sims == 7);
    assert!(tree.arena[9].wins == 1 && tree.arena[9].sims == 2);
    assert!(tree.arena[10].wins == 2 && tree.arena[10].sims == 4);
    assert!(tree.arena[11].wins == 1 && tree.arena[11].sims == 2);
}
