use vstd::prelude::*;

use crate::fixed_point::MAX_EXPLORATION_Q32;
use crate::fixed_point::SQRT2_Q32;
use crate::fixed_point::spec_uct_q32;
use crate::fixed_point::uct_q32;
use crate::game_state_trait::GameResult;
use crate::game_state_trait::GameState;
use xorshift::Rng;
use xorshift::SeedableRng;
use xorshift::Xorshift128;

verus! {

#[verifier::external_type_specification]
#[verifier::external_body]
pub struct ExXorshift128(Xorshift128);

/// Relies on xorshift's `SeedableRng::from_seed` for `Xorshift128`: builds a
/// generator from a two-word state array (accepted for any seed, including
/// zero, which yields a degenerate but well-defined generator).
#[verifier::external_body]
fn seed_generator(seed: u64) -> Xorshift128 {
    let state: [u64; 2] = [seed, 0];
    SeedableRng::from_seed(&state[..])
}

/// Relies on rand's `Rng::gen_range` (re-exported by xorshift): returns a
/// value in `[0, bound)` and panics when the range is empty, so the bound
/// must be positive. Which value comes back depends on the generator state,
/// so nothing more is promised.
#[verifier::external_body]
fn random_below(rng: &mut Xorshift128, bound: usize) -> (r: usize)
    requires
        bound >= 1,
    ensures
        r < bound,
{
    rng.gen_range(0, bound)
}

/// Represents a node in the MCTS game tree. It holds game tree information
/// as well as MCTS statistics.
///
/// Game trees associate each node with a game state and each edge with an
/// action. MCTS builds the tree progressively: a child starts out as an
/// entry of `unexpanded` (just an action) and moves to `expanded` (an arena
/// index) once explored. Results of rollouts through this node's subtree are
/// kept in `wins`, `draws` and `sims` for the UCT calculation.
///
/// To avoid self-referential structures, all references to nodes are plain
/// indices into the tree's memory arena.
pub struct MCTSNode<Action, GameStateObj> where GameStateObj: GameState<Action> + Clone {
    /// Game state associated with the node in the tree.
    pub game_state: GameStateObj,
    /// Parent of the current node. None only for the root.
    pub parent: Option<usize>,
    /// Arena indices of the already expanded children.
    pub expanded: Vec<usize>,
    /// Legal moves corresponding to unexpanded child nodes.
    pub unexpanded: Vec<Action>,
    /// Sum of all simulation wins of the subtree rooted at this node.
    pub wins: u32,
    /// Sum of all simulation draws of the subtree rooted at this node.
    pub draws: u32,
    /// Sum of all simulations of the subtree rooted at this node.
    pub sims: u32,
}

/// Holds the node memory arena for the MCTS tree and the associated search
/// state.
pub struct MCTSTree<Action, GameStateObj> where GameStateObj: GameState<Action> + Clone {
    /// Memory arena for MCTS nodes; append-only, so indices stay valid for
    /// the life of the tree.
    pub arena: Vec<MCTSNode<Action, GameStateObj>>,
    /// Average number of children expected for nodes in the tree; a sizing
    /// hint for child-list pre-allocation that does not affect correctness.
    pub average_child_count: usize,
    /// The pseudo-random generator state used for expansion and rollouts.
    /// Advanced by every call that consumes randomness.
    pub random_generator: Xorshift128,
}

impl<Action, GameStateObj> MCTSTree<Action, GameStateObj> where
    GameStateObj: GameState<Action> + Clone,
 {
    /// Structural soundness of one node: the root has no parent, every
    /// other node points to an earlier node, statistics are consistent
    /// (`wins + draws <= sims`), and expanded child indices point to later
    /// nodes inside the arena. Child links pointing forward and parent
    /// links backward is exactly what the append-only construction order
    /// guarantees, and is what makes every walk through the tree terminate.
    pub open spec fn node_ok(self, i: int) -> bool {
        let n = self.arena@[i];
        &&& (i == 0 ==> n.parent is None)
        &&& (i >= 1 ==> n.parent is Some && 0 <= n.parent->0 < i)
        &&& n.wins + n.draws <= n.sims
        &&& (forall|k: int|
            0 <= k < n.expanded@.len() ==> i < #[trigger] n.expanded@[k] < self.arena@.len())
    }

    /// Well-formedness of the whole tree: nonempty, and every node is
    /// structurally sound.
    pub open spec fn wf(self) -> bool {
        &&& 1 <= self.arena@.len()
        &&& forall|i: int| 0 <= i < self.arena@.len() ==> #[trigger] self.node_ok(i)
    }

    /// The node's statistics allow UCT evaluation of its expanded children:
    /// every expanded child has been simulated at least once, and so has
    /// the node that the child's own parent link designates (normally this
    /// node itself). Scanning children that were never simulated is a
    /// division by zero in the UCT formula, and a caller misuse.
    pub open spec fn uct_ready_at(self, i: int) -> bool {
        forall|k: int|
            0 <= k < self.arena@[i].expanded@.len() ==> {
                let ch = #[trigger] self.arena@[i].expanded@[k] as int;
                self.arena@[ch].sims >= 1 && self.arena@[self.arena@[ch].parent->0 as int].sims
                    >= 1
            }
    }

    /// Every fully-expanded interior node of the tree is ready for UCT
    /// scanning; this is what a selection descent may run through.
    pub open spec fn select_ready(self) -> bool {
        forall|i: int|
            0 <= i < self.arena@.len() && self.arena@[i].unexpanded@.len() == 0 && (
            #[trigger] self.arena@[i].expanded@.len()) > 0 ==> self.uct_ready_at(i)
    }

    /// The exploration factor actually used for an optional argument: the
    /// supplied value, or `sqrt(2)` (in Q32) when none is given.
    pub open spec fn spec_c(exploration_factor: Option<u64>) -> int {
        match exploration_factor {
            Option::Some(c) => c as int,
            Option::None => SQRT2_Q32 as int,
        }
    }

    /// The UCT value of node `child` computed from its own statistics and
    /// the simulation count of the node its parent link designates.
    pub open spec fn spec_uct_node(self, child: int, c: int) -> int {
        let n = self.arena@[child];
        let p = self.arena@[n.parent->0 as int];
        spec_uct_q32(n.wins as int, n.sims as int, p.sims as int, c)
    }

    /// Creates a new MCTS tree with an arena capacity, starting seed and
    /// position.
    ///
    /// The arena is reserved for `arena_capacity` nodes; the random
    /// generator is seeded with `seed`, or with a fixed default seed of 0
    /// when none is supplied, which makes "no seed" reproducible rather
    /// than random. The root node is parsed from `starting_pos` and pushed
    /// at index 0 with zero statistics, no parent, and the position's full
    /// legal-action list waiting in `unexpanded`.
    ///
    /// Returns `None` exactly when `starting_pos` is not a valid encoding
    /// for the game.
    pub fn with_capacity(
        arena_capacity: usize,
        seed: Option<u64>,
        starting_pos: String,
        average_child_count: usize,
    ) -> (r: Option<Self>)
        ensures
            r is Some <==> GameStateObj::spec_parses(starting_pos@),
            r is Some ==> {
                let t = r->0;
                &&& t.wf()
                &&& t.arena@.len() == 1
                &&& call_ensures(
                    GameStateObj::from_str,
                    (starting_pos,),
                    Some(t.arena@[0].game_state),
                )
                &&& t.arena@[0].parent is None
                &&& t.arena@[0].expanded@.len() == 0
                &&& t.arena@[0].unexpanded@ == t.arena@[0].game_state.spec_actions()
                &&& t.arena@[0].wins == 0
                &&& t.arena@[0].draws == 0
                &&& t.arena@[0].sims == 0
                &&& t.average_child_count == average_child_count
            },
    {
        let seed_value: u64 = match seed {
            Some(s) => s,
            None => 0,
        };
        let random_generator = seed_generator(seed_value);
        let root_game_state = match GameStateObj::from_str(starting_pos) {
            Some(s) => s,
            None => {
                return None;
            },
        };
        let unexpanded = root_game_state.generate_legal_actions();
        let mut arena: Vec<MCTSNode<Action, GameStateObj>> = Vec::with_capacity(arena_capacity);
        arena.push(
            MCTSNode {
                game_state: root_game_state,
                parent: None,
                expanded: Vec::with_capacity(average_child_count),
                unexpanded,
                wins: 0,
                draws: 0,
                sims: 0,
            },
        );
        Some(Self { arena, average_child_count, random_generator })
    }

    /// Implementation of the UCT algorithm for a particular node:
    /// `wins / sims + c * sqrt(ln(parent_sims) / sims)` in Q32 fixed point,
    /// where the parent is the node designated by `child`'s parent link.
    ///
    /// `exploration_factor` corresponds to `c` in the UCT formula: a higher
    /// exploration factor means a preference towards exploration over
    /// exploitation. `sqrt(2)` is the theoretical optimum and the default if
    /// unspecified.
    ///
    /// A parent is required, as its simulation count is part of the UCT
    /// formula: calling this on the root is a precondition violation. Both
    /// the child and its parent must have been simulated at least once.
    pub fn uct(&self, child: usize, exploration_factor: Option<u64>) -> (r: u64)
        requires
            self.wf(),
            child < self.arena@.len(),
            self.arena@[child as int].parent is Some,
            self.arena@[child as int].sims >= 1,
            self.arena@[self.arena@[child as int].parent->0 as int].sims >= 1,
            Self::spec_c(exploration_factor) <= MAX_EXPLORATION_Q32,
        ensures
            r as int == self.spec_uct_node(child as int, Self::spec_c(exploration_factor)),
    {
        let child_obj = &self.arena[child];
        let parent: usize = child_obj.parent.unwrap();
        proof {
            assert(self.node_ok(child as int));
        }
        let parent_sims: u32 = self.arena[parent].sims;
        let c: u64 = match exploration_factor {
            Some(v) => v,
            None => SQRT2_Q32,
        };
        uct_q32(child_obj.wins, child_obj.sims, parent_sims, c)
    }

    /// The child kept after scanning the first `k` entries of `parent`'s
    /// expanded list: the earliest entry whose UCT value strictly exceeds
    /// every earlier one.
    pub open spec fn spec_best_upto(self, parent: int, c: int, k: int) -> usize
        decreases k,
    {
        if k <= 1 {
            self.arena@[parent].expanded@[0]
        } else {
            let prev = self.spec_best_upto(parent, c, k - 1);
            let cand = self.arena@[parent].expanded@[k - 1];
            if self.spec_uct_node(cand as int, c) > self.spec_uct_node(prev as int, c) {
                cand
            } else {
                prev
            }
        }
    }

    /// The expanded child of `parent` with the maximal UCT value, earliest
    /// entry winning ties.
    pub open spec fn spec_max_uct_child(self, parent: int, c: int) -> usize {
        self.spec_best_upto(parent, c, self.arena@[parent].expanded@.len() as int)
    }

    /// The scan result is one of the scanned children, and in particular a
    /// node strictly later than `parent` inside the arena.
    pub proof fn lemma_best_upto_bounds(self, parent: int, c: int, k: int)
        requires
            self.wf(),
            0 <= parent < self.arena@.len(),
            1 <= k <= self.arena@[parent].expanded@.len(),
        ensures
            exists|j: int|
                0 <= j < k && self.spec_best_upto(parent, c, k) == self.arena@[parent].expanded@[j],
            parent < self.spec_best_upto(parent, c, k) < self.arena@.len(),
        decreases k,
    {
        assert(self.node_ok(parent));
        if k == 1 {
            assert(self.spec_best_upto(parent, c, k) == self.arena@[parent].expanded@[0]);
        } else {
            self.lemma_best_upto_bounds(parent, c, k - 1);
        }
    }

    /// The scan keeps the first child attaining the maximal UCT value:
    /// returns its position `j0` in the expanded list; no scanned child has
    /// a larger value, and every child before position `j0` has a strictly
    /// smaller one.
    pub proof fn lemma_best_upto_first_max(self, parent: int, c: int, k: int) -> (j0: int)
        requires
            self.wf(),
            0 <= parent < self.arena@.len(),
            1 <= k <= self.arena@[parent].expanded@.len(),
        ensures
            0 <= j0 < k,
            self.spec_best_upto(parent, c, k) == self.arena@[parent].expanded@[j0],
            forall|j: int|
                0 <= j < k ==> self.spec_uct_node(
                    #[trigger] self.arena@[parent].expanded@[j] as int,
                    c,
                ) <= self.spec_uct_node(self.spec_best_upto(parent, c, k) as int, c),
            forall|j: int|
                0 <= j < j0 ==> self.spec_uct_node(
                    #[trigger] self.arena@[parent].expanded@[j] as int,
                    c,
                ) < self.spec_uct_node(self.spec_best_upto(parent, c, k) as int, c),
        decreases k,
    {
        if k == 1 {
            assert(self.spec_best_upto(parent, c, k) == self.arena@[parent].expanded@[0]);
            0
        } else {
            let j_prev = self.lemma_best_upto_first_max(parent, c, k - 1);
            let prev = self.spec_best_upto(parent, c, k - 1);
            let cand = self.arena@[parent].expanded@[k - 1];
            if self.spec_uct_node(cand as int, c) > self.spec_uct_node(prev as int, c) {
                assert(self.spec_best_upto(parent, c, k) == cand);
                k - 1
            } else {
                assert(self.spec_best_upto(parent, c, k) == prev);
                j_prev
            }
        }
    }

    /// Returns the expanded child of `parent` with the maximum UCT value.
    ///
    /// The expanded list is scanned in stored order and the first child
    /// whose UCT value strictly exceeds the running maximum is kept, so ties
    /// keep the earlier-encountered child.
    pub fn get_max_uct_child(&self, parent: usize, exploration_factor: Option<u64>) -> (r: usize)
        requires
            self.wf(),
            parent < self.arena@.len(),
            self.arena@[parent as int].expanded@.len() >= 1,
            self.uct_ready_at(parent as int),
            Self::spec_c(exploration_factor) <= MAX_EXPLORATION_Q32,
        ensures
            r == self.spec_max_uct_child(parent as int, Self::spec_c(exploration_factor)),
    {
        let ghost c = Self::spec_c(exploration_factor);
        proof {
            assert(self.node_ok(parent as int));
        }
        let n_children: usize = self.arena[parent].expanded.len();
        let mut best_child: usize = self.arena[parent].expanded[0];
        proof {
            assert(self.node_ok(best_child as int));
        }
        let mut best_value: u64 = self.uct(best_child, exploration_factor);
        let mut k: usize = 1;
        while k < n_children
            invariant
                self.wf(),
                parent < self.arena@.len(),
                self.uct_ready_at(parent as int),
                Self::spec_c(exploration_factor) == c,
                c <= MAX_EXPLORATION_Q32,
                n_children == self.arena@[parent as int].expanded@.len(),
                1 <= k <= n_children,
                best_child == self.spec_best_upto(parent as int, c, k as int),
                best_value as int == self.spec_uct_node(best_child as int, c),
                exists|j: int|
                    0 <= j < k && best_child == self.arena@[parent as int].expanded@[j],
            decreases n_children - k,
        {
            proof {
                assert(self.node_ok(parent as int));
            }
            let child: usize = self.arena[parent].expanded[k];
            proof {
                assert(self.node_ok(child as int));
            }
            let child_uct: u64 = self.uct(child, exploration_factor);
            if child_uct > best_value {
                best_value = child_uct;
                best_child = child;
            }
            proof {
                let e = self.arena@[parent as int].expanded@;
                if best_child == child {
                    assert(0 <= k < k + 1 && best_child == e[k as int]);
                }
            }
            k = k + 1;
        }
        best_child
    }

    /// The node that the selection descent stops at when started at `node`:
    /// the first node on the maximal-UCT path that still has unexpanded
    /// actions, or a terminal node (no actions at all).
    pub open spec fn spec_select(self, node: int, c: int) -> int
        decreases self.arena@.len() - node,
        when self.wf() && 0 <= node < self.arena@.len()
        via Self::spec_select_decreases
    {
        if self.arena@[node].unexpanded@.len() > 0 {
            node
        } else if self.arena@[node].expanded@.len() == 0 {
            node
        } else {
            self.spec_select(self.spec_max_uct_child(node, c) as int, c)
        }
    }

    #[via_fn]
    proof fn spec_select_decreases(self, node: int, c: int) {
        if self.arena@[node].unexpanded@.len() == 0 && self.arena@[node].expanded@.len() > 0 {
            self.lemma_best_upto_bounds(node, c, self.arena@[node].expanded@.len() as int);
        }
    }

    /// The selection descent as an explicit chain of arena indices: it
    /// starts at `node`, ends at the selected leaf, and every interior entry
    /// is a fully expanded node whose successor is exactly its maximal-UCT
    /// child.
    pub proof fn lemma_select_descent(self, node: int, c: int) -> (chain: Seq<int>)
        requires
            self.wf(),
            0 <= node < self.arena@.len(),
        ensures
            chain.len() >= 1,
            chain[0] == node,
            chain[chain.len() - 1] == self.spec_select(node, c),
            forall|i: int| 0 <= i < chain.len() ==> 0 <= #[trigger] chain[i] < self.arena@.len(),
            forall|i: int|
                0 <= i < chain.len() - 1 ==> {
                    &&& self.arena@[#[trigger] chain[i]].unexpanded@.len() == 0
                    &&& self.arena@[chain[i]].expanded@.len() > 0
                    &&& chain[i + 1] == self.spec_max_uct_child(chain[i], c) as int
                },
        decreases self.arena@.len() - node,
    {
        if self.arena@[node].unexpanded@.len() > 0 || self.arena@[node].expanded@.len() == 0 {
            assert(self.spec_select(node, c) == node);
            seq![node]
        } else {
            self.lemma_best_upto_bounds(node, c, self.arena@[node].expanded@.len() as int);
            let next = self.spec_max_uct_child(node, c) as int;
            let sub = self.lemma_select_descent(next, c);
            let chain = seq![node] + sub;
            assert(chain[chain.len() - 1] == sub[sub.len() - 1]);
            assert forall|i: int| 0 <= i < chain.len() - 1 implies {
                &&& self.arena@[#[trigger] chain[i]].unexpanded@.len() == 0
                &&& self.arena@[chain[i]].expanded@.len() > 0
                &&& chain[i + 1] == self.spec_max_uct_child(chain[i], c) as int
            } by {
                if i == 0 {
                    assert(chain[0] == node && chain[1] == sub[0] && sub[0] == next);
                } else {
                    assert(chain[i] == sub[i - 1] && chain[i + 1] == sub[i]);
                }
            }
            chain
        }
    }

    /// Finds the optimal leaf node index in the tree by following the path
    /// with maximal UCT value at each depth, starting at `root`. A leaf node
    /// is a node with unexpanded actions, or a terminal node (no expanded
    /// children either). This is the standard "tree policy" descent of MCTS.
    ///
    /// `exploration_factor` corresponds to `c` in the UCT formula; `sqrt(2)`
    /// (in Q32) is the default if unspecified, and 0 gives a pure
    /// exploitation descent.
    pub fn select(&self, root: usize, exploration_factor: Option<u64>) -> (r: usize)
        requires
            self.wf(),
            root < self.arena@.len(),
            self.select_ready(),
            Self::spec_c(exploration_factor) <= MAX_EXPLORATION_Q32,
        ensures
            r < self.arena@.len(),
            r as int == self.spec_select(root as int, Self::spec_c(exploration_factor)),
            self.arena@[r as int].unexpanded@.len() > 0 || self.arena@[r as int].expanded@.len()
                == 0,
    {
        let ghost c = Self::spec_c(exploration_factor);
        let mut current: usize = root;
        while self.arena[current].unexpanded.len() == 0
            invariant
                self.wf(),
                self.select_ready(),
                Self::spec_c(exploration_factor) == c,
                c <= MAX_EXPLORATION_Q32,
                current < self.arena@.len(),
                self.spec_select(root as int, c) == self.spec_select(current as int, c),
            decreases self.arena@.len() - current,
        {
            if self.arena[current].expanded.len() == 0 {
                return current;
            }
            let ghost prev = current as int;
            current = self.get_max_uct_child(current, exploration_factor);
            proof {
                self.lemma_best_upto_bounds(prev, c, self.arena@[prev].expanded@.len() as int);
            }
        }
        current
    }

    /// Expands a random unexpanded action of `leaf_node` and returns the
    /// arena index of the new node. If the leaf node is terminal (no
    /// unexpanded actions), no node is created and the leaf index is
    /// returned unchanged.
    ///
    /// One action is drawn uniformly at random from the leaf's unexpanded
    /// list and moves out of that list exactly once: the new node is
    /// appended to the arena with the successor position, its own full
    /// legal-action list, zero statistics and the leaf as parent, and its
    /// index is appended to the leaf's expanded list.
    pub fn expand(&mut self, leaf_node: usize) -> (r: usize)
        requires
            old(self).wf(),
            leaf_node < old(self).arena@.len(),
            old(self).arena@.len() < usize::MAX,
            forall|a: int|
                0 <= a < old(self).arena@[leaf_node as int].unexpanded@.len() ==> old(
                    self,
                ).arena@[leaf_node as int].game_state.spec_actions().contains(
                    #[trigger] old(self).arena@[leaf_node as int].unexpanded@[a],
                ),
        ensures
            final(self).wf(),
            final(self).average_child_count == old(self).average_child_count,
            old(self).arena@[leaf_node as int].unexpanded@.len() == 0 ==> r == leaf_node
                && final(self).arena@ == old(self).arena@
                && final(self).random_generator == old(self).random_generator,
            old(self).arena@[leaf_node as int].unexpanded@.len() > 0 ==> {
                let old_leaf = old(self).arena@[leaf_node as int];
                let new_leaf = final(self).arena@[leaf_node as int];
                let child = final(self).arena@[r as int];
                &&& r == old(self).arena@.len()
                &&& final(self).arena@.len() == old(self).arena@.len() + 1
                &&& (exists|i: int|
                    0 <= i < old_leaf.unexpanded@.len() && new_leaf.unexpanded@
                        == old_leaf.unexpanded@.remove(i) && child.game_state.spec_provenance()
                        == Some(old_leaf.unexpanded@[i]) && call_ensures(
                        GameStateObj::apply_action,
                        (&old_leaf.game_state, &old_leaf.unexpanded@[i]),
                        child.game_state,
                    ))
                &&& (forall|a: int|
                    0 <= a < new_leaf.unexpanded@.len() ==> new_leaf.game_state.spec_actions().contains(
                        #[trigger] new_leaf.unexpanded@[a],
                    ))
                &&& new_leaf.expanded@ == old_leaf.expanded@.push(r)
                &&& new_leaf.game_state == old_leaf.game_state
                &&& new_leaf.parent == old_leaf.parent
                &&& new_leaf.wins == old_leaf.wins
                &&& new_leaf.draws == old_leaf.draws
                &&& new_leaf.sims == old_leaf.sims
                &&& (forall|j: int|
                    0 <= j < old(self).arena@.len() && j != leaf_node ==> final(self).arena@[j]
                        == old(self).arena@[j])
                &&& child.parent == Some(leaf_node)
                &&& child.expanded@.len() == 0
                &&& child.unexpanded@ == child.game_state.spec_actions()
                &&& child.wins == 0
                &&& child.draws == 0
                &&& child.sims == 0
            },
    {
        if self.arena[leaf_node].unexpanded.len() == 0 {
            return leaf_node;
        }
        let count: usize = self.arena[leaf_node].unexpanded.len();
        let random_number: usize = random_below(&mut self.random_generator, count);
        let random_action = &self.arena[leaf_node].unexpanded[random_number];
        proof {
            assert(old(self).arena@[leaf_node as int].game_state.spec_actions().contains(
                old(self).arena@[leaf_node as int].unexpanded@[random_number as int],
            ));
        }
        let expanded_game_state = self.arena[leaf_node].game_state.apply_action(random_action);
        let expanded_unexpanded = expanded_game_state.generate_legal_actions();
        let child_capacity: usize = self.average_child_count;
        self.arena.push(
            MCTSNode {
                game_state: expanded_game_state,
                parent: Some(leaf_node),
                expanded: Vec::with_capacity(child_capacity),
                unexpanded: expanded_unexpanded,
                wins: 0,
                draws: 0,
                sims: 0,
            },
        );
        let expanded_node: usize = self.arena.len() - 1;
        self.arena[leaf_node].unexpanded.remove(random_number);
        self.arena[leaf_node].expanded.push(expanded_node);
        proof {
            let old_leaf = old(self).arena@[leaf_node as int];
            assert(0 <= random_number < old_leaf.unexpanded@.len()
                && self.arena@[leaf_node as int].unexpanded@ == old_leaf.unexpanded@.remove(
                random_number as int,
            ) && self.arena@[expanded_node as int].game_state.spec_provenance() == Some(
                old_leaf.unexpanded@[random_number as int],
            ) && call_ensures(
                GameStateObj::apply_action,
                (&old_leaf.game_state, &old_leaf.unexpanded@[random_number as int]),
                self.arena@[expanded_node as int].game_state,
            ));
            assert forall|a: int|
                0 <= a < self.arena@[leaf_node as int].unexpanded@.len() implies self.arena@[leaf_node as int].game_state.spec_actions().contains(
                #[trigger] self.arena@[leaf_node as int].unexpanded@[a],
            ) by {
                if a < random_number {
                    assert(self.arena@[leaf_node as int].unexpanded@[a] == old_leaf.unexpanded@[a]);
                } else {
                    assert(self.arena@[leaf_node as int].unexpanded@[a] == old_leaf.unexpanded@[a
                        + 1]);
                }
            }
            assert forall|i: int| 0 <= i < self.arena@.len() implies #[trigger] self.node_ok(
                i,
            ) by {
                if i < old(self).arena@.len() {
                    assert(old(self).node_ok(i));
                    if i == leaf_node {
                        let e = self.arena@[i].expanded@;
                        assert forall|k: int| 0 <= k < e.len() implies i < #[trigger] e[k]
                            < self.arena@.len() by {
                            if k < old_leaf.expanded@.len() {
                                assert(old_leaf.expanded@[k] == e[k]);
                            }
                        }
                    }
                }
            }
        }
        expanded_node
    }

    /// The chain of arena indices from `i` up to the root, inclusive:
    /// `[i, parent(i), ..., 0]`.
    pub open spec fn spec_path_to_root(self, i: usize) -> Seq<usize>
        decreases i,
        when self.wf() && i < self.arena@.len()
        via Self::spec_path_to_root_decreases
    {
        if self.arena@[i as int].parent is Some {
            seq![i] + self.spec_path_to_root(self.arena@[i as int].parent->0)
        } else {
            seq![i]
        }
    }

    #[via_fn]
    proof fn spec_path_to_root_decreases(self, i: usize) {
        assert(self.node_ok(i as int));
    }

    /// Shape of the root path: it starts at `i`, ends at the root (index 0,
    /// whose parent link is `None`), strictly descends through the arena,
    /// and each entry's parent link designates the next entry.
    pub proof fn lemma_path_to_root_props(self, i: usize)
        requires
            self.wf(),
            i < self.arena@.len(),
        ensures
            ({
                let p = self.spec_path_to_root(i);
                &&& p.len() >= 1
                &&& p[0] == i
                &&& p[p.len() - 1] == 0
                &&& self.arena@[p[p.len() - 1] as int].parent is None
                &&& (forall|a: int| 0 <= a < p.len() ==> #[trigger] p[a] <= i)
                &&& (forall|a: int, b: int| 0 <= a < b < p.len() ==> p[a] > p[b])
                &&& (forall|a: int|
                    0 <= a < p.len() - 1 ==> self.arena@[#[trigger] p[a] as int].parent == Some(
                        p[a + 1],
                    ))
            }),
        decreases i,
    {
        assert(self.node_ok(i as int));
        let p = self.spec_path_to_root(i);
        if self.arena@[i as int].parent is Some {
            let q = self.arena@[i as int].parent->0;
            self.lemma_path_to_root_props(q);
            let sub = self.spec_path_to_root(q);
            assert(p == seq![i] + sub);
            assert forall|a: int, b: int| 0 <= a < b < p.len() implies p[a] > p[b] by {
                if a == 0 {
                    assert(p[b] == sub[b - 1] && sub[b - 1] <= q < i);
                } else {
                    assert(p[a] == sub[a - 1] && p[b] == sub[b - 1]);
                }
            }
            assert forall|a: int| 0 <= a < p.len() - 1 implies self.arena@[#[trigger] p[a] as int].parent
                == Some(p[a + 1]) by {
                if a == 0 {
                    assert(p[0] == i && p[1] == sub[0] && sub[0] == q);
                } else {
                    assert(p[a] == sub[a - 1] && p[a + 1] == sub[a]);
                }
            }
        } else {
            assert(i == 0);
        }
    }

    /// One backpropagation step applied to a single node's statistics:
    /// `sims` always grows by one; a drawn rollout grows `draws`; a decisive
    /// rollout grows `wins` exactly when the winning side is the side that
    /// moved into this position (the opposite of the side due to move).
    pub open spec fn bp_update(
        n: MCTSNode<Action, GameStateObj>,
        result: GameResult,
    ) -> MCTSNode<Action, GameStateObj> {
        MCTSNode {
            wins: if result != GameResult::Draw && ((result == GameResult::FirstPlayerWin)
                == !n.game_state.spec_side_to_move()) {
                (n.wins + 1) as u32
            } else {
                n.wins
            },
            draws: if result == GameResult::Draw {
                (n.draws + 1) as u32
            } else {
                n.draws
            },
            sims: (n.sims + 1) as u32,
            ..n
        }
    }

    /// Backpropagates a game result up the tree, starting at `current_node`
    /// and walking parent links to the root, inclusive.
    ///
    /// Every visited node's simulation count grows by one; a draw grows its
    /// draw count, and a decisive result grows its win count exactly when
    /// the winner is the player who moved into that position. No other node
    /// and nothing else in the tree changes.
    pub fn backpropagate(&mut self, current_node: usize, result: GameResult)
        requires
            old(self).wf(),
            current_node < old(self).arena@.len(),
            forall|a: int|
                0 <= a < old(self).spec_path_to_root(current_node).len() ==> old(self).arena@[(
                #[trigger] old(self).spec_path_to_root(current_node)[a]) as int].sims < u32::MAX,
        ensures
            final(self).wf(),
            final(self).arena@.len() == old(self).arena@.len(),
            final(self).average_child_count == old(self).average_child_count,
            final(self).random_generator == old(self).random_generator,
            forall|j: int|
                0 <= j < old(self).arena@.len() ==> final(self).arena@[j] == (if old(
                    self,
                ).spec_path_to_root(current_node).contains(j as usize) {
                    Self::bp_update(old(self).arena@[j], result)
                } else {
                    old(self).arena@[j]
                }),
    {
        let ghost path = old(self).spec_path_to_root(current_node);
        proof {
            old(self).lemma_path_to_root_props(current_node);
        }
        let arena_len: usize = self.arena.len();
        let mut current: usize = current_node;
        let ghost mut k: int = 0;
        loop
            invariant
                old(self).wf(),
                current_node < old(self).arena@.len(),
                forall|a: int| 0 <= a < path.len() ==> old(self).arena@[(#[trigger] path[a]) as int].sims
                    < u32::MAX,
                path == old(self).spec_path_to_root(current_node),
                0 <= k < path.len(),
                current == path[k],
                current < self.arena@.len(),
                self.arena@.len() == old(self).arena@.len(),
                arena_len == old(self).arena@.len(),
                self.average_child_count == old(self).average_child_count,
                self.random_generator == old(self).random_generator,
                forall|a: int, b: int| 0 <= a < b < path.len() ==> path[a] > path[b],
                forall|a: int| 0 <= a < path.len() ==> #[trigger] path[a] <= current_node,
                forall|a: int|
                    0 <= a < path.len() - 1 ==> old(self).arena@[#[trigger] path[a] as int].parent
                        == Some(path[a + 1]),
                old(self).arena@[path[path.len() - 1] as int].parent is None,
                forall|j: int|
                    0 <= j < self.arena@.len() ==> self.arena@[j] == (if path.take(k).contains(
                        j as usize,
                    ) {
                        Self::bp_update(old(self).arena@[j], result)
                    } else {
                        old(self).arena@[j]
                    }),
            decreases path.len() - k,
        {
            proof {
                assert(!path.take(k).contains(path[k])) by {
                    if path.take(k).contains(path[k]) {
                        let a = choose|a: int| 0 <= a < k && path.take(k)[a] == path[k];
                        assert(path[a] > path[k]);
                    }
                }
                assert(self.arena@[current as int] == old(self).arena@[current as int]);
                assert(old(self).node_ok(current as int));
            }
            let node_ref = &mut self.arena[current];
            if result == GameResult::Draw {
                node_ref.draws = node_ref.draws + 1;
            } else {
                let result_bool: bool = result == GameResult::FirstPlayerWin;
                let side_bool: bool = !node_ref.game_state.side_to_move();
                if result_bool == side_bool {
                    node_ref.wins = node_ref.wins + 1;
                }
            }
            node_ref.sims = node_ref.sims + 1;
            let parent_link: Option<usize> = node_ref.parent;
            proof {
                assert forall|j: int| 0 <= j < self.arena@.len() implies self.arena@[j] == (if
                path.take(k + 1).contains(j as usize) {
                    Self::bp_update(old(self).arena@[j], result)
                } else {
                    old(self).arena@[j]
                }) by {
                    let tk = path.take(k);
                    let tk1 = path.take(k + 1);
                    if j == current as int {
                        assert(tk1[k] == path[k]);
                        assert(tk1.contains(j as usize));
                    } else {
                        assert(tk1[k] == path[k]);
                        if tk1.contains(j as usize) {
                            let a = choose|a: int| 0 <= a < tk1.len() && tk1[a] == j as usize;
                            assert(0 <= a < tk1.len() && tk1[a] == j as usize);
                            assert(tk1.len() == k + 1);
                            assert(a != k);
                            assert(tk1[a] == path[a]);
                            assert(tk[a] == path[a]);
                            assert(a < k && tk[a] == j as usize);
                            assert(tk.contains(j as usize));
                        }
                        if tk.contains(j as usize) {
                            let a = choose|a: int| 0 <= a < tk.len() && tk[a] == j as usize;
                            assert(tk1[a] == j as usize);
                            assert(tk1.contains(j as usize));
                        }
                    }
                }
            }
            match parent_link {
                None => {
                    proof {
                        if k < path.len() - 1 {
                            assert(old(self).arena@[path[k] as int].parent == Some(path[k + 1]));
                        }
                        assert(k == path.len() - 1);
                        assert(path.take(k + 1) == path);
                        assert forall|i: int| 0 <= i < self.arena@.len() implies #[trigger] self.node_ok(
                            i,
                        ) by {
                            assert(old(self).node_ok(i));
                            if path.contains(i as usize) {
                                assert(self.arena@[i] == Self::bp_update(
                                    old(self).arena@[i],
                                    result,
                                ));
                            }
                        }
                    }
                    return ;
                },
                Some(p) => {
                    proof {
                        if k == path.len() - 1 {
                            assert(old(self).arena@[path[k] as int].parent is None);
                        }
                        assert(old(self).arena@[path[k] as int].parent == Some(path[k + 1]));
                        assert(p == path[k + 1]);
                        assert(path[k + 1] < path[k] <= current_node < self.arena@.len());
                        k = k + 1;
                    }
                    current = p;
                },
            }
        }
    }

    /// Gives the list of arena indices that leads from the root's immediate
    /// child down to `current_node`, reconstructed by walking parent links
    /// upward and reversing. The root itself is not included, so the path of
    /// the root is empty; otherwise the path's last element is
    /// `current_node` and its first element is a direct child of the root.
    pub fn trace_path(&self, current_node: usize) -> (r: Vec<usize>)
        requires
            self.wf(),
            current_node < self.arena@.len(),
        ensures
            r@ == self.spec_path_to_root(current_node).drop_last().reverse(),
            self.arena@[current_node as int].parent is None ==> r@.len() == 0,
            r@.len() > 0 ==> r@[r@.len() - 1] == current_node && self.arena@[r@[0] as int].parent
                == Some(0usize),
    {
        let ghost path = self.spec_path_to_root(current_node);
        proof {
            self.lemma_path_to_root_props(current_node);
        }
        let mut upward: Vec<usize> = Vec::new();
        let mut current: usize = current_node;
        while self.arena[current].parent.is_some()
            invariant
                self.wf(),
                current_node < self.arena@.len(),
                path == self.spec_path_to_root(current_node),
                upward@.len() < path.len(),
                upward@ == path.take(upward@.len() as int),
                current == path[upward@.len() as int],
                current < self.arena@.len(),
                forall|a: int| 0 <= a < path.len() ==> #[trigger] path[a] < self.arena@.len(),
                forall|a: int|
                    0 <= a < path.len() - 1 ==> self.arena@[#[trigger] path[a] as int].parent
                        == Some(path[a + 1]),
                self.arena@[path[path.len() - 1] as int].parent is None,
            decreases path.len() - upward@.len(),
        {
            let ghost k = upward@.len() as int;
            upward.push(current);
            proof {
                assert(upward@ =~= path.take(k + 1));
                if k + 1 == path.len() {
                    assert(self.arena@[path[k] as int].parent is None);
                }
            }
            current = self.arena[current].parent.unwrap();
            proof {
                assert(self.arena@[path[k] as int].parent == Some(path[k + 1]));
            }
        }
        proof {
            let k = upward@.len() as int;
            if k < path.len() - 1 {
                assert(self.arena@[path[k] as int].parent == Some(path[k + 1]));
            }
            assert(k == path.len() - 1);
            assert(upward@ =~= path.drop_last());
        }
        let mut result_path: Vec<usize> = Vec::new();
        let mut remaining: usize = upward.len();
        while remaining > 0
            invariant
                remaining <= upward@.len(),
                result_path@.len() == upward@.len() - remaining,
                forall|a: int|
                    0 <= a < result_path@.len() ==> #[trigger] result_path@[a] == upward@[upward@.len()
                        - 1 - a],
            decreases remaining,
        {
            remaining = remaining - 1;
            result_path.push(upward[remaining]);
        }
        proof {
            assert(result_path@ =~= upward@.reverse());
            if path.len() > 1 {
                assert(result_path@[result_path@.len() - 1] == path[0]);
                assert(result_path@[0] == path[path.len() - 2]);
                assert(self.arena@[path[path.len() - 2] as int].parent == Some(
                    path[path.len() - 1],
                ));
            }
        }
        result_path
    }

    /// Well-formedness only looks at the arena: two trees with the same
    /// arena are equally well formed.
    pub proof fn lemma_wf_same_arena(a: Self, b: Self)
        requires
            a.wf(),
            a.arena@ == b.arena@,
        ensures
            b.wf(),
    {
        assert forall|i: int| 0 <= i < b.arena@.len() implies #[trigger] b.node_ok(i) by {
            assert(a.node_ok(i));
        }
    }

    /// A position where a rollout stops: no legal actions remain, or the
    /// rules declare the game over despite remaining actions.
    pub open spec fn spec_terminal(s: GameStateObj) -> bool {
        s.spec_actions().len() == 0 || !s.spec_status_with_moves_left()
    }

    /// One rollout step: some legal action of `pre`, applied through the
    /// game's `apply_action`, can yield `post`.
    pub open spec fn rollout_step(pre: GameStateObj, post: GameStateObj) -> bool {
        exists|a: Action|
            pre.spec_actions().contains(a) && call_ensures(
                GameStateObj::apply_action,
                (&pre, &a),
                post,
            )
    }

    /// A witness that `r` is a faithful rollout outcome from `start` within
    /// `cap` moves: a chain of positions that starts at `start`, steps
    /// through legal actions, passes no terminal position on the way, and
    /// either ends at a terminal position whose result is `r`, or has used
    /// up the full move cap, in which case `r` is a forced draw.
    pub open spec fn rollout_chain_ok(
        start: GameStateObj,
        chain: Seq<GameStateObj>,
        cap: int,
        r: GameResult,
    ) -> bool {
        &&& 1 <= chain.len() <= cap + 1
        &&& chain[0] == start
        &&& (forall|q: int|
            0 <= q < chain.len() - 1 ==> Self::rollout_step(#[trigger] chain[q], chain[q + 1]))
        &&& (forall|q: int| 0 <= q < chain.len() - 1 ==> !Self::spec_terminal(#[trigger] chain[q]))
        &&& if Self::spec_terminal(chain.last()) {
            r == chain.last().spec_result()
        } else {
            chain.len() == cap + 1 && r == GameResult::Draw
        }
    }

    /// What a rollout from `start` may report: some chain of at most `cap`
    /// legal moves justifies the result.
    pub open spec fn spec_rollout_outcome(start: GameStateObj, cap: int, r: GameResult) -> bool {
        exists|chain: Seq<GameStateObj>| Self::rollout_chain_ok(start, chain, cap, r)
    }

    /// Randomly selects possible moves for both players from `node`'s
    /// position until a terminal state is reached, and returns the outcome.
    ///
    /// The node's state is only read, never mutated, and the tree itself
    /// does not change: only the random generator state advances. If the
    /// starting position is already terminal the reported outcome is exactly
    /// that position's result, with no randomness consumed. Rollouts are
    /// hard-capped at 200 moves: a game still running after 200 applied
    /// actions is reported as a forced draw.
    pub fn simulate(&mut self, node: usize) -> (r: GameResult)
        requires
            old(self).wf(),
            node < old(self).arena@.len(),
        ensures
            final(self).arena@ == old(self).arena@,
            final(self).average_child_count == old(self).average_child_count,
            final(self).wf(),
            Self::spec_terminal(old(self).arena@[node as int].game_state) ==> r == old(
                self,
            ).arena@[node as int].game_state.spec_result() && final(self).random_generator == old(
                self,
            ).random_generator,
            Self::spec_rollout_outcome(old(self).arena@[node as int].game_state, 200, r),
    {
        let ghost start = old(self).arena@[node as int].game_state;
        let start_actions = self.arena[node].game_state.generate_legal_actions();
        if start_actions.len() == 0 || !self.arena[node].game_state.status_with_moves_left() {
            proof {
                assert(Self::rollout_chain_ok(start, seq![start], 200, start.spec_result()));
            }
            return self.arena[node].game_state.result();
        }
        // The first move is drawn from the node's own action list and
        // applied to the node's state directly; every later position is
        // owned by the rollout.
        let first_choice: usize = random_below(&mut self.random_generator, start_actions.len());
        let ghost first_action = start_actions@[first_choice as int];
        let mut game_state: GameStateObj = self.arena[node].game_state.apply_action(
            &start_actions[first_choice],
        );
        let mut actions = game_state.generate_legal_actions();
        let mut count: u32 = 1;
        let ghost mut chain: Seq<GameStateObj> = seq![start, game_state];
        proof {
            assert(start.spec_actions().contains(first_action) && call_ensures(
                GameStateObj::apply_action,
                (&start, &first_action),
                game_state,
            ));
            assert(Self::rollout_step(start, game_state));
        }
        while actions.len() > 0 && game_state.status_with_moves_left()
            invariant
                1 <= count <= 200,
                start == old(self).arena@[node as int].game_state,
                chain.len() == count + 1,
                chain[0] == start,
                chain.last() == game_state,
                actions@ == game_state.spec_actions(),
                forall|q: int|
                    0 <= q < chain.len() - 1 ==> Self::rollout_step(
                        #[trigger] chain[q],
                        chain[q + 1],
                    ),
                forall|q: int|
                    0 <= q < chain.len() - 1 ==> !Self::spec_terminal(#[trigger] chain[q]),
                old(self).wf(),
                node < self.arena@.len(),
                self.arena@ == old(self).arena@,
                self.average_child_count == old(self).average_child_count,
            decreases 200 - count,
        {
            if count >= 200 {
                proof {
                    Self::lemma_wf_same_arena(*old(self), *self);
                    assert(!Self::spec_terminal(chain[0]));
                    assert(!Self::spec_terminal(game_state));
                    assert(Self::rollout_chain_ok(start, chain, 200, GameResult::Draw));
                    assert(Self::spec_rollout_outcome(start, 200, GameResult::Draw));
                }
                return GameResult::Draw;
            }
            let n_actions: usize = actions.len();
            let random_number: usize = random_below(&mut self.random_generator, n_actions);
            let ghost previous = game_state;
            let ghost picked = actions@[random_number as int];
            proof {
                assert(!Self::spec_terminal(previous));
            }
            game_state = game_state.apply_action(&actions[random_number]);
            actions = game_state.generate_legal_actions();
            count = count + 1;
            proof {
                assert(previous.spec_actions().contains(picked) && call_ensures(
                    GameStateObj::apply_action,
                    (&previous, &picked),
                    game_state,
                ));
                assert(Self::rollout_step(previous, game_state));
                let prev_chain = chain;
                chain = prev_chain.push(game_state);
                assert(chain.last() == game_state && prev_chain.last() == previous);
                assert forall|q: int| 0 <= q < chain.len() - 1 implies Self::rollout_step(
                    #[trigger] chain[q],
                    chain[q + 1],
                ) by {
                    if q < chain.len() - 2 {
                        assert(chain[q] == prev_chain[q] && chain[q + 1] == prev_chain[q + 1]);
                    } else {
                        assert(chain[q] == previous && chain[q + 1] == game_state);
                    }
                }
                assert forall|q: int| 0 <= q < chain.len() - 1 implies !Self::spec_terminal(
                    #[trigger] chain[q],
                ) by {
                    if q < chain.len() - 2 {
                        assert(chain[q] == prev_chain[q]);
                    } else {
                        assert(chain[q] == previous);
                    }
                }
            }
        }
        proof {
            Self::lemma_wf_same_arena(*old(self), *self);
            assert(Self::spec_terminal(game_state));
            assert(Self::rollout_chain_ok(start, chain, 200, game_state.spec_result()));
        }
        game_state.result()
    }
}

} // verus!
