//! Best-first search over boards, with a history-based pruning of branches
//! that stop making progress, and the choice among several searches.

use vstd::prelude::*;
use crate::board::{Board, BoardView, TerminalPolicy, is_terminal_under, card_count, board_cards};
use crate::moves::{Move, is_successor, move_is_legal, same_action, lemma_line_counts, after_move};
use crate::confluence::uncontested_from;

verus! {

/// The window size that never prunes.
pub const UNBOUNDED: usize = 0;

/// The most cards that a window of moves may advance and still count as stagnant.
pub const MINIMUM_PROGRESS: usize = 1;

/// Sum of the advanced-card counts of the first `n` moves of `h`.
pub open spec fn recent_sucks(h: Seq<Move>, n: int) -> int
    decreases n,
{
    if n <= 0 || h.len() == 0 {
        0
    } else {
        recent_sucks(h, n - 1) + h[n - 1].num_sucks
    }
}

/// A branch is pruned when the window is bounded, the history holds a whole
/// window of moves, and those moves advanced at most one card in all.
pub open spec fn stagnant(h: Seq<Move>, window: usize) -> bool {
    &&& window != UNBOUNDED
    &&& h.len() >= window
    &&& recent_sucks(h, window as int) <= MINIMUM_PROGRESS
}

/// The history after `m`, most recent first, cut to the window.
pub open spec fn push_history(h: Seq<Move>, m: Move, window: usize) -> Seq<Move> {
    let full = seq![m] + h;
    if full.len() <= window {
        full
    } else {
        full.subrange(0, window as int)
    }
}

/// A state of the search: a board, the recent moves that led to it (most
/// recent first) and the move that made it. Two states are the same when
/// their boards are; the history only serves pruning.
#[derive(Debug, Clone)]
pub struct SearchNode {
    pub board: Board,
    pub history: Vec<Move>,
    pub last_move: Option<Move>,
}

/// The content of a search state.
pub struct NodeView {
    pub board: BoardView,
    pub history: Seq<Move>,
    pub last_move: Option<Move>,
}

impl View for SearchNode {
    type V = NodeView;

    open spec fn view(&self) -> NodeView {
        NodeView { board: self.board@, history: self.history@, last_move: self.last_move }
    }
}

impl PartialEq for SearchNode {
    fn eq(&self, other: &SearchNode) -> (r: bool) {
        self.board.same_position(&other.board)
    }
}

impl vstd::std_specs::cmp::PartialEqSpecImpl for SearchNode {
    open spec fn obeys_eq_spec() -> bool {
        true
    }

    open spec fn eq_spec(&self, other: &SearchNode) -> bool {
        self.board@ == other.board@
    }
}

impl Eq for SearchNode {

}

impl core::hash::Hash for SearchNode {
    /// Relies on the derived `Hash` of `Board`: hashing the board alone keeps
    /// the hash in step with `==`, which compares boards only.
    #[verifier::external_body]
    fn hash<H: core::hash::Hasher>(&self, state: &mut H) {
        self.board.hash(state);
    }
}


/// `w` is a successor of `n` in the search: `n` is not pruned, and `w` is the
/// board of a generated move from `n`'s board, with the history grown by it.
pub open spec fn node_successor(n: NodeView, w: NodeView, window: usize) -> bool {
    &&& !stagnant(n.history, window)
    &&& w.last_move is Some
    &&& is_successor(n.board, w.board, w.last_move.unwrap())
    &&& w.history == push_history(n.history, w.last_move.unwrap(), window)
}

/// A path the search may report: it starts at `start`, each state follows
/// from the one before, and it ends at a board solved under `policy`.
pub open spec fn is_search_path(
    start: NodeView,
    path: Seq<SearchNode>,
    window: usize,
    policy: TerminalPolicy,
) -> bool {
    &&& path.len() >= 1
    &&& path[0]@ == start
    &&& is_terminal_under(path.last().board@, policy)
    &&& forall|i: int| 0 <= i < path.len() ==> (#[trigger] path[i]).board.wf()
    &&& forall|i: int|
        0 <= i < path.len() - 1 ==> node_successor(#[trigger] path[i]@, path[i + 1]@, window)
}

/// Along `path`, no cascade after a move meets two competing ready cards, so
/// each move has exactly one outcome.
pub open spec fn cascades_uncontested(path: Seq<SearchNode>) -> bool {
    forall|i: int|
        0 <= i < path.len() - 1 ==> uncontested_from(
            after_move(#[trigger] path[i].board@, path[i + 1].last_move.unwrap()),
        )
}

/// Some path that the search may report from `start` exists, with every
/// cascade on it uncontested.
pub open spec fn solvable_from(start: NodeView, window: usize, policy: TerminalPolicy) -> bool {
    exists|p: Seq<SearchNode>| #[trigger] is_search_path(start, p, window, policy) && cascades_uncontested(p)
}

/// Conservation along the search: every board on a path the search may
/// report holds the same cards as the first.
pub proof fn lemma_search_path_conserves(
    start: NodeView,
    path: Seq<SearchNode>,
    window: usize,
    policy: TerminalPolicy,
)
    requires
        is_search_path(start, path, window, policy),
    ensures
        forall|i: int| 0 <= i < path.len() ==> board_cards(#[trigger] path[i].board@) == board_cards(path[0].board@),
        forall|i: int| 0 <= i < path.len() ==> card_count(#[trigger] path[i].board@) == card_count(path[0].board@),
{
    let boards = Seq::new(path.len(), |i: int| path[i].board@);
    let moves = Seq::new((path.len() - 1) as nat, |i: int| path[i + 1].last_move.unwrap());
    assert forall|i: int| 0 <= i < moves.len() implies is_successor(#[trigger] boards[i], boards[i + 1], moves[i]) by {
        assert(node_successor(path[i]@, path[i + 1]@, window));
    }
    assert(path[0].board.wf());
    assert forall|i: int| 0 <= i < path.len() implies card_count(#[trigger] path[i].board@) == card_count(path[0].board@) by {
        lemma_line_counts(boards, moves, i);
    }
    assert forall|i: int| 0 <= i < path.len() implies board_cards(#[trigger] path[i].board@) == board_cards(path[0].board@) by {
        lemma_line_counts(boards, moves, i);
    }
}

/// Partial sums of counts never decrease.
pub proof fn lemma_recent_sucks_monotone(h: Seq<Move>, i: int, j: int)
    requires
        0 <= i <= j,
    ensures
        recent_sucks(h, i) <= recent_sucks(h, j),
    decreases j - i,
{
    if i < j {
        lemma_recent_sucks_monotone(h, i, j - 1);
    }
}

/// The pruning test, apart from the board: whether the last `window` moves
/// of `history` advanced at most one card in all.
pub fn is_stagnant(history: &Vec<Move>, window: usize) -> (r: bool)
    ensures
        r == stagnant(history@, window),
{
    if window == UNBOUNDED || history.len() < window {
        return false;
    }
    let mut sum: usize = 0;
    let mut i: usize = 0;
    while i < window
        invariant
            i <= window <= history@.len(),
            window != UNBOUNDED,
            sum == recent_sucks(history@, i as int),
            sum <= MINIMUM_PROGRESS,
        decreases window - i,
    {
        let n = history[i].num_sucks;
        if n > MINIMUM_PROGRESS - sum {
            proof {
                lemma_recent_sucks_monotone(history@, i as int + 1, window as int);
            }
            return false;
        }
        sum = sum + n;
        i += 1;
    }
    true
}

/// The history after move `m`: `m` first, then the older moves, cut to the window.
pub fn extend_history(history: &Vec<Move>, m: Move, window: usize) -> (r: Vec<Move>)
    ensures
        r@ == push_history(history@, m, window),
{
    let mut r: Vec<Move> = Vec::new();
    if window == 0 {
        assert(r@ =~= push_history(history@, m, window));
        return r;
    }
    r.push(m);
    let mut i: usize = 0;
    while i < history.len() && r.len() < window
        invariant
            i <= history@.len(),
            r@.len() == i + 1,
            r@.len() <= window,
            r@ == (seq![m] + history@).subrange(0, i + 1),
        decreases history@.len() - i,
    {
        r.push(history[i]);
        i += 1;
        assert(r@ =~= (seq![m] + history@).subrange(0, i + 1));
    }
    assert(r@ =~= push_history(history@, m, window));
    r
}

impl SearchNode {
    /// The start state of a search from `board`: no history, no move.
    pub fn start(board: &Board) -> (r: SearchNode)
        ensures
            r@ == (NodeView { board: board@, history: Seq::empty(), last_move: None }),
    {
        SearchNode { board: board.duplicate(), history: Vec::new(), last_move: None }
    }

    /// The successors of this state, each with edge cost 0: none when the
    /// branch is stagnant, else one per generated move.
    pub fn successors(&self, window: usize) -> (r: Vec<(SearchNode, usize)>)
        requires
            self.board.wf(),
        ensures
            forall|k: int|
                0 <= k < r@.len() ==> {
                    &&& #[trigger] r@[k].1 == 0
                    &&& r@[k].0.board.wf()
                    &&& node_successor(self@, r@[k].0@, window)
                },
            stagnant(self.history@, window) ==> r@.len() == 0,
            !stagnant(self.history@, window) ==> forall|m: Move|
                #[trigger] move_is_legal(self.board@, m) ==> exists|k: int|
                    0 <= k < r@.len() && r@[k].0.last_move is Some && #[trigger] same_action(r@[k].0.last_move.unwrap(), m),
    {
        let mut r: Vec<(SearchNode, usize)> = Vec::new();
        if is_stagnant(&self.history, window) {
            return r;
        }
        let next = self.board.next_boards();
        let mut i: usize = 0;
        while i < next.len()
            invariant
                i <= next@.len(),
                r@.len() == i,
                !stagnant(self.history@, window),
                forall|k: int| 0 <= k < next@.len() ==> #[trigger] next@[k].0.wf() && is_successor(self.board@, next@[k].0@, next@[k].1),
                forall|m: Move| #[trigger] move_is_legal(self.board@, m) ==> exists|k: int| 0 <= k < next@.len() && #[trigger] same_action(next@[k].1, m),
                forall|k: int|
                    0 <= k < i ==> {
                        &&& #[trigger] r@[k].1 == 0
                        &&& r@[k].0.board.wf()
                        &&& node_successor(self@, r@[k].0@, window)
                        &&& r@[k].0.last_move == Some(next@[k].1)
                    },
            decreases next@.len() - i,
        {
            let m = next[i].1;
            let node = SearchNode {
                board: next[i].0.duplicate(),
                history: extend_history(&self.history, m, window),
                last_move: Some(m),
            };
            let ghost before = r@;
            r.push((node, 0));
            proof {
                assert(next@[i as int].0.wf() && is_successor(self.board@, next@[i as int].0@, next@[i as int].1));
                assert forall|k: int| 0 <= k < i + 1 implies {
                    &&& #[trigger] r@[k].1 == 0
                    &&& r@[k].0.board.wf()
                    &&& node_successor(self@, r@[k].0@, window)
                    &&& r@[k].0.last_move == Some(next@[k].1)
                } by {
                    if k < i {
                        assert(r@[k] == before[k]);
                    }
                }
            }
            i += 1;
        }
        proof {
            assert forall|m: Move| #[trigger] move_is_legal(self.board@, m) implies exists|k: int|
                0 <= k < r@.len() && r@[k].0.last_move is Some && #[trigger] same_action(r@[k].0.last_move.unwrap(), m) by {
                let k = choose|k: int| 0 <= k < next@.len() && #[trigger] same_action(next@[k].1, m);
                assert(r@[k].1 == 0);
                assert(r@[k].0.last_move == Some(next@[k].1));
            }
        }
        r
    }
}

/// Relies on `pathfinding::directed::astar::astar`: the path it returns begins
/// with a clone of `start`, ends at a state for which the goal test holds, and
/// each later state was handed out by the successor function for the state
/// before it (all edges cost 0, so no state is ever given a new parent). The
/// successor function keeps boards well formed, so every state on the path is.
/// It tests the goal on the start before expanding anything, and then returns
/// the path of that one state. It returns `None` only once every state it
/// reached has been expanded; with the unbounded window the successors of a
/// state depend on its board alone, so when an uncontested path to the goal
/// exists, every board on it is reached and the search cannot end empty.
#[verifier::external_body]
fn best_first(start: &SearchNode, window: usize, policy: TerminalPolicy) -> (r: Option<Vec<SearchNode>>)
    requires
        start.board.wf(),
    ensures
        r matches Some(path) ==> is_search_path(start@, path@, window, policy),
        is_terminal_under(start.board@, policy) ==> (r is Some && r.unwrap()@.len() == 1),
        window == UNBOUNDED && solvable_from(start@, window, policy) ==> r is Some,
{
    pathfinding::directed::astar::astar(
        start,
        |n: &SearchNode| n.successors(window),
        |n: &SearchNode| n.board.num_cards_remaining(),
        |n: &SearchNode| n.board.is_done_under(policy),
    ).map(|found| found.0)
}

/// Best-first search from `board` with the given stagnation window (0 for
/// none), guided by the count of cards still in play, until a board solved
/// under `policy`. A path found starts at `board`; `None` means the search
/// ran out of states.
pub fn solve_under(board: &Board, window: usize, policy: TerminalPolicy) -> (r: Option<Vec<SearchNode>>)
    requires
        board.wf(),
    ensures
        r matches Some(path) ==> is_search_path(
            NodeView { board: board@, history: Seq::empty(), last_move: None },
            path@,
            window,
            policy,
        ),
        is_terminal_under(board@, policy) ==> (r is Some && r.unwrap()@.len() == 1),
        window == UNBOUNDED && solvable_from(
            NodeView { board: board@, history: Seq::empty(), last_move: None },
            window,
            policy,
        ) ==> r is Some,
{
    let start = SearchNode::start(board);
    best_first(&start, window, policy)
}

/// The search as the game is played: a board counts as solved once its
/// tableau is empty, even with a card still held.
pub fn solve(board: &Board, window: usize) -> (r: Option<Vec<SearchNode>>)
    requires
        board.wf(),
    ensures
        r matches Some(path) ==> is_search_path(
            NodeView { board: board@, history: Seq::empty(), last_move: None },
            path@,
            window,
            TerminalPolicy::TableauEmpty,
        ),
        is_terminal_under(board@, TerminalPolicy::TableauEmpty) ==> (r is Some && r.unwrap()@.len() == 1),
        window == UNBOUNDED && solvable_from(
            NodeView { board: board@, history: Seq::empty(), last_move: None },
            window,
            TerminalPolicy::TableauEmpty,
        ) ==> r is Some,
{
    solve_under(board, window, TerminalPolicy::TableauEmpty)
}

/// The moves along a path, one per state after the first.
pub fn path_moves(path: &Vec<SearchNode>) -> (r: Vec<Move>)
    ensures
        path@.len() >= 1 && (forall|i: int| 1 <= i < path@.len() ==> (#[trigger] path@[i]).last_move is Some)
            ==> r@ == Seq::new((path@.len() - 1) as nat, |i: int| path@[i + 1].last_move.unwrap()),
{
    let mut r: Vec<Move> = Vec::new();
    let mut i: usize = 1;
    let ghost all_moved = path@.len() >= 1 && (forall|i: int| 1 <= i < path@.len() ==> (#[trigger] path@[i]).last_move is Some);
    while i < path.len()
        invariant
            1 <= i,
            all_moved ==> i <= path@.len(),
            all_moved == (path@.len() >= 1 && (forall|i: int| 1 <= i < path@.len() ==> (#[trigger] path@[i]).last_move is Some)),
            all_moved ==> r@ == Seq::new((i - 1) as nat, |j: int| path@[j + 1].last_move.unwrap()),
        decreases path@.len() - i,
    {
        if let Some(m) = path[i].last_move {
            r.push(m);
        }
        i += 1;
        proof {
            if all_moved {
                assert(r@ =~= Seq::new((i - 1) as nat, |j: int| path@[j + 1].last_move.unwrap()));
            }
        }
    }
    r
}

/// The successful result with the fewest states, the first such in order;
/// `None` when no result succeeded.
pub fn select_shortest<T>(results: Vec<Option<Vec<T>>>) -> (r: Option<Vec<T>>)
    ensures
        r is None <==> forall|i: int| 0 <= i < results@.len() ==> (#[trigger] results@[i]) is None,
        r matches Some(best) ==> exists|i: int|
            {
                &&& 0 <= i < results@.len()
                &&& #[trigger] results@[i] == Some(best)
                &&& forall|j: int| 0 <= j < i ==> (#[trigger] results@[j] matches Some(p) ==> p@.len() > best@.len())
                &&& forall|j: int| i < j < results@.len() ==> (#[trigger] results@[j] matches Some(p) ==> p@.len() >= best@.len())
            },
{
    let mut best: Option<usize> = None;
    let mut i: usize = 0;
    while i < results.len()
        invariant
            i <= results@.len(),
            best is None ==> forall|j: int| 0 <= j < i ==> (#[trigger] results@[j]) is None,
            best matches Some(b) ==> {
                &&& b < i
                &&& results@[b as int] is Some
                &&& forall|j: int| 0 <= j < b ==> (#[trigger] results@[j] matches Some(p) ==> p@.len() > results@[b as int].unwrap()@.len())
                &&& forall|j: int| b < j < i ==> (#[trigger] results@[j] matches Some(p) ==> p@.len() >= results@[b as int].unwrap()@.len())
            },
        decreases results@.len() - i,
    {
        if let Some(p) = &results[i] {
            let better = match best {
                None => true,
                Some(b) => match &results[b] {
                    Some(q) => p.len() < q.len(),
                    None => false,
                },
            };
            if better {
                best = Some(i);
            }
        }
        i += 1;
    }
    match best {
        None => None,
        Some(b) => {
            let mut results = results;
            let r = results.swap_remove(b);
            r
        },
    }
}
} // verus!
