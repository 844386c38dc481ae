//! Turn-based game engine.
//!
//! A game holds exactly the state of one match: the participants in join
//! order, an append-only board of move steps, the active participant index,
//! and a phase.  Moves are legal only for the active participant and only
//! while their size is between 1 and the configured maximum; a move that
//! brings the board length to the configured threshold ends the game.  After
//! game over, each participant may vote for a rematch by joining again; once
//! every participant has voted, the board clears and play resumes with the
//! active index unchanged.

use vstd::prelude::*;

verus! {

/// The phase of one match.
#[derive(Clone, Copy, PartialEq, Eq, Structural, Debug)]
pub enum GamePhase {
    WaitingForPlayers,
    WaitingOnMove,
    GameOver,
}

/// The mathematical model of a game: every field a game engine carries,
/// as sequences and integers.
#[verifier::ext_equal]
pub ghost struct GameView {
    pub names: Seq<Seq<char>>,
    pub ids: Seq<usize>,
    pub restart: Seq<usize>,
    pub board: Seq<u8>,
    pub active: int,
    pub max_players: int,
    pub max_move: int,
    pub board_size: int,
    pub phase: GamePhase,
}

/// Well-formedness of a game model: parallel participant lists, one-byte
/// identifiers, the active index valid once the game has started, the
/// rematch votes distinct and strictly fewer than the participants while
/// the game is over, and every board entry a valid participant index.
pub open spec fn game_wf(v: GameView) -> bool {
    &&& v.names.len() == v.ids.len()
    &&& v.ids.len() <= 255
    &&& (forall|i: int| 0 <= i < v.ids.len() ==> #[trigger] v.ids[i] <= 255)
    &&& 0 <= v.active <= 255
    &&& 0 <= v.max_players <= 255
    &&& 0 <= v.max_move <= 255
    &&& 0 <= v.board_size <= 255
    &&& (forall|i: int| 0 <= i < v.board.len() ==> (#[trigger] v.board[i]) < v.ids.len())
    &&& match v.phase {
        GamePhase::WaitingForPlayers => {
            &&& v.board.len() == 0
            &&& v.restart.len() == 0
            &&& (v.ids.len() < v.max_players || v.ids.len() == 0)
        },
        GamePhase::WaitingOnMove => {
            &&& v.restart.len() == 0
            &&& v.ids.len() >= 1
            &&& v.active < v.ids.len()
        },
        GamePhase::GameOver => {
            &&& v.ids.len() >= 1
            &&& v.active < v.ids.len()
            &&& v.restart.len() < v.ids.len()
            &&& v.restart.no_duplicates()
        },
    }
}

/// The model of a freshly created game.
pub open spec fn init_game(max_players: u8, max_move: u8, board_size: u8) -> GameView {
    GameView {
        names: Seq::empty(),
        ids: Seq::empty(),
        restart: Seq::empty(),
        board: Seq::empty(),
        active: 255,
        max_players: max_players as int,
        max_move: max_move as int,
        board_size: board_size as int,
        phase: GamePhase::WaitingForPlayers,
    }
}

/// Joining.  While waiting for players the participant is appended; reaching
/// the configured count starts the game with active index 0.  During play
/// joining is a no-op.  After game over it is a rematch vote: once every
/// participant has voted, votes and board clear and play resumes.
pub open spec fn step_add_player(v: GameView, player_id: usize, name: Seq<char>) -> GameView {
    match v.phase {
        GamePhase::WaitingForPlayers => {
            let joined = GameView { names: v.names.push(name), ids: v.ids.push(player_id), ..v };
            if joined.ids.len() >= v.max_players {
                GameView { active: 0, phase: GamePhase::WaitingOnMove, ..joined }
            } else {
                joined
            }
        },
        GamePhase::WaitingOnMove => v,
        GamePhase::GameOver => {
            let votes = if v.restart.contains(player_id) {
                v.restart
            } else {
                v.restart.push(player_id)
            };
            if votes.len() == v.ids.len() {
                GameView {
                    restart: Seq::empty(),
                    board: Seq::empty(),
                    phase: GamePhase::WaitingOnMove,
                    ..v
                }
            } else {
                GameView { restart: votes, ..v }
            }
        },
    }
}

/// Moving, by the participant at index `player`.  Legal only during play,
/// by the active participant, with a size between 1 and the maximum; an
/// illegal move changes nothing.  A legal move appends the mover's index
/// `size` times; if the board then reaches the threshold the game is over,
/// otherwise the turn passes to the next participant.
pub open spec fn step_move_player(v: GameView, player: int, size: u8) -> GameView {
    match v.phase {
        GamePhase::WaitingOnMove => {
            if player != v.active {
                v
            } else if size < 1 || size > v.max_move {
                v
            } else {
                let board = v.board + Seq::new(size as nat, |i: int| v.active as u8);
                if board.len() >= v.board_size {
                    GameView { board, phase: GamePhase::GameOver, ..v }
                } else {
                    GameView { board, active: (v.active + 1) % (v.ids.len() as int), ..v }
                }
            }
        },
        _ => v,
    }
}

/// Overriding the active index, to the participant at index `player`.
/// Allowed only during play and only while no move has been made.
pub open spec fn step_set_active_player(v: GameView, player: int) -> GameView {
    if v.phase == GamePhase::WaitingOnMove && v.board.len() == 0 {
        GameView { active: player, ..v }
    } else {
        v
    }
}

/// Well-formedness is preserved by joining, for any one-byte identifier.
pub proof fn lemma_step_add_player_wf(v: GameView, player_id: usize, name: Seq<char>)
    requires
        game_wf(v),
        player_id <= 255,
    ensures
        game_wf(step_add_player(v, player_id, name)),
{
    match v.phase {
        GamePhase::GameOver => {
            if !v.restart.contains(player_id) {
                let votes = v.restart.push(player_id);
                assert forall|i: int, j: int| 0 <= i < j < votes.len() implies votes[i]
                    != votes[j] by {
                    if j == votes.len() - 1 && votes[i] == player_id {
                        assert(v.restart[i] == player_id);
                        assert(v.restart.contains(player_id));
                    }
                }
                assert(votes.no_duplicates());
            }
        },
        _ => {},
    }
}

/// Well-formedness is preserved by moving.
pub proof fn lemma_step_move_player_wf(v: GameView, player: int, size: u8)
    requires
        game_wf(v),
    ensures
        game_wf(step_move_player(v, player, size)),
{
}

/// Well-formedness is preserved by overriding the active index, when the
/// new index is a valid participant index.
pub proof fn lemma_step_set_active_player_wf(v: GameView, player: int)
    requires
        game_wf(v),
        0 <= player < v.ids.len(),
    ensures
        game_wf(step_set_active_player(v, player)),
{
}

/// The identifiers of a sequence of joins, in order.
pub open spec fn join_ids(joins: Seq<(usize, Seq<char>)>) -> Seq<usize> {
    joins.map_values(|j: (usize, Seq<char>)| j.0)
}

/// The names of a sequence of joins, in order.
pub open spec fn join_names(joins: Seq<(usize, Seq<char>)>) -> Seq<Seq<char>> {
    joins.map_values(|j: (usize, Seq<char>)| j.1)
}

/// The game reached by a sequence of joins, applied in order.
pub open spec fn apply_joins(v: GameView, joins: Seq<(usize, Seq<char>)>) -> GameView
    decreases joins.len(),
{
    if joins.len() == 0 {
        v
    } else {
        apply_joins(step_add_player(v, joins[0].0, joins[0].1), joins.skip(1))
    }
}

proof fn lemma_joins_fill(v: GameView, joins: Seq<(usize, Seq<char>)>)
    requires
        game_wf(v),
        v.phase == GamePhase::WaitingForPlayers,
        joins.len() >= 1,
        v.ids.len() + joins.len() == v.max_players,
        forall|j: int| 0 <= j < joins.len() ==> (#[trigger] joins[j].0) <= 255,
    ensures
        apply_joins(v, joins).phase == GamePhase::WaitingOnMove,
        apply_joins(v, joins).active == 0,
        apply_joins(v, joins).ids =~= v.ids + join_ids(joins),
        apply_joins(v, joins).names =~= v.names + join_names(joins),
        apply_joins(v, joins).board.len() == 0,
        forall|k: int|
            0 <= k < joins.len() ==> apply_joins(v, joins.take(k)).phase
                == GamePhase::WaitingForPlayers,
    decreases joins.len(),
{
    let v1 = step_add_player(v, joins[0].0, joins[0].1);
    lemma_step_add_player_wf(v, joins[0].0, joins[0].1);
    assert(apply_joins(v, joins) == apply_joins(v1, joins.skip(1)));
    if joins.len() == 1 {
        assert(v1.ids =~= v.ids + join_ids(joins));
        assert(v1.names =~= v.names + join_names(joins));
        assert(apply_joins(v, joins.take(0)) == v);
    } else {
        assert(v1.phase == GamePhase::WaitingForPlayers);
        lemma_joins_fill(v1, joins.skip(1));
        assert(apply_joins(v1, joins.skip(1)).ids =~= v1.ids + join_ids(joins.skip(1)));
        assert(v1.ids + join_ids(joins.skip(1)) =~= v.ids + join_ids(joins));
        assert(v1.names + join_names(joins.skip(1)) =~= v.names + join_names(joins));
        assert forall|k: int|
            0 <= k < joins.len() implies apply_joins(v, joins.take(k)).phase
            == GamePhase::WaitingForPlayers by {
            if k == 0 {
                assert(apply_joins(v, joins.take(0)) == v);
            } else {
                let p = joins.take(k);
                assert(p[0] == joins[0]);
                assert(p.skip(1) =~= joins.skip(1).take(k - 1));
                assert(apply_joins(v, p) == apply_joins(v1, joins.skip(1).take(k - 1)));
            }
        }
    }
}

/// Law: starting from a fresh game whose player limit is at least one, a
/// sequence of joins of exactly that length starts play exactly once: every
/// strict prefix leaves the game waiting for players, and the full sequence
/// leaves it waiting on a move with active index 0, the participants being
/// the joined identifiers and names in join order, and an empty board.
pub proof fn lemma_joins_start_game(
    max_players: u8,
    max_move: u8,
    board_size: u8,
    joins: Seq<(usize, Seq<char>)>,
)
    requires
        max_players >= 1,
        joins.len() == max_players,
        forall|j: int| 0 <= j < joins.len() ==> (#[trigger] joins[j].0) <= 255,
    ensures
        ({
            let r = apply_joins(init_game(max_players, max_move, board_size), joins);
            &&& r.phase == GamePhase::WaitingOnMove
            &&& r.active == 0
            &&& r.ids == join_ids(joins)
            &&& r.names == join_names(joins)
            &&& r.board.len() == 0
        }),
        forall|k: int|
            0 <= k < joins.len() ==> apply_joins(
                init_game(max_players, max_move, board_size),
                joins.take(k),
            ).phase == GamePhase::WaitingForPlayers,
{
    let v = init_game(max_players, max_move, board_size);
    lemma_joins_fill(v, joins);
    assert(v.ids + join_ids(joins) =~= join_ids(joins));
    assert(v.names + join_names(joins) =~= join_names(joins));
}

/// Law: a legal move by the active participant that stays strictly below
/// the threshold lengthens the board by exactly the move size and passes
/// the turn to the next participant, modulo the participant count.
pub proof fn lemma_legal_move_advances(v: GameView, size: u8)
    requires
        game_wf(v),
        v.phase == GamePhase::WaitingOnMove,
        1 <= size <= v.max_move,
        v.board.len() + size < v.board_size,
    ensures
        ({
            let r = step_move_player(v, v.active, size);
            &&& r.phase == GamePhase::WaitingOnMove
            &&& r.board.len() == v.board.len() + size
            &&& r.active == (v.active + 1) % (v.ids.len() as int)
            &&& r.ids == v.ids
            &&& r.names == v.names
        }),
{
}

/// Law: the board is append-only under moves: whatever the move, the old
/// board is a prefix of the new one.
pub proof fn lemma_board_append_only(v: GameView, player: int, size: u8)
    ensures
        step_move_player(v, player, size).board.len() >= v.board.len(),
        step_move_player(v, player, size).board.take(v.board.len() as int) == v.board,
{
    assert(step_move_player(v, player, size).board.take(v.board.len() as int) =~= v.board);
}

/// Law: a move by anyone but the active participant changes nothing.
pub proof fn lemma_inactive_move_is_noop(v: GameView, player: int, size: u8)
    requires
        player != v.active,
    ensures
        step_move_player(v, player, size) == v,
{
}

/// Law: a move that brings the board to the threshold ends the game, and
/// afterwards neither a move nor a rematch vote that leaves the game over
/// touches the board.
pub proof fn lemma_threshold_move_ends_game(v: GameView, size: u8)
    requires
        game_wf(v),
        v.phase == GamePhase::WaitingOnMove,
        1 <= size <= v.max_move,
        v.board.len() + size >= v.board_size,
    ensures
        step_move_player(v, v.active, size).phase == GamePhase::GameOver,
        step_move_player(v, v.active, size).board == v.board + Seq::new(
            size as nat,
            |i: int| v.active as u8,
        ),
{
}

/// Law: after game over, a move changes nothing, and a rematch vote that
/// does not complete the rematch leaves the board as it is.
pub proof fn lemma_game_over_board_frozen(
    v: GameView,
    player: int,
    size: u8,
    voter: usize,
    name: Seq<char>,
)
    requires
        v.phase == GamePhase::GameOver,
    ensures
        step_move_player(v, player, size) == v,
        step_add_player(v, voter, name).phase == GamePhase::GameOver ==> step_add_player(
            v,
            voter,
            name,
        ).board == v.board,
{
}

/// Law: after game over with no votes yet, rematch votes by both
/// participants of a two-player game clear the board and resume play,
/// with the active index unchanged.
pub proof fn lemma_rematch(v: GameView, p0: usize, p1: usize, n0: Seq<char>, n1: Seq<char>)
    requires
        game_wf(v),
        v.phase == GamePhase::GameOver,
        v.ids.len() == 2,
        v.restart.len() == 0,
        v.ids.contains(p0),
        v.ids.contains(p1),
        p0 != p1,
    ensures
        ({
            let r = step_add_player(step_add_player(v, p0, n0), p1, n1);
            &&& r.phase == GamePhase::WaitingOnMove
            &&& r.board.len() == 0
            &&& r.active == v.active
            &&& r.ids == v.ids
            &&& r.names == v.names
        }),
{
    let v1 = step_add_player(v, p0, n0);
    assert(v.restart.push(p0).len() == 1);
    assert(v1.restart == v.restart.push(p0));
    assert(!v1.restart.contains(p1)) by {
        if v1.restart.contains(p1) {
            assert(v1.restart[0] == p0);
        }
    }
    assert(v1.restart.push(p1).len() == 2);
}

/// The game engine.  `GameView` is its model; every public operation is a
/// `step_*` transition on that model.
pub struct GameData {
    player_names: Vec<String>,
    player_ids: Vec<usize>,
    restart_ids: Vec<usize>,
    game_board: Vec<u8>,
    active_player: u8,
    max_players: u8,
    max_move: u8,
    game_board_size: u8,
    state: GamePhase,
}

impl View for GameData {
    type V = GameView;

    closed spec fn view(&self) -> GameView {
        GameView {
            names: self.player_names.deep_view(),
            ids: self.player_ids@,
            restart: self.restart_ids@,
            board: self.game_board@,
            active: self.active_player as int,
            max_players: self.max_players as int,
            max_move: self.max_move as int,
            board_size: self.game_board_size as int,
            phase: self.state,
        }
    }
}

impl DeepView for GameData {
    type V = GameView;

    open spec fn deep_view(&self) -> GameView {
        self.view()
    }
}

impl GameData {
    /// Well-formedness of the engine's state.
    pub open spec fn wf(&self) -> bool {
        game_wf(self@)
    }

    /// A new game with the given configuration, waiting for players.
    pub fn new(max_players: u8, max_move: u8, game_board_size: u8) -> (r: GameData)
        ensures
            r.wf(),
            r@ == init_game(max_players, max_move, game_board_size),
    {
        let r = GameData {
            player_names: Vec::new(),
            player_ids: Vec::new(),
            restart_ids: Vec::new(),
            game_board: Vec::new(),
            active_player: 255,
            max_players,
            max_move,
            game_board_size,
            state: GamePhase::WaitingForPlayers,
        };
        proof {
            assert(r@ =~= init_game(max_players, max_move, game_board_size));
        }
        r
    }

    /// Join the game, or vote for a rematch after game over.
    pub fn add_player(&mut self, player_id: usize, player_name: &str)
        requires
            old(self).wf(),
            player_id <= 255,
        ensures
            final(self).wf(),
            final(self)@ == step_add_player(old(self)@, player_id, player_name@),
    {
        match self.state {
            GamePhase::WaitingForPlayers => {
                self.player_names.push(player_name.to_owned());
                self.player_ids.push(player_id);
                proof {
                    assert(self.player_names.deep_view() =~= old(
                        self,
                    ).player_names.deep_view().push(player_name@));
                }
                if self.player_names.len() >= self.max_players as usize {
                    self.active_player = 0;
                    self.state = GamePhase::WaitingOnMove;
                }
                proof {
                    assert(self@ =~= step_add_player(old(self)@, player_id, player_name@));
                }
            },
            GamePhase::WaitingOnMove => {
                proof {
                    assert(self@ =~= step_add_player(old(self)@, player_id, player_name@));
                }
            },
            GamePhase::GameOver => {
                let voted = self.has_restart_vote(player_id);
                if !voted {
                    self.restart_ids.push(player_id);
                }
                if self.restart_ids.len() == self.player_ids.len() {
                    self.restart_ids = Vec::new();
                    self.game_board = Vec::new();
                    self.state = GamePhase::WaitingOnMove;
                }
                proof {
                    assert(self@ =~= step_add_player(old(self)@, player_id, player_name@));
                }
            },
        }
    }

    /// Whether `player_id` has already voted for a rematch.
    fn has_restart_vote(&self, player_id: usize) -> (r: bool)
        ensures
            r == self@.restart.contains(player_id),
    {
        let mut i: usize = 0;
        while i < self.restart_ids.len()
            invariant
                i <= self.restart_ids.len(),
                forall|j: int| 0 <= j < i ==> self@.restart[j] != player_id,
            decreases self.restart_ids.len() - i,
        {
            if self.restart_ids[i] == player_id {
                return true;
            }
            i += 1;
        }
        false
    }

    /// The index of `player_id` in the join-order list, scanning from the
    /// front, or `None` if the participant is not in this game.
    fn find_player(&self, player_id: usize) -> (r: Option<usize>)
        ensures
            r is Some <==> self@.ids.contains(player_id),
            r is Some ==> self@.ids.index_of_first(player_id) == Some(r.unwrap() as int),
    {
        let mut i: usize = 0;
        while i < self.player_ids.len()
            invariant
                i <= self.player_ids.len(),
                forall|j: int| 0 <= j < i ==> self@.ids[j] != player_id,
            decreases self.player_ids.len() - i,
        {
            if self.player_ids[i] == player_id {
                proof {
                    self@.ids.index_of_first_ensures(player_id);
                }
                return Some(i);
            }
            i += 1;
        }
        proof {
            self@.ids.index_of_first_ensures(player_id);
        }
        None
    }

    /// Make a move of `player_move` steps for `player_id`.
    pub fn move_player(&mut self, player_id: usize, player_move: u8)
        requires
            old(self).wf(),
            old(self)@.ids.contains(player_id),
        ensures
            final(self).wf(),
            final(self)@ == step_move_player(
                old(self)@,
                old(self)@.ids.index_of_first(player_id).unwrap(),
                player_move,
            ),
    {
        let player = self.find_player(player_id).unwrap();
        let ghost pidx = self@.ids.index_of_first(player_id).unwrap();
        match self.state {
            GamePhase::WaitingOnMove => {
                if player != self.active_player as usize {
                    proof {
                        assert(self@ =~= step_move_player(old(self)@, pidx, player_move));
                    }
                    return ;
                }
                if player_move > self.max_move || player_move < 1 {
                    proof {
                        assert(self@ =~= step_move_player(old(self)@, pidx, player_move));
                    }
                    return ;
                }
                let mover = self.active_player;
                let mut k: u8 = 0;
                while k < player_move
                    invariant
                        k <= player_move,
                        self.game_board@ == old(self).game_board@ + Seq::new(
                            k as nat,
                            |i: int| mover,
                        ),
                        self.game_board@.len() == old(self).game_board@.len() + k,
                        self.player_names == old(self).player_names,
                        self.player_ids == old(self).player_ids,
                        self.restart_ids == old(self).restart_ids,
                        self.active_player == old(self).active_player,
                        self.max_players == old(self).max_players,
                        self.max_move == old(self).max_move,
                        self.game_board_size == old(self).game_board_size,
                        self.state == old(self).state,
                        mover == old(self).active_player,
                    decreases player_move - k,
                {
                    self.game_board.push(mover);
                    k += 1;
                    proof {
                        assert(self.game_board@ =~= old(self).game_board@ + Seq::new(
                            k as nat,
                            |i: int| mover,
                        ));
                    }
                }
                if self.game_board.len() >= self.game_board_size as usize {
                    self.state = GamePhase::GameOver;
                    proof {
                        assert(self@ =~= step_move_player(old(self)@, pidx, player_move));
                    }
                } else {
                    self.active_player = (self.active_player + 1) % (self.player_names.len()
                        as u8);
                    proof {
                        assert(self@ =~= step_move_player(old(self)@, pidx, player_move));
                    }
                }
            },
            _ => {
                proof {
                    assert(self@ =~= step_move_player(old(self)@, pidx, player_move));
                }
            },
        }
    }

    /// Override the active participant, naming it by identifier.
    pub fn set_active_player(&mut self, player_id: usize)
        requires
            old(self).wf(),
            old(self)@.ids.contains(player_id),
        ensures
            final(self).wf(),
            final(self)@ == step_set_active_player(
                old(self)@,
                old(self)@.ids.index_of_first(player_id).unwrap(),
            ),
    {
        let player = self.find_player(player_id).unwrap();
        let ghost pidx = self@.ids.index_of_first(player_id).unwrap();
        if self.state == GamePhase::WaitingOnMove && self.game_board.len() == 0 {
            proof {
                self@.ids.index_of_first_ensures(player_id);
            }
            self.active_player = player as u8;
        }
        proof {
            assert(self@ =~= step_set_active_player(old(self)@, pidx));
        }
    }

    /// Whether the game has ended.
    pub fn is_game_over(&self) -> (r: bool)
        ensures
            r == (self@.phase == GamePhase::GameOver),
    {
        self.state == GamePhase::GameOver
    }

    /// Whether `player_id` is a participant of this game.
    pub fn game_has_player(&self, player_id: usize) -> (r: bool)
        ensures
            r == self@.ids.contains(player_id),
    {
        self.find_player(player_id).is_some()
    }

    /// The configured maximum move size.
    pub fn get_max_move(&self) -> (r: u8)
        ensures
            r as int == self@.max_move,
    {
        self.max_move
    }

    /// The identifier of the active participant, or 255 while the active
    /// index points at no participant.
    pub fn get_active_player_id(&self) -> (r: u8)
        requires
            self.wf(),
        ensures
            if 0 <= self@.active < self@.ids.len() {
                r as int == self@.ids[self@.active] as int
            } else {
                r == 255
            },
    {
        if (self.active_player as usize) < self.player_ids.len() {
            self.player_ids[self.active_player as usize] as u8
        } else {
            255
        }
    }

    /// The board: the sequence of participant indices, one entry per step.
    pub fn get_game_board(&self) -> (r: &[u8])
        ensures
            r@ == self@.board,
    {
        self.game_board.as_slice()
    }

    /// The display names of the participants, in join order.
    pub fn get_player_names(&self) -> (r: &Vec<String>)
        ensures
            r.deep_view() == self@.names,
    {
        &self.player_names
    }

    /// The display name of the participant at index `player`, if any.
    pub fn get_player_name(&self, player: usize) -> (r: Option<String>)
        ensures
            if player < self@.names.len() {
                r matches Some(s) && s@ == self@.names[player as int]
            } else {
                r is None
            },
    {
        if player < self.player_names.len() {
            Some(self.player_names[player].clone())
        } else {
            None
        }
    }
}

} // verus!
