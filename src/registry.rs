//! The session registry: the waiting room of identified players, the
//! matches in progress, matchmaking, message routing and disconnect cleanup.

use vstd::prelude::*;
use crate::action::{msg, Action, Broadcast, Payload, PlayerAction, PlayerIdentifyData};
use crate::board::{standard_board, tile_owner};
use crate::game::{
    action_step, cur, game_wf, holds_id, index_of, kept, remove_step, shape_wf, Game, GameView, Phase,
    Player,
};

verus! {

/// Players per match.
pub const MATCH_SIZE: usize = 2;

/// Relies on uuid::Uuid::new_v4 for a random version-4 id, handed over as
/// its 128-bit value; nothing is known of the value drawn.
#[verifier::external_body]
fn new_id() -> (r: u128) {
    uuid::Uuid::new_v4().as_u128()
}

/// A message and the ids of the players it goes to.
#[derive(Debug, Clone)]
pub struct Envelope {
    pub recipients: Vec<u128>,
    pub message: Broadcast,
}

pub open spec fn ids_of(ps: Seq<Player>) -> Seq<u128> {
    Seq::new(ps.len(), |i: int| ps[i].id)
}

/// The ids of a roster, in order.
pub fn player_ids(players: &Vec<Player>) -> (r: Vec<u128>)
    ensures
        r@ == ids_of(players@),
{
    let mut r: Vec<u128> = Vec::new();
    let mut i: usize = 0;
    while i < players.len()
        invariant
            i <= players.len(),
            r@ == ids_of(players@.subrange(0, i as int)),
        decreases players.len() - i,
    {
        r.push(players[i].id);
        i = i + 1;
        assert(r@ =~= ids_of(players@.subrange(0, i as int)));
    }
    assert(players@.subrange(0, players.len() as int) =~= players@);
    r
}

/// The name a connection announces in its first message, which must be an
/// Identify carrying the name.
pub fn identify_name(first: &PlayerAction) -> (r: Option<String>)
    ensures
        first.action_type == Action::Identify && first.data is Some ==> r == first.data,
        !(first.action_type == Action::Identify && first.data is Some) ==> r is None,
{
    match &first.data {
        Some(name) => if first.action_type == Action::Identify {
            Some(name.clone())
        } else {
            None
        },
        None => None,
    }
}

/// A newly identified player, under a fresh random id.
pub fn new_player(name: String) -> (r: Player)
    ensures
        r.name == name,
        r.money == 1500,
        r.position == 0,
        !r.is_in_jail,
        r.jail_turns == 0,
        !r.is_bankrupt,
{
    Player::new(new_id(), name)
}

/// Players waiting for a match: each fresh on the first tile and solvent,
/// no id twice.
pub open spec fn room_wf(ps: Seq<Player>) -> bool {
    &&& forall|i: int| 0 <= i < ps.len() ==> (#[trigger] ps[i]).position == 0 && !ps[i].is_bankrupt
    &&& forall|i: int, j: int|
        0 <= i < ps.len() && 0 <= j < ps.len() && #[trigger] ps[i].id == #[trigger] ps[j].id
            ==> i == j
}

/// Whether `p` may join the waiting room `ps`: no waiting player has its id.
pub open spec fn admissible(ps: Seq<Player>, p: Player) -> bool {
    forall|i: int| 0 <= i < ps.len() ==> #[trigger] ps[i].id != p.id
}

/// The identified players not yet in a match.
#[derive(Debug)]
pub struct WaitingRoom {
    pub players: Vec<Player>,
}

impl WaitingRoom {
    pub open spec fn wf(&self) -> bool {
        room_wf(self.players@)
    }

    pub fn new() -> (r: WaitingRoom)
        ensures
            r.players@ == Seq::<Player>::empty(),
            r.wf(),
    {
        WaitingRoom { players: Vec::new() }
    }

    pub fn contains(&self, id: u128) -> (r: bool)
        ensures
            r == exists|k: int| holds_id(self.players@, k, id),
    {
        let mut k: usize = 0;
        while k < self.players.len()
            invariant
                k <= self.players.len(),
                forall|j: int| 0 <= j < k ==> #[trigger] self.players@[j].id != id,
            decreases self.players.len() - k,
        {
            if self.players[k].id == id {
                assert(holds_id(self.players@, k as int, id));
                return true;
            }
            k = k + 1;
        }
        false
    }

    /// Queues a freshly identified `player` unless a waiting player already
    /// has its id; returns whether the room has just reached the match size.
    pub fn add_to_waiting_room(&mut self, player: Player) -> (ready: bool)
        requires
            old(self).wf(),
            player.position == 0,
            !player.is_bankrupt,
        ensures
            final(self).wf(),
            admissible(old(self).players@, player) ==> final(self).players@ == old(self).players@.push(player),
            !admissible(old(self).players@, player) ==> final(self).players@ == old(self).players@,
            ready == (admissible(old(self).players@, player) && final(self).players@.len()
                == MATCH_SIZE),
    {
        let known = self.contains(player.id);
        if known {
            proof {
                let k = choose|k: int| holds_id(self.players@, k, player.id);
                assert(self.players@[k].id == player.id);
            }
        } else {
            assert forall|i: int| 0 <= i < self.players@.len() implies #[trigger] self.players@[i].id
                != player.id by {
                if self.players@[i].id == player.id {
                    assert(holds_id(self.players@, i, player.id));
                }
            }
        }
        if known {
            return false;
        }
        self.players.push(player);
        proof {
            let ps = self.players@;
            let n = old(self).players@.len();
            assert forall|i: int, j: int|
                0 <= i < ps.len() && 0 <= j < ps.len() && #[trigger] ps[i].id == #[trigger] ps[j].id
                    implies i == j by {
                if i < n && j == n {
                    assert(holds_id(old(self).players@, i, ps[j].id));
                }
                if j < n && i == n {
                    assert(holds_id(old(self).players@, j, ps[i].id));
                }
            }
        }
        self.players.len() == MATCH_SIZE
    }

    /// Takes the player with id `id` out of the room, if it is there.
    pub fn remove_from_waiting(&mut self, id: u128)
        requires
            old(self).wf(),
        ensures
            final(self).wf(),
            index_of(old(self).players@, id) matches Some(k) ==> final(self).players@ == old(self).players@.remove(k),
            index_of(old(self).players@, id) is None ==> final(self).players@ == old(self).players@,
            forall|k: int| 0 <= k < final(self).players@.len() ==> #[trigger] final(self).players@[k].id != id,
    {
        let mut k: usize = 0;
        while k < self.players.len()
            invariant
                room_wf(self.players@),
                self.players@ == old(self).players@,
                k <= self.players.len(),
                forall|j: int| 0 <= j < k ==> #[trigger] self.players@[j].id != id,
            decreases self.players.len() - k,
        {
            if self.players[k].id == id {
                proof {
                    assert(holds_id(self.players@, k as int, id));
                    let c = choose|c: int| holds_id(self.players@, c, id);
                    assert(self.players@[c].id == self.players@[k as int].id);
                }
                let _gone = self.players.remove(k);
                proof {
                    let ps = self.players@;
                    let o = old(self).players@;
                    assert forall|j: int| 0 <= j < ps.len() implies #[trigger] ps[j].id != id by {
                        if j < k {
                        } else {
                            assert(ps[j] == o[j + 1]);
                            assert(o[j + 1].id != o[k as int].id);
                        }
                    }
                    assert forall|i: int, j: int|
                        0 <= i < ps.len() && 0 <= j < ps.len() && #[trigger] ps[i].id
                            == #[trigger] ps[j].id implies i == j by {
                        let i2 = if i < k {
                            i
                        } else {
                            i + 1
                        };
                        let j2 = if j < k {
                            j
                        } else {
                            j + 1
                        };
                        assert(ps[i] == o[i2] && ps[j] == o[j2]);
                    }
                    assert forall|i: int| 0 <= i < ps.len() implies (#[trigger] ps[i]).position == 0
                        && !ps[i].is_bankrupt by {
                        let i2 = if i < k {
                            i
                        } else {
                            i + 1
                        };
                        assert(ps[i] == o[i2]);
                    }
                }
                return ;
            }
            k = k + 1;
        }
        assert(!exists|j: int| holds_id(self.players@, j, id));
    }
}

pub open spec fn views(gs: Seq<Game>) -> Seq<GameView> {
    Seq::new(gs.len(), |i: int| gs[i]@)
}

/// Every match keeps its invariant, and no two matches share an id.
pub open spec fn table_wf(gs: Seq<Game>) -> bool {
    &&& forall|i: int| 0 <= i < gs.len() ==> game_wf(#[trigger] gs[i]@)
    &&& forall|i: int, j: int|
        0 <= i < gs.len() && 0 <= j < gs.len() && #[trigger] gs[i].id == #[trigger] gs[j].id
            ==> i == j
}

/// Whether `id` holds the turn of the match in progress `g`.
pub open spec fn turn_holder_in(g: GameView, id: u128) -> bool {
    g.phase != Phase::GameOver && cur(g).id == id
}

pub open spec fn mail_view(es: Seq<Envelope>) -> Seq<(Seq<u128>, Broadcast)> {
    Seq::new(es.len(), |j: int| (es[j].recipients@, es[j].message))
}

/// The messages of a step, each addressed to the roster `ps`.
pub open spec fn addressed(ps: Seq<Player>, ms: Seq<Broadcast>) -> Seq<(Seq<u128>, Broadcast)> {
    Seq::new(ms.len(), |j: int| (ids_of(ps), ms[j]))
}

/// The matches left once `id` has left each of them, the finished and
/// empty ones dropped.
pub open spec fn matches_after_removal(gs: Seq<GameView>, id: u128) -> Seq<GameView>
    decreases gs.len(),
{
    if gs.len() == 0 {
        Seq::empty()
    } else {
        let rest = matches_after_removal(gs.drop_last(), id);
        let g = remove_step(gs.last(), id).0;
        if kept(g) {
            rest.push(g)
        } else {
            rest
        }
    }
}

/// What the departure of `id` announces, match by match, to the players
/// that remain in each.
pub open spec fn mail_after_removal(gs: Seq<GameView>, id: u128) -> Seq<(Seq<u128>, Broadcast)>
    decreases gs.len(),
{
    if gs.len() == 0 {
        Seq::empty()
    } else {
        let step = remove_step(gs.last(), id);
        mail_after_removal(gs.drop_last(), id) + addressed(step.0.players, step.1)
    }
}

/// Addresses each of `msgs` to every player of `players`.
pub fn post(out: &mut Vec<Envelope>, players: &Vec<Player>, msgs: Vec<Broadcast>)
    ensures
        mail_view(final(out)@) == mail_view(old(out)@) + addressed(players@, msgs@),
        final(out)@.len() == old(out)@.len() + msgs@.len(),
        forall|j: int| 0 <= j < old(out)@.len() ==> #[trigger] final(out)@[j] == old(out)@[j],
{
    let ghost m0 = msgs@;
    let mut msgs = msgs;
    let mut i: usize = 0;
    let n = msgs.len();
    while i < n
        invariant
            n == m0.len(),
            i <= n,
            msgs@ == m0.subrange(i as int, n as int),
            mail_view(out@) == mail_view(old(out)@) + addressed(players@, m0.subrange(0, i as int)),
            out@.len() == old(out)@.len() + i,
            forall|j: int| 0 <= j < old(out)@.len() ==> #[trigger] out@[j] == old(out)@[j],
        decreases n - i,
    {
        let ghost before = out@;
        let m = msgs.remove(0);
        assert(m == m0[i as int]);
        let recipients = player_ids(players);
        out.push(Envelope { recipients, message: m });
        proof {
            assert(mail_view(out@) =~= mail_view(before).push((ids_of(players@), m0[i as int])));
            assert(addressed(players@, m0.subrange(0, i + 1)) =~= addressed(players@, m0.subrange(0, i as int)).push((ids_of(players@), m0[i as int])));
        }
        i = i + 1;
        assert(msgs@ =~= m0.subrange(i as int, n as int));
    }
    assert(m0.subrange(0, n as int) =~= m0);
}

/// The matches in progress.
#[derive(Debug)]
pub struct ActiveGames {
    pub games: Vec<Game>,
}

impl ActiveGames {
    pub open spec fn wf(&self) -> bool {
        table_wf(self.games@)
    }

    pub fn new() -> (r: ActiveGames)
        ensures
            r.games@ == Seq::<Game>::empty(),
            r.wf(),
    {
        ActiveGames { games: Vec::new() }
    }

    pub fn len(&self) -> (r: usize)
        ensures
            r == self.games@.len(),
    {
        self.games.len()
    }

    /// Whether a match with id `id` is registered.
    pub fn contains_game(&self, id: u128) -> (r: bool)
        ensures
            r == exists|k: int| 0 <= k < self.games@.len() && #[trigger] self.games@[k].id == id,
    {
        let mut k: usize = 0;
        while k < self.games.len()
            invariant
                k <= self.games.len(),
                forall|j: int| 0 <= j < k ==> #[trigger] self.games@[j].id != id,
            decreases self.games.len() - k,
        {
            if self.games[k].id == id {
                return true;
            }
            k = k + 1;
        }
        false
    }

    /// The first match whose turn `id` holds.
    pub fn find_turn_holder(&self, id: u128) -> (r: Option<usize>)
        requires
            self.wf(),
        ensures
            r matches Some(k) ==> k < self.games@.len() && turn_holder_in(self.games@[k as int]@, id)
                && forall|j: int| 0 <= j < k ==> !turn_holder_in(#[trigger] self.games@[j]@, id),
            r is None ==> forall|j: int|
                0 <= j < self.games@.len() ==> !turn_holder_in(#[trigger] self.games@[j]@, id),
    {
        let mut k: usize = 0;
        while k < self.games.len()
            invariant
                k <= self.games.len(),
                table_wf(self.games@),
                forall|j: int| 0 <= j < k ==> !turn_holder_in(#[trigger] self.games@[j]@, id),
            decreases self.games.len() - k,
        {
            let g = &self.games[k];
            assert(game_wf(self.games@[k as int]@));
            if g.phase != Phase::GameOver && g.players[g.player_turn].id == id {
                return Some(k);
            }
            k = k + 1;
        }
        None
    }

    /// Routes `action` from `sender` to the match whose turn it holds, with
    /// dice `d1` and `d2` for a roll; returns that match's index and whether
    /// a roll ended on a tile held by a player who has left. An action
    /// from a player who holds no turn changes nothing.
    pub fn handle_message_in_game_with(
        &mut self,
        sender: u128,
        action: Action,
        d1: u8,
        d2: u8,
        out: &mut Vec<Broadcast>,
    ) -> (r: Option<(usize, bool)>)
        requires
            old(self).wf(),
            1 <= d1 <= 6,
            1 <= d2 <= 6,
        ensures
            final(self).wf(),
            forall|room: Seq<Player>|
                membership_wf(room, old(self).games@) ==> #[trigger] membership_wf(room, final(self).games@),
            r is None ==> final(self).games@ == old(self).games@ && final(out)@ == old(out)@
                && forall|j: int|
                0 <= j < old(self).games@.len() ==> !turn_holder_in(#[trigger] old(self).games@[j]@, sender),
            r matches Some((k, departed)) ==> {
                &&& departed == crate::game::action_departed(old(self).games@[k as int]@, sender, action, d1, d2)
                &&& k < old(self).games@.len()
                &&& turn_holder_in(old(self).games@[k as int]@, sender)
                &&& final(self).games@.len() == old(self).games@.len()
                &&& final(self).games@[k as int]@ == action_step(old(self).games@[k as int]@, sender, action, d1, d2).0
                &&& final(out)@ == old(out)@ + action_step(old(self).games@[k as int]@, sender, action, d1, d2).1
                &&& forall|j: int| 0 <= j < old(self).games@.len() && j != k ==> #[trigger] final(self).games@[j] == old(self).games@[j]
            },
    {
        match self.find_turn_holder(sender) {
            None => None,
            Some(k) => {
                assert(game_wf(self.games@[k as int]@));
                let departed = self.games[k].handle_action_with(sender, action, d1, d2, out);
                proof {
                    let gs = self.games@;
                    assert forall|i: int, j: int|
                        0 <= i < gs.len() && 0 <= j < gs.len() && #[trigger] gs[i].id == #[trigger] gs[j].id
                            implies i == j by {
                        assert(gs[i].id == old(self).games@[i].id);
                        assert(gs[j].id == old(self).games@[j].id);
                    }
                    assert forall|i: int| 0 <= i < gs.len() implies game_wf(#[trigger] gs[i]@) by {
                        if i != k {
                            assert(gs[i] == old(self).games@[i]);
                        }
                    }
                    let og = old(self).games@;
                    crate::game::lemma_action_ids(og[k as int]@, sender, action, d1, d2);
                    assert forall|j: int, x: u128| 0 <= j < gs.len() implies #[trigger] plays_in(gs[j], x)
                        == plays_in(og[j], x) by {
                        if j == k {
                            if plays_in(gs[j], x) {
                                let q = choose|q: int| 0 <= q < gs[j].players@.len() && #[trigger] gs[j].players@[q].id == x;
                                assert(og[j].players@[q].id == x);
                            }
                            if plays_in(og[j], x) {
                                let q = choose|q: int| 0 <= q < og[j].players@.len() && #[trigger] og[j].players@[q].id == x;
                                assert(gs[j].players@[q].id == x);
                            }
                        } else {
                            assert(gs[j] == og[j]);
                        }
                    }
                    assert forall|room: Seq<Player>|
                        membership_wf(room, og) implies #[trigger] membership_wf(room, gs) by {
                        assert forall|i: int| 0 <= i < room.len() implies !in_some_match(gs, #[trigger] room[i].id) by {
                            if in_some_match(gs, room[i].id) {
                                let j = choose|j: int| 0 <= j < gs.len() && plays_in(#[trigger] gs[j], room[i].id);
                                assert(plays_in(og[j], room[i].id));
                                assert(in_some_match(og, room[i].id));
                            }
                        }
                        assert forall|k1: int, k2: int, x: u128|
                            0 <= k1 < gs.len() && 0 <= k2 < gs.len() && #[trigger] plays_in(gs[k1], x)
                                && #[trigger] plays_in(gs[k2], x) implies k1 == k2 by {
                            assert(plays_in(og[k1], x) && plays_in(og[k2], x));
                        }
                    }
                }
                Some((k, departed))
            },
        }
    }

    /// Routes `action` from `sender` to the match whose turn it holds,
    /// drawing two dice for a roll; returns that match's index, the dice, and
    /// whether a roll ended on a tile held by a player who has left.
    pub fn handle_message_in_game(&mut self, sender: u128, action: Action, out: &mut Vec<Broadcast>) -> (r: Option<(usize, u8, u8, bool)>)
        requires
            old(self).wf(),
        ensures
            final(self).wf(),
            forall|room: Seq<Player>|
                membership_wf(room, old(self).games@) ==> #[trigger] membership_wf(room, final(self).games@),
            r is None ==> final(self).games@ == old(self).games@ && final(out)@ == old(out)@
                && forall|j: int|
                0 <= j < old(self).games@.len() ==> !turn_holder_in(#[trigger] old(self).games@[j]@, sender),
            r matches Some((k, d1, d2, departed)) ==> {
                &&& departed == crate::game::action_departed(old(self).games@[k as int]@, sender, action, d1, d2)
                &&& 1 <= d1 <= 6
                &&& 1 <= d2 <= 6
                &&& k < old(self).games@.len()
                &&& turn_holder_in(old(self).games@[k as int]@, sender)
                &&& final(self).games@.len() == old(self).games@.len()
                &&& final(self).games@[k as int]@ == action_step(old(self).games@[k as int]@, sender, action, d1, d2).0
                &&& final(out)@ == old(out)@ + action_step(old(self).games@[k as int]@, sender, action, d1, d2).1
                &&& forall|j: int| 0 <= j < old(self).games@.len() && j != k ==> #[trigger] final(self).games@[j] == old(self).games@[j]
            },
    {
        let d1 = crate::dice::roll_die();
        let d2 = crate::dice::roll_die();
        match self.handle_message_in_game_with(sender, action, d1, d2, out) {
            Some((k, departed)) => Some((k, d1, d2, departed)),
            None => None,
        }
    }

    /// Takes the player with id `id` out of every match that holds it,
    /// passing the turn on where it held it, and drops the matches left
    /// empty or finished.
    pub fn remove_player_from_matches(&mut self, id: u128, out: &mut Vec<Envelope>)
        requires
            old(self).wf(),
        ensures
            final(self).wf(),
            views(final(self).games@) == matches_after_removal(views(old(self).games@), id),
            forall|k: int| 0 <= k < final(self).games@.len() ==> !plays_in(#[trigger] final(self).games@[k], id),
            forall|room: Seq<Player>|
                membership_wf(room, old(self).games@) ==> #[trigger] membership_wf(room, final(self).games@),
            mail_view(final(out)@) == mail_view(old(out)@) + mail_after_removal(views(old(self).games@), id),
    {
        let ghost g0 = self.games@;
        let n = self.games.len();
        let mut kept_games: Vec<Game> = Vec::new();
        let ghost mut origin: Seq<int> = Seq::empty();
        let mut i: usize = 0;
        while i < n
            invariant
                n == g0.len(),
                i <= n,
                table_wf(g0),
                self.games@ == g0.subrange(i as int, n as int),
                views(kept_games@) == matches_after_removal(views(g0.subrange(0, i as int)), id),
                forall|k: int| 0 <= k < kept_games@.len() ==> game_wf(#[trigger] kept_games@[k]@),
                forall|k: int| 0 <= k < kept_games@.len() ==> exists|j: int| 0 <= j < i && #[trigger] kept_games@[k].id == g0[j].id,
                forall|a: int, b: int|
                    0 <= a < kept_games@.len() && 0 <= b < kept_games@.len() && #[trigger] kept_games@[a].id == #[trigger] kept_games@[b].id ==> a == b,
                mail_view(out@) == mail_view(old(out)@) + mail_after_removal(views(g0.subrange(0, i as int)), id),
                origin.len() == kept_games@.len(),
                forall|k: int| 0 <= k < origin.len() ==> 0 <= #[trigger] origin[k] < i,
                forall|k: int| 0 <= k < origin.len() ==> #[trigger] kept_games@[k].id == g0[origin[k]].id,
                forall|k: int, x: u128|
                    0 <= k < origin.len() && #[trigger] plays_in(kept_games@[k], x) ==> plays_in(g0[origin[k]], x),
                forall|k: int| 0 <= k < kept_games@.len() ==> !plays_in(#[trigger] kept_games@[k], id),
            decreases n - i,
        {
            let mut g = self.games.remove(0);
            assert(g == g0[i as int]);
            assert(game_wf(g@));
            let mut local: Vec<Broadcast> = Vec::new();
            let ghost before_removal = g;
            g.remove_player(id, &mut local);
            proof {
                lemma_removal_shrinks(before_removal, g, id);
            }
            post(out, &g.players, local);
            let ghost pre = views(g0.subrange(0, i as int));
            let ghost nxt = views(g0.subrange(0, i + 1));
            proof {
                assert(nxt.drop_last() =~= pre);
                assert(nxt.last() == g0[i as int]@);
            }
            if g.players.len() > 0 && g.phase != Phase::GameOver {
                proof {
                    let kg = kept_games@;
                    assert forall|k: int| 0 <= k < kg.len() implies #[trigger] kg[k].id != g.id by {
                        let j = choose|j: int| 0 <= j < i && kg[k].id == g0[j].id;
                        assert(g.id == g0[i as int].id);
                    }
                }
                let ghost before = kept_games@;
                kept_games.push(g);
                proof {
                    origin = origin.push(i as int);
                    let kg = kept_games@;
                    assert forall|k: int, x: u128|
                        0 <= k < origin.len() && #[trigger] plays_in(kg[k], x) implies plays_in(g0[origin[k]], x) by {
                        if k < before.len() {
                            assert(kg[k] == before[k]);
                        }
                    }
                    assert forall|k: int| 0 <= k < kg.len() implies !plays_in(#[trigger] kg[k], id) by {
                        if k < before.len() {
                            assert(kg[k] == before[k]);
                        }
                    }
                }
                proof {
                    assert(views(kept_games@) =~= matches_after_removal(pre, id).push(kept_games@.last()@));
                    let kg = kept_games@;
                    assert forall|k: int| 0 <= k < kg.len() implies exists|j: int| 0 <= j < i + 1 && #[trigger] kg[k].id == g0[j].id by {
                        if k == kg.len() - 1 {
                            assert(kg[k].id == g0[i as int].id);
                        } else {
                            assert(kg[k] == before[k]);
                        }
                    }
                }
            }
            i = i + 1;
            assert(self.games@ =~= g0.subrange(i as int, n as int));
        }
        proof {
            assert(g0.subrange(0, n as int) =~= g0);
        }
        self.games = kept_games;
        proof {
            let fg = self.games@;
            assert forall|room: Seq<Player>|
                membership_wf(room, g0) implies #[trigger] membership_wf(room, fg) by {
                assert forall|a: int| 0 <= a < room.len() implies !in_some_match(fg, #[trigger] room[a].id) by {
                    if in_some_match(fg, room[a].id) {
                        let k = choose|k: int| 0 <= k < fg.len() && plays_in(#[trigger] fg[k], room[a].id);
                        assert(plays_in(g0[origin[k]], room[a].id));
                        assert(in_some_match(g0, room[a].id));
                    }
                }
                assert forall|k1: int, k2: int, x: u128|
                    0 <= k1 < fg.len() && 0 <= k2 < fg.len() && #[trigger] plays_in(fg[k1], x)
                        && #[trigger] plays_in(fg[k2], x) implies k1 == k2 by {
                    assert(plays_in(g0[origin[k1]], x));
                    assert(plays_in(g0[origin[k2]], x));
                    assert(origin[k1] == origin[k2]);
                    assert(fg[k1].id == fg[k2].id);
                }
            }
        }
    }
}

/// Whether the player with id `id` plays in match `g`.
pub open spec fn plays_in(g: Game, id: u128) -> bool {
    exists|j: int| 0 <= j < g.players@.len() && #[trigger] g.players@[j].id == id
}

pub open spec fn in_some_match(gs: Seq<Game>, id: u128) -> bool {
    exists|k: int| 0 <= k < gs.len() && plays_in(#[trigger] gs[k], id)
}

/// Every identified player is in one place only: no waiting player plays in
/// a match, and no player plays in two matches.
pub open spec fn membership_wf(room: Seq<Player>, gs: Seq<Game>) -> bool {
    &&& forall|i: int| 0 <= i < room.len() ==> !in_some_match(gs, #[trigger] room[i].id)
    &&& forall|k1: int, k2: int, id: u128|
        0 <= k1 < gs.len() && 0 <= k2 < gs.len() && #[trigger] plays_in(gs[k1], id)
            && #[trigger] plays_in(gs[k2], id) ==> k1 == k2
}

/// A player who plays in no match keeps the registry's membership rule when
/// it joins the waiting room, whether it is admitted or not.
pub proof fn law_join_keeps_membership(room: Seq<Player>, gs: Seq<Game>, p: Player)
    requires
        membership_wf(room, gs),
        !in_some_match(gs, p.id),
    ensures
        membership_wf(room.push(p), gs),
        membership_wf(room, gs),
{
    let r2 = room.push(p);
    assert forall|i: int| 0 <= i < r2.len() implies !in_some_match(gs, #[trigger] r2[i].id) by {
        if i < room.len() {
            assert(r2[i] == room[i]);
        }
    }
}

/// A player leaving the waiting room keeps the registry's membership rule.
pub proof fn law_leave_room_keeps_membership(room: Seq<Player>, gs: Seq<Game>, k: int)
    requires
        membership_wf(room, gs),
        0 <= k < room.len(),
    ensures
        membership_wf(room.remove(k), gs),
{
    let r2 = room.remove(k);
    assert forall|i: int| 0 <= i < r2.len() implies !in_some_match(gs, #[trigger] r2[i].id) by {
        let i2 = if i < k {
            i
        } else {
            i + 1
        };
        assert(r2[i] == room[i2]);
    }
}

/// A player of a finished match holds no turn anywhere, so every action it
/// sends is ignored and no match changes.
pub proof fn law_finished_match_takes_no_action(room: Seq<Player>, gs: Seq<Game>, k: int, sender: u128)
    requires
        membership_wf(room, gs),
        table_wf(gs),
        0 <= k < gs.len(),
        plays_in(gs[k], sender),
        gs[k]@.phase == Phase::GameOver,
    ensures
        forall|j: int| 0 <= j < gs.len() ==> !turn_holder_in(#[trigger] gs[j]@, sender),
{
    assert forall|j: int| 0 <= j < gs.len() implies !turn_holder_in(#[trigger] gs[j]@, sender) by {
        if turn_holder_in(gs[j]@, sender) {
            assert(game_wf(gs[j]@));
            let t = gs[j].player_turn as int;
            assert(gs[j].players@[t].id == sender);
            assert(plays_in(gs[j], sender));
        }
    }
}

/// Leaving a match takes the leaver out of its roster and lets nobody in.
proof fn lemma_removal_shrinks(g: Game, g2: Game, id: u128)
    requires
        shape_wf(g@),
        g2@ == remove_step(g@, id).0,
    ensures
        forall|x: u128| plays_in(g2, x) ==> plays_in(g, x),
        !plays_in(g2, id),
{
    let ps = g.players@;
    match index_of(ps, id) {
        None => {
            assert(g2.players@ == ps);
            if plays_in(g2, id) {
                let j = choose|j: int| 0 <= j < g2.players@.len() && #[trigger] g2.players@[j].id == id;
                assert(holds_id(ps, j, id));
            }
        },
        Some(r) => {
            let c = choose|c: int| holds_id(ps, c, id);
            assert(holds_id(ps, c, id));
            let qs = ps.remove(r);
            assert(g2.players@ == qs);
            assert forall|x: u128| plays_in(g2, x) implies plays_in(g, x) by {
                let j = choose|j: int| 0 <= j < g2.players@.len() && #[trigger] g2.players@[j].id == x;
                let j2 = if j < r {
                    j
                } else {
                    j + 1
                };
                assert(qs[j] == ps[j2]);
                assert(ps[j2].id == x);
            }
            if plays_in(g2, id) {
                let j = choose|j: int| 0 <= j < g2.players@.len() && #[trigger] g2.players@[j].id == id;
                let j2 = if j < r {
                    j
                } else {
                    j + 1
                };
                assert(qs[j] == ps[j2]);
                assert(ps[j2].id == ps[r].id);
            }
        },
    }
}

/// The roster announced at match start: each player's id and name, in order.
pub fn roster(players: &Vec<Player>) -> (r: Vec<PlayerIdentifyData>)
    ensures
        r@.len() == players@.len(),
        forall|i: int|
            0 <= i < players@.len() ==> (#[trigger] r@[i]).id == players@[i].id && r@[i].name
                == players@[i].name,
{
    let mut r: Vec<PlayerIdentifyData> = Vec::new();
    let mut i: usize = 0;
    while i < players.len()
        invariant
            i <= players.len(),
            r@.len() == i,
            forall|k: int|
                0 <= k < i ==> (#[trigger] r@[k]).id == players@[k].id && r@[k].name
                    == players@[k].name,
        decreases players.len() - i,
    {
        r.push(PlayerIdentifyData { id: players[i].id, name: players[i].name.clone() });
        i = i + 1;
    }
    r
}

/// Whether a match with id `id` is among `gs`.
pub open spec fn id_in_use(gs: Seq<Game>, id: u128) -> bool {
    exists|k: int| 0 <= k < gs.len() && #[trigger] gs[k].id == id
}

/// Starts a match under id `id` with the first `MATCH_SIZE` waiting
/// players, the turn going first to the player at `seed % MATCH_SIZE`.
/// Nothing happens when too few players wait or the id is in use.
pub fn start_game_with(
    room: &mut WaitingRoom,
    games: &mut ActiveGames,
    id: u128,
    seed: u8,
    out: &mut Vec<Envelope>,
) -> (r: bool)
    requires
        old(room).wf(),
        old(games).wf(),
    ensures
        final(room).wf(),
        final(games).wf(),
        r == (old(room).players@.len() >= MATCH_SIZE && !id_in_use(old(games).games@, id)),
        !r ==> final(room).players@ == old(room).players@ && final(games).games@ == old(
            games,
        ).games@ && final(out)@ == old(out)@,
        membership_wf(old(room).players@, old(games).games@) ==> membership_wf(
            final(room).players@,
            final(games).games@,
        ),
        r ==> {
            let ps = old(room).players@.subrange(0, MATCH_SIZE as int);
            let t = (seed as int) % (MATCH_SIZE as int);
            let n = old(games).games@.len() as int;
            let g = final(games).games@[n]@;
            let m = old(out)@.len() as int;
            &&& final(room).players@ == old(room).players@.subrange(
                MATCH_SIZE as int,
                old(room).players@.len() as int,
            )
            &&& final(games).games@.len() == n + 1
            &&& forall|j: int| 0 <= j < n ==> #[trigger] final(games).games@[j] == old(games).games@[j]
            &&& g.id == id
            &&& g.players == ps
            &&& g.player_turn == t
            &&& g.current_turn == 0
            &&& g.phase == Phase::AwaitingRoll
            &&& g.board.len() == 40
            &&& forall|i: int| 0 <= i < g.board.len() ==> tile_owner(#[trigger] g.board[i]) is None
            &&& final(out)@.len() == m + 2
            &&& forall|j: int| 0 <= j < m ==> #[trigger] final(out)@[j] == old(out)@[j]
            &&& final(out)@[m].recipients@ == ids_of(ps)
            &&& final(out)@[m].message.action == Action::GameStart
            &&& final(out)@[m].message.payload matches Payload::Roster(v) && v@.len() == ps.len()
                && forall|i: int|
                0 <= i < ps.len() ==> (#[trigger] v@[i]).id == ps[i].id && v@[i].name == ps[i].name
            &&& final(out)@[m + 1].recipients@ == ids_of(ps)
            &&& final(out)@[m + 1].message == msg(Action::PlayerTurn, Payload::PlayerId(ps[t].id))
        },
{
    if room.players.len() < MATCH_SIZE || games.contains_game(id) {
        return false;
    }
    let ghost waiting = room.players@;
    let mut players: Vec<Player> = Vec::new();
    let mut k: usize = 0;
    while k < MATCH_SIZE
        invariant
            k <= MATCH_SIZE <= waiting.len(),
            players@ == waiting.subrange(0, k as int),
            room.players@ == waiting.subrange(k as int, waiting.len() as int),
        decreases MATCH_SIZE - k,
    {
        let p = room.players.remove(0);
        players.push(p);
        k = k + 1;
        assert(players@ =~= waiting.subrange(0, k as int));
        assert(room.players@ =~= waiting.subrange(k as int, waiting.len() as int));
    }
    let board = standard_board();
    let turn = (seed as usize) % MATCH_SIZE;
    let start = Broadcast::new(Action::GameStart, Payload::Roster(roster(&players)));
    let first = Broadcast::new(Action::PlayerTurn, Payload::PlayerId(players[turn].id));
    let game = Game { id, players, board, current_turn: 0, player_turn: turn, phase: Phase::AwaitingRoll };
    let ghost m0 = out@;
    post(out, &game.players, vec![start, first]);
    proof {
        assert(addressed(game.players@, seq![start, first])[0] == (ids_of(game.players@), start));
        assert(mail_view(out@)[m0.len() as int] == (ids_of(game.players@), start));
        assert(addressed(game.players@, seq![start, first])[1] == (ids_of(game.players@), first));
        assert(mail_view(out@)[m0.len() as int + 1] == (ids_of(game.players@), first));
        assert(mail_view(out@).len() == m0.len() + 2);
        let ps = game.players@;
        assert(game_wf(game@)) by {
            assert forall|i: int| 0 <= i < ps.len() implies #[trigger] ps[i].position < game.board@.len() by {
                assert(ps[i] == waiting[i]);
            }
            assert forall|i: int, j: int|
                0 <= i < ps.len() && 0 <= j < ps.len() && #[trigger] ps[i].id == #[trigger] ps[j].id
                    implies i == j by {
                assert(ps[i] == waiting[i] && ps[j] == waiting[j]);
            }
            assert(ps[turn as int] == waiting[turn as int]);
        }
        let rest = room.players@;
        assert forall|i: int| 0 <= i < rest.len() implies (#[trigger] rest[i]).position == 0 && !rest[i].is_bankrupt by {
            assert(rest[i] == waiting[i + MATCH_SIZE]);
        }
        assert forall|i: int, j: int|
            0 <= i < rest.len() && 0 <= j < rest.len() && #[trigger] rest[i].id == #[trigger] rest[j].id
                implies i == j by {
            assert(rest[i] == waiting[i + MATCH_SIZE] && rest[j] == waiting[j + MATCH_SIZE]);
        }
    }
    games.games.push(game);
    proof {
        let gs = games.games@;
        let n = gs.len() - 1;
        let og = old(games).games@;
        if membership_wf(waiting, og) {
            let rest = room.players@;
            assert forall|i: int| 0 <= i < rest.len() implies !in_some_match(gs, #[trigger] rest[i].id) by {
                assert(rest[i] == waiting[i + MATCH_SIZE]);
                assert(!in_some_match(og, waiting[i + MATCH_SIZE].id));
                if in_some_match(gs, rest[i].id) {
                    let k = choose|k: int| 0 <= k < gs.len() && plays_in(#[trigger] gs[k], rest[i].id);
                    if k < n {
                        assert(gs[k] == og[k]);
                        assert(in_some_match(og, rest[i].id));
                    } else {
                        let j = choose|j: int| 0 <= j < gs[k].players@.len() && #[trigger] gs[k].players@[j].id == rest[i].id;
                        assert(gs[k].players@[j] == waiting[j]);
                        assert(waiting[j].id == waiting[i + MATCH_SIZE].id);
                    }
                }
            }
            assert forall|k1: int, k2: int, id2: u128|
                0 <= k1 < gs.len() && 0 <= k2 < gs.len() && #[trigger] plays_in(gs[k1], id2)
                    && #[trigger] plays_in(gs[k2], id2) implies k1 == k2 by {
                if k1 < n && k2 < n {
                    assert(gs[k1] == og[k1] && gs[k2] == og[k2]);
                } else if k1 != k2 {
                    let (ko, kn) = if k1 < n {
                        (k1, k2)
                    } else {
                        (k2, k1)
                    };
                    assert(kn == n);
                    let j = choose|j: int| 0 <= j < gs[kn].players@.len() && #[trigger] gs[kn].players@[j].id == id2;
                    assert(gs[kn].players@[j] == waiting[j]);
                    assert(gs[ko] == og[ko]);
                    assert(plays_in(og[ko], id2));
                    assert(in_some_match(og, waiting[j].id));
                }
            }
        }
        assert forall|i: int, j: int|
            0 <= i < gs.len() && 0 <= j < gs.len() && #[trigger] gs[i].id == #[trigger] gs[j].id
                implies i == j by {
            if i < n && j == n {
                assert(old(games).games@[i].id == id);
            }
            if j < n && i == n {
                assert(old(games).games@[j].id == id);
            }
        }
        assert forall|i: int| 0 <= i < gs.len() implies game_wf(#[trigger] gs[i]@) by {
            if i < n {
                assert(gs[i] == old(games).games@[i]);
            }
        }
    }
    true
}

/// Matchmaking: when enough players wait, starts a match under a fresh
/// random id, the first turn going to a player drawn uniformly; returns the
/// new match's id.
pub fn start_new_game(room: &mut WaitingRoom, games: &mut ActiveGames, out: &mut Vec<Envelope>) -> (r: Option<u128>)
    requires
        old(room).wf(),
        old(games).wf(),
    ensures
        final(room).wf(),
        final(games).wf(),
        old(room).players@.len() < MATCH_SIZE ==> r is None,
        old(room).players@.len() >= MATCH_SIZE && old(games).games@.len() == 0 ==> r is Some,
        r is None ==> final(room).players@ == old(room).players@ && final(games).games@ == old(
            games,
        ).games@ && final(out)@ == old(out)@,
        membership_wf(old(room).players@, old(games).games@) ==> membership_wf(
            final(room).players@,
            final(games).games@,
        ),
        r matches Some(id) ==> {
            let ps = old(room).players@.subrange(0, MATCH_SIZE as int);
            let n = old(games).games@.len() as int;
            let g = final(games).games@[n]@;
            let t = g.player_turn;
            let m = old(out)@.len() as int;
            &&& !id_in_use(old(games).games@, id)
            &&& final(room).players@ == old(room).players@.subrange(
                MATCH_SIZE as int,
                old(room).players@.len() as int,
            )
            &&& final(games).games@.len() == n + 1
            &&& forall|j: int| 0 <= j < n ==> #[trigger] final(games).games@[j] == old(games).games@[j]
            &&& g.id == id
            &&& g.players == ps
            &&& 0 <= t < MATCH_SIZE
            &&& g.current_turn == 0
            &&& g.phase == Phase::AwaitingRoll
            &&& g.board.len() == 40
            &&& forall|i: int| 0 <= i < g.board.len() ==> tile_owner(#[trigger] g.board[i]) is None
            &&& final(out)@.len() == m + 2
            &&& forall|j: int| 0 <= j < m ==> #[trigger] final(out)@[j] == old(out)@[j]
            &&& final(out)@[m].recipients@ == ids_of(ps)
            &&& final(out)@[m].message.action == Action::GameStart
            &&& final(out)@[m].message.payload matches Payload::Roster(v) && v@.len() == ps.len()
                && forall|i: int|
                0 <= i < ps.len() ==> (#[trigger] v@[i]).id == ps[i].id && v@[i].name == ps[i].name
            &&& final(out)@[m + 1].recipients@ == ids_of(ps)
            &&& final(out)@[m + 1].message == msg(Action::PlayerTurn, Payload::PlayerId(ps[t].id))
        },
{
    if room.players.len() < MATCH_SIZE {
        return None;
    }
    let id = new_id();
    let seed: u8 = crate::dice::uniform_between(0, (MATCH_SIZE - 1) as u8);
    if start_game_with(room, games, id, seed, out) {
        proof {
            vstd::arithmetic::div_mod::lemma_small_mod(seed as nat, MATCH_SIZE as nat);
        }
        Some(id)
    } else {
        None
    }
}

} // verus!
