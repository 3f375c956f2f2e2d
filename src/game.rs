//! One match: its players, its private board, and the turn engine that
//! resolves rolls, tile effects, purchases and turn advancement.

use vstd::prelude::*;
use crate::action::{
    msg, Action, Broadcast, BuyPropertyData, DiceRollData, PayRentData, Payload,
    PlayerGoTileData, PlayerPayTaxData,
};
use crate::dice::roll_die;
use crate::board::{board_wf, first_jail_from, lemma_with_owner_wf, find_jail, rent_at, tile_wf, is_ownable, jail_index, tile_cost, tile_owner, tile_rent, with_owner, Tile};

verus! {

/// Where a match stands between two actions of its players.
#[derive(Debug, Clone, Copy, PartialEq, Eq, Structural)]
pub enum Phase {
    AwaitingRoll,
    AwaitingPurchaseDecision,
    GameOver,
}

/// A participant of a match.
#[derive(Debug, Clone)]
pub struct Player {
    pub id: u128,
    pub name: String,
    pub money: u32,
    pub position: usize,
    pub is_in_jail: bool,
    pub jail_turns: u8,
    pub is_bankrupt: bool,
}

impl Player {
    /// A player as identified on connection: 1500 in money, on the first
    /// tile, free and solvent.
    pub fn new(id: u128, name: String) -> (r: Player)
        ensures
            r.id == id,
            r.name == name,
            r.money == 1500,
            r.position == 0,
            !r.is_in_jail,
            r.jail_turns == 0,
            !r.is_bankrupt,
    {
        Player { id, name, money: 1500, position: 0, is_in_jail: false, jail_turns: 0, is_bankrupt: false }
    }
}

/// A match in progress.
#[derive(Debug)]
pub struct Game {
    pub id: u128,
    pub players: Vec<Player>,
    pub board: Vec<Tile>,
    pub current_turn: u64,
    pub player_turn: usize,
    pub phase: Phase,
}

/// The mathematical state of a match.
pub struct GameView {
    pub id: u128,
    pub players: Seq<Player>,
    pub board: Seq<Tile>,
    pub current_turn: u64,
    pub player_turn: int,
    pub phase: Phase,
}

impl View for Game {
    type V = GameView;

    open spec fn view(&self) -> GameView {
        GameView {
            id: self.id,
            players: self.players@,
            board: self.board@,
            current_turn: self.current_turn,
            player_turn: self.player_turn as int,
            phase: self.phase,
        }
    }
}

/// The state every operation can index safely: a valid board, a turn index
/// inside the roster, every player on the board, and distinct player ids.
pub open spec fn shape_wf(g: GameView) -> bool {
    &&& board_wf(g.board)
    &&& 0 <= g.player_turn < g.players.len()
    &&& forall|i: int| 0 <= i < g.players.len() ==> #[trigger] g.players[i].position < g.board.len()
    &&& forall|i: int, j: int|
        0 <= i < g.players.len() && 0 <= j < g.players.len() && #[trigger] g.players[i].id
            == #[trigger] g.players[j].id ==> i == j
}

/// The match invariant: while the match goes on, the turn holder is solvent.
pub open spec fn game_wf(g: GameView) -> bool {
    &&& shape_wf(g)
    &&& g.phase != Phase::GameOver ==> !g.players[g.player_turn].is_bankrupt
}

pub open spec fn cur(g: GameView) -> Player {
    g.players[g.player_turn]
}

pub open spec fn with_cur(g: GameView, p: Player) -> GameView {
    GameView { players: g.players.update(g.player_turn, p), ..g }
}

pub open spec fn with_phase(g: GameView, phase: Phase) -> GameView {
    GameView { phase, ..g }
}

/// Number of players that are not bankrupt.
pub open spec fn solvent_count(ps: Seq<Player>) -> nat
    decreases ps.len(),
{
    if ps.len() == 0 {
        0
    } else {
        solvent_count(ps.drop_last()) + if ps.last().is_bankrupt {
            0nat
        } else {
            1nat
        }
    }
}

/// Walks the roster cyclically from `j`, stopping at the first solvent
/// player or when `fuel` is spent.
pub open spec fn seek_from(ps: Seq<Player>, j: int, fuel: nat) -> int
    decreases fuel,
{
    if fuel == 0 || !ps[j].is_bankrupt {
        j
    } else {
        seek_from(ps, (j + 1) % (ps.len() as int), (fuel - 1) as nat)
    }
}

/// The first solvent player after `i` in cyclic order (`i` itself last).
pub open spec fn next_turn(ps: Seq<Player>, i: int) -> int {
    seek_from(ps, (i + 1) % (ps.len() as int), (ps.len() - 1) as nat)
}

pub open spec fn bump(n: u64) -> u64 {
    if n < u64::MAX {
        (n + 1) as u64
    } else {
        n
    }
}

/// Turn advancement: with at most one solvent player left the match is over
/// (and the sole survivor is announced the winner); otherwise the turn passes
/// to the next solvent player.
pub open spec fn advance(g: GameView) -> (GameView, Seq<Broadcast>) {
    let t = next_turn(g.players, g.player_turn);
    if solvent_count(g.players) <= 1 {
        (
            with_phase(g, Phase::GameOver),
            if solvent_count(g.players) == 1 {
                seq![msg(Action::GameOver, Payload::PlayerId(g.players[t].id))]
            } else {
                Seq::empty()
            },
        )
    } else {
        (
            GameView {
                current_turn: bump(g.current_turn),
                player_turn: t,
                phase: Phase::AwaitingRoll,
                ..g
            },
            seq![msg(Action::PlayerTurn, Payload::PlayerId(g.players[t].id))],
        )
    }
}

/// Prefixes the broadcasts of a step with `m`.
pub open spec fn after(m: Seq<Broadcast>, step: (GameView, Seq<Broadcast>)) -> (
    GameView,
    Seq<Broadcast>,
) {
    (step.0, m + step.1)
}

pub open spec fn credit(m: u32, a: u32) -> u32 {
    if m + a > u32::MAX {
        u32::MAX
    } else {
        (m + a) as u32
    }
}

/// Bankruptcy of the turn holder: nothing left, announced, turn over.
pub open spec fn bankrupt_step(g: GameView) -> (GameView, Seq<Broadcast>) {
    let p = cur(g);
    after(
        seq![msg(Action::PlayerBankrupt, Payload::PlayerId(p.id))],
        advance(with_cur(g, Player { is_bankrupt: true, money: 0, ..p })),
    )
}

/// A tax of `price`: paid when affordable, bankruptcy otherwise.
pub open spec fn tax_step(g: GameView, price: u32) -> (GameView, Seq<Broadcast>) {
    let p = cur(g);
    if p.money < price {
        bankrupt_step(g)
    } else {
        after(
            seq![msg(Action::PayTax, Payload::Tax(PlayerPayTaxData { player: p.id, amount: price }))],
            advance(with_cur(g, Player { money: (p.money - price) as u32, ..p })),
        )
    }
}

pub open spec fn holds_id(ps: Seq<Player>, k: int, id: u128) -> bool {
    0 <= k < ps.len() && ps[k].id == id
}

/// Where the player with id `id` sits in the roster.
pub open spec fn index_of(ps: Seq<Player>, id: u128) -> Option<int> {
    if exists|k: int| holds_id(ps, k, id) {
        Some(choose|k: int| holds_id(ps, k, id))
    } else {
        None
    }
}

/// Whether the rent of a tile held by `owner` is owed by the turn holder:
/// the owner is someone else, still in the match, and solvent.
pub open spec fn rent_due(g: GameView, owner: Option<u128>) -> bool {
    &&& owner is Some
    &&& owner->0 != cur(g).id
    &&& index_of(g.players, owner->0) is Some
    &&& !g.players[index_of(g.players, owner->0)->0].is_bankrupt
}

/// Rent of `rent` moves from the turn holder to the player at `k`.
pub open spec fn transfer(g: GameView, k: int, rent: u32) -> GameView {
    let p = cur(g);
    let g1 = with_cur(g, Player { money: (p.money - rent) as u32, ..p });
    let q = g1.players[k];
    GameView { players: g1.players.update(k, Player { money: credit(q.money, rent), ..q }), ..g1 }
}

/// Landing on an ownable tile: rent to its owner when due (bankruptcy when
/// unaffordable); an offer to buy when nobody holds it and the turn holder
/// can afford `cost`; otherwise, on the turn holder's own tile among them,
/// the turn ends.
pub open spec fn rent_or_buy(g: GameView, rent: u32, owner: Option<u128>, cost: u32) -> (
    GameView,
    Seq<Broadcast>,
) {
    let p = cur(g);
    if owner is Some && owner->0 != p.id {
        if rent_due(g, owner) {
            if p.money < rent {
                bankrupt_step(g)
            } else {
                after(
                    seq![
                        msg(
                            Action::PayRent,
                            Payload::Rent(PayRentData { rent, owner: owner->0, player: p.id }),
                        ),
                    ],
                    advance(transfer(g, index_of(g.players, owner->0)->0, rent)),
                )
            }
        } else {
            advance(g)
        }
    } else if owner is None && p.money >= cost {
        (
            with_phase(g, Phase::AwaitingPurchaseDecision),
            seq![
                msg(
                    Action::AskBuyProperty,
                    Payload::Purchase(BuyPropertyData { position: p.position, player: p.id }),
                ),
            ],
        )
    } else {
        advance(g)
    }
}

/// The effect of the tile the turn holder stands on, after a roll of `dice_sum`.
pub open spec fn land(g: GameView, dice_sum: int) -> (GameView, Seq<Broadcast>) {
    let p = cur(g);
    let t = g.board[p.position as int];
    match t {
        Tile::Go { amount } => after(
            seq![msg(Action::PlayerGoTile, Payload::GoCredit(PlayerGoTileData { player: p.id, amount }))],
            advance(with_cur(g, Player { money: credit(p.money, amount), ..p })),
        ),
        Tile::GoToJail => {
            let pos = match jail_index(g.board) {
                Some(j) => j as usize,
                None => p.position,
            };
            after(
                seq![msg(Action::GoToJail, Payload::PlayerId(p.id))],
                advance(with_cur(g, Player { position: pos, is_in_jail: true, jail_turns: 3, ..p })),
            )
        },
        Tile::Tax { price } => tax_step(g, price),
        Tile::LuxuryTax { price } => tax_step(g, price),
        _ => if is_ownable(t) {
            rent_or_buy(g, tile_rent(g.board, t, dice_sum) as u32, tile_owner(t), tile_cost(t))
        } else {
            advance(g)
        },
    }
}

/// The position `steps` tiles ahead of `from` on a board of `n` tiles.
pub open spec fn step_pos(from: usize, steps: int, n: int) -> usize {
    ((from + steps) % n) as usize
}

/// A move by the dice followed by the effect of the tile reached.
pub open spec fn move_and_land(g: GameView, d1: u8, d2: u8) -> (GameView, Seq<Broadcast>) {
    let p = cur(g);
    let pos = step_pos(p.position, d1 + d2, g.board.len() as int);
    after(
        seq![
            msg(Action::Roll, Payload::Dice(DiceRollData { dice1: d1, dice2: d2 })),
            msg(Action::Move, Payload::Position(pos)),
        ],
        land(with_cur(g, Player { position: pos, ..p }), d1 + d2),
    )
}

/// A roll of dice `d1` and `d2` by the turn holder. A jailed player is freed
/// by doubles and then moves; otherwise the countdown drops by one (freeing
/// the player at zero) and the turn ends without a move.
pub open spec fn roll_step(g: GameView, d1: u8, d2: u8) -> (GameView, Seq<Broadcast>) {
    let p = cur(g);
    if !p.is_in_jail {
        move_and_land(g, d1, d2)
    } else if d1 == d2 {
        after(
            seq![msg(Action::FreeFromJail, Payload::PlayerId(p.id))],
            move_and_land(with_cur(g, Player { is_in_jail: false, jail_turns: 0, ..p }), d1, d2),
        )
    } else {
        let left: u8 = if p.jail_turns == 0 {
            0
        } else {
            (p.jail_turns - 1) as u8
        };
        advance(with_cur(g, Player { jail_turns: left, is_in_jail: left != 0, ..p }))
    }
}

/// Whether the turn holder may buy the tile it stands on.
pub open spec fn can_buy(g: GameView) -> bool {
    let p = cur(g);
    let t = g.board[p.position as int];
    is_ownable(t) && tile_owner(t) is None && p.money >= tile_cost(t)
}

/// The turn holder buys the tile it stands on, if it is free and affordable;
/// either way the turn ends.
pub open spec fn buy_step(g: GameView) -> (GameView, Seq<Broadcast>) {
    let p = cur(g);
    let t = g.board[p.position as int];
    if can_buy(g) {
        let g1 = with_cur(g, Player { money: (p.money - tile_cost(t)) as u32, ..p });
        after(
            seq![
                msg(
                    Action::BuyProperty,
                    Payload::Purchase(BuyPropertyData { position: p.position, player: p.id }),
                ),
            ],
            advance(
                GameView {
                    board: g.board.update(p.position as int, with_owner(t, Some(p.id))),
                    ..g1
                },
            ),
        )
    } else {
        advance(g)
    }
}

/// The turn holder declines the offer; the turn ends.
pub open spec fn skip_step(g: GameView) -> (GameView, Seq<Broadcast>) {
    after(seq![msg(Action::SkipBuyProperty, Payload::Empty)], advance(g))
}

proof fn lemma_step_pos(pos: int, roll: int, n: int)
    requires
        0 <= pos < n,
        0 <= roll,
    ensures
        ({
            let step = roll % n;
            &&& 0 <= step < n
            &&& (pos >= n - step ==> pos - (n - step) == (pos + roll) % n)
            &&& (pos < n - step ==> pos + step == (pos + roll) % n)
        }),
{
    let step = roll % n;
    vstd::arithmetic::div_mod::lemma_mod_bound(roll, n);
    vstd::arithmetic::div_mod::lemma_add_mod_noop(pos, roll, n);
    vstd::arithmetic::div_mod::lemma_small_mod(pos as nat, n as nat);
    if pos + step >= n {
        vstd::arithmetic::div_mod::lemma_mod_sub_multiples_vanish(pos + step, n);
        vstd::arithmetic::div_mod::lemma_small_mod((pos + step - n) as nat, n as nat);
    } else {
        vstd::arithmetic::div_mod::lemma_small_mod((pos + step) as nat, n as nat);
    }
}

/// At most one solvent player when every player but the one at `i` is bankrupt
/// (none at all when `i` is outside the roster).
pub proof fn lemma_solvent_at_most(ps: Seq<Player>, i: int)
    requires
        forall|m: int| 0 <= m < ps.len() && m != i ==> #[trigger] ps[m].is_bankrupt,
    ensures
        solvent_count(ps) <= if 0 <= i < ps.len() {
            1int
        } else {
            0int
        },
    decreases ps.len(),
{
    if ps.len() > 0 {
        let q = ps.drop_last();
        assert forall|m: int| 0 <= m < q.len() && m != i implies #[trigger] q[m].is_bankrupt by {
            assert(q[m] == ps[m]);
        }
        lemma_solvent_at_most(q, i);
    }
}

/// Two distinct solvent players make a solvent count of at least two; one
/// makes at least one.
pub proof fn lemma_solvent_at_least(ps: Seq<Player>, a: int, b: int)
    requires
        0 <= a < ps.len(),
        !ps[a].is_bankrupt,
        0 <= b < ps.len(),
        !ps[b].is_bankrupt,
    ensures
        solvent_count(ps) >= 1,
        a != b ==> solvent_count(ps) >= 2,
    decreases ps.len(),
{
    let q = ps.drop_last();
    let last = ps.len() - 1;
    if a < last && b < last {
        assert(q[a] == ps[a] && q[b] == ps[b]);
        lemma_solvent_at_least(q, a, b);
    } else if a < last {
        assert(q[a] == ps[a]);
        lemma_solvent_at_least(q, a, a);
    } else if b < last {
        assert(q[b] == ps[b]);
        lemma_solvent_at_least(q, b, b);
    }
}

/// The cyclic walk stays in the roster and, when a solvent player lies
/// within `fuel` steps of `j`, stops on a solvent player.
pub proof fn lemma_seek(ps: Seq<Player>, j: int, fuel: nat, k: int)
    requires
        0 <= j < ps.len(),
        0 <= k <= fuel,
        !ps[(j + k) % (ps.len() as int)].is_bankrupt,
    ensures
        0 <= seek_from(ps, j, fuel) < ps.len(),
        !ps[seek_from(ps, j, fuel)].is_bankrupt,
    decreases fuel,
{
    let n = ps.len() as int;
    if k == 0 {
        vstd::arithmetic::div_mod::lemma_small_mod(j as nat, n as nat);
    }
    if fuel == 0 || !ps[j].is_bankrupt {
    } else {
        if k == 0 {
            assert(ps[(j + k) % n] == ps[j]);
        }
        let j2 = (j + 1) % n;
        vstd::arithmetic::div_mod::lemma_mod_bound(j + 1, n);
        vstd::arithmetic::div_mod::lemma_add_mod_noop_right(k - 1, j + 1, n);
        assert((j2 + (k - 1)) % n == (j + k) % n);
        lemma_seek(ps, j2, (fuel - 1) as nat, k - 1);
    }
}

/// With a solvent player at `m`, the next turn falls on a solvent player;
/// when `m` is not the turn holder `i`, the walk reaches it.
pub proof fn lemma_next_turn_solvent(ps: Seq<Player>, i: int, m: int)
    requires
        0 <= i < ps.len(),
        0 <= m < ps.len(),
        !ps[m].is_bankrupt,
    ensures
        0 <= next_turn(ps, i) < ps.len(),
        !ps[next_turn(ps, i)].is_bankrupt,
{
    let n = ps.len() as int;
    let j = (i + 1) % n;
    vstd::arithmetic::div_mod::lemma_mod_bound(i + 1, n);
    let k = if m > i {
        m - i - 1
    } else {
        m - i - 1 + n
    };
    vstd::arithmetic::div_mod::lemma_add_mod_noop_right(k, i + 1, n);
    vstd::arithmetic::div_mod::lemma_small_mod(m as nat, n as nat);
    if m <= i {
        vstd::arithmetic::div_mod::lemma_mod_add_multiples_vanish(m, n);
    }
    assert((j + k) % n == m);
    lemma_seek(ps, j, (n - 1) as nat, k);
}

/// A roster of two solvent players or more has a solvent player other than `i`.
pub proof fn lemma_other_solvent(ps: Seq<Player>, i: int) -> (m: int)
    requires
        solvent_count(ps) >= 2,
    ensures
        0 <= m < ps.len(),
        m != i,
        !ps[m].is_bankrupt,
{
    if forall|m: int| 0 <= m < ps.len() && m != i ==> #[trigger] ps[m].is_bankrupt {
        lemma_solvent_at_most(ps, i);
    }
    choose|m: int| 0 <= m < ps.len() && m != i && !#[trigger] ps[m].is_bankrupt
}

/// Advancing the turn restores the match invariant.
pub proof fn lemma_advance_wf(g: GameView)
    requires
        shape_wf(g),
    ensures
        game_wf(advance(g).0),
        advance(g).0.players == g.players,
        advance(g).0.board == g.board,
{
    if solvent_count(g.players) >= 2 {
        let m = lemma_other_solvent(g.players, g.player_turn);
        lemma_next_turn_solvent(g.players, g.player_turn, m);
    }
}

/// Replacing the turn holder by a record with the same id, still on the
/// board, keeps the shape of the match.
pub proof fn lemma_with_cur_shape(g: GameView, p: Player)
    requires
        shape_wf(g),
        p.id == cur(g).id,
        p.position < g.board.len(),
    ensures
        shape_wf(with_cur(g, p)),
{
    let g2 = with_cur(g, p);
    assert forall|i: int, j: int|
        0 <= i < g2.players.len() && 0 <= j < g2.players.len() && #[trigger] g2.players[i].id
            == #[trigger] g2.players[j].id implies i == j by {
        assert(g2.players[i].id == g.players[i].id);
        assert(g2.players[j].id == g.players[j].id);
    }
    assert forall|i: int| 0 <= i < g2.players.len() implies #[trigger] g2.players[i].position < g2.board.len() by {
        if i != g.player_turn {
            assert(g2.players[i] == g.players[i]);
        }
    }
}

/// Every property nobody holds goes to `id`, free of charge.
pub open spec fn buy_all_board(b: Seq<Tile>, id: u128) -> Seq<Tile> {
    Seq::new(
        b.len(),
        |i: int|
            if b[i] is Property && tile_owner(b[i]) is None {
                with_owner(b[i], Some(id))
            } else {
                b[i]
            },
    )
}

/// Whether the match takes `action` from `sender` in its current state: only
/// the turn holder of a match in progress acts, rolling while a roll is
/// awaited and buying or skipping while a purchase decision is.
pub open spec fn accepts(g: GameView, sender: u128, action: Action) -> bool {
    &&& g.phase != Phase::GameOver
    &&& cur(g).id == sender
    &&& match action {
        Action::Roll => g.phase == Phase::AwaitingRoll,
        Action::BuyProperty => g.phase == Phase::AwaitingPurchaseDecision,
        Action::SkipBuyProperty => g.phase == Phase::AwaitingPurchaseDecision,
        Action::BuyAll => true,
        _ => false,
    }
}

/// The effect of an inbound action, with dice `d1` and `d2` for a roll.
/// Actions the match does not take change nothing.
pub open spec fn action_step(g: GameView, sender: u128, action: Action, d1: u8, d2: u8) -> (
    GameView,
    Seq<Broadcast>,
) {
    if !accepts(g, sender, action) {
        (g, Seq::empty())
    } else {
        match action {
            Action::Roll => roll_step(g, d1, d2),
            Action::BuyProperty => buy_step(g),
            Action::SkipBuyProperty => skip_step(g),
            _ => (GameView { board: buy_all_board(g.board, sender), ..g }, Seq::empty()),
        }
    }
}

/// A disconnected player leaves the match. When it held the turn of a match
/// in progress that still has players, the turn passes on as after a normal
/// turn; a turn index past it shifts down by one.
pub open spec fn remove_step(g: GameView, id: u128) -> (GameView, Seq<Broadcast>) {
    match index_of(g.players, id) {
        None => (g, Seq::empty()),
        Some(r) => {
            let ps = g.players.remove(r);
            let g1 = GameView { players: ps, ..g };
            if ps.len() == 0 || g.phase == Phase::GameOver {
                (g1, Seq::empty())
            } else if r == g.player_turn {
                advance(GameView { player_turn: (r + ps.len() - 1) % (ps.len() as int), ..g1 })
            } else if r < g.player_turn {
                (GameView { player_turn: g.player_turn - 1, ..g1 }, Seq::empty())
            } else {
                (g1, Seq::empty())
            }
        },
    }
}

/// A match stays in the registry while it has players and is not over.
pub open spec fn kept(g: GameView) -> bool {
    g.players.len() > 0 && g.phase != Phase::GameOver
}

/// Whether rent would go to `owner`, another player, who is no longer in
/// the match: a broken invariant that the caller reports.
pub open spec fn owner_departed(g: GameView, owner: Option<u128>) -> bool {
    owner is Some && owner->0 != cur(g).id && index_of(g.players, owner->0) is None
}

/// Whether the tile the turn holder stands on is held by a departed player.
pub open spec fn land_departed(g: GameView) -> bool {
    let t = g.board[cur(g).position as int];
    is_ownable(t) && owner_departed(g, tile_owner(t))
}

pub open spec fn move_departed(g: GameView, d1: u8, d2: u8) -> bool {
    let p = cur(g);
    land_departed(with_cur(g, Player { position: step_pos(p.position, d1 + d2, g.board.len() as int), ..p }))
}

/// Whether a roll of `d1` and `d2` ends on a tile held by a departed player.
pub open spec fn roll_departed(g: GameView, d1: u8, d2: u8) -> bool {
    let p = cur(g);
    if !p.is_in_jail {
        move_departed(g, d1, d2)
    } else if d1 == d2 {
        move_departed(with_cur(g, Player { is_in_jail: false, jail_turns: 0, ..p }), d1, d2)
    } else {
        false
    }
}

/// Whether handling `action` ends on a tile held by a departed player.
pub open spec fn action_departed(g: GameView, sender: u128, action: Action, d1: u8, d2: u8) -> bool {
    accepts(g, sender, action) && action == Action::Roll && roll_departed(g, d1, d2)
}

/// Two rosters of the same players, seat by seat.
pub open spec fn same_ids(a: Seq<Player>, b: Seq<Player>) -> bool {
    a.len() == b.len() && forall|i: int| 0 <= i < a.len() ==> #[trigger] a[i].id == b[i].id
}

proof fn lemma_land_ids(g: GameView, dice_sum: int)
    requires
        shape_wf(g),
    ensures
        same_ids(land(g, dice_sum).0.players, g.players),
{
    let p = cur(g);
    let t = g.board[p.position as int];
    if is_ownable(t) {
        let owner = tile_owner(t);
        if owner is Some && owner->0 != p.id && rent_due(g, owner) {
            let k = index_of(g.players, owner->0)->0;
            assert(holds_id(g.players, k, owner->0));
        }
    }
}

/// Every action leaves the roster's players in their seats; only their
/// money, position and standing change.
pub proof fn lemma_action_ids(g: GameView, sender: u128, action: Action, d1: u8, d2: u8)
    requires
        shape_wf(g),
    ensures
        same_ids(action_step(g, sender, action, d1, d2).0.players, g.players),
{
    let p = cur(g);
    let n = g.board.len() as int;
    if accepts(g, sender, action) && action == Action::Roll {
        let g1 = if p.is_in_jail && d1 == d2 {
            with_cur(g, Player { is_in_jail: false, jail_turns: 0, ..p })
        } else {
            g
        };
        if !p.is_in_jail || d1 == d2 {
            let p1 = cur(g1);
            lemma_with_cur_shape(g, p1);
            let pos = step_pos(p1.position, d1 + d2, n);
            vstd::arithmetic::div_mod::lemma_mod_bound(p1.position + d1 + d2, n);
            lemma_with_cur_shape(g1, Player { position: pos, ..p1 });
            lemma_land_ids(with_cur(g1, Player { position: pos, ..p1 }), d1 + d2);
        }
    }
}

/// Bankruptcy restores the match invariant.
pub proof fn lemma_bankrupt_wf(g: GameView)
    requires
        shape_wf(g),
    ensures
        game_wf(bankrupt_step(g).0),
{
    let p = cur(g);
    lemma_with_cur_shape(g, Player { is_bankrupt: true, money: 0, ..p });
    lemma_advance_wf(with_cur(g, Player { is_bankrupt: true, money: 0, ..p }));
}

pub proof fn lemma_tax_wf(g: GameView, price: u32)
    requires
        shape_wf(g),
    ensures
        game_wf(tax_step(g, price).0),
{
    let p = cur(g);
    if p.money < price {
        lemma_bankrupt_wf(g);
    } else {
        lemma_with_cur_shape(g, Player { money: (p.money - price) as u32, ..p });
        lemma_advance_wf(with_cur(g, Player { money: (p.money - price) as u32, ..p }));
    }
}

pub proof fn lemma_transfer_shape(g: GameView, k: int, rent: u32)
    requires
        shape_wf(g),
        0 <= k < g.players.len(),
        k != g.player_turn,
    ensures
        shape_wf(transfer(g, k, rent)),
{
    let p = cur(g);
    let g1 = with_cur(g, Player { money: (p.money - rent) as u32, ..p });
    lemma_with_cur_shape(g, Player { money: (p.money - rent) as u32, ..p });
    let q = g1.players[k];
    let g2 = transfer(g, k, rent);
    assert forall|i: int, j: int|
        0 <= i < g2.players.len() && 0 <= j < g2.players.len() && #[trigger] g2.players[i].id
            == #[trigger] g2.players[j].id implies i == j by {
        assert(g2.players[i].id == g1.players[i].id);
        assert(g2.players[j].id == g1.players[j].id);
    }
    assert forall|i: int| 0 <= i < g2.players.len() implies #[trigger] g2.players[i].position < g2.board.len() by {
        assert(g2.players[i].position == g1.players[i].position);
    }
}

pub proof fn lemma_rent_or_buy_wf(g: GameView, rent: u32, owner: Option<u128>, cost: u32)
    requires
        shape_wf(g),
        !cur(g).is_bankrupt,
    ensures
        game_wf(rent_or_buy(g, rent, owner, cost).0),
{
    let p = cur(g);
    if owner is Some && owner->0 != p.id {
        if rent_due(g, owner) {
            if p.money < rent {
                lemma_bankrupt_wf(g);
            } else {
                let k = index_of(g.players, owner->0)->0;
                assert(holds_id(g.players, k, owner->0));
                lemma_transfer_shape(g, k, rent);
                lemma_advance_wf(transfer(g, k, rent));
            }
        } else {
            lemma_advance_wf(g);
        }
    } else if owner is None && p.money >= cost {
    } else {
        lemma_advance_wf(g);
    }
}

pub proof fn lemma_land_wf(g: GameView, dice_sum: int)
    requires
        shape_wf(g),
        !cur(g).is_bankrupt,
    ensures
        game_wf(land(g, dice_sum).0),
{
    let p = cur(g);
    let t = g.board[p.position as int];
    match t {
        Tile::Go { amount } => {
            lemma_with_cur_shape(g, Player { money: credit(p.money, amount), ..p });
            lemma_advance_wf(with_cur(g, Player { money: credit(p.money, amount), ..p }));
        },
        Tile::GoToJail => {
            let pos = match jail_index(g.board) {
                Some(j) => j as usize,
                None => p.position,
            };
            if jail_index(g.board) is Some {
                let j = choose|j: int| first_jail_from(g.board, j);
                assert(first_jail_from(g.board, j));
            }
            let p2 = Player { position: pos, is_in_jail: true, jail_turns: 3, ..p };
            lemma_with_cur_shape(g, p2);
            lemma_advance_wf(with_cur(g, p2));
        },
        Tile::Tax { price } => lemma_tax_wf(g, price),
        Tile::LuxuryTax { price } => lemma_tax_wf(g, price),
        _ => if is_ownable(t) {
            lemma_rent_or_buy_wf(g, tile_rent(g.board, t, dice_sum) as u32, tile_owner(t), tile_cost(t));
        } else {
            lemma_advance_wf(g);
        },
    }
}

pub proof fn lemma_move_wf(g: GameView, d1: u8, d2: u8)
    requires
        shape_wf(g),
        !cur(g).is_bankrupt,
    ensures
        game_wf(move_and_land(g, d1, d2).0),
{
    let p = cur(g);
    let n = g.board.len() as int;
    let pos = step_pos(p.position, d1 + d2, n);
    vstd::arithmetic::div_mod::lemma_mod_bound(p.position + d1 + d2, n);
    lemma_with_cur_shape(g, Player { position: pos, ..p });
    lemma_land_wf(with_cur(g, Player { position: pos, ..p }), d1 + d2);
}

/// A roll keeps the match invariant.
pub proof fn lemma_roll_wf(g: GameView, d1: u8, d2: u8)
    requires
        shape_wf(g),
        !cur(g).is_bankrupt,
    ensures
        game_wf(roll_step(g, d1, d2).0),
{
    let p = cur(g);
    if !p.is_in_jail {
        lemma_move_wf(g, d1, d2);
    } else if d1 == d2 {
        let p2 = Player { is_in_jail: false, jail_turns: 0, ..p };
        lemma_with_cur_shape(g, p2);
        lemma_move_wf(with_cur(g, p2), d1, d2);
    } else {
        let left: u8 = if p.jail_turns == 0 {
            0
        } else {
            (p.jail_turns - 1) as u8
        };
        let p2 = Player { jail_turns: left, is_in_jail: left != 0, ..p };
        lemma_with_cur_shape(g, p2);
        lemma_advance_wf(with_cur(g, p2));
    }
}

/// A purchase decision keeps the match invariant.
pub proof fn lemma_buy_wf(g: GameView)
    requires
        shape_wf(g),
    ensures
        game_wf(buy_step(g).0),
{
    let p = cur(g);
    let t = g.board[p.position as int];
    if can_buy(g) {
        let g1 = with_cur(g, Player { money: (p.money - tile_cost(t)) as u32, ..p });
        lemma_with_cur_shape(g, Player { money: (p.money - tile_cost(t)) as u32, ..p });
        lemma_with_owner_wf(g.board, p.position as int, Some(p.id));
        let g2 = GameView { board: g.board.update(p.position as int, with_owner(t, Some(p.id))), ..g1 };
        assert(shape_wf(g2));
        lemma_advance_wf(g2);
    } else {
        lemma_advance_wf(g);
    }
}

proof fn lemma_players_prefix_step(s: Seq<Player>, i: int)
    requires
        0 <= i < s.len(),
    ensures
        s.subrange(0, i + 1).drop_last() == s.subrange(0, i),
        s.subrange(0, i + 1).last() == s[i],
{
    assert(s.subrange(0, i + 1).drop_last() =~= s.subrange(0, i));
}

impl Game {
    /// Counts the players that are not bankrupt.
    pub fn solvent_players(&self) -> (r: usize)
        ensures
            r == solvent_count(self.players@),
    {
        let mut n: usize = 0;
        let mut i: usize = 0;
        while i < self.players.len()
            invariant
                i <= self.players.len(),
                n <= i,
                n == solvent_count(self.players@.subrange(0, i as int)),
            decreases self.players.len() - i,
        {
            proof {
                lemma_players_prefix_step(self.players@, i as int);
            }
            if !self.players[i].is_bankrupt {
                n = n + 1;
            }
            i = i + 1;
        }
        assert(self.players@.subrange(0, self.players.len() as int) =~= self.players@);
        n
    }

    /// The index of the next solvent player after the turn holder.
    pub fn next_turn_index(&self) -> (r: usize)
        requires
            self.player_turn < self.players.len(),
        ensures
            r == next_turn(self.players@, self.player_turn as int),
            r < self.players.len(),
    {
        let n = self.players.len();
        let mut j: usize = (self.player_turn + 1) % n;
        let mut fuel: usize = n - 1;
        while fuel > 0 && self.players[j].is_bankrupt
            invariant
                n == self.players.len(),
                j < n,
                fuel <= n - 1,
                seek_from(self.players@, j as int, fuel as nat) == next_turn(
                    self.players@,
                    self.player_turn as int,
                ),
            decreases fuel,
        {
            j = (j + 1) % n;
            fuel = fuel - 1;
        }
        j
    }

    /// Ends the current turn: declares the winner when at most one solvent
    /// player is left, else hands the turn to the next solvent player.
    pub fn advance_turn(&mut self, out: &mut Vec<Broadcast>)
        requires
            old(self).player_turn < old(self).players.len(),
        ensures
            final(self)@ == advance(old(self)@).0,
            final(out)@ == old(out)@ + advance(old(self)@).1,
    {
        let count = self.solvent_players();
        let t = self.next_turn_index();
        if count <= 1 {
            self.phase = Phase::GameOver;
            if count == 1 {
                out.push(Broadcast::new(Action::GameOver, Payload::PlayerId(self.players[t].id)));
            }
        } else {
            if self.current_turn < u64::MAX {
                self.current_turn = self.current_turn + 1;
            }
            self.player_turn = t;
            self.phase = Phase::AwaitingRoll;
            out.push(Broadcast::new(Action::PlayerTurn, Payload::PlayerId(self.players[t].id)));
        }
        proof {
            let ghost a = advance(old(self)@);
            assert(final(out)@ =~= old(out)@ + a.1);
        }
    }

    /// Bankrupts the turn holder: money to zero, announced, turn over.
    pub fn set_player_bankrupt(&mut self, out: &mut Vec<Broadcast>)
        requires
            old(self).player_turn < old(self).players.len(),
        ensures
            final(self)@ == bankrupt_step(old(self)@).0,
            final(out)@ == old(out)@ + bankrupt_step(old(self)@).1,
    {
        let i = self.player_turn;
        let id = self.players[i].id;
        self.players[i].is_bankrupt = true;
        self.players[i].money = 0;
        out.push(Broadcast::new(Action::PlayerBankrupt, Payload::PlayerId(id)));
        proof {
            let p = cur(old(self)@);
            assert(self.players@ =~= old(self)@.players.update(
                i as int,
                Player { is_bankrupt: true, money: 0, ..p },
            ));
        }
        self.advance_turn(out);
        proof {
            let g = old(self)@;
            let p = cur(g);
            let a = advance(with_cur(g, Player { is_bankrupt: true, money: 0, ..p }));
            assert(final(out)@ =~= old(out)@ + (seq![msg(Action::PlayerBankrupt, Payload::PlayerId(p.id))] + a.1));
        }
    }

    /// Where the player with id `id` sits in the roster.
    pub fn find_player(&self, id: u128) -> (r: Option<usize>)
        requires
            shape_wf(self@),
        ensures
            r matches Some(k) ==> index_of(self.players@, id) == Some(k as int),
            r is None ==> index_of(self.players@, id) is None,
    {
        let mut k: usize = 0;
        while k < self.players.len()
            invariant
                shape_wf(self@),
                k <= self.players.len(),
                forall|j: int| 0 <= j < k ==> #[trigger] self.players@[j].id != id,
            decreases self.players.len() - k,
        {
            if self.players[k].id == id {
                assert(holds_id(self.players@, k as int, id));
                proof {
                    let c = choose|c: int| holds_id(self.players@, c, id);
                    assert(holds_id(self.players@, c, id));
                    assert(self@.players[c].id == self@.players[k as int].id);
                }
                return Some(k);
            }
            k = k + 1;
        }
        assert(!exists|j: int| holds_id(self.players@, j, id));
        None
    }

    /// Charges the turn holder a tax of `price`, or bankrupts it when it
    /// cannot pay; the turn ends.
    pub fn pay_tax(&mut self, price: u32, out: &mut Vec<Broadcast>)
        requires
            old(self).player_turn < old(self).players.len(),
        ensures
            final(self)@ == tax_step(old(self)@, price).0,
            final(out)@ == old(out)@ + tax_step(old(self)@, price).1,
    {
        let i = self.player_turn;
        let money = self.players[i].money;
        if money < price {
            self.set_player_bankrupt(out);
        } else {
            let id = self.players[i].id;
            self.players[i].money = money - price;
            out.push(Broadcast::new(Action::PayTax, Payload::Tax(PlayerPayTaxData { player: id, amount: price })));
            proof {
                let p = cur(old(self)@);
                assert(self.players@ =~= old(self)@.players.update(
                    i as int,
                    Player { money: (p.money - price) as u32, ..p },
                ));
            }
            self.advance_turn(out);
            proof {
                let g = old(self)@;
                let p = cur(g);
                let a = advance(with_cur(g, Player { money: (p.money - price) as u32, ..p }));
                assert(final(out)@ =~= old(out)@ + (seq![msg(Action::PayTax, Payload::Tax(PlayerPayTaxData { player: id, amount: price }))] + a.1));
            }
        }
    }

    /// Resolves landing on an ownable tile held by `owner`, with rent `rent`
    /// and purchase price `cost`.
    /// Returns whether the owner has left the match, in which case no rent
    /// is collected and the turn ends.
    pub fn pay_rent_or_buy(&mut self, rent: u32, owner: Option<u128>, cost: u32, out: &mut Vec<Broadcast>) -> (departed: bool)
        requires
            shape_wf(old(self)@),
        ensures
            departed == owner_departed(old(self)@, owner),
            final(self)@ == rent_or_buy(old(self)@, rent, owner, cost).0,
            final(out)@ == old(out)@ + rent_or_buy(old(self)@, rent, owner, cost).1,
    {
        let i = self.player_turn;
        let pid = self.players[i].id;
        let money = self.players[i].money;
        let other: Option<u128> = match owner {
            Some(o) => if o != pid {
                Some(o)
            } else {
                None
            },
            None => None,
        };
        match other {
            Some(o) => {
                match self.find_player(o) {
                    Some(k) => {
                        if self.players[k].is_bankrupt {
                            self.advance_turn(out);
                        } else if money < rent {
                            self.set_player_bankrupt(out);
                        } else {
                            self.players[i].money = money - rent;
                            let q = self.players[k].money;
                            self.players[k].money = q.saturating_add(rent);
                            let b = Broadcast::new(Action::PayRent, Payload::Rent(PayRentData { rent, owner: o, player: pid }));
                            out.push(b);
                            proof {
                                let g = old(self)@;
                                assert(k != i);
                                assert(self@ == transfer(g, k as int, rent)) by {
                                    let p = cur(g);
                                    let g1 = with_cur(g, Player { money: (p.money - rent) as u32, ..p });
                                    let qq = g1.players[k as int];
                                    assert(self.players@ =~= g1.players.update(k as int, Player { money: credit(qq.money, rent), ..qq }));
                                }
                            }
                            self.advance_turn(out);
                            proof {
                                let g = old(self)@;
                                let a = advance(transfer(g, k as int, rent));
                                assert(final(out)@ =~= old(out)@ + (seq![b] + a.1));
                            }
                        }
                        false
                    },
                    None => {
                        self.advance_turn(out);
                        true
                    },
                }
            },
            None => {
                if owner.is_none() && money >= cost {
                    self.phase = Phase::AwaitingPurchaseDecision;
                    let position = self.players[i].position;
                    out.push(Broadcast::new(Action::AskBuyProperty, Payload::Purchase(BuyPropertyData { position, player: pid })));
                    proof {
                        assert(final(out)@ =~= old(out)@ + rent_or_buy(old(self)@, rent, owner, cost).1);
                    }
                } else {
                    self.advance_turn(out);
                }
                false
            },
        }
    }

    /// Resolves the tile the turn holder stands on, after a roll of `dice_sum`.
    /// Returns whether the tile is held by a player who has left the match.
    pub fn land(&mut self, dice_sum: u8, out: &mut Vec<Broadcast>) -> (departed: bool)
        requires
            shape_wf(old(self)@),
        ensures
            departed == land_departed(old(self)@),
            final(self)@ == land(old(self)@, dice_sum as int).0,
            final(out)@ == old(out)@ + land(old(self)@, dice_sum as int).1,
    {
        let i = self.player_turn;
        let pos = self.players[i].position;
        let id = self.players[i].id;
        if self.board[pos].is_ownable() {
            assert(tile_wf(self.board@, self.board@[pos as int]));
            let rent = rent_at(&self.board, pos, dice_sum);
            let owner = self.board[pos].owner();
            let cost = self.board[pos].cost();
            return self.pay_rent_or_buy(rent, owner, cost, out);
        }
        let (kind, amount): (u8, u32) = match &self.board[pos] {
            Tile::Go { amount } => (1, *amount),
            Tile::GoToJail => (2, 0),
            Tile::Tax { price } => (3, *price),
            Tile::LuxuryTax { price } => (3, *price),
            _ => (0, 0),
        };
        if kind == 1 {
            let money = self.players[i].money;
            self.players[i].money = money.saturating_add(amount);
            let b = Broadcast::new(Action::PlayerGoTile, Payload::GoCredit(PlayerGoTileData { player: id, amount }));
            out.push(b);
            proof {
                let p = cur(old(self)@);
                assert(self.players@ =~= old(self)@.players.update(
                    i as int,
                    Player { money: credit(p.money, amount), ..p },
                ));
            }
            self.advance_turn(out);
            proof {
                let g = old(self)@;
                let p = cur(g);
                let a = advance(with_cur(g, Player { money: credit(p.money, amount), ..p }));
                assert(final(out)@ =~= old(out)@ + (seq![b] + a.1));
            }
        } else if kind == 2 {
            let target = match find_jail(&self.board) {
                Some(j) => j,
                None => pos,
            };
            self.players[i].position = target;
            self.players[i].is_in_jail = true;
            self.players[i].jail_turns = 3;
            let b = Broadcast::new(Action::GoToJail, Payload::PlayerId(id));
            out.push(b);
            proof {
                let p = cur(old(self)@);
                assert(self.players@ =~= old(self)@.players.update(
                    i as int,
                    Player { position: target, is_in_jail: true, jail_turns: 3, ..p },
                ));
            }
            self.advance_turn(out);
            proof {
                let g = old(self)@;
                let p = cur(g);
                let a = advance(with_cur(g, Player { position: target, is_in_jail: true, jail_turns: 3, ..p }));
                assert(final(out)@ =~= old(out)@ + (seq![b] + a.1));
            }
        } else if kind == 3 {
            self.pay_tax(amount, out);
        } else {
            self.advance_turn(out);
        }
        false
    }

    /// Moves the turn holder by the dice and resolves the tile reached.
    /// Returns whether the tile reached is held by a player who has left.
    pub fn move_player(&mut self, d1: u8, d2: u8, out: &mut Vec<Broadcast>) -> (departed: bool)
        requires
            shape_wf(old(self)@),
            d1 <= 6,
            d2 <= 6,
        ensures
            departed == move_departed(old(self)@, d1, d2),
            final(self)@ == move_and_land(old(self)@, d1, d2).0,
            final(out)@ == old(out)@ + move_and_land(old(self)@, d1, d2).1,
    {
        let i = self.player_turn;
        let pos = self.players[i].position;
        let n = self.board.len();
        let roll: u8 = d1 + d2;
        let step = (roll as usize) % n;
        let target = if pos >= n - step {
            pos - (n - step)
        } else {
            pos + step
        };
        proof {
            lemma_step_pos(pos as int, roll as int, n as int);
        }
        assert(target == step_pos(pos, roll as int, n as int));
        self.players[i].position = target;
        let b1 = Broadcast::new(Action::Roll, Payload::Dice(DiceRollData { dice1: d1, dice2: d2 }));
        let b2 = Broadcast::new(Action::Move, Payload::Position(target));
        out.push(b1);
        out.push(b2);
        proof {
            let p = cur(old(self)@);
            assert(self.players@ =~= old(self)@.players.update(i as int, Player { position: target, ..p }));
            assert forall|k: int| 0 <= k < self.players@.len() implies #[trigger] self.players@[k].position
                < self.board@.len() by {
                if k != i {
                    assert(old(self)@.players[k].position < old(self)@.board.len());
                }
            }
        }
        let departed = self.land(roll, out);
        proof {
            let g = old(self)@;
            let p = cur(g);
            let a = land(with_cur(g, Player { position: target, ..p }), roll as int);
            assert(final(out)@ =~= old(out)@ + (seq![b1, b2] + a.1));
        }
        departed
    }

    /// Resolves a roll of dice `d1` and `d2` by the turn holder.
    /// Returns whether the roll ends on a tile held by a player who has left.
    pub fn roll_dice_with(&mut self, d1: u8, d2: u8, out: &mut Vec<Broadcast>) -> (departed: bool)
        requires
            shape_wf(old(self)@),
            1 <= d1 <= 6,
            1 <= d2 <= 6,
        ensures
            departed == roll_departed(old(self)@, d1, d2),
            final(self)@ == roll_step(old(self)@, d1, d2).0,
            final(out)@ == old(out)@ + roll_step(old(self)@, d1, d2).1,
    {
        let i = self.player_turn;
        if !self.players[i].is_in_jail {
            self.move_player(d1, d2, out)
        } else if d1 == d2 {
            let id = self.players[i].id;
            self.players[i].is_in_jail = false;
            self.players[i].jail_turns = 0;
            let b = Broadcast::new(Action::FreeFromJail, Payload::PlayerId(id));
            out.push(b);
            proof {
                let p = cur(old(self)@);
                assert(self.players@ =~= old(self)@.players.update(
                    i as int,
                    Player { is_in_jail: false, jail_turns: 0, ..p },
                ));
            }
            let departed = self.move_player(d1, d2, out);
            proof {
                let g = old(self)@;
                let p = cur(g);
                let a = move_and_land(with_cur(g, Player { is_in_jail: false, jail_turns: 0, ..p }), d1, d2);
                assert(final(out)@ =~= old(out)@ + (seq![b] + a.1));
            }
            departed
        } else {
            let turns = self.players[i].jail_turns;
            let left: u8 = if turns == 0 {
                0
            } else {
                turns - 1
            };
            self.players[i].jail_turns = left;
            self.players[i].is_in_jail = left != 0;
            proof {
                let p = cur(old(self)@);
                assert(self.players@ =~= old(self)@.players.update(
                    i as int,
                    Player { jail_turns: left, is_in_jail: left != 0, ..p },
                ));
            }
            self.advance_turn(out);
            false
        }
    }

    /// The turn holder `player_id` buys the tile it stands on when nobody
    /// holds it and it can pay; the turn ends either way. An id other than
    /// the turn holder's changes nothing.
    pub fn buy_property(&mut self, player_id: u128, out: &mut Vec<Broadcast>)
        requires
            shape_wf(old(self)@),
        ensures
            player_id == cur(old(self)@).id ==> final(self)@ == buy_step(old(self)@).0
                && final(out)@ == old(out)@ + buy_step(old(self)@).1,
            player_id != cur(old(self)@).id ==> *final(self) == *old(self) && final(out)@
                == old(out)@,
    {
        let i = self.player_turn;
        if self.players[i].id != player_id {
            return ;
        }
        let pos = self.players[i].position;
        let money = self.players[i].money;
        assert(tile_wf(self.board@, self.board@[pos as int]));
        let ownable = self.board[pos].is_ownable();
        let free = self.board[pos].owner().is_none();
        let cost = self.board[pos].cost();
        if ownable && free && money >= cost {
            self.players[i].money = money - cost;
            self.board[pos].set_owner(Some(player_id));
            let b = Broadcast::new(Action::BuyProperty, Payload::Purchase(BuyPropertyData { position: pos, player: player_id }));
            out.push(b);
            proof {
                let g = old(self)@;
                let p = cur(g);
                let t = g.board[pos as int];
                assert(self.players@ =~= g.players.update(i as int, Player { money: (p.money - tile_cost(t)) as u32, ..p }));
                assert(self.board@ =~= g.board.update(pos as int, with_owner(t, Some(p.id))));
            }
            self.advance_turn(out);
            proof {
                let g = old(self)@;
                let p = cur(g);
                let t = g.board[pos as int];
                let g1 = with_cur(g, Player { money: (p.money - tile_cost(t)) as u32, ..p });
                let a = advance(GameView { board: g.board.update(pos as int, with_owner(t, Some(p.id))), ..g1 });
                assert(final(out)@ =~= old(out)@ + (seq![b] + a.1));
            }
        } else {
            self.advance_turn(out);
        }
    }

    /// The turn holder declines to buy; the skip is announced and the turn ends.
    pub fn skip_buy_property(&mut self, out: &mut Vec<Broadcast>)
        requires
            old(self).player_turn < old(self).players.len(),
        ensures
            final(self)@ == skip_step(old(self)@).0,
            final(out)@ == old(out)@ + skip_step(old(self)@).1,
    {
        let b = Broadcast::new(Action::SkipBuyProperty, Payload::Empty);
        out.push(b);
        self.advance_turn(out);
        proof {
            let a = advance(old(self)@);
            assert(final(out)@ =~= old(out)@ + (seq![b] + a.1));
        }
    }

    /// Debug grant: every property nobody holds goes to `id`, free of charge.
    pub fn buy_all(&mut self, id: u128)
        requires
            board_wf(old(self).board@),
        ensures
            final(self)@ == (GameView { board: buy_all_board(old(self)@.board, id), ..old(self)@ }),
            board_wf(final(self).board@),
    {
        let ghost b0 = self.board@;
        let mut i: usize = 0;
        while i < self.board.len()
            invariant
                i <= self.board.len(),
                self.board@.len() == b0.len(),
                board_wf(self.board@),
                self.id == old(self).id,
                self.players == old(self).players,
                self.current_turn == old(self).current_turn,
                self.player_turn == old(self).player_turn,
                self.phase == old(self).phase,
                b0 == old(self).board@,
                forall|k: int| 0 <= k < i ==> #[trigger] self.board@[k] == buy_all_board(b0, id)[k],
                forall|k: int| i <= k < self.board@.len() ==> #[trigger] self.board@[k] == b0[k],
            decreases self.board.len() - i,
        {
            let grant = match &self.board[i] {
                Tile::Property { owner: None, .. } => true,
                _ => false,
            };
            if grant {
                proof {
                    lemma_with_owner_wf(self.board@, i as int, Some(id));
                }
                self.board[i].set_owner(Some(id));
            }
            i = i + 1;
        }
        assert(self.board@ =~= buy_all_board(b0, id));
    }

    /// Handles `action` from `sender` with dice `d1` and `d2` for a roll.
    /// Returns whether a roll ended on a tile held by a player who has left
    /// the match.
    pub fn handle_action_with(&mut self, sender: u128, action: Action, d1: u8, d2: u8, out: &mut Vec<Broadcast>) -> (departed: bool)
        requires
            game_wf(old(self)@),
            1 <= d1 <= 6,
            1 <= d2 <= 6,
        ensures
            departed == action_departed(old(self)@, sender, action, d1, d2),
            final(self)@ == action_step(old(self)@, sender, action, d1, d2).0,
            final(out)@ == old(out)@ + action_step(old(self)@, sender, action, d1, d2).1,
            game_wf(final(self)@),
    {
        if self.phase == Phase::GameOver || self.players[self.player_turn].id != sender {
            assert(final(out)@ =~= old(out)@ + Seq::<Broadcast>::empty());
            return false;
        }
        proof {
            lemma_roll_wf(self@, d1, d2);
            lemma_buy_wf(self@);
            lemma_advance_wf(self@);
        }
        match action {
            Action::Roll => {
                if self.phase == Phase::AwaitingRoll {
                    return self.roll_dice_with(d1, d2, out);
                }
            },
            Action::BuyProperty => {
                if self.phase == Phase::AwaitingPurchaseDecision {
                    self.buy_property(sender, out);
                    return false;
                }
            },
            Action::SkipBuyProperty => {
                if self.phase == Phase::AwaitingPurchaseDecision {
                    self.skip_buy_property(out);
                    return false;
                }
            },
            Action::BuyAll => {
                self.buy_all(sender);
                assert(final(out)@ =~= old(out)@ + Seq::<Broadcast>::empty());
                return false;
            },
            _ => {},
        }
        assert(final(out)@ =~= old(out)@ + Seq::<Broadcast>::empty());
        false
    }

    /// Handles `action` from `sender`, drawing two dice for a roll; returns
    /// the dice drawn and whether a roll ended on a tile held by a player who
    /// has left the match.
    pub fn handle_action(&mut self, sender: u128, action: Action, out: &mut Vec<Broadcast>) -> (r: (u8, u8, bool))
        requires
            game_wf(old(self)@),
        ensures
            r.2 == action_departed(old(self)@, sender, action, r.0, r.1),
            1 <= r.0 <= 6,
            1 <= r.1 <= 6,
            final(self)@ == action_step(old(self)@, sender, action, r.0, r.1).0,
            final(out)@ == old(out)@ + action_step(old(self)@, sender, action, r.0, r.1).1,
            game_wf(final(self)@),
    {
        let d1 = roll_die();
        let d2 = roll_die();
        let departed = self.handle_action_with(sender, action, d1, d2, out);
        (d1, d2, departed)
    }

    /// Takes the player with id `id` out of the match, passing the turn on
    /// when it held it.
    pub fn remove_player(&mut self, id: u128, out: &mut Vec<Broadcast>)
        requires
            game_wf(old(self)@),
        ensures
            final(self)@ == remove_step(old(self)@, id).0,
            final(out)@ == old(out)@ + remove_step(old(self)@, id).1,
            kept(final(self)@) ==> game_wf(final(self)@),
    {
        let found = self.find_player(id);
        match found {
            None => {
                assert(final(out)@ =~= old(out)@ + Seq::<Broadcast>::empty());
            },
            Some(r) => {
                let _gone = self.players.remove(r);
                let n = self.players.len();
                let ghost g = old(self)@;
                let ghost ps = g.players.remove(r as int);
                assert(self.players@ == ps);
                proof {
                    assert forall|i: int| 0 <= i < ps.len() implies #[trigger] ps[i].position
                        < g.board.len() by {
                        let i2 = if i < r {
                            i
                        } else {
                            i + 1
                        };
                        assert(ps[i] == g.players[i2]);
                    }
                    assert forall|i: int, j: int|
                        0 <= i < ps.len() && 0 <= j < ps.len() && #[trigger] ps[i].id
                            == #[trigger] ps[j].id implies i == j by {
                        let i2 = if i < r {
                            i
                        } else {
                            i + 1
                        };
                        let j2 = if j < r {
                            j
                        } else {
                            j + 1
                        };
                        assert(ps[i] == g.players[i2] && ps[j] == g.players[j2]);
                    }
                }
                if n == 0 || self.phase == Phase::GameOver {
                    assert(final(out)@ =~= old(out)@ + Seq::<Broadcast>::empty());
                } else if r == self.player_turn {
                    let prev = if r == 0 {
                        n - 1
                    } else {
                        r - 1
                    };
                    proof {
                        if r == 0 {
                            vstd::arithmetic::div_mod::lemma_small_mod((n - 1) as nat, n as nat);
                        } else {
                            vstd::arithmetic::div_mod::lemma_mod_add_multiples_vanish(r - 1, n as int);
                            vstd::arithmetic::div_mod::lemma_small_mod((r - 1) as nat, n as nat);
                        }
                    }
                    assert(prev == (r + n - 1) % (n as int));
                    self.player_turn = prev;
                    proof {
                        lemma_advance_wf(self@);
                    }
                    self.advance_turn(out);
                } else if r < self.player_turn {
                    self.player_turn = self.player_turn - 1;
                    assert(self@.players[self@.player_turn] == g.players[g.player_turn]);
                    assert(final(out)@ =~= old(out)@ + Seq::<Broadcast>::empty());
                } else {
                    assert(self@.players[self@.player_turn] == g.players[g.player_turn]);
                    assert(final(out)@ =~= old(out)@ + Seq::<Broadcast>::empty());
                }
            },
        }
    }
}

} // verus!
