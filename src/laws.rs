//! Laws of the turn engine, proved over the state-transition functions that
//! the engine's operations are specified by.

use vstd::prelude::*;
use crate::action::{msg, Action, Broadcast, Payload};
use crate::board::{is_ownable, tile_cost, tile_owner, tile_rent, utilities_owned, with_owner, Tile};
use crate::game::{
    action_step, advance, bankrupt_step, buy_step, can_buy, cur, game_wf, holds_id, index_of,
    land, lemma_advance_wf, lemma_bankrupt_wf, lemma_next_turn_solvent, lemma_solvent_at_least,
    lemma_solvent_at_most, lemma_with_cur_shape, next_turn, seek_from, rent_due, rent_or_buy, roll_step,
    shape_wf, solvent_count, step_pos, tax_step, with_cur, GameView, Phase, Player,
};

verus! {

/// Landing on a tile other than Go-to-Jail leaves the player where it stands
/// and keeps its jail state.
proof fn lemma_land_keeps(g: GameView, dice_sum: int)
    requires
        shape_wf(g),
    ensures
        land(g, dice_sum).0.players.len() == g.players.len(),
        land(g, dice_sum).0.players[g.player_turn].id == cur(g).id,
        !(g.board[cur(g).position as int] is GoToJail) ==> {
            let q = land(g, dice_sum).0.players[g.player_turn];
            &&& q.position == cur(g).position
            &&& q.is_in_jail == cur(g).is_in_jail
            &&& q.jail_turns == cur(g).jail_turns
        },
{
    let p = cur(g);
    let t = g.board[p.position as int];
    if is_ownable(t) {
        let owner = tile_owner(t);
        if owner is Some && owner->0 != p.id && rent_due(g, owner) && p.money >= tile_rent(
            g.board,
            t,
            dice_sum,
        ) as u32 {
            let k = index_of(g.players, owner->0)->0;
            assert(holds_id(g.players, k, owner->0));
        }
    }
}

/// A die shows a value from 1 to 6, and a player out of jail moves by the
/// sum of the dice, modulo the board's length: the move is announced, and
/// the player stays there unless the tile sends it to jail.
pub proof fn law_roll_moves_by_dice_sum(g: GameView, d1: u8, d2: u8)
    requires
        shape_wf(g),
        1 <= d1 <= 6,
        1 <= d2 <= 6,
        !cur(g).is_in_jail,
    ensures
        ({
            let dest = ((cur(g).position + d1 + d2) % (g.board.len() as int)) as usize;
            let r = roll_step(g, d1, d2);
            &&& r.1.len() >= 2
            &&& r.1[1] == msg(Action::Move, Payload::Position(dest))
            &&& !(g.board[dest as int] is GoToJail) ==> r.0.players[g.player_turn].position == dest
        }),
{
    let p = cur(g);
    let n = g.board.len() as int;
    let dest = step_pos(p.position, d1 + d2, n);
    vstd::arithmetic::div_mod::lemma_mod_bound(p.position + d1 + d2, n);
    let g1 = with_cur(g, Player { position: dest, ..p });
    lemma_with_cur_shape(g, Player { position: dest, ..p });
    lemma_land_keeps(g1, d1 + d2);
}

/// A jailed player who rolls doubles is freed whatever its countdown: the
/// release is announced, it moves by the dice, and it stays free unless the
/// tile reached sends it back.
pub proof fn law_doubles_free_from_jail(g: GameView, d: u8)
    requires
        shape_wf(g),
        1 <= d <= 6,
        cur(g).is_in_jail,
    ensures
        ({
            let dest = ((cur(g).position + d + d) % (g.board.len() as int)) as usize;
            let r = roll_step(g, d, d);
            &&& r.1.len() >= 3
            &&& r.1[0] == msg(Action::FreeFromJail, Payload::PlayerId(cur(g).id))
            &&& r.1[2] == msg(Action::Move, Payload::Position(dest))
            &&& !(g.board[dest as int] is GoToJail) ==> {
                &&& !r.0.players[g.player_turn].is_in_jail
                &&& r.0.players[g.player_turn].position == dest
            }
        }),
{
    let p = cur(g);
    let p2 = Player { is_in_jail: false, jail_turns: 0, ..p };
    lemma_with_cur_shape(g, p2);
    law_roll_moves_by_dice_sum(with_cur(g, p2), d, d);
}

/// A jailed player who fails to roll doubles stays where it is; its
/// countdown drops by one and it is freed when the countdown reaches zero.
pub proof fn law_failed_jail_roll(g: GameView, d1: u8, d2: u8)
    requires
        shape_wf(g),
        cur(g).is_in_jail,
        cur(g).jail_turns >= 1,
        d1 != d2,
    ensures
        ({
            let q = roll_step(g, d1, d2).0.players[g.player_turn];
            &&& q.jail_turns == cur(g).jail_turns - 1
            &&& q.is_in_jail == (cur(g).jail_turns > 1)
            &&& q.position == cur(g).position
        }),
{
}

/// Sent to jail with three turns on the countdown, a player who fails to
/// roll doubles three times in a row is still jailed after the first two
/// failures and free after the third. `g2` and `g3` are the states at its
/// next two rolls, in which its jail record is the one its previous roll
/// left.
pub proof fn law_three_failures_free(
    g1: GameView,
    g2: GameView,
    g3: GameView,
    a1: u8,
    b1: u8,
    a2: u8,
    b2: u8,
    a3: u8,
    b3: u8,
)
    requires
        shape_wf(g1),
        shape_wf(g2),
        shape_wf(g3),
        cur(g1).is_in_jail,
        cur(g1).jail_turns == 3,
        a1 != b1,
        a2 != b2,
        a3 != b3,
        cur(g2).is_in_jail == roll_step(g1, a1, b1).0.players[g1.player_turn].is_in_jail,
        cur(g2).jail_turns == roll_step(g1, a1, b1).0.players[g1.player_turn].jail_turns,
        cur(g3).is_in_jail == roll_step(g2, a2, b2).0.players[g2.player_turn].is_in_jail,
        cur(g3).jail_turns == roll_step(g2, a2, b2).0.players[g2.player_turn].jail_turns,
    ensures
        roll_step(g1, a1, b1).0.players[g1.player_turn].is_in_jail,
        roll_step(g2, a2, b2).0.players[g2.player_turn].is_in_jail,
        !roll_step(g3, a3, b3).0.players[g3.player_turn].is_in_jail,
{
    law_failed_jail_roll(g1, a1, b1);
    law_failed_jail_roll(g2, a2, b2);
    law_failed_jail_roll(g3, a3, b3);
}

/// The cyclic walk from `j` stops `s` steps ahead, every player passed over
/// on the way being bankrupt.
proof fn lemma_seek_path(ps: Seq<Player>, j: int, fuel: nat) -> (s: int)
    requires
        0 <= j < ps.len(),
    ensures
        0 <= s <= fuel,
        seek_from(ps, j, fuel) == (j + s) % (ps.len() as int),
        forall|k: int| 0 <= k < s ==> #[trigger] ps[(j + k) % (ps.len() as int)].is_bankrupt,
    decreases fuel,
{
    let n = ps.len() as int;
    vstd::arithmetic::div_mod::lemma_small_mod(j as nat, n as nat);
    if fuel == 0 || !ps[j].is_bankrupt {
        0
    } else {
        let j2 = (j + 1) % n;
        vstd::arithmetic::div_mod::lemma_mod_bound(j + 1, n);
        let s2 = lemma_seek_path(ps, j2, (fuel - 1) as nat);
        vstd::arithmetic::div_mod::lemma_add_mod_noop_right(s2, j + 1, n);
        assert forall|k: int| 0 <= k < s2 + 1 implies #[trigger] ps[(j + k) % n].is_bankrupt by {
            if k > 0 {
                vstd::arithmetic::div_mod::lemma_add_mod_noop_right(k - 1, j + 1, n);
                assert(ps[(j2 + (k - 1)) % n].is_bankrupt);
            }
        }
        s2 + 1
    }
}

/// While two solvent players or more remain, the turn passes `steps`
/// places on, to a solvent player other than the one who just played; every
/// player passed over is bankrupt, the match goes on and the turn counter
/// grows by one.
pub proof fn law_advance_skips_bankrupt(g: GameView) -> (steps: int)
    requires
        shape_wf(g),
        solvent_count(g.players) >= 2,
    ensures
        ({
            let n = g.players.len() as int;
            let a = advance(g).0;
            &&& 1 <= steps < n
            &&& a.player_turn == (g.player_turn + steps) % n
            &&& a.player_turn != g.player_turn
            &&& !a.players[a.player_turn].is_bankrupt
            &&& forall|k: int| 1 <= k < steps ==> #[trigger] g.players[(g.player_turn + k) % n].is_bankrupt
            &&& a.phase == Phase::AwaitingRoll
            &&& a.players == g.players
            &&& g.current_turn < u64::MAX ==> a.current_turn == g.current_turn + 1
        }),
{
    lemma_advance_wf(g);
    let ps = g.players;
    let n = ps.len() as int;
    let o = g.player_turn;
    let j = (o + 1) % n;
    vstd::arithmetic::div_mod::lemma_mod_bound(o + 1, n);
    let s = lemma_seek_path(ps, j, (n - 1) as nat);
    vstd::arithmetic::div_mod::lemma_add_mod_noop_right(s, o + 1, n);
    assert forall|k: int| 1 <= k < s + 1 implies #[trigger] ps[(o + k) % n].is_bankrupt by {
        vstd::arithmetic::div_mod::lemma_add_mod_noop_right(k - 1, o + 1, n);
        assert(ps[(j + (k - 1)) % n].is_bankrupt);
    }
    if s + 1 == n {
        vstd::arithmetic::div_mod::lemma_mod_self_0(n);
        vstd::arithmetic::div_mod::lemma_small_mod(o as nat, n as nat);
        vstd::arithmetic::div_mod::lemma_mod_add_multiples_vanish(o, n);
        assert forall|m: int| 0 <= m < n && m != o implies #[trigger] ps[m].is_bankrupt by {
            let k = if m > o {
                m - o
            } else {
                m - o + n
            };
            vstd::arithmetic::div_mod::lemma_small_mod(m as nat, n as nat);
            if m < o {
                vstd::arithmetic::div_mod::lemma_mod_add_multiples_vanish(m, n);
            }
            assert((o + k) % n == m);
            assert(ps[(o + k) % n].is_bankrupt);
        }
        lemma_solvent_at_most(ps, o);
    }
    let t = (o + s + 1) % n;
    if o + s + 1 < n {
        vstd::arithmetic::div_mod::lemma_small_mod((o + s + 1) as nat, n as nat);
    } else {
        vstd::arithmetic::div_mod::lemma_mod_sub_multiples_vanish(o + s + 1, n);
        vstd::arithmetic::div_mod::lemma_small_mod((o + s + 1 - n) as nat, n as nat);
    }
    assert(t != o);
    assert(advance(g).0.player_turn == t);
    s + 1
}

/// With one solvent player left, advancing ends the match and names that
/// player, the only solvent one, the winner.
pub proof fn law_last_solvent_wins(g: GameView)
    requires
        shape_wf(g),
        solvent_count(g.players) == 1,
    ensures
        advance(g).0.phase == Phase::GameOver,
        ({
            let w = next_turn(g.players, g.player_turn);
            &&& 0 <= w < g.players.len()
            &&& !g.players[w].is_bankrupt
            &&& forall|m: int| 0 <= m < g.players.len() && m != w ==> #[trigger] g.players[m].is_bankrupt
            &&& advance(g).1 == seq![msg(Action::GameOver, Payload::PlayerId(g.players[w].id))]
        }),
{
    let ps = g.players;
    if forall|m: int| 0 <= m < ps.len() ==> #[trigger] ps[m].is_bankrupt {
        lemma_solvent_at_most(ps, -1);
    }
    let m = choose|m: int| 0 <= m < ps.len() && !#[trigger] ps[m].is_bankrupt;
    lemma_next_turn_solvent(ps, g.player_turn, m);
    let w = next_turn(ps, g.player_turn);
    assert forall|m2: int| 0 <= m2 < ps.len() && m2 != w implies #[trigger] ps[m2].is_bankrupt by {
        if !ps[m2].is_bankrupt {
            lemma_solvent_at_least(ps, m2, w);
        }
    }
}

/// A finished match takes no further action.
pub proof fn law_game_over_is_final(g: GameView, sender: u128, action: Action, d1: u8, d2: u8)
    requires
        g.phase == Phase::GameOver,
    ensures
        action_step(g, sender, action, d1, d2) == (g, Seq::<Broadcast>::empty()),
{
}

/// Buying a free, affordable tile takes exactly its cost from the buyer and
/// makes the buyer its owner.
pub proof fn law_buy_debits_cost(g: GameView)
    requires
        shape_wf(g),
        can_buy(g),
    ensures
        ({
            let p = cur(g);
            let t = g.board[p.position as int];
            let r = buy_step(g).0;
            &&& r.players[g.player_turn].money == p.money - tile_cost(t)
            &&& r.board[p.position as int] == with_owner(t, Some(p.id))
            &&& tile_owner(r.board[p.position as int]) == Some(p.id)
        }),
{
}

/// Landing on one's own tile offers nothing and moves no money: the turn
/// simply ends.
pub proof fn law_own_tile_no_effect(g: GameView, rent: u32, cost: u32)
    requires
        shape_wf(g),
    ensures
        rent_or_buy(g, rent, Some(cur(g).id), cost) == advance(g),
        advance(g).0.players == g.players,
        advance(g).0.board == g.board,
{
}

/// An attempt to buy a tile that already has an owner moves no money and
/// changes no ownership.
pub proof fn law_buy_owned_is_noop(g: GameView)
    requires
        shape_wf(g),
        tile_owner(g.board[cur(g).position as int]) is Some,
    ensures
        buy_step(g).0.players == g.players,
        buy_step(g).0.board == g.board,
{
}

/// Rent moves exactly the same amount from the tenant to the owner (short of
/// the owner's balance reaching the largest amount it can hold).
pub proof fn law_rent_conserves_money(g: GameView, rent: u32, owner: Option<u128>, cost: u32)
    requires
        shape_wf(g),
        owner is Some,
        owner->0 != cur(g).id,
        rent_due(g, owner),
        cur(g).money >= rent,
        g.players[index_of(g.players, owner->0)->0].money + rent <= u32::MAX,
    ensures
        ({
            let k = index_of(g.players, owner->0)->0;
            let r = rent_or_buy(g, rent, owner, cost).0;
            &&& r.players[g.player_turn].money == cur(g).money - rent
            &&& r.players[k].money == g.players[k].money + rent
            &&& r.players[g.player_turn].money + r.players[k].money == cur(g).money
                + g.players[k].money
        }),
{
    let k = index_of(g.players, owner->0)->0;
    assert(holds_id(g.players, k, owner->0));
    assert(k != g.player_turn);
}

/// Utility rent is four times the dice sum when the owner holds one utility
/// and ten times when it holds two.
pub proof fn law_utility_rent(b: Seq<Tile>, t: Tile, o: u128, dice_sum: int)
    requires
        t is Utility,
        tile_owner(t) == Some(o),
    ensures
        utilities_owned(b, o) == 1 ==> tile_rent(b, t, dice_sum) == 4 * dice_sum,
        utilities_owned(b, o) == 2 ==> tile_rent(b, t, dice_sum) == 10 * dice_sum,
{
}

/// A player who cannot pay a tax goes bankrupt with nothing left, and the
/// turn moves on.
pub proof fn law_unpaid_tax_bankrupts(g: GameView, price: u32)
    requires
        shape_wf(g),
        cur(g).money < price,
    ensures
        tax_step(g, price) == bankrupt_step(g),
        bankrupt_step(g).0.players[g.player_turn].is_bankrupt,
        bankrupt_step(g).0.players[g.player_turn].money == 0,
        bankrupt_step(g).1[0] == msg(Action::PlayerBankrupt, Payload::PlayerId(cur(g).id)),
        game_wf(bankrupt_step(g).0),
        bankrupt_step(g).0.phase == Phase::GameOver || bankrupt_step(g).0.player_turn
            != g.player_turn,
{
    lemma_bankrupt_wf(g);
}

/// A player who cannot pay rent that is due goes bankrupt with nothing
/// left, the owner gains nothing, and the turn moves on.
pub proof fn law_unpaid_rent_bankrupts(g: GameView, rent: u32, owner: Option<u128>, cost: u32)
    requires
        shape_wf(g),
        owner is Some,
        owner->0 != cur(g).id,
        rent_due(g, owner),
        cur(g).money < rent,
    ensures
        rent_or_buy(g, rent, owner, cost) == bankrupt_step(g),
        bankrupt_step(g).0.players[g.player_turn].is_bankrupt,
        bankrupt_step(g).0.players[g.player_turn].money == 0,
        forall|k: int| 0 <= k < g.players.len() && k != g.player_turn ==>
            #[trigger] bankrupt_step(g).0.players[k] == g.players[k],
        game_wf(bankrupt_step(g).0),
        bankrupt_step(g).0.phase == Phase::GameOver || bankrupt_step(g).0.player_turn
            != g.player_turn,
{
    lemma_bankrupt_wf(g);
}

} // verus!
