//! The board: tile kinds, their economic parameters, and the rent rules that
//! depend on who owns what.

use vstd::prelude::*;

verus! {

/// Improvement level of a property; indexes its rent table.
#[derive(Debug, Clone, Copy, PartialEq, Eq, Structural)]
pub enum PropertyLevel {
    Base,
    House1,
    House2,
    House3,
    House4,
    Hotel,
}

/// The rent-table index of a level.
pub open spec fn level_index(l: PropertyLevel) -> nat {
    match l {
        PropertyLevel::Base => 0,
        PropertyLevel::House1 => 1,
        PropertyLevel::House2 => 2,
        PropertyLevel::House3 => 3,
        PropertyLevel::House4 => 4,
        PropertyLevel::Hotel => 5,
    }
}

impl PropertyLevel {
    pub fn index(&self) -> (r: usize)
        ensures
            r == level_index(*self),
    {
        match self {
            PropertyLevel::Base => 0,
            PropertyLevel::House1 => 1,
            PropertyLevel::House2 => 2,
            PropertyLevel::House3 => 3,
            PropertyLevel::House4 => 4,
            PropertyLevel::Hotel => 5,
        }
    }
}

/// One position on the board.
#[derive(Debug, Clone)]
pub enum Tile {
    Property {
        name: String,
        costs: Vec<u32>,
        rents: Vec<u32>,
        level: PropertyLevel,
        owner: Option<u128>,
    },
    Chance(String),
    Jail,
    GoToJail,
    Go { amount: u32 },
    FreeParking,
    Railroad { owner: Option<u128>, cost: u32, rents: Vec<u32> },
    Utility { cost: u32, owner: Option<u128> },
    Tax { price: u32 },
    LuxuryTax { price: u32 },
}

/// Properties, railroads and utilities can be bought and owned.
pub open spec fn is_ownable(t: Tile) -> bool {
    t is Property || t is Railroad || t is Utility
}

/// The owner of an ownable tile; `None` for every other tile.
pub open spec fn tile_owner(t: Tile) -> Option<u128> {
    match t {
        Tile::Property { owner, .. } => owner,
        Tile::Railroad { owner, .. } => owner,
        Tile::Utility { owner, .. } => owner,
        _ => None,
    }
}

/// The purchase price of an ownable tile: the first tier for a property.
pub open spec fn tile_cost(t: Tile) -> u32 {
    match t {
        Tile::Property { costs, .. } => costs@[0],
        Tile::Railroad { cost, .. } => cost,
        Tile::Utility { cost, .. } => cost,
        _ => 0,
    }
}

/// The same tile with another owner; tiles that cannot be owned are unchanged.
pub open spec fn with_owner(t: Tile, o: Option<u128>) -> Tile {
    match t {
        Tile::Property { name, costs, rents, level, .. } => Tile::Property {
            name,
            costs,
            rents,
            level,
            owner: o,
        },
        Tile::Railroad { cost, rents, .. } => Tile::Railroad { owner: o, cost, rents },
        Tile::Utility { cost, .. } => Tile::Utility { cost, owner: o },
        _ => t,
    }
}

pub open spec fn is_railroad_of(t: Tile, o: u128) -> bool {
    t is Railroad && tile_owner(t) == Some(o)
}

pub open spec fn is_utility_of(t: Tile, o: u128) -> bool {
    t is Utility && tile_owner(t) == Some(o)
}

/// Number of railroads on the board held by `o`.
pub open spec fn railroads_owned(b: Seq<Tile>, o: u128) -> nat
    decreases b.len(),
{
    if b.len() == 0 {
        0
    } else {
        railroads_owned(b.drop_last(), o) + if is_railroad_of(b.last(), o) {
            1nat
        } else {
            0nat
        }
    }
}

/// Number of utilities on the board held by `o`.
pub open spec fn utilities_owned(b: Seq<Tile>, o: u128) -> nat
    decreases b.len(),
{
    if b.len() == 0 {
        0
    } else {
        utilities_owned(b.drop_last(), o) + if is_utility_of(b.last(), o) {
            1nat
        } else {
            0nat
        }
    }
}

pub open spec fn railroad_count(b: Seq<Tile>) -> nat
    decreases b.len(),
{
    if b.len() == 0 {
        0
    } else {
        railroad_count(b.drop_last()) + if b.last() is Railroad {
            1nat
        } else {
            0nat
        }
    }
}

/// Utility rent: four times the dice sum for one utility held, ten times for two.
pub open spec fn utility_rent(held: nat, dice_sum: int) -> int {
    if held == 1 {
        4 * dice_sum
    } else if held == 2 {
        10 * dice_sum
    } else {
        0
    }
}

/// What landing on tile `t` of board `b` costs in rent, for a roll of `dice_sum`.
pub open spec fn tile_rent(b: Seq<Tile>, t: Tile, dice_sum: int) -> int {
    match t {
        Tile::Property { rents, level, .. } => rents@[level_index(level) as int] as int,
        Tile::Railroad { owner, rents, .. } => match owner {
            Some(o) => rents@[railroads_owned(b, o) as int] as int,
            None => 0,
        },
        Tile::Utility { owner, .. } => match owner {
            Some(o) => utility_rent(utilities_owned(b, o), dice_sum),
            None => 0,
        },
        _ => 0,
    }
}

/// A tile whose tables cover every index the rules can ask for.
pub open spec fn tile_wf(b: Seq<Tile>, t: Tile) -> bool {
    match t {
        Tile::Property { costs, rents, level, .. } => costs@.len() >= 1 && level_index(level)
            < rents@.len(),
        Tile::Railroad { rents, .. } => railroad_count(b) < rents@.len(),
        _ => true,
    }
}

pub open spec fn board_wf(b: Seq<Tile>) -> bool {
    &&& b.len() >= 1
    &&& forall|i: int| 0 <= i < b.len() ==> tile_wf(b, #[trigger] b[i])
}

pub open spec fn first_jail_from(b: Seq<Tile>, i: int) -> bool {
    &&& 0 <= i < b.len()
    &&& b[i] is Jail
    &&& forall|k: int| 0 <= k < i ==> !(#[trigger] b[k] is Jail)
}

/// The index of the first Jail tile, if the board has one.
pub open spec fn jail_index(b: Seq<Tile>) -> Option<int> {
    if exists|i: int| first_jail_from(b, i) {
        Some(choose|i: int| first_jail_from(b, i))
    } else {
        None
    }
}


proof fn lemma_prefix_step(b: Seq<Tile>, i: int)
    requires
        0 <= i < b.len(),
    ensures
        b.subrange(0, i + 1).drop_last() == b.subrange(0, i),
        b.subrange(0, i + 1).last() == b[i],
{
    assert(b.subrange(0, i + 1).drop_last() =~= b.subrange(0, i));
}

proof fn lemma_railroad_count_update(b: Seq<Tile>, i: int, t: Tile)
    requires
        0 <= i < b.len(),
        (t is Railroad) == (b[i] is Railroad),
    ensures
        railroad_count(b.update(i, t)) == railroad_count(b),
    decreases b.len(),
{
    let u = b.update(i, t);
    if i < b.len() - 1 {
        assert(u.drop_last() =~= b.drop_last().update(i, t));
        lemma_railroad_count_update(b.drop_last(), i, t);
    } else {
        assert(u.drop_last() =~= b.drop_last());
    }
}

/// Changing who holds a tile keeps the board well formed.
pub proof fn lemma_with_owner_wf(b: Seq<Tile>, i: int, o: Option<u128>)
    requires
        board_wf(b),
        0 <= i < b.len(),
    ensures
        board_wf(b.update(i, with_owner(b[i], o))),
{
    let u = b.update(i, with_owner(b[i], o));
    lemma_railroad_count_update(b, i, with_owner(b[i], o));
    assert forall|k: int| 0 <= k < u.len() implies tile_wf(u, #[trigger] u[k]) by {
        assert(tile_wf(b, b[k]));
    }
}


/// Counts the railroads of the board held by `owner`.
pub fn count_railroads_owned(board: &Vec<Tile>, owner: u128) -> (r: usize)
    ensures
        r == railroads_owned(board@, owner),
{
    let mut n: usize = 0;
    let mut i: usize = 0;
    while i < board.len()
        invariant
            i <= board.len(),
            n <= i,
            n == railroads_owned(board@.subrange(0, i as int), owner),
        decreases board.len() - i,
    {
        proof {
            lemma_prefix_step(board@, i as int);
        }
        if let Tile::Railroad { owner: Some(o), .. } = &board[i] {
            if *o == owner {
                n = n + 1;
            }
        }
        i = i + 1;
    }
    assert(board@.subrange(0, board.len() as int) =~= board@);
    n
}

/// Counts the utilities of the board held by `owner`.
pub fn count_utilities_owned(board: &Vec<Tile>, owner: u128) -> (r: usize)
    ensures
        r == utilities_owned(board@, owner),
{
    let mut n: usize = 0;
    let mut i: usize = 0;
    while i < board.len()
        invariant
            i <= board.len(),
            n <= i,
            n == utilities_owned(board@.subrange(0, i as int), owner),
        decreases board.len() - i,
    {
        proof {
            lemma_prefix_step(board@, i as int);
        }
        if let Tile::Utility { owner: Some(o), .. } = &board[i] {
            if *o == owner {
                n = n + 1;
            }
        }
        i = i + 1;
    }
    assert(board@.subrange(0, board.len() as int) =~= board@);
    n
}

/// Utility rent for a roll of `dice_roll`: four times the roll when the owner
/// holds one utility of the board, ten times when it holds two, else nothing.
pub fn calculate_utility_cost(dice_roll: u8, owner: Option<u128>, board: &Vec<Tile>) -> (r: u32)
    ensures
        r == match owner {
            Some(o) => utility_rent(utilities_owned(board@, o), dice_roll as int),
            None => 0,
        },
{
    match owner {
        Some(o) => {
            let held = count_utilities_owned(board, o);
            if held == 1 {
                4 * (dice_roll as u32)
            } else if held == 2 {
                10 * (dice_roll as u32)
            } else {
                0
            }
        },
        None => 0,
    }
}

/// Railroad rent: the entry of `rents` at the number of railroads the owner
/// holds on the board.
pub fn get_rent_railroad(rents: &Vec<u32>, owner: Option<u128>, board: &Vec<Tile>) -> (r: u32)
    requires
        owner matches Some(o) ==> railroads_owned(board@, o) < rents@.len(),
    ensures
        r == match owner {
            Some(o) => rents@[railroads_owned(board@, o) as int],
            None => 0,
        },
{
    match owner {
        Some(o) => rents[count_railroads_owned(board, o)],
        None => 0,
    }
}

proof fn lemma_railroads_owned_bound(b: Seq<Tile>, o: u128)
    ensures
        railroads_owned(b, o) <= railroad_count(b),
    decreases b.len(),
{
    if b.len() > 0 {
        lemma_railroads_owned_bound(b.drop_last(), o);
    }
}

/// The rent owed for landing on `board[pos]` after a roll of `dice_sum`.
pub fn rent_at(board: &Vec<Tile>, pos: usize, dice_sum: u8) -> (r: u32)
    requires
        board_wf(board@),
        pos < board.len(),
    ensures
        r == tile_rent(board@, board@[pos as int], dice_sum as int),
{
    let t = &board[pos];
    assert(tile_wf(board@, board@[pos as int]));
    match t {
        Tile::Property { rents, level, .. } => rents[level.index()],
        Tile::Railroad { owner, rents, .. } => {
            proof {
                if let Some(o) = *owner {
                    lemma_railroads_owned_bound(board@, o);
                }
            }
            get_rent_railroad(rents, *owner, board)
        },
        Tile::Utility { owner, .. } => calculate_utility_cost(dice_sum, *owner, board),
        _ => 0,
    }
}

impl Tile {
    pub fn owner(&self) -> (r: Option<u128>)
        ensures
            r == tile_owner(*self),
    {
        match self {
            Tile::Property { owner, .. } => *owner,
            Tile::Railroad { owner, .. } => *owner,
            Tile::Utility { owner, .. } => *owner,
            _ => None,
        }
    }

    pub fn is_ownable(&self) -> (r: bool)
        ensures
            r == is_ownable(*self),
    {
        match self {
            Tile::Property { .. } | Tile::Railroad { .. } | Tile::Utility { .. } => true,
            _ => false,
        }
    }

    /// The purchase price; for a property, its first tier.
    pub fn cost(&self) -> (r: u32)
        requires
            self matches Tile::Property { costs, .. } ==> costs@.len() >= 1,
        ensures
            r == tile_cost(*self),
    {
        match self {
            Tile::Property { costs, .. } => costs[0],
            Tile::Railroad { cost, .. } => *cost,
            Tile::Utility { cost, .. } => *cost,
            _ => 0,
        }
    }

    pub fn set_owner(&mut self, o: Option<u128>)
        ensures
            *final(self) == with_owner(*old(self), o),
    {
        match self {
            Tile::Property { owner, .. } => {
                *owner = o;
            },
            Tile::Railroad { owner, .. } => {
                *owner = o;
            },
            Tile::Utility { owner, .. } => {
                *owner = o;
            },
            _ => {},
        }
    }
}

/// The index of the first Jail tile of the board, if there is one.
pub fn find_jail(board: &Vec<Tile>) -> (r: Option<usize>)
    ensures
        r matches Some(i) ==> jail_index(board@) == Some(i as int),
        r is None ==> jail_index(board@) is None,
{
    let mut i: usize = 0;
    while i < board.len()
        invariant
            i <= board.len(),
            forall|k: int| 0 <= k < i ==> !(#[trigger] board@[k] is Jail),
        decreases board.len() - i,
    {
        if let Tile::Jail = &board[i] {
            assert(first_jail_from(board@, i as int));
            proof {
                let j = choose|j: int| first_jail_from(board@, j);
                if j < i {
                    assert(board@[j] is Jail);
                } else if j > i {
                    assert(!(board@[i as int] is Jail));
                }
            }
            return Some(i);
        }
        i = i + 1;
    }
    assert(!exists|j: int| first_jail_from(board@, j));
    None
}

/// A board under construction: every tile free, every table long enough for
/// a board of at most `max_railroads` railroads.
pub open spec fn fresh_tiles(b: Seq<Tile>, max_railroads: nat) -> bool {
    &&& railroad_count(b) <= max_railroads
    &&& forall|i: int| 0 <= i < b.len() ==> tile_owner(#[trigger] b[i]) is None
    &&& forall|i: int|
        0 <= i < b.len() ==> match #[trigger] b[i] {
            Tile::Property { costs, rents, level, .. } => costs@.len() >= 1 && level_index(level)
                < rents@.len(),
            Tile::Railroad { rents, .. } => max_railroads < rents@.len(),
            _ => true,
        }
}

/// Jail tiles stand only at `jail_at`, Go-to-Jail tiles only at `to_jail_at`.
pub open spec fn jails_placed(b: Seq<Tile>, jail_at: int, to_jail_at: int) -> bool {
    &&& forall|i: int| 0 <= i < b.len() && #[trigger] b[i] is Jail ==> i == jail_at
    &&& forall|i: int| 0 <= i < b.len() && #[trigger] b[i] is GoToJail ==> i == to_jail_at
}

proof fn lemma_fresh_board_wf(b: Seq<Tile>, max_railroads: nat)
    requires
        fresh_tiles(b, max_railroads),
        b.len() >= 1,
    ensures
        board_wf(b),
{
    assert forall|i: int| 0 <= i < b.len() implies tile_wf(b, #[trigger] b[i]) by {
        assert(match b[i] {
            Tile::Property { costs, rents, level, .. } => costs@.len() >= 1 && level_index(level)
                < rents@.len(),
            Tile::Railroad { rents, .. } => max_railroads < rents@.len(),
            _ => true,
        });
    }
}

fn push_tile(b: &mut Vec<Tile>, t: Tile, Ghost(max_railroads): Ghost<nat>)
    requires
        fresh_tiles(old(b)@, max_railroads),
        jails_placed(old(b)@, 10, 30),
        t is Jail ==> old(b)@.len() == 10,
        t is GoToJail ==> old(b)@.len() == 30,
        tile_owner(t) is None,
        t is Railroad ==> railroad_count(old(b)@) < max_railroads,
        match t {
            Tile::Property { costs, rents, level, .. } => costs@.len() >= 1 && level_index(level)
                < rents@.len(),
            Tile::Railroad { rents, .. } => max_railroads < rents@.len(),
            _ => true,
        },
    ensures
        final(b)@ == old(b)@.push(t),
        fresh_tiles(final(b)@, max_railroads),
        jails_placed(final(b)@, 10, 30),
        railroad_count(final(b)@) == railroad_count(old(b)@) + if t is Railroad {
            1nat
        } else {
            0nat
        },
{
    b.push(t);
    assert(b@.drop_last() =~= old(b)@);
}

fn property(name: &str, cost: u32, rents: Vec<u32>) -> (t: Tile)
    requires
        rents@.len() == 6,
    ensures
        t matches Tile::Property { costs, rents: r, level, owner, .. } && costs@ == seq![cost] && r@
            == rents@ && level == PropertyLevel::Base && owner is None,
{
    Tile::Property {
        name: name.to_owned(),
        costs: vec![cost],
        rents,
        level: PropertyLevel::Base,
        owner: None,
    }
}

fn railroad() -> (t: Tile)
    ensures
        t matches Tile::Railroad { owner, cost, rents } && owner is None && cost == 200 && rents@
            == seq![0u32, 25, 50, 100, 200],
{
    Tile::Railroad { owner: None, cost: 200, rents: vec![0, 25, 50, 100, 200] }
}

fn utility() -> (t: Tile)
    ensures
        t == (Tile::Utility { cost: 150, owner: None }),
{
    Tile::Utility { cost: 150, owner: None }
}

/// The classic forty-tile board, every tile free: Go (crediting 200) at 0,
/// Mediterranean Avenue (costing 60) at 1, the Jail at 10 and the only
/// Go-to-Jail tile at 30.
pub fn standard_board() -> (b: Vec<Tile>)
    ensures
        b@.len() == 40,
        board_wf(b@),
        forall|i: int| 0 <= i < b@.len() ==> tile_owner(#[trigger] b@[i]) is None,
        b@[0] == (Tile::Go { amount: 200 }),
        b@[1] is Property,
        tile_cost(b@[1]) == 60,
        b@[10] is Jail,
        jail_index(b@) == Some(10int),
        b@[30] is GoToJail,
        forall|i: int| 0 <= i < b@.len() && i != 30 ==> !(#[trigger] b@[i] is GoToJail),
{
    let ghost m: nat = 4;
    let mut b: Vec<Tile> = Vec::new();
    push_tile(&mut b, Tile::Go { amount: 200 }, Ghost(m));
    push_tile(&mut b, property("Mediterranean Avenue", 60, vec![2, 10, 30, 90, 160, 250]), Ghost(m));
    push_tile(&mut b, Tile::Chance("Community Chest".to_owned()), Ghost(m));
    push_tile(&mut b, property("Baltic Avenue", 60, vec![4, 20, 60, 180, 320, 450]), Ghost(m));
    push_tile(&mut b, Tile::Tax { price: 200 }, Ghost(m));
    push_tile(&mut b, railroad(), Ghost(m));
    push_tile(&mut b, property("Oriental Avenue", 100, vec![6, 30, 90, 270, 400, 550]), Ghost(m));
    push_tile(&mut b, Tile::Chance("Chance".to_owned()), Ghost(m));
    push_tile(&mut b, property("Vermont Avenue", 100, vec![6, 30, 90, 270, 400, 550]), Ghost(m));
    push_tile(&mut b, property("Connecticut Avenue", 120, vec![8, 40, 100, 300, 450, 600]), Ghost(m));
    push_tile(&mut b, Tile::Jail, Ghost(m));
    push_tile(&mut b, property("St. Charles Place", 140, vec![10, 50, 150, 450, 625, 750]), Ghost(m));
    push_tile(&mut b, utility(), Ghost(m));
    push_tile(&mut b, property("States Avenue", 140, vec![10, 50, 150, 450, 625, 750]), Ghost(m));
    push_tile(&mut b, property("Virginia Avenue", 160, vec![12, 60, 180, 500, 700, 900]), Ghost(m));
    push_tile(&mut b, railroad(), Ghost(m));
    push_tile(&mut b, property("St. James Place", 180, vec![14, 70, 200, 550, 750, 950]), Ghost(m));
    push_tile(&mut b, Tile::Chance("Community Chest".to_owned()), Ghost(m));
    push_tile(&mut b, property("Tennessee Avenue", 180, vec![14, 70, 200, 550, 750, 950]), Ghost(m));
    push_tile(&mut b, property("New York Avenue", 200, vec![16, 80, 220, 600, 800, 1000]), Ghost(m));
    push_tile(&mut b, Tile::FreeParking, Ghost(m));
    push_tile(&mut b, property("Kentucky Avenue", 220, vec![18, 90, 250, 700, 875, 1050]), Ghost(m));
    push_tile(&mut b, Tile::Chance("Chance".to_owned()), Ghost(m));
    push_tile(&mut b, property("Indiana Avenue", 220, vec![18, 90, 250, 700, 875, 1050]), Ghost(m));
    push_tile(&mut b, property("Illinois Avenue", 240, vec![20, 100, 300, 750, 925, 1100]), Ghost(m));
    push_tile(&mut b, railroad(), Ghost(m));
    push_tile(&mut b, property("Atlantic Avenue", 260, vec![22, 110, 330, 800, 975, 1150]), Ghost(m));
    push_tile(&mut b, property("Ventnor Avenue", 260, vec![22, 110, 330, 800, 975, 1150]), Ghost(m));
    push_tile(&mut b, utility(), Ghost(m));
    push_tile(&mut b, property("Marvin Gardens", 280, vec![24, 120, 360, 850, 1025, 1200]), Ghost(m));
    push_tile(&mut b, Tile::GoToJail, Ghost(m));
    push_tile(&mut b, property("Pacific Avenue", 300, vec![26, 130, 390, 900, 1100, 1275]), Ghost(m));
    push_tile(&mut b, property("North Carolina Avenue", 300, vec![26, 130, 390, 900, 1100, 1275]), Ghost(m));
    push_tile(&mut b, Tile::Chance("Community Chest".to_owned()), Ghost(m));
    push_tile(&mut b, property("Pennsylvania Avenue", 320, vec![28, 150, 450, 1000, 1200, 1400]), Ghost(m));
    push_tile(&mut b, railroad(), Ghost(m));
    push_tile(&mut b, Tile::Chance("Chance".to_owned()), Ghost(m));
    push_tile(&mut b, property("Park Place", 350, vec![35, 175, 500, 1100, 1300, 1500]), Ghost(m));
    push_tile(&mut b, Tile::LuxuryTax { price: 100 }, Ghost(m));
    push_tile(&mut b, property("Boardwalk", 400, vec![50, 200, 600, 1400, 1700, 2000]), Ghost(m));
    proof {
        lemma_fresh_board_wf(b@, m);
        assert(first_jail_from(b@, 10));
        let j = choose|j: int| first_jail_from(b@, j);
        assert(b@[j] is Jail);
    }
    b
}

/// A board of Go tiles only, crediting 200, 100 and 300.
pub fn go_board() -> (b: Vec<Tile>)
    ensures
        b@ == seq![Tile::Go { amount: 200 }, Tile::Go { amount: 100 }, Tile::Go { amount: 300 }],
        board_wf(b@),
{
    let b = vec![Tile::Go { amount: 200 }, Tile::Go { amount: 100 }, Tile::Go { amount: 300 }];
    assert(board_wf(b@));
    b
}

/// A board of a Jail tile followed by a Go-to-Jail tile.
pub fn jail_board() -> (b: Vec<Tile>)
    ensures
        b@ == seq![Tile::Jail, Tile::GoToJail],
        board_wf(b@),
{
    let b = vec![Tile::Jail, Tile::GoToJail];
    assert(board_wf(b@));
    b
}

} // verus!
