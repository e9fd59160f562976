//! Cards, actions and the state machine of the penalty-chain game "Bullying".
use vstd::multiset::Multiset;
use vstd::prelude::*;
use crate::{hands_multiset, lemma_hands_multiset_update};

pub mod touping;

verus! {

broadcast use {vstd::seq_lib::group_to_multiset_ensures, vstd::multiset::group_multiset_axioms};

/// The errors with which the engines reject a setup or a batch of actions.
#[derive(Clone, Copy, Debug, PartialEq, Eq, Structural)]
pub enum EngineError {
    /// Bad parameters for a new game.
    InvalidSetup,
    /// The batch does not hold one action per registered player.
    ActionCountMismatch,
    /// The player at this index submitted an action outside its legal set.
    IllegalAction(usize),
    /// An invariant of the engine itself was found broken. The engines
    /// prove their invariants, so they never return it.
    InternalConsistencyFault,
}

#[derive(Debug, PartialEq, Eq, Hash)]
pub struct Player {
    pub id: String,
}

impl Clone for Player {
    fn clone(&self) -> (r: Player)
        ensures
            r.id@ == self.id@,
    {
        Player { id: self.id.clone() }
    }
}

impl Player {
    pub fn new(id: String) -> (r: Player)
        ensures
            r.id@ == id@,
    {
        Player { id }
    }
}

#[derive(Clone, Debug, PartialEq, Eq)]
pub struct MenuState {
    pub players: Vec<Player>,
}

impl MenuState {
    pub fn new(players: Vec<Player>) -> (r: MenuState)
        ensures
            r.players@ == players@,
    {
        MenuState { players }
    }
}

#[non_exhaustive]
#[derive(Clone, Debug)]
pub enum GameStatePlayer {
    Menu(MenuState),
    Bullying(GameStateBullyingPlayer),
}

#[non_exhaustive]
#[derive(Clone, Debug)]
pub enum GameState {
    Menu(MenuState),
    Bullying(GameStateBullying),
}

#[derive(Clone, Copy, Debug, PartialEq, Eq, Hash, Structural)]
pub enum Suit {
    Clubs,
    Diamonds,
    Hearts,
    Spades,
}

pub const CARD_VALUE_MIN: u8 = 1;

pub const CARD_VALUE_MAX: u8 = 14;

#[derive(Clone, Copy, Debug, PartialEq, Eq, Hash, Structural)]
pub enum Card {
    Joker,
    Other { suit: Suit, value: u8 },
}

/// The cards of one suit, values ascending from `CARD_VALUE_MIN` to `CARD_VALUE_MAX`.
pub open spec fn suit_run(suit: Suit) -> Seq<Card> {
    Seq::new(14, |j: int| Card::Other { suit, value: (j + 1) as u8 })
}

/// `n` jokers.
pub open spec fn jokers(n: nat) -> Seq<Card> {
    Seq::new(n, |j: int| Card::Joker)
}

/// One ordered deck: clubs, diamonds, hearts, spades, each ascending, then the jokers.
pub open spec fn deck(n_jokers: nat) -> Seq<Card> {
    suit_run(Suit::Clubs) + suit_run(Suit::Diamonds) + suit_run(Suit::Hearts) + suit_run(
        Suit::Spades,
    ) + jokers(n_jokers)
}

/// `n` ordered decks one after the other.
pub open spec fn decks(n: nat, n_jokers: nat) -> Seq<Card>
    decreases n,
{
    if n == 0 {
        Seq::empty()
    } else {
        decks((n - 1) as nat, n_jokers) + deck(n_jokers)
    }
}

/// Whether playing `c` forces or deflects a penalty.
pub open spec fn is_bully_card(c: Card) -> bool {
    match c {
        Card::Joker => true,
        Card::Other { value, .. } => value == 1 || value == 2 || value == 7 || value == 8 || value
            == 10 || value == 11,
    }
}

/// How many cards playing `c` adds to the pending penalty.
pub open spec fn draw_amount(c: Card) -> u32 {
    match c {
        Card::Joker => 5,
        Card::Other { value, .. } => if value == 2 {
            2
        } else {
            0
        },
    }
}

/// A reflect card turns the direction of play.
pub open spec fn is_reflect(c: Card) -> bool {
    match c {
        Card::Joker => false,
        Card::Other { value, .. } => value == 11,
    }
}

fn push_suit(stock: &mut Vec<Card>, suit: Suit)
    ensures
        final(stock)@ == old(stock)@ + suit_run(suit),
{
    let ghost start = stock@;
    let mut value: u8 = CARD_VALUE_MIN;
    while value <= CARD_VALUE_MAX
        invariant
            1 <= value <= 15,
            stock@ == start + suit_run(suit).take(value - 1),
        decreases 15 - value,
    {
        stock.push(Card::Other { suit, value });
        assert(suit_run(suit).take(value as int) == suit_run(suit).take(value - 1).push(
            Card::Other { suit, value },
        ));
        value += 1;
    }
    assert(suit_run(suit).take(14) == suit_run(suit));
}

impl Card {
    pub fn new(suit: Suit, value: u8) -> (r: Card)
        ensures
            r == (Card::Other { suit, value }),
    {
        Card::Other { suit, value }
    }

    pub fn new_joker() -> (r: Card)
        ensures
            r == Card::Joker,
    {
        Card::Joker
    }

    /// One full ordered deck with `n_jokers` jokers at its end.
    pub fn full_stock(n_jokers: u32) -> (r: Vec<Card>)
        ensures
            r@ == deck(n_jokers as nat),
    {
        let mut stock: Vec<Card> = Vec::new();
        push_suit(&mut stock, Suit::Clubs);
        push_suit(&mut stock, Suit::Diamonds);
        push_suit(&mut stock, Suit::Hearts);
        push_suit(&mut stock, Suit::Spades);
        let ghost base = stock@;
        let mut j: u32 = 0;
        while j < n_jokers
            invariant
                j <= n_jokers,
                stock@ == base + jokers(j as nat),
            decreases n_jokers - j,
        {
            stock.push(Card::Joker);
            assert(jokers((j + 1) as nat) == jokers(j as nat).push(Card::Joker));
            j += 1;
        }
        stock
    }

    /// `n` full decks, one after the other.
    pub fn n_full_stocks(n: u32, n_jokers_per_stock: u32) -> (r: Vec<Card>)
        ensures
            r@ == decks(n as nat, n_jokers_per_stock as nat),
    {
        let mut stock: Vec<Card> = Vec::new();
        let mut k: u32 = 0;
        while k < n
            invariant
                k <= n,
                stock@ == decks(k as nat, n_jokers_per_stock as nat),
            decreases n - k,
        {
            let mut one = Self::full_stock(n_jokers_per_stock);
            stock.append(&mut one);
            k += 1;
        }
        stock
    }

    pub fn bullying_is_bully_card(&self) -> (r: bool)
        ensures
            r == is_bully_card(*self),
    {
        match self {
            Card::Joker => true,
            Card::Other { value, .. } => *value == 1 || *value == 2 || *value == 7 || *value == 8
                || *value == 10 || *value == 11,
        }
    }

    pub fn bullying_get_draw_amount(&self) -> (r: u32)
        ensures
            r == draw_amount(*self),
    {
        match self {
            Card::Joker => 5,
            Card::Other { value, .. } => if *value == 2 {
                2
            } else {
                0
            },
        }
    }
}

#[derive(Clone, Copy, Debug, PartialEq, Eq, Hash, Structural)]
pub enum BullyingAction {
    Wait,
    DrawCard,
    DrawBullyCards(u32),
    PlayCard(Card),
}

/// Whether `c` may be played on `last` while `draw_stack` cards of penalty are pending.
pub open spec fn is_playable(draw_stack: u32, last: Card, c: Card) -> bool {
    match c {
        Card::Joker => true,
        Card::Other { suit, value } => if draw_stack > 0 {
            value == 2
        } else if value == 11 {
            true
        } else {
            match last {
                Card::Joker => true,
                Card::Other { suit: suit2, value: value2 } => suit == suit2 || value == value2,
            }
        },
    }
}

/// The cards of `hand` that may be played, in hand order.
pub open spec fn playable(draw_stack: u32, last: Card, hand: Seq<Card>) -> Seq<Card> {
    hand.filter(|c: Card| is_playable(draw_stack, last, c))
}

/// One `PlayCard` action for each card, in order.
pub open spec fn plays_of(cards: Seq<Card>) -> Seq<BullyingAction> {
    cards.map_values(|c: Card| BullyingAction::PlayCard(c))
}


/// What a player sees of a Bullying game.
#[derive(Clone, Debug, PartialEq, Eq)]
pub struct GameStateBullyingPlayer {
    pub players: Vec<Player>,
    pub games_won_of_players: Vec<u32>,
    pub cards: Vec<Card>,
    pub card_amount_of_players: Vec<usize>,
    pub last_played_card: Option<Card>,
    pub available_moves: Vec<BullyingAction>,
    pub game_over: bool,
}

/// The last action other than `Wait`, with the index of the player who took it.
#[derive(Clone, Copy, Debug, PartialEq, Eq, Structural)]
pub struct NonWaitAction {
    pub player: usize,
    pub action: BullyingAction,
}

/// The authoritative state of a Bullying game. Per-player data is indexed
/// like `players`; `current_turn` and the first part of
/// `previous_non_wait_action` are such indexes.
#[derive(Clone, Debug)]
pub struct GameStateBullying {
    pub players: Vec<Player>,
    pub games_won_of_players: Vec<u32>,
    pub cards_in_stock: Vec<Card>,
    pub cards_played: Vec<Card>,
    pub cards_of_players: Vec<Vec<Card>>,
    pub available_moves_of_players: Vec<Vec<BullyingAction>>,
    pub current_turn: usize,
    pub previous_non_wait_action: NonWaitAction,
    pub draw_stack: u32,
    pub going_clock_wise: bool,
}

/// The player after `t` among `n` players, in the given direction.
pub open spec fn next_player(t: int, n: int, clockwise: bool) -> int {
    if clockwise {
        if t + 1 >= n {
            0
        } else {
            t + 1
        }
    } else {
        if t <= 0 {
            n - 1
        } else {
            t - 1
        }
    }
}

/// `a + b`, held at `u32::MAX`.
pub open spec fn saturated_add(a: u32, b: u32) -> u32 {
    if a + b > u32::MAX {
        u32::MAX
    } else {
        (a + b) as u32
    }
}

impl GameStateBullying {
    pub open spec fn n(&self) -> int {
        self.players@.len() as int
    }

    pub open spec fn hand(&self, i: int) -> Seq<Card> {
        self.cards_of_players@[i]@
    }

    pub open spec fn top(&self) -> Card {
        self.cards_played@.last()
    }

    /// The game is over once some hand is empty.
    pub open spec fn is_over(&self) -> bool {
        exists|i: int| 0 <= i < self.cards_of_players@.len() && #[trigger] self.hand(i).len() == 0
    }

    /// Every card of the game: hands, stock and pile.
    pub open spec fn all_cards(&self) -> Multiset<Card> {
        hands_multiset(self.cards_of_players@).add(self.cards_in_stock@.to_multiset()).add(
            self.cards_played@.to_multiset(),
        )
    }

    /// How many cards can still be drawn: the stock, and the pile below its top.
    pub open spec fn drawable(&self) -> int {
        self.cards_in_stock@.len() + self.cards_played@.len() - 1
    }

    /// The actions that player `i` may submit next. Once the game is over,
    /// and off turn, only `Wait`. On turn: the playable cards, with
    /// `DrawBullyCards` while a penalty is pending, or else `DrawCard` when
    /// no card can be played; and `Wait`, which is always legal and does
    /// nothing, so that a silent player never blocks a round.
    pub open spec fn legal(&self, i: int) -> Seq<BullyingAction> {
        if self.is_over() || i != self.current_turn {
            seq![BullyingAction::Wait]
        } else {
            let pc = plays_of(playable(self.draw_stack, self.top(), self.hand(i)));
            let base = if self.draw_stack > 0 {
                pc.push(BullyingAction::DrawBullyCards(self.draw_stack))
            } else if pc.len() == 0 {
                seq![BullyingAction::DrawCard]
            } else {
                pc
            };
            base.push(BullyingAction::Wait)
        }
    }

    /// The shape of a state: one entry per player everywhere, a card on the
    /// pile, a turn that names a player.
    pub open spec fn shape(&self) -> bool {
        &&& self.n() >= 2
        &&& self.games_won_of_players@.len() == self.n()
        &&& self.cards_of_players@.len() == self.n()
        &&& self.available_moves_of_players@.len() == self.n()
        &&& self.current_turn < self.n()
        &&& self.previous_non_wait_action.player < self.n()
        &&& self.cards_played@.len() >= 1
    }

    /// A well-formed state: its shape, and each player's stored moves are
    /// exactly the legal ones.
    pub open spec fn wf(&self) -> bool {
        &&& self.shape()
        &&& forall|i: int|
            0 <= i < self.n() ==> #[trigger] self.available_moves_of_players@[i]@ == self.legal(
                i,
            )
    }

    /// The cards of `cards_in_hand` that may be played on `last_played_card`
    /// while `draw_stack` penalty cards are pending, in hand order.
    pub fn playable_cards(draw_stack: u32, last_played_card: Card, cards_in_hand: &[Card]) -> (r:
        Vec<Card>)
        ensures
            r@ == playable(draw_stack, last_played_card, cards_in_hand@),
    {
        let mut r: Vec<Card> = Vec::new();
        let mut i: usize = 0;
        while i < cards_in_hand.len()
            invariant
                i <= cards_in_hand@.len(),
                r@ == playable(draw_stack, last_played_card, cards_in_hand@.take(i as int)),
            decreases cards_in_hand@.len() - i,
        {
            let c = cards_in_hand[i];
            assert(cards_in_hand@.take(i + 1).drop_last() == cards_in_hand@.take(i as int));
            assert(cards_in_hand@.take(i + 1).last() == c);
            proof {
                reveal(Seq::filter);
            }
            let ok = match c {
                Card::Joker => true,
                Card::Other { suit, value } => if draw_stack > 0 {
                    value == 2
                } else if value == 11 {
                    true
                } else {
                    match last_played_card {
                        Card::Joker => true,
                        Card::Other { suit: suit2, value: value2 } => suit == suit2 || value
                            == value2,
                    }
                },
            };
            if ok {
                r.push(c);
            }
            i += 1;
        }
        assert(cards_in_hand@.take(cards_in_hand@.len() as int) == cards_in_hand@);
        r
    }

    /// Whether some hand is empty.
    pub fn game_over(&self) -> (r: bool)
        ensures
            r == self.is_over(),
    {
        let mut i: usize = 0;
        while i < self.cards_of_players.len()
            invariant
                i <= self.cards_of_players@.len(),
                forall|k: int| 0 <= k < i ==> #[trigger] self.hand(k).len() != 0,
            decreases self.cards_of_players@.len() - i,
        {
            if self.cards_of_players[i].len() == 0 {
                assert(self.hand(i as int).len() == 0);
                return true;
            }
            i += 1;
        }
        false
    }

    /// The actions that `player` (an index into `players`) may submit next.
    pub fn available_actions(&self, player: usize) -> (r: Vec<BullyingAction>)
        requires
            self.shape(),
            player < self.n(),
        ensures
            r@ == self.legal(player as int),
    {
        if self.game_over() || self.current_turn != player {
            return vec![BullyingAction::Wait];
        }
        let last = self.cards_played[self.cards_played.len() - 1];
        let pc = Self::playable_cards(self.draw_stack, last, self.cards_of_players[player].as_slice());
        let ghost pcs = pc@;
        let mut r: Vec<BullyingAction> = Vec::new();
        let mut i: usize = 0;
        while i < pc.len()
            invariant
                i <= pc@.len(),
                pc@ == pcs,
                r@ == plays_of(pcs.take(i as int)),
            decreases pc@.len() - i,
        {
            assert(pcs.take(i + 1) == pcs.take(i as int).push(pc@[i as int]));
            assert(plays_of(pcs.take(i + 1)) == plays_of(pcs.take(i as int)).push(
                BullyingAction::PlayCard(pc@[i as int]),
            ));
            r.push(BullyingAction::PlayCard(pc[i]));
            i += 1;
        }
        assert(pcs.take(pcs.len() as int) == pcs);
        if self.draw_stack > 0 {
            r.push(BullyingAction::DrawBullyCards(self.draw_stack));
        } else if r.len() == 0 {
            r.push(BullyingAction::DrawCard);
        }
        r.push(BullyingAction::Wait);
        r
    }
}


proof fn lemma_legal_same(a: GameStateBullying, b: GameStateBullying, i: int)
    requires
        a.cards_of_players == b.cards_of_players,
        a.cards_played == b.cards_played,
        a.current_turn == b.current_turn,
        a.draw_stack == b.draw_stack,
    ensures
        a.legal(i) == b.legal(i),
{
    if a.is_over() {
        let k = choose|k: int| 0 <= k < a.cards_of_players@.len() && #[trigger] a.hand(k).len() == 0;
        assert(b.hand(k).len() == 0);
    }
    if b.is_over() {
        let k = choose|k: int| 0 <= k < b.cards_of_players@.len() && #[trigger] b.hand(k).len() == 0;
        assert(a.hand(k).len() == 0);
    }
}

/// `j` is the first position of `c` in `s`.
pub open spec fn first_at(s: Seq<Card>, c: Card, j: int) -> bool {
    0 <= j < s.len() && s[j] == c && forall|k: int| 0 <= k < j ==> s[k] != c
}

/// `new` is `old` without the first occurrence of `c`.
pub open spec fn removed_first(old: Seq<Card>, c: Card, new: Seq<Card>) -> bool {
    exists|j: int| first_at(old, c, j) && new == old.remove(j)
}

/// Card `k` dealt to player `i` when each of them gets `n` cards popped off `stock`.
pub open spec fn dealt(stock: Seq<Card>, n: int, i: int) -> Seq<Card> {
    Seq::new(n as nat, |k: int| stock[stock.len() - 1 - (i * n + k)])
}

impl GameStateBullying {
    /// All fields but the stock and the pile are those of `old`.
    pub open spec fn same_but_piles(&self, old: &Self) -> bool {
        &&& self.players == old.players
        &&& self.games_won_of_players == old.games_won_of_players
        &&& self.cards_of_players == old.cards_of_players
        &&& self.available_moves_of_players == old.available_moves_of_players
        &&& self.current_turn == old.current_turn
        &&& self.previous_non_wait_action == old.previous_non_wait_action
        &&& self.draw_stack == old.draw_stack
        &&& self.going_clock_wise == old.going_clock_wise
    }

    /// Takes the top card of the stock. An empty stock is first refilled,
    /// shuffled, with the pile below its top card. `None` when nothing can be
    /// drawn.
    pub fn draw_card(&mut self) -> (r: Option<Card>)
        requires
            old(self).cards_played@.len() >= 1,
        ensures
            final(self).same_but_piles(old(self)),
            final(self).cards_played@.len() >= 1,
            final(self).top() == old(self).top(),
            r is None <==> old(self).drawable() == 0,
            r is None ==> *final(self) == *old(self),
            r is Some ==> final(self).drawable() == old(self).drawable() - 1,
            old(self).cards_in_stock@.len() > 0 ==> r == Some(old(self).cards_in_stock@.last())
                && final(self).cards_in_stock@ == old(self).cards_in_stock@.drop_last()
                && final(self).cards_played == old(self).cards_played,
            r is Some ==> final(self).cards_in_stock@.to_multiset().add(
                final(self).cards_played@.to_multiset(),
            ).insert(r->Some_0) == old(self).cards_in_stock@.to_multiset().add(
                old(self).cards_played@.to_multiset(),
            ),
    {
        if self.cards_in_stock.len() == 0 {
            if self.cards_played.len() <= 1 {
                return None;
            }
            let ghost pile = self.cards_played@;
            let top = self.cards_played.pop().unwrap();
            assert(pile == self.cards_played@.push(top));
            std::mem::swap(&mut self.cards_in_stock, &mut self.cards_played);
            let ghost rest = self.cards_in_stock@;
            self.cards_played.push(top);
            crate::random::shuffle(&mut self.cards_in_stock);
            assert(self.cards_played@ == seq![top]);
            assert(self.cards_in_stock@.to_multiset().len() == rest.to_multiset().len());
            assert(self.cards_in_stock@.len() == rest.len());
        }
        let ghost st = self.cards_in_stock@;
        let c = self.cards_in_stock.pop().unwrap();
        assert(st == self.cards_in_stock@.push(c));
        assert(self.cards_in_stock@.to_multiset().add(self.cards_played@.to_multiset()).insert(c)
            =~= st.to_multiset().add(self.cards_played@.to_multiset()));
        Some(c)
    }

    /// Draws up to `k` cards onto the hand of player `p`.
    fn draw_into_hand(&mut self, p: usize, k: u32)
        requires
            old(self).shape(),
            p < old(self).n(),
        ensures
            final(self).shape(),
            final(self).players == old(self).players,
            final(self).games_won_of_players == old(self).games_won_of_players,
            final(self).available_moves_of_players == old(self).available_moves_of_players,
            final(self).current_turn == old(self).current_turn,
            final(self).previous_non_wait_action == old(self).previous_non_wait_action,
            final(self).draw_stack == old(self).draw_stack,
            final(self).going_clock_wise == old(self).going_clock_wise,
            final(self).top() == old(self).top(),
            final(self).all_cards() == old(self).all_cards(),
            final(self).hand(p as int).len() == old(self).hand(p as int).len() + if k
                <= old(self).drawable() {
                k as int
            } else {
                old(self).drawable()
            },
            final(self).hand(p as int).take(old(self).hand(p as int).len() as int) == old(self).hand(p as int),
            forall|j: int| 0 <= j < old(self).n() && j != p ==> #[trigger] final(self).hand(j) == old(self).hand(j),
            k <= old(self).cards_in_stock@.len() ==> {
                let st = old(self).cards_in_stock@;
                &&& final(self).hand(p as int) == old(self).hand(p as int) + st.subrange(
                    st.len() - k,
                    st.len() as int,
                ).reverse()
                &&& final(self).cards_in_stock@ == st.take(st.len() - k)
                &&& final(self).cards_played == old(self).cards_played
            },
    {
        let ghost start = *self;
        let mut d: u32 = 0;
        while d < k
            invariant
                self.shape(),
                p < self.n(),
                d <= k,
                d <= start.drawable(),
                self.drawable() == start.drawable() - d,
                self.players == start.players,
                self.games_won_of_players == start.games_won_of_players,
                self.available_moves_of_players == start.available_moves_of_players,
                self.current_turn == start.current_turn,
                self.previous_non_wait_action == start.previous_non_wait_action,
                self.draw_stack == start.draw_stack,
                self.going_clock_wise == start.going_clock_wise,
                self.top() == start.top(),
                self.all_cards() == start.all_cards(),
                self.hand(p as int).len() == start.hand(p as int).len() + d,
                self.hand(p as int).take(start.hand(p as int).len() as int) == start.hand(p as int),
                forall|j: int| 0 <= j < start.n() && j != p ==> #[trigger] self.hand(j) == start.hand(j),
                d <= start.cards_in_stock@.len() ==> {
                    let st = start.cards_in_stock@;
                    &&& self.hand(p as int) == start.hand(p as int) + st.subrange(
                        st.len() - d,
                        st.len() as int,
                    ).reverse()
                    &&& self.cards_in_stock@ == st.take(st.len() - d)
                    &&& self.cards_played == start.cards_played
                },
            ensures
                d == k || self.drawable() == 0,
            decreases k - d,
        {
            let ghost before = *self;
            match self.draw_card() {
                None => {
                    break;
                },
                Some(c) => {
                    let ghost mid = *self;
                    let ghost old_hand = self.cards_of_players@[p as int];
                    let mut h = self.cards_of_players[p].clone();
                    assert(h@ =~= old_hand@);
                    h.push(c);
                    self.cards_of_players.set(p, h);
                    proof {
                        let new_hand = self.cards_of_players@[p as int];
                        assert(self.cards_of_players@ == mid.cards_of_players@.update(p as int, new_hand));
                        lemma_hands_multiset_update(mid.cards_of_players@, p as int, new_hand);
                        assert(new_hand@ == old_hand@.push(c));
                        let a = hands_multiset(self.cards_of_players@);
                        let b = hands_multiset(before.cards_of_players@);
                        assert forall|x: Card| #[trigger] self.all_cards().count(x) == before.all_cards().count(x) by {
                            assert(a.add(old_hand@.to_multiset()).count(x) == b.add(new_hand@.to_multiset()).count(x));
                            assert(new_hand@.to_multiset() == old_hand@.to_multiset().insert(c));
                            assert(mid.cards_in_stock@.to_multiset().add(mid.cards_played@.to_multiset()).insert(c).count(x)
                                == before.cards_in_stock@.to_multiset().add(before.cards_played@.to_multiset()).count(x));
                        }
                        assert(self.all_cards() =~= before.all_cards());
                        assert forall|j: int| 0 <= j < start.n() && j != p implies #[trigger] self.hand(j) == start.hand(j) by {
                            assert(self.cards_of_players@[j] == mid.cards_of_players@[j]);
                            assert(before.hand(j) == start.hand(j));
                        }
                        let st = start.cards_in_stock@;
                        if d + 1 <= st.len() {
                            assert(st.subrange(st.len() - (d + 1), st.len() as int).reverse() =~= st.subrange(
                                st.len() - d,
                                st.len() as int,
                            ).reverse().push(st[st.len() - d - 1]));
                            assert(before.cards_in_stock@.last() == st[st.len() - d - 1]);
                            assert(self.hand(p as int) =~= start.hand(p as int) + st.subrange(
                                st.len() - (d + 1),
                                st.len() as int,
                            ).reverse());
                            assert(self.cards_in_stock@ =~= st.take(st.len() - (d + 1)));
                        }
                        assert(self.hand(p as int).take(start.hand(p as int).len() as int)
                            == before.hand(p as int).take(start.hand(p as int).len() as int));
                    }
                },
            }
            d += 1;
        }
    }

    /// Stores every player's legal actions.
    fn refresh_moves(&mut self)
        requires
            old(self).shape(),
        ensures
            final(self).wf(),
            final(self).players == old(self).players,
            final(self).games_won_of_players == old(self).games_won_of_players,
            final(self).cards_of_players == old(self).cards_of_players,
            final(self).cards_in_stock == old(self).cards_in_stock,
            final(self).cards_played == old(self).cards_played,
            final(self).current_turn == old(self).current_turn,
            final(self).previous_non_wait_action == old(self).previous_non_wait_action,
            final(self).draw_stack == old(self).draw_stack,
            final(self).going_clock_wise == old(self).going_clock_wise,
    {
        let ghost start = *self;
        let mut i: usize = 0;
        while i < self.players.len()
            invariant
                self.shape(),
                i <= self.n(),
                self.players == start.players,
                self.games_won_of_players == start.games_won_of_players,
                self.cards_of_players == start.cards_of_players,
                self.cards_in_stock == start.cards_in_stock,
                self.cards_played == start.cards_played,
                self.current_turn == start.current_turn,
                self.previous_non_wait_action == start.previous_non_wait_action,
                self.draw_stack == start.draw_stack,
                self.going_clock_wise == start.going_clock_wise,
                forall|k: int| 0 <= k < i ==> #[trigger] self.available_moves_of_players@[k]@ == start.legal(k),
            decreases self.n() - i,
        {
            let v = self.available_actions(i);
            proof {
                lemma_legal_same(*self, start, i as int);
            }
            self.available_moves_of_players.set(i, v);
            i += 1;
        }
        assert forall|k: int| 0 <= k < self.n() implies #[trigger] self.available_moves_of_players@[k]@ == self.legal(k) by {
            lemma_legal_same(*self, start, k);
        }
    }
}


fn contains_action(v: &Vec<BullyingAction>, a: BullyingAction) -> (r: bool)
    ensures
        r == v@.contains(a),
{
    let mut i: usize = 0;
    while i < v.len()
        invariant
            i <= v@.len(),
            forall|k: int| 0 <= k < i ==> v@[k] != a,
        decreases v@.len() - i,
    {
        if v[i] == a {
            assert(v@[i as int] == a);
            return true;
        }
        i += 1;
    }
    false
}

fn next_of(t: usize, n: usize, clockwise: bool) -> (r: usize)
    requires
        t < n,
    ensures
        r == next_player(t as int, n as int, clockwise),
        r < n,
{
    if clockwise {
        if t + 1 == n {
            0
        } else {
            t + 1
        }
    } else {
        if t == 0 {
            n - 1
        } else {
            t - 1
        }
    }
}

proof fn lemma_play_in_hand(s: GameStateBullying, c: Card)
    requires
        s.shape(),
        s.legal(s.current_turn as int).contains(BullyingAction::PlayCard(c)),
    ensures
        s.hand(s.current_turn as int).contains(c),
{
    let t = s.current_turn as int;
    let pl = playable(s.draw_stack, s.top(), s.hand(t));
    let pc = plays_of(pl);
    if s.is_over() {
        assert(s.legal(t) == seq![BullyingAction::Wait]);
    }
    let k = choose|k: int| 0 <= k < s.legal(t).len() && s.legal(t)[k] == BullyingAction::PlayCard(c);
    assert(k < pc.len());
    assert(pc[k] == BullyingAction::PlayCard(pl[k]));
    assert(pl.contains(c));
    s.hand(t).lemma_filter_contains_rev(|x: Card| is_playable(s.draw_stack, s.top(), x), c);
}

proof fn lemma_stepped_moves(
    s: GameStateBullying,
    mid: GameStateBullying,
    fin: GameStateBullying,
    a: BullyingAction,
)
    requires
        s.stepped(&mid, a),
        fin.players == mid.players,
        fin.games_won_of_players == mid.games_won_of_players,
        fin.cards_of_players == mid.cards_of_players,
        fin.cards_in_stock == mid.cards_in_stock,
        fin.cards_played == mid.cards_played,
        fin.current_turn == mid.current_turn,
        fin.previous_non_wait_action == mid.previous_non_wait_action,
        fin.draw_stack == mid.draw_stack,
        fin.going_clock_wise == mid.going_clock_wise,
    ensures
        s.stepped(&fin, a),
{
    assert forall|j: int| 0 <= j < s.n() && j != s.current_turn implies #[trigger] fin.hand(j) == s.hand(j) by {
        assert(mid.hand(j) == s.hand(j));
    }
}

impl GameStateBullying {
    /// The turn holder has drawn up to `k` cards: as many as could be drawn;
    /// when the stock holds `k` cards or more, they come off its end.
    pub open spec fn drew(&self, new: &Self, k: u32) -> bool {
        let t = self.current_turn as int;
        let got = if k <= self.drawable() {
            k as int
        } else {
            self.drawable()
        };
        &&& new.hand(t).len() == self.hand(t).len() + got
        &&& new.hand(t).take(self.hand(t).len() as int) == self.hand(t)
        &&& new.top() == self.top()
        &&& k <= self.cards_in_stock@.len() ==> {
            let st = self.cards_in_stock@;
            &&& new.hand(t) == self.hand(t) + st.subrange(st.len() - k, st.len() as int).reverse()
            &&& new.cards_in_stock@ == st.take(st.len() - k)
            &&& new.cards_played == self.cards_played
        }
    }

    /// `new` is what the turn holder's action `a` makes of `self`.
    pub open spec fn stepped(&self, new: &Self, a: BullyingAction) -> bool {
        let t = self.current_turn as int;
        let n = self.n();
        let me = NonWaitAction { player: self.current_turn, action: a };
        &&& new.players == self.players
        &&& new.games_won_of_players == self.games_won_of_players
        &&& new.all_cards() == self.all_cards()
        &&& forall|j: int| 0 <= j < n && j != t ==> #[trigger] new.hand(j) == self.hand(j)
        &&& match a {
            BullyingAction::Wait => {
                &&& new.cards_of_players == self.cards_of_players
                &&& new.cards_in_stock == self.cards_in_stock
                &&& new.cards_played == self.cards_played
                &&& new.draw_stack == self.draw_stack
                &&& new.going_clock_wise == self.going_clock_wise
                &&& new.previous_non_wait_action == self.previous_non_wait_action
                &&& new.current_turn == self.current_turn
            },
            BullyingAction::DrawCard => {
                &&& self.drew(new, 1)
                &&& new.draw_stack == self.draw_stack
                &&& new.going_clock_wise == self.going_clock_wise
                &&& new.current_turn == if playable(self.draw_stack, self.top(), new.hand(t)).len()
                    == 0 {
                    next_player(t, n, self.going_clock_wise)
                } else {
                    self.current_turn as int
                }
                &&& new.previous_non_wait_action == me
            },
            BullyingAction::DrawBullyCards(k) => {
                &&& self.drew(new, k)
                &&& new.draw_stack == 0
                &&& new.going_clock_wise == self.going_clock_wise
                &&& new.current_turn == self.current_turn
                &&& new.previous_non_wait_action == me
            },
            BullyingAction::PlayCard(c) => {
                &&& removed_first(self.hand(t), c, new.hand(t))
                &&& new.cards_played@ == self.cards_played@.push(c)
                &&& new.cards_in_stock == self.cards_in_stock
                &&& new.draw_stack == saturated_add(self.draw_stack, draw_amount(c))
                &&& new.going_clock_wise == (self.going_clock_wise != is_reflect(c))
                &&& new.current_turn == next_player(t, n, new.going_clock_wise)
                &&& new.previous_non_wait_action == me
            },
        }
    }

    /// Whether each player's action of `actions` is legal for that player.
    pub open spec fn all_legal(&self, actions: Seq<BullyingAction>) -> bool {
        forall|i: int| 0 <= i < self.n() ==> #[trigger] self.legal(i).contains(actions[i])
    }

    /// Applies one round: `actions[i]` is the action of player `i`. The batch
    /// is refused, and nothing changes, when it does not hold one action per
    /// player or when an action is not legal for its player (the first such
    /// player is named). Only the turn holder's action has an effect; `Wait`
    /// has none. A draw that leaves no playable card ends the turn.
    pub fn next_state(&mut self, actions: &Vec<BullyingAction>) -> (r: Result<(), EngineError>)
        requires
            old(self).wf(),
        ensures
            final(self).wf(),
            r is Err ==> *final(self) == *old(self),
            r == Err::<(), EngineError>(EngineError::ActionCountMismatch) <==> actions@.len()
                != old(self).n(),
            forall|i: usize|
                r == Err::<(), EngineError>(EngineError::IllegalAction(i)) <==> {
                    &&& actions@.len() == old(self).n()
                    &&& i < old(self).n()
                    &&& !old(self).legal(i as int).contains(actions@[i as int])
                    &&& forall|j: int| 0 <= j < i ==> #[trigger] old(self).legal(j).contains(
                        actions@[j],
                    )
                },
            r is Ok <==> actions@.len() == old(self).n() && old(self).all_legal(actions@),
            r is Ok ==> old(self).stepped(final(self), actions@[old(self).current_turn as int]),
    {
        let n = self.players.len();
        if actions.len() != n {
            return Err(EngineError::ActionCountMismatch);
        }
        let mut i: usize = 0;
        while i < n
            invariant
                self.wf(),
                n == self.n(),
                actions@.len() == n,
                i <= n,
                forall|j: int| 0 <= j < i ==> #[trigger] self.legal(j).contains(actions@[j]),
            decreases n - i,
        {
            if !contains_action(&self.available_moves_of_players[i], actions[i]) {
                return Err(EngineError::IllegalAction(i));
            }
            i += 1;
        }
        let ghost start = *self;
        let t = self.current_turn;
        let a = actions[t];
        assert(self.legal(t as int).contains(a));
        match a {
            BullyingAction::Wait => {
                assert(start.stepped(self, a));
            },
            BullyingAction::DrawCard => {
                self.draw_into_hand(t, 1);
                let ghost m = *self;
                self.previous_non_wait_action = NonWaitAction { player: t, action: a };
                let last = self.cards_played[self.cards_played.len() - 1];
                let pc = Self::playable_cards(
                    self.draw_stack,
                    last,
                    self.cards_of_players[t].as_slice(),
                );
                if pc.len() == 0 {
                    self.current_turn = next_of(t, n, self.going_clock_wise);
                }
                assert forall|j: int| 0 <= j < n && j != t implies #[trigger] self.hand(j) == start.hand(j) by {
                    assert(m.hand(j) == start.hand(j));
                }
                assert(start.stepped(self, a));
            },
            BullyingAction::DrawBullyCards(k) => {
                self.draw_into_hand(t, k);
                let ghost m = *self;
                self.draw_stack = 0;
                self.previous_non_wait_action = NonWaitAction { player: t, action: a };
                assert forall|j: int| 0 <= j < n && j != t implies #[trigger] self.hand(j) == start.hand(j) by {
                    assert(m.hand(j) == start.hand(j));
                }
                assert(start.stepped(self, a));
            },
            BullyingAction::PlayCard(c) => {
                proof {
                    lemma_play_in_hand(*self, c);
                }
                let ghost old_hand = self.cards_of_players@[t as int];
                let mut h = self.cards_of_players[t].clone();
                assert(h@ =~= old_hand@);
                let mut j: usize = 0;
                while j < h.len() && h[j] != c
                    invariant
                        j <= h@.len(),
                        h@ == old_hand@,
                        old_hand@.contains(c),
                        forall|k: int| 0 <= k < j ==> h@[k] != c,
                    decreases h@.len() - j,
                {
                    j += 1;
                }
                assert(j < h@.len());
                let ghost mid = *self;
                let removed = h.remove(j);
                assert(first_at(old_hand@, c, j as int));
                self.cards_of_players.set(t, h);
                self.cards_played.push(c);
                self.draw_stack = self.draw_stack.saturating_add(c.bullying_get_draw_amount());
                let reflect = match c {
                    Card::Joker => false,
                    Card::Other { value, .. } => value == 11,
                };
                if reflect {
                    self.going_clock_wise = !self.going_clock_wise;
                }
                self.current_turn = next_of(t, n, self.going_clock_wise);
                self.previous_non_wait_action = NonWaitAction { player: t, action: a };
                proof {
                    let new_hand = self.cards_of_players@[t as int];
                    assert(new_hand@ == old_hand@.remove(j as int));
                    lemma_hands_multiset_update(mid.cards_of_players@, t as int, new_hand);
                    let ha = hands_multiset(self.cards_of_players@);
                    let hb = hands_multiset(mid.cards_of_players@);
                    assert forall|x: Card| #[trigger] self.all_cards().count(x) == start.all_cards().count(x) by {
                        assert(ha.add(old_hand@.to_multiset()).count(x) == hb.add(new_hand@.to_multiset()).count(x));
                        assert(new_hand@.to_multiset() == old_hand@.to_multiset().remove(c));
                        assert(self.cards_played@.to_multiset() == mid.cards_played@.to_multiset().insert(c));
                    }
                    assert(self.all_cards() =~= start.all_cards());
                    assert forall|k: int| 0 <= k < n && k != t implies #[trigger] self.hand(k) == start.hand(k) by {
                        assert(self.cards_of_players@[k] == mid.cards_of_players@[k]);
                    }
                    assert(removed_first(start.hand(t as int), c, self.hand(t as int)));
                    assert(start.stepped(self, a));
                }
            },
        }
        let ghost before_refresh = *self;
        self.refresh_moves();
        proof {
            lemma_stepped_moves(start, before_refresh, *self, a);
        }
        Ok(())
    }
}


/// How many decks a default game uses: one per five players, rounded up.
pub open spec fn default_stocks(n_players: nat) -> nat {
    (n_players + 4) / 5
}

/// Whether a game can be set up: two players or more, a deck or more, a card
/// or more per player, and enough cards to deal every hand and the first card.
pub open spec fn setup_ok(n_players: nat, n_stocks: nat, n_jokers: nat, n_cards: nat) -> bool {
    &&& n_players >= 2
    &&& n_stocks > 0
    &&& n_cards > 0
    &&& decks(n_stocks, n_jokers).len() > n_players * n_cards
}

impl GameStateBullying {
    /// A fresh game dealt from `stock`: each player in turn gets
    /// `n_cards_per_player` cards popped off its end, then one more card
    /// opens the pile. Player 0 starts, clockwise, with no penalty pending.
    pub open spec fn dealt_from(&self, stock: Seq<Card>, n_cards: nat) -> bool {
        let np = self.n();
        let used = np * n_cards;
        &&& self.wf()
        &&& forall|i: int| 0 <= i < np ==> #[trigger] self.hand(i) == dealt(stock, n_cards as int, i)
        &&& self.cards_played@ == seq![stock[stock.len() - 1 - used]]
        &&& self.cards_in_stock@ == stock.take(stock.len() - 1 - used)
        &&& self.all_cards() == stock.to_multiset()
        &&& self.games_won_of_players@ == Seq::new(np as nat, |i: int| 0u32)
        &&& self.current_turn == 0
        &&& self.draw_stack == 0
        &&& self.going_clock_wise
        &&& self.previous_non_wait_action == (NonWaitAction {
            player: 0,
            action: BullyingAction::Wait,
        })
    }

    /// Sets up a game on the given stock (see `dealt_from`).
    pub fn new_game_from_stock(players: Vec<Player>, stock: Vec<Card>, n_cards_per_player: u32) -> (r:
        Result<GameStateBullying, EngineError>)
        ensures
            r is Err <==> players@.len() < 2 || n_cards_per_player == 0 || stock@.len()
                <= players@.len() * n_cards_per_player,
            r is Err ==> r == Err::<GameStateBullying, EngineError>(EngineError::InvalidSetup),
            r is Ok ==> r->Ok_0.players@ == players@ && r->Ok_0.dealt_from(
                stock@,
                n_cards_per_player as nat,
            ),
    {
        let np = players.len();
        if np < 2 || n_cards_per_player == 0 {
            return Err(EngineError::InvalidSetup);
        }
        let nc = n_cards_per_player as usize;
        let sl: usize = stock.len();
        let need = match nc.checked_mul(np) {
            None => {
                assert(np * nc > usize::MAX) by (nonlinear_arith)
                    requires
                        nc * np > usize::MAX,
                ;
                assert(sl <= np * nc);
                return Err(EngineError::InvalidSetup);
            },
            Some(x) => x,
        };
        assert(need == np * nc) by (nonlinear_arith)
            requires
                need == nc * np,
        ;
        if need >= stock.len() {
            return Err(EngineError::InvalidSetup);
        }
        let ghost orig = stock@;
        let ghost len = orig.len() as int;
        let mut stock = stock;
        let mut hands: Vec<Vec<Card>> = Vec::new();
        let mut won: Vec<u32> = Vec::new();
        let mut moves: Vec<Vec<BullyingAction>> = Vec::new();
        let ghost mut base: int = 0;
        let mut i: usize = 0;
        while i < np
            invariant
                i <= np,
                np == players@.len(),
                nc == n_cards_per_player,
                need == np * nc,
                need < len,
                len == orig.len(),
                base == i * nc,
                0 <= base <= need,
                hands@.len() == i,
                won@ == Seq::new(i as nat, |k: int| 0u32),
                moves@.len() == i,
                stock@ == orig.take(len - base),
                forall|k: int| 0 <= k < i ==> #[trigger] hands@[k]@ == dealt(orig, nc as int, k),
                hands_multiset(hands@).add(stock@.to_multiset()) == orig.to_multiset(),
            decreases np - i,
        {
            assert((i + 1) * nc <= np * nc) by (nonlinear_arith)
                requires
                    i + 1 <= np,
            ;
            assert((i + 1) * nc == i * nc + nc) by (nonlinear_arith);
            let mut h: Vec<Card> = Vec::new();
            let mut k: usize = 0;
            while k < nc
                invariant
                    k <= nc,
                    0 <= base,
                    base + nc <= need,
                    need < len,
                    len == orig.len(),
                    stock@ == orig.take(len - base - k),
                    h@ == Seq::new(k as nat, |m: int| orig[len - 1 - (base + m)]),
                    hands_multiset(hands@).add(h@.to_multiset()).add(stock@.to_multiset())
                        == orig.to_multiset(),
                decreases nc - k,
            {
                let ghost before = stock@;
                let c = stock.pop().unwrap();
                assert(before == stock@.push(c));
                assert(stock@ == orig.take(len - base - k - 1));
                let ghost hb = h@;
                h.push(c);
                assert(h@ =~= Seq::new((k + 1) as nat, |m: int| orig[len - 1 - (base + m)]));
                assert(hands_multiset(hands@).add(h@.to_multiset()).add(stock@.to_multiset())
                    =~= hands_multiset(hands@).add(hb.to_multiset()).add(before.to_multiset()));
                k += 1;
            }
            let ghost hs = hands@;
            hands.push(h);
            assert(hands@.drop_last() == hs);
            assert(h@ =~= dealt(orig, nc as int, i as int));
            won.push(0);
            assert(won@ =~= Seq::new((i + 1) as nat, |k: int| 0u32));
            moves.push(Vec::new());
            proof {
                base = base + nc;
            }
            i += 1;
        }
        let ghost before = stock@;
        let top = stock.pop().unwrap();
        assert(before == stock@.push(top));
        let cards_played = vec![top];
        assert(cards_played@ == seq![top]);
        let mut game = GameStateBullying {
            players,
            games_won_of_players: won,
            cards_in_stock: stock,
            cards_played,
            cards_of_players: hands,
            available_moves_of_players: moves,
            current_turn: 0,
            previous_non_wait_action: NonWaitAction { player: 0, action: BullyingAction::Wait },
            draw_stack: 0,
            going_clock_wise: true,
        };
        assert(game.all_cards() =~= orig.to_multiset());
        game.refresh_moves();
        assert(base == need);
        assert(game.cards_in_stock@ == orig.take(len - 1 - need));
        assert(game.cards_played@ == seq![orig[len - 1 - need]]);
        assert(forall|k: int| 0 <= k < np ==> #[trigger] game.hand(k) == dealt(orig, nc as int, k));
        Ok(game)
    }
}


fn clone_players(players: &Vec<Player>) -> (r: Vec<Player>)
    ensures
        r@.len() == players@.len(),
        forall|k: int| 0 <= k < players@.len() ==> #[trigger] r@[k].id@ == players@[k].id@,
{
    let mut r: Vec<Player> = Vec::new();
    let mut i: usize = 0;
    while i < players.len()
        invariant
            i <= players@.len(),
            r@.len() == i,
            forall|k: int| 0 <= k < i ==> #[trigger] r@[k].id@ == players@[k].id@,
        decreases players@.len() - i,
    {
        r.push(players[i].clone());
        i += 1;
    }
    r
}

impl GameStateBullying {
    /// Sets up a game with `n_stocks` shuffled decks of `n_jokers_per_stock`
    /// jokers each, dealing `n_cards_per_player` cards to every player.
    pub fn new_game(
        players: Vec<Player>,
        n_stocks: u32,
        n_jokers_per_stock: u32,
        n_cards_per_player: u32,
    ) -> (r: Result<GameStateBullying, EngineError>)
        ensures
            r is Err <==> !setup_ok(
                players@.len(),
                n_stocks as nat,
                n_jokers_per_stock as nat,
                n_cards_per_player as nat,
            ),
            r is Err ==> r == Err::<GameStateBullying, EngineError>(EngineError::InvalidSetup),
            r is Ok ==> r->Ok_0.players@ == players@ && exists|stock: Seq<Card>|
                stock.to_multiset() == decks(n_stocks as nat, n_jokers_per_stock as nat).to_multiset()
                    && #[trigger] r->Ok_0.dealt_from(stock, n_cards_per_player as nat),
    {
        if n_stocks == 0 {
            return Err(EngineError::InvalidSetup);
        }
        let mut stock = Card::n_full_stocks(n_stocks, n_jokers_per_stock);
        let ghost ordered = stock@;
        crate::random::shuffle(&mut stock);
        assert(stock@.to_multiset().len() == ordered.to_multiset().len());
        let ghost st = stock@;
        let r = Self::new_game_from_stock(players, stock, n_cards_per_player);
        if let Ok(g) = &r {
            assert(g.dealt_from(st, n_cards_per_player as nat));
        }
        r
    }

    /// `new_game` with one deck per five players (rounded up), two jokers
    /// per deck and seven cards per player.
    pub fn new_game_default(players: Vec<Player>) -> (r: Result<GameStateBullying, EngineError>)
        requires
            players@.len() <= u32::MAX,
        ensures
            r is Err <==> !setup_ok(players@.len(), default_stocks(players@.len()), 2, 7),
            r is Err ==> r == Err::<GameStateBullying, EngineError>(EngineError::InvalidSetup),
            r is Ok ==> r->Ok_0.players@ == players@ && exists|stock: Seq<Card>|
                stock.to_multiset() == decks(default_stocks(players@.len()), 2).to_multiset()
                    && #[trigger] r->Ok_0.dealt_from(stock, 7),
    {
        let l = players.len() as u64;
        let n_stocks = ((l + 4) / 5) as u32;
        Self::new_game(players, n_stocks, 2, 7)
    }

    /// `v` is what player `i` may see: the players, the scores, its own hand,
    /// the size of every hand, the top of the pile, its own legal actions and
    /// whether the game is over.
    pub open spec fn is_view_of(&self, i: int, v: GameStateBullyingPlayer) -> bool {
        &&& v.players@.len() == self.n()
        &&& forall|k: int| 0 <= k < self.n() ==> #[trigger] v.players@[k].id@ == self.players@[k].id@
        &&& v.games_won_of_players@ == self.games_won_of_players@
        &&& v.cards@ == self.hand(i)
        &&& v.card_amount_of_players@ == Seq::new(
            self.n() as nat,
            |k: int| self.hand(k).len() as usize,
        )
        &&& v.last_played_card == Some(self.top())
        &&& v.available_moves@ == self.legal(i)
        &&& v.game_over == self.is_over()
    }

    /// One view per player, indexed like `players`.
    pub fn get_player_states(&self) -> (r: Vec<GameStateBullyingPlayer>)
        requires
            self.wf(),
        ensures
            r@.len() == self.n(),
            forall|i: int| 0 <= i < self.n() ==> #[trigger] self.is_view_of(i, r@[i]),
    {
        let n = self.players.len();
        let over = self.game_over();
        let mut amounts: Vec<usize> = Vec::new();
        let mut k: usize = 0;
        while k < n
            invariant
                self.wf(),
                n == self.n(),
                k <= n,
                amounts@ == Seq::new(k as nat, |j: int| self.hand(j).len() as usize),
            decreases n - k,
        {
            amounts.push(self.cards_of_players[k].len());
            assert(amounts@ =~= Seq::new((k + 1) as nat, |j: int| self.hand(j).len() as usize));
            k += 1;
        }
        let last = self.cards_played[self.cards_played.len() - 1];
        let mut r: Vec<GameStateBullyingPlayer> = Vec::new();
        let mut i: usize = 0;
        while i < n
            invariant
                self.wf(),
                n == self.n(),
                i <= n,
                over == self.is_over(),
                last == self.top(),
                amounts@ == Seq::new(n as nat, |j: int| self.hand(j).len() as usize),
                r@.len() == i,
                forall|j: int| 0 <= j < i ==> #[trigger] self.is_view_of(j, r@[j]),
            decreases n - i,
        {
            let won = self.games_won_of_players.clone();
            assert(won@ =~= self.games_won_of_players@);
            let cards = self.cards_of_players[i].clone();
            assert(cards@ =~= self.hand(i as int));
            let am = amounts.clone();
            assert(am@ =~= amounts@);
            let mv = self.available_moves_of_players[i].clone();
            assert(mv@ =~= self.available_moves_of_players@[i as int]@);
            let v = GameStateBullyingPlayer {
                players: clone_players(&self.players),
                games_won_of_players: won,
                cards,
                card_amount_of_players: am,
                last_played_card: Some(last),
                available_moves: mv,
                game_over: over,
            };
            r.push(v);
            i += 1;
        }
        r
    }
}

/// Projection is a function of the state: two views of one player on one
/// state agree in everything they show, and the only cards they show are the
/// player's own hand and the top of the pile.
pub proof fn lemma_projection_idempotent(
    s: GameStateBullying,
    i: int,
    v1: GameStateBullyingPlayer,
    v2: GameStateBullyingPlayer,
)
    requires
        s.wf(),
        0 <= i < s.n(),
        s.is_view_of(i, v1),
        s.is_view_of(i, v2),
    ensures
        v1.players@.len() == v2.players@.len(),
        forall|k: int| 0 <= k < v1.players@.len() ==> #[trigger] v1.players@[k].id@ == v2.players@[k].id@,
        v1.games_won_of_players@ == v2.games_won_of_players@,
        v1.cards@ == v2.cards@,
        v1.card_amount_of_players@ == v2.card_amount_of_players@,
        v1.last_played_card == v2.last_played_card,
        v1.available_moves@ == v2.available_moves@,
        v1.game_over == v2.game_over,
        v1.cards@ == s.hand(i),
        v1.last_played_card == Some(s.top()),
{
    assert forall|k: int| 0 <= k < v1.players@.len() implies #[trigger] v1.players@[k].id@ == v2.players@[k].id@ by {
        assert(v1.players@[k].id@ == s.players@[k].id@);
        assert(v2.players@[k].id@ == s.players@[k].id@);
    }
}

/// Two value-2 cards played one after the other on a state without a pending
/// penalty leave a penalty of four; the next player absorbing it with
/// `DrawBullyCards(4)` gets four more cards, when four can be drawn, and the
/// penalty is cleared.
pub proof fn lemma_penalty_stacking(
    s0: GameStateBullying,
    s1: GameStateBullying,
    s2: GameStateBullying,
    s3: GameStateBullying,
    c1: Card,
    c2: Card,
)
    requires
        s0.wf(),
        s0.draw_stack == 0,
        c1 matches Card::Other { value, .. } && value == 2,
        c2 matches Card::Other { value, .. } && value == 2,
        s0.stepped(&s1, BullyingAction::PlayCard(c1)),
        s1.stepped(&s2, BullyingAction::PlayCard(c2)),
        s2.stepped(&s3, BullyingAction::DrawBullyCards(4)),
        s2.drawable() >= 4,
    ensures
        s1.draw_stack == 2,
        s2.draw_stack == 4,
        s3.draw_stack == 0,
        s3.hand(s2.current_turn as int).len() == s2.hand(s2.current_turn as int).len() + 4,
{
}


/// No card is created or lost: a game holds the cards of the decks it was
/// dealt from, and every accepted round keeps the multiset of cards across
/// hands, stock and pile.
pub proof fn lemma_cards_conserved(
    stock: Seq<Card>,
    n_cards: nat,
    s0: GameStateBullying,
    s1: GameStateBullying,
    a: BullyingAction,
)
    requires
        s0.dealt_from(stock, n_cards),
        s0.stepped(&s1, a),
    ensures
        s0.all_cards() == stock.to_multiset(),
        s1.all_cards() == stock.to_multiset(),
{
}

} // verus!
