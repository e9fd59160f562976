//! Cards, actions and the state machine of the trick-taking betting game "Touping".
use super::{saturated_add, EngineError};
use crate::{hands_multiset, lemma_hands_multiset_empty, lemma_hands_multiset_update};
use vstd::multiset::Multiset;
use vstd::prelude::*;

verus! {

broadcast use {vstd::seq_lib::group_to_multiset_ensures, vstd::multiset::group_multiset_axioms};

#[derive(Clone, Copy, Debug, PartialEq, Eq, Hash, Structural)]
pub enum Suit {
    Clubs,
    Diamonds,
    Hearts,
    Spades,
}

pub const CARD_VALUE_MIN: u8 = 1;

pub const CARD_VALUE_MAX: u8 = 8;

/// A player who reaches this score leaves the game.
pub const POINT_LIMIT: u32 = 15;

/// Cards dealt to each player of a round, and drawn on a dirty wash.
pub const HAND_SIZE: usize = 4;

/// Most players a game takes: every hand dealt from one deck.
pub const MAX_PLAYERS: usize = 8;

#[derive(Clone, Copy, Debug, PartialEq, Eq, Hash, Structural)]
pub struct Card {
    pub suit: Suit,
    pub value: u8,
}

/// The cards of one suit, values ascending.
pub open spec fn suit_run(suit: Suit) -> Seq<Card> {
    Seq::new(8, |j: int| Card { suit, value: (j + 1) as u8 })
}

/// The ordered deck: clubs, diamonds, hearts, spades, each ascending.
pub open spec fn full_deck() -> Seq<Card> {
    suit_run(Suit::Clubs) + suit_run(Suit::Diamonds) + suit_run(Suit::Hearts) + suit_run(
        Suit::Spades,
    )
}

fn push_suit(stock: &mut Vec<Card>, suit: Suit)
    ensures
        final(stock)@ == old(stock)@ + suit_run(suit),
{
    let ghost start = stock@;
    let mut value: u8 = CARD_VALUE_MIN;
    while value <= CARD_VALUE_MAX
        invariant
            1 <= value <= 9,
            stock@ == start + suit_run(suit).take(value - 1),
        decreases 9 - value,
    {
        stock.push(Card { suit, value });
        assert(suit_run(suit).take(value as int) == suit_run(suit).take(value - 1).push(
            Card { suit, value },
        ));
        value += 1;
    }
    assert(suit_run(suit).take(8) == suit_run(suit));
}

impl Card {
    pub fn new(suit: Suit, value: u8) -> (r: Self)
        ensures
            r == (Card { suit, value }),
    {
        Card { suit, value }
    }

    /// The full ordered deck.
    pub fn full_stock() -> (r: Vec<Self>)
        ensures
            r@ == full_deck(),
    {
        let mut result: Vec<Card> = Vec::new();
        push_suit(&mut result, Suit::Clubs);
        push_suit(&mut result, Suit::Diamonds);
        push_suit(&mut result, Suit::Hearts);
        push_suit(&mut result, Suit::Spades);
        result
    }

    /// The full deck in random order.
    pub fn full_stock_shuffled() -> (r: Vec<Self>)
        ensures
            r@.to_multiset() == full_deck().to_multiset(),
            r@.len() == 32,
    {
        let mut result = Self::full_stock();
        crate::random::shuffle(&mut result);
        proof {
            full_deck().to_multiset_ensures();
            result@.to_multiset_ensures();
        }
        result
    }
}

/// A dirty wash: no card above five, and at most one five.
pub open spec fn dirty_wash(cards: Seq<Card>) -> bool {
    &&& forall|i: int| 0 <= i < cards.len() ==> #[trigger] cards[i].value <= 5
    &&& forall|i: int, j: int|
        0 <= i < cards.len() && 0 <= j < cards.len() && #[trigger] cards[i].value == 5
            && #[trigger] cards[j].value == 5 ==> i == j
}

/// Whether `cards` is a dirty wash.
pub fn is_dirty_wash(cards: &[Card]) -> (r: bool)
    ensures
        r == dirty_wash(cards@),
{
    let mut five_at: Option<usize> = None;
    let mut i: usize = 0;
    while i < cards.len()
        invariant
            i <= cards@.len(),
            forall|k: int| 0 <= k < i ==> #[trigger] cards@[k].value <= 5,
            match five_at {
                None => forall|k: int| 0 <= k < i ==> #[trigger] cards@[k].value != 5,
                Some(f) => f < i && cards@[f as int].value == 5 && forall|k: int|
                    0 <= k < i && k != f ==> #[trigger] cards@[k].value != 5,
            },
        decreases cards@.len() - i,
    {
        let v = cards[i].value;
        if v == 5 {
            if let Some(f) = five_at {
                assert(cards@[f as int].value == 5 && cards@[i as int].value == 5);
                return false;
            } else {
                five_at = Some(i);
            }
        }
        if v > 5 {
            assert(cards@[i as int].value > 5);
            return false;
        }
        i += 1;
    }
    true
}

#[derive(Clone, Copy, Debug, PartialEq, Eq, Hash, Structural)]
pub enum Action {
    PlayCard(Card),
    RaiseBet,
    AcceptBet,
    Retreat,
    CallDirtyWash,
    ChallengeDirtyWash(usize),
    AllowDirtyWash(usize),
    Wait,
    NotResponded,
}

/// Where a round stands; it decides what each player may do.
#[derive(Clone, Copy, Debug, PartialEq, Eq, Structural)]
pub enum Phase {
    /// No round is running: the next batch deals one, if two players or more
    /// are still under the point limit.
    Idle,
    /// Players of the round may call a dirty wash.
    DirtyWashWindow,
    /// The player at this index called a dirty wash; the others may
    /// challenge or allow it.
    DirtyWashCalled(usize),
    /// A raise is answered, one player at a time.
    Betting,
    /// The turn holder plays a card.
    TrickPlay,
}

/// A card of the current trick and the index of the player who played it.
#[derive(Clone, Copy, Debug, PartialEq, Eq, Structural)]
pub struct HitCard {
    pub player: usize,
    pub card: Card,
}

/// The authoritative state of a Touping game. Per-player data is indexed
/// like `players`.
#[derive(Clone, Debug)]
pub struct ServerState {
    pub players: Vec<String>,
    pub player_points: Vec<u32>,
    pub available_actions: Vec<Vec<Action>>,
    pub round_action_history: Vec<Vec<Action>>,
    pub round_phase: Phase,
    pub round_players: Vec<usize>,
    pub round_show_open_cards: Vec<usize>,
    pub round_player_cards: Vec<Vec<Card>>,
    pub round_stock_cards: Vec<Card>,
    pub round_cards_played: Vec<Card>,
    pub round_last_raising_player: Option<usize>,
    pub round_current_turn: usize,
    pub round_bet_current_turn: Option<usize>,
    pub round_bet: u32,
    pub hit_cards_played: Vec<HitCard>,
}

/// One `PlayCard` action for each card, in order.
pub open spec fn plays_of(cards: Seq<Card>) -> Seq<Action> {
    cards.map_values(|c: Card| Action::PlayCard(c))
}

/// The cards of `hand` of suit `suit`, in order.
pub open spec fn of_suit(hand: Seq<Card>, suit: Suit) -> Seq<Card> {
    hand.filter(|c: Card| c.suit == suit)
}

/// The first element of `rp` above `x`, if any.
pub open spec fn first_above(rp: Seq<usize>, x: usize) -> Option<usize>
    decreases rp.len(),
{
    if rp.len() == 0 {
        None
    } else if rp[0] > x {
        Some(rp[0])
    } else {
        first_above(rp.drop_first(), x)
    }
}

/// The player after `x` in the ring `rp` (ascending indexes, wrapping).
pub open spec fn ring_next(rp: Seq<usize>, x: usize) -> usize {
    match first_above(rp, x) {
        Some(v) => v,
        None => rp[0],
    }
}

proof fn lemma_first_above_in(rp: Seq<usize>, x: usize)
    ensures
        first_above(rp, x) matches Some(v) ==> rp.contains(v) && v > x,
    decreases rp.len(),
{
    if rp.len() > 0 && rp[0] <= x {
        lemma_first_above_in(rp.drop_first(), x);
        if let Some(v) = first_above(rp.drop_first(), x) {
            let k = choose|k: int| 0 <= k < rp.drop_first().len() && rp.drop_first()[k] == v;
            assert(rp[k + 1] == v);
        }
    }
}

proof fn lemma_ring_next_in(rp: Seq<usize>, x: usize)
    requires
        rp.len() > 0,
    ensures
        rp.contains(ring_next(rp, x)),
{
    lemma_first_above_in(rp, x);
    assert(rp[0] == rp[0]);
}

/// In a strictly ascending ring of two players or more, the next player
/// after a member is another member.
proof fn lemma_ring_next_other(rp: Seq<usize>, x: usize)
    requires
        rp.len() >= 2,
        rp.contains(x),
        forall|a: int, b: int| 0 <= a < b < rp.len() ==> #[trigger] rp[a] < #[trigger] rp[b],
    ensures
        ring_next(rp, x) != x,
        rp.contains(ring_next(rp, x)),
{
    lemma_ring_next_in(rp, x);
    lemma_first_above_in(rp, x);
    if first_above(rp, x) is None {
        let k = choose|k: int| 0 <= k < rp.len() && rp[k] == x;
        if k > 0 {
            assert(rp[0] < rp[k]);
        } else {
            assert(rp[0] < rp[1]);
            lemma_first_above_none(rp, x, 1);
        }
    }
}

proof fn lemma_first_above_none(rp: Seq<usize>, x: usize, k: int)
    requires
        first_above(rp, x) is None,
        0 <= k < rp.len(),
    ensures
        rp[k] <= x,
    decreases rp.len(),
{
    if k > 0 {
        lemma_first_above_none(rp.drop_first(), x, k - 1);
    }
}

fn ring_next_exec(rp: &Vec<usize>, x: usize) -> (r: usize)
    requires
        rp@.len() > 0,
    ensures
        r == ring_next(rp@, x),
        rp@.contains(r),
{
    proof {
        lemma_ring_next_in(rp@, x);
    }
    let mut k: usize = 0;
    assert(rp@.subrange(0, rp@.len() as int) == rp@);
    while k < rp.len()
        invariant
            k <= rp@.len(),
            first_above(rp@, x) == first_above(rp@.subrange(k as int, rp@.len() as int), x),
        decreases rp@.len() - k,
    {
        let ghost rest = rp@.subrange(k as int, rp@.len() as int);
        assert(rest.drop_first() == rp@.subrange(k + 1, rp@.len() as int));
        if rp[k] > x {
            return rp[k];
        }
        k += 1;
    }
    rp[0]
}

/// `a` is of the same kind as `kind`: equal, or both a challenge.
pub open spec fn same_kind(a: Action, kind: Action) -> bool {
    match (a, kind) {
        (Action::ChallengeDirtyWash(_), Action::ChallengeDirtyWash(_)) => true,
        _ => a == kind,
    }
}

/// The first index from `k` on whose action is of the kind of `kind`.
pub open spec fn first_of(acts: Seq<Action>, kind: Action, k: int) -> Option<usize>
    decreases acts.len() - k,
{
    if k < 0 || k >= acts.len() {
        None
    } else if same_kind(acts[k], kind) {
        Some(k as usize)
    } else {
        first_of(acts, kind, k + 1)
    }
}

fn first_of_exec(acts: &Vec<Action>, kind: Action) -> (r: Option<usize>)
    ensures
        r == first_of(acts@, kind, 0),
{
    let mut k: usize = 0;
    while k < acts.len()
        invariant
            k <= acts@.len(),
            first_of(acts@, kind, 0) == first_of(acts@, kind, k as int),
        decreases acts@.len() - k,
    {
        let a = acts[k];
        let same = match (a, kind) {
            (Action::ChallengeDirtyWash(_), Action::ChallengeDirtyWash(_)) => true,
            _ => a == kind,
        };
        if same {
            return Some(k);
        }
        k += 1;
    }
    None
}

/// The players, ascending, whose points are under the limit, among the first `k`.
pub open spec fn eligible(points: Seq<u32>, k: int) -> Seq<usize>
    decreases k,
{
    if k <= 0 {
        Seq::empty()
    } else {
        let e = eligible(points, k - 1);
        if points[k - 1] < POINT_LIMIT {
            e.push((k - 1) as usize)
        } else {
            e
        }
    }
}


fn contains_index(v: &Vec<usize>, x: usize) -> (r: bool)
    ensures
        r == v@.contains(x),
{
    let mut i: usize = 0;
    while i < v.len()
        invariant
            i <= v@.len(),
            forall|k: int| 0 <= k < i ==> v@[k] != x,
        decreases v@.len() - i,
    {
        if v[i] == x {
            assert(v@[i as int] == x);
            return true;
        }
        i += 1;
    }
    false
}

fn contains_action(v: &Vec<Action>, a: Action) -> (r: bool)
    ensures
        r == v@.contains(a),
{
    let mut i: usize = 0;
    while i < v.len()
        invariant
            i <= v@.len(),
            forall|k: int| 0 <= k < i ==> v@[k] != a,
        decreases v@.len() - i,
    {
        if v[i] == a {
            assert(v@[i as int] == a);
            return true;
        }
        i += 1;
    }
    false
}

/// The cards of a trick.
pub open spec fn hit_cards(hits: Seq<HitCard>) -> Seq<Card> {
    hits.map_values(|h: HitCard| h.card)
}

impl ServerState {
    /// Every card of the round: hands, stock, discarded cards and the trick.
    pub open spec fn all_cards(&self) -> Multiset<Card> {
        hands_multiset(self.round_player_cards@).add(self.round_stock_cards@.to_multiset()).add(
            self.round_cards_played@.to_multiset(),
        ).add(hit_cards(self.hit_cards_played@).to_multiset())
    }

    pub open spec fn n(&self) -> int {
        self.players@.len() as int
    }

    pub open spec fn hand(&self, i: int) -> Seq<Card> {
        self.round_player_cards@[i]@
    }

    pub open spec fn in_round(&self, i: int) -> bool {
        0 <= i && self.round_players@.contains(i as usize)
    }

    /// The suit of the first card of the current trick.
    pub open spec fn lead_suit(&self) -> Suit {
        self.hit_cards_played@[0].card.suit
    }

    /// The cards that player `i` may play: those of the led suit if it holds
    /// any, else all of its hand.
    pub open spec fn card_options(&self, i: int) -> Seq<Card> {
        if self.hit_cards_played@.len() > 0 && of_suit(self.hand(i), self.lead_suit()).len() > 0 {
            of_suit(self.hand(i), self.lead_suit())
        } else {
            self.hand(i)
        }
    }

    /// The actions that player `i` may submit next.
    pub open spec fn legal(&self, i: int) -> Seq<Action> {
        let idle = seq![Action::NotResponded, Action::Wait];
        match self.round_phase {
            Phase::Idle => idle,
            Phase::DirtyWashWindow => if self.in_round(i) {
                seq![Action::NotResponded, Action::CallDirtyWash, Action::Wait]
            } else {
                idle
            },
            Phase::DirtyWashCalled(p) => if self.in_round(i) && i != p {
                seq![
                    Action::NotResponded,
                    Action::ChallengeDirtyWash(p),
                    Action::AllowDirtyWash(p),
                    Action::Wait,
                ]
            } else {
                idle
            },
            Phase::Betting => if self.round_bet_current_turn == Some(i as usize) {
                seq![Action::NotResponded, Action::AcceptBet, Action::Retreat]
            } else {
                idle
            },
            Phase::TrickPlay => if !self.in_round(i) {
                idle
            } else {
                let head = if i == self.round_current_turn {
                    seq![Action::NotResponded] + plays_of(self.card_options(i))
                } else {
                    idle
                };
                if self.round_last_raising_player != Some(i as usize) {
                    head.push(Action::RaiseBet)
                } else {
                    head
                }
            },
        }
    }

    /// The shape of a state: one entry per player everywhere, every card of
    /// one deck accounted for exactly once, round players that name players, and a turn, a bet cursor and a dirty-wash caller
    /// that are players of the round while a round runs.
    pub open spec fn shape(&self) -> bool {
        &&& 2 <= self.n() <= MAX_PLAYERS
        &&& self.player_points@.len() == self.n()
        &&& self.available_actions@.len() == self.n()
        &&& self.round_player_cards@.len() == self.n()
        &&& self.all_cards() == full_deck().to_multiset()
        &&& forall|k: int|
            0 <= k < self.round_players@.len() ==> #[trigger] self.round_players@[k] < self.n()
        &&& forall|a: int, b: int|
            0 <= a < b < self.round_players@.len() ==> #[trigger] self.round_players@[a]
                < #[trigger] self.round_players@[b]
        &&& self.round_current_turn < self.n()
        &&& forall|k: int|
            0 <= k < self.round_action_history@.len() ==> #[trigger] self.round_action_history@[k]@.len()
                == self.n()
        &&& (self.round_players@.len() > 0 ==> self.in_round(self.round_current_turn as int))
        &&& (self.round_phase is DirtyWashWindow ==> self.round_stock_cards@.len() >= HAND_SIZE)
        &&& (self.round_phase is Betting <==> self.round_bet_current_turn is Some)
        &&& (self.round_phase !is Idle ==> self.round_players@.len() >= 2 && self.in_round(
            self.round_current_turn as int,
        ))
        &&& (self.round_phase matches Phase::DirtyWashCalled(p) ==> self.in_round(p as int)
            && self.round_stock_cards@.len() >= HAND_SIZE)
        &&& (self.round_phase is Betting ==> {
            &&& self.round_bet_current_turn matches Some(b) && self.in_round(b as int)
            &&& self.round_last_raising_player matches Some(r) && self.in_round(r as int)
            &&& self.round_bet_current_turn != self.round_last_raising_player
        })
    }

    /// A well-formed state: its shape, and each player's stored actions are
    /// exactly the legal ones.
    pub open spec fn wf(&self) -> bool {
        &&& self.shape()
        &&& forall|i: int|
            0 <= i < self.n() ==> #[trigger] self.available_actions@[i]@ == self.legal(i)
    }

    fn is_in_round(&self, i: usize) -> (r: bool)
        ensures
            r == self.in_round(i as int),
    {
        contains_index(&self.round_players, i)
    }

    /// The actions that `player` (an index into `players`) may submit next.
    pub fn legal_actions(&self, player: usize) -> (r: Vec<Action>)
        requires
            self.shape(),
            player < self.n(),
        ensures
            r@ == self.legal(player as int),
    {
        let in_round = self.is_in_round(player);
        match self.round_phase {
            Phase::Idle => vec![Action::NotResponded, Action::Wait],
            Phase::DirtyWashWindow => if in_round {
                vec![Action::NotResponded, Action::CallDirtyWash, Action::Wait]
            } else {
                vec![Action::NotResponded, Action::Wait]
            },
            Phase::DirtyWashCalled(p) => if in_round && player != p {
                vec![
                    Action::NotResponded,
                    Action::ChallengeDirtyWash(p),
                    Action::AllowDirtyWash(p),
                    Action::Wait,
                ]
            } else {
                vec![Action::NotResponded, Action::Wait]
            },
            Phase::Betting => if self.round_bet_current_turn == Some(player) {
                vec![Action::NotResponded, Action::AcceptBet, Action::Retreat]
            } else {
                vec![Action::NotResponded, Action::Wait]
            },
            Phase::TrickPlay => {
                if !in_round {
                    return vec![Action::NotResponded, Action::Wait];
                }
                let mut r: Vec<Action>;
                if player == self.round_current_turn {
                    r = vec![Action::NotResponded];
                    let opts = self.card_options_exec(player);
                    let ghost o = opts@;
                    let ghost r0 = r@;
                    let mut k: usize = 0;
                    while k < opts.len()
                        invariant
                            k <= o.len(),
                            opts@ == o,
                            r@ == r0 + plays_of(o.take(k as int)),
                        decreases o.len() - k,
                    {
                        assert(o.take(k + 1) == o.take(k as int).push(o[k as int]));
                        assert(plays_of(o.take(k + 1)) == plays_of(o.take(k as int)).push(
                            Action::PlayCard(o[k as int]),
                        ));
                        r.push(Action::PlayCard(opts[k]));
                        k += 1;
                    }
                    assert(o.take(o.len() as int) == o);
                } else {
                    r = vec![Action::NotResponded, Action::Wait];
                }
                if self.round_last_raising_player != Some(player) {
                    r.push(Action::RaiseBet);
                }
                r
            },
        }
    }

    fn card_options_exec(&self, i: usize) -> (r: Vec<Card>)
        requires
            self.shape(),
            i < self.n(),
        ensures
            r@ == self.card_options(i as int),
    {
        let hand = &self.round_player_cards[i];
        if self.hit_cards_played.len() > 0 {
            let suit = self.hit_cards_played[0].card.suit;
            let mut same: Vec<Card> = Vec::new();
            let mut k: usize = 0;
            while k < hand.len()
                invariant
                    k <= hand@.len(),
                    same@ == of_suit(hand@.take(k as int), suit),
                decreases hand@.len() - k,
            {
                assert(hand@.take(k + 1).drop_last() == hand@.take(k as int));
                assert(hand@.take(k + 1).last() == hand@[k as int]);
                proof {
                    reveal(Seq::filter);
                }
                if hand[k].suit == suit {
                    same.push(hand[k]);
                }
                k += 1;
            }
            assert(hand@.take(hand@.len() as int) == hand@);
            if same.len() > 0 {
                return same;
            }
        }
        let all = hand.clone();
        assert(all@ =~= hand@);
        all
    }

    /// Stores every player's legal actions.
    fn refresh_actions(&mut self)
        requires
            old(self).shape(),
        ensures
            final(self).wf(),
            *final(self) == (ServerState {
                available_actions: final(self).available_actions,
                ..*old(self)
            }),
    {
        let ghost start = *self;
        let mut i: usize = 0;
        while i < self.players.len()
            invariant
                self.shape(),
                i <= self.n(),
                *self == (ServerState { available_actions: self.available_actions, ..start }),
                forall|k: int| 0 <= k < i ==> #[trigger] self.available_actions@[k]@ == start.legal(k),
            decreases self.n() - i,
        {
            let v = self.legal_actions(i);
            self.available_actions.set(i, v);
            i += 1;
        }
        assert forall|k: int| 0 <= k < self.n() implies #[trigger] self.available_actions@[k]@ == self.legal(k) by {
            assert(self.legal(k) == start.legal(k));
        }
    }
}


proof fn lemma_eligible(points: Seq<u32>, k: int)
    requires
        0 <= k <= points.len() <= usize::MAX,
    ensures
        eligible(points, k).len() <= k,
        forall|a: int| 0 <= a < eligible(points, k).len() ==> #[trigger] eligible(points, k)[a] < k,
        forall|a: int, b: int|
            0 <= a < b < eligible(points, k).len() ==> #[trigger] eligible(points, k)[a]
                < #[trigger] eligible(points, k)[b],
    decreases k,
{
    if k > 0 {
        lemma_eligible(points, k - 1);
        let e = eligible(points, k - 1);
        if points[k - 1] < POINT_LIMIT {
            assert(eligible(points, k) == e.push((k - 1) as usize));
            assert forall|a: int, b: int|
                0 <= a < b < eligible(points, k).len() implies #[trigger] eligible(points, k)[a]
                    < #[trigger] eligible(points, k)[b] by {
                if b == e.len() {
                    assert(e[a] < k - 1);
                } else {
                    assert(e[a] < e[b]);
                }
            }
        }
    }
}

proof fn lemma_first_of(acts: Seq<Action>, kind: Action, k: int)
    requires
        acts.len() <= usize::MAX,
    ensures
        first_of(acts, kind, k) matches Some(i) ==> k <= i < acts.len() && same_kind(acts[i as int], kind),
    decreases acts.len() - k,
{
    if 0 <= k < acts.len() && !same_kind(acts[k], kind) {
        assert(first_of(acts, kind, k) == first_of(acts, kind, k + 1));
        lemma_first_of(acts, kind, k + 1);
    }
}

proof fn lemma_plays_of_contains(cards: Seq<Card>, c: Card)
    requires
        plays_of(cards).contains(Action::PlayCard(c)),
    ensures
        cards.contains(c),
{
    let k = choose|k: int| 0 <= k < plays_of(cards).len() && plays_of(cards)[k] == Action::PlayCard(c);
    assert(cards[k] == c);
}

/// The entry among the first `k` of a trick whose player is in `rp` (and,
/// with `suit`, whose card is of that suit) with the highest value, the
/// earliest on a tie.
pub open spec fn best_upto(hits: Seq<HitCard>, rp: Seq<usize>, suit: Option<Suit>, k: int) -> Option<
    usize,
>
    decreases k,
{
    if k <= 0 {
        None
    } else {
        let prev = best_upto(hits, rp, suit, k - 1);
        let h = hits[k - 1];
        if rp.contains(h.player) && (suit matches Some(s) ==> h.card.suit == s) && (prev matches Some(
            b,
        ) ==> h.card.value > hits[b as int].card.value) {
            Some((k - 1) as usize)
        } else {
            prev
        }
    }
}

/// The winner of a trick among the players `rp`: the highest card of the
/// suit of the first card, else the highest card.
pub open spec fn winner_of(hits: Seq<HitCard>, rp: Seq<usize>) -> usize {
    let len = hits.len() as int;
    match best_upto(hits, rp, Some(hits[0].card.suit), len) {
        Some(b) => hits[b as int].player,
        None => match best_upto(hits, rp, None, len) {
            Some(b) => hits[b as int].player,
            None => 0,
        },
    }
}

/// Entry `h` of a trick counts for the players `rp` (and, with `suit`, that suit).
pub open spec fn counts(h: HitCard, rp: Seq<usize>, suit: Option<Suit>) -> bool {
    rp.contains(h.player) && (suit matches Some(s) ==> h.card.suit == s)
}

/// The entry that `best_upto` picks is the earliest entry of maximal value
/// among those that count; it picks none exactly when none counts.
pub proof fn lemma_best_is_earliest_max(hits: Seq<HitCard>, rp: Seq<usize>, suit: Option<Suit>, k: int)
    requires
        0 <= k <= hits.len() <= usize::MAX,
    ensures
        best_upto(hits, rp, suit, k) is None <==> forall|i: int|
            0 <= i < k ==> !counts(#[trigger] hits[i], rp, suit),
        best_upto(hits, rp, suit, k) matches Some(b) ==> {
            &&& b < k
            &&& counts(hits[b as int], rp, suit)
            &&& forall|i: int|
                0 <= i < k && counts(#[trigger] hits[i], rp, suit) ==> hits[i].card.value
                    <= hits[b as int].card.value
            &&& forall|i: int|
                0 <= i < b && counts(#[trigger] hits[i], rp, suit) ==> hits[i].card.value
                    < hits[b as int].card.value
        },
    decreases k,
{
    if k > 0 {
        lemma_best_is_earliest_max(hits, rp, suit, k - 1);
        let prev = best_upto(hits, rp, suit, k - 1);
        let h = hits[k - 1];
        if counts(h, rp, suit) && (prev matches Some(b) ==> h.card.value > hits[b as int].card.value) {
            assert(best_upto(hits, rp, suit, k) == Some((k - 1) as usize));
        } else {
            assert(best_upto(hits, rp, suit, k) == prev);
        }
    }
}

/// The winner of a trick among the players `rp`, if one of them played in it.
pub open spec fn trick_winner(hits: Seq<HitCard>, rp: Seq<usize>) -> Option<usize> {
    let len = hits.len() as int;
    match best_upto(hits, rp, Some(hits[0].card.suit), len) {
        Some(b) => Some(hits[b as int].player),
        None => match best_upto(hits, rp, None, len) {
            Some(b) => Some(hits[b as int].player),
            None => None,
        },
    }
}

impl ServerState {
    /// The winner of the current trick.
    pub open spec fn winner(&self) -> usize {
        winner_of(self.hit_cards_played@, self.round_players@)
    }

    proof fn lemma_best(&self, suit: Option<Suit>, k: int)
        requires
            0 <= k <= self.hit_cards_played@.len() <= usize::MAX,
        ensures
            best_upto(self.hit_cards_played@, self.round_players@, suit, k) matches Some(b) ==> b < k && self.round_players@.contains(
                self.hit_cards_played@[b as int].player,
            ),
            k > 0 && self.round_players@.contains(self.hit_cards_played@[k - 1].player) && suit is None
                ==> best_upto(self.hit_cards_played@, self.round_players@, suit, k) is Some,
        decreases k,
    {
        if k > 0 {
            self.lemma_best(suit, k - 1);
            let hits = self.hit_cards_played@;
            let rp = self.round_players@;
            let prev = best_upto(hits, rp, suit, k - 1);
            let h = hits[k - 1];
            if rp.contains(h.player) && (suit matches Some(s) ==> h.card.suit == s) && (prev matches Some(
                b,
            ) ==> h.card.value > hits[b as int].card.value) {
                assert(best_upto(hits, rp, suit, k) == Some((k - 1) as usize));
            } else {
                assert(best_upto(hits, rp, suit, k) == prev);
            }
        }
    }

    fn best_exec(&self, suit: Option<Suit>) -> (r: Option<usize>)
        ensures
            r == best_upto(self.hit_cards_played@, self.round_players@, suit, self.hit_cards_played@.len() as int),
    {
        let mut best: Option<usize> = None;
        let mut k: usize = 0;
        while k < self.hit_cards_played.len()
            invariant
                k <= self.hit_cards_played@.len(),
                best == best_upto(self.hit_cards_played@, self.round_players@, suit, k as int),
            decreases self.hit_cards_played@.len() - k,
        {
            proof {
                self.lemma_best(suit, k as int);
            }
            let h = self.hit_cards_played[k];
            let counts = contains_index(&self.round_players, h.player) && match suit {
                Some(s) => h.card.suit == s,
                None => true,
            };
            let higher = match best {
                Some(b) => h.card.value > self.hit_cards_played[b].card.value,
                None => true,
            };
            if counts && higher {
                best = Some(k);
            }
            k += 1;
        }
        best
    }

    /// The player who wins the current trick, if a player of the round played in it.
    fn trick_winner_exec(&self) -> (r: Option<usize>)
        ensures
            r == trick_winner(self.hit_cards_played@, self.round_players@),
    {
        if self.hit_cards_played.len() == 0 {
            return None;
        }
        let len = self.hit_cards_played.len();
        proof {
            self.lemma_best(Some(self.lead_suit()), len as int);
            self.lemma_best(None, len as int);
        }
        let lead = self.hit_cards_played[0].card.suit;
        match self.best_exec(Some(lead)) {
            Some(b) => Some(self.hit_cards_played[b].player),
            None => match self.best_exec(None) {
                Some(b) => Some(self.hit_cards_played[b].player),
                None => None,
            },
        }
    }

    /// The index of the player who wins the current trick.
    fn round_winner(&self) -> (r: usize)
        requires
            self.hit_cards_played@.len() > 0,
            self.round_players@.contains(self.hit_cards_played@.last().player),
        ensures
            r == self.winner(),
            self.round_players@.contains(r),
    {
        let len = self.hit_cards_played.len();
        proof {
            self.lemma_best(Some(self.lead_suit()), len as int);
            self.lemma_best(None, len as int);
        }
        let lead = self.hit_cards_played[0].card.suit;
        match self.best_exec(Some(lead)) {
            Some(b) => self.hit_cards_played[b].player,
            None => {
                let b = self.best_exec(None).unwrap();
                self.hit_cards_played[b].player
            },
        }
    }

    /// Whether all players of the round hold as many cards as the first.
    fn trick_complete(&self) -> (r: bool)
        requires
            self.shape(),
        ensures
            r == forall|k: int|
                0 <= k < self.round_players@.len() ==> #[trigger] self.hand(
                    self.round_players@[k] as int,
                ).len() == self.hand(self.round_players@[0] as int).len(),
    {
        if self.round_players.len() == 0 {
            return true;
        }
        let l = self.round_player_cards[self.round_players[0]].len();
        let mut k: usize = 0;
        while k < self.round_players.len()
            invariant
                self.shape(),
                self.round_players@.len() > 0,
                l == self.hand(self.round_players@[0] as int).len(),
                k <= self.round_players@.len(),
                forall|j: int| 0 <= j < k ==> #[trigger] self.hand(self.round_players@[j] as int).len() == l,
            decreases self.round_players@.len() - k,
        {
            if self.round_player_cards[self.round_players[k]].len() != l {
                assert(self.hand(self.round_players@[k as int] as int).len() != l);
                return false;
            }
            k += 1;
        }
        true
    }

    /// Whether all players of the round have played out their hands.
    fn round_hands_empty(&self) -> (r: bool)
        requires
            self.shape(),
        ensures
            r == forall|k: int|
                0 <= k < self.round_players@.len() ==> #[trigger] self.hand(
                    self.round_players@[k] as int,
                ).len() == 0,
    {
        let mut k: usize = 0;
        while k < self.round_players.len()
            invariant
                self.shape(),
                k <= self.round_players@.len(),
                forall|j: int| 0 <= j < k ==> #[trigger] self.hand(self.round_players@[j] as int).len() == 0,
            decreases self.round_players@.len() - k,
        {
            if self.round_player_cards[self.round_players[k]].len() != 0 {
                assert(self.hand(self.round_players@[k as int] as int).len() != 0);
                return false;
            }
            k += 1;
        }
        true
    }
}


impl ServerState {
    /// Lengths that match the number of players, at most `MAX_PLAYERS` of
    /// them, in the state and in every batch of the history.
    pub open spec fn sized(&self) -> bool {
        &&& 2 <= self.n() <= MAX_PLAYERS
        &&& self.player_points@.len() == self.n()
        &&& self.available_actions@.len() == self.n()
        &&& self.round_player_cards@.len() == self.n()
        &&& forall|k: int|
            0 <= k < self.round_action_history@.len() ==> #[trigger] self.round_action_history@[k]@.len()
                == self.n()
    }

    /// `new` holds a round dealt from `deck` after the scores became `points`:
    /// the players under the point limit take part, each gets `HAND_SIZE`
    /// cards popped off the deck, the first of them has the turn, the bet is
    /// one, no raise, trick or discarded card is left, and the dirty-wash
    /// window opens when the stock still holds `HAND_SIZE` cards. With fewer
    /// than two such players the game rests idle.
    pub open spec fn dealt_round(&self, new: &Self, deck: Seq<Card>, points: Seq<u32>) -> bool {
        let rp = new.round_players@;
        &&& new.players == self.players
        &&& new.player_points@ == points
        &&& rp == eligible(points, self.n())
        &&& new.round_phase == if rp.len() >= 2 {
            if 32 - HAND_SIZE * rp.len() >= HAND_SIZE {
                Phase::DirtyWashWindow
            } else {
                Phase::TrickPlay
            }
        } else {
            Phase::Idle
        }
        &&& rp.len() > 0 ==> new.round_current_turn == rp[0]
        &&& forall|i: int|
            0 <= i < self.n() ==> #[trigger] new.hand(i).len() == if new.in_round(i) {
                HAND_SIZE as int
            } else {
                0
            }
        &&& new.round_stock_cards@ == deck.take(32 - HAND_SIZE * rp.len())
        &&& new.round_show_open_cards@.len() == 0
        &&& new.round_cards_played@.len() == 0
        &&& new.hit_cards_played@.len() == 0
        &&& new.round_last_raising_player is None
        &&& new.round_bet_current_turn is None
        &&& new.round_bet == 1
    }

    /// Deals a new round from `deck`: the players under the point limit take
    /// part, each gets `HAND_SIZE` cards popped off the deck, the first of
    /// them has the turn, the bet is one. With fewer than two such players
    /// the game rests idle.
    fn start_new_round(&mut self, deck: Vec<Card>)
        requires
            old(self).sized(),
            deck@.to_multiset() == full_deck().to_multiset(),
        ensures
            final(self).shape(),
            *final(self) == (ServerState {
                round_phase: final(self).round_phase,
                round_players: final(self).round_players,
                round_show_open_cards: final(self).round_show_open_cards,
                round_player_cards: final(self).round_player_cards,
                round_stock_cards: final(self).round_stock_cards,
                round_cards_played: final(self).round_cards_played,
                round_last_raising_player: final(self).round_last_raising_player,
                round_current_turn: final(self).round_current_turn,
                round_bet_current_turn: final(self).round_bet_current_turn,
                round_bet: final(self).round_bet,
                hit_cards_played: final(self).hit_cards_played,
                ..*old(self)
            }),
            old(self).dealt_round(final(self), deck@, old(self).player_points@),
            final(self).all_cards() == full_deck().to_multiset(),
    {
        proof {
            deck@.to_multiset_ensures();
            full_deck().to_multiset_ensures();
        }
        let n = self.players.len();
        let mut rp: Vec<usize> = Vec::new();
        let mut i: usize = 0;
        while i < n
            invariant
                self.sized(),
                n == self.n(),
                i <= n,
                rp@ == eligible(self.player_points@, i as int),
            decreases n - i,
        {
            if self.player_points[i] < POINT_LIMIT {
                rp.push(i);
            }
            i += 1;
        }
        proof {
            lemma_eligible(self.player_points@, n as int);
        }
        let mut hands: Vec<Vec<Card>> = Vec::new();
        let mut j: usize = 0;
        while j < n
            invariant
                j <= n,
                hands@.len() == j,
                forall|k: int| 0 <= k < j ==> #[trigger] hands@[k]@.len() == 0,
            decreases n - j,
        {
            hands.push(Vec::new());
            j += 1;
        }
        let mut stock = deck;
        let ghost d = stock@;
        proof {
            lemma_hands_multiset_empty(hands@);
            assert(hands_multiset(hands@).add(stock@.to_multiset()) =~= d.to_multiset());
        }
        let m = rp.len();
        let mut k: usize = 0;
        while k < m
            invariant
                m == rp@.len(),
                m <= n <= MAX_PLAYERS,
                k <= m,
                hands@.len() == n,
                forall|a: int| 0 <= a < m ==> #[trigger] rp@[a] < n,
                forall|a: int, b: int| 0 <= a < b < m ==> #[trigger] rp@[a] < #[trigger] rp@[b],
                d.len() == 32,
                stock@ == d.take(32 - HAND_SIZE * k),
                forall|a: int| 0 <= a < k ==> #[trigger] hands@[rp@[a] as int]@.len() == HAND_SIZE,
                forall|x: int|
                    0 <= x < n && !rp@.take(k as int).contains(x as usize) ==> #[trigger] hands@[x]@.len()
                        == 0,
                hands_multiset(hands@).add(stock@.to_multiset()) == d.to_multiset(),
            decreases m - k,
        {
            let mut h: Vec<Card> = Vec::new();
            let mut c: usize = 0;
            while c < HAND_SIZE
                invariant
                    c <= HAND_SIZE,
                    k < m <= MAX_PLAYERS,
                    d.len() == 32,
                    h@.len() == c,
                    stock@ == d.take(32 - HAND_SIZE * k - c),
                    hands_multiset(hands@).add(h@.to_multiset()).add(stock@.to_multiset())
                        == d.to_multiset(),
                decreases HAND_SIZE - c,
            {
                let ghost before = stock@;
                let ghost hb = h@;
                let card = stock.pop().unwrap();
                assert(stock@ == before.drop_last());
                assert(before == stock@.push(card));
                h.push(card);
                assert(hands_multiset(hands@).add(h@.to_multiset()).add(stock@.to_multiset())
                    =~= hands_multiset(hands@).add(hb.to_multiset()).add(before.to_multiset()));
                c += 1;
            }
            let ghost hs = hands@;
            let who = rp[k];
            proof {
                if rp@.take(k as int).contains(who) {
                    let a = choose|a: int| 0 <= a < k && #[trigger] rp@.take(k as int)[a] == who;
                    assert(rp@[a] < rp@[k as int]);
                }
                assert(hs[who as int]@.len() == 0);
                assert(hs[who as int]@ =~= Seq::<Card>::empty());
                lemma_hands_multiset_update(hs, who as int, h);
            }
            hands.set(who, h);
            assert(hands_multiset(hands@).add(stock@.to_multiset()) =~= d.to_multiset());
            assert forall|a: int| 0 <= a < k + 1 implies #[trigger] hands@[rp@[a] as int]@.len() == HAND_SIZE by {
                if a < k {
                    assert(rp@[a] != who);
                }
            }
            assert forall|x: int|
                0 <= x < n && !rp@.take(k + 1).contains(x as usize) implies #[trigger] hands@[x]@.len() == 0 by {
                assert(rp@.take(k + 1)[k as int] == who);
                assert(x != who);
                if rp@.take(k as int).contains(x as usize) {
                    let a = choose|a: int| 0 <= a < k && rp@.take(k as int)[a] == x as usize;
                    assert(rp@.take(k + 1)[a] == x as usize);
                }
            }
            k += 1;
        }
        assert(rp@.take(m as int) == rp@);
        self.round_phase = if m >= 2 {
            if stock.len() >= HAND_SIZE {
                Phase::DirtyWashWindow
            } else {
                Phase::TrickPlay
            }
        } else {
            Phase::Idle
        };
        self.round_current_turn = if m > 0 {
            rp[0]
        } else {
            0
        };
        self.round_players = rp;
        self.round_show_open_cards = Vec::new();
        self.round_player_cards = hands;
        self.round_stock_cards = stock;
        self.round_cards_played = Vec::new();
        self.round_last_raising_player = None;
        self.round_bet_current_turn = None;
        self.round_bet = 1;
        self.hit_cards_played = Vec::new();
        assert forall|x: int| 0 <= x < n implies #[trigger] self.hand(x).len() == if self.in_round(x) {
            HAND_SIZE as int
        } else {
            0
        } by {
            if self.in_round(x) {
                let a = choose|a: int| 0 <= a < m && self.round_players@[a] == x as usize;
                assert(self.round_player_cards@[self.round_players@[a] as int]@.len() == HAND_SIZE);
            }
        }
        if m > 0 {
            assert(self.in_round(self.round_current_turn as int));
        }
        assert(hit_cards(self.hit_cards_played@) =~= Seq::<Card>::empty());
        assert(self.all_cards() =~= d.to_multiset());
    }

    /// Adds `amount` points to player `p`, held at `u32::MAX`.
    fn add_points(&mut self, p: usize, amount: u32)
        requires
            p < old(self).player_points@.len(),
        ensures
            *final(self) == (ServerState { player_points: final(self).player_points, ..*old(self) }),
            final(self).player_points@ == old(self).player_points@.update(
                p as int,
                saturated_add(old(self).player_points@[p as int], amount),
            ),
    {
        let v = self.player_points[p].saturating_add(amount);
        self.player_points.set(p, v);
    }

    /// Player `p` swaps its hand for `HAND_SIZE` cards of the stock and gains a point.
    fn replace_hand(&mut self, p: usize)
        requires
            old(self).sized(),
            p < old(self).n(),
            old(self).round_stock_cards@.len() >= HAND_SIZE,
        ensures
            *final(self) == (ServerState {
                player_points: final(self).player_points,
                round_player_cards: final(self).round_player_cards,
                round_stock_cards: final(self).round_stock_cards,
                round_cards_played: final(self).round_cards_played,
                ..*old(self)
            }),
            final(self).sized(),
            final(self).player_points@ == old(self).player_points@.update(
                p as int,
                saturated_add(old(self).player_points@[p as int], 1),
            ),
            final(self).hand(p as int).len() == HAND_SIZE,
            final(self).hand(p as int) == old(self).round_stock_cards@.subrange(
                old(self).round_stock_cards@.len() - HAND_SIZE,
                old(self).round_stock_cards@.len() as int,
            ).reverse(),
            final(self).round_player_cards@.len() == old(self).round_player_cards@.len(),
            forall|j: int| 0 <= j < old(self).n() && j != p ==> #[trigger] final(self).hand(j) == old(self).hand(j),
            final(self).round_stock_cards@ == old(self).round_stock_cards@.take(
                old(self).round_stock_cards@.len() - HAND_SIZE,
            ),
            final(self).round_cards_played@ == old(self).round_cards_played@ + old(self).hand(
                p as int,
            ),
            final(self).all_cards() == old(self).all_cards(),
    {
        let ghost st = self.round_stock_cards@;
        let ghost start = *self;
        let mut h: Vec<Card> = Vec::new();
        let mut c: usize = 0;
        while c < HAND_SIZE
            invariant
                *self == (ServerState { round_stock_cards: self.round_stock_cards, ..start }),
                start.sized(),
                p < start.n(),
                c <= HAND_SIZE,
                st.len() >= HAND_SIZE,
                h@.len() == c,
                self.round_stock_cards@ == st.take(st.len() - c),
                h@ == st.subrange(st.len() - c, st.len() as int).reverse(),
            decreases HAND_SIZE - c,
        {
            let ghost before = self.round_stock_cards@;
            let card = self.round_stock_cards.pop().unwrap();
            assert(self.round_stock_cards@ == before.drop_last());
            h.push(card);
            assert(h@ =~= st.subrange(st.len() - c - 1, st.len() as int).reverse());
            c += 1;
        }
        let mut old_hand = self.round_player_cards[p].clone();
        assert(old_hand@ =~= self.round_player_cards@[p as int]@);
        let ghost oh = old_hand@;
        let ghost dis = self.round_cards_played@;
        let ghost hands = self.round_player_cards@;
        self.round_cards_played.append(&mut old_hand);
        self.round_player_cards.set(p, h);
        self.add_points(p, 1);
        proof {
            lemma_hands_multiset_update(hands, p as int, h);
            vstd::seq_lib::lemma_multiset_commutative(dis, oh);
            let drawn = st.subrange(st.len() - HAND_SIZE, st.len() as int);
            assert(st == st.take(st.len() - HAND_SIZE) + drawn);
            vstd::seq_lib::lemma_multiset_commutative(st.take(st.len() - HAND_SIZE), drawn);
            assert(h@.to_multiset() =~= drawn.to_multiset()) by {
                assert(h@ =~= drawn.reverse());
                drawn.lemma_reverse_to_multiset();
            }
            let a = hands_multiset(self.round_player_cards@);
            let b = hands_multiset(hands);
            assert(hands[p as int]@ == oh);
            assert(self.round_stock_cards@ == st.take(st.len() - HAND_SIZE));
            assert forall|x: Card| #[trigger] self.all_cards().count(x) == start.all_cards().count(x) by {
                assert(a.add(oh.to_multiset()).count(x) == b.add(h@.to_multiset()).count(x));
                assert(st.to_multiset().count(x) == st.take(st.len() - HAND_SIZE).to_multiset().add(
                    drawn.to_multiset(),
                ).count(x));
                assert(self.round_cards_played@.to_multiset().count(x) == dis.to_multiset().add(
                    oh.to_multiset(),
                ).count(x));
            }
            assert(self.all_cards() =~= start.all_cards());
        }
    }

    /// Takes the first `c` out of the hand of player `t`.
    fn remove_card(&mut self, t: usize, c: Card)
        requires
            t < old(self).round_player_cards@.len(),
            old(self).hand(t as int).contains(c),
        ensures
            *final(self) == (ServerState {
                round_player_cards: final(self).round_player_cards,
                ..*old(self)
            }),
            exists|j: int|
                0 <= j < old(self).hand(t as int).len() && old(self).hand(t as int)[j] == c
                    && final(self).hand(t as int) == old(self).hand(t as int).remove(j),
            forall|x: int|
                0 <= x < old(self).round_player_cards@.len() && x != t ==> #[trigger] final(self).hand(x) == old(self).hand(x),
            final(self).hand(t as int).len() == old(self).hand(t as int).len() - 1,
            final(self).round_player_cards@.len() == old(self).round_player_cards@.len(),
            hands_multiset(final(self).round_player_cards@).insert(c) == hands_multiset(
                old(self).round_player_cards@,
            ),
    {
        let mut h = self.round_player_cards[t].clone();
        assert(h@ =~= self.hand(t as int));
        let mut j: usize = 0;
        while j < h.len() && h[j] != c
            invariant
                j <= h@.len(),
                h@ == old(self).hand(t as int),
                h@.contains(c),
                forall|k: int| 0 <= k < j ==> h@[k] != c,
            decreases h@.len() - j,
        {
            j += 1;
        }
        let ghost old_hand = h@;
        let _ = h.remove(j);
        let ghost mid = self.round_player_cards@;
        self.round_player_cards.set(t, h);
        proof {
            lemma_hands_multiset_update(mid, t as int, h);
            assert(h@ == old_hand.remove(j as int));
            assert(mid[t as int]@ == old_hand);
            assert(h@.to_multiset() == old_hand.to_multiset().remove(c));
            let a = hands_multiset(self.round_player_cards@);
            assert forall|x: Card| #[trigger] a.insert(c).count(x) == hands_multiset(mid).count(x) by {
                assert(a.add(old_hand.to_multiset()).count(x) == hands_multiset(mid).add(
                    h@.to_multiset(),
                ).count(x));
            }
            assert(a.insert(c) =~= hands_multiset(mid));
        }
    }
}


impl ServerState {
    /// Players, actions and history are those of `old`, and no score went down.
    pub open spec fn kept_frame(&self, old: &Self) -> bool {
        &&& self.players == old.players
        &&& self.available_actions == old.available_actions
        &&& self.round_action_history == old.round_action_history
        &&& self.player_points@.len() == old.player_points@.len()
        &&& forall|i: int|
            0 <= i < old.player_points@.len() ==> #[trigger] self.player_points@[i]
                >= old.player_points@[i]
    }

    /// Every action of `acts` is legal for its player.
    pub open spec fn all_legal(&self, acts: Seq<Action>) -> bool {
        &&& acts.len() == self.n()
        &&& forall|i: int| 0 <= i < self.n() ==> #[trigger] self.legal(i).contains(acts[i])
    }

    /// Every player of the round but `p` allows the dirty wash of `p`.
    pub open spec fn all_allow(&self, acts: Seq<Action>, p: usize) -> bool {
        forall|a: int|
            0 <= a < self.round_players@.len() && #[trigger] self.round_players@[a] != p
                ==> acts[self.round_players@[a] as int] == Action::AllowDirtyWash(p)
    }

    fn all_allow_exec(&self, acts: &Vec<Action>, p: usize) -> (r: bool)
        requires
            self.shape(),
            acts@.len() == self.n(),
        ensures
            r == self.all_allow(acts@, p),
    {
        let mut k: usize = 0;
        while k < self.round_players.len()
            invariant
                self.shape(),
                acts@.len() == self.n(),
                k <= self.round_players@.len(),
                forall|a: int|
                    0 <= a < k && #[trigger] self.round_players@[a] != p ==> acts[self.round_players@[a] as int]
                        == Action::AllowDirtyWash(p),
            decreases self.round_players@.len() - k,
        {
            let q = self.round_players[k];
            if q != p && acts[q] != Action::AllowDirtyWash(p) {
                return false;
            }
            k += 1;
        }
        true
    }

    /// The bet cursor moves on from `b`; back at the raiser `r`, the cycle closes.
    fn move_cursor(&mut self, b: usize, r: usize)
        requires
            old(self).round_players@.len() >= 2,
            old(self).in_round(r as int),
        ensures
            *final(self) == (ServerState {
                round_bet_current_turn: final(self).round_bet_current_turn,
                round_phase: final(self).round_phase,
                ..*old(self)
            }),
            ring_next(old(self).round_players@, b) == r ==> final(self).round_bet_current_turn is None
                && final(self).round_phase == Phase::TrickPlay,
            ring_next(old(self).round_players@, b) != r ==> final(self).round_bet_current_turn == Some(
                ring_next(old(self).round_players@, b),
            ) && final(self).round_phase == Phase::Betting,
            final(self).round_bet_current_turn matches Some(c) ==> final(self).in_round(c as int),
    {
        let c = ring_next_exec(&self.round_players, b);
        if c == r {
            self.round_bet_current_turn = None;
            self.round_phase = Phase::TrickPlay;
        } else {
            self.round_bet_current_turn = Some(c);
            self.round_phase = Phase::Betting;
        }
    }

    fn window(&mut self, actions: &Vec<Action>)
        requires
            old(self).shape(),
            old(self).round_phase is DirtyWashWindow,
            old(self).all_legal(actions@),
        ensures
            final(self).shape(),
            *final(self) == (ServerState { round_phase: final(self).round_phase, ..*old(self) }),
            final(self).round_phase == match first_of(actions@, Action::CallDirtyWash, 0) {
                Some(p) => Phase::DirtyWashCalled(p),
                None => Phase::TrickPlay,
            },
    {
        match first_of_exec(actions, Action::CallDirtyWash) {
            Some(p) => {
                proof {
                    lemma_first_of(actions@, Action::CallDirtyWash, 0);
                    assert(self.legal(p as int).contains(Action::CallDirtyWash));
                    if !self.in_round(p as int) {
                        assert(self.legal(p as int) == seq![Action::NotResponded, Action::Wait]);
                        let k = choose|k: int| 0 <= k < 2 && self.legal(p as int)[k] == Action::CallDirtyWash;
                    }
                }
                self.round_phase = Phase::DirtyWashCalled(p);
            },
            None => {
                self.round_phase = Phase::TrickPlay;
            },
        }
    }

    fn dirty_wash_call(&mut self, actions: &Vec<Action>, p: usize)
        requires
            old(self).shape(),
            old(self).round_phase == Phase::DirtyWashCalled(p),
            old(self).all_legal(actions@),
        ensures
            final(self).shape(),
            final(self).kept_frame(old(self)),
            old(self).dirty_wash_resolved(final(self), actions@, p),
    {
        let ghost start = *self;
        match first_of_exec(actions, Action::ChallengeDirtyWash(0)) {
            Some(j) => {
                proof {
                    lemma_first_of(actions@, Action::ChallengeDirtyWash(0), 0);
                }
                if is_dirty_wash(self.round_player_cards[p].as_slice()) {
                    self.replace_hand(p);
                } else {
                    self.round_show_open_cards.push(p);
                    self.add_points(j, 1);
                }
            },
            None => {
                if self.all_allow_exec(actions, p) {
                    self.replace_hand(p);
                }
            },
        }
        let ghost after = *self;
        self.round_phase = if self.round_stock_cards.len() >= HAND_SIZE {
            Phase::DirtyWashWindow
        } else {
            Phase::TrickPlay
        };
        assert forall|x: int| 0 <= x < start.n() && x != p && after.hand(x) == start.hand(x) implies #[trigger] self.hand(
            x,
        ) == start.hand(x) by {}
    }
}


impl ServerState {
    fn answer_bet(&mut self, actions: &Vec<Action>, deck: Vec<Card>)
        requires
            old(self).shape(),
            old(self).round_phase is Betting,
            old(self).all_legal(actions@),
            deck@.to_multiset() == full_deck().to_multiset(),
        ensures
            final(self).shape(),
            final(self).kept_frame(old(self)),
            ({
                let b = old(self).round_bet_current_turn->Some_0;
                let r = old(self).round_last_raising_player->Some_0;
                let rp = old(self).round_players@;
                &&& actions@[b as int] == Action::AcceptBet ==> {
                    &&& *final(self) == (ServerState {
                        round_bet_current_turn: final(self).round_bet_current_turn,
                        round_phase: final(self).round_phase,
                        ..*old(self)
                    })
                    &&& old(self).cursor_moved(final(self), rp, b, r)
                }
                &&& actions@[b as int] == Action::Retreat ==> old(self).retreated(final(self), deck@)
                &&& actions@[b as int] != Action::AcceptBet && actions@[b as int] != Action::Retreat
                    ==> *final(self) == *old(self)
            }),
    {
        let b = self.round_bet_current_turn.unwrap();
        let r = self.round_last_raising_player.unwrap();
        let a = actions[b];
        proof {
            assert(self.legal(b as int).contains(a));
        }
        match a {
            Action::AcceptBet => {
                self.move_cursor(b, r);
            },
            Action::Retreat => {
                let bet = self.round_bet;
                self.add_points(b, bet);
                let ghost rp = self.round_players@;
                let mut k: usize = 0;
                while k < self.round_players.len() && self.round_players[k] != b
                    invariant
                        self.round_players@ == rp,
                        k <= rp.len(),
                        rp.contains(b),
                        forall|x: int| 0 <= x < k ==> rp[x] != b,
                    decreases rp.len() - k,
                {
                    k += 1;
                }
                let _ = self.round_players.remove(k);
                let ghost nrp = self.round_players@;
                assert(nrp == rp.remove(k as int));
                assert forall|x: int, y: int| 0 <= x < y < nrp.len() implies #[trigger] nrp[x]
                    < #[trigger] nrp[y] by {
                    if x < k && y >= k {
                        assert(rp[x] < rp[y + 1]);
                    } else if x >= k {
                        assert(rp[x + 1] < rp[y + 1]);
                    } else {
                        assert(rp[x] < rp[y]);
                    }
                }
                assert forall|x: int| 0 <= x < nrp.len() implies #[trigger] nrp[x] < self.n() by {
                    if x < k {
                        assert(nrp[x] == rp[x]);
                    } else {
                        assert(nrp[x] == rp[x + 1]);
                    }
                }
                assert(!nrp.contains(b)) by {
                    if nrp.contains(b) {
                        let x = choose|x: int| 0 <= x < nrp.len() && nrp[x] == b;
                        if x < k {
                            assert(rp[x] == b);
                        } else {
                            assert(rp[x + 1] == b);
                            assert(rp[k as int] < rp[x + 1]);
                        }
                    }
                }
                assert forall|q: usize| q != b && rp.contains(q) implies nrp.contains(q) by {
                    let x = choose|x: int| 0 <= x < rp.len() && rp[x] == q;
                    if x < k {
                        assert(nrp[x] == q);
                    } else {
                        assert(x != k);
                        assert(nrp[x - 1] == q);
                    }
                }
                if self.round_players.len() <= 1 {
                    self.start_new_round(deck);
                } else {
                    if self.round_current_turn == b {
                        self.round_current_turn = ring_next_exec(&self.round_players, b);
                    }
                    self.move_cursor(b, r);
                }
                assert(rp[k as int] == b);
            },
            _ => {
                assert(a == Action::NotResponded);
            },
        }
    }

    fn trick_play(&mut self, actions: &Vec<Action>, deck: Vec<Card>)
        requires
            old(self).shape(),
            old(self).round_phase is TrickPlay,
            old(self).all_legal(actions@),
            deck@.to_multiset() == full_deck().to_multiset(),
        ensures
            final(self).shape(),
            final(self).kept_frame(old(self)),
            first_of(actions@, Action::RaiseBet, 0) matches Some(r) ==> *final(self) == (ServerState {
                round_bet: saturated_add(old(self).round_bet, 1),
                round_last_raising_player: Some(r),
                round_bet_current_turn: Some(ring_next(old(self).round_players@, r)),
                round_phase: Phase::Betting,
                ..*old(self)
            }),
            first_of(actions@, Action::RaiseBet, 0) is None ==> match actions@[old(
                self,
            ).round_current_turn as int] {
                Action::PlayCard(c) => old(self).played(
                    final(self),
                    old(self).round_current_turn,
                    c,
                    deck@,
                ),
                _ => *final(self) == *old(self),
            },
    {
        match first_of_exec(actions, Action::RaiseBet) {
            Some(r) => {
                proof {
                    lemma_first_of(actions@, Action::RaiseBet, 0);
                    assert(self.legal(r as int).contains(Action::RaiseBet));
                    if !self.in_round(r as int) {
                        assert(self.legal(r as int) == seq![Action::NotResponded, Action::Wait]);
                        let k = choose|k: int| 0 <= k < 2 && self.legal(r as int)[k] == Action::RaiseBet;
                    }
                    lemma_ring_next_other(self.round_players@, r);
                }
                self.round_bet = self.round_bet.saturating_add(1);
                self.round_last_raising_player = Some(r);
                self.round_bet_current_turn = Some(ring_next_exec(&self.round_players, r));
                self.round_phase = Phase::Betting;
            },
            None => {
                let t = self.round_current_turn;
                if let Action::PlayCard(c) = actions[t] {
                    proof {
                        assert(self.legal(t as int).contains(actions@[t as int]));
                        let l = self.legal(t as int);
                        let opts = self.card_options(t as int);
                        let head = seq![Action::NotResponded] + plays_of(opts);
                        assert(l == head || l == head.push(Action::RaiseBet));
                        let k = choose|k: int| 0 <= k < l.len() && l[k] == Action::PlayCard(c);
                        assert(k > 0 && k < head.len());
                        assert(plays_of(opts)[k - 1] == Action::PlayCard(c));
                        assert(plays_of(opts).contains(Action::PlayCard(c)));
                        lemma_plays_of_contains(opts, c);
                        if opts != self.hand(t as int) {
                            self.hand(t as int).lemma_filter_contains_rev(
                                |x: Card| x.suit == self.lead_suit(),
                                c,
                            );
                        }
                    }
                    self.play(t, c, deck);
                }
            },
        }
    }

    /// Hand sizes once player `t` has played a card.
    pub open spec fn len_after(&self, t: usize, x: usize) -> int {
        if x == t {
            self.hand(x as int).len() - 1
        } else {
            self.hand(x as int).len() as int
        }
    }

    /// Playing a card as player `t` completes the trick: all players of the
    /// round then hold as many cards.
    pub open spec fn completes_trick(&self, t: usize) -> bool {
        forall|a: int|
            0 <= a < self.round_players@.len() ==> #[trigger] self.len_after(t, self.round_players@[a])
                == self.len_after(t, self.round_players@[0])
    }

    /// Playing a card as player `t` empties every hand of the round.
    pub open spec fn ends_round(&self, t: usize) -> bool {
        forall|a: int|
            0 <= a < self.round_players@.len() ==> #[trigger] self.len_after(t, self.round_players@[a])
                == 0
    }

    /// `new` is what becomes of `self` when the turn holder `t` plays `c`:
    /// the card joins the trick; an incomplete trick passes the turn on in
    /// the ring; a complete one goes to its winner, who leads next; the
    /// last trick of a round makes every other player of the round pay the
    /// bet, and a new round is dealt.
    pub open spec fn played(&self, new: &Self, t: usize, c: Card, deck: Seq<Card>) -> bool {
        let hits = self.hit_cards_played@.push(HitCard { player: t, card: c });
        let rp = self.round_players@;
        let w = winner_of(hits, rp);
        let took = {
            &&& exists|j: int|
                0 <= j < self.hand(t as int).len() && self.hand(t as int)[j] == c && new.hand(t as int)
                    == self.hand(t as int).remove(j)
            &&& forall|x: int| 0 <= x < self.n() && x != t ==> #[trigger] new.hand(x) == self.hand(x)
        };
        let kept = {
            &&& new.player_points == self.player_points
            &&& new.round_players == self.round_players
            &&& new.round_bet == self.round_bet
            &&& new.round_last_raising_player == self.round_last_raising_player
            &&& new.round_bet_current_turn == self.round_bet_current_turn
            &&& new.round_phase == self.round_phase
            &&& new.round_stock_cards == self.round_stock_cards
            &&& new.round_show_open_cards == self.round_show_open_cards
        };
        if !self.completes_trick(t) {
            &&& took
            &&& kept
            &&& new.hit_cards_played@ == hits
            &&& new.round_current_turn == ring_next(rp, t)
            &&& new.round_cards_played == self.round_cards_played
        } else if !self.ends_round(t) {
            &&& took
            &&& kept
            &&& new.hit_cards_played@.len() == 0
            &&& new.round_current_turn == w
            &&& new.round_cards_played@ == self.round_cards_played@ + hits.map_values(
                |h: HitCard| h.card,
            )
        } else {
            self.dealt_round(new, deck, self.payout_points(Some(w)))
        }
    }

    /// Every player of the round but the trick winner `w` pays the bet.
    fn pay_out(&mut self, w: Option<usize>)
        requires
            old(self).shape(),
        ensures
            final(self).shape(),
            *final(self) == (ServerState { player_points: final(self).player_points, ..*old(self) }),
            final(self).player_points@ == old(self).payout_points(w),
    {
        let ghost start = *self;
        let ghost rp = self.round_players@;
        let bet = self.round_bet;
        let mut k: usize = 0;
        while k < self.round_players.len()
            invariant
                self.shape(),
                *self == (ServerState { player_points: self.player_points, ..start }),
                rp == start.round_players@,
                bet == start.round_bet,
                k <= rp.len(),
                forall|j: int|
                    0 <= j < self.n() ==> #[trigger] self.player_points@[j] == if rp.take(
                        k as int,
                    ).contains(j as usize) && w != Some(j as usize) {
                        saturated_add(start.player_points@[j], bet)
                    } else {
                        start.player_points@[j]
                    },
            decreases rp.len() - k,
        {
            let j = self.round_players[k];
            if w != Some(j) {
                self.add_points(j, bet);
            }
            assert forall|x: int| 0 <= x < self.n() implies #[trigger] self.player_points@[x]
                == if rp.take(k + 1).contains(x as usize) && w != Some(x as usize) {
                saturated_add(start.player_points@[x], bet)
            } else {
                start.player_points@[x]
            } by {
                assert(rp.take(k + 1)[k as int] == j);
                if x != j {
                    if rp.take(k + 1).contains(x as usize) {
                        let a = choose|a: int| 0 <= a < k + 1 && #[trigger] rp.take(k + 1)[a] == x as usize;
                        assert(rp.take(k as int)[a] == x as usize);
                    }
                    if rp.take(k as int).contains(x as usize) {
                        let a = choose|a: int| 0 <= a < k && #[trigger] rp.take(k as int)[a] == x as usize;
                        assert(rp.take(k + 1)[a] == x as usize);
                    }
                } else {
                    if rp.take(k as int).contains(x as usize) {
                        let a = choose|a: int| 0 <= a < k && #[trigger] rp.take(k as int)[a] == x as usize;
                        assert(rp[a] < rp[k as int]);
                    }
                }
            }
            k += 1;
        }
        assert(rp.take(rp.len() as int) == rp);
        assert(self.player_points@ =~= start.payout_points(w));
    }

    /// The turn holder `t` plays `c`; a complete trick goes to its winner,
    /// and the last trick of a round pays out and deals the next round.
    fn play(&mut self, t: usize, c: Card, deck: Vec<Card>)
        requires
            old(self).shape(),
            old(self).round_phase is TrickPlay,
            t == old(self).round_current_turn,
            old(self).hand(t as int).contains(c),
            deck@.to_multiset() == full_deck().to_multiset(),
        ensures
            final(self).shape(),
            final(self).kept_frame(old(self)),
            old(self).played(final(self), t, c, deck@),
    {
        let ghost start = *self;
        self.remove_card(t, c);
        let ghost removed = *self;
        self.hit_cards_played.push(HitCard { player: t, card: c });
        let ghost hits = start.hit_cards_played@.push(HitCard { player: t, card: c });
        let ghost rp = start.round_players@;
        assert(self.hit_cards_played@ == hits);
        proof {
            assert(hit_cards(hits) =~= hit_cards(start.hit_cards_played@).push(c));
            let a = hands_multiset(self.round_player_cards@);
            assert forall|x: Card| #[trigger] self.all_cards().count(x) == start.all_cards().count(x) by {
                assert(a.insert(c).count(x) == hands_multiset(start.round_player_cards@).count(x));
            }
            assert(self.all_cards() =~= start.all_cards());
        }
        let ghost pushed = *self;
        assert forall|x: int| 0 <= x < self.n() implies #[trigger] self.hand(x).len() == start.len_after(
            t,
            x as usize,
        ) by {
            assert(self.hand(x) == removed.hand(x));
            if x != t {
                assert(removed.hand(x) == start.hand(x));
            }
        }
        assert forall|a: int| 0 <= a < rp.len() implies #[trigger] self.hand(rp[a] as int).len()
            == start.len_after(t, rp[a]) by {
            assert(rp[a] < self.n());
        }
        if self.trick_complete() {
            assert forall|a: int| 0 <= a < rp.len() implies #[trigger] start.len_after(t, rp[a])
                == start.len_after(t, rp[0]) by {
                assert(self.hand(rp[a] as int).len() == self.hand(self.round_players@[0] as int).len());
            }
            let w = self.round_winner();
            if self.round_hands_empty() {
                assert forall|a: int| 0 <= a < rp.len() implies #[trigger] start.len_after(t, rp[a])
                    == 0 by {
                    assert(self.hand(rp[a] as int).len() == 0);
                }
                self.pay_out(Some(w));
                self.start_new_round(deck);
            } else {
                let ghost cards = hits.map_values(|h: HitCard| h.card);
                let mut m: usize = 0;
                while m < self.hit_cards_played.len()
                    invariant
                        pushed.shape(),
                        *self == (ServerState { round_cards_played: self.round_cards_played, ..pushed }),
                        pushed.kept_frame(old(self)),
                        pushed.round_players@.contains(w),
                        pushed.round_players == start.round_players,
                        pushed.player_points == start.player_points,
                        pushed.hit_cards_played@ == hits,
                        pushed.round_cards_played == start.round_cards_played,
                        m <= hits.len(),
                        self.round_cards_played@ == start.round_cards_played@ + cards.take(m as int),
                        cards.len() == hits.len(),
                        forall|i: int| 0 <= i < hits.len() ==> #[trigger] cards[i] == hits[i].card,
                    decreases hits.len() - m,
                {
                    let card = self.hit_cards_played[m].card;
                    self.round_cards_played.push(card);
                    assert(cards[m as int] == card);
                    assert(cards.take(m + 1) == cards.take(m as int).push(card));
                    m += 1;
                }
                assert(cards.take(hits.len() as int) == cards);
                self.hit_cards_played.clear();
                self.round_current_turn = w;
                assert forall|x: int| 0 <= x < self.n() && x != t implies #[trigger] self.hand(x)
                    == start.hand(x) by {
                    assert(removed.hand(x) == start.hand(x));
                }
                proof {
                    assert(cards == hit_cards(hits));
                    vstd::seq_lib::lemma_multiset_commutative(start.round_cards_played@, cards);
                    assert(hit_cards(self.hit_cards_played@) =~= Seq::<Card>::empty());
                    assert(self.all_cards() =~= pushed.all_cards());
                }
            }
        } else {
            assert(!start.completes_trick(t));
            self.round_current_turn = ring_next_exec(&self.round_players, t);
            assert forall|x: int| 0 <= x < self.n() && x != t implies #[trigger] self.hand(x) == start.hand(
                x,
            ) by {
                assert(removed.hand(x) == start.hand(x));
            }
        }
    }
}


impl ServerState {
    /// A game for `players`, idle until the first batch deals a round. One
    /// deck of 32 cards deals hands of `HAND_SIZE` to at most `MAX_PLAYERS`
    /// players, so more than that, or fewer than two, is an invalid setup.
    pub fn new(players: Vec<String>) -> (r: Result<Self, EngineError>)
        ensures
            r is Err <==> players@.len() < 2 || players@.len() > MAX_PLAYERS,
            r is Err ==> r == Err::<Self, EngineError>(EngineError::InvalidSetup),
            r matches Ok(s) ==> {
                &&& s.wf()
                &&& s.players@ == players@
                &&& s.round_phase == Phase::Idle
                &&& s.player_points@ == Seq::new(players@.len(), |i: int| 0u32)
                &&& s.round_players@.len() == 0
                &&& s.round_action_history@.len() == 0
                &&& s.round_stock_cards@.to_multiset() == full_deck().to_multiset()
                &&& forall|i: int| 0 <= i < s.n() ==> #[trigger] s.hand(i).len() == 0
                &&& s.round_bet == 1
                &&& s.round_last_raising_player is None
                &&& s.round_bet_current_turn is None
                &&& s.hit_cards_played@.len() == 0
                &&& s.round_cards_played@.len() == 0
                &&& s.round_show_open_cards@.len() == 0
                &&& s.round_current_turn == 0
            },
    {
        let p_len = players.len();
        if p_len < 2 || p_len > MAX_PLAYERS {
            return Err(EngineError::InvalidSetup);
        }
        let mut points: Vec<u32> = Vec::new();
        let mut actions: Vec<Vec<Action>> = Vec::new();
        let mut cards: Vec<Vec<Card>> = Vec::new();
        let mut i: usize = 0;
        while i < p_len
            invariant
                i <= p_len,
                points@ == Seq::new(i as nat, |k: int| 0u32),
                actions@.len() == i,
                cards@.len() == i,
                forall|k: int| 0 <= k < i ==> #[trigger] cards@[k]@.len() == 0,
            decreases p_len - i,
        {
            points.push(0);
            assert(points@ =~= Seq::new((i + 1) as nat, |k: int| 0u32));
            actions.push(Vec::new());
            cards.push(Vec::new());
            i += 1;
        }
        let mut s = ServerState {
            players,
            player_points: points,
            available_actions: actions,
            round_action_history: Vec::new(),
            round_phase: Phase::Idle,
            round_players: Vec::new(),
            round_show_open_cards: Vec::new(),
            round_player_cards: cards,
            round_stock_cards: Card::full_stock_shuffled(),
            round_cards_played: Vec::new(),
            round_last_raising_player: None,
            round_current_turn: 0,
            round_bet_current_turn: None,
            round_bet: 1,
            hit_cards_played: Vec::new(),
        };
        proof {
            lemma_hands_multiset_empty(s.round_player_cards@);
            assert(hit_cards(s.hit_cards_played@) =~= Seq::<Card>::empty());
            assert(s.all_cards() =~= full_deck().to_multiset());
        }
        s.refresh_actions();
        Ok(s)
    }

    /// Every player of the round has played out their hand.
    pub open spec fn hands_out(&self) -> bool {
        forall|a: int|
            0 <= a < self.round_players@.len() ==> #[trigger] self.hand(self.round_players@[a] as int).len()
                == 0
    }

    /// The scores once every player of the round but the trick winner `w`
    /// pays the bet.
    pub open spec fn payout_points(&self, w: Option<usize>) -> Seq<u32> {
        Seq::new(
            self.player_points@.len(),
            |j: int|
                if self.round_players@.contains(j as usize) && w != Some(j as usize) {
                    saturated_add(self.player_points@[j], self.round_bet)
                } else {
                    self.player_points@[j]
                },
        )
    }

    /// Where the bet cursor goes from `b` in the ring `rp`: back at the raiser
    /// `r` the cycle closes and cards are played again.
    pub open spec fn cursor_moved(&self, new: &Self, rp: Seq<usize>, b: usize, r: usize) -> bool {
        if ring_next(rp, b) == r {
            new.round_bet_current_turn is None && new.round_phase == Phase::TrickPlay
        } else {
            new.round_bet_current_turn == Some(ring_next(rp, b)) && new.round_phase
                == Phase::Betting
        }
    }

    /// `new` is what one accepted batch `acts` makes of `self`, before the
    /// history and the legal actions are brought up to date; `deck` deals
    /// the next round where one starts. A running round whose players have
    /// all played out their hands pays out first, whatever the batch holds.
    pub open spec fn advanced(&self, new: &Self, acts: Seq<Action>, deck: Seq<Card>) -> bool {
        if self.round_phase !is Idle && self.hands_out() {
            self.dealt_round(
                new,
                deck,
                self.payout_points(trick_winner(self.hit_cards_played@, self.round_players@)),
            )
        } else {
            match self.round_phase {
                Phase::Idle => self.dealt_round(new, deck, self.player_points@),
                Phase::DirtyWashWindow => *new == (ServerState {
                    round_phase: match first_of(acts, Action::CallDirtyWash, 0) {
                        Some(p) => Phase::DirtyWashCalled(p),
                        None => Phase::TrickPlay,
                    },
                    ..*self
                }),
                Phase::DirtyWashCalled(p) => self.dirty_wash_resolved(new, acts, p),
                Phase::Betting => {
                    let b = self.round_bet_current_turn->Some_0;
                    let r = self.round_last_raising_player->Some_0;
                    let rp = self.round_players@;
                    match acts[b as int] {
                        Action::AcceptBet => {
                            &&& *new == (ServerState {
                                round_bet_current_turn: new.round_bet_current_turn,
                                round_phase: new.round_phase,
                                ..*self
                            })
                            &&& self.cursor_moved(new, rp, b, r)
                        },
                        Action::Retreat => self.retreated(new, deck),
                        _ => *new == *self,
                    }
                },
                Phase::TrickPlay => match first_of(acts, Action::RaiseBet, 0) {
                    Some(r) => *new == (ServerState {
                        round_bet: saturated_add(self.round_bet, 1),
                        round_last_raising_player: Some(r),
                        round_bet_current_turn: Some(ring_next(self.round_players@, r)),
                        round_phase: Phase::Betting,
                        ..*self
                    }),
                    None => match acts[self.round_current_turn as int] {
                        Action::PlayCard(c) => self.played(new, self.round_current_turn, c, deck),
                        _ => *new == *self,
                    },
                },
            }
        }
    }

    /// `new` follows from the player at the bet cursor retreating: it banks
    /// the bet as score and leaves the round; with one player left a new
    /// round is dealt, otherwise the turn leaves it and the cursor moves on.
    pub open spec fn retreated(&self, new: &Self, deck: Seq<Card>) -> bool {
        let b = self.round_bet_current_turn->Some_0;
        let r = self.round_last_raising_player->Some_0;
        let rp = self.round_players@;
        let points = self.player_points@.update(
            b as int,
            saturated_add(self.player_points@[b as int], self.round_bet),
        );
        exists|k: int|
            0 <= k < rp.len() && rp[k] == b && {
                let nrp = rp.remove(k);
                if nrp.len() <= 1 {
                    self.dealt_round(new, deck, points)
                } else {
                    &&& new.player_points@ == points
                    &&& new.round_players@ == nrp
                    &&& new.round_current_turn == if self.round_current_turn == b {
                        ring_next(nrp, b)
                    } else {
                        self.round_current_turn
                    }
                    &&& self.cursor_moved(new, nrp, b, r)
                    &&& new.round_bet == self.round_bet
                    &&& new.round_last_raising_player == self.round_last_raising_player
                    &&& new.round_player_cards == self.round_player_cards
                    &&& new.round_stock_cards == self.round_stock_cards
                    &&& new.hit_cards_played == self.hit_cards_played
                    &&& new.round_cards_played == self.round_cards_played
                    &&& new.round_show_open_cards == self.round_show_open_cards
                    &&& new.players == self.players
                }
            }
    }

    /// `new` follows from the call of a dirty wash by `p` being challenged
    /// (by the first challenger) or allowed (by every other player of the
    /// round): a dirty wash is swapped for `HAND_SIZE` cards of the stock and
    /// scores for `p`, the old hand going to the discarded cards; a clean
    /// hand is shown and scores for the challenger. Nothing else changes.
    /// The window then opens again, as a round's first window does, when the
    /// stock holds the `HAND_SIZE` cards that a dirty wash needs; otherwise
    /// cards are played.
    pub open spec fn dirty_wash_resolved(&self, new: &Self, acts: Seq<Action>, p: usize) -> bool {
        let st = self.round_stock_cards@;
        let swapped = {
            &&& *new == (ServerState {
                player_points: new.player_points,
                round_player_cards: new.round_player_cards,
                round_stock_cards: new.round_stock_cards,
                round_cards_played: new.round_cards_played,
                round_phase: new.round_phase,
                ..*self
            })
            &&& new.player_points@ == self.player_points@.update(
                p as int,
                saturated_add(self.player_points@[p as int], 1),
            )
            &&& new.hand(p as int) == st.subrange(st.len() - HAND_SIZE, st.len() as int).reverse()
            &&& forall|x: int| 0 <= x < self.n() && x != p ==> #[trigger] new.hand(x) == self.hand(x)
            &&& new.round_player_cards@.len() == self.round_player_cards@.len()
            &&& new.round_stock_cards@ == st.take(st.len() - HAND_SIZE)
            &&& new.round_cards_played@ == self.round_cards_played@ + self.hand(p as int)
        };
        &&& new.round_phase == if new.round_stock_cards@.len() >= HAND_SIZE {
            Phase::DirtyWashWindow
        } else {
            Phase::TrickPlay
        }
        &&& match first_of(acts, Action::ChallengeDirtyWash(0), 0) {
            Some(j) => if dirty_wash(self.hand(p as int)) {
                swapped
            } else {
                &&& *new == (ServerState {
                    player_points: new.player_points,
                    round_show_open_cards: new.round_show_open_cards,
                    round_phase: new.round_phase,
                    ..*self
                })
                &&& new.player_points@ == self.player_points@.update(
                    j as int,
                    saturated_add(self.player_points@[j as int], 1),
                )
                &&& new.round_show_open_cards@ == self.round_show_open_cards@.push(p)
            },
            None => if self.all_allow(acts, p) {
                swapped
            } else {
                *new == (ServerState { round_phase: new.round_phase, ..*self })
            },
        }
    }

    /// Applies one round: `actions[i]` is the action of player `i`, and
    /// `deck`, a full deck in any order, deals the next round if one starts.
    /// The batch is refused, and nothing changes, when it does not hold one
    /// action per player or when an action is not legal for its player (the
    /// first such player is named). An accepted batch is appended to the
    /// history and every player's legal actions are brought up to date.
    pub fn next_state_with_deck(&mut self, actions: Vec<Action>, deck: Vec<Card>) -> (r: Result<
        (),
        EngineError,
    >)
        requires
            old(self).wf(),
            deck@.to_multiset() == full_deck().to_multiset(),
        ensures
            final(self).wf(),
            r is Err ==> *final(self) == *old(self),
            r == Err::<(), EngineError>(EngineError::ActionCountMismatch) <==> actions@.len()
                != old(self).n(),
            forall|i: usize|
                r == Err::<(), EngineError>(EngineError::IllegalAction(i)) <==> {
                    &&& actions@.len() == old(self).n()
                    &&& i < old(self).n()
                    &&& !old(self).legal(i as int).contains(actions@[i as int])
                    &&& forall|j: int| 0 <= j < i ==> #[trigger] old(self).legal(j).contains(
                        actions@[j],
                    )
                },
            r is Ok <==> old(self).all_legal(actions@),
            r is Ok ==> {
                &&& final(self).players == old(self).players
                &&& final(self).round_action_history@ == old(self).round_action_history@.push(
                    actions,
                )
                &&& forall|i: int|
                    0 <= i < old(self).n() ==> #[trigger] final(self).player_points@[i] >= old(
                        self,
                    ).player_points@[i]
                &&& exists|mid: ServerState|
                    #[trigger] old(self).advanced(&mid, actions@, deck@) && *final(self) == (ServerState {
                        available_actions: final(self).available_actions,
                        round_action_history: final(self).round_action_history,
                        ..mid
                    })
            },
    {
        let n = self.players.len();
        if actions.len() != n {
            return Err(EngineError::ActionCountMismatch);
        }
        let mut i: usize = 0;
        while i < n
            invariant
                self.wf(),
                n == self.n(),
                actions@.len() == n,
                i <= n,
                forall|j: int| 0 <= j < i ==> #[trigger] self.legal(j).contains(actions@[j]),
            decreases n - i,
        {
            if !contains_action(&self.available_actions[i], actions[i]) {
                return Err(EngineError::IllegalAction(i));
            }
            i += 1;
        }
        proof {
            deck@.to_multiset_ensures();
            full_deck().to_multiset_ensures();
        }
        let ghost start_deck = deck@;
        let ghost start = *self;
        if self.round_phase != Phase::Idle && self.round_hands_empty() {
            let w = self.trick_winner_exec();
            self.pay_out(w);
            self.start_new_round(deck);
            assert(start.advanced(self, actions@, start_deck));
        } else {
        match self.round_phase {
            Phase::Idle => {
                self.start_new_round(deck);
                assert(start.advanced(self, actions@, start_deck));
            },
            Phase::DirtyWashWindow => {
                self.window(&actions);
                assert(start.advanced(self, actions@, start_deck));
            },
            Phase::DirtyWashCalled(p) => {
                self.dirty_wash_call(&actions, p);
                assert(start.advanced(self, actions@, start_deck));
            },
            Phase::Betting => {
                self.answer_bet(&actions, deck);
                assert(start.advanced(self, actions@, start_deck));
            },
            Phase::TrickPlay => {
                self.trick_play(&actions, deck);
                assert(start.advanced(self, actions@, start_deck));
            },
        }
        }
        self.round_action_history.push(actions);
        self.refresh_actions();
        Ok(())
    }

    /// `next_state_with_deck` with a freshly shuffled deck.
    pub fn next_state(&mut self, actions: Vec<Action>) -> (r: Result<(), EngineError>)
        requires
            old(self).wf(),
        ensures
            final(self).wf(),
            r is Err ==> *final(self) == *old(self),
            r == Err::<(), EngineError>(EngineError::ActionCountMismatch) <==> actions@.len()
                != old(self).n(),
            forall|i: usize|
                r == Err::<(), EngineError>(EngineError::IllegalAction(i)) <==> {
                    &&& actions@.len() == old(self).n()
                    &&& i < old(self).n()
                    &&& !old(self).legal(i as int).contains(actions@[i as int])
                    &&& forall|j: int| 0 <= j < i ==> #[trigger] old(self).legal(j).contains(
                        actions@[j],
                    )
                },
            r is Ok <==> old(self).all_legal(actions@),
            r is Ok ==> {
                &&& final(self).players == old(self).players
                &&& final(self).round_action_history@ == old(self).round_action_history@.push(
                    actions,
                )
                &&& forall|i: int|
                    0 <= i < old(self).n() ==> #[trigger] final(self).player_points@[i] >= old(self).player_points@[i]
                &&& exists|mid: ServerState, deck: Seq<Card>|
                    deck.to_multiset() == full_deck().to_multiset() && #[trigger] old(self).advanced(
                        &mid,
                        actions@,
                        deck,
                    ) && *final(self) == (ServerState {
                        available_actions: final(self).available_actions,
                        round_action_history: final(self).round_action_history,
                        ..mid
                    })
            },
    {
        let deck = Card::full_stock_shuffled();
        self.next_state_with_deck(actions, deck)
    }
}


/// The turn always names a player of the round, whenever the round has players.
pub proof fn lemma_turn_in_round(s: ServerState)
    requires
        s.wf(),
        s.round_players@.len() > 0,
    ensures
        s.round_players@.contains(s.round_current_turn),
{
}

/// A raise during trick play opens a bet cycle: the bet goes up by one, the
/// raiser is recorded, and the player after the raiser in the ring answers first.
pub proof fn lemma_raise_opens_cycle(s: ServerState, new: ServerState, acts: Seq<Action>, deck: Seq<Card>, a: usize)
    requires
        s.wf(),
        s.round_phase is TrickPlay,
        !s.hands_out(),
        s.advanced(&new, acts, deck),
        first_of(acts, Action::RaiseBet, 0) == Some(a),
    ensures
        new.round_phase is Betting,
        new.round_bet == saturated_add(s.round_bet, 1),
        new.round_last_raising_player == Some(a),
        new.round_bet_current_turn == Some(ring_next(s.round_players@, a)),
{
}

/// An answer inside a bet cycle: when the player whose turn it is to answer
/// accepts and the raiser does not come next, the next player in the ring
/// answers, and the bet, the raiser and the turn stay as they were.
pub proof fn lemma_accept_moves_cursor(s: ServerState, new: ServerState, acts: Seq<Action>, deck: Seq<Card>)
    requires
        s.wf(),
        s.round_phase is Betting,
        acts[s.round_bet_current_turn->Some_0 as int] == Action::AcceptBet,
        ring_next(s.round_players@, s.round_bet_current_turn->Some_0)
            != s.round_last_raising_player->Some_0,
        !s.hands_out(),
        s.advanced(&new, acts, deck),
    ensures
        new.round_bet_current_turn == Some(
            ring_next(s.round_players@, s.round_bet_current_turn->Some_0),
        ),
        new.round_bet == s.round_bet,
        new.round_last_raising_player == s.round_last_raising_player,
        new.round_current_turn == s.round_current_turn,
        new.round_players == s.round_players,
{
}

/// The last raiser stays barred from raising until another player raises:
/// a batch of a running round without an accepted raise keeps the last
/// raiser, unless it ends the round and a new one is dealt (whose dealing
/// clears it).
pub proof fn lemma_raiser_kept(s: ServerState, new: ServerState, acts: Seq<Action>, deck: Seq<Card>)
    requires
        s.wf(),
        s.round_phase is Betting || s.round_phase is TrickPlay,
        first_of(acts, Action::RaiseBet, 0) is None,
        s.advanced(&new, acts, deck),
    ensures
        new.round_last_raising_player == s.round_last_raising_player || (
        new.round_last_raising_player is None && new.round_bet == 1),
        forall|r: usize|
            new.round_last_raising_player == Some(r) && new.round_phase is TrickPlay
                && #[trigger] new.in_round(r as int) ==> !new.legal(r as int).contains(
                Action::RaiseBet,
            ),
{
    if let Some(r) = new.round_last_raising_player {
        if new.round_phase is TrickPlay && new.in_round(r as int) {
            let l = new.legal(r as int);
            if l.contains(Action::RaiseBet) {
                let k = choose|k: int| 0 <= k < l.len() && l[k] == Action::RaiseBet;
                if r == new.round_current_turn {
                    let head = seq![Action::NotResponded] + plays_of(new.card_options(r as int));
                    assert(l == head);
                    assert(plays_of(new.card_options(r as int))[k - 1] == Action::RaiseBet);
                }
            }
        }
    }
}

/// The last answer of a bet cycle: when the player whose turn it is to answer
/// accepts and the raiser comes next in the ring, the cycle closes, the turn
/// holder may play its cards again, and the raiser may not raise again.
pub proof fn lemma_bet_cycle_closes(s: ServerState, new: ServerState, acts: Seq<Action>, deck: Seq<Card>)
    requires
        s.wf(),
        s.round_phase is Betting,
        acts[s.round_bet_current_turn->Some_0 as int] == Action::AcceptBet,
        ring_next(s.round_players@, s.round_bet_current_turn->Some_0)
            == s.round_last_raising_player->Some_0,
        !s.hands_out(),
        s.advanced(&new, acts, deck),
    ensures
        new.round_bet_current_turn is None,
        new.round_phase == Phase::TrickPlay,
        new.round_current_turn == s.round_current_turn,
        new.round_last_raising_player == s.round_last_raising_player,
        !new.legal(s.round_last_raising_player->Some_0 as int).contains(Action::RaiseBet),
        new.in_round(new.round_current_turn as int) ==> new.legal(
            new.round_current_turn as int,
        ).take(new.card_options(new.round_current_turn as int).len() as int + 1) == seq![
            Action::NotResponded,
        ] + plays_of(new.card_options(new.round_current_turn as int)),
{
    let r = s.round_last_raising_player->Some_0;
    let l = new.legal(r as int);
    if l.contains(Action::RaiseBet) {
        let k = choose|k: int| 0 <= k < l.len() && l[k] == Action::RaiseBet;
        if new.in_round(r as int) && r == new.round_current_turn {
            let head = seq![Action::NotResponded] + plays_of(new.card_options(r as int));
            assert(l == head);
            assert(k > 0);
            assert(plays_of(new.card_options(r as int))[k - 1] == Action::RaiseBet);
        }
    }
    let t = new.round_current_turn as int;
    if new.in_round(t) {
        let head = seq![Action::NotResponded] + plays_of(new.card_options(t));
        assert(new.legal(t).take(head.len() as int) == head);
    }
}


/// What a player sees of a Touping game.
#[derive(Clone, Debug, PartialEq, Eq)]
pub struct PlayerState {
    pub players: Vec<String>,
    pub player_points: Vec<u32>,
    pub available_actions: Vec<Action>,
    pub round_action_history: Vec<Action>,
    pub round_cards: Vec<Card>,
    pub round_players: Vec<usize>,
    pub round_stock_card_amount: u32,
    pub round_bet: u32,
}

/// A count, held at `u32::MAX`.
pub open spec fn count_u32(n: nat) -> u32 {
    if n > u32::MAX {
        u32::MAX
    } else {
        n as u32
    }
}

impl ServerState {
    /// `v` is what player `i` may see: the players, the scores, its own legal
    /// actions, its own action of each accepted batch, its own hand, the
    /// players of the round, how many cards the stock holds, and the bet.
    pub open spec fn is_view_of(&self, i: int, v: PlayerState) -> bool {
        &&& v.players@.len() == self.n()
        &&& forall|k: int| 0 <= k < self.n() ==> #[trigger] v.players@[k]@ == self.players@[k]@
        &&& v.player_points@ == self.player_points@
        &&& v.available_actions@ == self.legal(i)
        &&& v.round_action_history@ == Seq::new(
            self.round_action_history@.len(),
            |k: int| self.round_action_history@[k]@[i],
        )
        &&& v.round_cards@ == self.hand(i)
        &&& v.round_players@ == self.round_players@
        &&& v.round_stock_card_amount == count_u32(self.round_stock_cards@.len())
        &&& v.round_bet == self.round_bet
    }

    /// The view of player `player` (an index into `players`).
    pub fn get_player_state(&self, player: usize) -> (r: PlayerState)
        requires
            self.wf(),
            player < self.n(),
        ensures
            self.is_view_of(player as int, r),
    {
        let mut names: Vec<String> = Vec::new();
        let mut k: usize = 0;
        while k < self.players.len()
            invariant
                k <= self.n(),
                names@.len() == k,
                forall|j: int| 0 <= j < k ==> #[trigger] names@[j]@ == self.players@[j]@,
            decreases self.n() - k,
        {
            names.push(self.players[k].clone());
            k += 1;
        }
        let mut own: Vec<Action> = Vec::new();
        let mut h: usize = 0;
        while h < self.round_action_history.len()
            invariant
                self.wf(),
                player < self.n(),
                h <= self.round_action_history@.len(),
                own@ == Seq::new(h as nat, |j: int| self.round_action_history@[j]@[player as int]),
            decreases self.round_action_history@.len() - h,
        {
            own.push(self.round_action_history[h][player]);
            assert(own@ =~= Seq::new((h + 1) as nat, |j: int| self.round_action_history@[j]@[player as int]));
            h += 1;
        }
        let points = self.player_points.clone();
        assert(points@ =~= self.player_points@);
        let actions = self.available_actions[player].clone();
        assert(actions@ =~= self.available_actions@[player as int]@);
        let cards = self.round_player_cards[player].clone();
        assert(cards@ =~= self.hand(player as int));
        let rp = self.round_players.clone();
        assert(rp@ =~= self.round_players@);
        let amount = if self.round_stock_cards.len() > u32::MAX as usize {
            u32::MAX
        } else {
            self.round_stock_cards.len() as u32
        };
        PlayerState {
            players: names,
            player_points: points,
            available_actions: actions,
            round_action_history: own,
            round_cards: cards,
            round_players: rp,
            round_stock_card_amount: amount,
            round_bet: self.round_bet,
        }
    }
}

/// Projection is a function of the state: two views of one player on one
/// state agree in everything they show, and the only hand they show is the
/// player's own.
pub proof fn lemma_player_state_idempotent(s: ServerState, i: int, v1: PlayerState, v2: PlayerState)
    requires
        s.wf(),
        0 <= i < s.n(),
        s.is_view_of(i, v1),
        s.is_view_of(i, v2),
    ensures
        v1.players@.len() == v2.players@.len(),
        forall|k: int| 0 <= k < v1.players@.len() ==> #[trigger] v1.players@[k]@ == v2.players@[k]@,
        v1.player_points@ == v2.player_points@,
        v1.available_actions@ == v2.available_actions@,
        v1.round_action_history@ == v2.round_action_history@,
        v1.round_cards@ == v2.round_cards@,
        v1.round_players@ == v2.round_players@,
        v1.round_stock_card_amount == v2.round_stock_card_amount,
        v1.round_bet == v2.round_bet,
        v1.round_cards@ == s.hand(i),
{
    assert forall|k: int| 0 <= k < v1.players@.len() implies #[trigger] v1.players@[k]@ == v2.players@[k]@ by {
        assert(v1.players@[k]@ == s.players@[k]@);
        assert(v2.players@[k]@ == s.players@[k]@);
    }
}


/// Every well-formed state holds each card of one deck exactly once, across
/// the hands, the stock, the discarded cards and the current trick.
pub proof fn lemma_cards_conserved(s: ServerState)
    requires
        s.wf(),
    ensures
        s.all_cards() == full_deck().to_multiset(),
{
}


impl ServerState {
    /// Player `player` is one point short of the limit.
    pub fn is_on_poverty(&self, player: usize) -> (r: bool)
        requires
            player < self.player_points@.len(),
        ensures
            r == (self.player_points@[player as int] == POINT_LIMIT - 1),
    {
        self.player_points[player] == POINT_LIMIT - 1
    }

    /// The players one point short of the limit, ascending.
    pub fn players_on_poverty(&self) -> (r: Vec<usize>)
        ensures
            forall|k: int| 0 <= k < r@.len() ==> #[trigger] r@[k] < self.player_points@.len(),
            forall|i: int|
                0 <= i < self.player_points@.len() ==> (r@.contains(i as usize) <==> #[trigger] self.player_points@[i]
                    == POINT_LIMIT - 1),
    {
        let mut result: Vec<usize> = Vec::new();
        let mut i: usize = 0;
        while i < self.player_points.len()
            invariant
                i <= self.player_points@.len(),
                forall|k: int| 0 <= k < result@.len() ==> #[trigger] result@[k] < i,
                forall|j: int|
                    0 <= j < i ==> (result@.contains(j as usize) <==> #[trigger] self.player_points@[j]
                        == POINT_LIMIT - 1),
            decreases self.player_points@.len() - i,
        {
            let ghost before = result@;
            if self.player_points[i] == POINT_LIMIT - 1 {
                result.push(i);
                assert(result@[before.len() as int] == i);
            }
            assert forall|j: int| 0 <= j < i implies (#[trigger] result@.contains(j as usize)
                <==> before.contains(j as usize)) by {
                if result@.contains(j as usize) && !before.contains(j as usize) {
                    let k = choose|k: int| 0 <= k < result@.len() && result@[k] == j as usize;
                    assert(k == before.len());
                }
                if before.contains(j as usize) {
                    let k = choose|k: int| 0 <= k < before.len() && before[k] == j as usize;
                    assert(result@[k] == j as usize);
                }
            }
            if !(self.player_points[i] == POINT_LIMIT - 1) {
                assert(!result@.contains(i)) by {
                    if result@.contains(i) {
                        let k = choose|k: int| 0 <= k < result@.len() && result@[k] == i;
                    }
                }
            }
            i += 1;
        }
        result
    }

    /// Some player is one point short of the limit.
    pub fn is_poverty(&self) -> (r: bool)
        ensures
            r == exists|i: int| 0 <= i < self.player_points@.len() && #[trigger] self.player_points@[i]
                == POINT_LIMIT - 1,
    {
        let p = self.players_on_poverty();
        if p.len() > 0 {
            assert(self.player_points@[p@[0] as int] == POINT_LIMIT - 1);
        }
        p.len() > 0
    }
}


proof fn lemma_first_above_at(rp: Seq<usize>, x: usize, j: int)
    requires
        0 <= j < rp.len(),
        rp[j] > x,
        forall|k: int| 0 <= k < j ==> rp[k] <= x,
    ensures
        first_above(rp, x) == Some(rp[j]),
    decreases j,
{
    if j > 0 {
        lemma_first_above_at(rp.drop_first(), x, j - 1);
    }
}

proof fn lemma_first_above_absent(rp: Seq<usize>, x: usize)
    requires
        forall|k: int| 0 <= k < rp.len() ==> rp[k] <= x,
    ensures
        first_above(rp, x) is None,
    decreases rp.len(),
{
    if rp.len() > 0 {
        lemma_first_above_absent(rp.drop_first(), x);
    }
}

/// In a strictly ascending ring, the player after the one at position `i`
/// is the one at the next position, wrapping at the end.
proof fn lemma_ring_next_sorted(rp: Seq<usize>, i: int)
    requires
        0 <= i < rp.len(),
        forall|a: int, b: int| 0 <= a < b < rp.len() ==> #[trigger] rp[a] < #[trigger] rp[b],
    ensures
        ring_next(rp, rp[i]) == if i + 1 < rp.len() {
            rp[i + 1]
        } else {
            rp[0]
        },
{
    if i + 1 < rp.len() {
        assert forall|k: int| 0 <= k < i + 1 implies rp[k] <= rp[i] by {
            if k < i {
                assert(rp[k] < rp[i]);
            }
        }
        assert(rp[i] < rp[i + 1]);
        lemma_first_above_at(rp, rp[i], i + 1);
    } else {
        assert forall|k: int| 0 <= k < rp.len() implies rp[k] <= rp[i] by {
            if k < i {
                assert(rp[k] < rp[i]);
            }
        }
        lemma_first_above_absent(rp, rp[i]);
    }
}

proof fn lemma_bet_cycle_steps(
    s: Seq<ServerState>,
    acts: Seq<Seq<Action>>,
    decks: Seq<Seq<Card>>,
    a: usize,
    pa: int,
    i: int,
)
    requires
        s.len() == s[0].round_players@.len() + 1,
        acts.len() == s.len() - 1,
        s[0].round_players@.len() >= 2,
        forall|x: int, y: int|
            0 <= x < y < s[0].round_players@.len() ==> #[trigger] s[0].round_players@[x]
                < #[trigger] s[0].round_players@[y],
        0 <= pa < s[0].round_players@.len(),
        s[0].round_players@[pa] == a,
        1 <= i < s.len(),
        decks.len() == acts.len(),
        forall|k: int| 0 <= k < s.len() - 1 ==> !(#[trigger] s[k].hands_out()),
        forall|k: int| 0 <= k < s.len() - 1 ==> #[trigger] s[k].advanced(&s[k + 1], acts[k], decks[k]),
        forall|k: int|
            1 <= k < s.len() - 1 ==> acts[k][s[k].round_bet_current_turn->Some_0 as int]
                == Action::AcceptBet,
        s[1].round_phase == Phase::Betting,
        s[1].round_last_raising_player == Some(a),
        s[1].round_players == s[0].round_players,
        s[1].round_bet_current_turn == Some(ring_next(s[0].round_players@, a)),
    ensures
        i < s.len() - 1 ==> {
            &&& s[i].round_phase == Phase::Betting
            &&& s[i].round_last_raising_player == Some(a)
            &&& s[i].round_players == s[0].round_players
            &&& s[i].round_bet_current_turn == Some(
                s[0].round_players@[if pa + i < s[0].round_players@.len() {
                    pa + i
                } else {
                    pa + i - s[0].round_players@.len()
                }],
            )
        },
        i == s.len() - 1 ==> {
            &&& s[i].round_bet_current_turn is None
            &&& s[i].round_phase == Phase::TrickPlay
            &&& s[i].round_last_raising_player == Some(a)
        },
    decreases i,
{
    let rp = s[0].round_players@;
    let l = rp.len() as int;
    lemma_ring_next_sorted(rp, pa);
    if i > 1 {
        lemma_bet_cycle_steps(s, acts, decks, a, pa, i - 1);
        let j = i - 1;
        let pj = if pa + j < l {
            pa + j
        } else {
            pa + j - l
        };
        lemma_ring_next_sorted(rp, pj);
        assert(s[j].advanced(&s[j + 1], acts[j], decks[j]));
        assert(!s[j].hands_out());
        let nxt = if pj + 1 < l {
            pj + 1
        } else {
            0
        };
        assert(ring_next(rp, rp[pj]) == rp[nxt]);
        if nxt == pa {
            assert(i == l);
        } else {
            assert(rp[nxt] != a);
        }
    }
}

/// A raise by player `a` during trick play, answered by every other player
/// of the round accepting in ring order (one batch each), closes the bet
/// cycle: no answer is pending, cards are played again, and `a` stays the
/// last raiser, so it may not raise until another player does.
pub proof fn lemma_bet_cycle_closure(
    s: Seq<ServerState>,
    acts: Seq<Seq<Action>>,
    decks: Seq<Seq<Card>>,
    a: usize,
)
    requires
        s.len() == s[0].round_players@.len() + 1,
        acts.len() == s.len() - 1,
        s[0].wf(),
        s[0].round_phase is TrickPlay,
        s[0].all_legal(acts[0]),
        first_of(acts[0], Action::RaiseBet, 0) == Some(a),
        decks.len() == acts.len(),
        forall|k: int| 0 <= k < s.len() - 1 ==> !(#[trigger] s[k].hands_out()),
        forall|k: int| 0 <= k < s.len() - 1 ==> #[trigger] s[k].advanced(&s[k + 1], acts[k], decks[k]),
        forall|k: int|
            1 <= k < s.len() - 1 ==> acts[k][s[k].round_bet_current_turn->Some_0 as int]
                == Action::AcceptBet,
    ensures
        s.last().round_bet_current_turn is None,
        s.last().round_phase == Phase::TrickPlay,
        s.last().round_last_raising_player == Some(a),
        !s.last().legal(a as int).contains(Action::RaiseBet),
{
    let s0 = s[0];
    let rp = s0.round_players@;
    lemma_first_of(acts[0], Action::RaiseBet, 0);
    assert(s0.legal(a as int).contains(Action::RaiseBet));
    if !s0.in_round(a as int) {
        assert(s0.legal(a as int) == seq![Action::NotResponded, Action::Wait]);
        let k = choose|k: int| 0 <= k < 2 && s0.legal(a as int)[k] == Action::RaiseBet;
    }
    let pa = choose|pa: int| 0 <= pa < rp.len() && rp[pa] == a;
    assert(s[0].advanced(&s[1], acts[0], decks[0]));
    assert(!s[0].hands_out());
    lemma_bet_cycle_steps(s, acts, decks, a, pa, s.len() - 1);
    let last = s.last();
    assert(last == s[s.len() - 1]);
    let l = last.legal(a as int);
    if l.contains(Action::RaiseBet) {
        let k = choose|k: int| 0 <= k < l.len() && l[k] == Action::RaiseBet;
        if last.in_round(a as int) && a == last.round_current_turn {
            let head = seq![Action::NotResponded] + plays_of(last.card_options(a as int));
            assert(l == head);
            assert(plays_of(last.card_options(a as int))[k - 1] == Action::RaiseBet);
        }
    }
}

} // verus!
