//! The deck: a new game's cards, the shuffle, and how the shuffled deck
//! is laid into the stock.
use vstd::prelude::*;
use rand::seq::SliceRandom;
use crate::card::{
    suit_index_spec, suit_of_index, CardInfo, CardSuit, CardType, Position, NUM_CARDS, NUM_PILES,
};
use crate::cardlist::{in_zone, zone_len};
use crate::layout::{calc_pile_position, pile_position_spec};
use crate::cardlist::CardList;
use crate::layout::{POSITION_STOCK_X, POSITION_STOCK_Y};
use crate::table::{deck_ok, foundation_ok, has_card, pile_ok, valid_zone, wf};

verus! {

/// The `i`-th card of a new deck: hearts, diamonds, clubs and spades, each
/// from ace to king.
pub open spec fn standard_card(i: int) -> (CardSuit, u32) {
    (suit_of_index(i / 13), (i % 13 + 1) as u32)
}

pub open spec fn standard_deck() -> Seq<(CardSuit, u32)> {
    Seq::new(NUM_CARDS as nat, |i: int| standard_card(i))
}

/// The deck in a new game's order.
pub fn new_deck_order() -> (r: Vec<(CardSuit, u32)>)
    ensures
        r@ == standard_deck(),
{
    let suits = [CardSuit::Heart, CardSuit::Diamond, CardSuit::Club, CardSuit::Spade];
    let mut r: Vec<(CardSuit, u32)> = Vec::new();
    let mut k: usize = 0;
    while k < 4
        invariant
            k <= 4,
            suits@ == seq![CardSuit::Heart, CardSuit::Diamond, CardSuit::Club, CardSuit::Spade],
            r@.len() == 13 * k,
            forall|i: int| 0 <= i < r@.len() ==> #[trigger] r@[i] == standard_card(i),
        decreases 4 - k,
    {
        let mut number: u32 = 1;
        while number <= 13
            invariant
                k < 4,
                1 <= number <= 14,
                suits@ == seq![CardSuit::Heart, CardSuit::Diamond, CardSuit::Club, CardSuit::Spade],
                r@.len() == 13 * k + number - 1,
                forall|i: int| 0 <= i < r@.len() ==> #[trigger] r@[i] == standard_card(i),
            decreases 14 - number,
        {
            proof {
                let i = 13 * k + number - 1;
                assert(i / 13 == k as int && i % 13 == number - 1) by (nonlinear_arith)
                    requires
                        i == 13 * k + number - 1,
                        1 <= number <= 13,
                ;
            }
            r.push((suits[k], number));
            number = number + 1;
        }
        k = k + 1;
    }
    proof {
        assert(r@ =~= standard_deck());
    }
    r
}

/// Relies on rand's `SliceRandom::shuffle`, with the thread's generator:
/// it only swaps the items around.
#[verifier::external_body]
fn shuffle_in_place(v: &mut Vec<(CardSuit, u32)>)
    ensures
        final(v)@.to_multiset() == old(v)@.to_multiset(),
{
    let mut rng = rand::thread_rng();
    v.shuffle(&mut rng);
}

/// A new deck in a random order.
pub fn shuffled_deck() -> (r: Vec<(CardSuit, u32)>)
    ensures
        r@.to_multiset() == standard_deck().to_multiset(),
{
    let mut deck = new_deck_order();
    shuffle_in_place(&mut deck);
    deck
}

/// A card of a shuffled deck placed in the stock at place `order`.
pub open spec fn stocked_card(c: CardInfo, suit: CardSuit, number: u32, order: int) -> CardInfo {
    CardInfo {
        card_suit: suit,
        card_number: number,
        card_type: CardType::Stock,
        order: order as i32,
        clickable: true,
        facedown: true,
        dst_position: Position { x: POSITION_STOCK_X, y: POSITION_STOCK_Y, z: order as i32 },
        ..c
    }
}

/// The cards of a new deck are distinct, and they are exactly the cards
/// of rank 1 to 13.
proof fn lemma_standard_deck()
    ensures
        standard_deck().no_duplicates(),
        forall|x: (CardSuit, u32)| standard_deck().contains(x) <==> 1 <= x.1 <= 13,
{
    let d = standard_deck();
    assert forall|i: int, j: int| 0 <= i < d.len() && 0 <= j < d.len() && i != j implies d[i] != d[j] by {
        if d[i] == d[j] {
            assert(suit_of_index(i / 13) == suit_of_index(j / 13));
            assert(i / 13 == j / 13);
            assert(i % 13 == j % 13);
            assert(i == 13 * (i / 13) + i % 13);
            assert(j == 13 * (j / 13) + j % 13);
        }
    }
    assert forall|x: (CardSuit, u32)| d.contains(x) <==> 1 <= x.1 <= 13 by {
        if 1 <= x.1 <= 13 {
            let i = 13 * suit_index_spec(x.0) + x.1 - 1;
            assert(i / 13 == suit_index_spec(x.0) && i % 13 == x.1 - 1) by (nonlinear_arith)
                requires
                    i == 13 * suit_index_spec(x.0) + x.1 - 1,
                    1 <= x.1 <= 13,
            ;
            assert(d[i] == x);
        }
    }
}

/// A deck that holds the cards of a new deck in any order, laid into the
/// stock, makes a well-formed game with every card in the stock.
proof fn lemma_stocked_wf(deck: Seq<(CardSuit, u32)>, s: Seq<CardInfo>)
    requires
        deck.to_multiset() == standard_deck().to_multiset(),
        deck.len() == NUM_CARDS,
        s.len() == NUM_CARDS,
        forall|j: int|
            #![trigger s[j]]
            0 <= j < s.len() ==> s[j].card_type == CardType::Stock && s[j].card_suit == deck[j].0
                && s[j].card_number == deck[j].1,
    ensures
        wf(s),
        all_in_stock(s),
{
    broadcast use vstd::seq_lib::group_to_multiset_ensures;
    lemma_standard_deck();
    standard_deck().lemma_multiset_has_no_duplicates();
    deck.lemma_multiset_has_no_duplicates_conv();
    assert forall|x: (CardSuit, u32)| deck.contains(x) <==> 1 <= x.1 <= 13 by {
        assert(deck.contains(x) <==> deck.to_multiset().count(x) > 0);
        assert(standard_deck().contains(x) <==> standard_deck().to_multiset().count(x) > 0);
    }
    assert forall|j: int| 0 <= j < s.len() implies 1 <= #[trigger] s[j].card_number <= 13 by {
        assert(deck.contains(deck[j]));
    }
    assert forall|j: int, k: int|
        0 <= j < s.len() && 0 <= k < s.len() && j != k implies !(#[trigger] s[j].card_suit == #[trigger] s[k].card_suit
            && s[j].card_number == s[k].card_number) by {
        assert(deck[j] != deck[k]);
    }
    assert forall|suit: CardSuit, n: u32| 1 <= n <= 13 implies #[trigger] has_card(s, suit, n) by {
        assert(deck.contains((suit, n)));
        let i = choose|i: int| 0 <= i < deck.len() && deck[i] == (suit, n);
        let j = i;
        assert(s[j].card_suit == suit);
    }
    assert(deck_ok(s));
    assert forall|i: u32| i < 7 implies #[trigger] pile_ok(s, i) by {
    }
    assert forall|x: CardSuit| #[trigger] foundation_ok(s, x) by {
    }
}

/// Number of cards the deal gives the tableau: one to the first pile, up
/// to seven to the last.
pub const NUM_DEALT: usize = 28;

/// The tableau pile that the deal gives its `j`-th card to.
pub open spec fn deal_pile(j: int) -> int {
    if j < 1 {
        0
    } else if j < 3 {
        1
    } else if j < 6 {
        2
    } else if j < 10 {
        3
    } else if j < 15 {
        4
    } else if j < 21 {
        5
    } else {
        6
    }
}

/// How many cards the deal gives the piles before pile `p`.
pub open spec fn pile_start(p: int) -> int {
    if p <= 0 {
        0
    } else if p == 1 {
        1
    } else if p == 2 {
        3
    } else if p == 3 {
        6
    } else if p == 4 {
        10
    } else if p == 5 {
        15
    } else {
        21
    }
}

/// A card dealt to pile `p` at place `o`: face up only on top, where
/// pile `p` holds `p + 1` cards.
pub open spec fn dealt_card(c: CardInfo, p: int, o: int) -> CardInfo {
    CardInfo {
        card_type: CardType::Pile(p as u32),
        order: o as i32,
        facedown: o != p,
        clickable: o == p,
        dst_position: pile_position_spec(p, o, p, 1),
        ..c
    }
}

/// Every card lies in the stock.
pub open spec fn all_in_stock(s: Seq<CardInfo>) -> bool {
    forall|j: int| 0 <= j < s.len() ==> #[trigger] s[j].card_type == CardType::Stock
}

/// A full deck in the stock, once dealt, is a game in play whose piles
/// hold one to seven cards.
proof fn lemma_deal_wf(s1: Seq<CardInfo>, s2: Seq<CardInfo>)
    requires
        deck_ok(s1),
        all_in_stock(s1),
        s2.len() == s1.len(),
        forall|j: int|
            #![trigger s2[j]]
            0 <= j < NUM_DEALT ==> s2[j] == dealt_card(s1[j], deal_pile(j), j - pile_start(deal_pile(j))),
        forall|j: int| #![trigger s2[j]] NUM_DEALT <= j < s1.len() ==> s2[j] == s1[j],
    ensures
        wf(s2),
        forall|p: u32| p < NUM_PILES ==> #[trigger] zone_len(s2, CardType::Pile(p)) == p + 1,
{
    let n = s1.len();
    assert forall|j: int| 0 <= j < n implies {
        &&& #[trigger] s2[j].card_suit == s1[j].card_suit
        &&& s2[j].card_number == s1[j].card_number
        &&& (j < NUM_DEALT ==> s2[j].card_type == CardType::Pile(deal_pile(j) as u32) && s2[j].order == j - pile_start(deal_pile(j)))
        &&& (j >= NUM_DEALT ==> s2[j].card_type == CardType::Stock)
    } by {
    }
    assert forall|p: u32| p < NUM_PILES implies #[trigger] zone_len(s2, CardType::Pile(p)) == p + 1 && pile_ok(s2, p) by {
        let z = CardType::Pile(p);
        let pz = in_zone(z);
        let key = crate::table::order_key();
        assert forall|j: int| 0 <= j < n && #[trigger] pz(s2[j]) implies 0 <= key(s2[j]) < p + 1 && deal_pile(j) == p by {
            assert(s2[j].card_suit == s1[j].card_suit);
        }
        assert forall|j: int, k: int|
            0 <= j < n && 0 <= k < n && j != k && #[trigger] pz(s2[j]) && #[trigger] pz(s2[k]) implies key(s2[j]) != key(s2[k]) by {
            assert(s2[j].card_suit == s1[j].card_suit);
            assert(s2[k].card_suit == s1[k].card_suit);
        }
        assert forall|m: int| 0 <= m < p + 1 implies #[trigger] crate::table::has_key(s2, pz, key, m) by {
            let j = pile_start(p as int) + m;
            assert(deal_pile(j) == p);
            assert(s2[j].card_suit == s1[j].card_suit);
            assert(pz(s2[j]) && key(s2[j]) == m);
        }
        crate::table::lemma_count_by_keys(s2, pz, key, 0, p + 1);
    }
    assert forall|j: int| 0 <= j < n implies 1 <= #[trigger] s2[j].card_number <= 13 && valid_zone(s2[j]) by {
        assert(s2[j].card_suit == s1[j].card_suit);
        assert(1 <= s1[j].card_number <= 13);
    }
    assert forall|suit: CardSuit, m: u32| 1 <= m <= 13 implies #[trigger] crate::table::has_card(s2, suit, m) by {
        assert(crate::table::has_card(s1, suit, m));
        let j = choose|j: int| 0 <= j < s1.len() && #[trigger] s1[j].card_suit == suit && s1[j].card_number == m;
        assert(s2[j].card_suit == suit);
    }
    assert forall|j: int, k: int|
        0 <= j < n && 0 <= k < n && j != k implies !(#[trigger] s2[j].card_suit
            == #[trigger] s2[k].card_suit && s2[j].card_number == s2[k].card_number) by {
        assert(s1[j].card_suit == s2[j].card_suit && s1[k].card_suit == s2[k].card_suit);
    }
    assert forall|x: CardSuit| #[trigger] crate::table::foundation_ok(s2, x) by {
        let z = CardType::Foundation(x);
        assert forall|j: int| 0 <= j < n && #[trigger] in_zone(z)(s2[j]) implies 1 <= crate::table::number_key()(s2[j]) < zone_len(s2, z) + 1 by {
            assert(s2[j].card_suit == s1[j].card_suit);
        }
        assert forall|j: int| 0 <= j < n && #[trigger] s2[j].card_type == z implies s2[j].card_suit == x && s2[j].order == s2[j].card_number by {
            assert(s2[j].card_suit == s1[j].card_suit);
        }
    }
}

impl CardList {
    /// Deals the tableau: the first card to pile 0, the next two to pile
    /// 1, and so on to seven cards on pile 6, in registry order; only the
    /// last card of each pile lies face up and can be picked up. The other
    /// cards stay where they are.
    pub fn deal(&mut self)
        requires
            old(self)@.len() == NUM_CARDS,
        ensures
            final(self)@.len() == old(self)@.len(),
            forall|j: int|
                #![trigger final(self)@[j]]
                0 <= j < NUM_DEALT ==> final(self)@[j] == dealt_card(old(self)@[j], deal_pile(j), j - pile_start(deal_pile(j))),
            forall|j: int| #![trigger final(self)@[j]] NUM_DEALT <= j < old(self)@.len() ==> final(self)@[j] == old(self)@[j],
            deck_ok(old(self)@) && all_in_stock(old(self)@) ==> wf(final(self)@) && forall|p: u32|
                p < NUM_PILES ==> #[trigger] zone_len(final(self)@, CardType::Pile(p)) == p + 1,
    {
        let ghost s = self@;
        let mut pile_index: u32 = 0;
        let mut order: i32 = 0;
        let mut j: usize = 0;
        while j < NUM_DEALT
            invariant
                s.len() == self@.len(),
                s.len() == NUM_CARDS,
                j <= NUM_DEALT,
                j < NUM_DEALT ==> pile_index as int == deal_pile(j as int) && order as int == j - pile_start(pile_index as int),
                j < NUM_DEALT ==> 0 <= order <= pile_index < NUM_PILES,
                forall|k: int|
                    #![trigger self@[k]]
                    0 <= k < s.len() ==> if k < j {
                        self@[k] == dealt_card(s[k], deal_pile(k), k - pile_start(deal_pile(k)))
                    } else {
                        self@[k] == s[k]
                    },
            decreases s.len() - j,
        {
            let c = self.0[j];
            let facedown = order != pile_index as i32;
            let position = calc_pile_position(pile_index, order, pile_index, 1);
            self.0.set(j, CardInfo {
                card_type: CardType::Pile(pile_index),
                order,
                facedown,
                dst_position: position,
                clickable: !facedown,
                ..c
            });
            order = order + 1;
            if order > pile_index as i32 {
                pile_index = pile_index + 1;
                order = 0;
            }
            j = j + 1;
        }
        proof {
            if deck_ok(s) && all_in_stock(s) {
                lemma_deal_wf(s, self@);
            }
        }
    }

    /// A new game's cards: one per identity given, in a new deck's order,
    /// each in the stock face down.
    pub fn new_game(entities: &Vec<u64>) -> (r: CardList)
        requires
            entities@.len() == NUM_CARDS,
        ensures
            r@.len() == NUM_CARDS,
            wf(r@),
            all_in_stock(r@),
            forall|j: int|
                #![trigger r@[j]]
                0 <= j < NUM_CARDS ==> r@[j] == (CardInfo {
                    entity: entities@[j],
                    card_suit: standard_card(j).0,
                    card_number: standard_card(j).1,
                    card_type: CardType::Stock,
                    order: 0,
                    facedown: true,
                    prev_position: Position { x: 0, y: 0, z: 0 },
                    dst_position: Position { x: 0, y: 0, z: 0 },
                    clickable: false,
                    dragging: false,
                }),
    {
        let deck = new_deck_order();
        let mut cards: Vec<CardInfo> = Vec::new();
        let mut j: usize = 0;
        while j < NUM_CARDS
            invariant
                j <= NUM_CARDS,
                entities@.len() == NUM_CARDS,
                deck@ == standard_deck(),
                cards@.len() == j,
                forall|k: int|
                    #![trigger cards@[k]]
                    0 <= k < j ==> cards@[k] == (CardInfo {
                        entity: entities@[k],
                        card_suit: standard_card(k).0,
                        card_number: standard_card(k).1,
                        card_type: CardType::Stock,
                        order: 0,
                        facedown: true,
                        prev_position: Position { x: 0, y: 0, z: 0 },
                        dst_position: Position { x: 0, y: 0, z: 0 },
                        clickable: false,
                        dragging: false,
                    }),
            decreases NUM_CARDS - j,
        {
            let (suit, number) = deck[j];
            cards.push(CardInfo {
                entity: entities[j],
                card_suit: suit,
                card_number: number,
                card_type: CardType::Stock,
                order: 0,
                facedown: true,
                prev_position: Position { x: 0, y: 0, z: 0 },
                dst_position: Position { x: 0, y: 0, z: 0 },
                clickable: false,
                dragging: false,
            });
            j = j + 1;
        }
        proof {
            let deck = standard_deck();
            lemma_stocked_wf(deck, cards@);
        }
        CardList(cards)
    }

    /// Lays a shuffled deck into the stock: the card at registry place `j`
    /// takes the deck's `j`-th suit and rank, and goes face down into the
    /// stock at place `j`. Cards beyond the deck's length stay as
    /// they are.
    pub fn prepare(&mut self, deck: &Vec<(CardSuit, u32)>)
        ensures
            final(self)@.len() == old(self)@.len(),
            forall|j: int|
                #![trigger final(self)@[j]]
                0 <= j < old(self)@.len() ==> final(self)@[j] == if j < deck@.len() {
                    stocked_card(old(self)@[j], deck@[j].0, deck@[j].1, j)
                } else {
                    old(self)@[j]
                },
            old(self)@.len() == NUM_CARDS && deck@.to_multiset() == standard_deck().to_multiset() ==> wf(final(self)@)
                && all_in_stock(final(self)@),
    {
        let ghost s = self@;
        let mut j: usize = 0;
        let n = if deck.len() < self.0.len() { deck.len() } else { self.0.len() };
        while j < n
            invariant
                s.len() == self@.len(),
                n <= s.len(),
                n <= deck@.len(),
                n == s.len() || n == deck@.len(),
                j <= n,
                forall|k: int|
                    #![trigger self@[k]]
                    0 <= k < s.len() ==> self@[k] == if k < j {
                        stocked_card(s[k], deck@[k].0, deck@[k].1, k)
                    } else {
                        s[k]
                    },
            decreases n - j,
        {
            let (suit, number) = deck[j];
            let c = self.0[j];
            let order = j as i32;
            self.0.set(j, CardInfo {
                card_suit: suit,
                card_number: number,
                card_type: CardType::Stock,
                order,
                clickable: true,
                facedown: true,
                dst_position: Position { x: POSITION_STOCK_X, y: POSITION_STOCK_Y, z: order },
                ..c
            });
            j = j + 1;
        }
        proof {
            if s.len() == NUM_CARDS && deck@.to_multiset() == standard_deck().to_multiset() {
                broadcast use vstd::seq_lib::group_to_multiset_ensures;
                assert(deck@.len() == NUM_CARDS) by {
                    assert(deck@.to_multiset().len() == standard_deck().to_multiset().len());
                }
                lemma_stocked_wf(deck@, self@);
            }
        }
    }
}

} // verus!
