//! What clicks and drags on cards ask of the game.
use vstd::prelude::*;
use crate::card::{CardInfo, CardType, GameDifficulty, Position, NUM_CARDS, NUM_PILES};
use crate::cardlist::{
    above, all_matching, count_matching, first_with, foundation_accepts, has_entity, in_zone, lemma_indices, pile_landing,
    CardList,
};
use crate::game::StackInfo;
use crate::waste::draw_effect;
use crate::table::{lemma_same_core, lemma_wf_same_settled, moves_with, wf};

verus! {

/// The first tableau pile from `i` on, among those marked in `hits`, that
/// card `c` may go onto, with its landing place.
pub open spec fn first_landing(s: Seq<CardInfo>, c: CardInfo, hits: Seq<bool>, i: int) -> Option<StackInfo>
    decreases NUM_PILES - i,
{
    if i >= NUM_PILES || i < 0 {
        None
    } else if i < hits.len() && hits[i] && pile_landing(s, i as u32, c) is Some {
        Some(StackInfo { target: c.entity, dst: CardType::Pile(i as u32), order: pile_landing(s, i as u32, c)->0 as i32 })
    } else {
        first_landing(s, c, hits, i + 1)
    }
}

/// The request that sends card `c` home to its foundation.
pub open spec fn home_request(c: CardInfo) -> StackInfo {
    StackInfo { target: c.entity, dst: CardType::Foundation(c.card_suit), order: c.card_number as i32 }
}

/// No card lies above card `c` in its zone.
pub open spec fn uncovered(s: Seq<CardInfo>, c: CardInfo) -> bool {
    count_matching(s, above(c.card_type, c.order)) == 0
}

/// Where a card that was clicked, or dropped, goes: `hit_home` says whether
/// its foundation may take it, `hits` which piles may; a waste card tries
/// its foundation first, a tableau card its foundation where nothing lies
/// on it, and any card then the first pile that takes it.
pub open spec fn choose_target(s: Seq<CardInfo>, c: CardInfo, hit_home: bool, hits: Seq<bool>, exclusive: bool) -> Option<StackInfo> {
    match c.card_type {
        CardType::Waste => if hit_home && foundation_accepts(s, c) {
            Some(home_request(c))
        } else {
            first_landing(s, c, hits, 0)
        },
        CardType::Pile(_) => if hit_home && foundation_accepts(s, c) && uncovered(s, c) {
            Some(home_request(c))
        } else if hit_home && exclusive {
            None
        } else {
            first_landing(s, c, hits, 0)
        },
        CardType::Foundation(_) => first_landing(s, c, hits, 0),
        CardType::Stock => None,
    }
}

pub open spec fn all_piles() -> Seq<bool> {
    Seq::new(NUM_PILES as nat, |i: int| true)
}

/// Place `j` is among the places `v`.
pub open spec fn lists(v: Seq<usize>, j: int) -> bool {
    exists|k: int| 0 <= k < v.len() && v[k] as int == j
}

/// What a click on a card does.
#[derive(Clone, Copy, Debug, PartialEq, Eq, Structural)]
pub enum ClickAction {
    /// Nothing.
    Ignore,
    /// Cards were drawn from the stock.
    Drew,
    /// The card is to move as asked.
    Request(StackInfo),
}

impl CardList {
    /// The first pile from `i` on, among those marked in `hits`, that card
    /// `c` may go onto.
    fn first_landing_from(&self, c: &CardInfo, hits: &Vec<bool>, i: usize) -> (r: Option<StackInfo>)
        requires
            self@.len() <= NUM_CARDS,
            i <= NUM_PILES,
        ensures
            r == first_landing(self@, *c, hits@, i as int),
        decreases NUM_PILES - i,
    {
        if i >= NUM_PILES {
            return None;
        }
        if i < hits.len() && hits[i] {
            if let Some(order) = self.can_stack_pile(i as u32, c) {
                return Some(StackInfo { target: c.entity, dst: CardType::Pile(i as u32), order });
            }
        }
        self.first_landing_from(c, hits, i + 1)
    }

    /// Where card `c` goes; see `choose_target`.
    pub fn target_for(&self, c: &CardInfo, hit_home: bool, hits: &Vec<bool>, exclusive: bool) -> (r: Option<StackInfo>)
        requires
            self@.len() <= NUM_CARDS,
        ensures
            r == choose_target(self@, *c, hit_home, hits@, exclusive),
    {
        match c.card_type {
            CardType::Waste => if hit_home && self.can_stack_foundation(c) {
                Some(StackInfo { target: c.entity, dst: CardType::Foundation(c.card_suit), order: c.card_number as i32 })
            } else {
                self.first_landing_from(c, hits, 0)
            },
            CardType::Pile(_) => {
                let home = hit_home && self.can_stack_foundation(c);
                let free = self.places_above(c.card_type, c.order).len() == 0;
                if home && free {
                    Some(StackInfo { target: c.entity, dst: CardType::Foundation(c.card_suit), order: c.card_number as i32 })
                } else if hit_home && exclusive {
                    None
                } else {
                    self.first_landing_from(c, hits, 0)
                }
            },
            CardType::Foundation(_) => self.first_landing_from(c, hits, 0),
            CardType::Stock => None,
        }
    }

    /// A click on a card: an available stock card draws; an available card
    /// elsewhere that is not being dragged asks to move where it can go
    /// (see `choose_target`, with every pile in reach).
    pub fn on_click_card(&mut self, entity: u64, difficulty: GameDifficulty) -> (r: ClickAction)
        requires
            old(self)@.len() <= NUM_CARDS,
        ensures
            wf(old(self)@) ==> wf(final(self)@),
            !has_entity(old(self)@, entity) ==> r == ClickAction::Ignore && final(self)@ == old(self)@,
            forall|t: int|
                #[trigger] first_with(old(self)@, entity, t) ==> {
                    let c = old(self)@[t];
                    if !c.clickable {
                        r == ClickAction::Ignore && final(self)@ == old(self)@
                    } else if c.card_type == CardType::Stock {
                        r == ClickAction::Drew && draw_effect(old(self)@, final(self)@, difficulty, true)
                    } else if c.dragging {
                        r == ClickAction::Ignore && final(self)@ == old(self)@
                    } else {
                        final(self)@ == old(self)@ && r == match choose_target(old(self)@, c, true, all_piles(), false) {
                            Some(info) => ClickAction::Request(info),
                            None => ClickAction::Ignore,
                        }
                    }
                },
    {
        let t = match self.find(entity) {
            Some(t) => t,
            None => {
                return ClickAction::Ignore;
            },
        };
        proof {
            assert forall|t2: int| #[trigger] first_with(self@, entity, t2) implies t2 == t by {
                if t2 < t {
                    assert(self@[t2].entity == entity);
                } else if t2 > t {
                    assert(self@[t as int].entity == entity);
                }
            }
        }
        let c = self.0[t];
        if !c.clickable {
            return ClickAction::Ignore;
        }
        if c.card_type == CardType::Stock {
            proof {
                lemma_indices(self@, in_zone(CardType::Stock), self@.len() as int);
                assert(in_zone(CardType::Stock)(self@[t as int]));
                assert(all_matching(self@, in_zone(CardType::Stock)).contains(t as int));
            }
            self.on_click_stock(difficulty);
            return ClickAction::Drew;
        }
        if c.dragging {
            return ClickAction::Ignore;
        }
        let hits = vec![true, true, true, true, true, true, true];
        proof {
            assert(hits@ =~= all_piles());
        }
        match self.target_for(&c, true, &hits, false) {
            Some(info) => ClickAction::Request(info),
            None => ClickAction::Ignore,
        }
    }

    /// Whether the card at `t` can be picked up: it is available and not in
    /// the stock.
    pub open spec fn can_pick(c: CardInfo) -> bool {
        c.clickable && c.card_type != CardType::Stock
    }

    /// Places of the cards that follow a drag of the card with this
    /// identity: the card, and those above it in a tableau pile, in
    /// registry order; `None` where the card cannot be picked up.
    pub fn drag_group(&self, entity: u64) -> (r: Option<Vec<usize>>)
        ensures
            !has_entity(self@, entity) ==> r is None,
            forall|t: int|
                #[trigger] first_with(self@, entity, t) ==> match r {
                    None => !Self::can_pick(self@[t]),
                    Some(v) => Self::can_pick(self@[t]) && (forall|k: int|
                        0 <= k < v@.len() ==> #[trigger] v@[k] < self@.len() && moves_with(self@, t, v@[k] as int))
                        && (forall|j: int| 0 <= j < self@.len() && moves_with(self@, t, j) ==> #[trigger] lists(v@, j))
                        && (forall|k1: int, k2: int| 0 <= k1 < k2 < v@.len() ==> #[trigger] v@[k1] < #[trigger] v@[k2]),
                },
    {
        let t = match self.find(entity) {
            Some(t) => t,
            None => {
                return None;
            },
        };
        proof {
            assert forall|t2: int| #[trigger] first_with(self@, entity, t2) implies t2 == t by {
                if t2 < t {
                    assert(self@[t2].entity == entity);
                } else if t2 > t {
                    assert(self@[t as int].entity == entity);
                }
            }
        }
        let c = self.0[t];
        if !c.clickable || c.card_type == CardType::Stock {
            return None;
        }
        let is_pile = match c.card_type {
            CardType::Pile(_) => true,
            _ => false,
        };
        let mut v: Vec<usize> = Vec::new();
        let mut j: usize = 0;
        while j < self.0.len()
            invariant
                j <= self@.len(),
                t < self@.len(),
                c == self@[t as int],
                is_pile == c.card_type is Pile,
                forall|k: int| 0 <= k < v@.len() ==> #[trigger] v@[k] < j && moves_with(self@, t as int, v@[k] as int),
                forall|i: int| 0 <= i < j && moves_with(self@, t as int, i) ==> #[trigger] lists(v@, i),
                forall|k1: int, k2: int| 0 <= k1 < k2 < v@.len() ==> #[trigger] v@[k1] < #[trigger] v@[k2],
            decreases self@.len() - j,
        {
            let d = self.0[j];
            if j == t || (is_pile && d.card_type == c.card_type && d.order > c.order) {
                let ghost old_v = v@;
                v.push(j);
                proof {
                    assert(v@[v@.len() - 1] == j);
                    assert forall|i: int| 0 <= i < j + 1 && moves_with(self@, t as int, i) implies #[trigger] lists(v@, i) by {
                        if i < j {
                            assert(lists(old_v, i));
                            let k = choose|k: int| 0 <= k < old_v.len() && old_v[k] as int == i;
                            assert(v@[k] as int == i);
                        } else {
                            assert(v@[v@.len() - 1] as int == i);
                        }
                    }
                }
            }
            j = j + 1;
        }
        Some(v)
    }

    /// Sets where the card at `place` belongs, as it is dragged.
    pub fn set_dst_position(&mut self, place: usize, pos: Position)
        requires
            place < old(self)@.len(),
        ensures
            final(self)@ == old(self)@.update(place as int, (CardInfo { dst_position: pos, ..old(self)@[place as int] })),
            wf(old(self)@) ==> wf(final(self)@),
    {
        let ghost s = self@;
        let c = self.0[place];
        self.0.set(place, CardInfo { dst_position: pos, ..c });
        proof {
            lemma_same_core(s, self@);
            if wf(s) {
                lemma_wf_same_settled(s, self@);
            }
        }
    }

    /// Marks the card at `place` as being dragged.
    pub fn set_dragging(&mut self, place: usize)
        requires
            place < old(self)@.len(),
        ensures
            final(self)@ == old(self)@.update(place as int, (CardInfo { dragging: true, ..old(self)@[place as int] })),
            wf(old(self)@) ==> wf(final(self)@),
    {
        let ghost s = self@;
        let c = self.0[place];
        self.0.set(place, CardInfo { dragging: true, ..c });
        proof {
            lemma_same_core(s, self@);
            if wf(s) {
                lemma_wf_same_settled(s, self@);
            }
        }
    }

    /// The start of a drag: the card, where it can be picked up, and the
    /// cards above it in a tableau pile remember where they belong, to go
    /// back there if the drop is refused.
    pub fn on_drag_start(&mut self, entity: u64)
        ensures
            wf(old(self)@) ==> wf(final(self)@),
            !has_entity(old(self)@, entity) ==> final(self)@ == old(self)@,
            forall|t: int|
                #[trigger] first_with(old(self)@, entity, t) ==> if Self::can_pick(old(self)@[t]) {
                    &&& final(self)@.len() == old(self)@.len()
                    &&& forall|j: int|
                        #![trigger final(self)@[j]]
                        0 <= j < old(self)@.len() ==> final(self)@[j] == if moves_with(old(self)@, t, j) {
                            CardInfo { prev_position: old(self)@[j].dst_position, ..old(self)@[j] }
                        } else {
                            old(self)@[j]
                        }
                } else {
                    final(self)@ == old(self)@
                },
    {
        let ghost s = self@;
        let group = self.drag_group(entity);
        let v = match group {
            Some(v) => v,
            None => {
                return;
            },
        };
        let t = self.find(entity).unwrap();
        proof {
            assert forall|t2: int| #[trigger] first_with(s, entity, t2) implies t2 == t by {
                if t2 < t {
                    assert(s[t2].entity == entity);
                } else if t2 > t {
                    assert(s[t as int].entity == entity);
                }
            }
        }
        let mut k: usize = 0;
        while k < v.len()
            invariant
                s.len() == self@.len(),
                t < s.len(),
                0 <= k <= v@.len(),
                forall|m: int| 0 <= m < v@.len() ==> #[trigger] v@[m] < s.len() && moves_with(s, t as int, v@[m] as int),
                forall|j: int| 0 <= j < s.len() && moves_with(s, t as int, j) ==> #[trigger] lists(v@, j),
                forall|k1: int, k2: int| 0 <= k1 < k2 < v@.len() ==> #[trigger] v@[k1] < #[trigger] v@[k2],
                forall|j: int|
                    #![trigger self@[j]]
                    0 <= j < s.len() ==> self@[j] == if (exists|m: int| 0 <= m < k && v@[m] as int == j) {
                        CardInfo { prev_position: s[j].dst_position, ..s[j] }
                    } else {
                        s[j]
                    },
            decreases v@.len() - k,
        {
            let p = v[k];
            let c = self.0[p];
            self.0.set(p, CardInfo { prev_position: c.dst_position, ..c });
            proof {
                assert forall|j: int| #![trigger self@[j]] 0 <= j < s.len() implies self@[j] == if (exists|m: int| 0 <= m < k + 1 && v@[m] as int == j) {
                    CardInfo { prev_position: s[j].dst_position, ..s[j] }
                } else {
                    s[j]
                } by {
                    if j == p as int {
                        assert(v@[k as int] as int == j);
                        if exists|m: int| 0 <= m < k && v@[m] as int == j {
                            let m = choose|m: int| 0 <= m < k && v@[m] as int == j;
                            assert(v@[m] < v@[k as int]);
                        }
                    } else {
                        if exists|m: int| 0 <= m < k + 1 && v@[m] as int == j {
                            let m = choose|m: int| 0 <= m < k + 1 && v@[m] as int == j;
                            assert(m < k);
                        }
                    }
                }
            }
            k = k + 1;
        }
        proof {
            assert forall|j: int| #![trigger self@[j]] 0 <= j < s.len() implies self@[j] == if moves_with(s, t as int, j) {
                CardInfo { prev_position: s[j].dst_position, ..s[j] }
            } else {
                s[j]
            } by {
                if moves_with(s, t as int, j) {
                    assert(lists(v@, j));
                } else {
                    if exists|m: int| 0 <= m < v@.len() && v@[m] as int == j {
                        let m = choose|m: int| 0 <= m < v@.len() && v@[m] as int == j;
                        assert(moves_with(s, t as int, v@[m] as int));
                    }
                }
            }
            lemma_same_core(s, self@);
            if wf(s) {
                lemma_wf_same_settled(s, self@);
            }
        }
    }

    /// The end of a drag: where the card can be picked up, asks for the
    /// move to where it was dropped (see `choose_target`; a drop on its
    /// foundation tries only the foundation). A drop that nowhere takes
    /// sends the card and those above it back. Either way the card is no
    /// longer being dragged.
    pub fn on_drag_end(&mut self, entity: u64, hit_home: bool, hits: &Vec<bool>) -> (r: Option<StackInfo>)
        requires
            old(self)@.len() <= NUM_CARDS,
        ensures
            wf(old(self)@) ==> wf(final(self)@),
            !has_entity(old(self)@, entity) ==> r is None && final(self)@ == old(self)@,
            forall|t: int|
                #[trigger] first_with(old(self)@, entity, t) ==> if Self::can_pick(old(self)@[t]) {
                    &&& r == choose_target(old(self)@, old(self)@[t], hit_home, hits@, true)
                    &&& final(self)@.len() == old(self)@.len()
                    &&& final(self)@[t].dragging == false
                    &&& forall|j: int|
                        #![trigger final(self)@[j]]
                        0 <= j < old(self)@.len() ==> {
                            let c = old(self)@[j];
                            let c2 = if r is None && moves_with(old(self)@, t, j) {
                                CardInfo { dst_position: c.prev_position, ..c }
                            } else {
                                c
                            };
                            final(self)@[j] == if j == t {
                                CardInfo { dragging: false, ..c2 }
                            } else {
                                c2
                            }
                        }
                } else {
                    r is None && final(self)@ == old(self)@
                },
    {
        let ghost s = self@;
        let t = match self.find(entity) {
            Some(t) => t,
            None => {
                return None;
            },
        };
        proof {
            assert forall|t2: int| #[trigger] first_with(s, entity, t2) implies t2 == t by {
                if t2 < t {
                    assert(s[t2].entity == entity);
                } else if t2 > t {
                    assert(s[t as int].entity == entity);
                }
            }
        }
        let c = self.0[t];
        if !c.clickable || c.card_type == CardType::Stock {
            return None;
        }
        let r = self.target_for(&c, hit_home, hits, true);
        if r.is_none() {
            self.restore_run(t);
        }
        let c2 = self.0[t];
        self.0.set(t, CardInfo { dragging: false, ..c2 });
        proof {
            lemma_same_core(s, self@);
            if wf(s) {
                lemma_wf_same_settled(s, self@);
            }
        }
        r
    }
}

} // verus!
