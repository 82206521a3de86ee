//! The move resolver: moving cards between zones, turning up tableau cards,
//! laying out piles, and the end of a game.
use vstd::prelude::*;
use crate::card::{
    num_turn_to_waste, turn_spec, CardInfo, CardType, GameDifficulty, MoveStep, Position, MAX_WASTES, NUM_CARDS,
    NUM_PILES,
};
use crate::cardlist::{
    above, all_matching, count_matching, first_with, foundation_accepts, has_entity, in_zone,
    in_zone_facing, indices_matching, is_top, lemma_indices, lemma_top_exists, pile_landing, top_index,
    zone_len, CardList,
};
use crate::waste::{waste_laid_out};
use crate::layout::{calc_pile_position, foundation_position, foundation_position_spec, pile_position_spec};
use crate::table::{
    deck_ok, face_kept, lemma_face_kept_trans, lemma_foundation_top, lemma_wf_all_home,
    lemma_wf_relocate, lemma_wf_same_settled, moves_with, pile_ok, relocation, relocation_allowed, same_settled,
    settled, valid_zone, wf,
};

verus! {

/// `c2` is `c1` but for its target position.
pub open spec fn only_position(c1: CardInfo, c2: CardInfo, p: Position) -> bool {
    c2 == (CardInfo { dst_position: p, ..c1 })
}

/// `s2` is `s1` with the top card of `z` turned face up and made
/// available, where `revealed`; that was exactly where it lay face down.
pub open spec fn revealed_one(s1: Seq<CardInfo>, s2: Seq<CardInfo>, z: CardType, revealed: bool) -> bool {
    let top = top_index(s1, z);
    &&& revealed == (zone_len(s1, z) > 0 && s1[top].facedown)
    &&& s2.len() == s1.len()
    &&& same_settled(s1, s2)
    &&& forall|j: int|
        #![trigger s2[j]]
        0 <= j < s1.len() ==> if revealed && j == top {
            s2[j] == (CardInfo { facedown: false, clickable: true, ..s1[j] })
        } else {
            s2[j] == s1[j]
        }
}

/// Every card of tableau pile `b` lies where its place and the pile's
/// face counts put it.
pub open spec fn laid_out(s: Seq<CardInfo>, b: u32) -> bool {
    let z = CardType::Pile(b);
    forall|j: int|
        0 <= j < s.len() && #[trigger] s[j].card_type == z ==> s[j].dst_position == pile_position_spec(
            b as int,
            s[j].order as int,
            count_matching(s, in_zone_facing(z, true)) as int,
            count_matching(s, in_zone_facing(z, false)) as int,
        )
}

/// A pile that is laid out stays so while none of its cards changes and
/// no card joins it.
proof fn lemma_laid_out_kept(a: Seq<CardInfo>, c: Seq<CardInfo>, b: u32)
    requires
        laid_out(a, b),
        a.len() == c.len(),
        forall|j: int|
            0 <= j < a.len() && (a[j].card_type == CardType::Pile(b) || #[trigger] c[j].card_type == CardType::Pile(b))
                ==> c[j] == a[j],
    ensures
        laid_out(c, b),
{
    let z = CardType::Pile(b);
    assert forall|k: int| 0 <= k < a.len() implies in_zone_facing(z, true)(#[trigger] a[k]) == in_zone_facing(z, true)(c[k])
        && in_zone_facing(z, false)(a[k]) == in_zone_facing(z, false)(c[k]) by {
        if a[k].card_type == z || c[k].card_type == z {
            assert(c[k] == a[k]);
        }
    }
    crate::table::lemma_count_congruent(a, c, in_zone_facing(z, true), a.len() as int);
    crate::table::lemma_count_congruent(a, c, in_zone_facing(z, false), a.len() as int);
    assert forall|k: int| 0 <= k < c.len() && #[trigger] c[k].card_type == z implies c[k].dst_position == pile_position_spec(
        b as int,
        c[k].order as int,
        count_matching(c, in_zone_facing(z, true)) as int,
        count_matching(c, in_zone_facing(z, false)) as int,
    ) by {
        assert(c[k] == a[k]);
    }
}

/// The piles that a move touched are laid out, and a card sent home lies
/// on its foundation.
pub open spec fn stack_layout(s1: Seq<CardInfo>, s2: Seq<CardInfo>, t: int, info: StackInfo, r: StackOutcome) -> bool {
    r.step is Some && !r.cleared ==> {
        &&& (s1[t].card_type matches CardType::Pile(a) ==> laid_out(s2, a))
        &&& (info.dst matches CardType::Pile(b) ==> laid_out(s2, b))
        &&& (info.dst is Foundation ==> s2[t].dst_position == foundation_position_spec(s1[t].card_suit, info.order))
    }
}

/// The layout after a move, from the layout steps it took.
proof fn lemma_stack_layout(s2: Seq<CardInfo>, s3: Seq<CardInfo>, s5: Seq<CardInfo>, t: int, info: StackInfo, c: CardInfo)
    requires
        0 <= t < s2.len(),
        s3.len() == s2.len(),
        s5.len() == s2.len(),
        s2[t].card_type == info.dst,
        s2[t].order == info.order,
        s2[t].card_suit == c.card_suit,
        c.card_type != info.dst,
        (c.card_type matches CardType::Pile(a) ==> laid_out(s2, a)),
        (info.dst matches CardType::Pile(b) ==> {
            &&& laid_out(s3, b)
            &&& forall|j: int| 0 <= j < s2.len() ==> #[trigger] s3[j].card_type == s2[j].card_type
            &&& forall|j: int| 0 <= j < s2.len() && s2[j].card_type != info.dst ==> #[trigger] s3[j] == s2[j]
        }),
        info.dst is Foundation ==> s3 == s2.update(
            t,
            (CardInfo { dst_position: foundation_position_spec(s2[t].card_suit, s2[t].order), ..s2[t] }),
        ),
        !(info.dst is Pile) && !(info.dst is Foundation) ==> s3 == s2,
        c.card_type == CardType::Waste ==> {
            &&& forall|j: int| 0 <= j < s2.len() ==> #[trigger] s5[j].card_type == s3[j].card_type
            &&& forall|j: int| 0 <= j < s2.len() && s3[j].card_type != CardType::Waste ==> #[trigger] s5[j] == s3[j]
        },
        c.card_type != CardType::Waste ==> s5 == s3,
    ensures
        (c.card_type matches CardType::Pile(a) ==> laid_out(s5, a)),
        (info.dst matches CardType::Pile(b) ==> laid_out(s5, b)),
        info.dst is Foundation ==> s5[t].dst_position == foundation_position_spec(c.card_suit, info.order),
{
    if let CardType::Pile(a) = c.card_type {
        let z = c.card_type;
        if info.dst is Pile {
            assert forall|j: int| 0 <= j < s2.len() && (s2[j].card_type == z || #[trigger] s3[j].card_type == z) implies s3[j] == s2[j] by {
                assert(s3[j].card_type == s2[j].card_type);
            }
        } else if info.dst is Foundation {
            assert forall|j: int| 0 <= j < s2.len() && (s2[j].card_type == z || #[trigger] s3[j].card_type == z) implies s3[j] == s2[j] by {
            }
        }
        lemma_laid_out_kept(s2, s3, a);
        if c.card_type == CardType::Waste {
        } else {
            assert(s5 == s3);
        }
    }
    if let CardType::Pile(b) = info.dst {
        if c.card_type == CardType::Waste {
            assert forall|j: int| 0 <= j < s3.len() && (s3[j].card_type == info.dst || #[trigger] s5[j].card_type == info.dst) implies s5[j] == s3[j] by {
            }
            lemma_laid_out_kept(s3, s5, b);
        }
    }
    if info.dst is Foundation {
        if c.card_type == CardType::Waste {
            assert(s3[t].card_type == info.dst);
            assert(s5[t] == s3[t]);
        }
    }
}

/// A face-up count and a face-down count of one pile add up to its size.
pub proof fn lemma_facing_split(s: Seq<CardInfo>, z: CardType, n: int)
    requires
        0 <= n <= s.len(),
    ensures
        indices_matching(s, in_zone_facing(z, true), n).len() + indices_matching(s, in_zone_facing(z, false), n).len()
            == indices_matching(s, in_zone(z), n).len(),
    decreases n,
{
    if n > 0 {
        lemma_facing_split(s, z, n - 1);
    }
}

/// A request to move a card: the card, the zone it goes to, and its place there.
#[derive(Clone, Copy, Debug, PartialEq, Eq, Structural)]
pub struct StackInfo {
    pub target: u64,
    pub dst: CardType,
    pub order: i32,
}

/// What a move request came to.
#[derive(Clone, Copy, Debug, PartialEq, Eq, Structural)]
pub struct StackOutcome {
    /// The shape of the move carried out; `None` where it was refused.
    pub step: Option<MoveStep>,
    /// A face-down tableau card was turned up.
    pub revealed: bool,
    /// The game is won.
    pub cleared: bool,
}

/// The shape of the move that a request makes of card `t`, where the
/// rules allow it.
pub open spec fn legal_step(s: Seq<CardInfo>, t: int, info: StackInfo) -> Option<MoveStep> {
    let c = s[t];
    let lands = match info.dst {
        CardType::Pile(b) => b < NUM_PILES && pile_landing(s, b, c) == Some(info.order as int),
        _ => false,
    };
    let homes = match info.dst {
        CardType::Foundation(x) => x == c.card_suit && foundation_accepts(s, c) && info.order == c.card_number,
        _ => false,
    };
    match c.card_type {
        CardType::Waste => if lands {
            Some(MoveStep::WasteToPile)
        } else if homes {
            Some(MoveStep::WasteToFoundation)
        } else {
            None
        },
        CardType::Pile(a) => if lands && info.dst != c.card_type {
            Some(MoveStep::PileToPile)
        } else if homes && count_matching(s, above(c.card_type, c.order)) == 0 {
            Some(MoveStep::PileToFoundation)
        } else {
            None
        },
        CardType::Foundation(_) => if lands && is_top(s, c.card_type, t) {
            Some(MoveStep::FoundationToPile)
        } else {
            None
        },
        CardType::Stock => None,
    }
}

/// Card `t` and the cards above it have gone to the requested zone, the
/// others of the tableau and the foundations are where they were, and no
/// card has changed its identity, suit or rank.
pub open spec fn moved_as_asked(s1: Seq<CardInfo>, s2: Seq<CardInfo>, t: int, info: StackInfo) -> bool {
    forall|j: int|
        #![trigger s2[j]]
        0 <= j < s1.len() ==> {
            &&& s2[j].entity == s1[j].entity
            &&& s2[j].card_suit == s1[j].card_suit
            &&& s2[j].card_number == s1[j].card_number
            &&& moves_with(s1, t, j) ==> s2[j].card_type == info.dst && s2[j].order == info.order
                + s1[j].order - s1[t].order
            &&& !moves_with(s1, t, j) && settled(s1[j]) ==> s2[j].card_type == s1[j].card_type
                && s2[j].order == s1[j].order
        }
}

/// After a card left tableau pile `a`: the pile's new top card lies face
/// up; it was turned exactly when it lay face down, and no other card
/// turned.
pub open spec fn revealed_top(s1: Seq<CardInfo>, s2: Seq<CardInfo>, a: CardType, revealed: bool) -> bool {
    let top = top_index(s2, a);
    &&& zone_len(s2, a) > 0 ==> !s2[top].facedown
    &&& revealed == (zone_len(s2, a) > 0 && s1[top].facedown)
    &&& revealed ==> s2[top].clickable
    &&& forall|j: int|
        0 <= j < s1.len() && #[trigger] s2[j].facedown != s1[j].facedown ==> revealed && j == top
    &&& forall|j: int|
        0 <= j < s1.len() && s2[j].card_type == a && #[trigger] s2[j].clickable != s1[j].clickable ==> revealed && j
            == top
}

/// What a move request did to the registry, card `t` being the card asked for.
pub open spec fn stack_effect(s1: Seq<CardInfo>, s2: Seq<CardInfo>, t: int, info: StackInfo, r: StackOutcome) -> bool {
    &&& s2.len() == s1.len()
    &&& r.step == legal_step(s1, t, info)
    &&& r.step is None ==> {
        &&& !r.revealed
        &&& !r.cleared
        &&& forall|j: int|
            #![trigger s2[j]]
            0 <= j < s1.len() ==> if moves_with(s1, t, j) {
                only_position(s1[j], s2[j], s1[j].prev_position)
            } else {
                s2[j] == s1[j]
            }
    }
    &&& r.cleared ==> {
        &&& r.step is Some
        &&& info.dst is Foundation
        &&& forall|j: int|
            #![trigger s2[j]]
            0 <= j < s1.len() ==> s2[j].card_type == CardType::Foundation(s1[j].card_suit) && s2[j].order
                == s1[j].card_number && s2[j].entity == s1[j].entity && s2[j].card_suit == s1[j].card_suit
                && s2[j].card_number == s1[j].card_number
    }
    &&& r.revealed ==> r.step is Some && s1[t].card_type is Pile
    &&& r.step is Some && !r.cleared ==> moved_as_asked(s1, s2, t, info)
    &&& r.step is Some && !r.cleared && s1[t].card_type is Pile ==> revealed_top(s1, s2, s1[t].card_type, r.revealed)
    &&& r.step is Some && !r.cleared && s1[t].card_type !is Pile ==> forall|j: int|
        0 <= j < s1.len() ==> #[trigger] s2[j].facedown == s1[j].facedown
}

/// Besides the moved cards, a move changes only what it must: cards of the
/// pile it left may be laid out anew, and the one turned up; waste cards
/// may be laid out anew after a waste card left; cards of the pile it went
/// to may be laid out anew. Moved cards change only zone, place and layout.
pub open spec fn stack_frame(s0: Seq<CardInfo>, s: Seq<CardInfo>, t: int, info: StackInfo) -> bool {
    let src = s0[t].card_type;
    forall|j: int|
        #![trigger s[j]]
        0 <= j < s0.len() ==> {
            let c = s0[j];
            if moves_with(s0, t, j) {
                s[j] == (CardInfo { card_type: s[j].card_type, order: s[j].order, dst_position: s[j].dst_position, ..c })
            } else if c.card_type == src && src is Pile {
                s[j] == (CardInfo { facedown: s[j].facedown, clickable: s[j].clickable, dst_position: s[j].dst_position, ..c })
            } else if c.card_type == src && src == CardType::Waste {
                s[j] == (CardInfo { order: s[j].order, clickable: s[j].clickable, dst_position: s[j].dst_position, ..c })
            } else if c.card_type == info.dst && info.dst is Pile {
                s[j] == (CardInfo { dst_position: s[j].dst_position, ..c })
            } else {
                s[j] == c
            }
        }
}

/// After a card left a tableau pile, the card that lay just below it is
/// the pile's top.
pub open spec fn below_top(s0: Seq<CardInfo>, s: Seq<CardInfo>, t: int) -> bool {
    let src = s0[t].card_type;
    src is Pile ==> forall|j: int|
        #![trigger s0[j]]
        0 <= j < s0.len() && s0[j].card_type == src && s0[j].order == s0[t].order - 1 ==> top_index(s, src) == j
}

/// What else a move that went through did.
pub open spec fn stack_rest(s0: Seq<CardInfo>, s: Seq<CardInfo>, t: int, info: StackInfo, r: StackOutcome) -> bool {
    r.step is Some && !r.cleared ==> {
        &&& stack_frame(s0, s, t, info)
        &&& (s0[t].card_type == CardType::Waste ==> waste_laid_out(s0, s))
        &&& below_top(s0, s, t)
    }
}

/// Zone and face of card `j` once card `t` has moved as `info` asks, and
/// the card below it in a tableau pile has been turned up.
pub open spec fn moved_card(s: Seq<CardInfo>, t: int, info: StackInfo, j: int) -> CardInfo {
    let c = s[j];
    let src = s[t].card_type;
    CardInfo {
        card_type: if moves_with(s, t, j) { info.dst } else { c.card_type },
        facedown: if src is Pile && !moves_with(s, t, j) && c.card_type == src && c.order == s[t].order - 1 {
            false
        } else {
            c.facedown
        },
        ..c
    }
}

pub open spec fn moved_state(s: Seq<CardInfo>, t: int, info: StackInfo) -> Seq<CardInfo> {
    Seq::new(s.len(), |j: int| moved_card(s, t, info, j))
}

/// The game is won: no stock, no face-down tableau card, and no waste
/// card left hidden.
pub open spec fn game_clear_spec(s: Seq<CardInfo>, num_turn_to_waste: u32) -> bool {
    let w = zone_len(s, CardType::Waste);
    &&& forall|j: int|
        0 <= j < s.len() ==> #[trigger] s[j].card_type != CardType::Stock && !(s[j].card_type is Pile
            && s[j].facedown)
    &&& w <= MAX_WASTES
    &&& !(num_turn_to_waste > 1 && w > 1)
}

/// Whether the game is won; see `game_clear_spec`.
pub fn is_game_clear(cards: &Vec<CardInfo>, num_turn_to_waste: u32) -> (r: bool)
    ensures
        r == game_clear_spec(cards@, num_turn_to_waste),
{
    let ghost s = cards@;
    let mut j: usize = 0;
    while j < cards.len()
        invariant
            s == cards@,
            j <= s.len(),
            forall|k: int|
                0 <= k < j ==> #[trigger] s[k].card_type != CardType::Stock && !(s[k].card_type is Pile
                    && s[k].facedown),
        decreases s.len() - j,
    {
        let c = &cards[j];
        if let CardType::Pile(_) = c.card_type {
            if c.facedown {
                return false;
            }
        }
        if c.card_type == CardType::Stock {
            return false;
        }
        j = j + 1;
    }
    let mut num_waste: usize = 0;
    let mut i: usize = 0;
    while i < cards.len()
        invariant
            s == cards@,
            i <= s.len(),
            num_waste == indices_matching(s, in_zone(CardType::Waste), i as int).len(),
            num_waste <= i,
        decreases s.len() - i,
    {
        if cards[i].card_type == CardType::Waste {
            num_waste = num_waste + 1;
        }
        i = i + 1;
    }
    if num_waste > MAX_WASTES as usize {
        return false;
    }
    if num_turn_to_waste > 1 && num_waste > 1 {
        return false;
    }
    true
}

impl CardList {

    /// Sends every card to the foundation of its suit, at the place of its
    /// rank.
    pub fn game_clear(&mut self)
        ensures
            final(self)@.len() == old(self)@.len(),
            wf(old(self)@) ==> wf(final(self)@),
            forall|j: int|
                #![trigger final(self)@[j]]
                0 <= j < old(self)@.len() ==> final(self)@[j] == (CardInfo {
                    card_type: CardType::Foundation(old(self)@[j].card_suit),
                    order: old(self)@[j].card_number as i32,
                    dst_position: foundation_position_spec(old(self)@[j].card_suit, old(self)@[j].card_number as i32),
                    ..old(self)@[j]
                }),
    {
        let ghost s = self@;
        let mut j: usize = 0;
        while j < self.0.len()
            invariant
                s.len() == self@.len(),
                0 <= j <= s.len(),
                forall|k: int|
                    #![trigger self@[k]]
                    0 <= k < s.len() ==> if k < j {
                        self@[k] == (CardInfo {
                            card_type: CardType::Foundation(s[k].card_suit),
                            order: s[k].card_number as i32,
                            dst_position: foundation_position_spec(s[k].card_suit, s[k].card_number as i32),
                            ..s[k]
                        })
                    } else {
                        self@[k] == s[k]
                    },
            decreases s.len() - j,
        {
            let c = self.0[j];
            let order = c.card_number as i32;
            let pos = foundation_position(c.card_suit, order);
            self.0.set(j, CardInfo { card_type: CardType::Foundation(c.card_suit), order, dst_position: pos, ..c });
            j = j + 1;
        }
        proof {
            if wf(s) {
                assert forall|k: int| 0 <= k < s.len() implies #[trigger] self@[k].order == s[k].card_number by {
                    assert(deck_ok(s));
                    assert(1 <= s[k].card_number <= 13);
                }
                lemma_wf_all_home(s, self@);
            }
        }
    }

    /// Moves card `t`, and the cards above it where it lies in a tableau
    /// pile, to zone `dst`: `t` at place `order`, the others after it.
    fn relocate(&mut self, t: usize, dst: CardType, order: i32)
        requires
            wf(old(self)@),
            0 <= t < old(self)@.len(),
            relocation_allowed(old(self)@, t as int, dst, order as int),
        ensures
            relocation(old(self)@, final(self)@, t as int, dst, order as int),
            forall|j: int|
                #![trigger final(self)@[j]]
                0 <= j < old(self)@.len() ==> final(self)@[j] == (CardInfo {
                    card_type: final(self)@[j].card_type,
                    order: final(self)@[j].order,
                    ..old(self)@[j]
                }),
    {
        let ghost s = self@;
        let src = self.0[t].card_type;
        let src_order = self.0[t].order;
        proof {
            assert(deck_ok(s));
            assert(1 <= s[t as int].card_number <= 13 && valid_zone(s[t as int]));
            if let CardType::Pile(a) = src {
                assert(pile_ok(s, a));
                lemma_indices(s, in_zone(src), s.len() as int);
                assert(in_zone(src)(s[t as int]));
            }
            if let CardType::Pile(b) = dst {
                lemma_indices(s, in_zone(dst), s.len() as int);
            }
        }
        let mut j: usize = 0;
        while j < self.0.len()
            invariant
                s.len() == self@.len(),
                wf(s),
                0 <= t < s.len(),
                src == s[t as int].card_type,
                src_order == s[t as int].order,
                relocation_allowed(s, t as int, dst, order as int),
                src is Pile ==> 0 <= src_order < zone_len(s, src) <= NUM_CARDS,
                src is Pile ==> pile_ok(s, src->Pile_0),
                dst is Pile ==> 0 <= order <= NUM_CARDS,
                0 <= j <= s.len(),
                forall|k: int|
                    #![trigger self@[k]]
                    0 <= k < s.len() ==> if k < j {
                        &&& self@[k] == (CardInfo { card_type: self@[k].card_type, order: self@[k].order, ..s[k] })
                        &&& if moves_with(s, t as int, k) {
                            self@[k].card_type == dst && self@[k].order == order + s[k].order - src_order
                        } else {
                            self@[k].card_type == s[k].card_type && self@[k].order == s[k].order
                        }
                    } else {
                        self@[k] == s[k]
                    },
            decreases s.len() - j,
        {
            let c = self.0[j];
            let is_run = match src {
                CardType::Pile(_) => c.card_type == src && c.order > src_order,
                _ => false,
            };
            if j == t {
                self.0.set(j, CardInfo { card_type: dst, order: order, ..c });
            } else if is_run {
                proof {
                    assert(in_zone(src)(s[j as int]));
                    if dst is Foundation {
                        lemma_indices(s, above(src, src_order), s.len() as int);
                        assert(above(src, src_order)(s[j as int]));
                        assert(all_matching(s, above(src, src_order)).contains(j as int));
                    }
                }
                self.0.set(j, CardInfo { card_type: dst, order: order + (c.order - src_order), ..c });
            }
            j = j + 1;
        }
    }

    /// Turns the top card of tableau pile `index` face up where it lies
    /// face down; says whether it did.
    fn reveal_top(&mut self, index: u32) -> (r: bool)
        ensures
            revealed_one(old(self)@, final(self)@, CardType::Pile(index), r),
    {
        let z = CardType::Pile(index);
        let (cnt, top) = self.zone_summary(z);
        if cnt > 0 {
            proof {
                lemma_top_exists(self@, z, top as int);
            }
            if self.0[top].facedown {
                let ghost s = self@;
                let c = self.0[top];
                self.0.set(top, CardInfo { facedown: false, clickable: true, ..c });
                proof {
                    assert forall|j: int| 0 <= j < s.len() implies #[trigger] self@[j].card_suit == s[j].card_suit
                        && self@[j].card_number == s[j].card_number && self@[j].entity == s[j].entity by {
                    }
                }
                return true;
            }
        }
        false
    }

    /// Lays out tableau pile `index` anew: every card of the pile gets the
    /// place that its order and the pile's face counts give it.
    pub fn adjust_pile(&mut self, index: u32)
        requires
            index < NUM_PILES,
            old(self)@.len() <= NUM_CARDS,
        ensures
            final(self)@.len() == old(self)@.len(),
            face_kept(old(self)@, final(self)@),
            wf(old(self)@) ==> wf(final(self)@),
            laid_out(final(self)@, index),
            forall|j: int|
                #![trigger final(self)@[j]]
                0 <= j < old(self)@.len() ==> if old(self)@[j].card_type == CardType::Pile(index) {
                    only_position(
                        old(self)@[j],
                        final(self)@[j],
                        pile_position_spec(
                            index as int,
                            old(self)@[j].order as int,
                            count_matching(old(self)@, in_zone_facing(CardType::Pile(index), true)) as int,
                            count_matching(old(self)@, in_zone_facing(CardType::Pile(index), false)) as int,
                        ),
                    )
                } else {
                    final(self)@[j] == old(self)@[j]
                },
    {
        let ghost s = self@;
        let z = CardType::Pile(index);
        let num_facedown = self.num_facedown(index);
        let num_faceup = self.num_faceup(index);
        proof {
            lemma_facing_split(s, z, s.len() as int);
            lemma_indices(s, in_zone(z), s.len() as int);
        }
        let mut j: usize = 0;
        while j < self.0.len()
            invariant
                s.len() == self@.len(),
                s.len() <= NUM_CARDS,
                index < NUM_PILES,
                num_facedown == count_matching(s, in_zone_facing(z, true)),
                num_faceup == count_matching(s, in_zone_facing(z, false)),
                num_facedown + num_faceup <= NUM_CARDS,
                0 <= j <= s.len(),
                forall|k: int|
                    #![trigger self@[k]]
                    0 <= k < s.len() ==> if k < j && s[k].card_type == z {
                        only_position(
                            s[k],
                            self@[k],
                            pile_position_spec(index as int, s[k].order as int, num_facedown as int, num_faceup as int),
                        )
                    } else {
                        self@[k] == s[k]
                    },
            decreases s.len() - j,
        {
            let c = self.0[j];
            if c.card_type == z {
                let pos = calc_pile_position(index, c.order, num_facedown, num_faceup);
                self.0.set(j, CardInfo { dst_position: pos, ..c });
            }
            j = j + 1;
        }
        proof {
            lemma_only_position_kept(s, self@);
            if wf(s) {
                lemma_wf_same_settled(s, self@);
            }
            let f = self@;
            assert forall|k: int| 0 <= k < s.len() implies in_zone_facing(z, true)(#[trigger] s[k]) == in_zone_facing(z, true)(f[k])
                && in_zone_facing(z, false)(s[k]) == in_zone_facing(z, false)(f[k]) by {
                assert(f[k] == (CardInfo { dst_position: f[k].dst_position, ..s[k] }) || f[k] == s[k]);
            }
            crate::table::lemma_count_congruent(s, f, in_zone_facing(z, true), s.len() as int);
            crate::table::lemma_count_congruent(s, f, in_zone_facing(z, false), s.len() as int);
            assert forall|k: int| 0 <= k < f.len() && #[trigger] f[k].card_type == z implies f[k].dst_position == pile_position_spec(
                index as int,
                f[k].order as int,
                count_matching(f, in_zone_facing(z, true)) as int,
                count_matching(f, in_zone_facing(z, false)) as int,
            ) by {
                assert(s[k].card_type == z);
            }
        }
    }

    /// Sends card `t`, and the cards above it where it lies in a tableau
    /// pile, back to where they were before they were picked up.
    pub(crate) fn restore_run(&mut self, t: usize)
        requires
            t < old(self)@.len(),
        ensures
            final(self)@.len() == old(self)@.len(),
            face_kept(old(self)@, final(self)@),
            forall|j: int|
                #![trigger final(self)@[j]]
                0 <= j < old(self)@.len() ==> if moves_with(old(self)@, t as int, j) {
                    only_position(old(self)@[j], final(self)@[j], old(self)@[j].prev_position)
                } else {
                    final(self)@[j] == old(self)@[j]
                },
    {
        let ghost s = self@;
        let src = self.0[t].card_type;
        let src_order = self.0[t].order;
        let mut j: usize = 0;
        while j < self.0.len()
            invariant
                s.len() == self@.len(),
                t < s.len(),
                src == s[t as int].card_type,
                src_order == s[t as int].order,
                0 <= j <= s.len(),
                forall|k: int|
                    #![trigger self@[k]]
                    0 <= k < s.len() ==> if k < j && moves_with(s, t as int, k) {
                        only_position(s[k], self@[k], s[k].prev_position)
                    } else {
                        self@[k] == s[k]
                    },
            decreases s.len() - j,
        {
            let c = self.0[j];
            let is_run = match src {
                CardType::Pile(_) => c.card_type == src && c.order > src_order,
                _ => false,
            };
            if j == t || is_run {
                self.0.set(j, CardInfo { dst_position: c.prev_position, ..c });
            }
            j = j + 1;
        }
        proof {
            lemma_only_position_kept(s, self@);
        }
    }

    /// Sets where card `t` belongs.
    fn set_position(&mut self, t: usize, pos: Position)
        requires
            t < old(self)@.len(),
        ensures
            final(self)@ == old(self)@.update(t as int, (CardInfo { dst_position: pos, ..old(self)@[t as int] })),
            face_kept(old(self)@, final(self)@),
    {
        let ghost s = self@;
        let c = self.0[t];
        self.0.set(t, CardInfo { dst_position: pos, ..c });
        proof {
            lemma_only_position_kept(s, self@);
        }
    }

    /// Carries out a move request, or refuses it. A move that the rules
    /// allow takes the card, and the cards above it in a tableau pile, to
    /// the requested zone; turns up the new top card of the pile it left;
    /// lays out the piles it touched and the waste; and, where the card went
    /// home to a foundation and the game is won, sends every card home. A
    /// refused move sends the card and those above it back to where they
    /// were picked up.
    pub fn stack(&mut self, info: &StackInfo, difficulty: GameDifficulty) -> (r: StackOutcome)
        requires
            wf(old(self)@),
        ensures
            wf(final(self)@),
            !has_entity(old(self)@, info.target) ==> final(self)@ == old(self)@ && r == (StackOutcome {
                step: None,
                revealed: false,
                cleared: false,
            }),
            forall|t: int|
                #[trigger] first_with(old(self)@, info.target, t) ==> stack_effect(old(self)@, final(self)@, t, *info, r),
            forall|t: int|
                #[trigger] first_with(old(self)@, info.target, t) ==> stack_layout(old(self)@, final(self)@, t, *info, r),
            r.step is Some && info.dst is Foundation && !r.cleared ==> !game_clear_spec(
                final(self)@,
                turn_spec(difficulty),
            ),
            forall|t: int|
                #[trigger] first_with(old(self)@, info.target, t) ==> stack_rest(old(self)@, final(self)@, t, *info, r),
            forall|t: int|
                #[trigger] first_with(old(self)@, info.target, t) ==> (r.step is Some && info.dst is Foundation
                    ==> r.cleared == game_clear_spec(moved_state(old(self)@, t, *info), turn_spec(difficulty))),
    {
        let ghost s0 = self@;
        let t = match self.find(info.target) {
            None => {
                return StackOutcome { step: None, revealed: false, cleared: false };
            },
            Some(t) => t,
        };
        proof {
            assert forall|t2: int| #[trigger] first_with(s0, info.target, t2) implies t2 == t by {
                if t2 < t {
                    assert(s0[t2].entity == info.target);
                } else if t2 > t {
                    assert(s0[t as int].entity == info.target);
                }
            }
            assert(deck_ok(s0));
        }
        let step = self.check_move(t, info);
        if step.is_none() {
            self.restore_run(t);
            proof {
                lemma_wf_same_settled(s0, self@);
            }
            return StackOutcome { step: None, revealed: false, cleared: false };
        }
        let step_taken = step.unwrap();
        let revealed = self.carry_out(t, info, step_taken);
        let ghost s5 = self@;
        let mut cleared = false;
        if let CardType::Foundation(_) = info.dst {
            cleared = is_game_clear(&self.0, num_turn_to_waste(difficulty));
            if cleared {
                self.game_clear();
                proof {
                    lemma_wf_all_home(s5, self@);
                }
            }
        }
        let r = StackOutcome { step, revealed, cleared };
        proof {
            lemma_stack_finish(s0, s5, self@, t as int, *info, r);
        }
        r
    }

    /// Carries out a move that the rules allow; says whether a tableau card
    /// was turned up.
    #[verifier::rlimit(60)]
    fn carry_out(&mut self, t: usize, info: &StackInfo, step: MoveStep) -> (revealed: bool)
        requires
            wf(old(self)@),
            t < old(self)@.len(),
            legal_step(old(self)@, t as int, *info) == Some(step),
        ensures
            wf(final(self)@),
            ({
                let r0 = StackOutcome { step: Some(step), revealed, cleared: false };
                &&& stack_effect(old(self)@, final(self)@, t as int, *info, r0)
                &&& stack_layout(old(self)@, final(self)@, t as int, *info, r0)
                &&& stack_rest(old(self)@, final(self)@, t as int, *info, r0)
            }),
            forall|turn: u32|
                #[trigger] game_clear_spec(final(self)@, turn) == game_clear_spec(
                    moved_state(old(self)@, t as int, *info),
                    turn,
                ),
    {
        let ghost s0 = self@;
        let c = self.0[t];
        proof {
            assert(deck_ok(s0));
        }
        proof {
            lemma_legal_allowed(s0, t as int, *info);
            assert(1 <= s0[t as int].card_number <= 13 && valid_zone(s0[t as int]));
        }
        self.relocate(t, info.dst, info.order);
        let ghost s1 = self@;
        proof {
            lemma_wf_relocate(s0, s1, t as int, info.dst, info.order as int);
        }
        let mut revealed = false;
        let ghost mut s1r = s1;
        if let CardType::Pile(a) = c.card_type {
            revealed = self.reveal_top(a);
            proof {
                s1r = self@;
                lemma_wf_same_settled(s1, self@);
            }
            self.adjust_pile(a);
        }
        let ghost s2 = self@;
        match info.dst {
            CardType::Pile(b) => {
                self.adjust_pile(b);
            },
            CardType::Foundation(_) => {
                proof {
                    assert(s1[t as int].card_type == info.dst);
                }
                let cc = self.0[t];
                let pos = foundation_position(cc.card_suit, cc.order);
                self.set_position(t, pos);
            },
            _ => {},
        }
        let ghost s3 = self@;
        if c.card_type == CardType::Waste {
            self.fill_waste();
        }
        let ghost s5 = self@;
        proof {
            assert(settled(s1[t as int]));
            assert(s2[t as int].card_type == info.dst && s2[t as int].order == info.order && s2[t as int].card_suit == c.card_suit);
            lemma_stack_layout(s2, s3, s5, t as int, *info, c);
            if c.card_type is Pile {
                lemma_face_kept_trans(s1r, s2, s3);
            } else {
                assert(face_kept(s1r, s3));
            }
            if c.card_type == CardType::Waste {
                lemma_face_kept_trans(s1r, s3, s5);
            }
            assert(face_kept(s1r, s5));
            lemma_wf_same_settled(s1r, s5);
        }
        proof {
            let tt = t as int;
            let r0 = StackOutcome { step: Some(step), revealed, cleared: false };
            lemma_stack_effect(s0, s1, s1r, s5, s5, tt, *info, c, r0, revealed);
            lemma_stack_frame(s0, s1, s1r, s2, s3, s5, tt, *info, revealed);
            lemma_below_top(s0, s5, tt, *info);
            assert forall|turn: u32| #[trigger] game_clear_spec(s5, turn) == game_clear_spec(moved_state(s0, tt, *info), turn) by {
                lemma_clear_equiv(s0, s5, tt, *info, revealed, turn);
            }
        }
        revealed
    }

    /// The shape of the move that `info` asks of card `t`, or `None` where
    /// the rules refuse it.
    fn check_move(&self, t: usize, info: &StackInfo) -> (r: Option<MoveStep>)
        requires
            t < self@.len(),
            self@.len() <= NUM_CARDS,
        ensures
            r == legal_step(self@, t as int, *info),
    {
        let c = self.0[t];
        let lands = match info.dst {
            CardType::Pile(b) => b < NUM_PILES as u32 && match self.can_stack_pile(b, &c) {
                Some(o) => o == info.order,
                None => false,
            },
            _ => false,
        };
        let homes = match info.dst {
            CardType::Foundation(x) => x == c.card_suit && self.can_stack_foundation(&c) && info.order as i64
                == c.card_number as i64,
            _ => false,
        };
        match c.card_type {
            CardType::Waste => if lands {
                Some(MoveStep::WasteToPile)
            } else if homes {
                Some(MoveStep::WasteToFoundation)
            } else {
                None
            },
            CardType::Pile(_) => if lands && info.dst != c.card_type {
                Some(MoveStep::PileToPile)
            } else if homes && self.places_above(c.card_type, c.order).len() == 0 {
                Some(MoveStep::PileToFoundation)
            } else {
                None
            },
            CardType::Foundation(_) => {
                if lands {
                    let (cnt, top) = self.zone_summary(c.card_type);
                    proof {
                        assert(self@[t as int].card_type == c.card_type);
                        if cnt > 0 && top == t {
                        } else if cnt > 0 {
                            if is_top(self@, c.card_type, t as int) {
                                crate::cardlist::lemma_top_unique(self@, c.card_type, t as int, top as int);
                            }
                        } else {
                            lemma_indices(self@, in_zone(c.card_type), self@.len() as int);
                            assert(in_zone(c.card_type)(self@[t as int]));
                        }
                    }
                    if cnt > 0 && top == t {
                        Some(MoveStep::FoundationToPile)
                    } else {
                        None
                    }
                } else {
                    None
                }
            },
            CardType::Stock => None,
        }
    }
}

/// Changes confined to the stock and the waste leave a tableau pile's
/// size and top card as they were.
proof fn lemma_same_settled_pile(s1: Seq<CardInfo>, s2: Seq<CardInfo>, z: CardType, i: int)
    requires
        same_settled(s1, s2),
        z is Pile,
        is_top(s1, z, i),
    ensures
        zone_len(s1, z) == zone_len(s2, z),
        is_top(s2, z, i),
        top_index(s2, z) == i,
{
    assert forall|j: int| 0 <= j < s1.len() implies (#[trigger] s1[j].card_type == z) == (s2[j].card_type == z) by {
        if s1[j].card_type == z {
            assert(settled(s1[j]));
        }
        if s2[j].card_type == z {
            assert(settled(s2[j]));
        }
    }
    crate::table::lemma_zone_same(s1, s2, z);
    assert(settled(s1[i]));
    assert forall|j: int| 0 <= j < s2.len() && #[trigger] s2[j].card_type == z implies s2[j].order < s2[i].order || (s2[j].order
            == s2[i].order && j <= i) by {
        assert(settled(s2[j]));
        assert(s1[j].card_type == z);
    }
    lemma_top_exists(s2, z, i);
}

/// Setting only where cards belong keeps everything else.
proof fn lemma_only_position_kept(s1: Seq<CardInfo>, s2: Seq<CardInfo>)
    requires
        s1.len() == s2.len(),
        forall|j: int|
            #![trigger s2[j]]
            0 <= j < s1.len() ==> s2[j] == s1[j] || only_position(s1[j], s2[j], s2[j].dst_position),
    ensures
        face_kept(s1, s2),
{
    assert forall|j: int| 0 <= j < s1.len() implies #[trigger] s2[j] == (CardInfo { dst_position: s2[j].dst_position, ..s1[j] }) by {
    }
}

/// What a move leaves alone, from what each of its steps leaves alone.
proof fn lemma_stack_frame(
    s0: Seq<CardInfo>,
    s1: Seq<CardInfo>,
    s1r: Seq<CardInfo>,
    s2: Seq<CardInfo>,
    s3: Seq<CardInfo>,
    s5: Seq<CardInfo>,
    t: int,
    info: StackInfo,
    revealed: bool,
)
    requires
        0 <= t < s0.len(),
        relocation(s0, s1, t, info.dst, info.order as int),
        forall|j: int|
            #![trigger s1[j]]
            0 <= j < s0.len() ==> s1[j] == (CardInfo { card_type: s1[j].card_type, order: s1[j].order, ..s0[j] }),
        s0[t].card_type != info.dst,
        info.dst is Pile || info.dst is Foundation,
        s0[t].card_type is Pile ==> revealed_one(s1, s1r, s0[t].card_type, revealed),
        !(s0[t].card_type is Pile) ==> s1r == s1,
        s2.len() == s0.len(),
        s3.len() == s0.len(),
        s5.len() == s0.len(),
        forall|j: int|
            #![trigger s2[j]]
            0 <= j < s0.len() ==> if s0[t].card_type is Pile && s1r[j].card_type == s0[t].card_type {
                s2[j] == (CardInfo { dst_position: s2[j].dst_position, ..s1r[j] })
            } else {
                s2[j] == s1r[j]
            },
        forall|j: int|
            #![trigger s3[j]]
            0 <= j < s0.len() ==> if (info.dst is Pile && s2[j].card_type == info.dst) || (info.dst is Foundation
                && j == t) {
                s3[j] == (CardInfo { dst_position: s3[j].dst_position, ..s2[j] })
            } else {
                s3[j] == s2[j]
            },
        forall|j: int|
            #![trigger s5[j]]
            0 <= j < s0.len() ==> if s0[t].card_type == CardType::Waste && s3[j].card_type == CardType::Waste {
                s5[j] == (CardInfo {
                    order: s5[j].order,
                    clickable: s5[j].clickable,
                    dst_position: s5[j].dst_position,
                    ..s3[j]
                })
            } else {
                s5[j] == s3[j]
            },
        s0[t].card_type == CardType::Waste ==> waste_laid_out(s3, s5),
    ensures
        stack_frame(s0, s5, t, info),
        s0[t].card_type == CardType::Waste ==> waste_laid_out(s0, s5),
{
    let src = s0[t].card_type;
    let n = s0.len();
    assert forall|j: int| 0 <= j < n implies {
        &&& s1r[j].card_type == s1[j].card_type
        &&& #[trigger] s1r[j] == (CardInfo { facedown: s1r[j].facedown, clickable: s1r[j].clickable, ..s1[j] })
        &&& (s1r[j] != s1[j] ==> src is Pile && s1[j].card_type == src)
    } by {
        if src is Pile {
            let top = top_index(s1, src);
            if revealed && j == top {
                assert(zone_len(s1, src) > 0);
                lemma_some_top(s1, src);
                assert(is_top(s1, src, top));
            }
        }
    }
    assert forall|j: int| 0 <= j < n implies #[trigger] s5[j] == (CardInfo {
        card_type: s1[j].card_type,
        order: s5[j].order,
        facedown: s1r[j].facedown,
        clickable: s5[j].clickable,
        dst_position: s5[j].dst_position,
        ..s0[j]
    }) && s5[j].card_type == s1[j].card_type && (s5[j].clickable != s1r[j].clickable || s5[j].order != s1[j].order
        ==> src == CardType::Waste && s1[j].card_type == CardType::Waste) by {
        assert(s1[j] == (CardInfo { card_type: s1[j].card_type, order: s1[j].order, ..s0[j] }));
        assert(s1r[j] == (CardInfo { facedown: s1r[j].facedown, clickable: s1r[j].clickable, ..s1[j] }));
        assert(s2[j] == (CardInfo { dst_position: s2[j].dst_position, ..s1r[j] }));
        assert(s3[j] == (CardInfo { dst_position: s3[j].dst_position, ..s2[j] }));
        if src == CardType::Waste && s3[j].card_type == CardType::Waste {
            assert(s5[j] == (CardInfo { order: s5[j].order, clickable: s5[j].clickable, dst_position: s5[j].dst_position, ..s3[j] }));
            assert(s1[j].card_type == CardType::Waste);
        } else {
            assert(s5[j] == s3[j]);
        }
    }
    assert forall|j: int| 0 <= j < n implies #[trigger] s5[j] == {
        let c = s0[j];
        if moves_with(s0, t, j) {
            CardInfo { card_type: s5[j].card_type, order: s5[j].order, dst_position: s5[j].dst_position, ..c }
        } else if c.card_type == src && src is Pile {
            CardInfo { facedown: s5[j].facedown, clickable: s5[j].clickable, dst_position: s5[j].dst_position, ..c }
        } else if c.card_type == src && src == CardType::Waste {
            CardInfo { order: s5[j].order, clickable: s5[j].clickable, dst_position: s5[j].dst_position, ..c }
        } else if c.card_type == info.dst && info.dst is Pile {
            CardInfo { dst_position: s5[j].dst_position, ..c }
        } else {
            c
        }
    } by {
        let c = s0[j];
        assert(s1r[j] == (CardInfo { facedown: s1r[j].facedown, clickable: s1r[j].clickable, ..s1[j] }));
        assert(s1[j] == (CardInfo { card_type: s1[j].card_type, order: s1[j].order, ..s0[j] }));
        if moves_with(s0, t, j) {
            assert(s1[j].card_type == info.dst);
            assert(s1r[j] == s1[j]);
        } else {
            assert(s1[j].card_type == c.card_type && s1[j].order == c.order);
            if c.card_type != src {
                assert(s1r[j] == s1[j]);
            }
            if info.dst is Foundation {
                assert(j != t);
            }
        }
    }
    if src == CardType::Waste {
        let w = all_matching(s5, in_zone(CardType::Waste));
        lemma_indices(s5, in_zone(CardType::Waste), n as int);
        assert forall|k: int| 0 <= k < w.len() implies #[trigger] s3[w[k]] == s0[w[k]] by {
            let j = w[k];
            assert(in_zone(CardType::Waste)(s5[j]));
            assert(s1[j] == (CardInfo { card_type: s1[j].card_type, order: s1[j].order, ..s0[j] }));
            if moves_with(s0, t, j) {
                assert(s1[j].card_type == info.dst);
            }
            assert(!moves_with(s0, t, j));
            assert(s1r[j] == s1[j]);
        }
    }
}

/// After a card left a tableau pile, the card that lay just below it is
/// the top of what remains.
proof fn lemma_below_top(s0: Seq<CardInfo>, s: Seq<CardInfo>, t: int, info: StackInfo)
    requires
        wf(s0),
        0 <= t < s0.len(),
        s0[t].card_type != info.dst,
        s.len() == s0.len(),
        stack_frame(s0, s, t, info),
        moved_as_asked(s0, s, t, info),
    ensures
        below_top(s0, s, t),
{
    let src = s0[t].card_type;
    if let CardType::Pile(a) = src {
        assert(deck_ok(s0));
        assert(1 <= s0[t].card_number <= 13 && valid_zone(s0[t]));
        assert(pile_ok(s0, a));
        assert forall|j: int| #![trigger s0[j]] 0 <= j < s0.len() && s0[j].card_type == src && s0[j].order == s0[t].order - 1
            implies top_index(s, src) == j by {
            assert(!moves_with(s0, t, j));
            assert(s[j].card_type == src && s[j].order == s0[j].order);
            assert forall|k: int| 0 <= k < s.len() && #[trigger] s[k].card_type == src implies s[k].order < s[j].order || (
            s[k].order == s[j].order && k <= j) by {
                assert(s[k] == s[k]);
                if moves_with(s0, t, k) {
                    assert(s[k].card_type == info.dst);
                }
                assert(!moves_with(s0, t, k));
                assert(s0[k].card_type == src);
                assert(s[k].order == s0[k].order);
                assert(in_zone(src)(s0[k]) && in_zone(src)(s0[j]) && in_zone(src)(s0[t]));
                if k != t {
                    assert(crate::table::order_key()(s0[k]) != crate::table::order_key()(s0[t]));
                }
                if k != j {
                    assert(crate::table::order_key()(s0[k]) != crate::table::order_key()(s0[j]));
                }
            }
            lemma_top_exists(s, src, j);
        }
    }
}

/// Whether the game is won after a move depends only on where the cards
/// went and on the card turned up.
proof fn lemma_clear_equiv(s0: Seq<CardInfo>, s: Seq<CardInfo>, t: int, info: StackInfo, revealed: bool, turn: u32)
    requires
        wf(s0),
        0 <= t < s0.len(),
        s0[t].card_type != info.dst,
        s.len() == s0.len(),
        stack_frame(s0, s, t, info),
        moved_as_asked(s0, s, t, info),
        below_top(s0, s, t),
        s0[t].card_type is Pile ==> revealed_top(s0, s, s0[t].card_type, revealed),
        !(s0[t].card_type is Pile) ==> forall|j: int| 0 <= j < s0.len() ==> #[trigger] s[j].facedown == s0[j].facedown,
    ensures
        game_clear_spec(s, turn) == game_clear_spec(moved_state(s0, t, info), turn),
{
    let m = moved_state(s0, t, info);
    let src = s0[t].card_type;
    let n = s0.len();
    assert forall|j: int| 0 <= j < n implies #[trigger] s[j].card_type == m[j].card_type && (s[j].card_type is Pile ==> s[j].facedown
        == m[j].facedown) by {
        assert(s[j] == s[j]);
        let c = s0[j];
        if moves_with(s0, t, j) {
        } else if src is Pile && c.card_type == src {
            if c.order == s0[t].order - 1 {
                assert(top_index(s, src) == j);
                assert(zone_len(s, src) > 0) by {
                    lemma_indices(s, in_zone(src), n as int);
                    assert(in_zone(src)(s[j]));
                    assert(all_matching(s, in_zone(src)).contains(j));
                }
            } else {
                if s[j].facedown != c.facedown {
                    assert(j == top_index(s, src));
                    if s0[t].order >= 1 {
                        assert(deck_ok(s0));
                        assert(1 <= s0[t].card_number <= 13 && valid_zone(s0[t]));
                        assert(pile_ok(s0, src->Pile_0));
                        assert(in_zone(src)(s0[t]));
                        crate::table::lemma_cover_by_count(s0, in_zone(src), crate::table::order_key(), 0);
                        assert(crate::table::has_key(s0, in_zone(src), crate::table::order_key(), s0[t].order - 1));
                        let i = choose|i: int| 0 <= i < n && #[trigger] in_zone(src)(s0[i]) && crate::table::order_key()(s0[i]) == s0[t].order - 1;
                        assert(s0[i].card_type == src);
                        assert(top_index(s, src) == i);
                    } else {
                        assert(deck_ok(s0));
                        assert(1 <= s0[t].card_number <= 13 && valid_zone(s0[t]));
                        assert(pile_ok(s0, src->Pile_0));
                        assert(in_zone(src)(s0[j]));
                        assert(in_zone(src)(s0[t]));
                        assert(crate::table::order_key()(s0[j]) != crate::table::order_key()(s0[t]));
                    }
                }
            }
        } else {
            assert(s[j].facedown == c.facedown) by {
                if src is Pile {
                    if s[j].facedown != c.facedown {
                        assert(j == top_index(s, src));
                        assert(zone_len(s, src) > 0);
                        lemma_some_top(s, src);
                        assert(is_top(s, src, j));
                    }
                }
            }
        }
    }
    assert forall|j: int| 0 <= j < n implies in_zone(CardType::Waste)(#[trigger] s[j]) == in_zone(CardType::Waste)(m[j]) by {
        assert(s[j].card_type == m[j].card_type);
    }
    crate::table::lemma_count_congruent(s, m, in_zone(CardType::Waste), n as int);
    if game_clear_spec(s, turn) {
        assert forall|j: int| 0 <= j < n implies #[trigger] m[j].card_type != CardType::Stock && !(m[j].card_type is Pile
            && m[j].facedown) by {
            assert(s[j].card_type == m[j].card_type);
        }
    }
    if game_clear_spec(m, turn) {
        assert forall|j: int| 0 <= j < n implies #[trigger] s[j].card_type != CardType::Stock && !(s[j].card_type is Pile
            && s[j].facedown) by {
            assert(s[j].card_type == m[j].card_type);
        }
    }
}

/// The effect of a move request, from that of the move and of the end of
/// the game that it may bring.
proof fn lemma_stack_finish(s0: Seq<CardInfo>, s5: Seq<CardInfo>, s6: Seq<CardInfo>, t: int, info: StackInfo, r: StackOutcome)
    requires
        wf(s0),
        0 <= t < s0.len(),
        r.step is Some,
        ({
            let r0 = StackOutcome { step: r.step, revealed: r.revealed, cleared: false };
            &&& stack_effect(s0, s5, t, info, r0)
            &&& stack_layout(s0, s5, t, info, r0)
            &&& stack_rest(s0, s5, t, info, r0)
        }),
        r.cleared ==> info.dst is Foundation && s6.len() == s5.len() && forall|j: int|
            #![trigger s6[j]]
            0 <= j < s5.len() ==> s6[j].card_type == CardType::Foundation(s5[j].card_suit) && s6[j].order
                == s5[j].card_number as i32 && s6[j].entity == s5[j].entity && s6[j].card_suit == s5[j].card_suit
                && s6[j].card_number == s5[j].card_number,
        !r.cleared ==> s6 == s5,
    ensures
        stack_effect(s0, s6, t, info, r),
        stack_layout(s0, s6, t, info, r),
        stack_rest(s0, s6, t, info, r),
{
    if r.cleared {
        assert(deck_ok(s0));
        assert forall|j: int| #![trigger s6[j]] 0 <= j < s0.len() implies s6[j].card_type == CardType::Foundation(s0[j].card_suit)
            && s6[j].order == s0[j].card_number && s6[j].entity == s0[j].entity && s6[j].card_suit == s0[j].card_suit
            && s6[j].card_number == s0[j].card_number by {
            assert(s5[j].entity == s0[j].entity);
            assert(1 <= s0[j].card_number <= 13);
        }
    }
}

/// The effect of a move request, from the effects of its steps.
proof fn lemma_stack_effect(
    s0: Seq<CardInfo>,
    s1: Seq<CardInfo>,
    s1r: Seq<CardInfo>,
    s5: Seq<CardInfo>,
    s6: Seq<CardInfo>,
    t: int,
    info: StackInfo,
    c: CardInfo,
    r: StackOutcome,
    revealed: bool,
)
    requires
        wf(s0),
        0 <= t < s0.len(),
        c == s0[t],
        r.step == legal_step(s0, t, info),
        r.step is Some,
        r.revealed == revealed,
        relocation(s0, s1, t, info.dst, info.order as int),
        forall|j: int|
            #![trigger s1[j]]
            0 <= j < s0.len() ==> s1[j] == (CardInfo { card_type: s1[j].card_type, order: s1[j].order, ..s0[j] }),
        c.card_type is Pile ==> revealed_one(s1, s1r, c.card_type, revealed),
        c.card_type !is Pile ==> s1r == s1 && !revealed,
        face_kept(s1r, s5),
        r.cleared ==> info.dst is Foundation && s6.len() == s5.len() && forall|j: int|
            #![trigger s6[j]]
            0 <= j < s5.len() ==> s6[j].card_type == CardType::Foundation(s5[j].card_suit) && s6[j].order
                == s5[j].card_number as i32 && s6[j].entity == s5[j].entity && s6[j].card_suit == s5[j].card_suit
                && s6[j].card_number == s5[j].card_number,
        !r.cleared ==> s6 == s5,
    ensures
        stack_effect(s0, s6, t, info, r),
{
    let n = s0.len();
    assert(deck_ok(s0));
    assert forall|j: int| 0 <= j < n implies {
        &&& #[trigger] s1r[j].card_suit == s0[j].card_suit
        &&& s1r[j].entity == s0[j].entity
        &&& s1r[j].card_number == s0[j].card_number
        &&& s1r[j].card_type == s1[j].card_type
        &&& s1r[j].order == s1[j].order
        &&& (s1r[j].facedown != s0[j].facedown ==> revealed && j == top_index(s1, c.card_type))
        &&& (s1r[j].clickable != s0[j].clickable ==> revealed && j == top_index(s1, c.card_type))
    } by {
        assert(s1[j] == (CardInfo { card_type: s1[j].card_type, order: s1[j].order, ..s0[j] }));
        if c.card_type is Pile {
            assert(s1r[j] == s1[j] || s1r[j] == (CardInfo { facedown: false, clickable: true, ..s1[j] }));
        }
    }
    assert(same_settled(s1, s5)) by {
        assert forall|j: int| 0 <= j < n && (settled(s1[j]) || settled(#[trigger] s5[j])) implies s5[j].card_type
            == s1[j].card_type && s5[j].order == s1[j].order by {
            assert(s1r[j].card_suit == s0[j].card_suit);
        }
        assert forall|j: int| 0 <= j < n implies #[trigger] s5[j].card_suit == s1[j].card_suit && s5[j].card_number
            == s1[j].card_number && s5[j].entity == s1[j].entity by {
            assert(s1r[j].card_suit == s0[j].card_suit);
            assert(s1[j] == (CardInfo { card_type: s1[j].card_type, order: s1[j].order, ..s0[j] }));
        }
    }
    if r.cleared {
        assert forall|j: int| #![trigger s6[j]] 0 <= j < n implies s6[j].card_type == CardType::Foundation(s0[j].card_suit)
            && s6[j].order == s0[j].card_number by {
            assert(s5[j].card_suit == s1r[j].card_suit);
            assert(s1r[j].card_suit == s0[j].card_suit);
            assert(1 <= s0[j].card_number <= 13);
        }
    } else {
        assert forall|j: int| 0 <= j < n implies {
            &&& #[trigger] s6[j].entity == s0[j].entity
            &&& s6[j].card_suit == s0[j].card_suit
            &&& s6[j].card_number == s0[j].card_number
        } by {
            assert(s1r[j].card_suit == s0[j].card_suit);
        }
        assert forall|j: int| 0 <= j < n && moves_with(s0, t, j) implies #[trigger] s6[j].card_type == info.dst
            && s6[j].order == info.order + s0[j].order - s0[t].order by {
            assert(settled(s1[j]));
        }
        assert forall|j: int| 0 <= j < n && !moves_with(s0, t, j) && settled(s0[j]) implies #[trigger] s6[j].card_type
            == s0[j].card_type && s6[j].order == s0[j].order by {
            assert(settled(s1[j]));
        }
        assert(moved_as_asked(s0, s6, t, info));
        if c.card_type is Pile {
            let z = c.card_type;
            if zone_len(s1, z) > 0 {
                lemma_some_top(s1, z);
                let top = top_index(s1, z);
                assert(is_top(s1, z, top));
                lemma_same_settled_pile(s1, s5, z, top);
                assert(s5[top].facedown == s1r[top].facedown);
                assert(s1r[top].card_suit == s0[top].card_suit);
                assert forall|j: int| 0 <= j < n && #[trigger] s6[j].facedown != s0[j].facedown implies revealed && j
                    == top_index(s6, z) by {
                    assert(s1r[j].card_suit == s0[j].card_suit);
                }
                if revealed {
                    assert(s1r[top].card_type is Pile);
                    assert(s5[top].clickable == s1r[top].clickable);
                }
                assert forall|j: int| 0 <= j < n && s6[j].card_type == z && #[trigger] s6[j].clickable != s0[j].clickable
                    implies revealed && j == top_index(s6, z) by {
                    assert(s1r[j].card_suit == s0[j].card_suit);
                    assert(settled(s5[j]));
                    assert(s1r[j].card_type == z);
                }
            } else {
                assert(!revealed);
                crate::table::lemma_zone_same(s1, s5, z);
                assert forall|j: int| 0 <= j < n && #[trigger] s6[j].facedown != s0[j].facedown implies revealed && j
                    == top_index(s6, z) by {
                    assert(s1r[j].card_suit == s0[j].card_suit);
                }
                assert forall|j: int| 0 <= j < n && s6[j].card_type == z && #[trigger] s6[j].clickable != s0[j].clickable
                    implies revealed && j == top_index(s6, z) by {
                    assert(s1r[j].card_suit == s0[j].card_suit);
                    assert(settled(s5[j]));
                    assert(s1r[j].card_type == z);
                }
            }
        } else {
            assert forall|j: int| 0 <= j < n implies #[trigger] s6[j].facedown == s0[j].facedown by {
                assert(s1r[j].card_suit == s0[j].card_suit);
            }
        }
    }
}

/// A move that the rules allow keeps the invariant's side conditions.
proof fn lemma_legal_allowed(s: Seq<CardInfo>, t: int, info: StackInfo)
    requires
        wf(s),
        0 <= t < s.len(),
        legal_step(s, t, info) is Some,
    ensures
        relocation_allowed(s, t, info.dst, info.order as int),
{
    let c = s[t];
    if let CardType::Foundation(x) = c.card_type {
        lemma_foundation_top(s, x, t);
    }
    if let CardType::Foundation(x) = info.dst {
        let z = info.dst;
        if zone_len(s, z) > 0 {
            assert(foundation_accepts(s, c));
            let tt = top_index(s, z);
            assert(exists|i: int| #[trigger] is_top(s, z, i)) by {
                lemma_some_top(s, z);
            }
            lemma_foundation_top(s, x, tt);
        }
    }
}

/// A zone that holds a card has a top card.
proof fn lemma_some_top(s: Seq<CardInfo>, z: CardType)
    requires
        zone_len(s, z) > 0,
    ensures
        exists|i: int| #[trigger] is_top(s, z, i),
{
    let w = all_matching(s, in_zone(z));
    lemma_indices(s, in_zone(z), s.len() as int);
    lemma_top_in_prefix(s, z, s.len() as int);
    let i = choose|i: int| #[trigger] crate::cardlist::is_top_upto(s, z, i, s.len() as int);
    assert(is_top(s, z, i));
}

/// Among the first `n` cards, a zone that holds any has a top card.
proof fn lemma_top_in_prefix(s: Seq<CardInfo>, z: CardType, n: int)
    requires
        0 <= n <= s.len(),
        indices_matching(s, in_zone(z), n).len() > 0,
    ensures
        exists|i: int| #[trigger] crate::cardlist::is_top_upto(s, z, i, n),
    decreases n,
{
    let rest = indices_matching(s, in_zone(z), n - 1);
    if rest.len() > 0 {
        lemma_top_in_prefix(s, z, n - 1);
        let i = choose|i: int| #[trigger] crate::cardlist::is_top_upto(s, z, i, n - 1);
        if s[n - 1].card_type == z && s[n - 1].order >= s[i].order {
            assert(crate::cardlist::is_top_upto(s, z, n - 1, n));
        } else {
            assert(crate::cardlist::is_top_upto(s, z, i, n));
        }
    } else {
        assert(in_zone(z)(s[n - 1]));
        lemma_indices(s, in_zone(z), n - 1);
        assert forall|j: int| 0 <= j < n - 1 implies #[trigger] s[j].card_type != z by {
            if s[j].card_type == z {
                assert(in_zone(z)(s[j]));
            }
        }
        assert(crate::cardlist::is_top_upto(s, z, n - 1, n));
    }
}

} // verus!
