//! The card registry, and the stacking rules that read it.
use vstd::prelude::*;
use crate::card::{CardInfo, CardSuit, CardType, is_red};

verus! {

/// Every card of the game, in a fixed order.
pub struct CardList(pub Vec<CardInfo>);

/// Places, in increasing order, of the cards among the first `n` that meet `p`.
pub open spec fn indices_matching(s: Seq<CardInfo>, p: spec_fn(CardInfo) -> bool, n: int) -> Seq<int>
    decreases n,
{
    if n <= 0 {
        Seq::empty()
    } else {
        let rest = indices_matching(s, p, n - 1);
        if p(s[n - 1]) {
            rest.push(n - 1)
        } else {
            rest
        }
    }
}

/// Places of all the cards that meet `p`.
pub open spec fn all_matching(s: Seq<CardInfo>, p: spec_fn(CardInfo) -> bool) -> Seq<int> {
    indices_matching(s, p, s.len() as int)
}

pub open spec fn count_matching(s: Seq<CardInfo>, p: spec_fn(CardInfo) -> bool) -> nat {
    all_matching(s, p).len()
}

pub open spec fn in_zone(z: CardType) -> spec_fn(CardInfo) -> bool {
    |c: CardInfo| c.card_type == z
}

pub open spec fn in_zone_facing(z: CardType, facedown: bool) -> spec_fn(CardInfo) -> bool {
    |c: CardInfo| c.card_type == z && c.facedown == facedown
}

/// The cards that lie above place `order` of zone `z`.
pub open spec fn above(z: CardType, order: i32) -> spec_fn(CardInfo) -> bool {
    |c: CardInfo| c.card_type == z && c.order > order
}

pub open spec fn zone_len(s: Seq<CardInfo>, z: CardType) -> nat {
    count_matching(s, in_zone(z))
}

/// Card `i` is on top of zone `z` among the first `n` cards: its place is
/// the highest, and among equal places it comes last.
pub open spec fn is_top_upto(s: Seq<CardInfo>, z: CardType, i: int, n: int) -> bool {
    &&& 0 <= i < n <= s.len()
    &&& s[i].card_type == z
    &&& forall|j: int|
        0 <= j < n && #[trigger] s[j].card_type == z ==> s[j].order < s[i].order || (s[j].order
            == s[i].order && j <= i)
}

pub open spec fn is_top(s: Seq<CardInfo>, z: CardType, i: int) -> bool {
    is_top_upto(s, z, i, s.len() as int)
}

/// The top card of a zone that holds any.
pub open spec fn top_index(s: Seq<CardInfo>, z: CardType) -> int {
    choose|i: int| is_top(s, z, i)
}

/// Landing place on tableau pile `index` for card `t`, if it may go there.
pub open spec fn pile_landing(s: Seq<CardInfo>, index: u32, t: CardInfo) -> Option<int> {
    let z = CardType::Pile(index);
    if zone_len(s, z) == 0 {
        if t.card_number == 13 {
            Some(0)
        } else {
            None
        }
    } else {
        let top = s[top_index(s, z)];
        if is_red(t.card_suit) != is_red(top.card_suit) && t.card_number + 1 == top.card_number {
            Some(zone_len(s, z) as int)
        } else {
            None
        }
    }
}

/// Card `t` may go onto the foundation of its suit.
pub open spec fn foundation_accepts(s: Seq<CardInfo>, t: CardInfo) -> bool {
    let z = CardType::Foundation(t.card_suit);
    if zone_len(s, z) == 0 {
        t.card_number == 1
    } else {
        let top = s[top_index(s, z)];
        top.card_suit == t.card_suit && t.card_number == top.card_number + 1
    }
}

/// `i` is the first card with the given identity.
pub open spec fn first_with(s: Seq<CardInfo>, entity: u64, i: int) -> bool {
    &&& 0 <= i < s.len()
    &&& s[i].entity == entity
    &&& forall|j: int| 0 <= j < i ==> s[j].entity != entity
}

pub open spec fn has_entity(s: Seq<CardInfo>, entity: u64) -> bool {
    exists|i: int| 0 <= i < s.len() && s[i].entity == entity
}

/// The cards at the given registry places.
pub open spec fn cards_at(s: Seq<CardInfo>, places: Seq<int>) -> Seq<CardInfo> {
    places.map_values(|j: int| s[j])
}

/// The cards of a sequence lie in increasing order of place.
pub open spec fn sorted_by_order(v: Seq<CardInfo>) -> bool {
    forall|i: int, j: int| 0 <= i < j < v.len() ==> #[trigger] v[i].order <= #[trigger] v[j].order
}

/// The cards of zone `z`, in registry order.
pub open spec fn zone_cards(s: Seq<CardInfo>, z: CardType) -> Seq<CardInfo> {
    cards_at(s, all_matching(s, in_zone(z)))
}

pub open spec fn as_usizes(v: Seq<int>) -> Seq<usize> {
    v.map_values(|i: int| i as usize)
}

pub proof fn lemma_indices(s: Seq<CardInfo>, p: spec_fn(CardInfo) -> bool, n: int)
    requires
        0 <= n <= s.len(),
    ensures
        indices_matching(s, p, n).len() <= n,
        forall|k: int|
            0 <= k < indices_matching(s, p, n).len() ==> 0 <= #[trigger] indices_matching(s, p, n)[k]
                < n && p(s[indices_matching(s, p, n)[k]]),
        forall|k1: int, k2: int|
            0 <= k1 < k2 < indices_matching(s, p, n).len() ==> #[trigger] indices_matching(s, p, n)[k1]
                < #[trigger] indices_matching(s, p, n)[k2],
        forall|j: int| 0 <= j < n && p(#[trigger] s[j]) ==> indices_matching(s, p, n).contains(j),
    decreases n,
{
    if n > 0 {
        lemma_indices(s, p, n - 1);
        let rest = indices_matching(s, p, n - 1);
        assert forall|j: int| 0 <= j < n && p(#[trigger] s[j]) implies indices_matching(s, p, n).contains(j) by {
            if j < n - 1 {
                let k = choose|k: int| 0 <= k < rest.len() && rest[k] == j;
                if p(s[n - 1]) {
                    assert(indices_matching(s, p, n)[k] == j);
                }
            } else {
                assert(indices_matching(s, p, n)[rest.len() as int] == j);
            }
        }
    }
}

/// The count among the first `n + 1` cards is the count among the first `n`, and one more
/// where card `n` counts.
pub proof fn lemma_indices_step(s: Seq<CardInfo>, p: spec_fn(CardInfo) -> bool, n: int)
    requires
        0 <= n,
    ensures
        indices_matching(s, p, n + 1).len() == indices_matching(s, p, n).len() + if p(s[n]) {
            1int
        } else {
            0int
        },
{
}

/// Two tops of one zone are the same card.
pub proof fn lemma_top_unique(s: Seq<CardInfo>, z: CardType, i: int, j: int)
    requires
        is_top(s, z, i),
        is_top(s, z, j),
    ensures
        i == j,
{
    assert(s[j].card_type == z);
    assert(s[i].card_type == z);
}

/// A zone that holds a card has a top card.
pub proof fn lemma_top_exists(s: Seq<CardInfo>, z: CardType, i: int)
    requires
        is_top(s, z, i),
    ensures
        top_index(s, z) == i,
{
    let t = top_index(s, z);
    lemma_top_unique(s, z, i, t);
}

impl CardList {
    pub open spec fn view(&self) -> Seq<CardInfo> {
        self.0@
    }

    /// Number of cards in zone `z` and, where there is one, its top card.
    pub(crate) fn zone_summary(&self, z: CardType) -> (r: (usize, usize))
        ensures
            r.0 == zone_len(self@, z),
            r.0 > 0 ==> is_top(self@, z, r.1 as int),
    {
        let ghost s = self@;
        let mut cnt: usize = 0;
        let mut top: usize = 0;
        let mut i: usize = 0;
        while i < self.0.len()
            invariant
                s == self@,
                i <= s.len(),
                cnt == indices_matching(s, in_zone(z), i as int).len(),
                cnt <= i,
                cnt > 0 ==> is_top_upto(s, z, top as int, i as int),
                cnt == 0 ==> forall|j: int| 0 <= j < i ==> #[trigger] s[j].card_type != z,
            decreases s.len() - i,
        {
            proof {
                lemma_indices_step(s, in_zone(z), i as int);
            }
            if self.0[i].card_type == z {
                if cnt == 0 || self.0[i].order >= self.0[top].order {
                    top = i;
                }
                cnt = cnt + 1;
            }
            i = i + 1;
        }
        (cnt, top)
    }

    /// Number of cards in zone `z` with the given face, in registry order.
    fn count_facing(&self, z: CardType, facedown: bool) -> (r: u32)
        requires
            self@.len() <= u32::MAX,
        ensures
            r == count_matching(self@, in_zone_facing(z, facedown)),
    {
        let ghost s = self@;
        let mut cnt: u32 = 0;
        let mut i: usize = 0;
        while i < self.0.len()
            invariant
                s == self@,
                s.len() <= u32::MAX,
                i <= s.len(),
                cnt == indices_matching(s, in_zone_facing(z, facedown), i as int).len(),
                cnt <= i,
            decreases s.len() - i,
        {
            proof {
                lemma_indices_step(s, in_zone_facing(z, facedown), i as int);
            }
            if self.0[i].card_type == z && self.0[i].facedown == facedown {
                cnt = cnt + 1;
            }
            i = i + 1;
        }
        cnt
    }

    /// Where, if anywhere, the registry holds the card with this identity.
    pub fn find(&self, entity: u64) -> (r: Option<usize>)
        ensures
            r matches Some(i) ==> first_with(self@, entity, i as int),
            r is None <==> !has_entity(self@, entity),
    {
        let mut i: usize = 0;
        while i < self.0.len()
            invariant
                i <= self@.len(),
                forall|j: int| 0 <= j < i ==> self@[j].entity != entity,
            decreases self@.len() - i,
        {
            if self.0[i].entity == entity {
                return Some(i);
            }
            i = i + 1;
        }
        None
    }

    /// The card with this identity.
    pub fn get(&self, entity: u64) -> (r: Option<&CardInfo>)
        ensures
            r matches Some(c) ==> exists|i: int| first_with(self@, entity, i) && *c == self@[i],
            r is None <==> !has_entity(self@, entity),
    {
        match self.find(entity) {
            Some(i) => Some(&self.0[i]),
            None => None,
        }
    }

    /// Registry places of the first `limit` cards of zone `z`.
    pub(crate) fn zone_places(&self, z: CardType, limit: usize) -> (r: Vec<usize>)
        ensures
            ({
                let all = all_matching(self@, in_zone(z));
                r@ == as_usizes(all.take(if limit < all.len() { limit as int } else { all.len() as int }))
            }),
    {
        let ghost s = self@;
        let mut v: Vec<usize> = Vec::new();
        let mut i: usize = 0;
        while i < self.0.len()
            invariant
                s == self@,
                i <= s.len(),
                ({
                    let all = indices_matching(s, in_zone(z), i as int);
                    v@ == as_usizes(all.take(if limit < all.len() { limit as int } else { all.len() as int }))
                }),
            decreases s.len() - i,
        {
            proof {
                lemma_indices(s, in_zone(z), i as int);
            }
            let ghost before = indices_matching(s, in_zone(z), i as int);
            if self.0[i].card_type == z && v.len() < limit {
                v.push(i);
                proof {
                    let after = indices_matching(s, in_zone(z), i + 1);
                    assert(after == before.push(i as int));
                    assert(after.take(after.len() as int) =~= after);
                    assert(before.take(before.len() as int) =~= before);
                    assert(as_usizes(after) =~= as_usizes(before).push(i));
                }
            } else {
                proof {
                    let after = indices_matching(s, in_zone(z), i + 1);
                    if s[i as int].card_type == z {
                        assert(after == before.push(i as int));
                        assert(after.take(limit as int) =~= before.take(limit as int));
                    }
                }
            }
            i = i + 1;
        }
        v
    }

    /// Registry places of the cards that one draw takes from the stock:
    /// the first `num` stock cards; `None` where that is no card.
    pub fn get_turn_cards_mut(&self, num: u32) -> (r: Option<Vec<usize>>)
        ensures
            ({
                let all = all_matching(self@, in_zone(CardType::Stock));
                let k = if num < all.len() { num as int } else { all.len() as int };
                match r {
                    Some(v) => k > 0 && v@ == as_usizes(all.take(k)),
                    None => k == 0,
                }
            }),
    {
        let v = self.zone_places(CardType::Stock, num as usize);
        if v.len() > 0 {
            Some(v)
        } else {
            None
        }
    }

    /// Registry places of all the waste cards; `None` where there is none.
    pub fn get_waste_cards_mut(&self) -> (r: Option<Vec<usize>>)
        ensures
            ({
                let all = all_matching(self@, in_zone(CardType::Waste));
                match r {
                    Some(v) => all.len() > 0 && v@ == as_usizes(all),
                    None => all.len() == 0,
                }
            }),
    {
        let v = self.zone_places(CardType::Waste, self.0.len());
        proof {
            let all = all_matching(self@, in_zone(CardType::Waste));
            lemma_indices(self@, in_zone(CardType::Waste), self@.len() as int);
            assert(all.take(all.len() as int) =~= all);
        }
        if v.len() > 0 {
            Some(v)
        } else {
            None
        }
    }

    /// Where card `target` lands on tableau pile `index`: on an empty pile
    /// only a king may go, at place 0; otherwise the card must be one rank
    /// below the pile's top card and of the other colour, and lands at the
    /// pile's size.
    /// The place is an `i32`, as places are: a pile of more cards than that
    /// holds has its size wrapped into range.
    pub fn can_stack_pile(&self, index: u32, target: &CardInfo) -> (r: Option<i32>)
        ensures
            r is Some == pile_landing(self@, index, *target) is Some,
            r matches Some(o) ==> o == pile_landing(self@, index, *target)->0 as i32,
            self@.len() <= i32::MAX ==> (r matches Some(o) ==> pile_landing(self@, index, *target) == Some(o as int)),
    {
        let z = CardType::Pile(index);
        let (cnt, top) = self.zone_summary(z);
        proof {
            lemma_indices(self@, in_zone(z), self@.len() as int);
        }
        if cnt == 0 {
            if target.card_number == 13 {
                Some(0)
            } else {
                None
            }
        } else {
            proof {
                lemma_top_exists(self@, z, top as int);
            }
            let card = &self.0[top];
            if is_red_suit(target.card_suit) != is_red_suit(card.card_suit) && target.card_number as u64
                + 1 == card.card_number as u64 {
                Some(#[verifier::truncate] (cnt as i32))
            } else {
                None
            }
        }
    }

    /// Whether card `target` may go onto the foundation of its suit: an
    /// ace onto an empty one, otherwise the next rank of the same suit.
    pub fn can_stack_foundation(&self, target: &CardInfo) -> (r: bool)
        ensures
            r == foundation_accepts(self@, *target),
    {
        let z = CardType::Foundation(target.card_suit);
        let (cnt, top) = self.zone_summary(z);
        if cnt == 0 {
            target.card_number == 1
        } else {
            proof {
                lemma_top_exists(self@, z, top as int);
            }
            let card = &self.0[top];
            card.card_suit == target.card_suit && target.card_number as u64 == card.card_number as u64 + 1
        }
    }

    /// Number of face-down cards in tableau pile `index`.
    pub fn num_facedown(&self, index: u32) -> (r: u32)
        requires
            self@.len() <= u32::MAX,
        ensures
            r == count_matching(self@, in_zone_facing(CardType::Pile(index), true)),
    {
        self.count_facing(CardType::Pile(index), true)
    }

    /// Number of face-up cards in tableau pile `index`.
    pub fn num_faceup(&self, index: u32) -> (r: u32)
        requires
            self@.len() <= u32::MAX,
        ensures
            r == count_matching(self@, in_zone_facing(CardType::Pile(index), false)),
    {
        self.count_facing(CardType::Pile(index), false)
    }

    /// Registry places of the cards that meet `above(z, order)`.
    pub(crate) fn places_above(&self, z: CardType, order: i32) -> (r: Vec<usize>)
        ensures
            r@ == as_usizes(all_matching(self@, above(z, order))),
    {
        let ghost s = self@;
        let mut v: Vec<usize> = Vec::new();
        let mut i: usize = 0;
        while i < self.0.len()
            invariant
                s == self@,
                i <= s.len(),
                v@ == as_usizes(indices_matching(s, above(z, order), i as int)),
            decreases s.len() - i,
        {
            if self.0[i].card_type == z && self.0[i].order > order {
                v.push(i);
                proof {
                    assert(as_usizes(indices_matching(s, above(z, order), i + 1)) =~= v@);
                }
            }
            i = i + 1;
        }
        v
    }

    /// The cards stacked on card `target`: those of its zone with a higher
    /// place, in registry order; `None` where there is none.
    pub fn get_connected_cards(&self, target: u64) -> (r: Option<Vec<CardInfo>>)
        ensures
            match r {
                Some(v) => exists|i: int|
                    #![auto]
                    first_with(self@, target, i) && {
                        let all = all_matching(self@, above(self@[i].card_type, self@[i].order));
                        all.len() > 0 && v@ == cards_at(self@, all)
                    },
                None => !has_entity(self@, target) || exists|i: int|
                    #![auto]
                    first_with(self@, target, i) && all_matching(
                        self@,
                        above(self@[i].card_type, self@[i].order),
                    ).len() == 0,
            },
    {
        match self.find(target) {
            None => None,
            Some(t) => {
                let z = self.0[t].card_type;
                let o = self.0[t].order;
                let places = self.places_above(z, o);
                let ghost all = all_matching(self@, above(z, o));
                proof {
                    lemma_indices(self@, above(z, o), self@.len() as int);
                }
                let mut v: Vec<CardInfo> = Vec::new();
                let mut k: usize = 0;
                let len = self.0.len();
                while k < places.len()
                    invariant
                        self@.len() == len,
                        places@ == as_usizes(all),
                        k <= places@.len(),
                        forall|m: int| 0 <= m < all.len() ==> 0 <= #[trigger] all[m] < self@.len(),
                        v@ == cards_at(self@, all.take(k as int)),
                    decreases places@.len() - k,
                {
                    let ghost old_v = v@;
                    assert(as_usizes(all)[k as int] == all[k as int] as usize);
                    assert(0 <= all[k as int] < self@.len());
                    v.push(self.0[places[k]]);
                    proof {
                        assert(all.take(k + 1) =~= all.take(k as int).push(all[k as int]));
                        assert(v@ == old_v.push(self@[all[k as int]]));
                        let t = all.take(k + 1);
                        assert forall|m: int| 0 <= m < k + 1 implies cards_at(self@, t)[m] == v@[m] by {
                            if m < k {
                                assert(t[m] == all.take(k as int)[m]);
                                assert(old_v[m] == cards_at(self@, all.take(k as int))[m]);
                            }
                        }
                        assert(cards_at(self@, t) =~= v@);
                    }
                    k = k + 1;
                }
                proof {
                    assert(all.take(all.len() as int) =~= all);
                }
                if v.len() > 0 {
                    Some(v)
                } else {
                    None
                }
            },
        }
    }

    /// Registry places of the cards stacked on card `target` where it lies
    /// in a tableau pile; `None` where there is none.
    pub fn get_connected_cards_mut(&self, target: u64) -> (r: Option<Vec<usize>>)
        ensures
            match r {
                Some(v) => exists|i: int|
                    #![auto]
                    first_with(self@, target, i) && self@[i].card_type is Pile && {
                        let all = all_matching(self@, above(self@[i].card_type, self@[i].order));
                        all.len() > 0 && v@ == as_usizes(all)
                    },
                None => !has_entity(self@, target) || exists|i: int|
                    #![auto]
                    first_with(self@, target, i) && (self@[i].card_type !is Pile || all_matching(
                        self@,
                        above(self@[i].card_type, self@[i].order),
                    ).len() == 0),
            },
    {
        match self.find(target) {
            None => None,
            Some(t) => {
                let z = self.0[t].card_type;
                if let CardType::Pile(_) = z {
                    let places = self.places_above(z, self.0[t].order);
                    if places.len() > 0 {
                        Some(places)
                    } else {
                        None
                    }
                } else {
                    None
                }
            },
        }
    }

    /// The cards of zone `z`, sorted by place.
    fn sorted_zone(&self, z: CardType) -> (r: Vec<CardInfo>)
        ensures
            sorted_by_order(r@),
            r@.to_multiset() == zone_cards(self@, z).to_multiset(),
            r@.len() == zone_len(self@, z),
    {
        broadcast use vstd::seq_lib::group_to_multiset_ensures, vstd::multiset::group_multiset_axioms;
        let ghost s = self@;
        let ghost all = all_matching(s, in_zone(z));
        let places = self.zone_places(z, self.0.len());
        proof {
            lemma_indices(s, in_zone(z), s.len() as int);
            assert(all.take(all.len() as int) =~= all);
        }
        let len = self.0.len();
        let mut r: Vec<CardInfo> = Vec::new();
        let mut k: usize = 0;
        while k < places.len()
            invariant
                s == self@,
                s.len() == len,
                places@ == as_usizes(all),
                k <= places@.len(),
                forall|m: int| 0 <= m < all.len() ==> 0 <= #[trigger] all[m] < s.len(),
                sorted_by_order(r@),
                r@.to_multiset() == cards_at(s, all.take(k as int)).to_multiset(),
            decreases places@.len() - k,
        {
            proof {
                assert(as_usizes(all)[k as int] == all[k as int] as usize);
            }
            let c = self.0[places[k]];
            let mut pos: usize = r.len();
            while pos > 0 && r[pos - 1].order > c.order
                invariant
                    pos <= r@.len(),
                    forall|i: int| pos <= i < r@.len() ==> #[trigger] r@[i].order > c.order,
                decreases pos,
            {
                pos = pos - 1;
            }
            let ghost before = r@;
            r.insert(pos, c);
            proof {
                assert(r@ == before.insert(pos as int, c));
                before.insert_ensures(pos as int, c);
                assert forall|i: int, j: int| 0 <= i < j < r@.len() implies #[trigger] r@[i].order <= #[trigger] r@[j].order by {
                    if j < pos {
                    } else if i < pos && j == pos {
                        assert(before[pos - 1].order <= c.order);
                        if i < pos - 1 {
                            assert(before[i].order <= before[pos - 1].order);
                        }
                    } else if i < pos {
                        assert(r@[j] == before[j - 1]);
                        assert(before[i].order <= before[j - 1].order);
                    } else if i == pos {
                        assert(r@[j] == before[j - 1]);
                    } else {
                        assert(r@[i] == before[i - 1] && r@[j] == before[j - 1]);
                    }
                }
                let a = before.subrange(0, pos as int);
                let b = before.subrange(pos as int, before.len() as int);
                assert(before =~= a + b);
                assert(r@ =~= a.push(c) + b);
                vstd::seq_lib::lemma_multiset_commutative(a, b);
                vstd::seq_lib::lemma_multiset_commutative(a.push(c), b);
                assert(c == s[all[k as int]]);
                assert(cards_at(s, all.take(k + 1)) =~= cards_at(s, all.take(k as int)).push(c));
                a.to_multiset_ensures();
                cards_at(s, all.take(k as int)).to_multiset_ensures();
                assert(a.push(c).to_multiset() =~= a.to_multiset().insert(c));
                assert(r@.to_multiset() =~= before.to_multiset().insert(c));
            }
            k = k + 1;
        }
        proof {
            assert(cards_at(s, all.take(all.len() as int)).len() == all.len());
            assert(r@.len() == r@.to_multiset().len());
            assert(cards_at(s, all.take(all.len() as int)).len() == cards_at(s, all.take(all.len() as int)).to_multiset().len());
        }
        r
    }

    /// The cards of tableau pile `index`, sorted by place; `None` where it
    /// holds none.
    pub fn get_pile_cards(&self, index: u32) -> (r: Option<Vec<CardInfo>>)
        ensures
            match r {
                Some(v) => zone_len(self@, CardType::Pile(index)) > 0 && sorted_by_order(v@) && v@.to_multiset()
                    == zone_cards(self@, CardType::Pile(index)).to_multiset(),
                None => zone_len(self@, CardType::Pile(index)) == 0,
            },
    {
        broadcast use vstd::seq_lib::group_to_multiset_ensures;
        let v = self.sorted_zone(CardType::Pile(index));
        if v.len() > 0 {
            Some(v)
        } else {
            None
        }
    }

    /// The cards on the foundation of `suit`, sorted by place; `None` where
    /// it holds none.
    pub fn get_foundation_cards(&self, suit: CardSuit) -> (r: Option<Vec<CardInfo>>)
        ensures
            match r {
                Some(v) => zone_len(self@, CardType::Foundation(suit)) > 0 && sorted_by_order(v@) && v@.to_multiset()
                    == zone_cards(self@, CardType::Foundation(suit)).to_multiset(),
                None => zone_len(self@, CardType::Foundation(suit)) == 0,
            },
    {
        broadcast use vstd::seq_lib::group_to_multiset_ensures;
        let v = self.sorted_zone(CardType::Foundation(suit));
        if v.len() > 0 {
            Some(v)
        } else {
            None
        }
    }
}

/// Whether a suit is red.
pub fn is_red_suit(s: CardSuit) -> (r: bool)
    ensures
        r == is_red(s),
{
    s == CardSuit::Heart || s == CardSuit::Diamond
}

} // verus!
