//! The waste: drawing from the stock, laying out the visible fan, and
//! turning the waste back into the stock.
use vstd::prelude::*;
use crate::card::{
    num_turn_to_waste, turn_spec, CardInfo, CardType, GameDifficulty, Position, MAX_WASTES, NUM_CARDS,
};
use crate::cardlist::{all_matching, as_usizes, in_zone, lemma_indices, CardList};
use crate::layout::{
    waste_y_spec, OFFSET_WASTE_Y, POSITION_STOCK_X, POSITION_STOCK_Y, POSITION_WASTE_X, POSITION_WASTE_Y,
};
use crate::table::{face_kept, lemma_count_congruent, lemma_wf_same_settled, same_settled, settled, wf};

verus! {

/// First of `n` waste cards that are laid out when the newest `keep` are.
pub open spec fn window_start(n: int, keep: int) -> int {
    if n > keep {
        n - keep
    } else {
        0
    }
}

/// First of the waste cards that are laid out: the newest ones, at most
/// `MAX_WASTES` of them.
pub open spec fn waste_window_start(n: int) -> int {
    window_start(n, MAX_WASTES as int)
}

/// The waste of `s` is that of `s0` with its newest `keep` cards laid out
/// in registry order, the very newest available where `newest` says so;
/// the older ones are as they were.
pub open spec fn tail_laid_out(s0: Seq<CardInfo>, s: Seq<CardInfo>, keep: int, newest: bool) -> bool {
    let w = all_matching(s, in_zone(CardType::Waste));
    let f = window_start(w.len() as int, keep);
    &&& forall|k: int| 0 <= k < f ==> s[#[trigger] w[k]] == s0[w[k]]
    &&& forall|k: int| f <= k < w.len() ==> s[#[trigger] w[k]] == waste_card(s0[w[k]], k - f, newest && k == w.len() - 1)
}

/// The waste of `s` is that of `s0` laid out: its newest cards, at most
/// `MAX_WASTES`, fan out in registry order with only the newest available;
/// the older ones are as they were.
pub open spec fn waste_laid_out(s0: Seq<CardInfo>, s: Seq<CardInfo>) -> bool {
    tail_laid_out(s0, s, MAX_WASTES as int, true)
}

/// A waste card laid out at `slot` of the visible fan.
pub open spec fn waste_card(c: CardInfo, slot: int, newest: bool) -> CardInfo {
    CardInfo {
        order: slot as i32,
        clickable: newest,
        dst_position: Position { x: POSITION_WASTE_X, y: waste_y_spec(slot) as i32, z: c.dst_position.z },
        ..c
    }
}

/// Fan slot of the first of `k` cards drawn onto a waste of `w` cards,
/// once the drawn ones fit in the fan; it sets their draw depth, in front
/// of the waste cards already shown.
pub open spec fn draw_base(w: int, k: int) -> int {
    let shown = if w < MAX_WASTES { w } else { MAX_WASTES as int };
    if shown + k > MAX_WASTES {
        MAX_WASTES - k
    } else {
        shown
    }
}

/// A card drawn from the stock as the `m`-th of `k` onto a waste of `w` cards.
pub open spec fn drawn_card(c: CardInfo, w: int, k: int, m: int) -> CardInfo {
    let order = draw_base(w, k) + m;
    CardInfo {
        card_type: CardType::Waste,
        order: order as i32,
        clickable: m == k - 1,
        facedown: false,
        dst_position: Position {
            x: POSITION_WASTE_X,
            y: waste_y_spec(order) as i32,
            z: (w + k + order) as i32,
        },
        ..c
    }
}

/// What a click on the stock did: `r` says whether the stock held a card.
/// The first cards of the stock, one or three, went face up to the waste,
/// in draw order at the front places of the fan, the last one drawn alone
/// available; the waste cards still shown moved back to the places before
/// them, and no other waste card is available; nothing else changed.
pub open spec fn draw_effect(s: Seq<CardInfo>, s2: Seq<CardInfo>, difficulty: GameDifficulty, r: bool) -> bool {
    let st = all_matching(s, in_zone(CardType::Stock));
    let w = all_matching(s, in_zone(CardType::Waste));
    let n = turn_spec(difficulty);
    let k = if n < st.len() { n as int } else { st.len() as int };
    let f = window_start(w.len() as int, draw_base(w.len() as int, k));
    &&& r == (st.len() > 0)
    &&& s2.len() == s.len()
    &&& same_settled(s, s2)
    &&& !r ==> s2 == s
    &&& r ==> {
        &&& forall|m: int| 0 <= m < k ==> s2[#[trigger] st[m]] == drawn_card(s[st[m]], w.len() as int, k, m)
        &&& forall|m: int| k <= m < st.len() ==> s2[#[trigger] st[m]] == s[st[m]]
        &&& forall|q: int| f <= q < w.len() ==> s2[#[trigger] w[q]] == waste_card(s[w[q]], q - f, false)
        &&& forall|q: int| 0 <= q < f ==> s2[#[trigger] w[q]] == (CardInfo { clickable: false, ..s[w[q]] })
        &&& forall|j: int|
            0 <= j < s.len() && s[j].card_type != CardType::Stock && s[j].card_type != CardType::Waste ==> #[trigger] s2[j]
                == s[j]
        &&& forall|j: int|
            0 <= j < s.len() && (#[trigger] s2[j]).card_type == CardType::Waste ==> (s2[j].clickable <==> j == st[k - 1])
    }
}

/// A waste card returned to the stock at place `m`.
pub open spec fn recycled_card(c: CardInfo, m: int) -> CardInfo {
    CardInfo {
        card_type: CardType::Stock,
        clickable: true,
        order: m as i32,
        facedown: true,
        dst_position: Position { x: POSITION_STOCK_X, y: POSITION_STOCK_Y, z: m as i32 },
        ..c
    }
}

fn drawn_exec(c: CardInfo, w: usize, k: usize, m: usize) -> (r: CardInfo)
    requires
        w <= NUM_CARDS,
        1 <= k <= MAX_WASTES,
        m < k,
    ensures
        r == drawn_card(c, w as int, k as int, m as int),
{
    let shown: usize = if w < MAX_WASTES as usize { w } else { MAX_WASTES as usize };
    let base: usize = if shown + k > MAX_WASTES as usize { MAX_WASTES as usize - k } else { shown };
    let order = (base + m) as i32;
    CardInfo {
        card_type: CardType::Waste,
        order,
        clickable: m == k - 1,
        facedown: false,
        dst_position: Position {
            x: POSITION_WASTE_X,
            y: POSITION_WASTE_Y - order * OFFSET_WASTE_Y,
            z: (w + k) as i32 + order,
        },
        ..c
    }
}

/// What laying out the newest `keep` waste cards comes to, from the
/// cards it set and those it left.
proof fn lemma_tail_result(s: Seq<CardInfo>, f2: Seq<CardInfo>, keep: usize, newest: bool)
    requires
        keep <= MAX_WASTES,
        f2.len() == s.len(),
        ({
            let w = all_matching(s, in_zone(CardType::Waste));
            let first = window_start(w.len() as int, keep as int);
            &&& forall|m: int| first <= m < w.len() ==> f2[#[trigger] w[m]] == waste_card(s[w[m]], m - first, newest && m == w.len() - 1)
            &&& forall|j: int|
                0 <= j < s.len() && (forall|m: int| first <= m < w.len() ==> #[trigger] w[m] != j) ==> #[trigger] f2[j] == s[j]
        }),
    ensures
            wf(s) ==> wf(f2),
            face_kept(s, f2),
            forall|j: int| 0 <= j < s.len() ==> #[trigger] f2[j].card_type == s[j].card_type,
            tail_laid_out(s, f2, keep as int, newest),
            forall|j: int|
                0 <= j < s.len() && s[j].card_type == CardType::Waste ==> #[trigger] f2[j]
                    == (CardInfo {
                    order: f2[j].order,
                    clickable: f2[j].clickable,
                    dst_position: f2[j].dst_position,
                    ..s[j]
                }),
            ({
                let s = s;
                let w = all_matching(s, in_zone(CardType::Waste));
                let f = window_start(w.len() as int, keep as int);
                &&& f2.len() == s.len()
                &&& forall|j: int|
                    0 <= j < s.len() && s[j].card_type != CardType::Waste ==> #[trigger] f2[j] == s[j]
                &&& forall|k: int| 0 <= k < f ==> f2[#[trigger] w[k]] == s[w[k]]
                &&& forall|k: int|
                    f <= k < w.len() ==> f2[#[trigger] w[k]] == waste_card(
                        s[w[k]],
                        k - f,
                        newest && k == w.len() - 1,
                    )
            }),
{
    let w = all_matching(s, in_zone(CardType::Waste));
    let n = w.len();
    let first = window_start(n as int, keep as int);
    lemma_indices(s, in_zone(CardType::Waste), s.len() as int);
            assert forall|k2: int| 0 <= k2 < first implies f2[#[trigger] w[k2]] == s[w[k2]] by {
                assert forall|m: int| first <= m < n implies #[trigger] w[m] != w[k2] by {
                    assert(w[k2] < w[m]);
                }
            }
            assert forall|j: int| 0 <= j < s.len() && s[j].card_type != CardType::Waste implies #[trigger] f2[j] == s[j] by {
                assert forall|m: int| first <= m < n implies #[trigger] w[m] != j by {
                }
            }
            assert forall|j: int| 0 <= j < s.len() implies {
                &&& #[trigger] f2[j].card_type == s[j].card_type
                &&& f2[j].card_suit == s[j].card_suit
                &&& f2[j].card_number == s[j].card_number
                &&& f2[j].entity == s[j].entity
                &&& f2[j].facedown == s[j].facedown
                &&& (s[j].card_type != CardType::Waste ==> f2[j] == s[j])
                &&& (s[j].card_type == CardType::Waste ==> f2[j] == (CardInfo {
                    order: f2[j].order,
                    clickable: f2[j].clickable,
                    dst_position: f2[j].dst_position,
                    ..s[j]
                }))
            } by {
                if s[j].card_type == CardType::Waste {
                    assert(in_zone(CardType::Waste)(s[j]));
                    assert(w.contains(j));
                    let k = choose|k: int| 0 <= k < w.len() && w[k] == j;
                    if k < first {
                        assert(f2[w[k]] == s[w[k]]);
                    } else {
                        assert(f2[w[k]] == waste_card(s[w[k]], k - first, newest && k == w.len() - 1));
                    }
                }
            }
            if wf(s) {
                lemma_wf_same_settled(s, f2);
            }
            assert forall|j: int| 0 <= j < s.len() implies in_zone(CardType::Waste)(#[trigger] s[j]) == in_zone(CardType::Waste)(f2[j]) by {
                assert(f2[j].card_type == s[j].card_type);
            }
    lemma_count_congruent(s, f2, in_zone(CardType::Waste), s.len() as int);
}

/// What a draw comes to, from what its three steps did: making the waste
/// unavailable, laying out the cards still shown, and turning over the
/// drawn ones.
proof fn lemma_draw_result(
    s: Seq<CardInfo>,
    s1: Seq<CardInfo>,
    s2: Seq<CardInfo>,
    s3: Seq<CardInfo>,
    difficulty: GameDifficulty,
    keep: int,
)
    requires
        s1.len() == s.len(),
        ({
            let st = all_matching(s, in_zone(CardType::Stock));
            let w = all_matching(s, in_zone(CardType::Waste));
            let n = turn_spec(difficulty);
            let k = if n < st.len() { n as int } else { st.len() as int };
            &&& k > 0
            &&& keep == draw_base(w.len() as int, k)
            &&& forall|j: int|
                #![trigger s1[j]]
                0 <= j < s.len() ==> s1[j] == if s[j].card_type == CardType::Waste {
                    CardInfo { clickable: false, ..s[j] }
                } else {
                    s[j]
                }
            &&& all_matching(s2, in_zone(CardType::Waste)) == w
            &&& all_matching(s2, in_zone(CardType::Stock)) == st
            &&& tail_laid_out(s1, s2, keep, false)
            &&& s2.len() == s.len()
            &&& forall|j: int| 0 <= j < s.len() && s1[j].card_type != CardType::Waste ==> #[trigger] s2[j] == s1[j]
            &&& forall|j: int| 0 <= j < s.len() ==> #[trigger] s2[j].card_type == s1[j].card_type
            &&& s3.len() == s.len()
            &&& forall|m: int| 0 <= m < k ==> s3[#[trigger] st[m]] == drawn_card(s2[st[m]], w.len() as int, k, m)
            &&& forall|m: int| k <= m < st.len() ==> s3[#[trigger] st[m]] == s2[st[m]]
            &&& forall|j: int| 0 <= j < s.len() && s2[j].card_type != CardType::Stock ==> #[trigger] s3[j] == s2[j]
        }),
    ensures
        draw_effect(s, s3, difficulty, true),
{
    let st = all_matching(s, in_zone(CardType::Stock));
    let w = all_matching(s, in_zone(CardType::Waste));
    let n = turn_spec(difficulty);
    let k = if n < st.len() { n as int } else { st.len() as int };
    let f = window_start(w.len() as int, keep);
    lemma_indices(s, in_zone(CardType::Stock), s.len() as int);
    lemma_indices(s, in_zone(CardType::Waste), s.len() as int);
    assert forall|m: int| 0 <= m < st.len() implies #[trigger] s2[st[m]] == s[st[m]] by {
        assert(s1[st[m]] == s[st[m]]);
    }
    assert forall|q: int| 0 <= q < w.len() implies #[trigger] s3[w[q]] == s2[w[q]] && s1[w[q]] == (CardInfo { clickable: false, ..s[w[q]] }) by {
        assert(s1[w[q]].card_type == CardType::Waste);
    }
    assert forall|q: int| f <= q < w.len() implies s3[#[trigger] w[q]] == waste_card(s[w[q]], q - f, false) by {
        assert(s2[w[q]] == waste_card(s1[w[q]], q - f, false));
    }
    assert forall|q: int| 0 <= q < f implies s3[#[trigger] w[q]] == (CardInfo { clickable: false, ..s[w[q]] }) by {
        assert(s2[w[q]] == s1[w[q]]);
    }
    assert forall|j: int| 0 <= j < s.len() implies {
        &&& #[trigger] s3[j].card_suit == s[j].card_suit
        &&& s3[j].card_number == s[j].card_number
        &&& s3[j].entity == s[j].entity
        &&& (settled(s[j]) || settled(s3[j]) ==> s3[j].card_type == s[j].card_type && s3[j].order == s[j].order)
        &&& (s[j].card_type != CardType::Stock && s[j].card_type != CardType::Waste ==> s3[j] == s[j])
        &&& (s3[j].card_type == CardType::Waste ==> (s3[j].clickable <==> j == st[k - 1]))
    } by {
        if s[j].card_type == CardType::Stock {
            assert(in_zone(CardType::Stock)(s[j]));
            assert(st.contains(j));
            let q = choose|q: int| 0 <= q < st.len() && st[q] == j;
            if q < k {
                assert(s3[st[q]] == drawn_card(s2[st[q]], w.len() as int, k, q));
                if q != k - 1 {
                    assert(st[q] < st[k - 1]);
                }
            } else {
                assert(s3[st[q]] == s2[st[q]]);
                assert(st[k - 1] < st[q]);
            }
        } else if s[j].card_type == CardType::Waste {
            assert(in_zone(CardType::Waste)(s[j]));
            assert(w.contains(j));
            let q = choose|q: int| 0 <= q < w.len() && w[q] == j;
            assert(s[st[k - 1]].card_type == CardType::Stock);
            if q < f {
                assert(s3[w[q]] == (CardInfo { clickable: false, ..s[w[q]] }));
            } else {
                assert(s3[w[q]] == waste_card(s[w[q]], q - f, false));
            }
        } else {
            assert(s1[j] == s[j]);
            assert(s2[j] == s1[j]);
            assert(s3[j] == s2[j]);
        }
    }
}

impl CardList {
    /// Lays out the waste: the newest cards, at most `MAX_WASTES`, fan out
    /// from the waste's place in the order they were drawn, and only the
    /// newest can be picked up.
    pub fn fill_waste(&mut self)
        ensures
            wf(old(self)@) ==> wf(final(self)@),
            face_kept(old(self)@, final(self)@),
            forall|j: int| 0 <= j < old(self)@.len() ==> #[trigger] final(self)@[j].card_type == old(self)@[j].card_type,
            waste_laid_out(old(self)@, final(self)@),
            forall|j: int|
                0 <= j < old(self)@.len() && old(self)@[j].card_type == CardType::Waste ==> #[trigger] final(self)@[j]
                    == (CardInfo {
                    order: final(self)@[j].order,
                    clickable: final(self)@[j].clickable,
                    dst_position: final(self)@[j].dst_position,
                    ..old(self)@[j]
                }),
            ({
                let s = old(self)@;
                let w = all_matching(s, in_zone(CardType::Waste));
                let f = waste_window_start(w.len() as int);
                &&& final(self)@.len() == s.len()
                &&& forall|j: int|
                    0 <= j < s.len() && s[j].card_type != CardType::Waste ==> #[trigger] final(self)@[j] == s[j]
                &&& forall|k: int| 0 <= k < f ==> final(self)@[#[trigger] w[k]] == s[w[k]]
                &&& forall|k: int|
                    f <= k < w.len() ==> final(self)@[#[trigger] w[k]] == waste_card(
                        s[w[k]],
                        k - f,
                        k == w.len() - 1,
                    )
            }),
    {
        self.lay_out_tail(MAX_WASTES as usize, true);
    }

    /// Lays out the newest `keep` waste cards, in registry order, at the
    /// first places of the fan; the newest of all can be picked up where
    /// `newest` says so, the others laid out cannot.
    #[verifier::rlimit(100)]
    fn lay_out_tail(&mut self, keep: usize, newest: bool)
        requires
            keep <= MAX_WASTES,
        ensures
            wf(old(self)@) ==> wf(final(self)@),
            face_kept(old(self)@, final(self)@),
            forall|j: int| 0 <= j < old(self)@.len() ==> #[trigger] final(self)@[j].card_type == old(self)@[j].card_type,
            tail_laid_out(old(self)@, final(self)@, keep as int, newest),
            forall|j: int|
                0 <= j < old(self)@.len() && old(self)@[j].card_type == CardType::Waste ==> #[trigger] final(self)@[j]
                    == (CardInfo {
                    order: final(self)@[j].order,
                    clickable: final(self)@[j].clickable,
                    dst_position: final(self)@[j].dst_position,
                    ..old(self)@[j]
                }),
            ({
                let s = old(self)@;
                let w = all_matching(s, in_zone(CardType::Waste));
                let f = window_start(w.len() as int, keep as int);
                &&& final(self)@.len() == s.len()
                &&& forall|j: int|
                    0 <= j < s.len() && s[j].card_type != CardType::Waste ==> #[trigger] final(self)@[j] == s[j]
                &&& forall|k: int| 0 <= k < f ==> final(self)@[#[trigger] w[k]] == s[w[k]]
                &&& forall|k: int|
                    f <= k < w.len() ==> final(self)@[#[trigger] w[k]] == waste_card(
                        s[w[k]],
                        k - f,
                        newest && k == w.len() - 1,
                    )
            }),
    {
        let ghost s = self@;
        let ghost w = all_matching(s, in_zone(CardType::Waste));
        let places = self.zone_places(CardType::Waste, self.0.len());
        proof {
            lemma_indices(s, in_zone(CardType::Waste), s.len() as int);
            assert(w.take(w.len() as int) =~= w);
        }
        let n = places.len();
        let first: usize = if n > keep { n - keep } else { 0 };
        let mut k: usize = first;
        let len = self.0.len();
        while k < n
            invariant
                s.len() == self@.len(),
                s.len() == len,
                places@ == as_usizes(w),
                n == w.len(),
                first == window_start(n as int, keep as int),
                first <= k <= n,
                n - first <= keep,
                keep <= MAX_WASTES,
                forall|m: int| 0 <= m < w.len() ==> 0 <= #[trigger] w[m] < s.len() && s[w[m]].card_type == CardType::Waste,
                forall|m1: int, m2: int| 0 <= m1 < m2 < w.len() ==> #[trigger] w[m1] < #[trigger] w[m2],
                forall|m: int| first <= m < k ==> self@[#[trigger] w[m]] == waste_card(s[w[m]], m - first, newest && m == n - 1),
                forall|j: int|
                    0 <= j < s.len() && (forall|m: int| first <= m < k ==> #[trigger] w[m] != j) ==> #[trigger] self@[j] == s[j],
            decreases n - k,
        {
            let p = places[k];
            proof {
                assert(as_usizes(w)[k as int] == w[k as int] as usize);
                assert forall|m: int| first <= m < k implies #[trigger] w[m] != w[k as int] by {
                    assert(w[m] < w[k as int]);
                }
                assert(self@[w[k as int]] == s[w[k as int]]);
                assert(p as int == w[k as int]);
            }
            let ghost prev = self@;
            let c = self.0[p];
            let slot = k - first;
            let c2 = CardInfo {
                order: slot as i32,
                clickable: newest && k == n - 1,
                dst_position: Position {
                    x: POSITION_WASTE_X,
                    y: POSITION_WASTE_Y - slot as i32 * OFFSET_WASTE_Y,
                    z: c.dst_position.z,
                },
                ..c
            };
            self.0.set(p, c2);
            proof {
                assert forall|m: int| first <= m < k + 1 implies self@[#[trigger] w[m]] == waste_card(s[w[m]], m - first, newest && m == n - 1) by {
                    if m < k {
                        assert(w[m] < w[k as int]);
                        assert(prev[w[m]] == waste_card(s[w[m]], m - first, newest && m == n - 1));
                    }
                }
                assert forall|j: int|
                    0 <= j < s.len() && (forall|m: int| first <= m < k + 1 ==> #[trigger] w[m] != j) implies #[trigger] self@[j] == s[j] by {
                    assert(w[k as int] != j);
                    assert forall|m: int| first <= m < k implies #[trigger] w[m] != j by {
                        assert(first <= m < k + 1);
                    }
                    assert(prev[j] == s[j]);
                    assert(j != p as int);
                    assert(self@[j] == prev[j]);
                }
            }
            k = k + 1;
        }
        proof {
            lemma_tail_result(s, self@, keep, newest);
        }
    }

    /// A click on the stock: draws one card, or three on the hard level,
    /// face up onto the waste, at the front places of the fan in the order
    /// drawn; the waste cards still shown move back to the places before
    /// them; only the last card drawn can be picked up. Says whether a card
    /// was drawn: with an empty stock nothing changes.
    pub fn on_click_stock(&mut self, difficulty: GameDifficulty) -> (r: bool)
        requires
            old(self)@.len() <= NUM_CARDS,
        ensures
            wf(old(self)@) ==> wf(final(self)@),
            draw_effect(old(self)@, final(self)@, difficulty, r),
    {
        let ghost s = self@;
        let ghost st = all_matching(s, in_zone(CardType::Stock));
        let ghost w = all_matching(s, in_zone(CardType::Waste));
        let n = num_turn_to_waste(difficulty);
        let turn = self.zone_places(CardType::Stock, n as usize);
        let k = turn.len();
        proof {
            lemma_indices(s, in_zone(CardType::Stock), s.len() as int);
            lemma_indices(s, in_zone(CardType::Waste), s.len() as int);
        }
        if k == 0 {
            return false;
        }
        let wl = self.hide_waste();
        let shown: usize = if wl + k < MAX_WASTES as usize { wl + k } else { MAX_WASTES as usize };
        let keep = shown - k;
        let ghost s1 = self@;
        self.lay_out_tail(keep, false);
        let ghost s2 = self@;
        proof {
            assert(keep as int == draw_base(wl as int, k as int));
            assert forall|j: int| 0 <= j < s.len() implies in_zone(CardType::Stock)(#[trigger] s[j]) == in_zone(CardType::Stock)(s2[j])
                && in_zone(CardType::Waste)(s[j]) == in_zone(CardType::Waste)(s2[j]) by {
                assert(s1[j].card_type == s[j].card_type);
                assert(s2[j].card_type == s1[j].card_type);
            }
            lemma_count_congruent(s, s2, in_zone(CardType::Stock), s.len() as int);
            lemma_count_congruent(s, s2, in_zone(CardType::Waste), s.len() as int);
        }
        self.turn_over(&turn, wl);
        proof {
            lemma_draw_result(s, s1, s2, self@, difficulty, keep as int);
            if wf(s) {
                lemma_wf_same_settled(s, self@);
            }
        }
        true
    }

    /// Makes no waste card available; gives the number of waste cards.
    fn hide_waste(&mut self) -> (wl: usize)
        ensures
            wl == all_matching(old(self)@, in_zone(CardType::Waste)).len(),
            final(self)@.len() == old(self)@.len(),
            forall|j: int|
                #![trigger final(self)@[j]]
                0 <= j < old(self)@.len() ==> final(self)@[j] == if old(self)@[j].card_type == CardType::Waste {
                    CardInfo { clickable: false, ..old(self)@[j] }
                } else {
                    old(self)@[j]
                },
    {
        let ghost s = self@;
        let mut wl: usize = 0;
        let mut j: usize = 0;
        while j < self.0.len()
            invariant
                s.len() == self@.len(),
                j <= s.len(),
                wl == crate::cardlist::indices_matching(s, in_zone(CardType::Waste), j as int).len(),
                wl <= j,
                forall|k: int|
                    #![trigger self@[k]]
                    0 <= k < s.len() ==> self@[k] == if k < j && s[k].card_type == CardType::Waste {
                        CardInfo { clickable: false, ..s[k] }
                    } else {
                        s[k]
                    },
            decreases s.len() - j,
        {
            let c = self.0[j];
            if c.card_type == CardType::Waste {
                self.0.set(j, CardInfo { clickable: false, ..c });
                wl = wl + 1;
            }
            j = j + 1;
        }
        wl
    }

    /// Turns the stock cards at `turn` face up onto a waste of `wl` cards.
    fn turn_over(&mut self, turn: &Vec<usize>, wl: usize)
        requires
            old(self)@.len() <= NUM_CARDS,
            wl <= NUM_CARDS,
            1 <= turn@.len() <= MAX_WASTES,
            ({
                let st = all_matching(old(self)@, in_zone(CardType::Stock));
                turn@.len() <= st.len() && turn@ == as_usizes(st.take(turn@.len() as int))
            }),
        ensures
            ({
                let s = old(self)@;
                let st = all_matching(s, in_zone(CardType::Stock));
                let k = turn@.len() as int;
                &&& final(self)@.len() == s.len()
                &&& forall|m: int| 0 <= m < k ==> final(self)@[#[trigger] st[m]] == drawn_card(s[st[m]], wl as int, k, m)
                &&& forall|m: int| k <= m < st.len() ==> final(self)@[#[trigger] st[m]] == s[st[m]]
                &&& forall|j: int| 0 <= j < s.len() && s[j].card_type != CardType::Stock ==> #[trigger] final(self)@[j] == s[j]
            }),
    {
        let ghost s = self@;
        let ghost st = all_matching(s, in_zone(CardType::Stock));
        let ghost kk = turn@.len() as int;
        let len = self.0.len();
        let k = turn.len();
        proof {
            lemma_indices(s, in_zone(CardType::Stock), s.len() as int);
        }
        let mut m: usize = 0;
        while m < k
            invariant
                s.len() == self@.len(),
                s.len() == len,
                len <= NUM_CARDS,
                turn@ == as_usizes(st.take(kk)),
                kk == k,
                1 <= k <= 3,
                k <= st.len(),
                wl <= NUM_CARDS,
                0 <= m <= k,
                forall|q: int| 0 <= q < st.len() ==> 0 <= #[trigger] st[q] < s.len() && s[st[q]].card_type == CardType::Stock,
                forall|q1: int, q2: int| 0 <= q1 < q2 < st.len() ==> #[trigger] st[q1] < #[trigger] st[q2],
                forall|q: int| 0 <= q < m ==> self@[#[trigger] st[q]] == drawn_card(s[st[q]], wl as int, k as int, q),
                forall|j: int|
                    0 <= j < s.len() && (forall|q: int| 0 <= q < m ==> #[trigger] st[q] != j) ==> #[trigger] self@[j] == s[j],
            decreases k - m,
        {
            let p = turn[m];
            proof {
                assert(st.take(kk)[m as int] == st[m as int]);
                assert(as_usizes(st.take(kk))[m as int] == st[m as int] as usize);
                assert forall|q: int| 0 <= q < m implies #[trigger] st[q] != st[m as int] by {
                    assert(st[q] < st[m as int]);
                }
                assert(p as int == st[m as int]);
            }
            let ghost prev = self@;
            let c = self.0[p];
            self.0.set(p, drawn_exec(c, wl, k, m));
            proof {
                assert forall|q: int| 0 <= q < m + 1 implies self@[#[trigger] st[q]] == drawn_card(s[st[q]], wl as int, k as int, q) by {
                    if q < m {
                        assert(st[q] < st[m as int]);
                        assert(prev[st[q]] == drawn_card(s[st[q]], wl as int, k as int, q));
                    }
                }
                assert forall|j: int|
                    0 <= j < s.len() && (forall|q: int| 0 <= q < m + 1 ==> #[trigger] st[q] != j) implies #[trigger] self@[j] == s[j] by {
                    assert(st[m as int] != j);
                    assert forall|q: int| 0 <= q < m implies #[trigger] st[q] != j by {
                        assert(0 <= q < m + 1);
                    }
                    assert(prev[j] == s[j]);
                }
            }
            m = m + 1;
        }
        proof {
            assert forall|j: int| 0 <= j < s.len() && s[j].card_type != CardType::Stock implies #[trigger] self@[j] == s[j] by {
                assert forall|q: int| 0 <= q < k implies #[trigger] st[q] != j by {
                }
            }
            assert forall|q: int| kk <= q < st.len() implies self@[#[trigger] st[q]] == s[st[q]] by {
                assert forall|q2: int| 0 <= q2 < k implies #[trigger] st[q2] != st[q] by {
                    assert(st[q2] < st[q]);
                }
            }
        }
    }

    /// A click on the empty stock: every waste card goes back to the
    /// stock, face down, in the order they lie in, each to be drawn again.
    /// Says whether there was any.
    pub fn on_click_stock_base(&mut self) -> (r: bool)
        ensures
            wf(old(self)@) ==> wf(final(self)@),
            ({
                let s = old(self)@;
                let w = all_matching(s, in_zone(CardType::Waste));
                &&& r == (w.len() > 0)
                &&& final(self)@.len() == s.len()
                &&& same_settled(s, final(self)@)
                &&& forall|m: int| 0 <= m < w.len() ==> final(self)@[#[trigger] w[m]] == recycled_card(s[w[m]], m)
                &&& forall|j: int| 0 <= j < s.len() && s[j].card_type != CardType::Waste ==> #[trigger] final(self)@[j] == s[j]
            }),
    {
        let ghost s = self@;
        let ghost w = all_matching(s, in_zone(CardType::Waste));
        let len = self.0.len();
        let waste = self.zone_places(CardType::Waste, len);
        proof {
            lemma_indices(s, in_zone(CardType::Waste), s.len() as int);
            assert(w.take(w.len() as int) =~= w);
        }
        let wl = waste.len();
        let mut m: usize = 0;
        while m < wl
            invariant
                s.len() == self@.len(),
                s.len() == len,
                waste@ == as_usizes(w),
                wl == w.len(),
                wl <= len,
                0 <= m <= wl,
                forall|q: int| 0 <= q < w.len() ==> 0 <= #[trigger] w[q] < s.len() && s[w[q]].card_type == CardType::Waste,
                forall|q1: int, q2: int| 0 <= q1 < q2 < w.len() ==> #[trigger] w[q1] < #[trigger] w[q2],
                forall|q: int| 0 <= q < m ==> self@[#[trigger] w[q]] == recycled_card(s[w[q]], q),
                forall|j: int|
                    0 <= j < s.len() && (forall|q: int| 0 <= q < m ==> #[trigger] w[q] != j) ==> #[trigger] self@[j] == s[j],
            decreases wl - m,
        {
            let p = waste[m];
            proof {
                assert(as_usizes(w)[m as int] == w[m as int] as usize);
                assert forall|q: int| 0 <= q < m implies #[trigger] w[q] != w[m as int] by {
                    assert(w[q] < w[m as int]);
                }
                assert(p as int == w[m as int]);
            }
            let ghost prev = self@;
            let c = self.0[p];
            let count = m as i32;
            self.0.set(p, CardInfo {
                card_type: CardType::Stock,
                clickable: true,
                order: count,
                facedown: true,
                dst_position: Position { x: POSITION_STOCK_X, y: POSITION_STOCK_Y, z: count },
                ..c
            });
            proof {
                assert forall|q: int| 0 <= q < m + 1 implies self@[#[trigger] w[q]] == recycled_card(s[w[q]], q) by {
                    if q < m {
                        assert(w[q] < w[m as int]);
                        assert(prev[w[q]] == recycled_card(s[w[q]], q));
                    }
                }
                assert forall|j: int|
                    0 <= j < s.len() && (forall|q: int| 0 <= q < m + 1 ==> #[trigger] w[q] != j) implies #[trigger] self@[j] == s[j] by {
                    assert(w[m as int] != j);
                    assert forall|q: int| 0 <= q < m implies #[trigger] w[q] != j by {
                        assert(0 <= q < m + 1);
                    }
                    assert(prev[j] == s[j]);
                }
            }
            m = m + 1;
        }
        proof {
            assert forall|j: int| 0 <= j < s.len() implies {
                &&& #[trigger] self@[j].card_suit == s[j].card_suit
                &&& self@[j].card_number == s[j].card_number
                &&& self@[j].entity == s[j].entity
                &&& (settled(s[j]) || settled(self@[j]) ==> self@[j].card_type == s[j].card_type && self@[j].order == s[j].order)
                &&& (s[j].card_type != CardType::Waste ==> self@[j] == s[j])
            } by {
                if s[j].card_type == CardType::Waste {
                    assert(in_zone(CardType::Waste)(s[j]));
                    assert(w.contains(j));
                    let q = choose|q: int| 0 <= q < w.len() && w[q] == j;
                    assert(self@[w[q]] == recycled_card(s[w[q]], q));
                } else {
                    assert forall|q: int| 0 <= q < wl implies #[trigger] w[q] != j by {
                    }
                }
            }
            if wf(s) {
                lemma_wf_same_settled(s, self@);
            }
        }
        wl > 0
    }
}

} // verus!
