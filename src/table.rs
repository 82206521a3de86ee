//! The invariant of a game in play, and the counting facts it rests on.
use vstd::prelude::*;
use vstd::relations::injective_on;
use vstd::set_lib::{lemma_int_range, lemma_map_size, lemma_subset_equality, set_int_range};
use crate::card::{CardInfo, CardSuit, CardType, NUM_CARDS, NUM_PILES};
use crate::cardlist::{
    above, all_matching, count_matching, in_zone, indices_matching, is_top, lemma_indices, zone_len,
};

verus! {

pub open spec fn order_key() -> spec_fn(CardInfo) -> int {
    |c: CardInfo| c.order as int
}

pub open spec fn number_key() -> spec_fn(CardInfo) -> int {
    |c: CardInfo| c.card_number as int
}

/// Every card meeting `p` has a key in `lo..hi`.
pub open spec fn keys_in(
    s: Seq<CardInfo>,
    p: spec_fn(CardInfo) -> bool,
    key: spec_fn(CardInfo) -> int,
    lo: int,
    hi: int,
) -> bool {
    forall|j: int| 0 <= j < s.len() && #[trigger] p(s[j]) ==> lo <= key(s[j]) < hi
}

/// No two cards meeting `p` share a key.
pub open spec fn keys_distinct(s: Seq<CardInfo>, p: spec_fn(CardInfo) -> bool, key: spec_fn(CardInfo) -> int) -> bool {
    forall|j: int, k: int|
        0 <= j < s.len() && 0 <= k < s.len() && j != k && #[trigger] p(s[j]) && #[trigger] p(s[k])
            ==> key(s[j]) != key(s[k])
}

/// Every key in `lo..hi` belongs to a card meeting `p`.
pub open spec fn keys_cover(
    s: Seq<CardInfo>,
    p: spec_fn(CardInfo) -> bool,
    key: spec_fn(CardInfo) -> int,
    lo: int,
    hi: int,
) -> bool {
    forall|m: int| lo <= m < hi ==> #[trigger] has_key(s, p, key, m)
}

/// Some card meeting `p` has key `m`.
pub open spec fn has_key(s: Seq<CardInfo>, p: spec_fn(CardInfo) -> bool, key: spec_fn(CardInfo) -> int, m: int) -> bool {
    exists|j: int| 0 <= j < s.len() && #[trigger] p(s[j]) && key(s[j]) == m
}

pub open spec fn valid_zone(c: CardInfo) -> bool {
    match c.card_type {
        CardType::Pile(i) => i < NUM_PILES,
        _ => true,
    }
}

/// The places in tableau pile `i` are distinct and below the pile's size.
pub open spec fn pile_ok(s: Seq<CardInfo>, i: u32) -> bool {
    let z = CardType::Pile(i);
    &&& keys_in(s, in_zone(z), order_key(), 0, zone_len(s, z) as int)
    &&& keys_distinct(s, in_zone(z), order_key())
}

/// A foundation holds cards of its own suit, each at the place of its
/// rank, and no rank above its size.
pub open spec fn foundation_ok(s: Seq<CardInfo>, suit: CardSuit) -> bool {
    let z = CardType::Foundation(suit);
    &&& forall|j: int|
        0 <= j < s.len() && #[trigger] s[j].card_type == z ==> s[j].card_suit == suit && s[j].order
            == s[j].card_number
    &&& keys_in(s, in_zone(z), number_key(), 1, zone_len(s, z) as int + 1)
}

/// The registry holds each card of the deck once, each in a zone that exists.
pub open spec fn deck_ok(s: Seq<CardInfo>) -> bool {
    &&& s.len() == NUM_CARDS
    &&& forall|j: int|
        0 <= j < s.len() ==> 1 <= #[trigger] s[j].card_number <= 13 && valid_zone(s[j])
    &&& forall|j: int, k: int|
        0 <= j < s.len() && 0 <= k < s.len() && j != k ==> !(#[trigger] s[j].card_suit
            == #[trigger] s[k].card_suit && s[j].card_number == s[k].card_number)
    &&& forall|suit: CardSuit, n: u32| 1 <= n <= 13 ==> #[trigger] has_card(s, suit, n)
}

/// The registry holds the card of this suit and rank.
pub open spec fn has_card(s: Seq<CardInfo>, suit: CardSuit, n: u32) -> bool {
    exists|j: int| 0 <= j < s.len() && #[trigger] s[j].card_suit == suit && s[j].card_number == n
}

/// The invariant of a game in play.
pub open spec fn wf(s: Seq<CardInfo>) -> bool {
    &&& deck_ok(s)
    &&& forall|i: u32| i < NUM_PILES ==> #[trigger] pile_ok(s, i)
    &&& forall|suit: CardSuit| #[trigger] foundation_ok(s, suit)
}

/// The places of the cards meeting `p`, as a set.
pub proof fn lemma_count_set(s: Seq<CardInfo>, p: spec_fn(CardInfo) -> bool)
    ensures
        all_matching(s, p).to_set().finite(),
        all_matching(s, p).to_set().len() == count_matching(s, p),
        forall|j: int| #[trigger]
            all_matching(s, p).to_set().contains(j) <==> 0 <= j < s.len() && p(s[j]),
{
    let a = all_matching(s, p);
    lemma_indices(s, p, s.len() as int);
    assert(a.no_duplicates()) by {
        assert forall|x: int, y: int| 0 <= x < a.len() && 0 <= y < a.len() && x != y implies a[x]
            != a[y] by {
            if x < y {
                assert(a[x] < a[y]);
            } else {
                assert(a[y] < a[x]);
            }
        }
    }
    a.unique_seq_to_set();
    assert forall|j: int| #[trigger] a.to_set().contains(j) <==> 0 <= j < s.len() && p(s[j]) by {
        if a.to_set().contains(j) {
            assert(a.contains(j));
            let k = choose|k: int| 0 <= k < a.len() && a[k] == j;
        }
    }
}

/// Cards with distinct keys that fill `lo..hi` exactly number `hi - lo`.
pub proof fn lemma_count_by_keys(
    s: Seq<CardInfo>,
    p: spec_fn(CardInfo) -> bool,
    key: spec_fn(CardInfo) -> int,
    lo: int,
    hi: int,
)
    requires
        lo <= hi,
        keys_in(s, p, key, lo, hi),
        keys_distinct(s, p, key),
        keys_cover(s, p, key, lo, hi),
    ensures
        count_matching(s, p) == hi - lo,
{
    lemma_count_set(s, p);
    let x = all_matching(s, p).to_set();
    let f = |j: int| key(s[j]);
    assert(injective_on(f, x)) by {
        assert forall|a: int, b: int| x.contains(a) && x.contains(b) && #[trigger] f(a) == #[trigger] f(b) implies a == b by {
            if a != b {
                assert(p(s[a]) && p(s[b]));
            }
        }
    }
    assert(x.map(f) =~= set_int_range(lo, hi)) by {
        assert forall|m: int| #[trigger] x.map(f).contains(m) implies set_int_range(lo, hi).contains(m) by {
            let j = choose|j: int| x.contains(j) && f(j) == m;
            assert(p(s[j]));
        }
        assert forall|m: int| #[trigger] set_int_range(lo, hi).contains(m) implies x.map(f).contains(m) by {
            assert(has_key(s, p, key, m));
            let j = choose|j: int| 0 <= j < s.len() && #[trigger] p(s[j]) && key(s[j]) == m;
            assert(x.contains(j));
            assert(f(j) == m);
        }
    }
    lemma_map_size(x, set_int_range(lo, hi), f);
    lemma_int_range(lo, hi);
}

/// Cards with distinct keys in `lo..lo + n`, `n` of them, fill that range.
pub proof fn lemma_cover_by_count(
    s: Seq<CardInfo>,
    p: spec_fn(CardInfo) -> bool,
    key: spec_fn(CardInfo) -> int,
    lo: int,
)
    requires
        keys_in(s, p, key, lo, lo + count_matching(s, p)),
        keys_distinct(s, p, key),
    ensures
        keys_cover(s, p, key, lo, lo + count_matching(s, p)),
{
    let n = count_matching(s, p) as int;
    lemma_count_set(s, p);
    let x = all_matching(s, p).to_set();
    let f = |j: int| key(s[j]);
    assert(injective_on(f, x)) by {
        assert forall|a: int, b: int| x.contains(a) && x.contains(b) && #[trigger] f(a) == #[trigger] f(b) implies a == b by {
            if a != b {
                assert(p(s[a]) && p(s[b]));
            }
        }
    }
    let y = x.map(f);
    lemma_map_size(x, y, f);
    lemma_int_range(lo, lo + n);
    assert(y.subset_of(set_int_range(lo, lo + n))) by {
        assert forall|m: int| #[trigger] y.contains(m) implies set_int_range(lo, lo + n).contains(m) by {
            let j = choose|j: int| x.contains(j) && f(j) == m;
            assert(p(s[j]));
        }
    }
    lemma_subset_equality(y, set_int_range(lo, lo + n));
    assert forall|m: int| lo <= m < lo + n implies #[trigger] has_key(s, p, key, m) by {
        assert(set_int_range(lo, lo + n).contains(m));
        assert(y.contains(m));
        let j = choose|j: int| x.contains(j) && f(j) == m;
        assert(p(s[j]));
    }
}

/// Two registries whose cards agree on `p` count the same.
pub proof fn lemma_count_congruent(s1: Seq<CardInfo>, s2: Seq<CardInfo>, p: spec_fn(CardInfo) -> bool, n: int)
    requires
        0 <= n <= s1.len(),
        s1.len() == s2.len(),
        forall|j: int| 0 <= j < n ==> p(#[trigger] s1[j]) == p(s2[j]),
    ensures
        indices_matching(s1, p, n) == indices_matching(s2, p, n),
    decreases n,
{
    if n > 0 {
        lemma_count_congruent(s1, s2, p, n - 1);
        assert(p(s1[n - 1]) == p(s2[n - 1]));
    }
}

/// A card that lies in a tableau pile or on a foundation.
pub open spec fn settled(c: CardInfo) -> bool {
    c.card_type is Pile || c.card_type is Foundation
}

/// `s2` differs from `s1` at most in the cards of the stock and the waste,
/// and in fields other than zone, place, identity, suit and rank.
pub open spec fn same_settled(s1: Seq<CardInfo>, s2: Seq<CardInfo>) -> bool {
    &&& s1.len() == s2.len()
    &&& forall|j: int|
        0 <= j < s1.len() ==> #[trigger] s2[j].card_suit == s1[j].card_suit && s2[j].card_number
            == s1[j].card_number && s2[j].entity == s1[j].entity
    &&& forall|j: int|
        0 <= j < s1.len() && (settled(s1[j]) || settled(#[trigger] s2[j])) ==> s2[j].card_type
            == s1[j].card_type && s2[j].order == s1[j].order
}

/// A zone whose membership is the same in two registries has the same size.
pub proof fn lemma_zone_same(s1: Seq<CardInfo>, s2: Seq<CardInfo>, z: CardType)
    requires
        s1.len() == s2.len(),
        forall|j: int| 0 <= j < s1.len() ==> (#[trigger] s1[j].card_type == z) == (s2[j].card_type == z),
    ensures
        zone_len(s1, z) == zone_len(s2, z),
{
    assert forall|j: int| 0 <= j < s1.len() implies in_zone(z)(#[trigger] s1[j]) == in_zone(z)(s2[j]) by {
        assert((s1[j].card_type == z) == (s2[j].card_type == z));
    }
    lemma_count_congruent(s1, s2, in_zone(z), s1.len() as int);
}

/// Changes confined to the stock and the waste keep the invariant.
pub proof fn lemma_wf_same_settled(s1: Seq<CardInfo>, s2: Seq<CardInfo>)
    requires
        wf(s1),
        same_settled(s1, s2),
    ensures
        wf(s2),
{
    assert forall|j: int| 0 <= j < s2.len() implies 1 <= #[trigger] s2[j].card_number <= 13 && valid_zone(s2[j]) by {
        assert(1 <= s1[j].card_number <= 13 && valid_zone(s1[j]));
        assert(s2[j].card_suit == s1[j].card_suit);
        if settled(s2[j]) {
            assert(s2[j].card_type == s1[j].card_type);
        }
    }
    assert forall|suit: CardSuit, n: u32| 1 <= n <= 13 implies #[trigger] has_card(s2, suit, n) by {
        assert(has_card(s1, suit, n));
        let j = choose|j: int| 0 <= j < s1.len() && #[trigger] s1[j].card_suit == suit && s1[j].card_number == n;
        assert(s2[j].card_suit == suit);
    }
    assert forall|j: int, k: int|
        0 <= j < s2.len() && 0 <= k < s2.len() && j != k implies !(#[trigger] s2[j].card_suit
            == #[trigger] s2[k].card_suit && s2[j].card_number == s2[k].card_number) by {
        assert(s1[j].card_suit == s2[j].card_suit && s1[k].card_suit == s2[k].card_suit);
    }
    assert forall|i: u32| i < NUM_PILES implies #[trigger] pile_ok(s2, i) by {
        let z = CardType::Pile(i);
        assert forall|j: int| 0 <= j < s1.len() implies (#[trigger] s1[j].card_type == z) == (s2[j].card_type == z) by {
            assert(settled(s1[j]) || settled(s2[j]) || (s1[j].card_type != z && s2[j].card_type != z));
        }
        lemma_zone_same(s1, s2, z);
        assert(pile_ok(s1, i));
        assert forall|j: int| 0 <= j < s2.len() && #[trigger] in_zone(z)(s2[j]) implies 0 <= order_key()(s2[j]) < zone_len(s2, z) by {
            assert(in_zone(z)(s1[j]));
        }
        assert forall|j: int, k: int|
            0 <= j < s2.len() && 0 <= k < s2.len() && j != k && #[trigger] in_zone(z)(s2[j]) && #[trigger] in_zone(z)(s2[k])
            implies order_key()(s2[j]) != order_key()(s2[k]) by {
            assert(in_zone(z)(s1[j]) && in_zone(z)(s1[k]));
        }
    }
    assert forall|suit: CardSuit| #[trigger] foundation_ok(s2, suit) by {
        let z = CardType::Foundation(suit);
        assert forall|j: int| 0 <= j < s1.len() implies (#[trigger] s1[j].card_type == z) == (s2[j].card_type == z) by {
            assert(settled(s1[j]) || settled(s2[j]) || (s1[j].card_type != z && s2[j].card_type != z));
        }
        lemma_zone_same(s1, s2, z);
        assert(foundation_ok(s1, suit));
        assert forall|j: int| 0 <= j < s2.len() && #[trigger] in_zone(z)(s2[j]) implies 1 <= number_key()(s2[j]) < zone_len(s2, z) + 1 by {
            assert(in_zone(z)(s1[j]));
            assert(s2[j].card_suit == s1[j].card_suit);
        }
        assert forall|j: int| 0 <= j < s2.len() && #[trigger] s2[j].card_type == z implies s2[j].card_suit == suit && s2[j].order == s2[j].card_number by {
            assert(s1[j].card_type == z);
        }
    }
}

/// Card `j` goes along when card `t` moves: it is `t`, or lies above `t`
/// in the same tableau pile.
pub open spec fn moves_with(s: Seq<CardInfo>, t: int, j: int) -> bool {
    j == t || (s[t].card_type is Pile && s[j].card_type == s[t].card_type && s[j].order > s[t].order)
}

/// `s2` is `s1` with card `t` and the cards above it moved to zone `dst`,
/// `t` at place `order` and the others above it in their old sequence.
pub open spec fn relocation(s1: Seq<CardInfo>, s2: Seq<CardInfo>, t: int, dst: CardType, order: int) -> bool {
    &&& s1.len() == s2.len()
    &&& 0 <= t < s1.len()
    &&& forall|j: int|
        #![trigger s2[j]]
        0 <= j < s1.len() ==> {
            &&& s2[j].card_suit == s1[j].card_suit
            &&& s2[j].card_number == s1[j].card_number
            &&& if moves_with(s1, t, j) {
                s2[j].card_type == dst && s2[j].order == order + s1[j].order - s1[t].order
            } else {
                s2[j].card_type == s1[j].card_type && s2[j].order == s1[j].order
            }
        }
}

/// What a move must meet to keep the invariant: a card leaves a foundation
/// only from its top; it lands on a pile at the pile's size, or on its
/// foundation as the next rank, alone.
pub open spec fn relocation_allowed(s: Seq<CardInfo>, t: int, dst: CardType, order: int) -> bool {
    &&& (s[t].card_type is Foundation ==> s[t].card_number == zone_len(s, s[t].card_type))
    &&& match dst {
        CardType::Pile(b) => b < NUM_PILES && s[t].card_type != dst && order == zone_len(s, dst),
        CardType::Foundation(x) => {
            &&& x == s[t].card_suit
            &&& order == s[t].card_number
            &&& s[t].card_number == zone_len(s, dst) + 1
            &&& (s[t].card_type is Pile ==> count_matching(s, above(s[t].card_type, s[t].order)) == 0)
        },
        _ => false,
    }
}

/// The ranks on one foundation are distinct.
pub proof fn lemma_foundation_distinct(s: Seq<CardInfo>, x: CardSuit)
    requires
        wf(s),
    ensures
        keys_distinct(s, in_zone(CardType::Foundation(x)), number_key()),
{
    let z = CardType::Foundation(x);
    assert(foundation_ok(s, x));
    assert forall|j: int, k: int|
        0 <= j < s.len() && 0 <= k < s.len() && j != k && #[trigger] in_zone(z)(s[j]) && #[trigger] in_zone(z)(s[k])
        implies number_key()(s[j]) != number_key()(s[k]) by {
        assert(s[j].card_type == z && s[k].card_type == z);
        assert(s[j].card_suit == x && s[k].card_suit == x);
    }
}

/// Moving a card, with the cards above it, keeps the invariant.
pub proof fn lemma_wf_relocate(s1: Seq<CardInfo>, s2: Seq<CardInfo>, t: int, dst: CardType, order: int)
    requires
        wf(s1),
        relocation(s1, s2, t, dst, order),
        relocation_allowed(s1, t, dst, order),
    ensures
        wf(s2),
{
    let src = s1[t].card_type;
    let o = s1[t].order as int;
    let n = s1.len();
    if dst is Foundation && src is Pile {
        lemma_indices(s1, above(src, s1[t].order), n as int);
        assert forall|j: int| 0 <= j < n implies !(#[trigger] s1[j].card_type == src && s1[j].order > o) by {
            if s1[j].card_type == src && s1[j].order > o {
                assert(above(src, s1[t].order)(s1[j]));
                assert(all_matching(s1, above(src, s1[t].order)).contains(j));
            }
        }
    }
    if src is Foundation {
        assert(foundation_ok(s1, src->Foundation_0));
    }
    if dst is Foundation {
        assert(foundation_ok(s1, dst->Foundation_0));
        if src == dst {
            assert(in_zone(dst)(s1[t]));
        }
    }
    assert(src != dst);
    // the deck itself
    assert forall|j: int| 0 <= j < n implies 1 <= #[trigger] s2[j].card_number <= 13 && valid_zone(s2[j]) by {
        assert(1 <= s1[j].card_number <= 13 && valid_zone(s1[j]));
    }
    assert forall|suit: CardSuit, m: u32| 1 <= m <= 13 implies #[trigger] has_card(s2, suit, m) by {
        assert(has_card(s1, suit, m));
        let j = choose|j: int| 0 <= j < s1.len() && #[trigger] s1[j].card_suit == suit && s1[j].card_number == m;
        assert(s2[j].card_suit == suit);
    }
    assert forall|j: int, k: int|
        0 <= j < n && 0 <= k < n && j != k implies !(#[trigger] s2[j].card_suit
            == #[trigger] s2[k].card_suit && s2[j].card_number == s2[k].card_number) by {
        assert(s1[j].card_suit == s2[j].card_suit && s1[k].card_suit == s2[k].card_suit);
    }
    // the tableau
    assert forall|i: u32| i < NUM_PILES implies #[trigger] pile_ok(s2, i) by {
        lemma_pile_after_relocate(s1, s2, t, dst, order, i);
    }
    // the foundations
    assert forall|x: CardSuit| #[trigger] foundation_ok(s2, x) by {
        lemma_foundation_after_relocate(s1, s2, t, dst, order, x);
    }
}

proof fn lemma_pile_after_relocate(s1: Seq<CardInfo>, s2: Seq<CardInfo>, t: int, dst: CardType, order: int, i: u32)
    requires
        wf(s1),
        relocation(s1, s2, t, dst, order),
        relocation_allowed(s1, t, dst, order),
        i < NUM_PILES,
        s1[t].card_type != dst,
        dst is Foundation && s1[t].card_type is Pile ==> forall|j: int|
            0 <= j < s1.len() ==> !(#[trigger] s1[j].card_type == s1[t].card_type && s1[j].order > s1[t].order),
    ensures
        pile_ok(s2, i),
{
    let src = s1[t].card_type;
    let o = s1[t].order as int;
    let n = s1.len();
    let z = CardType::Pile(i);
    let p = in_zone(z);
    let key = order_key();
    assert(pile_ok(s1, i));
    lemma_cover_by_count(s1, p, key, 0);
    if z == src {
        assert(p(s1[t]));
        assert forall|j: int| 0 <= j < n implies #[trigger] p(s2[j]) == (p(s1[j]) && s1[j].order < o) by {
            if p(s1[j]) && j != t {
                assert(key(s1[j]) != key(s1[t]));
            }
        }
        assert forall|m: int| 0 <= m < o implies #[trigger] has_key(s2, p, key, m) by {
            assert(has_key(s1, p, key, m));
            let j = choose|j: int| 0 <= j < n && #[trigger] p(s1[j]) && key(s1[j]) == m;
            assert(p(s2[j]) && key(s2[j]) == m);
        }
        assert forall|j: int, k: int|
            0 <= j < n && 0 <= k < n && j != k && #[trigger] p(s2[j]) && #[trigger] p(s2[k])
            implies key(s2[j]) != key(s2[k]) by {
            assert(p(s1[j]) && p(s1[k]));
        }
        lemma_count_by_keys(s2, p, key, 0, o);
    } else if z == dst {
        let kb = zone_len(s1, z) as int;
        let hi = if src is Pile { kb + zone_len(s1, src) - o } else { kb + 1 };
        if src is Pile {
            assert(deck_ok(s1));
            assert(0 <= t < s1.len());
            assert(1 <= s1[t].card_number <= 13 && valid_zone(s1[t]));
            assert(pile_ok(s1, src->Pile_0));
            assert(in_zone(src)(s1[t]));
            lemma_cover_by_count(s1, in_zone(src), key, 0);
        }
        assert forall|j: int| 0 <= j < n implies #[trigger] p(s2[j]) == (p(s1[j]) || moves_with(s1, t, j)) by {
        }
        assert forall|j: int| 0 <= j < n && #[trigger] p(s2[j]) implies 0 <= key(s2[j]) < hi by {
            if moves_with(s1, t, j) && src is Pile {
                assert(in_zone(src)(s1[j]));
            }
            if !moves_with(s1, t, j) {
                assert(p(s1[j]));
            }
        }
        assert forall|j: int, k: int|
            0 <= j < n && 0 <= k < n && j != k && #[trigger] p(s2[j]) && #[trigger] p(s2[k])
            implies key(s2[j]) != key(s2[k]) by {
            if moves_with(s1, t, j) && moves_with(s1, t, k) {
                assert(in_zone(src)(s1[j]) && in_zone(src)(s1[k]));
            } else if !moves_with(s1, t, j) && !moves_with(s1, t, k) {
                assert(p(s1[j]) && p(s1[k]));
            } else if moves_with(s1, t, j) {
                assert(p(s1[k]));
                if src is Pile {
                    assert(in_zone(src)(s1[j]));
                }
            } else {
                assert(p(s1[j]));
                if src is Pile {
                    assert(in_zone(src)(s1[k]));
                }
            }
        }
        assert forall|m: int| 0 <= m < hi implies #[trigger] has_key(s2, p, key, m) by {
            if m < kb {
                assert(has_key(s1, p, key, m));
                let j = choose|j: int| 0 <= j < n && #[trigger] p(s1[j]) && key(s1[j]) == m;
                assert(p(s2[j]) && key(s2[j]) == m);
            } else if src is Pile {
                let mm = m - kb + o;
                assert(has_key(s1, in_zone(src), key, mm));
                let j = choose|j: int| 0 <= j < n && #[trigger] in_zone(src)(s1[j]) && key(s1[j]) == mm;
                assert(moves_with(s1, t, j));
                assert(p(s2[j]) && key(s2[j]) == m);
            } else {
                assert(moves_with(s1, t, t));
                assert(p(s2[t]) && key(s2[t]) == m);
            }
        }
        lemma_count_by_keys(s2, p, key, 0, hi);
    } else {
        assert forall|j: int| 0 <= j < n implies (#[trigger] s1[j].card_type == z) == (s2[j].card_type == z) by {
            if moves_with(s1, t, j) {
                assert(s1[j].card_type == src);
            }
        }
        lemma_zone_same(s1, s2, z);
        assert forall|j: int| 0 <= j < n && #[trigger] p(s2[j]) implies 0 <= key(s2[j]) < zone_len(s2, z) by {
            assert(p(s1[j]));
            if moves_with(s1, t, j) {
                assert(s1[j].card_type == src);
            }
        }
        assert forall|j: int, k: int|
            0 <= j < n && 0 <= k < n && j != k && #[trigger] p(s2[j]) && #[trigger] p(s2[k])
            implies key(s2[j]) != key(s2[k]) by {
            assert(p(s1[j]) && p(s1[k]));
            if moves_with(s1, t, j) {
                assert(s1[j].card_type == src);
            }
            if moves_with(s1, t, k) {
                assert(s1[k].card_type == src);
            }
        }
    }
}

proof fn lemma_foundation_after_relocate(
    s1: Seq<CardInfo>,
    s2: Seq<CardInfo>,
    t: int,
    dst: CardType,
    order: int,
    x: CardSuit,
)
    requires
        wf(s1),
        relocation(s1, s2, t, dst, order),
        relocation_allowed(s1, t, dst, order),
        s1[t].card_type != dst,
        dst is Foundation && s1[t].card_type is Pile ==> forall|j: int|
            0 <= j < s1.len() ==> !(#[trigger] s1[j].card_type == s1[t].card_type && s1[j].order > s1[t].order),
    ensures
        foundation_ok(s2, x),
{
    let src = s1[t].card_type;
    let n = s1.len();
    let z = CardType::Foundation(x);
    let p = in_zone(z);
    let key = number_key();
    assert(foundation_ok(s1, x));
    lemma_foundation_distinct(s1, x);
    lemma_cover_by_count(s1, p, key, 1);
    let k = zone_len(s1, z) as int;
    if z == src {
        assert(p(s1[t]));
        assert forall|j: int| 0 <= j < n implies moves_with(s1, t, j) == (j == t) by {
        }
        assert forall|j: int| 0 <= j < n implies #[trigger] p(s2[j]) == (p(s1[j]) && j != t) by {
        }
        assert forall|j: int| 0 <= j < n && #[trigger] p(s2[j]) implies 1 <= key(s2[j]) < k by {
            assert(p(s1[j]));
            assert(key(s1[j]) != key(s1[t]));
        }
        assert forall|m: int| 1 <= m < k implies #[trigger] has_key(s2, p, key, m) by {
            assert(has_key(s1, p, key, m));
            let j = choose|j: int| 0 <= j < n && #[trigger] p(s1[j]) && key(s1[j]) == m;
            assert(p(s2[j]) && key(s2[j]) == m);
        }
        assert forall|j: int, l: int|
            0 <= j < n && 0 <= l < n && j != l && #[trigger] p(s2[j]) && #[trigger] p(s2[l])
            implies key(s2[j]) != key(s2[l]) by {
            assert(p(s1[j]) && p(s1[l]));
        }
        lemma_count_by_keys(s2, p, key, 1, k);
        assert forall|j: int| 0 <= j < n && #[trigger] s2[j].card_type == z implies s2[j].card_suit == x && s2[j].order == s2[j].card_number by {
            assert(s1[j].card_type == z);
        }
    } else if z == dst {
        assert forall|j: int| 0 <= j < n implies moves_with(s1, t, j) == (j == t) by {
        }
        assert forall|j: int| 0 <= j < n implies #[trigger] p(s2[j]) == (p(s1[j]) || j == t) by {
        }
        assert forall|j: int| 0 <= j < n && #[trigger] p(s2[j]) implies 1 <= key(s2[j]) < k + 2 by {
            if j != t {
                assert(p(s1[j]));
            }
        }
        assert forall|m: int| 1 <= m < k + 2 implies #[trigger] has_key(s2, p, key, m) by {
            if m <= k {
                assert(has_key(s1, p, key, m));
                let j = choose|j: int| 0 <= j < n && #[trigger] p(s1[j]) && key(s1[j]) == m;
                assert(p(s2[j]) && key(s2[j]) == m);
            } else {
                assert(p(s2[t]) && key(s2[t]) == m);
            }
        }
        assert forall|j: int, l: int|
            0 <= j < n && 0 <= l < n && j != l && #[trigger] p(s2[j]) && #[trigger] p(s2[l])
            implies key(s2[j]) != key(s2[l]) by {
            if j != t && l != t {
                assert(p(s1[j]) && p(s1[l]));
            } else if j == t {
                assert(p(s1[l]));
            } else {
                assert(p(s1[j]));
            }
        }
        lemma_count_by_keys(s2, p, key, 1, k + 2);
        assert forall|j: int| 0 <= j < n && #[trigger] s2[j].card_type == z implies s2[j].card_suit == x && s2[j].order == s2[j].card_number by {
            if j != t {
                assert(s1[j].card_type == z);
            }
        }
    } else {
        assert forall|j: int| 0 <= j < n implies (#[trigger] s1[j].card_type == z) == (s2[j].card_type == z) by {
            if moves_with(s1, t, j) {
                assert(s1[j].card_type == src);
            }
        }
        lemma_zone_same(s1, s2, z);
        assert forall|j: int| 0 <= j < n && #[trigger] p(s2[j]) implies 1 <= key(s2[j]) < zone_len(s2, z) + 1 by {
            assert(p(s1[j]));
        }
        assert forall|j: int| 0 <= j < n && #[trigger] s2[j].card_type == z implies s2[j].card_suit == x && s2[j].order == s2[j].card_number by {
            assert(s1[j].card_type == z);
            if moves_with(s1, t, j) {
                assert(s1[j].card_type == src);
            }
        }
    }
}

/// The top card of a foundation holds the foundation's highest rank, its size.
pub proof fn lemma_foundation_top(s: Seq<CardInfo>, x: CardSuit, t: int)
    requires
        wf(s),
        is_top(s, CardType::Foundation(x), t),
    ensures
        s[t].card_number == zone_len(s, CardType::Foundation(x)),
{
    let z = CardType::Foundation(x);
    let k = zone_len(s, z) as int;
    assert(foundation_ok(s, x));
    lemma_foundation_distinct(s, x);
    lemma_cover_by_count(s, in_zone(z), number_key(), 1);
    assert(in_zone(z)(s[t]));
    assert(has_key(s, in_zone(z), number_key(), k));
    let j = choose|j: int| 0 <= j < s.len() && #[trigger] in_zone(z)(s[j]) && number_key()(s[j]) == k;
    assert(s[j].card_type == z);
}

/// Every card on the foundation of its suit at the place of its rank:
/// the invariant holds.
pub proof fn lemma_wf_all_home(s1: Seq<CardInfo>, s2: Seq<CardInfo>)
    requires
        wf(s1),
        s1.len() == s2.len(),
        forall|j: int|
            #![trigger s2[j]]
            0 <= j < s1.len() ==> s2[j].card_suit == s1[j].card_suit && s2[j].card_number
                == s1[j].card_number && s2[j].card_type == CardType::Foundation(s1[j].card_suit)
                && s2[j].order == s1[j].card_number,
    ensures
        wf(s2),
{
    let n = s1.len();
    assert forall|j: int| 0 <= j < n implies 1 <= #[trigger] s2[j].card_number <= 13 && valid_zone(s2[j]) by {
        assert(1 <= s1[j].card_number <= 13);
    }
    assert forall|suit: CardSuit, m: u32| 1 <= m <= 13 implies #[trigger] has_card(s2, suit, m) by {
        assert(has_card(s1, suit, m));
        let j = choose|j: int| 0 <= j < s1.len() && #[trigger] s1[j].card_suit == suit && s1[j].card_number == m;
        assert(s2[j].card_suit == suit);
    }
    assert forall|j: int, k: int|
        0 <= j < n && 0 <= k < n && j != k implies !(#[trigger] s2[j].card_suit
            == #[trigger] s2[k].card_suit && s2[j].card_number == s2[k].card_number) by {
        assert(s1[j].card_suit == s2[j].card_suit && s1[k].card_suit == s2[k].card_suit);
    }
    assert forall|i: u32| i < NUM_PILES implies #[trigger] pile_ok(s2, i) by {
        let z = CardType::Pile(i);
        assert forall|j: int| 0 <= j < n && #[trigger] in_zone(z)(s2[j]) implies 0 <= order_key()(s2[j]) < zone_len(s2, z) by {
        }
    }
    assert forall|x: CardSuit| #[trigger] foundation_ok(s2, x) by {
        let z = CardType::Foundation(x);
        let p = in_zone(z);
        let key = number_key();
        assert forall|j: int| 0 <= j < n && #[trigger] p(s2[j]) implies 1 <= key(s2[j]) < 14 by {
            assert(1 <= s1[j].card_number <= 13);
        }
        assert forall|j: int, k: int|
            0 <= j < n && 0 <= k < n && j != k && #[trigger] p(s2[j]) && #[trigger] p(s2[k])
            implies key(s2[j]) != key(s2[k]) by {
            assert(s1[j].card_suit == s2[j].card_suit && s1[k].card_suit == s2[k].card_suit);
        }
        assert forall|m: int| 1 <= m < 14 implies #[trigger] has_key(s2, p, key, m) by {
            assert(has_card(s1, x, m as u32));
            let j = choose|j: int| 0 <= j < s1.len() && #[trigger] s1[j].card_suit == x && s1[j].card_number == m as u32;
            assert(p(s2[j]) && key(s2[j]) == m);
        }
        lemma_count_by_keys(s2, p, key, 1, 14);
    }
}

/// `s2` is `s1` but for the layout of cards and for the zone, place and
/// pick-up state of stock and waste cards: no card turned over, and no
/// tableau card changed whether it can be picked up.
pub open spec fn face_kept(s1: Seq<CardInfo>, s2: Seq<CardInfo>) -> bool {
    &&& same_settled(s1, s2)
    &&& forall|j: int|
        #![trigger s2[j]]
        0 <= j < s1.len() ==> s2[j].facedown == s1[j].facedown && (s1[j].card_type is Pile
            ==> s2[j].clickable == s1[j].clickable)
}

pub proof fn lemma_face_kept_trans(a: Seq<CardInfo>, b: Seq<CardInfo>, c: Seq<CardInfo>)
    requires
        face_kept(a, b),
        face_kept(b, c),
    ensures
        face_kept(a, c),
{
    assert forall|j: int| 0 <= j < a.len() && (settled(a[j]) || settled(#[trigger] c[j])) implies c[j].card_type
        == a[j].card_type && c[j].order == a[j].order by {
        assert(b[j].card_suit == a[j].card_suit);
        assert(c[j].card_suit == b[j].card_suit);
        if settled(a[j]) {
            assert(settled(b[j]));
        } else {
            assert(settled(b[j]));
        }
    }
    assert forall|j: int| 0 <= j < a.len() implies #[trigger] c[j].card_suit == a[j].card_suit && c[j].card_number
            == a[j].card_number && c[j].entity == a[j].entity by {
        assert(b[j].card_suit == a[j].card_suit);
        assert(c[j].card_suit == b[j].card_suit);
    }
    assert forall|j: int| 0 <= j < a.len() implies c[j].facedown == a[j].facedown && (a[j].card_type is Pile
            ==> #[trigger] c[j].clickable == a[j].clickable) by {
        assert(b[j].facedown == a[j].facedown);
        assert(c[j].facedown == b[j].facedown);
        assert(b[j].card_suit == a[j].card_suit);
        if a[j].card_type is Pile {
            assert(settled(a[j]));
            assert(b[j].card_type == a[j].card_type);
        }
    }
}

/// Some card lies at place `m` of tableau pile `i`.
pub open spec fn pile_has_place(s: Seq<CardInfo>, i: u32, m: int) -> bool {
    exists|j: int| 0 <= j < s.len() && #[trigger] s[j].card_type == CardType::Pile(i) && s[j].order == m
}

/// The foundation of suit `x` holds the card of rank `m`.
pub open spec fn foundation_has_rank(s: Seq<CardInfo>, x: CardSuit, m: int) -> bool {
    exists|j: int| 0 <= j < s.len() && #[trigger] s[j].card_type == CardType::Foundation(x) && s[j].card_number == m
}

/// In a game in play, every card lies in exactly one of the thirteen zones
/// (the stock, the waste, seven tableau piles, four foundations), and the
/// places in each tableau pile run from 0 to its size less one, each held
/// by exactly one card.
pub proof fn lemma_tableau_contiguous(s: Seq<CardInfo>, i: u32)
    requires
        wf(s),
        i < NUM_PILES,
    ensures
        forall|j: int| 0 <= j < s.len() ==> valid_zone(#[trigger] s[j]),
        forall|j: int|
            0 <= j < s.len() && #[trigger] s[j].card_type == CardType::Pile(i) ==> 0 <= s[j].order < zone_len(
                s,
                CardType::Pile(i),
            ),
        forall|m: int| 0 <= m < zone_len(s, CardType::Pile(i)) ==> #[trigger] pile_has_place(s, i, m),
        forall|j: int, k: int|
            0 <= j < s.len() && 0 <= k < s.len() && #[trigger] s[j].card_type == CardType::Pile(i)
                && #[trigger] s[k].card_type == CardType::Pile(i) && s[j].order == s[k].order ==> j == k,
{
    let z = CardType::Pile(i);
    assert(pile_ok(s, i));
    assert forall|j: int| 0 <= j < s.len() implies valid_zone(#[trigger] s[j]) by {
        assert(1 <= s[j].card_number <= 13);
    }
    assert forall|j: int| 0 <= j < s.len() && #[trigger] s[j].card_type == z implies 0 <= s[j].order < zone_len(s, z) by {
        assert(in_zone(z)(s[j]));
    }
    lemma_cover_by_count(s, in_zone(z), order_key(), 0);
    assert forall|m: int| 0 <= m < zone_len(s, z) implies #[trigger] pile_has_place(s, i, m) by {
        assert(has_key(s, in_zone(z), order_key(), m));
        let j = choose|j: int| 0 <= j < s.len() && #[trigger] in_zone(z)(s[j]) && order_key()(s[j]) == m;
        assert(s[j].card_type == z);
    }
    assert forall|j: int, k: int|
        0 <= j < s.len() && 0 <= k < s.len() && #[trigger] s[j].card_type == z && #[trigger] s[k].card_type == z
            && s[j].order == s[k].order implies j == k by {
        if j != k {
            assert(in_zone(z)(s[j]) && in_zone(z)(s[k]));
        }
    }
}

/// In a game in play, a foundation holding `k` cards holds its own suit's
/// ranks 1 to `k`, each once, each at the place of its rank.
pub proof fn lemma_foundation_sequence(s: Seq<CardInfo>, x: CardSuit)
    requires
        wf(s),
    ensures
        forall|j: int|
            0 <= j < s.len() && #[trigger] s[j].card_type == CardType::Foundation(x) ==> s[j].card_suit == x
                && s[j].order == s[j].card_number && 1 <= s[j].card_number <= zone_len(s, CardType::Foundation(x)),
        forall|m: int| 1 <= m <= zone_len(s, CardType::Foundation(x)) ==> #[trigger] foundation_has_rank(s, x, m),
        forall|j: int, k: int|
            0 <= j < s.len() && 0 <= k < s.len() && #[trigger] s[j].card_type == CardType::Foundation(x)
                && #[trigger] s[k].card_type == CardType::Foundation(x) && s[j].card_number == s[k].card_number ==> j == k,
{
    let z = CardType::Foundation(x);
    assert(foundation_ok(s, x));
    lemma_foundation_distinct(s, x);
    assert forall|j: int| 0 <= j < s.len() && #[trigger] s[j].card_type == z implies s[j].card_suit == x
        && s[j].order == s[j].card_number && 1 <= s[j].card_number <= zone_len(s, z) by {
        assert(in_zone(z)(s[j]));
    }
    lemma_cover_by_count(s, in_zone(z), number_key(), 1);
    assert forall|m: int| 1 <= m <= zone_len(s, z) implies #[trigger] foundation_has_rank(s, x, m) by {
        assert(has_key(s, in_zone(z), number_key(), m));
        let j = choose|j: int| 0 <= j < s.len() && #[trigger] in_zone(z)(s[j]) && number_key()(s[j]) == m;
        assert(s[j].card_type == z);
    }
    assert forall|j: int, k: int|
        0 <= j < s.len() && 0 <= k < s.len() && #[trigger] s[j].card_type == z && #[trigger] s[k].card_type == z
            && s[j].card_number == s[k].card_number implies j == k by {
        if j != k {
            assert(in_zone(z)(s[j]) && in_zone(z)(s[k]));
        }
    }
}

/// Changes that leave every card's zone, place, identity, suit and rank
/// alone are changes confined to the stock and the waste.
pub proof fn lemma_same_core(s1: Seq<CardInfo>, s2: Seq<CardInfo>)
    requires
        s1.len() == s2.len(),
        forall|j: int|
            #![trigger s2[j]]
            0 <= j < s1.len() ==> s2[j].card_type == s1[j].card_type && s2[j].order == s1[j].order && s2[j].card_suit
                == s1[j].card_suit && s2[j].card_number == s1[j].card_number && s2[j].entity == s1[j].entity,
    ensures
        same_settled(s1, s2),
{
}

} // verus!
