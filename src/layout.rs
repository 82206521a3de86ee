//! Where cards are laid out on the play field.
use vstd::prelude::*;
use crate::card::{CardSuit, Position, NUM_PILES, NUM_SUIT};

verus! {

/// Width of a card.
pub const CARD_WIDTH: i32 = 38;

/// Height of a card.
pub const CARD_HEIGHT: i32 = 52;

/// Vertical step between waste cards.
pub const OFFSET_WASTE_Y: i32 = 16;

/// Vertical step between tableau cards when there is room.
pub const OFFSET_PILE_Y: i32 = 16;

/// Smallest vertical step between tableau cards.
pub const OFFSET_PILE_Y_MIN: i32 = 6;

/// Top and bottom of a tableau pile's display area.
pub const PILE_AREA_TOP: i32 = 88;
pub const PILE_AREA_BOTTOM: i32 = -144;

pub const POSITION_STOCK_X: i32 = -258;
pub const POSITION_STOCK_Y: i32 = 63;
pub const POSITION_WASTE_X: i32 = -258;
pub const POSITION_WASTE_Y: i32 = 1;
pub const POSITION_PILE_Y: i32 = 62;
pub const POSITION_FOUNDATION_X: i32 = 257;

/// An axis-aligned rectangle of the play field.
#[derive(Clone, Copy, Debug, PartialEq, Eq, Structural)]
pub struct Rect {
    pub min_x: i32,
    pub min_y: i32,
    pub max_x: i32,
    pub max_y: i32,
}

pub open spec fn pile_x_spec(index: int) -> int {
    -193 + 64 * index
}

pub open spec fn foundation_y_spec(index: int) -> int {
    62 - 60 * index
}

/// Anchor of a tableau pile: where its bottom card lies.
pub fn pile_anchor(index: u32) -> (r: (i32, i32))
    requires
        index < NUM_PILES,
    ensures
        r.0 as int == pile_x_spec(index as int),
        r.1 == POSITION_PILE_Y,
{
    (-193 + 64 * index as i32, POSITION_PILE_Y)
}

/// Anchor of the foundation with the given index.
pub fn foundation_anchor(index: usize) -> (r: (i32, i32))
    requires
        index < NUM_SUIT,
    ensures
        r.0 == POSITION_FOUNDATION_X,
        r.1 as int == foundation_y_spec(index as int),
{
    (POSITION_FOUNDATION_X, 62 - 60 * index as i32)
}

/// Where a card dropped onto a tableau pile is accepted.
pub fn pile_drop_area(index: u32) -> (r: Rect)
    requires
        index < NUM_PILES,
    ensures
        r.min_x as int == pile_x_spec(index as int) - CARD_WIDTH / 2,
        r.max_x as int == pile_x_spec(index as int) + CARD_WIDTH / 2,
        r.min_y == PILE_AREA_BOTTOM,
        r.max_y == PILE_AREA_TOP,
{
    let (x, _) = pile_anchor(index);
    Rect { min_x: x - CARD_WIDTH / 2, min_y: PILE_AREA_BOTTOM, max_x: x + CARD_WIDTH / 2, max_y: PILE_AREA_TOP }
}

/// Where a card dropped onto a foundation is accepted: the card's own
/// outline at the foundation.
pub fn foundation_drop_area(index: usize) -> (r: Rect)
    requires
        index < NUM_SUIT,
    ensures
        r.min_x == POSITION_FOUNDATION_X - CARD_WIDTH / 2,
        r.max_x == POSITION_FOUNDATION_X + CARD_WIDTH / 2,
        r.min_y as int == foundation_y_spec(index as int) - CARD_HEIGHT / 2,
        r.max_y as int == foundation_y_spec(index as int) + CARD_HEIGHT / 2,
{
    let (x, y) = foundation_anchor(index);
    Rect {
        min_x: x - CARD_WIDTH / 2,
        min_y: y - CARD_HEIGHT / 2,
        max_x: x + CARD_WIDTH / 2,
        max_y: y + CARD_HEIGHT / 2,
    }
}

pub open spec fn foundation_index_spec(s: CardSuit) -> int {
    crate::card::suit_index_spec(s)
}

pub open spec fn foundation_position_spec(suit: CardSuit, order: i32) -> Position {
    Position { x: POSITION_FOUNDATION_X, y: foundation_y_spec(foundation_index_spec(suit)) as i32, z: order }
}

/// Where a card of the given suit lies on its foundation.
pub fn foundation_position(suit: CardSuit, order: i32) -> (r: Position)
    ensures
        r == foundation_position_spec(suit, order),
{
    let (x, y) = foundation_anchor(crate::card::suit_index(suit));
    Position { x, y, z: order }
}

pub open spec fn waste_y_spec(order: int) -> int {
    POSITION_WASTE_Y - order * OFFSET_WASTE_Y
}

/// Height of a tableau pile's display area.
pub open spec fn pile_area_height() -> int {
    PILE_AREA_TOP - PILE_AREA_BOTTOM
}

pub open spec fn clamp_spacing(v: int) -> int {
    if v < OFFSET_PILE_Y_MIN {
        OFFSET_PILE_Y_MIN as int
    } else if v > OFFSET_PILE_Y {
        OFFSET_PILE_Y as int
    } else {
        v
    }
}

/// The smallest integer not below `a / b`, for positive `b`.
pub open spec fn ceil_div(a: int, b: int) -> int {
    (a + b - 1) / b
}

/// How far a pile laid out with full spacing runs past its area.
pub open spec fn first_overflow(fd: int, fu: int) -> int {
    CARD_HEIGHT + (fd + fu) * OFFSET_PILE_Y - pile_area_height()
}

/// Spacing of the face-down part of a pile: shrunk first when the pile
/// does not fit, never below the minimum.
pub open spec fn facedown_spacing(fd: int, fu: int) -> int {
    let over = first_overflow(fd, fu);
    if over > 0 {
        if fd == 0 {
            OFFSET_PILE_Y_MIN as int
        } else {
            clamp_spacing(OFFSET_PILE_Y - ceil_div(over, fd))
        }
    } else {
        OFFSET_PILE_Y as int
    }
}

/// Spacing of the face-up part of a pile: shrunk only when shrinking the
/// face-down part was not enough.
pub open spec fn faceup_spacing(fd: int, fu: int) -> int {
    let over = first_overflow(fd, fu);
    let gaps = if fu > 0 { fu - 1 } else { 0 };
    let over2 = CARD_HEIGHT + fd * facedown_spacing(fd, fu) + gaps * OFFSET_PILE_Y - pile_area_height();
    if over > 0 && over2 > 0 {
        if gaps == 0 {
            OFFSET_PILE_Y_MIN as int
        } else {
            clamp_spacing(OFFSET_PILE_Y - ceil_div(over2, gaps))
        }
    } else {
        OFFSET_PILE_Y as int
    }
}

/// Total spacing below the card at place `k` of a pile.
pub open spec fn spacing_sum(k: int, fd: int, fu: int) -> int
    decreases k,
{
    if k <= 0 {
        0
    } else {
        spacing_sum(k - 1, fd, fu) + if k - 1 < fd {
            facedown_spacing(fd, fu)
        } else {
            faceup_spacing(fd, fu)
        }
    }
}

/// Number of cards below the card at `order`, over a pile of `n` cards;
/// a place outside the pile counts them all.
pub open spec fn cards_below(order: int, n: int) -> int {
    if 0 <= order <= n {
        order
    } else {
        n
    }
}

pub open spec fn pile_position_spec(index: int, order: int, fd: int, fu: int) -> Position {
    Position {
        x: pile_x_spec(index) as i32,
        y: (POSITION_PILE_Y - spacing_sum(cards_below(order, fd + fu), fd, fu)) as i32,
        z: order as i32,
    }
}

proof fn lemma_spacing_sum_bounds(k: int, fd: int, fu: int)
    requires
        0 <= k,
    ensures
        OFFSET_PILE_Y_MIN * k <= spacing_sum(k, fd, fu) <= OFFSET_PILE_Y * k,
    decreases k,
{
    if k > 0 {
        lemma_spacing_sum_bounds(k - 1, fd, fu);
    }
}

/// Place of the card at `order` in tableau pile `pile_index`, whose
/// pile holds `num_facedown` face-down and `num_faceup` face-up cards.
pub fn calc_pile_position(pile_index: u32, order: i32, num_facedown: u32, num_faceup: u32) -> (r:
    Position)
    requires
        pile_index < NUM_PILES,
        num_facedown + num_faceup <= crate::card::NUM_CARDS,
    ensures
        r == pile_position_spec(pile_index as int, order as int, num_facedown as int, num_faceup as int),
{
    let fd = num_facedown as i64;
    let fu = num_faceup as i64;
    let height = (PILE_AREA_TOP - PILE_AREA_BOTTOM) as i64;
    let mut offset_facedown: i64 = OFFSET_PILE_Y as i64;
    let mut offset_faceup: i64 = OFFSET_PILE_Y as i64;
    assert(0 <= (fd + fu) * OFFSET_PILE_Y as i64 <= 52 * 16) by (nonlinear_arith)
        requires
            0 <= fd,
            0 <= fu,
            fd + fu <= 52,
    ;
    let mut height_over: i64 = CARD_HEIGHT as i64 + (fd + fu) * OFFSET_PILE_Y as i64 - height;
    if height_over > 0 {
        if fd == 0 {
            offset_facedown = OFFSET_PILE_Y_MIN as i64;
        } else {
            offset_facedown = clamp_offset(offset_facedown - (height_over + fd - 1) / fd);
        }
        let gaps: i64 = if fu > 0 { fu - 1 } else { 0 };
        assert(0 <= fd * offset_facedown <= 52 * 16) by (nonlinear_arith)
            requires
                0 <= fd <= 52,
                OFFSET_PILE_Y_MIN <= offset_facedown <= OFFSET_PILE_Y,
        ;
        assert(0 <= gaps * offset_faceup <= 52 * 16) by (nonlinear_arith)
            requires
                0 <= gaps <= 52,
                offset_faceup == OFFSET_PILE_Y,
        ;
        height_over = CARD_HEIGHT as i64 + fd * offset_facedown + gaps * offset_faceup - height;
        if height_over > 0 {
            if gaps == 0 {
                offset_faceup = OFFSET_PILE_Y_MIN as i64;
            } else {
                offset_faceup = clamp_offset(offset_faceup - (height_over + gaps - 1) / gaps);
            }
        }
    }
    assert(offset_facedown == facedown_spacing(fd as int, fu as int));
    assert(offset_faceup == faceup_spacing(fd as int, fu as int));

    let (x, py) = pile_anchor(pile_index);
    let n = fd + fu;
    let mut y: i64 = py as i64;
    let mut i: i64 = 0;
    while i < n
        invariant
            0 <= i <= n,
            n == fd + fu,
            n <= 52,
            0 <= i <= cards_below(order as int, n as int),
            y == POSITION_PILE_Y - spacing_sum(i as int, fd as int, fu as int),
            offset_facedown == facedown_spacing(fd as int, fu as int),
            offset_faceup == faceup_spacing(fd as int, fu as int),
            OFFSET_PILE_Y_MIN <= offset_facedown <= OFFSET_PILE_Y,
            OFFSET_PILE_Y_MIN <= offset_faceup <= OFFSET_PILE_Y,
        ensures
            i == cards_below(order as int, n as int),
            y == POSITION_PILE_Y - spacing_sum(i as int, fd as int, fu as int),
        decreases n - i,
    {
        if i == order as i64 {
            break;
        }
        proof {
            lemma_spacing_sum_bounds(i as int, fd as int, fu as int);
        }
        y = y - if i < fd {
            offset_facedown
        } else {
            offset_faceup
        };
        i = i + 1;
    }
    proof {
        lemma_spacing_sum_bounds(i as int, fd as int, fu as int);
    }
    Position { x, y: y as i32, z: order }
}

fn clamp_offset(v: i64) -> (r: i64)
    ensures
        OFFSET_PILE_Y_MIN <= r <= OFFSET_PILE_Y,
        r == clamp_spacing(v as int),
{
    if v < OFFSET_PILE_Y_MIN as i64 {
        OFFSET_PILE_Y_MIN as i64
    } else if v > OFFSET_PILE_Y as i64 {
        OFFSET_PILE_Y as i64
    } else {
        v
    }
}

} // verus!
