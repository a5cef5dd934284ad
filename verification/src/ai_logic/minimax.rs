use vstd::prelude::*;
use crate::bits::{
    bit, count_bits, is_set, lemma_count_bounds, lemma_count_zero, lemma_is_set, popcount,
    square_bit, test_bit,
};
use crate::board::{is_legal, legal_mask, legal_moves, Board};
use crate::constants::{Color, CORNER_MASK, EDGE_MASK};
use std::time::{Duration, Instant};

verus! {

/// What a disc on each square is worth to its owner.
pub const POSITIONAL_WEIGHT: [i32; 64] = [
    30, -12, 0, -1, -1, 0, -12, 30,
    -12, -15, -3, -3, -3, -3, -15, -12,
    0, -3, 0, -1, -1, 0, -3, 0,
    -1, -3, -1, -1, -1, -1, -3, -1,
    -1, -3, -1, -1, -1, -1, -3, -1,
    0, -3, 0, -1, -1, 0, -3, 0,
    -12, -15, -3, -3, -3, -3, -15, -12,
    30, -12, 0, -1, -1, 0, -12, 30,
];

/// The bonus for each corner that the scoring side holds.
pub const CORNER_WEIGHT: i32 = 25;

/// The bonus for each edge square, corners apart, that the scoring side holds.
pub const EDGE_WEIGHT: i32 = 5;

/// The corners, as the stability rule counts them.
pub const STABLE_CORNERS: u64 = 0x8100000000000081;

/// The first and last rows without their corners.
pub const STABLE_EDGES: u64 = 0x7e0000000000007e;

/// The three squares round each corner.
pub const STABLE_X_SQUARES: u64 = 0x42c300000000c342;

/// Columns 2 to 5 of row 1 and of row 7, and columns 1 and 6 of rows 2 to 6.
pub const STABLE_C_SQUARES: u64 = 0x3c42424242423c00;

/// Whether `piece` lies on a square that the stability rule counts as safe.
pub open spec fn on_stable_square(piece: u64) -> bool {
    (STABLE_CORNERS & piece) != 0 || (STABLE_EDGES & piece) != 0 || (STABLE_X_SQUARES & piece) != 0
        || (STABLE_C_SQUARES & piece) != 0
}

/// Whether `opp_color` is clear of the eight masks that the stability
/// rule makes from `piece`. With `piece` on square `i` they reach:
/// - squares `i + 8` and `i - 8`, the neighbours in the column;
/// - squares `i + 9`, `i + 7`, `i - 7` and `i - 9`, the four diagonal
///   neighbours, each only where it lies on the board next to `i`;
/// - square `i + 1` unless that square is in column 7, and square
///   `i - 1` unless that square is in column 0. So from column 6 the
///   neighbour in column 7 is not reached, nor from column 1 the one in
///   column 0, while from column 7 the first square of the next row is
///   reached, and from column 0 the last square of the row before.
pub open spec fn untouched(opp_color: u64, piece: u64) -> bool {
    &&& (piece << 8) & opp_color == 0
    &&& (piece >> 8) & opp_color == 0
    &&& (piece << 1) & 0x7f7f7f7f7f7f7f7f & opp_color == 0
    &&& (piece >> 1) & 0xfefefefefefefefe & opp_color == 0
    &&& (piece << 9) & 0xfefefefefefefefe & opp_color == 0
    &&& (piece << 7) & 0x7f7f7f7f7f7f7f00 & opp_color == 0
    &&& (piece >> 7) & 0x00fefefefefefefe & opp_color == 0
    &&& (piece >> 9) & 0x007f7f7f7f7f7f7f & opp_color == 0
}

/// Whether the disc `piece` counts as stable against `opp_color`: it is on
/// a safe square, or `opp_color` is clear of the masks of `untouched`.
pub open spec fn stable(opp_color: u64, piece: u64) -> bool {
    on_stable_square(piece) || untouched(opp_color, piece)
}

/// Whether `piece` lies on a square that the stability rule counts as safe.
pub fn is_stable_square(piece: &u64) -> (r: bool)
    ensures
        r == on_stable_square(*piece),
{
    let p = *piece;
    (STABLE_CORNERS & p) != 0 || (STABLE_EDGES & p) != 0 || (STABLE_X_SQUARES & p) != 0 || (
    STABLE_C_SQUARES & p) != 0
}

/// Whether the disc `piece` counts as stable against `opp_color`.
pub fn is_stable(_color: &u64, opp_color: &u64, piece: &u64) -> (r: bool)
    ensures
        r == stable(*opp_color, *piece),
{
    if is_stable_square(piece) {
        return true;
    }
    let p = *piece;
    let o = *opp_color;
    let north = (p << 8) & o;
    let south = (p >> 8) & o;
    let west = (p << 1) & 0x7f7f7f7f7f7f7f7f & o;
    let east = (p >> 1) & 0xfefefefefefefefe & o;
    let nw = (p << 9) & 0xfefefefefefefefe & o;
    let ne = (p << 7) & 0x7f7f7f7f7f7f7f00 & o;
    let sw = (p >> 7) & 0x00fefefefefefefe & o;
    let se = (p >> 9) & 0x007f7f7f7f7f7f7f & o;
    north == 0 && south == 0 && west == 0 && east == 0 && nw == 0 && ne == 0 && sw == 0 && se == 0
}

/// Forty, halved `n` times, rounding down.
pub open spec fn halved(n: nat) -> int
    decreases n,
{
    if n == 0 {
        40
    } else {
        halved((n - 1) as nat) / 2
    }
}

/// Forty, doubled `n` times, stopping at the largest `i32`.
pub open spec fn doubled(n: nat) -> int
    decreases n,
{
    if n == 0 {
        40
    } else if 2 * doubled((n - 1) as nat) > i32::MAX {
        i32::MAX as int
    } else {
        2 * doubled((n - 1) as nat)
    }
}

/// The weight of one disc of material at `depth`: 40 at depth 64, halved
/// for every 20 plies short of it and doubled for every 20 plies past it.
pub open spec fn importance(depth: int) -> int {
    if depth <= 64 {
        halved(((64 - depth) / 20) as nat)
    } else {
        doubled(((depth - 64) / 20) as nat)
    }
}

proof fn lemma_halved_zero(n: nat, m: nat)
    requires
        n <= m,
        halved(n) == 0,
    ensures
        halved(m) == 0,
    decreases m,
{
    if n < m {
        lemma_halved_zero(n, (m - 1) as nat);
    }
}

proof fn lemma_doubled_full(n: nat, m: nat)
    requires
        n <= m,
        doubled(n) == i32::MAX,
    ensures
        doubled(m) == i32::MAX,
    decreases m,
{
    if n < m {
        lemma_doubled_full(n, (m - 1) as nat);
    }
}

/// The weight of one disc of material at `depth`.
pub fn calculate_piece_importance(depth: i32) -> (y: i32)
    ensures
        y == importance(depth as int),
        0 <= y,
{
    let mut y: i32 = 40;
    let mut n: i64 = 0;
    if depth <= 64 {
        let e: i64 = (64 - depth as i64) / 20;
        while n < e && y > 0
            invariant
                0 <= n <= e,
                y == halved(n as nat),
                0 <= y <= 40,
            decreases e - n,
        {
            y = y / 2;
            n += 1;
        }
        proof {
            if n < e {
                lemma_halved_zero(n as nat, e as nat);
            }
        }
    } else {
        let e: i64 = (depth as i64 - 64) / 20;
        while n < e && y < i32::MAX
            invariant
                0 <= n <= e,
                y == doubled(n as nat),
                40 <= y,
            decreases e - n,
        {
            y = if y > i32::MAX / 2 {
                i32::MAX
            } else {
                2 * y
            };
            n += 1;
        }
        proof {
            if n < e {
                lemma_doubled_full(n as nat, e as nat);
            }
        }
    }
    y
}

/// How many legal moves `player` has against `opponent`.
pub open spec fn mobility(player: u64, opponent: u64) -> int {
    popcount(legal_mask(player, opponent))
}

/// What square `i` adds to the score of `player`: its weight and, on a
/// corner or an edge, the bonus, where `player` holds it; its weight
/// taken away where `opponent` holds it.
pub open spec fn placement_value(player: u64, opponent: u64, i: int) -> int
    recommends
        0 <= i < 64,
{
    if is_set(player, i) {
        POSITIONAL_WEIGHT[i] + if is_set(CORNER_MASK, i) {
            CORNER_WEIGHT as int
        } else if is_set(EDGE_MASK, i) {
            EDGE_WEIGHT as int
        } else {
            0int
        }
    } else if is_set(opponent, i) {
        -POSITIONAL_WEIGHT[i]
    } else {
        0
    }
}

/// The sum of `placement_value` over the squares below `n`.
pub open spec fn placement_below(player: u64, opponent: u64, n: int) -> int
    decreases n,
{
    if n <= 0 {
        0
    } else {
        placement_below(player, opponent, n - 1) + placement_value(player, opponent, n - 1)
    }
}

/// What square `i` adds to the stability count of `player`: one for a
/// stable disc of its own, one less for a stable disc of `opponent`.
pub open spec fn stability_value(player: u64, opponent: u64, i: int) -> int {
    if is_set(player, i) {
        if stable(opponent, bit(i)) {
            1
        } else {
            0
        }
    } else if is_set(opponent, i) {
        if stable(player, bit(i)) {
            -1
        } else {
            0
        }
    } else {
        0
    }
}

/// The sum of `stability_value` over the squares below `n`.
pub open spec fn stability_below(player: u64, opponent: u64, n: int) -> int
    decreases n,
{
    if n <= 0 {
        0
    } else {
        stability_below(player, opponent, n - 1) + stability_value(player, opponent, n - 1)
    }
}

/// `x`, or the nearest `i32` where it is none.
pub open spec fn clamped(x: int) -> int {
    if x > i32::MAX {
        i32::MAX as int
    } else if x < i32::MIN {
        i32::MIN as int
    } else {
        x
    }
}

/// The side whose score is asked for: the side to move where
/// `maximizing_player` holds, the other side where it does not.
pub open spec fn perspective(state: Board, maximizing_player: bool) -> Color {
    if maximizing_player {
        state.current_player
    } else {
        state.current_player.other()
    }
}

/// The score of a position that is not over, for `player` against
/// `opponent`: material, mobility, placement and stability.
pub open spec fn heuristic(player: u64, opponent: u64, depth: int) -> int {
    (popcount(player) - popcount(opponent)) * importance(depth) + (mobility(player, opponent)
        - mobility(opponent, player)) * 10 + placement_below(player, opponent, 64)
        + stability_below(player, opponent, 64) * 20
}

/// The score of `state` for the side that `maximizing_player` selects. A
/// finished game is worth the largest `i32` to the side with more discs
/// and the smallest otherwise, a draw included.
pub open spec fn score(state: Board, maximizing_player: bool, depth: int) -> int {
    let side = perspective(state, maximizing_player);
    let player = state.pieces(side);
    let opponent = state.pieces(side.other());
    if state.is_terminal() {
        if popcount(player) > popcount(opponent) {
            i32::MAX as int
        } else {
            i32::MIN as int
        }
    } else {
        clamped(heuristic(player, opponent, depth))
    }
}

/// Scores `state` for the side that `maximizing_player` selects.
pub fn evaluate(state: &Board, maximizing_player: bool, depth: i32) -> (value: i32)
    requires
        state.wf(),
    ensures
        value == score(*state, maximizing_player, depth as int),
{
    let side = if maximizing_player {
        state.current_player
    } else {
        state.current_player.opponent()
    };
    let (player, opponent) = match side {
        Color::Black => (state.black, state.white),
        Color::White => (state.white, state.black),
    };
    let player_pieces = count_bits(player);
    let opponent_pieces = count_bits(opponent);
    if Board::check_game_over(state) {
        if player_pieces > opponent_pieces {
            return i32::MAX;
        } else {
            return i32::MIN;
        }
    }
    let weight = calculate_piece_importance(depth);
    let piece_count = (player_pieces - opponent_pieces) as i64;
    assert(-64 * 0x8000_0000 <= piece_count * (weight as i64) <= 64 * 0x8000_0000)
        by (nonlinear_arith)
        requires
            -64 <= piece_count <= 64,
            0 <= weight <= 0x7fff_ffff,
    ;
    let mut total: i64 = piece_count * (weight as i64);
    assert(player & opponent == 0 && opponent & player == 0) by {
        let (black, white) = (state.black, state.white);
        assert(black & white == 0 ==> white & black == 0) by (bit_vector);
    }
    let player_moves = legal_moves(player, opponent);
    let opponent_moves = legal_moves(opponent, player);
    let mobility = (count_bits(player_moves) - count_bits(opponent_moves)) as i64;
    total = total + mobility * 10;
    let mut placement: i64 = 0;
    let mut stability: i64 = 0;
    let mut i: u64 = 0;
    while i < 64
        invariant
            0 <= i <= 64,
            placement == placement_below(player, opponent, i as int),
            stability == stability_below(player, opponent, i as int),
            -55 * i <= placement <= 55 * i,
            -(i as int) <= stability <= i,
        decreases 64 - i,
    {
        let pos = square_bit(i);
        if test_bit(player, i) {
            placement = placement + POSITIONAL_WEIGHT[i as usize] as i64;
            if is_stable(&player, &opponent, &pos) {
                stability = stability + 1;
            }
            if test_bit(CORNER_MASK, i) {
                placement = placement + CORNER_WEIGHT as i64;
            } else if test_bit(EDGE_MASK, i) {
                placement = placement + EDGE_WEIGHT as i64;
            }
        } else if test_bit(opponent, i) {
            placement = placement - POSITIONAL_WEIGHT[i as usize] as i64;
            if is_stable(&opponent, &player, &pos) {
                stability = stability - 1;
            }
        }
        i += 1;
    }
    total = total + placement + stability * 20;
    if total > i32::MAX as i64 {
        i32::MAX
    } else if total < i32::MIN as i64 {
        i32::MIN
    } else {
        total as i32
    }
}


/// A point in time, as std's clock gives it.
#[verifier::external_type_specification]
#[verifier::external_body]
pub struct ExInstant(Instant);

/// Reads the clock with std's `Instant::now`. The result depends on
/// when the call is made, so nothing is said of it.
#[verifier::external_body]
fn now() -> Instant {
    Instant::now()
}

/// The time that has gone by since `start`, by std's `Instant::elapsed`.
/// It depends on when the call is made, so nothing is said of it.
#[verifier::external_body]
fn elapsed(start: &Instant) -> Duration {
    start.elapsed()
}

/// The whole seconds in `span`, by std's `Duration::as_secs`.
/// Nothing is said of the result: a span is opaque here.
#[verifier::external_body]
fn whole_seconds(span: &Duration) -> u64 {
    span.as_secs()
}

/// A budget of whole seconds that runs from a point on the clock.
pub struct Deadline {
    /// When the budget started to run.
    pub start: Instant,
    /// How many seconds the budget holds.
    pub seconds: u64,
}

/// The deadline `secs` seconds from now: a budget of `secs` that starts to run at the call.
pub fn deadline_in(secs: u64) -> (end_time: Option<Deadline>)
    ensures end_time matches Some(deadline) && deadline.seconds == secs,
{
    Some(Deadline { start: now(), seconds: secs })
}
/// Whether the deadline has come: never without one, at once with a budget of no seconds.
pub fn deadline_passed(end_time: &Option<Deadline>) -> (passed: bool)
    ensures
        end_time.is_none() ==> !passed,
        end_time matches Some(deadline) ==> (deadline.seconds == 0 ==> passed),
{
    let clock = read_deadline(end_time);
    clock.0
}

/// Reads the clock for `end_time`: whether the deadline has come and,
/// for the proofs, the whole seconds that the clock showed. Without a
/// deadline the clock is not read.
fn read_deadline(end_time: &Option<Deadline>) -> (clock: (bool, Ghost<Seq<u64>>))
    ensures
        end_time.is_none() ==> !clock.0 && clock.1@.len() == 0,
        end_time matches Some(deadline) ==> clock.1@.len() == 1 && clock.0 == (clock.1@[0]
            >= deadline.seconds),
{
    match end_time {
        None => {
            let shown: Ghost<Seq<u64>> = Ghost(Seq::empty());
            (false, shown)
        },
        Some(deadline) => {
            let span = elapsed(&deadline.start);
            let seen = whole_seconds(&span);
            let shown: Ghost<Seq<u64>> = Ghost(Seq::empty().push(seen));
            (deadline.spent_after(seen), shown)
        },
    }
}

impl Deadline {
    /// Whether the budget is used up once `elapsed` whole seconds have
    /// gone by since its start.
    pub fn spent_after(&self, elapsed: u64) -> (spent: bool)
        ensures
            spent == (elapsed >= self.seconds),
    {
        elapsed >= self.seconds
    }
}

/// The larger of two values.
pub open spec fn larger(a: int, b: int) -> int {
    if a >= b {
        a
    } else {
        b
    }
}

/// The smaller of two values.
pub open spec fn smaller(a: int, b: int) -> int {
    if a <= b {
        a
    } else {
        b
    }
}

/// The value a layer starts from: the smallest `i32` where it maximizes,
/// the largest where it minimizes.
pub open spec fn worst(maximizing_player: bool) -> int {
    if maximizing_player {
        i32::MIN as int
    } else {
        i32::MAX as int
    }
}

/// Whether `w` is a value that the search can return.
pub open spec fn is_value(w: int) -> bool {
    i32::MIN <= w <= i32::MAX
}

/// Whether the search may return `v` for `state`, whatever the clock does.
///
/// At every node the search either stops, because the deadline has come
/// or the game is over, and returns the score of the position; or, if the
/// game is not over, goes through the legal moves in square order.
pub open spec fn possible_value(
    state: Board,
    depth: int,
    maximizing_player: bool,
    alpha: int,
    beta: int,
    v: int,
) -> bool
    decreases state.empty_count(), 65int,
{
    v == score(state, maximizing_player, depth) || (!state.is_terminal() && state.empty_count()
        >= 0 && possible_from(
        state,
        depth,
        maximizing_player,
        alpha,
        beta,
        0,
        worst(maximizing_player),
        v,
    ))
}

/// Whether the search may return `w` for the position `next` that a move
/// from a node at `depth` leads to: one ply deeper, with the roles swapped.
pub open spec fn child_value(
    next: Board,
    depth: int,
    maximizing_player: bool,
    alpha: int,
    beta: int,
    w: int,
) -> bool
    decreases next.empty_count(), 66int,
{
    possible_value(next, depth + 1, !maximizing_player, alpha, beta, w)
}

/// Whether a layer that has reached square `i` with the value `eval` and
/// the bounds `alpha` and `beta` may end with `v`.
///
/// A maximizing layer keeps the larger value, raises `alpha` to it, and
/// stops as soon as `beta <= alpha`. A minimizing layer keeps the smaller
/// value and lowers `beta` to it; it never stops early.
pub open spec fn possible_from(
    state: Board,
    depth: int,
    maximizing_player: bool,
    alpha: int,
    beta: int,
    i: int,
    eval: int,
    v: int,
) -> bool
    decreases state.empty_count(), 64 - i,
{
    if i < 0 || i >= 64 || state.empty_count() < 0 {
        v == eval
    } else if !state.is_legal_for(state.current_player, i) {
        possible_from(state, depth, maximizing_player, alpha, beta, i + 1, eval, v)
    } else {
        let next = state.after_move(i);
        0 <= next.empty_count() && next.empty_count() < state.empty_count() && exists|w: int|
            #[trigger] is_value(w) && child_value(next, depth, maximizing_player, alpha, beta, w)
                && if maximizing_player {
                if beta <= larger(alpha, larger(w, eval)) {
                    v == larger(w, eval)
                } else {
                    possible_from(
                        state,
                        depth,
                        maximizing_player,
                        larger(alpha, larger(w, eval)),
                        beta,
                        i + 1,
                        larger(w, eval),
                        v,
                    )
                }
            } else {
                possible_from(
                    state,
                    depth,
                    maximizing_player,
                    alpha,
                    smaller(beta, smaller(w, eval)),
                    i + 1,
                    smaller(w, eval),
                    v,
                )
            }
    }
}

/// The value of `state` when the search runs to the end of every line:
/// the score where the game is over, else the value of the layer of its
/// legal moves.
pub open spec fn search_value(
    state: Board,
    depth: int,
    maximizing_player: bool,
    alpha: int,
    beta: int,
) -> int
    decreases state.empty_count(), 65int,
{
    if state.is_terminal() || state.empty_count() < 0 {
        score(state, maximizing_player, depth)
    } else {
        layer_value(state, depth, maximizing_player, alpha, beta, 0, worst(maximizing_player))
    }
}

/// The value that a layer ends with, from square `i` on, when the search
/// runs to the end of every line. The rules are those of `possible_from`.
pub open spec fn layer_value(
    state: Board,
    depth: int,
    maximizing_player: bool,
    alpha: int,
    beta: int,
    i: int,
    eval: int,
) -> int
    decreases state.empty_count(), 64 - i,
{
    if i < 0 || i >= 64 || state.empty_count() < 0 {
        eval
    } else if !state.is_legal_for(state.current_player, i) {
        layer_value(state, depth, maximizing_player, alpha, beta, i + 1, eval)
    } else {
        let next = state.after_move(i);
        if 0 <= next.empty_count() && next.empty_count() < state.empty_count() {
            let w = search_value(next, depth + 1, !maximizing_player, alpha, beta);
            if maximizing_player {
                if beta <= larger(alpha, larger(w, eval)) {
                    larger(w, eval)
                } else {
                    layer_value(
                        state,
                        depth,
                        maximizing_player,
                        larger(alpha, larger(w, eval)),
                        beta,
                        i + 1,
                        larger(w, eval),
                    )
                }
            } else {
                layer_value(
                    state,
                    depth,
                    maximizing_player,
                    alpha,
                    smaller(beta, smaller(w, eval)),
                    i + 1,
                    smaller(w, eval),
                )
            }
        } else {
            eval
        }
    }
}

/// One step of a layer: from a legal move on square `i` and a value the
/// search may return for the position it leads to, the layer may end
/// with whatever the rest of it may end with.
proof fn lemma_layer_step(
    state: Board,
    depth: int,
    maximizing_player: bool,
    alpha: int,
    beta: int,
    i: int,
    eval: int,
    v: int,
    w: int,
)
    requires
        0 <= i < 64,
        state.is_legal_for(state.current_player, i),
        is_value(w),
        0 <= state.after_move(i).empty_count() < state.empty_count(),
        child_value(state.after_move(i), depth, maximizing_player, alpha, beta, w),
        if maximizing_player {
            if beta <= larger(alpha, larger(w, eval)) {
                v == larger(w, eval)
            } else {
                possible_from(
                    state,
                    depth,
                    maximizing_player,
                    larger(alpha, larger(w, eval)),
                    beta,
                    i + 1,
                    larger(w, eval),
                    v,
                )
            }
        } else {
            possible_from(
                state,
                depth,
                maximizing_player,
                alpha,
                smaller(beta, smaller(w, eval)),
                i + 1,
                smaller(w, eval),
                v,
            )
        },
    ensures
        possible_from(state, depth, maximizing_player, alpha, beta, i, eval, v),
{
}

/// The clock reading that comes first in `readings`; 0 where none is left.
pub open spec fn first_reading(readings: Seq<u64>) -> int {
    if readings.len() > 0 {
        readings[0] as int
    } else {
        0
    }
}

/// The clock readings that follow the first.
pub open spec fn later_readings(readings: Seq<u64>) -> Seq<u64> {
    if readings.len() > 0 {
        readings.subrange(1, readings.len() as int)
    } else {
        readings
    }
}

/// The value of `state` for a search with a budget of `seconds` whose
/// clock shows `readings`, one at each node in the order of the visits,
/// and the readings that are left over. A node whose reading has reached
/// the budget, or whose game is over, is worth its score.
pub open spec fn timed_value(
    state: Board,
    depth: int,
    maximizing_player: bool,
    alpha: int,
    beta: int,
    seconds: int,
    readings: Seq<u64>,
) -> (int, Seq<u64>)
    decreases state.empty_count(), 65int,
{
    if first_reading(readings) >= seconds || state.is_terminal() || state.empty_count() < 0 {
        (score(state, maximizing_player, depth), later_readings(readings))
    } else {
        timed_layer(
            state,
            depth,
            maximizing_player,
            alpha,
            beta,
            seconds,
            later_readings(readings),
            0,
            worst(maximizing_player),
        )
    }
}

/// The value that a layer ends with, from square `i` on, under the clock
/// readings, and the readings that are left over. The rules are those of
/// `possible_from`.
pub open spec fn timed_layer(
    state: Board,
    depth: int,
    maximizing_player: bool,
    alpha: int,
    beta: int,
    seconds: int,
    readings: Seq<u64>,
    i: int,
    eval: int,
) -> (int, Seq<u64>)
    decreases state.empty_count(), 64 - i,
{
    if i < 0 || i >= 64 || state.empty_count() < 0 {
        (eval, readings)
    } else if !state.is_legal_for(state.current_player, i) {
        timed_layer(state, depth, maximizing_player, alpha, beta, seconds, readings, i + 1, eval)
    } else {
        let next = state.after_move(i);
        if 0 <= next.empty_count() && next.empty_count() < state.empty_count() {
            let child = timed_value(
                next,
                depth + 1,
                !maximizing_player,
                alpha,
                beta,
                seconds,
                readings,
            );
            let w = child.0;
            if maximizing_player {
                if beta <= larger(alpha, larger(w, eval)) {
                    (larger(w, eval), child.1)
                } else {
                    timed_layer(
                        state,
                        depth,
                        maximizing_player,
                        larger(alpha, larger(w, eval)),
                        beta,
                        seconds,
                        child.1,
                        i + 1,
                        larger(w, eval),
                    )
                }
            } else {
                timed_layer(
                    state,
                    depth,
                    maximizing_player,
                    alpha,
                    smaller(beta, smaller(w, eval)),
                    seconds,
                    child.1,
                    i + 1,
                    smaller(w, eval),
                )
            }
        } else {
            (eval, readings)
        }
    }
}

/// Searches the moves from `game_state` depth first until the deadline
/// comes or the game ends, and returns the value found. Without a
/// deadline the search runs to the end of every line, and its value is
/// then a function of the position and the bounds. With a deadline it is
/// a function of these and of what the clock showed at each node; with a
/// budget of no seconds the deadline has come at once, and the value is
/// the score of `game_state` itself.
///
/// A search can go 64 plies down, so `depth` leaves room for them.
pub fn minimax(
    game_state: Board,
    depth: i32,
    maximizing_player: bool,
    alpha: i32,
    beta: i32,
    end_time: &Option<Deadline>,
) -> (eval: i32)
    requires
        game_state.wf(),
        depth <= i32::MAX - 64,
    ensures
        possible_value(
            game_state,
            depth as int,
            maximizing_player,
            alpha as int,
            beta as int,
            eval as int,
        ),
        game_state.is_terminal() ==> eval == score(game_state, maximizing_player, depth as int),
        end_time.is_none() ==> eval == search_value(
            game_state,
            depth as int,
            maximizing_player,
            alpha as int,
            beta as int,
        ),
        end_time matches Some(deadline) ==> (deadline.seconds == 0 ==> eval == score(
            game_state,
            maximizing_player,
            depth as int,
        )),
        end_time matches Some(deadline) ==> exists|readings: Seq<u64>|
            eval == (#[trigger] timed_value(
                game_state,
                depth as int,
                maximizing_player,
                alpha as int,
                beta as int,
                deadline.seconds as int,
                readings,
            )).0,
{
    proof {
        lemma_count_bounds(game_state.black | game_state.white, 64);
    }
    let found = search_below(game_state, depth, maximizing_player, alpha, beta, end_time);
    proof {
        if end_time.is_some() {
            let rest = Seq::<u64>::empty();
            assert(timed_value(
                game_state,
                depth as int,
                maximizing_player,
                alpha as int,
                beta as int,
                end_time.unwrap().seconds as int,
                found.1@ + rest,
            ) == (found.0 as int, rest));
        }
    }
    found.0
}

/// The search itself: one node and, below it, one call for each move.
/// With the value comes, for the proofs, what the clock showed on the way.
fn search_below(
    game_state: Board,
    depth: i32,
    maximizing_player: bool,
    alpha: i32,
    beta: i32,
    end_time: &Option<Deadline>,
) -> (found: (i32, Ghost<Seq<u64>>))
    requires
        game_state.wf(),
        depth as int + game_state.empty_count() <= i32::MAX,
    ensures
        possible_value(
            game_state,
            depth as int,
            maximizing_player,
            alpha as int,
            beta as int,
            found.0 as int,
        ),
        game_state.is_terminal() ==> found.0 == score(game_state, maximizing_player, depth as int),
        end_time.is_none() ==> found.0 == search_value(
            game_state,
            depth as int,
            maximizing_player,
            alpha as int,
            beta as int,
        ),
        end_time matches Some(deadline) ==> (deadline.seconds == 0 ==> found.0 == score(
            game_state,
            maximizing_player,
            depth as int,
        )),
        end_time matches Some(deadline) ==> forall|rest: Seq<u64>| #[trigger]
            timed_value(
                game_state,
                depth as int,
                maximizing_player,
                alpha as int,
                beta as int,
                deadline.seconds as int,
                found.1@ + rest,
            ) == (found.0 as int, rest),
    decreases game_state.empty_count(),
{
    proof {
        lemma_count_bounds(game_state.black | game_state.white, 64);
    }
    let ghost d = depth as int;
    let ghost timed = end_time.is_some();
    let ghost secs: int = match end_time {
        Some(deadline) => deadline.seconds as int,
        None => 0,
    };
    let clock = read_deadline(end_time);
    let ghost first = clock.1@;
    if clock.0 || Board::check_game_over(&game_state) {
        let value = evaluate(&game_state, maximizing_player, depth);
        proof {
            assert forall|rest: Seq<u64>| timed implies #[trigger] timed_value(
                game_state,
                d,
                maximizing_player,
                alpha as int,
                beta as int,
                secs,
                first + rest,
            ) == (value as int, rest) by {
                assert(later_readings(first + rest) =~= rest);
            }
        }
        let shown: Ghost<Seq<u64>> = Ghost(first);
        return (value, shown);
    }
    let mut eval: i32 = if maximizing_player {
        i32::MIN
    } else {
        i32::MAX
    };
    let mut low = alpha;
    let mut high = beta;
    let ghost mut seen: Seq<u64> = Seq::empty();
    let moves = game_state.get_possible_moves();
    let mut i: u64 = 0;
    proof {
        assert forall|rest: Seq<u64>| seen + rest == rest by {
            assert(seen + rest =~= rest);
        }
    }
    while i < 64
        invariant
            0 <= i <= 64,
            game_state.wf(),
            d == depth as int,
            0 <= game_state.empty_count(),
            depth as int + game_state.empty_count() <= i32::MAX,
            forall|s: int| is_set(moves, s) <==> game_state.is_legal_for(game_state.current_player, s),
            moves & (game_state.black | game_state.white) == 0,
            !game_state.is_terminal(),
            timed == end_time.is_some(),
            end_time matches Some(deadline) ==> deadline.seconds == secs && secs != 0,
            timed ==> first.len() == 1 && first[0] < secs,
            forall|v: int| #[trigger]
                possible_from(
                    game_state,
                    d,
                    maximizing_player,
                    low as int,
                    high as int,
                    i as int,
                    eval as int,
                    v,
                ) ==> possible_from(
                    game_state,
                    d,
                    maximizing_player,
                    alpha as int,
                    beta as int,
                    0,
                    worst(maximizing_player),
                    v,
                ),
            end_time.is_none() ==> layer_value(
                game_state,
                d,
                maximizing_player,
                low as int,
                high as int,
                i as int,
                eval as int,
            ) == layer_value(
                game_state,
                d,
                maximizing_player,
                alpha as int,
                beta as int,
                0,
                worst(maximizing_player),
            ),
            timed ==> forall|rest: Seq<u64>|
                timed_layer(
                    game_state,
                    d,
                    maximizing_player,
                    alpha as int,
                    beta as int,
                    secs,
                    seen + rest,
                    0,
                    worst(maximizing_player),
                ) == #[trigger] timed_layer(
                    game_state,
                    d,
                    maximizing_player,
                    low as int,
                    high as int,
                    secs,
                    rest,
                    i as int,
                    eval as int,
                ),
        decreases 64 - i,
    {
        let ghost (a1, b1, e1) = (low as int, high as int, eval as int);
        let ghost seen1 = seen;
        if test_bit(moves, i) {
            let mut new_state = game_state;
            let current_move = square_bit(i);
            new_state.place_move(&moves, current_move);
            proof {
                assert(new_state == game_state.after_move(i as int));
                lemma_count_bounds(new_state.black | new_state.white, 64);
            }
            let child = search_below(
                new_state,
                depth + 1,
                !maximizing_player,
                low,
                high,
                end_time,
            );
            let new_eval = child.0;
            let ghost below = child.1@;
            if maximizing_player {
                if new_eval > eval {
                    eval = new_eval;
                }
                if eval > low {
                    low = eval;
                }
                if high <= low {
                    proof {
                        lemma_layer_step(
                            game_state,
                            d,
                            maximizing_player,
                            a1,
                            b1,
                            i as int,
                            e1,
                            eval as int,
                            new_eval as int,
                        );
                        assert forall|rest: Seq<u64>| timed implies #[trigger] timed_value(
                            game_state,
                            d,
                            maximizing_player,
                            alpha as int,
                            beta as int,
                            secs,
                            (first + (seen1 + below)) + rest,
                        ) == (eval as int, rest) by {
                            let all = (first + (seen1 + below)) + rest;
                            assert(later_readings(all) =~= seen1 + (below + rest));
                            assert(timed_value(
                                new_state,
                                d + 1,
                                !maximizing_player,
                                a1,
                                b1,
                                secs,
                                below + rest,
                            ) == (new_eval as int, rest));
                            assert(timed_layer(
                                game_state,
                                d,
                                maximizing_player,
                                a1,
                                b1,
                                secs,
                                below + rest,
                                i as int,
                                e1,
                            ) == (eval as int, rest));
                        }
                    }
                    let shown: Ghost<Seq<u64>> = Ghost(first + (seen1 + below));
                    return (eval, shown);
                }
            } else {
                if new_eval < eval {
                    eval = new_eval;
                }
                if eval < high {
                    high = eval;
                }
            }
            proof {
                seen = seen1 + below;
            }
            assert forall|v: int| #[trigger]
                possible_from(
                    game_state,
                    d,
                    maximizing_player,
                    low as int,
                    high as int,
                    i + 1,
                    eval as int,
                    v,
                ) implies possible_from(game_state, d, maximizing_player, a1, b1, i as int, e1, v) by {
                lemma_layer_step(
                    game_state,
                    d,
                    maximizing_player,
                    a1,
                    b1,
                    i as int,
                    e1,
                    v,
                    new_eval as int,
                );
            }
            assert forall|rest: Seq<u64>| timed implies timed_layer(
                game_state,
                d,
                maximizing_player,
                alpha as int,
                beta as int,
                secs,
                seen + rest,
                0,
                worst(maximizing_player),
            ) == #[trigger] timed_layer(
                game_state,
                d,
                maximizing_player,
                low as int,
                high as int,
                secs,
                rest,
                i + 1,
                eval as int,
            ) by {
                assert(seen + rest =~= seen1 + (below + rest));
                assert(timed_value(
                    new_state,
                    d + 1,
                    !maximizing_player,
                    a1,
                    b1,
                    secs,
                    below + rest,
                ) == (new_eval as int, rest));
                assert(timed_layer(
                    game_state,
                    d,
                    maximizing_player,
                    a1,
                    b1,
                    secs,
                    below + rest,
                    i as int,
                    e1,
                ) == timed_layer(
                    game_state,
                    d,
                    maximizing_player,
                    low as int,
                    high as int,
                    secs,
                    rest,
                    i + 1,
                    eval as int,
                ));
            }
        } else {
            assert forall|v: int| #[trigger]
                possible_from(
                    game_state,
                    d,
                    maximizing_player,
                    low as int,
                    high as int,
                    i + 1,
                    eval as int,
                    v,
                ) implies possible_from(
                game_state,
                d,
                maximizing_player,
                low as int,
                high as int,
                i as int,
                eval as int,
                v,
            ) by {}
            assert forall|rest: Seq<u64>| timed implies timed_layer(
                game_state,
                d,
                maximizing_player,
                alpha as int,
                beta as int,
                secs,
                seen + rest,
                0,
                worst(maximizing_player),
            ) == #[trigger] timed_layer(
                game_state,
                d,
                maximizing_player,
                low as int,
                high as int,
                secs,
                rest,
                i + 1,
                eval as int,
            ) by {
                assert(timed_layer(
                    game_state,
                    d,
                    maximizing_player,
                    low as int,
                    high as int,
                    secs,
                    rest,
                    i as int,
                    eval as int,
                ) == timed_layer(
                    game_state,
                    d,
                    maximizing_player,
                    low as int,
                    high as int,
                    secs,
                    rest,
                    i + 1,
                    eval as int,
                ));
            }
        }
        i += 1;
    }
    proof {
        assert(possible_from(
            game_state,
            d,
            maximizing_player,
            low as int,
            high as int,
            64,
            eval as int,
            eval as int,
        ));
        assert forall|rest: Seq<u64>| timed implies #[trigger] timed_value(
            game_state,
            d,
            maximizing_player,
            alpha as int,
            beta as int,
            secs,
            (first + seen) + rest,
        ) == (eval as int, rest) by {
            assert(later_readings((first + seen) + rest) =~= seen + rest);
            assert(timed_layer(
                game_state,
                d,
                maximizing_player,
                low as int,
                high as int,
                secs,
                rest,
                64,
                eval as int,
            ) == (eval as int, rest));
        }
    }
    let shown: Ghost<Seq<u64>> = Ghost(first + seen);
    (eval, shown)
}

/// The move that the scores below square `n` select, with its score:
/// the first square of `moves` is kept whatever its score, and a later
/// one replaces it only with a strictly greater score. No move (mask 0)
/// where no square of `moves` lies below `n`.
pub open spec fn best_below(moves: u64, scores: Seq<i32>, n: int) -> (u64, int)
    decreases n,
{
    if n <= 0 {
        (0u64, i32::MIN as int)
    } else {
        let previous = best_below(moves, scores, n - 1);
        if is_set(moves, n - 1) && (previous.0 == 0 || scores[n - 1] > previous.1) {
            (bit(n - 1), scores[n - 1] as int)
        } else {
            previous
        }
    }
}

/// Whether square `k` is the first of the squares of `moves` with the
/// greatest score.
pub open spec fn is_first_best(moves: u64, scores: Seq<i32>, k: int) -> bool {
    &&& 0 <= k < 64
    &&& is_set(moves, k)
    &&& forall|j: int| 0 <= j < 64 && is_set(moves, j) ==> #[trigger] scores[j] <= scores[k]
    &&& forall|j: int| 0 <= j < k && is_set(moves, j) ==> #[trigger] scores[j] < scores[k]
}

/// Picks among `possible_moves` by score: `scores[i]` is the score of
/// the move on square `i`. The greatest score wins, and of equal scores
/// the lowest square. Only an empty mask gives 0, no move.
pub fn pick_best(possible_moves: u64, scores: &Vec<i32>) -> (best_move: u64)
    requires
        scores.len() == 64,
    ensures
        best_move == best_below(possible_moves, scores@, 64).0,
        (forall|i: int| 0 <= i < 64 ==> !is_set(possible_moves, i)) ==> best_move == 0,
        (exists|i: int| 0 <= i < 64 && is_set(possible_moves, i)) ==> exists|k: int| #[trigger]
            is_first_best(possible_moves, scores@, k) && best_move == bit(k),
{
    let mut best_move: u64 = 0;
    let mut last_score: i32 = i32::MIN;
    let ghost mut best_index: int = -1;
    let mut i: usize = 0;
    while i < 64
        invariant
            0 <= i <= 64,
            scores.len() == 64,
            (best_move, last_score as int) == best_below(possible_moves, scores@, i as int),
            -1 <= best_index < i,
            best_move == 0 <==> best_index < 0,
            best_index < 0 ==> forall|j: int| 0 <= j < i ==> !is_set(possible_moves, j),
            best_index >= 0 ==> {
                &&& is_set(possible_moves, best_index)
                &&& best_move == bit(best_index)
                &&& last_score == scores[best_index]
                &&& forall|j: int|
                    0 <= j < i && is_set(possible_moves, j) ==> #[trigger] scores[j] <= last_score
                &&& forall|j: int|
                    0 <= j < best_index && is_set(possible_moves, j) ==> #[trigger] scores[j]
                        < last_score
            },
        decreases 64 - i,
    {
        if test_bit(possible_moves, i as u64) && (best_move == 0 || scores[i] > last_score) {
            best_move = square_bit(i as u64);
            last_score = scores[i];
            proof {
                best_index = i as int;
            }
        }
        i += 1;
    }
    proof {
        if best_index >= 0 {
            assert(is_first_best(possible_moves, scores@, best_index));
        }
    }
    best_move
}

/// Whether the search may give the score `w` to the move on square `i`:
/// it is a value the search may return, one ply down and with the full
/// window, for the position that the move leads to.
pub open spec fn scored(board: Board, i: int, w: int) -> bool {
    possible_value(board.after_move(i), 1, true, i32::MIN as int, i32::MAX as int, w)
}

/// The seconds that the search may spend below one move: an equal share
/// of `duration` for each of the `moves` legal moves, rounded down.
pub fn move_budget(duration: u64, moves: u64) -> (share: u64)
    requires
        moves > 0,
    ensures
        share == duration / moves,
{
    duration / moves
}

/// The scores of a search that has no time: for each legal square the
/// score of the position after the move, for the side then to move and
/// one ply down; the smallest `i32` for every other square.
pub open spec fn static_scores(board: Board) -> Seq<i32> {
    Seq::new(
        64,
        |i: int|
            if board.is_legal_for(board.current_player, i) {
                score(board.after_move(i), true, 1) as i32
            } else {
                i32::MIN
            },
    )
}

/// The whole seconds that the search may spend below one move of the
/// side to move, with `duration` seconds for the turn.
pub open spec fn share_of(board: Board, duration: u64) -> int
    recommends
        popcount(board.legal()) > 0,
{
    duration as int / popcount(board.legal())
}

/// The scores of a search whose clock shows `readings[i]` while it
/// works below the move on square `i`: the value of the position after
/// the move, for the side then to move and one ply down; the smallest
/// `i32` for every square that is no legal move.
pub open spec fn timed_scores(board: Board, duration: u64, readings: Seq<Seq<u64>>) -> Seq<i32> {
    Seq::new(
        64,
        |i: int|
            if board.is_legal_for(board.current_player, i) {
                timed_value(
                    board.after_move(i),
                    1,
                    true,
                    i32::MIN as int,
                    i32::MAX as int,
                    share_of(board, duration),
                    readings[i],
                ).0 as i32
            } else {
                i32::MIN
            },
    )
}

/// The move that the search chooses for the side to move with
/// `duration` seconds for the turn, where its clock shows `readings[i]`
/// below the move on square `i`. The choice depends on nothing else: two
/// searches of one position with one budget that see the same readings
/// choose the same move.
pub open spec fn timed_choice(board: Board, duration: u64, readings: Seq<Seq<u64>>) -> u64 {
    best_below(board.legal(), timed_scores(board, duration, readings), 64).0
}

/// Whether `duration` seconds for the turn leave no whole second for
/// each move: there are no seconds at all, or more legal moves than seconds.
pub open spec fn no_time(board: Board, duration: u64) -> bool {
    duration == 0 || duration < popcount(board.legal())
}

/// Whether `scores` holds, for each legal move of the side to move, a
/// score that the search may give to it with `duration` seconds for the
/// turn. Where that leaves no whole second for a move, the scores are
/// the static ones.
pub open spec fn search_scores(board: Board, duration: u64, scores: Seq<i32>) -> bool {
    &&& scores.len() == 64
    &&& forall|i: int|
        0 <= i < 64 && board.is_legal_for(board.current_player, i) ==> scored(
            board,
            i,
            #[trigger] scores[i] as int,
        )
    &&& no_time(board, duration) ==> scores == static_scores(board)
}

/// Whether `best_move` is a choice of the search for the side to move
/// with `duration` seconds for the turn: for some scores that the search
/// may give, it is the first legal square of greatest score, or 0, no
/// move, where there is no legal move.
pub open spec fn is_choice(board: Board, duration: u64, best_move: u64) -> bool {
    exists|scores: Seq<i32>| #[trigger]
        search_scores(board, duration, scores) && best_move == best_below(
            board.legal(),
            scores,
            64,
        ).0 && (board.has_no_move(board.current_player) ==> best_move == 0) && (
        !board.has_no_move(board.current_player) ==> exists|k: int| #[trigger]
            is_first_best(board.legal(), scores, k) && best_move == bit(k))
}

/// Chooses a move for the side to move: searches below each legal move
/// for an equal share of `duration` seconds and keeps the first move of
/// greatest score. Returns 0, no move, only where there is no legal move.
/// The choice is a function of the position, the budget and what the
/// clock showed; with no whole second for a move the clock has no say.
pub fn get_minimax_move(board: Board, duration: u64) -> (best_move: u64)
    requires
        board.wf(),
    ensures
        is_choice(board, duration, best_move),
        !board.has_no_move(board.current_player) ==> exists|i: int|
            board.is_legal_for(board.current_player, i) && best_move == #[trigger] bit(i),
        board.has_no_move(board.current_player) ==> best_move == 0,
        no_time(board, duration) ==> best_move == best_below(
            board.legal(),
            static_scores(board),
            64,
        ).0,
        exists|readings: Seq<Seq<u64>>|
            readings.len() == 64 && best_move == #[trigger] timed_choice(board, duration, readings),
{
    let possible_moves = board.get_possible_moves();
    let ghost mut readings: Seq<Seq<u64>> = Seq::empty();
    let count = count_bits(possible_moves);
    let mut scores: Vec<i32> = Vec::new();
    let mut i: u64 = 0;
    proof {
        lemma_count_bounds(board.black | board.white, 64);
        lemma_count_zero(possible_moves, 64);
    }
    while i < 64
        invariant
            0 <= i <= 64,
            board.wf(),
            0 <= board.empty_count() <= 64,
            0 <= count <= 64,
            count == popcount(possible_moves),
            possible_moves == board.legal(),
            count == 0 <==> (forall|j: int| 0 <= j < 64 ==> !is_set(possible_moves, j)),
            forall|s: int|
                is_set(possible_moves, s) <==> board.is_legal_for(board.current_player, s),
            possible_moves & (board.black | board.white) == 0,
            scores.len() == i,
            forall|k: int|
                0 <= k < i && is_set(possible_moves, k) ==> scored(board, k, #[trigger] scores[k] as int),
            no_time(board, duration) ==> forall|k: int|
                0 <= k < i ==> #[trigger] scores[k] == static_scores(board)[k],
            readings.len() == i,
            forall|k: int|
                0 <= k < i ==> #[trigger] scores[k] == timed_scores(board, duration, readings)[k],
        decreases 64 - i,
    {
        let mut current_score: i32 = i32::MIN;
        let ghost mut shown: Seq<u64> = Seq::empty();
        let ghost before = readings;
        if test_bit(possible_moves, i) {
            let mut copy_board = board;
            let move_mask = square_bit(i);
            copy_board.place_move(&possible_moves, move_mask);
            let share = move_budget(duration, count as u64);
            let end_time = deadline_in(share);
            proof {
                assert(copy_board == board.after_move(i as int));
                lemma_count_bounds(copy_board.black | copy_board.white, 64);
                if no_time(board, duration) {
                    assert(duration as int / count as int == 0) by (nonlinear_arith)
                        requires
                            0 <= duration,
                            0 < count,
                            duration == 0 || duration < count,
                    ;
                }
            }
            current_score = minimax(copy_board, 1, true, i32::MIN, i32::MAX, &end_time);
            proof {
                assert(share as int == share_of(board, duration));
                shown = choose|shown: Seq<u64>|
                    current_score == (#[trigger] timed_value(
                        copy_board,
                        1,
                        true,
                        i32::MIN as int,
                        i32::MAX as int,
                        share as int,
                        shown,
                    )).0;
            }
        }
        scores.push(current_score);
        proof {
            readings = before.push(shown);
            assert forall|k: int| 0 <= k < i + 1 implies #[trigger] scores[k] == timed_scores(
                board,
                duration,
                readings,
            )[k] by {
                if k < i {
                    assert(readings[k] == before[k]);
                    assert(scores[k] == timed_scores(board, duration, before)[k]);
                }
            }
        }
        i += 1;
    }
    let best_move = pick_best(possible_moves, &scores);
    proof {
        assert(scores@ =~= timed_scores(board, duration, readings));
        assert(best_move == timed_choice(board, duration, readings));
        if no_time(board, duration) {
            assert(scores@ =~= static_scores(board));
        }
        assert(search_scores(board, duration, scores@));
        if board.has_no_move(board.current_player) {
            assert(possible_moves == 0);
            assert forall|j: int| !is_set(0, j) by {
                lemma_is_set(0, 0, 0, j);
            }
        } else {
            let j = choose|j: int|
                0 <= j < 64 && #[trigger] is_legal(
                    board.pieces(board.current_player),
                    board.pieces(board.current_player.other()),
                    j,
                );
            assert(is_set(possible_moves, j));
            let k = choose|k: int| #[trigger]
                is_first_best(possible_moves, scores@, k) && best_move == bit(k);
            assert(board.is_legal_for(board.current_player, k));
        }
    }
    best_move
}

/// The score of a finished game is the largest `i32` for the side with
/// strictly more discs and the smallest for the other side, and for both
/// sides where the counts are equal.
pub proof fn lemma_terminal_score(state: Board, maximizing_player: bool, depth: int)
    requires
        state.is_terminal(),
    ensures
        ({
            let side = perspective(state, maximizing_player);
            let own = popcount(state.pieces(side));
            let others = popcount(state.pieces(side.other()));
            &&& own > others ==> score(state, maximizing_player, depth) == i32::MAX
            &&& own <= others ==> score(state, maximizing_player, depth) == i32::MIN
        }),
{
}

/// On a finished game the search can return one value only: the score.
pub proof fn lemma_terminal_value(
    state: Board,
    depth: int,
    maximizing_player: bool,
    alpha: int,
    beta: int,
    v: int,
)
    requires
        state.is_terminal(),
        possible_value(state, depth, maximizing_player, alpha, beta, v),
    ensures
        v == score(state, maximizing_player, depth),
{
}

} // verus!
