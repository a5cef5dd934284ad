use vstd::prelude::*;
use crate::bits::{
    bit, count_bits, is_set, is_square, lemma_bit_single, lemma_count_add_square, lemma_is_set,
    lemma_mask_below, lemma_mask_ext, lemma_mask_of, mask_of, popcount, square_bit, square_index,
    test_bit,
};
use crate::constants::{
    Color, BOARD_SIZE, FULL, STARTING_BLACK, STARTING_PLAYER, STARTING_WHITE,
};
use vstd::std_specs::bits::{axiom_u64_trailing_zeros, u64_trailing_zeros};

verus! {

/// A position: the squares each side holds, and whose turn it is.
///
/// Square `i` is row `i / 8`, column `i % 8`.
#[derive(Clone, Copy, Debug)]
pub struct Board {
    pub black: u64,
    pub white: u64,
    pub current_player: Color,
}

/// Who is to move: the computer or the person playing against it.
#[derive(Clone, Copy, Debug, PartialEq, Eq, Structural)]
pub enum Mode {
    AI,
    Player,
}

/// Whether row `r`, column `c` is a square of the board.
pub open spec fn on_board(r: int, c: int) -> bool {
    0 <= r < 8 && 0 <= c < 8
}

/// The coordinate reached from `x` after `j` steps of `d` (-1, 0 or 1).
pub open spec fn along(x: int, d: int, j: int) -> int {
    if d > 0 {
        x + j
    } else if d < 0 {
        x - j
    } else {
        x
    }
}

/// One of the eight directions a line of discs can run in.
pub open spec fn is_direction(dr: int, dc: int) -> bool {
    -1 <= dr <= 1 && -1 <= dc <= 1 && !(dr == 0 && dc == 0)
}

/// The index of the square `j` steps from (`r`, `c`) in direction (`dr`, `dc`).
pub open spec fn ray_index(r: int, c: int, dr: int, dc: int, j: int) -> int {
    along(r, dr, j) * 8 + along(c, dc, j)
}

/// Whether the square `j` steps from (`r`, `c`) in direction (`dr`, `dc`)
/// lies on the board and is set in `mask`. A step that leaves the board
/// finds nothing: a line never continues on the far side of a row.
pub open spec fn ray_disc(mask: u64, r: int, c: int, dr: int, dc: int, j: int) -> bool {
    on_board(along(r, dr, j), along(c, dc, j)) && is_set(mask, ray_index(r, c, dr, dc, j))
}

/// Whether the first `k` squares from (`r`, `c`) in the direction are all in `mask`.
pub open spec fn run(mask: u64, r: int, c: int, dr: int, dc: int, k: int) -> bool {
    forall|j: int| 1 <= j <= k ==> #[trigger] ray_disc(mask, r, c, dr, dc, j)
}

/// Whether a disc placed at (`r`, `c`) brackets exactly `k` opposing discs
/// in the direction: `k >= 1` of them in a row, then one of the player's own.
pub open spec fn flanks(
    player: u64,
    opponent: u64,
    r: int,
    c: int,
    dr: int,
    dc: int,
    k: int,
) -> bool {
    k >= 1 && run(opponent, r, c, dr, dc, k) && ray_disc(player, r, c, dr, dc, k + 1)
}

/// Whether a disc placed at (`r`, `c`) captures anything in the direction.
pub open spec fn outflanks(player: u64, opponent: u64, r: int, c: int, dr: int, dc: int) -> bool {
    exists|k: int| #[trigger] flanks(player, opponent, r, c, dr, dc, k)
}

/// Whether a disc placed at (`r`, `c`) captures the `j`-th square in the direction.
pub open spec fn captures_step(
    player: u64,
    opponent: u64,
    r: int,
    c: int,
    dr: int,
    dc: int,
    j: int,
) -> bool {
    1 <= j && exists|k: int| j <= k && #[trigger] flanks(player, opponent, r, c, dr, dc, k)
}

/// Whether square `i` is a legal move for `player` against `opponent`:
/// it is empty, and a disc there captures in at least one direction.
pub open spec fn is_legal(player: u64, opponent: u64, i: int) -> bool {
    0 <= i < 64 && !is_set(player, i) && !is_set(opponent, i) && exists|dr: int, dc: int|
        is_direction(dr, dc) && #[trigger] outflanks(player, opponent, i / 8, i % 8, dr, dc)
}

/// Whether a disc of `player` placed on square `i` captures square `s`.
pub open spec fn is_captured(player: u64, opponent: u64, i: int, s: int) -> bool {
    exists|dr: int, dc: int, j: int|
        is_direction(dr, dc) && #[trigger] captures_step(player, opponent, i / 8, i % 8, dr, dc, j)
            && s == ray_index(i / 8, i % 8, dr, dc, j)
}

/// The legal moves of `player` against `opponent`, square by square.
pub open spec fn legal_squares(player: u64, opponent: u64) -> spec_fn(int) -> bool {
    |i: int| is_legal(player, opponent, i)
}

/// The legal moves of `player` against `opponent`, as a mask.
pub open spec fn legal_mask(player: u64, opponent: u64) -> u64 {
    mask_of(legal_squares(player, opponent))
}

/// The discs that a disc of `player` on square `i` captures, square by square.
pub open spec fn captured_squares(player: u64, opponent: u64, i: int) -> spec_fn(int) -> bool {
    |s: int| is_captured(player, opponent, i, s)
}

/// The discs that a disc of `player` on square `i` captures, as a mask.
pub open spec fn flip_mask(player: u64, opponent: u64, i: int) -> u64 {
    mask_of(captured_squares(player, opponent, i))
}

/// Whether `player` has no legal move against `opponent`.
pub open spec fn no_legal_move(player: u64, opponent: u64) -> bool {
    forall|i: int| 0 <= i < 64 ==> !#[trigger] is_legal(player, opponent, i)
}

/// The number of opposing discs that a disc at (`r`, `c`) brackets in the
/// direction, or 0 if it brackets none.
fn flank_length(player: u64, opponent: u64, r: i8, c: i8, dr: i8, dc: i8) -> (k: u8)
    requires
        on_board(r as int, c as int),
        is_direction(dr as int, dc as int),
        player & opponent == 0,
    ensures
        k <= 6,
        k > 0 ==> flanks(player, opponent, r as int, c as int, dr as int, dc as int, k as int),
        forall|n: int| #[trigger]
            flanks(player, opponent, r as int, c as int, dr as int, dc as int, n) ==> n == k,
{
    let mut n: u8 = 0;
    let mut rr: i8 = r + dr;
    let mut cc: i8 = c + dc;
    while 0 <= rr && rr < 8 && 0 <= cc && cc < 8 && test_bit(opponent, (rr * 8 + cc) as u64)
        invariant
            on_board(r as int, c as int),
            is_direction(dr as int, dc as int),
            0 <= n <= 7,
            rr == along(r as int, dr as int, n + 1),
            cc == along(c as int, dc as int, n + 1),
            n > 0 ==> on_board(along(r as int, dr as int, n as int), along(c as int, dc as int, n as int)),
            run(opponent, r as int, c as int, dr as int, dc as int, n as int),
        decreases 8 - n,
    {
        n += 1;
        rr += dr;
        cc += dc;
    }
    let found = n > 0 && 0 <= rr && rr < 8 && 0 <= cc && cc < 8 && test_bit(
        player,
        (rr * 8 + cc) as u64,
    );
    proof {
        let (ri, ci, dri, dci) = (r as int, c as int, dr as int, dc as int);
        assert(!ray_disc(opponent, ri, ci, dri, dci, n + 1));
        assert(found == (n > 0 && ray_disc(player, ri, ci, dri, dci, n + 1)));
        assert forall|m: int| #[trigger] flanks(player, opponent, ri, ci, dri, dci, m) implies found
            && m == n by {
            if m > n {
                assert(ray_disc(opponent, ri, ci, dri, dci, n + 1));
            } else if m < n {
                assert(ray_disc(opponent, ri, ci, dri, dci, m + 1));
                lemma_is_set(player, opponent, 0, ray_index(ri, ci, dri, dci, m + 1));
            }
        }
    }
    if found {
        n
    } else {
        0
    }
}


/// Whether square `s` is one of the first `n` squares from (`r`, `c`) in the direction.
pub open spec fn on_ray(r: int, c: int, dr: int, dc: int, n: int, s: int) -> bool {
    exists|t: int| 1 <= t <= n && s == #[trigger] ray_index(r, c, dr, dc, t)
}

/// Whether a disc placed at (`r`, `c`) captures square `s` in the direction.
pub open spec fn captured_on_ray(
    player: u64,
    opponent: u64,
    r: int,
    c: int,
    dr: int,
    dc: int,
    s: int,
) -> bool {
    exists|j: int| #[trigger]
        captures_step(player, opponent, r, c, dr, dc, j) && s == ray_index(r, c, dr, dc, j)
}

proof fn lemma_add_captured_bit(m: u64, opponent: u64, i: u64)
    requires
        i < 64,
        m & !opponent == 0,
        opponent & (1u64 << i) != 0,
    ensures
        (m | (1u64 << i)) & !opponent == 0,
        (m | (1u64 << i)) != 0,
{
    assert(i < 64 && m & !opponent == 0 && opponent & (1u64 << i) != 0 ==> (m | (1u64 << i))
        & !opponent == 0 && (m | (1u64 << i)) != 0) by (bit_vector);
}

/// The opposing discs that a disc at (`r`, `c`) captures in one direction.
fn ray_flips(player: u64, opponent: u64, r: i8, c: i8, dr: i8, dc: i8) -> (m: u64)
    requires
        on_board(r as int, c as int),
        is_direction(dr as int, dc as int),
        player & opponent == 0,
    ensures
        forall|s: int|
            is_set(m, s) <==> captured_on_ray(
                player,
                opponent,
                r as int,
                c as int,
                dr as int,
                dc as int,
                s,
            ),
        m & !opponent == 0,
        m != 0 <==> outflanks(player, opponent, r as int, c as int, dr as int, dc as int),
{
    let k = flank_length(player, opponent, r, c, dr, dc);
    let ghost (ri, ci, dri, dci) = (r as int, c as int, dr as int, dc as int);
    let mut m: u64 = 0;
    let mut j: u8 = 0;
    let mut rr: i8 = r;
    let mut cc: i8 = c;
    proof {
        assert(0u64 & !opponent == 0) by (bit_vector);
        assert forall|s: int| is_set(m, s) <==> on_ray(ri, ci, dri, dci, 0, s) by {
            lemma_is_set(0, 0, 0, s);
        }
    }
    while j < k
        invariant
            0 <= j <= k <= 6,
            (ri, ci, dri, dci) == (r as int, c as int, dr as int, dc as int),
            on_board(ri, ci),
            is_direction(dri, dci),
            k > 0 ==> flanks(player, opponent, ri, ci, dri, dci, k as int),
            rr == along(ri, dri, j as int),
            cc == along(ci, dci, j as int),
            forall|s: int| is_set(m, s) <==> on_ray(ri, ci, dri, dci, j as int, s),
            m & !opponent == 0,
            m != 0 <==> j > 0,
        decreases k - j,
    {
        j += 1;
        assert(ray_disc(opponent, ri, ci, dri, dci, j as int));
        rr += dr;
        cc += dc;
        let idx = (rr * 8 + cc) as u64;
        let b = square_bit(idx);
        let ghost before = m;
        m = m | b;
        proof {
            assert(idx as int == ray_index(ri, ci, dri, dci, j as int));
            lemma_add_captured_bit(before, opponent, idx);
            assert forall|s: int| is_set(m, s) <==> on_ray(ri, ci, dri, dci, j as int, s) by {
                lemma_is_set(before, b, idx as int, s);
                if on_ray(ri, ci, dri, dci, j as int, s) {
                    let t = choose|t: int|
                        1 <= t <= j && s == #[trigger] ray_index(ri, ci, dri, dci, t);
                    if t < j {
                        assert(on_ray(ri, ci, dri, dci, j - 1, s));
                    }
                }
                if is_set(before, s) {
                    assert(on_ray(ri, ci, dri, dci, j - 1, s));
                    let t = choose|t: int|
                        1 <= t <= j - 1 && s == #[trigger] ray_index(ri, ci, dri, dci, t);
                    assert(1 <= t <= j && s == ray_index(ri, ci, dri, dci, t));
                }
            }
        }
    }
    proof {
        assert forall|s: int|
            is_set(m, s) <==> captured_on_ray(player, opponent, ri, ci, dri, dci, s) by {
            if is_set(m, s) {
                let t = choose|t: int|
                    1 <= t <= k && s == #[trigger] ray_index(ri, ci, dri, dci, t);
                assert(flanks(player, opponent, ri, ci, dri, dci, k as int));
                assert(captures_step(player, opponent, ri, ci, dri, dci, t));
            }
            if captured_on_ray(player, opponent, ri, ci, dri, dci, s) {
                let t = choose|t: int| #[trigger]
                    captures_step(player, opponent, ri, ci, dri, dci, t) && s == ray_index(
                        ri,
                        ci,
                        dri,
                        dci,
                        t,
                    );
                assert(1 <= t <= k && s == ray_index(ri, ci, dri, dci, t));
            }
        }
    }
    m
}

/// Whether a disc of `player` placed at (`r`, `c`) captures in some direction.
fn captures_any(player: u64, opponent: u64, r: i8, c: i8) -> (b: bool)
    requires
        on_board(r as int, c as int),
        player & opponent == 0,
    ensures
        b == exists|dr: int, dc: int|
            is_direction(dr, dc) && #[trigger] outflanks(
                player,
                opponent,
                r as int,
                c as int,
                dr,
                dc,
            ),
{
    let b = flank_length(player, opponent, r, c, -1, -1) > 0 || flank_length(
        player,
        opponent,
        r,
        c,
        -1,
        0,
    ) > 0 || flank_length(player, opponent, r, c, -1, 1) > 0 || flank_length(
        player,
        opponent,
        r,
        c,
        0,
        -1,
    ) > 0 || flank_length(player, opponent, r, c, 0, 1) > 0 || flank_length(
        player,
        opponent,
        r,
        c,
        1,
        -1,
    ) > 0 || flank_length(player, opponent, r, c, 1, 0) > 0 || flank_length(
        player,
        opponent,
        r,
        c,
        1,
        1,
    ) > 0;
    proof {
        let (ri, ci) = (r as int, c as int);
        assert(b == (outflanks(player, opponent, ri, ci, -1, -1) || outflanks(
            player,
            opponent,
            ri,
            ci,
            -1,
            0,
        ) || outflanks(player, opponent, ri, ci, -1, 1) || outflanks(
            player,
            opponent,
            ri,
            ci,
            0,
            -1,
        ) || outflanks(player, opponent, ri, ci, 0, 1) || outflanks(
            player,
            opponent,
            ri,
            ci,
            1,
            -1,
        ) || outflanks(player, opponent, ri, ci, 1, 0) || outflanks(
            player,
            opponent,
            ri,
            ci,
            1,
            1,
        )));
    }
    b
}

/// The legal moves of `player` against `opponent`, as a mask.
pub fn legal_moves(player: u64, opponent: u64) -> (moves: u64)
    requires
        player & opponent == 0,
    ensures
        moves == legal_mask(player, opponent),
        forall|i: int| is_set(moves, i) <==> is_legal(player, opponent, i),
        moves & (player | opponent) == 0,
        moves == 0 <==> no_legal_move(player, opponent),
{
    let mut moves: u64 = 0;
    let mut i: u64 = 0;
    proof {
        assert(0u64 & (player | opponent) == 0) by (bit_vector);
        assert forall|s: int| !is_set(0, s) by {
            lemma_is_set(0, 0, 0, s);
        }
    }
    while i < 64
        invariant
            0 <= i <= 64,
            player & opponent == 0,
            forall|s: int| is_set(moves, s) <==> (s < i && is_legal(player, opponent, s)),
            moves & (player | opponent) == 0,
            moves == 0 <==> (forall|s: int| 0 <= s < i ==> !#[trigger] is_legal(player, opponent, s)),
        decreases 64 - i,
    {
        let r = (i / 8) as i8;
        let c = (i % 8) as i8;
        if !test_bit(player, i) && !test_bit(opponent, i) && captures_any(player, opponent, r, c) {
            let b = square_bit(i);
            let ghost before = moves;
            moves = moves | b;
            proof {
                assert(is_legal(player, opponent, i as int));
                assert(before & (player | opponent) == 0 && player & b == 0 && opponent & b == 0
                    ==> (before | b) & (player | opponent) == 0) by (bit_vector);
                assert(b != 0 ==> (before | b) != 0) by (bit_vector);
                assert forall|s: int|
                    is_set(moves, s) <==> (s < i + 1 && is_legal(player, opponent, s)) by {
                    lemma_is_set(before, b, i as int, s);
                }
            }
        } else {
            assert(!is_legal(player, opponent, i as int));
        }
        i += 1;
    }
    proof {
        lemma_mask_of(moves, legal_squares(player, opponent));
    }
    moves
}

/// Every legal move captures at least one opposing disc.
pub proof fn lemma_legal_move_captures(player: u64, opponent: u64, i: int)
    requires
        is_legal(player, opponent, i),
    ensures
        exists|s: int| #[trigger] is_captured(player, opponent, i, s) && is_set(opponent, s),
        flip_mask(player, opponent, i) != 0,
{
    lemma_legal_move_has_neighbour(player, opponent, i);
    let s = choose|s: int| #[trigger]
        is_set(opponent, s) && is_captured(player, opponent, i, s) && s != i && -1 <= s / 8 - i / 8
            <= 1 && -1 <= s % 8 - i % 8 <= 1;
    lemma_mask_below(captured_squares(player, opponent, i), 64, s);
    lemma_is_set(0, 0, 0, s);
}


/// Every opposing disc that a disc of `player` placed on square `i` captures.
pub fn captured_mask(player: u64, opponent: u64, i: u64) -> (flips: u64)
    requires
        i < 64,
        player & opponent == 0,
    ensures
        flips == flip_mask(player, opponent, i as int),
        forall|s: int| is_set(flips, s) <==> is_captured(player, opponent, i as int, s),
        flips & !opponent == 0,
{
    let r = (i / 8) as i8;
    let c = (i % 8) as i8;
    let f0 = ray_flips(player, opponent, r, c, -1, -1);
    let f1 = ray_flips(player, opponent, r, c, -1, 0);
    let f2 = ray_flips(player, opponent, r, c, -1, 1);
    let f3 = ray_flips(player, opponent, r, c, 0, -1);
    let f4 = ray_flips(player, opponent, r, c, 0, 1);
    let f5 = ray_flips(player, opponent, r, c, 1, -1);
    let f6 = ray_flips(player, opponent, r, c, 1, 0);
    let f7 = ray_flips(player, opponent, r, c, 1, 1);
    let flips = f0 | f1 | f2 | f3 | f4 | f5 | f6 | f7;
    proof {
        let (ri, ci) = (r as int, c as int);
        assert(ri == i as int / 8 && ci == i as int % 8);
        assert(f0 & !opponent == 0 && f1 & !opponent == 0 && f2 & !opponent == 0 && f3 & !opponent
            == 0 && f4 & !opponent == 0 && f5 & !opponent == 0 && f6 & !opponent == 0 && f7
            & !opponent == 0 ==> (f0 | f1 | f2 | f3 | f4 | f5 | f6 | f7) & !opponent == 0)
            by (bit_vector);
        assert forall|s: int|
            is_set(flips, s) <==> is_captured(player, opponent, i as int, s) by {
            lemma_is_set(f0 | f1 | f2 | f3 | f4 | f5 | f6, f7, 0, s);
            lemma_is_set(f0 | f1 | f2 | f3 | f4 | f5, f6, 0, s);
            lemma_is_set(f0 | f1 | f2 | f3 | f4, f5, 0, s);
            lemma_is_set(f0 | f1 | f2 | f3, f4, 0, s);
            lemma_is_set(f0 | f1 | f2, f3, 0, s);
            lemma_is_set(f0 | f1, f2, 0, s);
            lemma_is_set(f0, f1, 0, s);
            if is_captured(player, opponent, i as int, s) {
                let (dr, dc, j) = choose|dr: int, dc: int, j: int|
                    is_direction(dr, dc) && #[trigger] captures_step(
                        player,
                        opponent,
                        ri,
                        ci,
                        dr,
                        dc,
                        j,
                    ) && s == ray_index(ri, ci, dr, dc, j);
                assert(captured_on_ray(player, opponent, ri, ci, dr, dc, s));
            }
            if is_set(flips, s) {
                let (dr, dc): (int, int) = if is_set(f0, s) {
                    (-1, -1)
                } else if is_set(f1, s) {
                    (-1, 0)
                } else if is_set(f2, s) {
                    (-1, 1)
                } else if is_set(f3, s) {
                    (0, -1)
                } else if is_set(f4, s) {
                    (0, 1)
                } else if is_set(f5, s) {
                    (1, -1)
                } else if is_set(f6, s) {
                    (1, 0)
                } else {
                    (1, 1)
                };
                assert(captured_on_ray(player, opponent, ri, ci, dr, dc, s));
                let j = choose|j: int| #[trigger]
                    captures_step(player, opponent, ri, ci, dr, dc, j) && s == ray_index(
                        ri,
                        ci,
                        dr,
                        dc,
                        j,
                    );
                assert(is_direction(dr, dc) && captures_step(player, opponent, ri, ci, dr, dc, j)
                    && s == ray_index(ri, ci, dr, dc, j));
            }
        }
        lemma_mask_of(flips, captured_squares(player, opponent, i as int));
    }
    flips
}

proof fn lemma_place(p: u64, o: u64, pm: u64, f: u64, i: u64)
    requires
        i < 64,
        p & o == 0,
        pm & (p | o) == 0,
        pm & (1u64 << i) != 0,
        f & !o == 0,
    ensures
        (p | (1u64 << i) | f) & (o & !f) == 0,
        (p | (1u64 << i) | f) | (o & !f) == (p | o) | (1u64 << i),
        (p | o) & (1u64 << i) == 0,
{
    assert(i < 64 && p & o == 0 && pm & (p | o) == 0 && pm & (1u64 << i) != 0 && f & !o == 0 ==> (
    p | (1u64 << i) | f) & (o & !f) == 0 && (p | (1u64 << i) | f) | (o & !f) == (p | o) | (1u64
        << i) && (p | o) & (1u64 << i) == 0) by (bit_vector);
}

/// What a disc of `player` on square `i` captures is a set of discs of `opponent`.
pub proof fn lemma_flips_are_opposing(player: u64, opponent: u64, i: int)
    requires
        0 <= i < 64,
    ensures
        flip_mask(player, opponent, i) & !opponent == 0,
{
    let f = flip_mask(player, opponent, i);
    assert forall|s: int| 0 <= s < 64 implies is_set(f & !opponent, s) == is_set(0, s) by {
        lemma_mask_below(captured_squares(player, opponent, i), 64, s);
        lemma_is_set(f, opponent, 0, s);
        lemma_is_set(0, 0, 0, s);
        if is_captured(player, opponent, i, s) {
            lemma_capture_stays_in_line(player, opponent, i, s);
        }
    }
    lemma_mask_ext(f & !opponent, 0);
}

/// A disc placed on an empty square leaves the two sides on different
/// squares and one empty square fewer.
pub proof fn lemma_after_move(board: Board, i: int)
    requires
        board.wf(),
        0 <= i < 64,
        !is_set(board.black, i),
        !is_set(board.white, i),
    ensures
        board.after_move(i).wf(),
        board.after_move(i).empty_count() == board.empty_count() - 1,
        board.after_move(i).current_player == board.current_player.other(),
{
    let player = board.pieces(board.current_player);
    let opponent = board.pieces(board.current_player.other());
    let flips = flip_mask(player, opponent, i);
    let iu = i as u64;
    let b = bit(i);
    let next = board.after_move(i);
    lemma_flips_are_opposing(player, opponent, i);
    lemma_bit_single(iu, iu);
    assert(player & opponent == 0 && (player | opponent) == (board.black | board.white)) by {
        let (black, white) = (board.black, board.white);
        assert(black & white == 0 ==> white & black == 0 && (black | white) == (white | black))
            by (bit_vector);
    }
    assert(iu < 64 && player & (1u64 << iu) == 0 && opponent & (1u64 << iu) == 0 ==> (1u64 << iu)
        & (player | opponent) == 0 && (1u64 << iu) & (1u64 << iu) != 0) by (bit_vector);
    lemma_place(player, opponent, b, flips, iu);
    let new_player = player | b | flips;
    let new_opponent = opponent & !flips;
    assert((new_player | new_opponent) == (new_opponent | new_player) && (new_player
        & new_opponent == 0 ==> new_opponent & new_player == 0)) by (bit_vector);
    let occ = board.black | board.white;
    let occ2 = occ | b;
    assert(next.black | next.white == occ2);
    assert forall|j: int| 0 <= j < 64 && j != i implies is_set(occ, j) == is_set(occ2, j) by {
        lemma_is_set(occ, b, i, j);
    }
    lemma_is_set(occ, b, i, i);
    lemma_is_set(board.black, board.white, i, i);
    lemma_count_add_square(occ, occ2, i, 64);
}

impl Board {
    /// The two sides never hold the same square.
    pub open spec fn wf(self) -> bool {
        self.black & self.white == 0
    }

    /// The squares that `color` holds.
    pub open spec fn pieces(self, color: Color) -> u64 {
        match color {
            Color::Black => self.black,
            Color::White => self.white,
        }
    }

    /// The squares that neither side holds.
    pub open spec fn empty_squares(self) -> u64 {
        !(self.black | self.white)
    }

    /// How many squares neither side holds.
    pub open spec fn empty_count(self) -> int {
        64 - popcount(self.black | self.white)
    }

    /// The legal moves of the side to move, as a mask.
    pub open spec fn legal(self) -> u64 {
        legal_mask(self.pieces(self.current_player), self.pieces(self.current_player.other()))
    }

    /// Whether `color` may play on square `i`.
    pub open spec fn is_legal_for(self, color: Color, i: int) -> bool {
        is_legal(self.pieces(color), self.pieces(color.other()), i)
    }

    /// Whether `color` has nowhere to play.
    pub open spec fn has_no_move(self, color: Color) -> bool {
        no_legal_move(self.pieces(color), self.pieces(color.other()))
    }

    /// The game is over: the board is full, a side has no disc left, or
    /// neither side can move.
    pub open spec fn is_terminal(self) -> bool {
        self.black | self.white == FULL || self.black == 0 || self.white == 0 || (
        self.has_no_move(Color::Black) && self.has_no_move(Color::White))
    }

    /// The position after the side to move has played on square `i`: the
    /// mover gains that square and every captured disc, the other side
    /// loses the captured discs, and the turn passes.
    pub open spec fn after_move(self, i: int) -> Board {
        let mover = self.current_player;
        let player = self.pieces(mover);
        let opponent = self.pieces(mover.other());
        let flips = flip_mask(player, opponent, i);
        match mover {
            Color::Black => Board {
                black: player | bit(i) | flips,
                white: opponent & !flips,
                current_player: Color::White,
            },
            Color::White => Board {
                black: opponent & !flips,
                white: player | bit(i) | flips,
                current_player: Color::Black,
            },
        }
    }

    /// The opening position: two discs each in the centre, Black to move.
    pub fn new() -> (board: Self)
        ensures
            board.black == STARTING_BLACK,
            board.white == STARTING_WHITE,
            board.current_player == Color::Black,
            board.wf(),
    {
        assert(0x0000000810000000u64 & 0x0000001008000000u64 == 0) by (bit_vector);
        Self { black: STARTING_BLACK, white: STARTING_WHITE, current_player: STARTING_PLAYER }
    }

    /// The masks of the side to move and of the other side, in that order.
    pub fn get_bitboards(&self) -> (r: (u64, u64))
        ensures
            r.0 == self.pieces(self.current_player),
            r.1 == self.pieces(self.current_player.other()),
    {
        match self.current_player {
            Color::Black => (self.black, self.white),
            Color::White => (self.white, self.black),
        }
    }

    /// The legal moves of the side to move.
    pub fn get_possible_moves(&self) -> (moves: u64)
        requires
            self.wf(),
        ensures
            moves == self.legal(),
            forall|i: int| is_set(moves, i) <==> self.is_legal_for(self.current_player, i),
            moves & !self.empty_squares() == 0,
            moves & (self.black | self.white) == 0,
            moves == 0 <==> self.has_no_move(self.current_player),
    {
        let color = self.current_player;
        self.get_possible_moves_of_color(&color)
    }

    /// The legal moves of `color`, whoever is to move.
    pub fn get_possible_moves_of_color(&self, color: &Color) -> (moves: u64)
        requires
            self.wf(),
        ensures
            moves == legal_mask(self.pieces(*color), self.pieces(color.other())),
            forall|i: int| is_set(moves, i) <==> self.is_legal_for(*color, i),
            moves & !self.empty_squares() == 0,
            moves & (self.black | self.white) == 0,
            moves == 0 <==> self.has_no_move(*color),
    {
        let (player, opponent) = match color {
            Color::Black => (self.black, self.white),
            Color::White => (self.white, self.black),
        };
        let (black, white) = (self.black, self.white);
        assert(black & white == 0 ==> white & black == 0 && (black | white) == (white | black)
            && !!(black | white) == (black | white)) by (bit_vector);
        legal_moves(player, opponent)
    }

    /// Plays `selected_move` for the side to move, given the mask of its
    /// legal moves. A move that is not a single square of `possible_moves`
    /// is refused and the position stays as it was.
    pub fn place_move(&mut self, possible_moves: &u64, selected_move: u64) -> (placed: bool)
        requires
            old(self).wf(),
            *possible_moves & (old(self).black | old(self).white) == 0,
        ensures
            placed == (is_square(selected_move) && *possible_moves & selected_move != 0),
            selected_move == 0 ==> !placed,
            !placed ==> *final(self) == *old(self),
            placed ==> forall|i: int|
                0 <= i < 64 && selected_move == #[trigger] bit(i) ==> *final(self) == old(
                    self,
                ).after_move(i),
            placed ==> final(self).empty_count() == old(self).empty_count() - 1,
            final(self).wf(),
    {
        if *possible_moves & selected_move == 0 {
            return false;
        }
        let i = match square_index(selected_move) {
            Some(i) => i,
            None => {
                return false;
            },
        };
        let (player, opponent) = self.get_bitboards();
        proof {
            let (black, white) = (self.black, self.white);
            assert(black & white == 0 ==> white & black == 0) by (bit_vector);
            lemma_bit_single(i, i);
        }
        let flips = captured_mask(player, opponent, i);
        let new_player = player | selected_move | flips;
        let new_opponent = opponent & !flips;
        proof {
            let (black, white, pm) = (self.black, self.white, *possible_moves);
            assert(i < 64 && pm & (black | white) == 0 && pm & (1u64 << i) != 0 ==> black & (1u64
                << i) == 0 && white & (1u64 << i) == 0) by (bit_vector);
            lemma_after_move(*self, i as int);
            assert forall|k: int| 0 <= k < 64 && selected_move == #[trigger] bit(k) implies k
                == i by {
                lemma_bit_single(k as u64, i);
            }
        }
        match self.current_player {
            Color::Black => {
                self.black = new_player;
                self.white = new_opponent;
                self.current_player = Color::White;
            },
            Color::White => {
                self.white = new_player;
                self.black = new_opponent;
                self.current_player = Color::Black;
            },
        }
        true
    }

    /// Passes the turn of a side that has no legal move: the discs stay
    /// where they are and the other side is to move.
    pub fn pass_turn(&mut self)
        requires
            old(self).wf(),
            old(self).has_no_move(old(self).current_player),
        ensures
            final(self).black == old(self).black,
            final(self).white == old(self).white,
            final(self).current_player == old(self).current_player.other(),
            final(self).wf(),
    {
        self.current_player = self.current_player.opponent();
    }

    /// The number of discs that `color` has on the board.
    pub fn get_pieces(&self, color: Color) -> (count: u8)
        ensures
            count == popcount(self.pieces(color)),
            count <= 64,
    {
        let pieces: u64 = match color {
            Color::Black => self.black,
            Color::White => self.white,
        };
        count_bits(pieces) as u8
    }

    /// The mask of the square at `row` and `col`, or `Err(u64::MAX)` where
    /// either lies outside the board.
    pub fn get_pos(row: usize, col: usize) -> (r: Result<u64, u64>)
        ensures
            row <= 7 && col <= 7 ==> r == Ok::<u64, u64>(bit(row * 8 + col)),
            !(row <= 7 && col <= 7) ==> r == Err::<u64, u64>(u64::MAX),
    {
        if row > 7 || col > 7 {
            return Err(u64::MAX);
        }
        Ok(square_bit((row * BOARD_SIZE + col) as u64))
    }

    /// The letter that shows square `i` on a printed board: `W` or `B`
    /// for a disc, `X` for an empty square that is in `moves`, `-` for
    /// any other.
    pub fn square_symbol(&self, moves: &u64, i: u64) -> (symbol: char)
        requires
            i < 64,
        ensures
            symbol == if is_set(self.white, i as int) {
                'W'
            } else if is_set(self.black, i as int) {
                'B'
            } else if is_set(*moves, i as int) {
                'X'
            } else {
                '-'
            },
    {
        if test_bit(self.white, i) {
            'W'
        } else if test_bit(self.black, i) {
            'B'
        } else if test_bit(*moves, i) {
            'X'
        } else {
            '-'
        }
    }

    /// Who moves next, where the person plays `player`.
    pub fn mode_to_move(&self, player: Color) -> (mode: Mode)
        ensures
            mode == if self.current_player == player {
                Mode::Player
            } else {
                Mode::AI
            },
    {
        if self.current_player == player {
            Mode::Player
        } else {
            Mode::AI
        }
    }

    /// The column that a letter names: 0 to 7 for `a` to `h`, in either case.
    pub fn column_index(letter: char) -> (col: Option<usize>)
        ensures
            'a' <= letter <= 'h' ==> col == Some((letter as u32 - 'a' as u32) as usize),
            'A' <= letter <= 'H' ==> col == Some((letter as u32 - 'A' as u32) as usize),
            !('a' <= letter <= 'h') && !('A' <= letter <= 'H') ==> col.is_none(),
    {
        let code = letter as u32;
        if 97 <= code && code <= 104 {
            Some((code - 97) as usize)
        } else if 65 <= code && code <= 72 {
            Some((code - 65) as usize)
        } else {
            None
        }
    }

    /// The square that a column letter and a row number name: rows count
    /// from 1 to 8. Anything else is `Err(u64::MAX)`.
    pub fn parse_move(letter: char, row_number: usize) -> (r: Result<u64, u64>)
        ensures
            r.is_ok() <==> (('a' <= letter <= 'h' || 'A' <= letter <= 'H') && 1 <= row_number
                <= 8),
            'a' <= letter <= 'h' && 1 <= row_number <= 8 ==> r == Ok::<u64, u64>(
                bit((row_number - 1) * 8 + (letter as u32 - 'a' as u32)),
            ),
            'A' <= letter <= 'H' && 1 <= row_number <= 8 ==> r == Ok::<u64, u64>(
                bit((row_number - 1) * 8 + (letter as u32 - 'A' as u32)),
            ),
            r.is_err() ==> r == Err::<u64, u64>(u64::MAX),
    {
        match Board::column_index(letter) {
            Some(col) => {
                if row_number == 0 {
                    Err(u64::MAX)
                } else {
                    Board::get_pos(row_number - 1, col)
                }
            },
            None => Err(u64::MAX),
        }
    }

    /// Whether the game is over.
    pub fn check_game_over(board: &Board) -> (over: bool)
        requires
            board.wf(),
        ensures
            over == board.is_terminal(),
    {
        let (black, white) = (board.black, board.white);
        assert(!(black | white) == 0 <==> (black | white) == 0xffffffffffffffffu64)
            by (bit_vector);
        if !(black | white) == 0 || black == 0 || white == 0 {
            return true;
        }
        board.get_possible_moves_of_color(&Color::Black) == 0 && board.get_possible_moves_of_color(
            &Color::White,
        ) == 0
    }
}


/// The text of a move: the column letter and the row digit of the lowest
/// square set in `bitboard`, with a space between them.
pub open spec fn cords_of(bitboard: u64) -> Seq<char> {
    let index = u64_trailing_zeros(bitboard) as int;
    seq![((index % 8) + 97) as u8 as char, ' ', ((index / 8) + 49) as u8 as char]
}

/// Calls std's `format!` on two characters: the result is the first, a
/// space, and the second.
#[verifier::external_body]
fn spaced_pair(first: char, second: char) -> (s: String)
    ensures
        s@ == seq![first, ' ', second],
{
    format!("{} {}", first, second)
}

impl Board {
    /// The text of the lowest square set in `bitboard`: "a 1" for square 0,
    /// "h 8" for square 63.
    pub fn convert_to_cords(bitboard: u64) -> (s: String)
        ensures
            s@ == cords_of(bitboard),
    {
        let move_index = bitboard.trailing_zeros();
        proof {
            axiom_u64_trailing_zeros(bitboard);
        }
        let row = (move_index / 8) as u8;
        let col = (move_index % 8) as u8;
        let col_char = (col + 97u8) as char;
        let row_char = (row + 49u8) as char;
        spaced_pair(col_char, row_char)
    }
}

/// The lowest square set in the mask of square `i` is `i` itself.
pub proof fn lemma_trailing_zeros_of_square(i: int)
    requires
        0 <= i < 64,
    ensures
        u64_trailing_zeros(bit(i)) == i,
{
    let m = bit(i);
    let iu = i as u64;
    axiom_u64_trailing_zeros(m);
    lemma_bit_single(iu, iu);
    let t = u64_trailing_zeros(m) as u64;
    assert(iu < 64 && t < 64 && ((1u64 << iu) >> t) & 1u64 == 1u64 ==> t == iu) by (bit_vector);
}


/// The row and the column of a square, from its index.
proof fn lemma_index_parts(r: int, c: int)
    requires
        on_board(r, c),
    ensures
        (r * 8 + c) / 8 == r,
        (r * 8 + c) % 8 == c,
        0 <= r * 8 + c < 64,
{
}

/// A captured disc belongs to the opponent and stands on the board in
/// one line with the move: in its row, in its column or on one of its
/// diagonals. No capture reaches round the edge of the board into
/// another row.
pub proof fn lemma_capture_stays_in_line(player: u64, opponent: u64, i: int, s: int)
    requires
        0 <= i < 64,
        is_captured(player, opponent, i, s),
    ensures
        0 <= s < 64,
        s != i,
        is_set(opponent, s),
        s / 8 == i / 8 || s % 8 == i % 8 || s / 8 - i / 8 == s % 8 - i % 8 || s / 8 - i / 8 == i
            % 8 - s % 8,
{
    let (dr, dc, j) = choose|dr: int, dc: int, j: int|
        is_direction(dr, dc) && #[trigger] captures_step(player, opponent, i / 8, i % 8, dr, dc, j)
            && s == ray_index(i / 8, i % 8, dr, dc, j);
    let k = choose|k: int| j <= k && #[trigger] flanks(player, opponent, i / 8, i % 8, dr, dc, k);
    assert(ray_disc(opponent, i / 8, i % 8, dr, dc, j));
    let (r, c) = (i / 8, i % 8);
    let (rr, cc) = (along(r, dr, j), along(c, dc, j));
    lemma_index_parts(rr, cc);
    assert(rr == r || cc == c || rr - r == cc - c || rr - r == c - cc);
}

/// A legal move captures a disc on a square next to it.
pub proof fn lemma_legal_move_has_neighbour(player: u64, opponent: u64, i: int)
    requires
        is_legal(player, opponent, i),
    ensures
        exists|s: int| #[trigger]
            is_set(opponent, s) && is_captured(player, opponent, i, s) && s != i && -1 <= s / 8 - i
                / 8 <= 1 && -1 <= s % 8 - i % 8 <= 1,
{
    let (dr, dc) = choose|dr: int, dc: int|
        is_direction(dr, dc) && #[trigger] outflanks(player, opponent, i / 8, i % 8, dr, dc);
    let k = choose|k: int| #[trigger] flanks(player, opponent, i / 8, i % 8, dr, dc, k);
    assert(ray_disc(opponent, i / 8, i % 8, dr, dc, 1));
    assert(captures_step(player, opponent, i / 8, i % 8, dr, dc, 1));
    let s = ray_index(i / 8, i % 8, dr, dc, 1);
    assert(is_captured(player, opponent, i, s));
    assert(is_set(opponent, s));
    lemma_index_parts(along(i / 8, dr, 1), along(i % 8, dc, 1));
}

/// The three ways a game is over: a full board, a side without discs,
/// and no legal move for either side, even with squares left.
pub proof fn lemma_terminal_cases(board: Board)
    ensures
        board.black | board.white == FULL ==> board.is_terminal(),
        board.black == 0 || board.white == 0 ==> board.is_terminal(),
        board.has_no_move(Color::Black) && board.has_no_move(Color::White) ==> board.is_terminal(),
{
}

} // verus!
