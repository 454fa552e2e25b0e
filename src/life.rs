//! The mathematical model of the automaton: boards as sequences of rows, one
//! generation of the classical rule, horizontal bands, and the laws that tie
//! a banded run to a serial one.
use vstd::arithmetic::div_mod::{
    lemma_div_is_ordered, lemma_div_multiples_vanish, lemma_div_plus_one,
    lemma_fundamental_div_mod, lemma_fundamental_div_mod_converse,
};
use vstd::prelude::*;

verus! {

/// A board: a sequence of rows, each a sequence of cell values.
pub type Board = Seq<Seq<u8>>;

/// The classical rule: three live neighbours give a live cell, a live cell
/// with two live neighbours survives, everything else is dead.
pub open spec fn rule(cell: u8, sum: int) -> u8 {
    if sum == 3 {
        1
    } else if cell == 1 && sum == 2 {
        1
    } else {
        0
    }
}

/// The value of the cell at `(r, c)`, or zero outside the board.
pub open spec fn val(b: Board, r: int, c: int) -> int {
    if 0 <= r < b.len() && 0 <= c < b[r].len() {
        b[r][c] as int
    } else {
        0
    }
}

/// The sum of the eight neighbours of `(r, c)`.
pub open spec fn neighbours(b: Board, r: int, c: int) -> int {
    val(b, r - 1, c - 1) + val(b, r - 1, c) + val(b, r - 1, c + 1) + val(b, r, c - 1) + val(
        b,
        r,
        c + 1,
    ) + val(b, r + 1, c - 1) + val(b, r + 1, c) + val(b, r + 1, c + 1)
}

/// The next generation of every row of `b` but its first and last, which
/// only serve as the neighbours of the rows next to them.
pub open spec fn step_inner(b: Board) -> Board {
    Seq::new(
        (b.len() - 2) as nat,
        |r: int| Seq::new(b[r + 1].len(), |c: int| rule(b[r + 1][c], neighbours(b, r + 1, c))),
    )
}

/// A row of `w` dead cells.
pub open spec fn zeros(w: nat) -> Seq<u8> {
    Seq::new(w, |c: int| 0u8)
}

/// `g` with one row above and one below.
pub open spec fn surround(g: Board, above: Seq<u8>, below: Seq<u8>) -> Board {
    seq![above] + g + seq![below]
}

/// One generation of a board of width `w` surrounded by dead space.
pub open spec fn generation(g: Board, w: nat) -> Board {
    step_inner(surround(g, zeros(w), zeros(w)))
}

/// `n` generations of a board of width `w`.
pub open spec fn life(g: Board, w: nat, n: nat) -> Board
    decreases n,
{
    if n == 0 {
        g
    } else {
        generation(life(g, w, (n - 1) as nat), w)
    }
}

/// Every row of `g` has `w` cells.
pub open spec fn is_rect(g: Board, w: nat) -> bool {
    forall|r: int| 0 <= r < g.len() ==> #[trigger] g[r].len() == w
}

/// The first row of band `i` when `rows` rows are cut into `pieces` bands.
pub open spec fn band_start(rows: nat, pieces: nat, i: int) -> int {
    (rows * i) / (pieces as int)
}

/// The number of rows of band `i`.
pub open spec fn band_rows(rows: nat, pieces: nat, i: int) -> int {
    band_start(rows, pieces, i + 1) - band_start(rows, pieces, i)
}

/// The number of rows of the first `k` bands together.
pub open spec fn bands_total(rows: nat, pieces: nat, k: nat) -> int
    decreases k,
{
    if k == 0 {
        0
    } else {
        bands_total(rows, pieces, (k - 1) as nat) + band_rows(rows, pieces, k - 1)
    }
}

/// `g` cut into `pieces` horizontal bands.
pub open spec fn bands(g: Board, pieces: nat) -> Seq<Board> {
    Seq::new(
        pieces,
        |i: int| g.subrange(band_start(g.len(), pieces, i), band_start(g.len(), pieces, i + 1)),
    )
}

/// The row that a band sees above itself: the last row of the band before
/// it, or dead space for the first band.
pub open spec fn row_above(bs: Seq<Board>, i: int, w: nat) -> Seq<u8> {
    if i > 0 {
        bs[i - 1].last()
    } else {
        zeros(w)
    }
}

/// The row that a band sees below itself: the first row of the band after
/// it, or dead space for the last band.
pub open spec fn row_below(bs: Seq<Board>, i: int, w: nat) -> Seq<u8> {
    if i + 1 < bs.len() {
        bs[i + 1].first()
    } else {
        zeros(w)
    }
}

/// One generation of every band, each after its boundary exchange.
pub open spec fn band_generation(bs: Seq<Board>, w: nat) -> Seq<Board> {
    Seq::new(
        bs.len(),
        |i: int| step_inner(surround(bs[i], row_above(bs, i, w), row_below(bs, i, w))),
    )
}

/// `n` generations of every band, with an exchange before each.
pub open spec fn banded_life(bs: Seq<Board>, w: nat, n: nat) -> Seq<Board>
    decreases n,
{
    if n == 0 {
        bs
    } else {
        band_generation(banded_life(bs, w, (n - 1) as nat), w)
    }
}

/// A generation keeps the shape of a board.
pub proof fn lemma_generation_shape(g: Board, w: nat)
    requires
        is_rect(g, w),
    ensures
        generation(g, w).len() == g.len(),
        is_rect(generation(g, w), w),
{
    let e = surround(g, zeros(w), zeros(w));
    assert forall|r: int| 0 <= r < g.len() implies #[trigger] generation(g, w)[r].len() == w by {
        assert(e[r + 1] == g[r]);
    }
}

/// Any number of generations keeps the shape of a board.
pub proof fn lemma_life_shape(g: Board, w: nat, n: nat)
    requires
        is_rect(g, w),
    ensures
        life(g, w, n).len() == g.len(),
        is_rect(life(g, w, n), w),
    decreases n,
{
    if n > 0 {
        lemma_life_shape(g, w, (n - 1) as nat);
        lemma_generation_shape(life(g, w, (n - 1) as nat), w);
    }
}

/// `n` generations after a first one are `n + 1` generations.
pub proof fn lemma_life_shift(g: Board, w: nat, n: nat)
    ensures
        life(generation(g, w), w, n) == life(g, w, n + 1),
    decreases n,
{
    assert(life(g, w, 0) == g);
    if n > 0 {
        lemma_life_shift(g, w, (n - 1) as nat);
        assert(life(g, w, n + 1) == generation(life(g, w, n), w));
    } else {
        assert(life(g, w, 1) == generation(life(g, w, 0), w));
    }
}

/// Band starts never decrease, and none lies past the last row.
pub proof fn lemma_band_start_bounds(rows: nat, pieces: nat, i: int, j: int)
    requires
        pieces >= 1,
        0 <= i <= j <= pieces,
    ensures
        0 <= band_start(rows, pieces, i) <= band_start(rows, pieces, j) <= rows,
        band_start(rows, pieces, 0) == 0,
        band_start(rows, pieces, pieces as int) == rows,
{
    let p = pieces as int;
    let r = rows as int;
    assert(0 <= r * i <= r * j <= r * p) by (nonlinear_arith)
        requires
            0 <= i <= j <= p,
            0 <= r,
    ;
    lemma_div_is_ordered(0, r * i, p);
    lemma_div_is_ordered(r * i, r * j, p);
    lemma_div_is_ordered(r * j, r * p, p);
    assert(r * p == p * r) by (nonlinear_arith);
    lemma_div_multiples_vanish(r, p);
    assert(r * 0 == 0);
}

/// With no more bands than rows, every band holds at least one row.
pub proof fn lemma_band_start_strict(rows: nat, pieces: nat, i: int, j: int)
    requires
        1 <= pieces <= rows,
        0 <= i < j,
    ensures
        band_start(rows, pieces, i) < band_start(rows, pieces, j),
{
    let p = pieces as int;
    let r = rows as int;
    assert(r * i + p <= r * j) by (nonlinear_arith)
        requires
            0 <= i < j,
            1 <= p <= r,
    ;
    lemma_div_is_ordered(r * i + p, r * j, p);
    lemma_div_plus_one(r * i, p);
}

/// Partition balance: band sizes differ by at most one row, and all bands
/// together hold exactly the rows of the grid.
pub proof fn lemma_band_balance(rows: nat, pieces: nat)
    requires
        pieces >= 1,
    ensures
        forall|i: int|
            0 <= i < pieces ==> rows / pieces <= #[trigger] band_rows(rows, pieces, i) <= rows
                / pieces + 1,
        bands_total(rows, pieces, pieces) == rows,
{
    assert forall|i: int| 0 <= i < pieces implies rows / pieces <= #[trigger] band_rows(
        rows,
        pieces,
        i,
    ) <= rows / pieces + 1 by {
        lemma_band_size(rows, pieces, i);
    }
    lemma_bands_total(rows, pieces, pieces);
    lemma_band_start_bounds(rows, pieces, 0, pieces as int);
}

proof fn lemma_band_size(rows: nat, pieces: nat, i: int)
    requires
        pieces >= 1,
        0 <= i,
    ensures
        rows / pieces <= band_rows(rows, pieces, i) <= rows / pieces + 1,
{
    let p = pieces as int;
    let r = rows as int;
    let x = r * i;
    assert(r * (i + 1) == x + r) by (nonlinear_arith)
        requires
            x == r * i,
    ;
    assert(x >= 0) by (nonlinear_arith)
        requires
            x == r * i,
            r >= 0,
            i >= 0,
    ;
    lemma_fundamental_div_mod(x, p);
    lemma_fundamental_div_mod(r, p);
    let q = r / p;
    let s = x % p + r % p;
    assert(0 <= x % p < p);
    assert(0 <= r % p < p);
    assert(x + r == (x / p + q) * p + s) by (nonlinear_arith)
        requires
            x == p * (x / p) + x % p,
            r == p * (r / p) + r % p,
            q == r / p,
            s == x % p + r % p,
    ;
    if s < p {
        lemma_fundamental_div_mod_converse(x + r, p, x / p + q, s);
    } else {
        assert(x + r == (x / p + q + 1) * p + (s - p)) by (nonlinear_arith)
            requires
                x + r == (x / p + q) * p + s,
        ;
        lemma_fundamental_div_mod_converse(x + r, p, x / p + q + 1, s - p);
    }
}

proof fn lemma_bands_total(rows: nat, pieces: nat, k: nat)
    requires
        pieces >= 1,
    ensures
        bands_total(rows, pieces, k) == band_start(rows, pieces, k as int),
    decreases k,
{
    if k == 0 {
        lemma_band_start_bounds(rows, pieces, 0, 0);
    } else {
        lemma_bands_total(rows, pieces, (k - 1) as nat);
    }
}

/// Split and merge: putting the bands of a board back together in order
/// gives the board itself.
pub proof fn lemma_bands_flatten(g: Board, pieces: nat)
    requires
        pieces >= 1,
    ensures
        bands(g, pieces).flatten() == g,
{
    lemma_bands_prefix(g, pieces, pieces);
    lemma_band_start_bounds(g.len(), pieces, 0, pieces as int);
    assert(bands(g, pieces).take(pieces as int) == bands(g, pieces));
    assert(g.subrange(0, g.len() as int) == g);
}

proof fn lemma_bands_prefix(g: Board, pieces: nat, k: nat)
    requires
        1 <= pieces,
        k <= pieces,
    ensures
        bands(g, pieces).take(k as int).flatten() == g.subrange(
            0,
            band_start(g.len(), pieces, k as int),
        ),
    decreases k,
{
    let bs = bands(g, pieces);
    let n = g.len();
    if k == 0 {
        lemma_band_start_bounds(n, pieces, 0, 0);
        assert(bs.take(0) == Seq::<Board>::empty());
        assert(g.subrange(0, 0) == Seq::<Seq<u8>>::empty());
    } else {
        let j = k - 1;
        lemma_bands_prefix(g, pieces, j as nat);
        lemma_band_start_bounds(n, pieces, j, k as int);
        assert(bs.take(k as int) == bs.take(j).push(bs[j]));
        bs.take(j).lemma_flatten_push(bs[j]);
        assert(g.subrange(0, band_start(n, pieces, j)) + g.subrange(
            band_start(n, pieces, j),
            band_start(n, pieces, k as int),
        ) == g.subrange(0, band_start(n, pieces, k as int)));
    }
}

/// One generation of a band, with the rows next to it as its neighbours,
/// is the same band of one generation of the whole board.
proof fn lemma_band_step(h: Board, w: nat, lo: int, hi: int)
    requires
        is_rect(h, w),
        0 <= lo <= hi <= h.len(),
    ensures
        step_inner(
            surround(
                h.subrange(lo, hi),
                if lo > 0 {
                    h[lo - 1]
                } else {
                    zeros(w)
                },
                if hi < h.len() {
                    h[hi]
                } else {
                    zeros(w)
                },
            ),
        ) == generation(h, w).subrange(lo, hi),
{
    let above = if lo > 0 {
        h[lo - 1]
    } else {
        zeros(w)
    };
    let below = if hi < h.len() {
        h[hi]
    } else {
        zeros(w)
    };
    let b = surround(h.subrange(lo, hi), above, below);
    let e = surround(h, zeros(w), zeros(w));
    assert forall|k: int| 0 <= k < b.len() implies #[trigger] b[k] == e[lo + k] by {
        if k == 0 {
        } else if k <= hi - lo {
            assert(b[k] == h[lo + k - 1]);
        } else {
        }
    }
    assert forall|r: int, c: int|
        0 <= r < hi - lo && 0 <= c < w implies #[trigger] neighbours(b, r + 1, c) == neighbours(
        e,
        lo + r + 1,
        c,
    ) by {
        assert(b[r] == e[lo + r]);
        assert(b[r + 1] == e[lo + r + 1]);
        assert(b[r + 2] == e[lo + r + 2]);
    }
    let lhs = step_inner(b);
    let rhs = generation(h, w).subrange(lo, hi);
    assert forall|r: int| 0 <= r < hi - lo implies #[trigger] lhs[r] == rhs[r] by {
        assert(b[r + 1] == e[lo + r + 1]);
        assert(e[lo + r + 1] == h[lo + r]);
        assert(lhs[r] =~= rhs[r]);
    }
    assert(lhs =~= rhs);
}

/// One banded generation of the bands of a board gives the bands of one
/// generation of the board.
proof fn lemma_band_generation(h: Board, w: nat, pieces: nat)
    requires
        is_rect(h, w),
        1 <= pieces <= h.len(),
    ensures
        band_generation(bands(h, pieces), w) == bands(generation(h, w), pieces),
{
    let n = h.len();
    let bs = bands(h, pieces);
    lemma_generation_shape(h, w);
    let lhs = band_generation(bs, w);
    let rhs = bands(generation(h, w), pieces);
    assert forall|i: int| 0 <= i < pieces implies #[trigger] lhs[i] == rhs[i] by {
        let lo = band_start(n, pieces, i);
        let hi = band_start(n, pieces, i + 1);
        lemma_band_start_bounds(n, pieces, i, i + 1);
        lemma_band_start_strict(n, pieces, i, i + 1);
        if i > 0 {
            lemma_band_start_strict(n, pieces, 0, i);
            lemma_band_start_strict(n, pieces, i - 1, i);
            lemma_band_start_bounds(n, pieces, i - 1, i);
            assert(row_above(bs, i, w) == h[lo - 1]);
        } else {
            lemma_band_start_bounds(n, pieces, 0, 0);
        }
        if i + 1 < pieces {
            lemma_band_start_strict(n, pieces, i + 1, i + 2);
            lemma_band_start_bounds(n, pieces, i + 1, i + 2);
            lemma_band_start_bounds(n, pieces, i + 2, pieces as int);
            assert(row_below(bs, i, w) == h[hi]);
        } else {
            lemma_band_start_bounds(n, pieces, i + 1, pieces as int);
        }
        lemma_band_step(h, w, lo, hi);
    }
    assert(lhs =~= rhs);
}

/// Serial and banded runs agree: `n` generations of the bands of a board,
/// with a boundary exchange before each, are the bands of `n` generations
/// of the board; merged in order, they are the serial result.
pub proof fn lemma_banded_matches_serial(g: Board, w: nat, pieces: nat, n: nat)
    requires
        is_rect(g, w),
        1 <= pieces <= g.len(),
    ensures
        banded_life(bands(g, pieces), w, n) == bands(life(g, w, n), pieces),
        banded_life(bands(g, pieces), w, n).flatten() == life(g, w, n),
    decreases n,
{
    lemma_life_shape(g, w, n);
    if n > 0 {
        let m = (n - 1) as nat;
        lemma_banded_matches_serial(g, w, pieces, m);
        lemma_life_shape(g, w, m);
        lemma_band_generation(life(g, w, m), w, pieces);
    }
    lemma_bands_flatten(life(g, w, n), pieces);
}

} // verus!
