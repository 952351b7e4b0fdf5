//! Threshold matrices for ordered dithering, built by bit interleaving.

use vstd::prelude::*;
use vstd::arithmetic::power2::pow2;
use itertools::Itertools;

verus! {

/// The largest supported order: a matrix of side `2^15` has `2^30` cells, which
/// is the most that a 32-bit rank and a 32-bit address space can hold.
pub const MAX_ORDER: u8 = 15;

/// Bit `p` of `v`, as 0 or 1.
pub open spec fn bit_of(v: nat, p: nat) -> nat {
    (v / pow2(p)) % 2
}

/// Bit `p` of `x XOR y`, as 0 or 1.
pub open spec fn xor_bit_of(x: nat, y: nat, p: nat) -> nat {
    if bit_of(x, p) == bit_of(y, p) {
        0
    } else {
        1
    }
}

/// What the bit positions below `p` of `x` and `y` contribute to the rank of
/// cell `(x, y)` in a matrix of the given order: bit `q` of `y` lands at
/// output bit `2 (order - q - 1)`, and bit `q` of `x XOR y` one bit above it.
pub open spec fn rank_below(order: nat, x: nat, y: nat, p: nat) -> nat
    decreases p,
{
    if p == 0 || p > order {
        0
    } else {
        rank_below(order, x, y, (p - 1) as nat) + bit_of(y, (p - 1) as nat) * pow2(
            (2 * (order - p)) as nat,
        ) + xor_bit_of(x, y, (p - 1) as nat) * pow2((2 * (order - p) + 1) as nat)
    }
}

/// The rank of cell `(x, y)` in the matrix of the given order. The cell's
/// threshold is its rank divided by the number of cells, `4^order`.
pub open spec fn bayer_rank(order: nat, x: nat, y: nat) -> nat {
    rank_below(order, x, y, order)
}

/// The first `p` base-4 digits of a rank, most significant first, read as a
/// number: digit `q` is twice bit `q` of `x XOR y` plus bit `q` of `y`.
pub open spec fn rank_prefix(x: nat, y: nat, p: nat) -> nat
    decreases p,
{
    if p == 0 {
        0
    } else {
        4 * rank_prefix(x, y, (p - 1) as nat) + 2 * xor_bit_of(x, y, (p - 1) as nat) + bit_of(
            y,
            (p - 1) as nat,
        )
    }
}

/// The contributions of the bits below `p` are the first `p` digits of the
/// rank, followed by `order - p` zero digits.
pub proof fn lemma_rank_below_is_prefix(order: nat, x: nat, y: nat, p: nat)
    requires
        p <= order,
    ensures
        rank_below(order, x, y, p) == rank_prefix(x, y, p) * pow2((2 * (order - p)) as nat),
        rank_prefix(x, y, p) < pow2(2 * p),
    decreases p,
{
    if p == 0 {
        vstd::arithmetic::power2::lemma2_to64();
        assert(rank_prefix(x, y, 0) * pow2((2 * (order - 0)) as nat) == 0) by (nonlinear_arith)
            requires
                rank_prefix(x, y, 0) == 0,
        ;
    } else {
        let q = (p - 1) as nat;
        lemma_rank_below_is_prefix(order, x, y, q);
        let w = pow2((2 * (order - p)) as nat);
        let e = (2 * (order - p)) as nat;
        vstd::arithmetic::power2::lemma_pow2_unfold(e + 1);
        vstd::arithmetic::power2::lemma_pow2_unfold(e + 2);
        let h = rank_prefix(x, y, q);
        let yb = bit_of(y, q);
        let xb = xor_bit_of(x, y, q);
        assert(h * (4 * w) + yb * w + xb * (2 * w) == (4 * h + 2 * xb + yb) * w)
            by (nonlinear_arith);
        vstd::arithmetic::power2::lemma_pow2_unfold(2 * p);
        vstd::arithmetic::power2::lemma_pow2_unfold((2 * p - 1) as nat);
    }
}

/// Every rank of a matrix of the given order is below its number of cells.
pub proof fn lemma_rank_bound(order: nat, x: nat, y: nat)
    ensures
        bayer_rank(order, x, y) < pow2(2 * order),
{
    lemma_rank_below_is_prefix(order, x, y, order);
    vstd::arithmetic::power2::lemma2_to64();
}

/// The most significant base-4 digit of a rank: twice the lowest bit of
/// `x XOR y` plus the lowest bit of `y`.
pub open spec fn low_digit(x: nat, y: nat) -> nat {
    2 * xor_bit_of(x, y, 0) + bit_of(y, 0)
}

proof fn lemma_bit_of_half(v: nat, p: nat)
    requires
        p >= 1,
    ensures
        bit_of(v / 2, (p - 1) as nat) == bit_of(v, p),
{
    vstd::arithmetic::power2::lemma_pow2_unfold(p);
    vstd::arithmetic::power2::lemma_pow2_pos((p - 1) as nat);
    vstd::arithmetic::div_mod::lemma_div_denominator(v as int, 2, pow2((p - 1) as nat) as int);
}

proof fn lemma_rank_below_peel(order: nat, x: nat, y: nat, p: nat)
    requires
        1 <= p <= order,
    ensures
        rank_below(order, x, y, p) == low_digit(x, y) * pow2((2 * (order - 1)) as nat)
            + rank_below((order - 1) as nat, x / 2, y / 2, (p - 1) as nat),
    decreases p,
{
    let w = pow2((2 * (order - 1)) as nat);
    if p == 1 {
        vstd::arithmetic::power2::lemma_pow2_unfold((2 * (order - 1) + 1) as nat);
        let yb = bit_of(y, 0);
        let xb = xor_bit_of(x, y, 0);
        assert(rank_below(order, x, y, 0) == 0);
        assert(yb * w + xb * (2 * w) == (2 * xb + yb) * w) by (nonlinear_arith);
    } else {
        let q = (p - 1) as nat;
        lemma_rank_below_peel(order, x, y, q);
        lemma_bit_of_half(x, q);
        lemma_bit_of_half(y, q);
    }
}

/// The classical recursive construction: the lowest bits of `x` and `y`
/// choose the quadrant of ranks, and the remaining bits place the cell inside
/// it exactly as in the matrix of the next lower order.
pub proof fn lemma_rank_peel(order: nat, x: nat, y: nat)
    requires
        order >= 1,
    ensures
        bayer_rank(order, x, y) == low_digit(x, y) * pow2((2 * (order - 1)) as nat) + bayer_rank(
            (order - 1) as nat,
            x / 2,
            y / 2,
        ),
{
    lemma_rank_below_peel(order, x, y, order);
}

proof fn lemma_split_unique(d1: nat, r1: nat, d2: nat, r2: nat, w: nat)
    by (nonlinear_arith)
    requires
        r1 < w,
        r2 < w,
        d1 * w + r1 == d2 * w + r2,
    ensures
        d1 == d2,
        r1 == r2,
{
}

/// Two cells of one matrix with the same rank are the same cell.
pub proof fn lemma_rank_injective(order: nat, x1: nat, y1: nat, x2: nat, y2: nat)
    requires
        x1 < pow2(order),
        y1 < pow2(order),
        x2 < pow2(order),
        y2 < pow2(order),
        bayer_rank(order, x1, y1) == bayer_rank(order, x2, y2),
    ensures
        x1 == x2,
        y1 == y2,
    decreases order,
{
    vstd::arithmetic::power2::lemma2_to64();
    if order > 0 {
        let lower = (order - 1) as nat;
        vstd::arithmetic::power2::lemma_pow2_unfold(order);
        lemma_rank_peel(order, x1, y1);
        lemma_rank_peel(order, x2, y2);
        lemma_rank_bound(lower, x1 / 2, y1 / 2);
        lemma_rank_bound(lower, x2 / 2, y2 / 2);
        lemma_split_unique(
            low_digit(x1, y1),
            bayer_rank(lower, x1 / 2, y1 / 2),
            low_digit(x2, y2),
            bayer_rank(lower, x2 / 2, y2 / 2),
            pow2(2 * lower),
        );
        lemma_rank_injective(lower, x1 / 2, y1 / 2, x2 / 2, y2 / 2);
    }
}

/// Every number below `4^order` is the rank of a cell of the matrix of that
/// order; the cell is returned.
pub proof fn lemma_rank_onto(order: nat, rank: nat) -> (cell: (nat, nat))
    requires
        rank < pow2(2 * order),
    ensures
        cell.0 < pow2(order),
        cell.1 < pow2(order),
        bayer_rank(order, cell.0, cell.1) == rank,
    decreases order,
{
    vstd::arithmetic::power2::lemma2_to64();
    if order == 0 {
        (0, 0)
    } else {
        let lower = (order - 1) as nat;
        let w = pow2(2 * lower);
        vstd::arithmetic::power2::lemma_pow2_unfold(order);
        vstd::arithmetic::power2::lemma_pow2_unfold(2 * order);
        vstd::arithmetic::power2::lemma_pow2_unfold((2 * order - 1) as nat);
        let digit = rank / w;
        let rest = rank % w;
        vstd::arithmetic::div_mod::lemma_fundamental_div_mod(rank as int, w as int);
        assert(digit < 4) by (nonlinear_arith)
            requires
                rank < 4 * w,
                rank == w * digit + rest,
                0 <= rest,
                w > 0,
        ;
        let inner = lemma_rank_onto(lower, rest);
        let y_bit: nat = digit % 2;
        let x_bit: nat = if (digit / 2) == y_bit {
            0
        } else {
            1
        };
        let x = 2 * inner.0 + x_bit;
        let y = 2 * inner.1 + y_bit;
        lemma_rank_peel(order, x, y);
        assert(digit * w == w * digit) by (nonlinear_arith);
        (x, y)
    }
}

/// The ranks of a matrix are a permutation of the numbers below its number of
/// cells: there are `4^order` cells, every rank is below `4^order`, no two
/// cells share a rank, and every number below `4^order` is the rank of a cell.
/// Dividing by `4^order` gives the thresholds, which are therefore distinct.
pub proof fn lemma_matrix_is_permutation(order: nat)
    ensures
        bayer_cells(order).len() == pow2(2 * order),
        forall|k: int|
            0 <= k < bayer_cells(order).len() ==> #[trigger] bayer_cells(order)[k] < pow2(2 * order),
        forall|i: int, j: int|
            0 <= i < bayer_cells(order).len() && 0 <= j < bayer_cells(order).len() && i != j
                ==> #[trigger] bayer_cells(order)[i] != #[trigger] bayer_cells(order)[j],
        forall|rank: nat| rank < pow2(2 * order) ==> #[trigger] bayer_cells(order).contains(rank),
{
    let side = pow2(order) as int;
    let cells = bayer_cells(order);
    vstd::arithmetic::power2::lemma_pow2_adds(order, order);
    assert forall|k: int| 0 <= k < cells.len() implies #[trigger] cells[k] < pow2(2 * order) by {
        lemma_rank_bound(order, (k % side) as nat, (k / side) as nat);
    }
    assert forall|i: int, j: int|
        0 <= i < cells.len() && 0 <= j < cells.len() && i != j implies #[trigger] cells[i]
        != #[trigger] cells[j] by {
        lemma_index_splits(i, side);
        lemma_index_splits(j, side);
        if cells[i] == cells[j] {
            lemma_rank_injective(
                order,
                (i % side) as nat,
                (i / side) as nat,
                (j % side) as nat,
                (j / side) as nat,
            );
        }
    }
    assert forall|rank: nat| rank < pow2(2 * order) implies #[trigger] cells.contains(rank) by {
        let cell = lemma_rank_onto(order, rank);
        let k = cell.1 * side + cell.0;
        vstd::arithmetic::div_mod::lemma_fundamental_div_mod_converse(
            k,
            side,
            cell.1 as int,
            cell.0 as int,
        );
        assert(0 <= k < side * side) by (nonlinear_arith)
            requires
                0 <= cell.0 < side,
                0 <= cell.1 < side,
                k == cell.1 * side + cell.0,
        ;
        assert(cells[k] == rank);
    }
}

proof fn lemma_index_splits(k: int, side: int)
    requires
        side > 0,
        0 <= k < side * side,
    ensures
        0 <= k / side < side,
        0 <= k % side < side,
        k == side * (k / side) + k % side,
{
    vstd::arithmetic::div_mod::lemma_fundamental_div_mod(k, side);
    assert(k / side < side) by (nonlinear_arith)
        requires
            side > 0,
            0 <= k < side * side,
            k == side * (k / side) + k % side,
            0 <= k % side < side,
    ;
}

proof fn lemma_low_bit(z: u32)
    by (bit_vector)
    ensures
        z & 1 == z % 2,
{
}

proof fn lemma_xor_low_bit(x: u32, y: u32, p: u32)
    by (bit_vector)
    requires
        p < 32,
    ensures
        ((x ^ y) >> p) & 1 == (if (x >> p) & 1 == (y >> p) & 1 {
            0u32
        } else {
            1u32
        }),
{
}

proof fn lemma_place_bits(v: u32, low: u32, high: u32, at: u32)
    by (bit_vector)
    requires
        at < 30,
        low <= 1,
        high <= 1,
        v & ((((1u32 << (at + 2) as u32)) - 1) as u32) == 0,
    ensures
        (v | (low << at)) | (high << ((at + 1) as u32)) == v + (low << at) + (high << ((at + 1) as u32)),
{
}

/// Computes the rank of cell `(x, y)` of the matrix of the given order by
/// interleaving the bits of `y` with those of `x XOR y`, lowest input bit to
/// highest output position.
pub fn bayer_cell(order: u8, x: u32, y: u32) -> (v: u32)
    requires
        order <= MAX_ORDER,
    ensures
        v == bayer_rank(order as nat, x as nat, y as nat),
        v < pow2(2 * order as nat),
{
    let xor = x ^ y;
    let n: u32 = order as u32;
    let mut v: u32 = 0;
    let mut p: u32 = 0;
    while p < n
        invariant
            n == order,
            n <= 15,
            p <= n,
            xor == x ^ y,
            v == rank_below(n as nat, x as nat, y as nat, p as nat),
        decreases n - p,
    {
        let bit_idx: u32 = 2 * (n - p - 1);
        let low: u32 = (y >> p) & 1;
        let high: u32 = (xor >> p) & 1;
        proof {
            let e = bit_idx as nat;
            vstd::arithmetic::power2::lemma2_to64();
            vstd::bits::lemma_u32_shr_is_div(y, p);
            vstd::bits::lemma_u32_shr_is_div(x, p);
            lemma_low_bit(y >> p);
            lemma_low_bit(x >> p);
            lemma_xor_low_bit(x, y, p);
            // the digits placed so far leave the positions from `bit_idx + 1` down empty
            lemma_rank_below_is_prefix(n as nat, x as nat, y as nat, p as nat);
            vstd::arithmetic::div_mod::lemma_mod_multiples_basic(
                rank_prefix(x as nat, y as nat, p as nat) as int,
                pow2(e + 2) as int,
            );
            vstd::bits::lemma_u32_low_bits_mask_is_mod(v, e + 2);
            vstd::bits::lemma_u32_shl_is_mul(1, (bit_idx + 2) as u32);
            lemma_place_bits(v, low, high, bit_idx);
            vstd::bits::lemma_u32_shl_is_mul(low, bit_idx);
            vstd::bits::lemma_u32_shl_is_mul(high, (bit_idx + 1) as u32);
        }
        v |= low << bit_idx;
        v |= high << (bit_idx + 1);
        p += 1;
    }
    proof {
        lemma_rank_bound(order as nat, x as nat, y as nat);
    }
    v
}

/// The cells of the matrix of the given order in storage order, row by row:
/// row `y` holds the cells `(0, y)`, `(1, y)` and so on, so the cell at index
/// `k` is cell `(k % side, k / side)`, where `side` is `2^order`.
pub open spec fn bayer_cells(order: nat) -> Seq<nat> {
    Seq::new(
        pow2(2 * order),
        |k: int| bayer_rank(order, (k % pow2(order) as int) as nat, (k / pow2(order) as int) as nat),
    )
}

/// All pairs of numbers below `side`, by the first number and then by the
/// second.
///
/// This is `Itertools::cartesian_product` of the range `0..side` with itself,
/// collected with `Itertools::collect_vec`. The product iterator walks its
/// second range once for every item of its first, so the pair at position `k`
/// is `(k / side, k % side)` and there are `side * side` pairs.
#[verifier::external_body]
fn cell_coordinates(side: u32) -> (pairs: Vec<(u32, u32)>)
    requires
        side * side <= usize::MAX,
    ensures
        pairs@.len() == side * side,
        forall|k: int|
            0 <= k < pairs@.len() ==> (#[trigger] pairs@[k]).0 == k / side as int && pairs@[k].1
                == k % side as int,
{
    (0..side).cartesian_product(0..side).collect_vec()
}

/// A square, tileable matrix of dither thresholds of side `2^order`.
///
/// Each cell holds a rank below `4^order`; the threshold it stands for is the
/// rank divided by `4^order`, a number in `[0, 1)`. Cells are stored row by
/// row: row `y` holds the cells `(0, y)`, `(1, y)` and so on. The matrix never
/// changes once it is built.
pub struct ThresholdMatrix {
    order: u8,
    side: u32,
    cells: Vec<u32>,
}

impl View for ThresholdMatrix {
    type V = Seq<nat>;

    closed spec fn view(&self) -> Seq<nat> {
        self.cells@.map_values(|c: u32| c as nat)
    }
}

impl ThresholdMatrix {
    /// A matrix holds the ranks of its order, and nothing else.
    #[verifier::type_invariant]
    pub closed spec fn well_formed(self) -> bool {
        &&& self.order <= MAX_ORDER
        &&& self.side == pow2(self.order as nat)
        &&& self@ == bayer_cells(self.order as nat)
    }

    /// The order of the matrix: the base-2 logarithm of its side.
    pub closed spec fn order(self) -> nat {
        self.order as nat
    }

    /// Builds the matrix of side `2^side_length_order`.
    pub fn bayer_matrix(side_length_order: u8) -> (matrix: ThresholdMatrix)
        requires
            side_length_order <= MAX_ORDER,
        ensures
            matrix.order() == side_length_order,
            matrix@ == bayer_cells(side_length_order as nat),
    {
        let ghost n = side_length_order as nat;
        proof {
            vstd::arithmetic::power2::lemma2_to64();
            vstd::arithmetic::power2::lemma_pow2_adds(n, n);
            vstd::bits::lemma_u32_shl_is_mul(1, side_length_order as u32);
        }
        let side: u32 = 1u32 << (side_length_order as u32);
        let pairs = cell_coordinates(side);
        let mut cells: Vec<u32> = Vec::new();
        let mut k: usize = 0;
        while k < pairs.len()
            invariant
                side_length_order <= MAX_ORDER,
                n == side_length_order,
                side == pow2(n),
                pairs@.len() == pow2(2 * n),
                forall|i: int|
                    0 <= i < pairs@.len() ==> (#[trigger] pairs@[i]).0 == i / side as int
                        && pairs@[i].1 == i % side as int,
                k <= pairs.len(),
                cells@.len() == k,
                forall|i: int|
                    0 <= i < k ==> #[trigger] cells@[i] == bayer_rank(
                        n,
                        (i % side as int) as nat,
                        (i / side as int) as nat,
                    ),
            decreases pairs.len() - k,
        {
            // rows are walked first, and each row from left to right
            let (y, x) = pairs[k];
            cells.push(bayer_cell(side_length_order, x, y));
            k += 1;
        }
        assert(cells@.map_values(|c: u32| c as nat) =~= bayer_cells(n));
        ThresholdMatrix { order: side_length_order, side, cells }
    }

    /// The side of the matrix, `2^order`.
    pub fn side_length(&self) -> (side: u32)
        ensures
            side == pow2(self.order()),
            1 <= side <= 32768,
    {
        proof {
            use_type_invariant(self);
            vstd::arithmetic::power2::lemma2_to64();
        }
        self.side
    }

    /// The number of cells, `4^order`: the denominator of every threshold.
    pub fn levels(&self) -> (count: u32)
        ensures
            count == pow2(2 * self.order()),
            1 <= count <= 1_073_741_824,
    {
        let side = self.side_length();
        proof {
            vstd::arithmetic::power2::lemma_pow2_adds(self.order(), self.order());
            assert(1 <= side * side <= 32768 * 32768) by (nonlinear_arith)
                requires
                    1 <= side <= 32768,
            ;
        }
        side * side
    }

    /// The rank of the threshold that applies to pixel `(x, y)`. The matrix
    /// tiles the plane; `y` selects the row and `x` the column, so the pixel
    /// reads cell `(x mod side, y mod side)`.
    pub fn get(&self, x: u32, y: u32) -> (rank: u32)
        ensures
            rank == bayer_rank(
                self.order(),
                x as nat % pow2(self.order()),
                y as nat % pow2(self.order()),
            ),
            rank < pow2(2 * self.order()),
    {
        let side = self.side_length() as usize;
        let i = y as usize % side;
        let j = x as usize % side;
        proof {
            use_type_invariant(self);
            vstd::arithmetic::power2::lemma_pow2_adds(self.order(), self.order());
            assert(i * side + j < side * side && i * side <= 32768 * 32768) by (nonlinear_arith)
                requires
                    0 <= i < side,
                    0 <= j < side,
                    side <= 32768,
            ;
            vstd::arithmetic::div_mod::lemma_fundamental_div_mod_converse(
                i * side + j,
                side as int,
                i as int,
                j as int,
            );
            lemma_rank_bound(self.order(), j as nat, i as nat);
            assert(bayer_cells(self.order()).len() == side * side);
            assert(self@[i * side + j] == self.cells@[i * side + j] as nat);
        }
        self.cells[i * side + j]
    }
}

} // verus!
