//! The Rescue permutation over the Goldilocks field: a width twelve state,
//! rounds of a power map, a Cauchy diffusion matrix and round constants,
//! then the inverse power map, the matrix and constants again.
use vstd::prelude::*;
use crate::crypto::{le_word, shake256, spec_shake256};
use crate::field::{Felt, fadd, finv, fmul, fpow, p};
use crate::sponge::chunk_at;

verus! {

broadcast use Felt::lemma_val_injective, Felt::lemma_from_val;

/// The state width.
pub const WIDTH: usize = 12;
/// The rate of the sponge built on the permutation.
pub const RATE: usize = 8;
/// The capacity of the sponge built on the permutation.
pub const CAPACITY: usize = WIDTH - RATE;
/// The exponent of the power map.
pub const ALPHA: u64 = 7;
/// The exponent of the inverse power map.
pub const ALPHA_INV: u64 = 10540996611094048183;
/// The number of rounds.
pub const ROUNDS: usize = 8;

/// The bytes the round constants are drawn from.
pub open spec fn spec_constant_seed() -> Seq<u8> {
    seq![81u8, 86, 82, 70, 47, 114, 101, 115, 99, 117, 101, 47, 118, 49, 47, 114, 111, 117, 110, 100, 45, 99, 111,
        110, 115, 116, 97, 110, 116, 115]
}

fn constant_seed() -> (r: Vec<u8>)
    ensures
        r@ == spec_constant_seed(),
{
    let r = vec![81u8, 86, 82, 70, 47, 114, 101, 115, 99, 117, 101, 47, 118, 49, 47, 114, 111, 117, 110, 100, 45, 99,
        111, 110, 115, 116, 97, 110, 116, 115];
    assert(r@ =~= spec_constant_seed());
    r
}

/// Entry (i, j) of the diffusion matrix: the inverse of i plus the width
/// plus j.
pub open spec fn mds_val(i: nat, j: nat) -> nat {
    finv((i + WIDTH + j) as nat)
}

/// The diffusion matrix as rows of field elements.
pub open spec fn spec_mds() -> Seq<Seq<Felt>> {
    Seq::new(WIDTH as nat, |i: int| Seq::new(WIDTH as nat, |j: int| Felt::from_val(mds_val(i as nat, j as nat))))
}

/// A matrix of the state width held as rows of field elements.
pub open spec fn matrix_view(m: [[Felt; WIDTH]; WIDTH]) -> Seq<Seq<Felt>> {
    Seq::new(WIDTH as nat, |i: int| m@[i]@)
}

/// The Cauchy diffusion matrix.
pub fn mds() -> (m: [[Felt; WIDTH]; WIDTH])
    ensures
        matrix_view(m) == spec_mds(),
{
    let mut m = [[Felt::zero(); WIDTH]; WIDTH];
    let mut i: usize = 0;
    while i < WIDTH
        invariant
            i <= WIDTH,
            forall|r: int| 0 <= r < i ==> #[trigger] m@[r]@ == spec_mds()[r],
        decreases WIDTH - i,
    {
        let mut row = [Felt::zero(); WIDTH];
        let mut j: usize = 0;
        while j < WIDTH
            invariant
                j <= WIDTH,
                i < WIDTH,
                forall|c: int| 0 <= c < j ==> #[trigger] row@[c] == spec_mds()[i as int][c],
            decreases WIDTH - j,
        {
            let x = Felt::new(i as u64);
            let y = Felt::new((WIDTH + j) as u64);
            proof {
                vstd::arithmetic::div_mod::lemma_small_mod(i as nat, p());
                vstd::arithmetic::div_mod::lemma_small_mod((WIDTH + j) as nat, p());
                vstd::arithmetic::div_mod::lemma_small_mod((i + WIDTH + j) as nat, p());
                crate::field::lemma_fpow_bound((i + WIDTH + j) as nat, (p() - 2) as nat);
            }
            let v = x.add(y).inv();
            proof {
                let e = spec_mds()[i as int][j as int];
                assert(e == Felt::from_val(mds_val(i as nat, j as nat)));
                assert(e.val() == mds_val(i as nat, j as nat));
                assert(v == e);
            }
            row[j] = v;
            j = j + 1;
        }
        assert(row@ =~= spec_mds()[i as int]);
        m[i] = row;
        i = i + 1;
    }
    assert(matrix_view(m) =~= spec_mds());
    m
}

/// The bytes of the round constants.
pub open spec fn rc_bytes() -> Seq<u8> {
    spec_shake256(spec_constant_seed(), (2 * ROUNDS * WIDTH * 8) as nat)
}

/// Round constant i of half round r: the little endian word at its place
/// in the drawn bytes, reduced.
pub open spec fn rc_val(r: nat, i: nat) -> nat {
    le_word(chunk_at(rc_bytes(), ((r * WIDTH + i) * 8) as int)) as nat % p()
}

/// The round constants of half round r.
pub open spec fn rc_row(r: nat) -> Seq<Felt> {
    Seq::new(WIDTH as nat, |i: int| Felt::from_val(rc_val(r, i as nat)))
}

/// The round constants, one row per half round, drawn from SHAKE256 of a
/// fixed seed eight bytes to a constant.
pub fn round_constants() -> (rc: [[Felt; WIDTH]; 16])
    ensures
        forall|r: int| 0 <= r < 16 ==> #[trigger] rc@[r]@ == rc_row(r as nat),
{
    let seed = constant_seed();
    let bytes = shake256(&seed, 2 * ROUNDS * WIDTH * 8);
    let mut out = [[Felt::zero(); WIDTH]; 16];
    let mut r: usize = 0;
    while r < 16
        invariant
            r <= 16,
            bytes@ == rc_bytes(),
            forall|q: int| 0 <= q < r ==> #[trigger] out@[q]@ == rc_row(q as nat),
        decreases 16 - r,
    {
        let mut row = [Felt::zero(); WIDTH];
        let mut i: usize = 0;
        while i < WIDTH
            invariant
                i <= WIDTH,
                r < 16,
                bytes@ == rc_bytes(),
                forall|c: int| 0 <= c < i ==> #[trigger] row@[c] == rc_row(r as nat)[c],
            decreases WIDTH - i,
        {
            let word = crate::sponge::chunk_lane(&bytes, (r * WIDTH + i) * 8);
            let v = Felt::new(word);
            proof {
                let e = rc_row(r as nat)[i as int];
                vstd::arithmetic::div_mod::lemma_mod_bound(word as int, p() as int);
                assert(e == Felt::from_val(rc_val(r as nat, i as nat)));
                assert(e.val() == rc_val(r as nat, i as nat));
                assert(v == e);
            }
            row[i] = v;
            i = i + 1;
        }
        assert(row@ =~= rc_row(r as nat));
        out[r] = row;
        r = r + 1;
    }
    out
}


/// The sum over the first k places of a matrix row times a vector, added
/// up from the first place on.
pub open spec fn dot_row(row: Seq<Felt>, v: Seq<Felt>, k: nat) -> nat
    decreases k,
{
    if k == 0 {
        0
    } else {
        fadd(dot_row(row, v, (k - 1) as nat), fmul(row[k - 1].val(), v[k - 1].val()))
    }
}

/// A matrix times a state.
pub open spec fn mat_apply(m: Seq<Seq<Felt>>, s: Seq<Felt>) -> Seq<Felt> {
    Seq::new(WIDTH as nat, |i: int| Felt::from_val(dot_row(m[i], s, WIDTH as nat)))
}

/// Every element of a state raised to a power.
pub open spec fn power_map(s: Seq<Felt>, e: nat) -> Seq<Felt> {
    Seq::new(s.len(), |i: int| Felt::from_val(fpow(s[i].val(), e)))
}

/// A state plus a row of constants, place by place.
pub open spec fn add_row(s: Seq<Felt>, c: Seq<Felt>) -> Seq<Felt> {
    Seq::new(WIDTH as nat, |i: int| Felt::from_val(fadd(s[i].val(), c[i].val())))
}

/// Round r of the permutation: the power map, the matrix and the first
/// constants, then the inverse power map, the matrix and the second
/// constants.
pub open spec fn rescue_round(s: Seq<Felt>, r: nat) -> Seq<Felt> {
    let half = add_row(mat_apply(spec_mds(), power_map(s, ALPHA as nat)), rc_row(2 * r));
    add_row(mat_apply(spec_mds(), power_map(half, ALPHA_INV as nat)), rc_row(2 * r + 1))
}

/// The state after the first k rounds.
pub open spec fn rescue_state(input: Seq<Felt>, k: nat) -> Seq<Felt>
    decreases k,
{
    if k == 0 {
        input
    } else {
        rescue_round(rescue_state(input, (k - 1) as nat), (k - 1) as nat)
    }
}

proof fn lemma_fpow_lt(x: nat, e: nat)
    ensures
        fpow(x, e) < p(),
{
    if e > 0 {
        assert(fpow(x, e) == fmul(x, fpow(x, (e - 1) as nat)));
    }
}

proof fn lemma_dot_row_bound(row: Seq<Felt>, v: Seq<Felt>, k: nat)
    ensures
        dot_row(row, v, k) < p(),
    decreases k,
{
    if k > 0 {
        lemma_dot_row_bound(row, v, (k - 1) as nat);
    }
}

/// A matrix times a state.
pub fn apply_mds(m: &[[Felt; WIDTH]; WIDTH], state: &[Felt; WIDTH]) -> (out: [Felt; WIDTH])
    ensures
        out@ == mat_apply(matrix_view(*m), state@),
{
    let mut out = [Felt::zero(); WIDTH];
    let mut i: usize = 0;
    while i < WIDTH
        invariant
            i <= WIDTH,
            forall|r: int| 0 <= r < i ==> #[trigger] out@[r] == mat_apply(matrix_view(*m), state@)[r],
        decreases WIDTH - i,
    {
        let mut acc = Felt::zero();
        let mut j: usize = 0;
        while j < WIDTH
            invariant
                j <= WIDTH,
                i < WIDTH,
                acc.val() == dot_row(m@[i as int]@, state@, j as nat),
            decreases WIDTH - j,
        {
            acc = acc.add(m[i][j].mul(state[j]));
            j = j + 1;
        }
        proof {
            lemma_dot_row_bound(m@[i as int]@, state@, WIDTH as nat);
            assert(matrix_view(*m)[i as int] == m@[i as int]@);
            let e = mat_apply(matrix_view(*m), state@)[i as int];
            assert(e == Felt::from_val(dot_row(m@[i as int]@, state@, WIDTH as nat)));
            assert(e.val() == acc.val());
        }
        out[i] = acc;
        i = i + 1;
    }
    assert(out@ =~= mat_apply(matrix_view(*m), state@));
    out
}

fn power_state(state: &mut [Felt; WIDTH], e: u64)
    ensures
        final(state)@ == power_map(old(state)@, e as nat),
{
    let mut i: usize = 0;
    while i < WIDTH
        invariant
            i <= WIDTH,
            forall|r: int| 0 <= r < i ==> #[trigger] state@[r] == power_map(old(state)@, e as nat)[r],
            forall|r: int| i <= r < WIDTH ==> #[trigger] state@[r] == old(state)@[r],
        decreases WIDTH - i,
    {
        let v = state[i].pow(e);
        proof {
            lemma_fpow_lt(old(state)@[i as int].val(), e as nat);
            let w = power_map(old(state)@, e as nat)[i as int];
            assert(w == Felt::from_val(fpow(old(state)@[i as int].val(), e as nat)));
            assert(w.val() == v.val());
        }
        state[i] = v;
        i = i + 1;
    }
    assert(state@ =~= power_map(old(state)@, e as nat));
}

/// Raises every element of the state to the power map exponent.
pub fn sbox(state: &mut [Felt; WIDTH])
    ensures
        final(state)@ == power_map(old(state)@, ALPHA as nat),
{
    power_state(state, ALPHA);
}

/// Raises every element of the state to the inverse power map exponent.
pub fn inverse_sbox(state: &mut [Felt; WIDTH])
    ensures
        final(state)@ == power_map(old(state)@, ALPHA_INV as nat),
{
    power_state(state, ALPHA_INV);
}

fn add_constants(state: &mut [Felt; WIDTH], c: &[Felt; WIDTH])
    ensures
        final(state)@ == add_row(old(state)@, c@),
{
    let mut i: usize = 0;
    while i < WIDTH
        invariant
            i <= WIDTH,
            forall|r: int| 0 <= r < i ==> #[trigger] state@[r] == add_row(old(state)@, c@)[r],
            forall|r: int| i <= r < WIDTH ==> #[trigger] state@[r] == old(state)@[r],
        decreases WIDTH - i,
    {
        let v = state[i].add(c[i]);
        proof {
            let w = add_row(old(state)@, c@)[i as int];
            assert(w == Felt::from_val(fadd(old(state)@[i as int].val(), c@[i as int].val())));
            assert(w.val() == v.val());
        }
        state[i] = v;
        i = i + 1;
    }
    assert(state@ =~= add_row(old(state)@, c@));
}

/// The states of the permutation: the input and the state after each round.
pub fn permute_states(input: &[Felt; WIDTH]) -> (states: Vec<[Felt; WIDTH]>)
    ensures
        states@.len() == ROUNDS + 1,
        forall|k: int| 0 <= k <= ROUNDS ==> #[trigger] states@[k]@ == rescue_state(input@, k as nat),
{
    let m = mds();
    let rc = round_constants();
    let mut states: Vec<[Felt; WIDTH]> = Vec::new();
    let mut state = *input;
    states.push(state);
    let mut r: usize = 0;
    while r < ROUNDS
        invariant
            r <= ROUNDS,
            matrix_view(m) == spec_mds(),
            forall|q: int| 0 <= q < 16 ==> #[trigger] rc@[q]@ == rc_row(q as nat),
            states@.len() == r + 1,
            state@ == rescue_state(input@, r as nat),
            forall|k: int| 0 <= k <= r ==> #[trigger] states@[k]@ == rescue_state(input@, k as nat),
        decreases ROUNDS - r,
    {
        let ghost s0 = state@;
        sbox(&mut state);
        state = apply_mds(&m, &state);
        add_constants(&mut state, &rc[2 * r]);
        inverse_sbox(&mut state);
        state = apply_mds(&m, &state);
        add_constants(&mut state, &rc[2 * r + 1]);
        proof {
            assert(state@ == rescue_round(s0, r as nat));
        }
        states.push(state);
        r = r + 1;
    }
    states
}

/// Applies the permutation to a state in place.
pub fn permute(state: &mut [Felt; WIDTH])
    ensures
        final(state)@ == rescue_state(old(state)@, ROUNDS as nat),
{
    let states = permute_states(state);
    *state = states[ROUNDS];
}


/// A row scaled by a factor, place by place.
pub open spec fn scaled_row(r: Seq<Felt>, f: Felt) -> Seq<Felt> {
    Seq::new(WIDTH as nat, |k: int| Felt::from_val(fmul(r[k].val(), f.val())))
}

/// A row less a factor times another row, place by place.
pub open spec fn reduced_row(r: Seq<Felt>, f: Felt, other: Seq<Felt>) -> Seq<Felt> {
    Seq::new(WIDTH as nat, |k: int| Felt::from_val(crate::field::fsub(r[k].val(), fmul(f.val(), other[k].val()))))
}

fn scale_row(r: [Felt; WIDTH], f: Felt) -> (out: [Felt; WIDTH])
    ensures
        out@ == scaled_row(r@, f),
{
    let mut out = r;
    let mut k: usize = 0;
    while k < WIDTH
        invariant
            k <= WIDTH,
            forall|j: int| 0 <= j < k ==> #[trigger] out@[j] == scaled_row(r@, f)[j],
        decreases WIDTH - k,
    {
        let v = r[k].mul(f);
        proof {
            let w = scaled_row(r@, f)[k as int];
            assert(w == Felt::from_val(fmul(r@[k as int].val(), f.val())));
            assert(w.val() == v.val());
        }
        out[k] = v;
        k = k + 1;
    }
    assert(out@ =~= scaled_row(r@, f));
    out
}

fn reduce_row(r: [Felt; WIDTH], f: Felt, other: [Felt; WIDTH]) -> (out: [Felt; WIDTH])
    ensures
        out@ == reduced_row(r@, f, other@),
{
    let mut out = r;
    let mut k: usize = 0;
    while k < WIDTH
        invariant
            k <= WIDTH,
            forall|j: int| 0 <= j < k ==> #[trigger] out@[j] == reduced_row(r@, f, other@)[j],
        decreases WIDTH - k,
    {
        let v = r[k].sub(f.mul(other[k]));
        proof {
            let w = reduced_row(r@, f, other@)[k as int];
            assert(w == Felt::from_val(crate::field::fsub(r@[k as int].val(), fmul(f.val(), other@[k as int].val()))));
            assert(w.val() == v.val());
        }
        out[k] = v;
        k = k + 1;
    }
    assert(out@ =~= reduced_row(r@, f, other@));
    out
}

/// The identity matrix of the state width.
pub open spec fn identity_matrix() -> Seq<Seq<Felt>> {
    Seq::new(WIDTH as nat, |i: int| Seq::new(WIDTH as nat, |j: int| Felt::from_val(if i == j { 1nat } else { 0nat })))
}

/// The first row from r down whose entry in a column is nonzero, the width
/// where there is none.
pub open spec fn gj_pivot(a: Seq<Seq<Felt>>, col: int, r: int) -> int
    decreases WIDTH - r,
{
    if r >= WIDTH {
        WIDTH as int
    } else if a[r][col].val() != 0 {
        r
    } else {
        gj_pivot(a, col, r + 1)
    }
}

/// A matrix with two rows exchanged.
pub open spec fn swap_rows(m: Seq<Seq<Felt>>, i: int, j: int) -> Seq<Seq<Felt>> {
    m.update(i, m[j]).update(j, m[i])
}

/// One column of Gauss-Jordan elimination on a matrix and its companion:
/// where the column has a nonzero entry from the diagonal down, the first
/// such row is exchanged with the diagonal row in both, the diagonal row is
/// scaled by the inverse of its diagonal entry in both, and every other row
/// less its entry in the column times the diagonal row, in both.
pub open spec fn gj_step(st: (Seq<Seq<Felt>>, Seq<Seq<Felt>>), col: int) -> (Seq<Seq<Felt>>, Seq<Seq<Felt>>) {
    let (a, m) = st;
    let pv = gj_pivot(a, col, col);
    if pv >= WIDTH {
        st
    } else {
        let a1 = swap_rows(a, pv, col);
        let m1 = swap_rows(m, pv, col);
        let s = Felt::from_val(finv(a1[col][col].val()));
        let a2 = a1.update(col, scaled_row(a1[col], s));
        let m2 = m1.update(col, scaled_row(m1[col], s));
        (Seq::new(WIDTH as nat, |r: int| if r == col { a2[r] } else { reduced_row(a2[r], a2[r][col], a2[col]) }),
         Seq::new(WIDTH as nat, |r: int| if r == col { m2[r] } else { reduced_row(m2[r], a2[r][col], m2[col]) }))
    }
}

/// The matrix and its companion after the first k columns of the
/// elimination, starting from the diffusion matrix and the identity.
pub open spec fn gj_state(k: nat) -> (Seq<Seq<Felt>>, Seq<Seq<Felt>>)
    decreases k,
{
    if k == 0 {
        (spec_mds(), identity_matrix())
    } else {
        gj_step(gj_state((k - 1) as nat), (k - 1) as int)
    }
}

/// The inverse the elimination gives: the companion of the identity after
/// every column.
pub open spec fn spec_mds_inverse() -> Seq<Seq<Felt>> {
    gj_state(WIDTH as nat).1
}

/// The inverse of the diffusion matrix by Gauss-Jordan elimination: the
/// first nonzero entry of each column from the diagonal down is swapped up,
/// scaled to one and cleared from every other row, and the same row
/// operations carried out on the identity give the inverse.
pub fn mds_inverse() -> (inv: [[Felt; WIDTH]; WIDTH])
    ensures
        matrix_view(inv) == spec_mds_inverse(),
{
    let mut a = mds();
    let mut inv = [[Felt::zero(); WIDTH]; WIDTH];
    let mut i: usize = 0;
    while i < WIDTH
        invariant
            i <= WIDTH,
            forall|r: int| 0 <= r < i ==> #[trigger] inv@[r]@ == identity_matrix()[r],
            forall|r: int, c: int| i <= r < WIDTH && 0 <= c < WIDTH ==> (#[trigger] inv@[r]@[c]).val() == 0,
        decreases WIDTH - i,
    {
        let mut row = inv[i];
        row[i] = Felt::one();
        proof {
            assert forall|c: int| 0 <= c < WIDTH implies #[trigger] row@[c] == identity_matrix()[i as int][c] by {
                assert(identity_matrix()[i as int][c] == Felt::from_val(if i == c { 1nat } else { 0nat }));
                assert(Felt::from_val(if i == c { 1nat } else { 0nat }).val() == if i == c { 1nat } else { 0nat });
            }
            assert(row@ =~= identity_matrix()[i as int]);
        }
        inv[i] = row;
        i = i + 1;
    }
    proof {
        assert(matrix_view(inv) =~= identity_matrix());
    }
    let zero = Felt::zero();
    let mut col: usize = 0;
    while col < WIDTH
        invariant
            col <= WIDTH,
            zero.val() == 0,
            (matrix_view(a), matrix_view(inv)) == gj_state(col as nat),
        decreases WIDTH - col,
    {
        let ghost a0 = matrix_view(a);
        let ghost m0 = matrix_view(inv);
        let mut pivot = col;
        while pivot < WIDTH && a[pivot][col] == zero
            invariant
                col <= pivot <= WIDTH,
                col < WIDTH,
                zero.val() == 0,
                a0 == matrix_view(a),
                gj_pivot(a0, col as int, col as int) == gj_pivot(a0, col as int, pivot as int),
            decreases WIDTH - pivot,
        {
            proof {
                assert(a0[pivot as int][col as int] == a@[pivot as int]@[col as int]);
            }
            pivot = pivot + 1;
        }
        proof {
            if pivot < WIDTH {
                assert(a0[pivot as int][col as int] == a@[pivot as int]@[col as int]);
                assert(a@[pivot as int]@[col as int] != zero);
            }
            assert(gj_pivot(a0, col as int, col as int) == pivot as int);
        }
        if pivot < WIDTH {
            let ta = a[pivot];
            a[pivot] = a[col];
            a[col] = ta;
            let ti = inv[pivot];
            inv[pivot] = inv[col];
            inv[col] = ti;
            let ghost a1 = swap_rows(a0, pivot as int, col as int);
            let ghost m1 = swap_rows(m0, pivot as int, col as int);
            proof {
                assert(matrix_view(a) =~= a1);
                assert(matrix_view(inv) =~= m1);
            }
            let scale = a[col][col].inv();
            proof {
                lemma_fpow_lt(a1[col as int][col as int].val(), (p() - 2) as nat);
                assert(matrix_view(a)[col as int] == a@[col as int]@);
                assert(a@[col as int]@[col as int] == a1[col as int][col as int]);
                assert(scale.val() == finv(a1[col as int][col as int].val()));
                assert(Felt::from_val(finv(a1[col as int][col as int].val())).val() == finv(a1[col as int][col as int].val()));
                assert(scale == Felt::from_val(finv(a1[col as int][col as int].val())));
            }
            a[col] = scale_row(a[col], scale);
            inv[col] = scale_row(inv[col], scale);
            let ghost a2 = a1.update(col as int, scaled_row(a1[col as int], scale));
            let ghost m2 = m1.update(col as int, scaled_row(m1[col as int], scale));
            proof {
                assert(matrix_view(a) =~= a2);
                assert(matrix_view(inv) =~= m2);
            }
            let mut row: usize = 0;
            while row < WIDTH
                invariant
                    row <= WIDTH,
                    col < WIDTH,
                    a@[col as int]@ == a2[col as int],
                    inv@[col as int]@ == m2[col as int],
                    a2.len() == WIDTH,
                    m2.len() == WIDTH,
                    forall|r: int| 0 <= r < row ==> #[trigger] a@[r]@
                        == (if r == col { a2[r] } else { reduced_row(a2[r], a2[r][col as int], a2[col as int]) }),
                    forall|r: int| 0 <= r < row ==> #[trigger] inv@[r]@
                        == (if r == col { m2[r] } else { reduced_row(m2[r], a2[r][col as int], m2[col as int]) }),
                    forall|r: int| row <= r < WIDTH ==> #[trigger] a@[r]@ == a2[r],
                    forall|r: int| row <= r < WIDTH ==> #[trigger] inv@[r]@ == m2[r],
                decreases WIDTH - row,
            {
                if row != col {
                    let factor = a[row][col];
                    a[row] = reduce_row(a[row], factor, a[col]);
                    inv[row] = reduce_row(inv[row], factor, inv[col]);
                }
                row = row + 1;
            }
            proof {
                let st = gj_step((a0, m0), col as int);
                assert(matrix_view(a) =~= st.0);
                assert(matrix_view(inv) =~= st.1);
            }
        }
        col = col + 1;
    }
    inv
}

} // verus!
