//! The general proof protocol over the constraint framework: the base trace
//! columns are committed over a low degree extension, the constraints are
//! folded into one composition quotient under transcript weights, and the
//! composition is shown close to low degree by FRI.
use vstd::prelude::*;
use crate::air::{Air, TraceTable, cell_val, Transition};
use crate::crypto::{Digest, spec_sha3_256};
use crate::field::{Felt, GENERATOR, MODULUS, TWO_ADICITY, fadd, finv, fmul, fpow, fsub, p, root_of_unity};
use crate::fri::{FriParams, FriProof, Transcript, felt_draw, fri_accepted, fri_shape, fri_verifies, fri_honest, domain_state};
use crate::merkle::{MerkleProof, MerkleTree, digests, fold_path, hash_row, spec_row_leaf, tree_path};
use crate::poly;
use crate::codec::{same_layer, same_opening, same_proof, same_query, same_row};
use crate::util::{is_pow2, log2, log2_exact, next_pow2, next_power_of_two, two_pow, lemma_shift_is_pow};

verus! {

broadcast use Felt::lemma_val_injective, Felt::lemma_from_val, TraceTable::lemma_width_fits,
    TraceTable::lemma_length_fits;

/// The protocol parameters the prover and the verifier share.
pub struct StarkParams {
    /// The blow up factor of the low degree extension, a power of two.
    pub lde_blowup: usize,
    /// The number of query openings that back the soundness argument.
    pub num_queries: usize,
}

/// One opened trace row, the cells of every base column at one domain index.
pub struct RowOpening {
    /// The index of the row in the extended domain.
    pub index: usize,
    /// The opened cell of each column.
    pub values: Vec<Felt>,
    /// The authentication path of the row under the trace root.
    pub path: MerkleProof,
}

/// The trace openings that back one query: the current and next rows at the
/// query position and at the paired position half the domain away.
pub struct QueryOpening {
    pub rows: Vec<RowOpening>,
}

/// A proof that a trace satisfies an algebraic description.
pub struct StarkProof {
    /// The Merkle root over the rows of the extended base trace.
    pub trace_root: Digest,
    /// The low degree proof over the composition.
    pub fri: FriProof<Felt>,
    /// The trace openings that tie the composition to the constraints.
    pub openings: Vec<QueryOpening>,
}

/// The parameters fit the description: a power of two blow up of at least two
/// that leaves room for every constraint degree, a trace of at least two rows,
/// and an extended domain inside the two adic subgroup and a word.
pub open spec fn params_fit(air: &Air, params: &StarkParams) -> bool {
    let n = air.spec_length();
    let lde = params.lde_blowup as nat;
    &&& air.wf()
    &&& n >= 2
    &&& is_pow2(lde)
    &&& lde >= 2
    &&& log2(n) + log2(lde) <= TWO_ADICITY
    &&& two_pow(log2(n) + log2(lde)) <= usize::MAX
    &&& forall|i: int| 0 <= i < air.spec_transitions().len()
        ==> 2 * next_pow2(#[trigger] air.spec_transitions()[i].degree as nat) <= lde
    &&& forall|k: int| 0 <= k < air.spec_permutations().len()
        ==> 2 * next_pow2((#[trigger] air.spec_permutations()[k].degree + 1) as nat) <= lde
}

/// The FRI schedule of a run: the extended domain, the query count, and the
/// blow up left over the composition's degree, the extension factor over the
/// next power of two of the largest constraint degree.
pub open spec fn stark_fri_params(air: &Air, params: &StarkParams) -> FriParams {
    FriParams {
        log_domain_size: (log2(air.spec_length()) + log2(params.lde_blowup as nat)) as u32,
        num_queries: params.num_queries,
        blowup: (params.lde_blowup as nat / next_pow2(air.spec_max_degree())) as usize,
    }
}

/// The generator of the subgroup of order two to the log.
pub open spec fn root_val(log: u32) -> nat {
    fpow(GENERATOR as nat, (((MODULUS - 1) as u64) >> log) as nat)
}

/// The evaluation domains of a run.
struct Domain {
    n: usize,
    size: usize,
    log_size: u32,
    lde_blowup: usize,
    fri_blowup: usize,
    omega_n: Felt,
    omega_h: Felt,
    shift: Felt,
}

impl Domain {
    spec fn fits(&self, air: &Air, params: &StarkParams) -> bool {
        &&& self.n == air.spec_length()
        &&& self.lde_blowup == params.lde_blowup
        &&& self.n >= 2
        &&& self.log_size == log2(self.n as nat) + log2(self.lde_blowup as nat)
        &&& self.log_size <= TWO_ADICITY
        &&& self.size == two_pow(self.log_size as nat)
        &&& self.size <= usize::MAX
        &&& self.size == self.n * self.lde_blowup
        &&& self.lde_blowup < self.size
        &&& self.size >= 4
        &&& self.fri_params(params.num_queries) == stark_fri_params(air, params)
        &&& self.fri_params(params.num_queries).valid()
        &&& self.fri_params(params.num_queries).spec_rounds() >= 1
        &&& self.shift.val() == GENERATOR
        &&& self.omega_n.val() == root_val(self.log_size)
        &&& self.omega_h.val() == root_val(log2(self.n as nat) as u32)
    }

    spec fn fri_params(&self, num_queries: usize) -> FriParams {
        FriParams { log_domain_size: self.log_size, num_queries, blowup: self.fri_blowup }
    }

    fn new(air: &Air, params: &StarkParams) -> (d: Domain)
        requires
            params_fit(air, params),
        ensures
            d.fits(air, params),
    {
        let n = air.length();
        let log_n = log2_exact(n);
        let lde_blowup = params.lde_blowup;
        let log_lde = log2_exact(lde_blowup);
        let log_size = log_n + log_lde;
        let degree = air.max_degree();
        proof {
            if degree == 1 {
                assert(next_pow2(1) == 1);
            } else if exists|i: int| 0 <= i < air.spec_transitions().len() && degree == #[trigger] air.spec_transitions()[i].degree {
                let i = choose|i: int| 0 <= i < air.spec_transitions().len() && degree == #[trigger] air.spec_transitions()[i].degree;
                assert(2 * next_pow2(air.spec_transitions()[i].degree as nat) <= lde_blowup);
            } else {
                let k = choose|k: int| 0 <= k < air.spec_permutations().len() && degree == #[trigger] air.spec_permutations()[k].degree + 1;
                assert(2 * next_pow2((air.spec_permutations()[k].degree + 1) as nat) <= lde_blowup);
            }
            assert(2 * next_pow2(degree as nat) <= lde_blowup);
            crate::util::lemma_next_pow2(degree as nat);
        }
        let factor = next_power_of_two(degree);
        let fri_blowup = lde_blowup / factor;
        proof {
            let lf = log2(factor as nat);
            crate::util::lemma_pow2_log2(factor as nat);
            crate::util::lemma_two_pow_is_pow2(lf + 1);
            assert(two_pow(lf + 1) == 2 * two_pow(lf));
            crate::util::lemma_two_pow_quotient(lf + 1, log_lde as nat);
            crate::util::lemma_two_pow_quotient(lf, log_lde as nat);
            crate::util::lemma_two_pow_is_pow2((log_lde - lf) as nat);
            assert(log_lde - lf >= 1);
            crate::util::lemma_two_pow_add(log_n as nat, log_lde as nat);
            crate::util::lemma_two_pow_monotone(2, log_size as nat);
            assert(two_pow(2) == 4) by { reveal_with_fuel(two_pow, 3); }
            assert(log_n >= 1) by {
                if log_n == 0 { assert(two_pow(0) == 1); }
            }
            assert(two_pow(log_n as nat) >= 2) by {
                crate::util::lemma_two_pow_monotone(1, log_n as nat);
                assert(two_pow(1) == 2) by { reveal_with_fuel(two_pow, 2); }
            }
            assert(lde_blowup < n * lde_blowup) by (nonlinear_arith)
                requires n >= 2, lde_blowup >= 2;
            assert(log_size < 64);
            lemma_shift_is_pow(log_size as usize);
        }
        let size = 1usize << (log_size as usize);
        proof {
            vstd::arithmetic::div_mod::lemma_small_mod(GENERATOR as nat, p());
        }
        Domain {
            n,
            size,
            log_size,
            lde_blowup,
            fri_blowup,
            omega_n: root_of_unity(log_size),
            omega_h: root_of_unity(log_n),
            shift: Felt::new(GENERATOR),
        }
    }

    fn fri_params_of(&self, num_queries: usize) -> (f: FriParams)
        ensures
            f == self.fri_params(num_queries),
    {
        FriParams { log_domain_size: self.log_size, num_queries, blowup: self.fri_blowup }
    }
}

/// The weighted quotient term of constraint i: a transition value over the
/// vanishing polynomial, times the last point factor when the last row is
/// exempt, or a base boundary value over its point. Running product rules and
/// boundaries on auxiliary columns, which the base trace does not commit,
/// contribute nothing.
pub open spec fn composition_term(
    air: &Air,
    weights: Seq<Felt>,
    point: nat,
    last_point: nat,
    boundary_points: Seq<Felt>,
    current: Seq<Felt>,
    next: Seq<Felt>,
    i: int,
) -> nat {
    let vanishing_inv = finv(fsub(fpow(point, air.spec_length()), 1));
    let t = air.spec_transitions().len() as int;
    if i < t {
        let c = air.spec_transitions()[i];
        let value = c.rule.value(current, next);
        let quotient = if c.exclude_last {
            fmul(fmul(value, fsub(point, last_point)), vanishing_inv)
        } else {
            fmul(value, vanishing_inv)
        };
        if c.uses_challenges {
            0
        } else {
            fmul(weights[i].val(), quotient)
        }
    } else {
        let b = air.spec_boundaries()[i - t];
        if b.column < air.spec_base_width() {
            let value = fsub(cell_val(current, b.column as int), b.value.val());
            let quotient = fmul(value, finv(fsub(point, boundary_points[i - t].val())));
            fmul(weights[i].val(), quotient)
        } else {
            0
        }
    }
}

/// The sum of the first k composition terms.
pub open spec fn composition_sum(
    air: &Air,
    weights: Seq<Felt>,
    point: nat,
    last_point: nat,
    boundary_points: Seq<Felt>,
    current: Seq<Felt>,
    next: Seq<Felt>,
    k: nat,
) -> nat
    decreases k,
{
    if k == 0 {
        0
    } else {
        fadd(
            composition_sum(air, weights, point, last_point, boundary_points, current, next, (k - 1) as nat),
            composition_term(air, weights, point, last_point, boundary_points, current, next, k - 1),
        )
    }
}

/// The number of composed constraints: every transition and every boundary.
pub open spec fn constraint_count(air: &Air) -> nat {
    air.spec_transitions().len() + air.spec_boundaries().len()
}

/// The composition value at a point from the current and next opened rows.
pub open spec fn composition(
    air: &Air,
    weights: Seq<Felt>,
    point: nat,
    last_point: nat,
    boundary_points: Seq<Felt>,
    current: Seq<Felt>,
    next: Seq<Felt>,
) -> nat {
    composition_sum(air, weights, point, last_point, boundary_points, current, next, constraint_count(air))
}

fn composition_value(
    air: &Air,
    weights: &[Felt],
    point: Felt,
    last_point: Felt,
    boundary_points: &[Felt],
    current: &[Felt],
    next: &[Felt],
) -> (r: Felt)
    requires
        air.wf(),
        weights@.len() == constraint_count(air),
        boundary_points@.len() == air.spec_boundaries().len(),
        constraint_count(air) <= usize::MAX,
    ensures
        r.val() == composition(air, weights@, point.val(), last_point.val(), boundary_points@, current@, next@),
{
    let n = air.length();
    let vanishing_inv = point.pow(n as u64).sub(Felt::one()).inv();
    proof {
        vstd::arithmetic::div_mod::lemma_small_mod(1, p());
    }
    let mut acc = Felt::zero();
    let transitions = air.transitions();
    let boundaries = air.boundaries();
    let t = transitions.len();
    let mut index: usize = 0;
    while index < t
        invariant
            t == air.spec_transitions().len(),
            transitions@ == air.spec_transitions(),
            weights@.len() == constraint_count(air),
            index <= t,
            vanishing_inv.val() == finv(fsub(fpow(point.val(), air.spec_length()), 1)),
            acc.val() == composition_sum(air, weights@, point.val(), last_point.val(), boundary_points@, current@, next@, index as nat),
        decreases t - index,
    {
        let constraint = &transitions[index];
        if !constraint.uses_challenges {
            let value = constraint.rule.eval(current, next);
            let quotient = if constraint.exclude_last {
                value.mul(point.sub(last_point)).mul(vanishing_inv)
            } else {
                value.mul(vanishing_inv)
            };
            acc = acc.add(weights[index].mul(quotient));
        } else {
            proof {
                vstd::arithmetic::div_mod::lemma_small_mod(acc.val(), p());
            }
        }
        index = index + 1;
    }
    let mut j: usize = 0;
    while j < boundaries.len()
        invariant
            t == air.spec_transitions().len(),
            boundaries@ == air.spec_boundaries(),
            boundary_points@.len() == air.spec_boundaries().len(),
            weights@.len() == constraint_count(air),
            constraint_count(air) <= usize::MAX,
            j <= boundaries@.len(),
            acc.val() == composition_sum(air, weights@, point.val(), last_point.val(), boundary_points@, current@, next@, (t + j) as nat),
        decreases boundaries@.len() - j,
    {
        let boundary = &boundaries[j];
        if boundary.column < air.base_width() {
            let cell = if boundary.column < current.len() { current[boundary.column] } else { Felt::zero() };
            let value = cell.sub(boundary.value);
            let quotient = value.mul(point.sub(boundary_points[j]).inv());
            acc = acc.add(weights[t + j].mul(quotient));
        } else {
            proof {
                vstd::arithmetic::div_mod::lemma_small_mod(acc.val(), p());
            }
        }
        j = j + 1;
    }
    acc
}

/// The transcript state after absorbing the trace root into the zero state.
pub open spec fn root_state(root: Digest) -> Seq<u8> {
    spec_sha3_256(Seq::new(32, |i: int| 0u8) + root@)
}

/// The values of k challenges drawn in turn from a transcript state.
pub open spec fn draws(state: Seq<u8>, k: nat) -> (Seq<nat>, Seq<u8>)
    decreases k,
{
    if k == 0 {
        (seq![], state)
    } else {
        let prev = draws(state, (k - 1) as nat);
        let d = felt_draw(prev.1);
        (prev.0.push(d.0), d.1)
    }
}

/// The composition weights a run draws after committing the trace root.
pub open spec fn stark_weights(root: Digest, count: nat) -> Seq<nat> {
    draws(root_state(root), count).0
}

/// The weights held as field elements.
pub open spec fn weights_felts(w: Seq<nat>) -> Seq<Felt> {
    Seq::new(w.len(), |i: int| Felt::from_val(w[i]))
}

fn draw_weights(root: &Digest, count: usize) -> (w: Vec<Felt>)
    ensures
        w@.len() == count,
        forall|i: int| 0 <= i < count ==> #[trigger] w@[i].val() == stark_weights(*root, count as nat)[i],
        w@ == weights_felts(stark_weights(*root, count as nat)),
{
    let mut transcript = Transcript::new();
    transcript.absorb_digest(root);
    let ghost start = transcript@;
    let mut w: Vec<Felt> = Vec::new();
    let mut i: usize = 0;
    while i < count
        invariant
            i <= count,
            start == root_state(*root),
            w@.len() == i,
            (draws(start, i as nat).1) == transcript@,
            forall|j: int| 0 <= j < i ==> #[trigger] w@[j].val() == draws(start, i as nat).0[j],
            draws(start, i as nat).0.len() == i,
        decreases count - i,
    {
        let ghost before = draws(start, i as nat);
        let x = transcript.challenge_felt();
        w.push(x);
        proof {
            assert(draws(start, (i + 1) as nat).0 == before.0.push(x.val()));
        }
        i = i + 1;
    }
    proof {
        lemma_draws_prefix(start, count as nat);
        assert(w@ =~= weights_felts(stark_weights(*root, count as nat))) by {
            assert forall|j: int| 0 <= j < count implies w@[j] == #[trigger] weights_felts(stark_weights(*root, count as nat))[j] by {
                let v = draws(start, count as nat).0[j];
                assert(v < p());
                assert(stark_weights(*root, count as nat)[j] == v);
                Felt::lemma_from_val(v);
                assert(w@[j].val() == v);
                assert(weights_felts(stark_weights(*root, count as nat))[j] == Felt::from_val(v));
            }
        }
    }
    w
}

proof fn lemma_draws_prefix(state: Seq<u8>, k: nat)
    ensures
        draws(state, k).0.len() == k,
        forall|j: int| 0 <= j < k ==> #[trigger] draws(state, k).0[j] < p(),
    decreases k,
{
    if k > 0 {
        lemma_draws_prefix(state, (k - 1) as nat);
        let prev = draws(state, (k - 1) as nat);
        assert(felt_draw(prev.1).0 < p());
    }
}

/// The leaves the rows of an extension are committed under.
pub open spec fn row_leaves(rows: Seq<Vec<Felt>>) -> Seq<Seq<u8>> {
    Seq::new(rows.len(), |i: int| spec_row_leaf(rows[i]@))
}

fn commit_rows(rows: &Vec<Vec<Felt>>) -> (tree: MerkleTree)
    ensures
        tree.wf(),
        tree.leaves() == row_leaves(rows@),
{
    let mut leaves: Vec<Digest> = Vec::new();
    let mut i: usize = 0;
    while i < rows.len()
        invariant
            i <= rows@.len(),
            leaves@.len() == i,
            forall|j: int| 0 <= j < i ==> #[trigger] leaves@[j]@ == spec_row_leaf(rows@[j]@),
        decreases rows@.len() - i,
    {
        leaves.push(hash_row(rows[i].as_slice()));
        i = i + 1;
    }
    let tree = MerkleTree::commit(leaves.as_slice());
    assert(digests(leaves@) =~= row_leaves(rows@));
    tree
}

/// An opened row at an index carries one cell per base column and
/// authenticates against the trace root.
pub open spec fn row_authentic(row: RowOpening, index: nat, root: Digest, width: nat) -> bool {
    &&& row.index == index
    &&& row.values@.len() == width
    &&& row.path.leaf_index == index
    &&& row.path.siblings@.len() <= crate::merkle::MAX_MERKLE_DEPTH
    &&& fold_path(spec_row_leaf(row.values@), index, row.path.path()) == root@
}

fn open_row(rows: &Vec<Vec<Felt>>, tree: &MerkleTree, root: &Digest, index: usize, width: usize) -> (row: RowOpening)
    requires
        index < rows@.len(),
        rows@[index as int]@.len() == width,
        tree.wf(),
        tree.leaves() == row_leaves(rows@),
        root@ == crate::merkle::tree_root(tree.leaves()),
    ensures
        row_authentic(row, index as nat, *root, width as nat),
        row.values@ == rows@[index as int]@,
{
    let values = crate::crypto::copy_slice(rows[index].as_slice());
    let path = tree.open(index);
    proof {
        let leaves = tree.leaves();
        assert(leaves.len() == rows.len());
        crate::merkle::law_inclusion_complete(leaves, index as nat);
        assert(leaves[index as int] == spec_row_leaf(values@));
        assert(path.siblings@.len() == path.path().len());
    }
    RowOpening { index, values, path }
}

/// The sum of two indices of a domain, wrapped around its size.
fn wrap_add(a: usize, b: usize, size: usize) -> (r: usize)
    requires
        a < size,
        b < size,
    ensures
        r == (a + b) % (size as int),
{
    if a >= size - b {
        let r = a - (size - b);
        proof {
            vstd::arithmetic::div_mod::lemma_mod_add_multiples_vanish(r as int, size as int);
            vstd::arithmetic::div_mod::lemma_small_mod(r as nat, size as nat);
        }
        r
    } else {
        proof {
            vstd::arithmetic::div_mod::lemma_small_mod((a + b) as nat, size as nat);
        }
        a + b
    }
}

/// The size of the extended domain.
pub open spec fn domain_size(air: &Air, params: &StarkParams) -> nat {
    two_pow(log2(air.spec_length()) + log2(params.lde_blowup as nat))
}

/// The domain index of opened row r of a query at a position: the current
/// and next rows at the position, then at the position half the domain away.
pub open spec fn opened_index(air: &Air, params: &StarkParams, position: nat, r: int) -> nat {
    let size = domain_size(air, params);
    let half = size / 2;
    let lde = params.lde_blowup as nat;
    if r == 0 {
        position
    } else if r == 1 {
        (position + lde) % size
    } else if r == 2 {
        position + half
    } else {
        (position + half + lde) % size
    }
}

/// The openings of query q are the four scheduled rows, each authenticated
/// against the trace root.
pub open spec fn opening_authentic(air: &Air, params: &StarkParams, proof: StarkProof, q: int) -> bool {
    let position = proof.fri.queries@[q].position as nat;
    let rows = proof.openings@[q].rows@;
    &&& position < domain_size(air, params) / 2
    &&& rows.len() == 4
    &&& forall|r: int| 0 <= r < 4 ==> row_authentic(#[trigger] rows[r], opened_index(air, params, position, r), proof.trace_root, air.spec_base_width())
}

/// The log size of the extended domain of a run.
pub open spec fn extended_log(air: &Air, params: &StarkParams) -> u32 {
    (log2(air.spec_length()) + log2(params.lde_blowup as nat)) as u32
}

/// Column c of the trace, interpolated over the trace domain and evaluated
/// over the coset of the extended domain shifted by the generator.
pub open spec fn extended_column(air: &Air, params: &StarkParams, trace: &TraceTable, c: int) -> Seq<Felt> {
    let column = Seq::new(trace.spec_length(), |r: int| trace.cell(c, r));
    poly::spec_evaluate_coset(poly::spec_interpolate(column), extended_log(air, params), GENERATOR as nat)
}

/// The leaf digests of the rows of the extended trace.
pub open spec fn extended_row_leaves(air: &Air, params: &StarkParams, trace: &TraceTable) -> Seq<Seq<u8>> {
    Seq::new(domain_size(air, params), |i: int|
        spec_row_leaf(Seq::new(trace.spec_width(), |c: int| extended_column(air, params, trace, c)[i])))
}

/// Row i of the extended trace.
pub open spec fn extended_row(air: &Air, params: &StarkParams, trace: &TraceTable, i: int) -> Seq<Felt> {
    Seq::new(trace.spec_width(), |c: int| extended_column(air, params, trace, c)[i])
}

/// The composition over the extended domain of a trace committed under a
/// root: at each point of the coset, the weighted quotients of every
/// constraint on the extended row there and the row one trace step later.
pub open spec fn composition_values(air: &Air, params: &StarkParams, trace: &TraceTable, root: Digest) -> Seq<Felt> {
    let n = air.spec_length();
    let size = domain_size(air, params);
    let omega_n = root_val(extended_log(air, params));
    let omega_h = root_val(log2(n) as u32);
    let weights = weights_felts(stark_weights(root, constraint_count(air)));
    Seq::new(size, |i: int| Felt::from_val(composition(
        air,
        weights,
        fmul(GENERATOR as nat, fpow(omega_n, i as nat)),
        fpow(omega_h, (n - 1) as nat),
        boundary_points_spec(air, omega_h),
        extended_row(air, params, trace, i),
        extended_row(air, params, trace, (i + params.lde_blowup) % (size as int)),
    )))
}

/// The proof an honest prover sends for a trace: the extended trace's rows
/// committed under the trace root, the honest FRI proof of the composition
/// over them under a transcript seeded with the empty context, and for every
/// query the rows of the extended trace opened authentically at its
/// positions.
pub open spec fn stark_honest(air: &Air, params: &StarkParams, trace: &TraceTable, proof: StarkProof) -> bool {
    let fp = stark_fri_params(air, params);
    &&& fp.valid()
    &&& fp.spec_rounds() >= 1
    &&& proof.trace_root@ == crate::merkle::tree_root(extended_row_leaves(air, params, trace))
    &&& fri_honest(fp, composition_values(air, params, trace, proof.trace_root), domain_state(Seq::empty()), proof.fri)
    &&& proof.openings@.len() == params.num_queries
    &&& forall|q: int| 0 <= q < params.num_queries
        ==> (#[trigger] proof.fri.queries@[q]).position < domain_size(air, params) / 2
    &&& forall|q: int| 0 <= q < params.num_queries ==> #[trigger] opening_authentic(air, params, proof, q)
    &&& forall|q: int, r: int| 0 <= q < params.num_queries && 0 <= r < 4
        ==> (#[trigger] proof.openings@[q].rows@[r]).values@ == extended_row(air, params, trace,
            opened_index(air, params, proof.fri.queries@[q].position as nat, r) as int)
}

/// Produces a proof that the base trace satisfies the description. The
/// proof commits the rows of the extended base trace under one root, and
/// every opening it carries is authentic against that root.
pub fn prove(air: &Air, trace: &TraceTable, params: &StarkParams) -> (proof: StarkProof)
    requires
        params_fit(air, params),
        trace.spec_width() == air.spec_base_width(),
        trace.spec_length() == air.spec_length(),
        constraint_count(air) <= usize::MAX,
    ensures
        proof.trace_root@ == crate::merkle::tree_root(extended_row_leaves(air, params, trace)),
        proof.fri.layer_roots@[0]@ == crate::merkle::tree_root(
            crate::fri::layer_leaves(composition_values(air, params, trace, proof.trace_root))),
        proof.fri.queries@.len() == params.num_queries,
        proof.openings@.len() == params.num_queries,
        forall|q: int| 0 <= q < params.num_queries ==> #[trigger] opening_authentic(air, params, proof, q),
        stark_honest(air, params, trace, proof),
{
    let domain = Domain::new(air, params);
    let width = trace.width();
    let n = domain.n;
    let size = domain.size;
    proof {
        crate::util::lemma_pow2_log2(n as nat);
        crate::util::lemma_two_pow_monotone(log2(n as nat), domain.log_size as nat);
    }

    let mut column_lde: Vec<Vec<Felt>> = Vec::new();
    let mut column: usize = 0;
    while column < width
        invariant
            domain.fits(air, params),
            width == trace.spec_width(),
            trace.spec_length() == n,
            n == domain.n,
            size == domain.size,
            n <= size,
            is_pow2(n as nat),
            log2(n as nat) <= TWO_ADICITY,
            column <= width,
            column_lde@.len() == column,
            forall|c: int| 0 <= c < column ==> (#[trigger] column_lde@[c])@.len() == size,
            forall|c: int| 0 <= c < column ==> (#[trigger] column_lde@[c])@ == extended_column(air, params, trace, c),
        decreases width - column,
    {
        let values = trace.column(column);
        assert(values@ =~= Seq::new(trace.spec_length(), |r: int| trace.cell(column as int, r)));
        let coeffs = poly::interpolate(values.as_slice());
        let lde = poly::evaluate_coset(coeffs.as_slice(), domain.log_size, domain.shift);
        assert(domain.log_size == extended_log(air, params));
        let ghost before = column_lde@;
        column_lde.push(lde);
        proof {
            assert forall|c: int| 0 <= c < column + 1 implies (#[trigger] column_lde@[c])@ == extended_column(air, params, trace, c) by {
                if c < column {
                    assert(column_lde@[c] == before[c]);
                }
            }
        }
        column = column + 1;
    }

    let mut rows: Vec<Vec<Felt>> = Vec::new();
    let mut i: usize = 0;
    while i < size
        invariant
            i <= size,
            rows@.len() == i,
            column_lde@.len() == width,
            forall|c: int| 0 <= c < width ==> (#[trigger] column_lde@[c])@.len() == size,
            forall|r: int| 0 <= r < i ==> (#[trigger] rows@[r])@.len() == width,
            forall|r: int| 0 <= r < i ==> (#[trigger] rows@[r])@ == Seq::new(width as nat, |c: int| column_lde@[c]@[r]),
        decreases size - i,
    {
        let mut row: Vec<Felt> = Vec::new();
        let mut c: usize = 0;
        while c < width
            invariant
                c <= width,
                i < size,
                row@.len() == c,
                column_lde@.len() == width,
                forall|c: int| 0 <= c < width ==> (#[trigger] column_lde@[c])@.len() == size,
                forall|k: int| 0 <= k < c ==> #[trigger] row@[k] == column_lde@[k]@[i as int],
            decreases width - c,
        {
            row.push(column_lde[c][i]);
            c = c + 1;
        }
        assert(row@ =~= Seq::new(width as nat, |c: int| column_lde@[c]@[i as int]));
        let ghost before = rows@;
        rows.push(row);
        proof {
            assert forall|r: int| 0 <= r < i + 1 implies (#[trigger] rows@[r])@ == Seq::new(width as nat, |c: int| column_lde@[c]@[r]) by {
                if r < i {
                    assert(rows@[r] == before[r]);
                }
            }
        }
        i = i + 1;
    }
    proof {
        assert(size == domain_size(air, params));
        assert forall|r: int| 0 <= r < size implies #[trigger] row_leaves(rows@)[r]
            == extended_row_leaves(air, params, trace)[r] by {
            assert(rows@[r]@ =~= Seq::new(trace.spec_width(), |c: int| extended_column(air, params, trace, c)[r]));
        }
        assert(row_leaves(rows@) =~= extended_row_leaves(air, params, trace));
    }
    let tree = commit_rows(&rows);
    let root = tree.root();

    let count = air.transitions().len() + air.boundaries().len();
    let weights = draw_weights(&root, count);

    let last_point = domain.omega_h.pow((n - 1) as u64);
    let boundary_points = boundary_points_of(air, domain.omega_h);
    let ghost target = composition_values(air, params, trace, root);

    let mut composition: Vec<Felt> = Vec::new();
    let mut point = domain.shift;
    let mut i: usize = 0;
    proof {
        vstd::arithmetic::div_mod::lemma_small_mod(GENERATOR as nat, p());
    }
    while i < size
        invariant
            domain.fits(air, params),
            air.wf(),
            size == domain.size,
            size == domain_size(air, params),
            n == air.spec_length(),
            i <= size,
            composition@.len() == i,
            rows@.len() == size,
            forall|r: int| 0 <= r < size ==> (#[trigger] rows@[r])@ == extended_row(air, params, trace, r),
            weights@ == weights_felts(stark_weights(root, constraint_count(air))),
            weights@.len() == constraint_count(air),
            boundary_points@ == boundary_points_spec(air, domain.omega_h.val()),
            boundary_points@.len() == air.spec_boundaries().len(),
            last_point.val() == fpow(domain.omega_h.val(), (n - 1) as nat),
            constraint_count(air) <= usize::MAX,
            point.val() == fmul(GENERATOR as nat, fpow(domain.omega_n.val(), i as nat)),
            target == composition_values(air, params, trace, root),
            forall|k: int| 0 <= k < i ==> #[trigger] composition@[k] == target[k],
        decreases size - i,
    {
        let shifted = wrap_add(i, domain.lde_blowup, size);
        let value = composition_value(
            air,
            weights.as_slice(),
            point,
            last_point,
            boundary_points.as_slice(),
            rows[i].as_slice(),
            rows[shifted].as_slice(),
        );
        proof {
            assert(domain.omega_n.val() == root_val(extended_log(air, params)));
            assert(domain.omega_h.val() == root_val(log2(n as nat) as u32));
            assert(target[i as int] == Felt::from_val(value.val()));
            Felt::lemma_from_val(value.val());
            Felt::lemma_val_injective(value, target[i as int]);
        }
        composition.push(value);
        point = point.mul(domain.omega_n);
        proof {
            let x = domain.omega_n.val();
            crate::field::lemma_fmul_assoc(GENERATOR as nat, fpow(x, i as nat), x);
            crate::field::lemma_fmul_comm(fpow(x, i as nat), x);
        }
        i = i + 1;
    }

    assert(composition@ =~= target);
    let fri_params = domain.fri_params_of(params.num_queries);
    let fri_proof = crate::fri::prove(composition.as_slice(), &fri_params);

    let half = size / 2;
    let lde_blowup = domain.lde_blowup;
    let mut openings: Vec<QueryOpening> = Vec::new();
    let mut q: usize = 0;
    while q < fri_proof.queries.len()
        invariant
            domain.fits(air, params),
            size == domain.size,
            half == size / 2,
            lde_blowup == params.lde_blowup,
            size == domain_size(air, params),
            width == air.spec_base_width(),
            q <= fri_proof.queries@.len(),
            openings@.len() == q,
            fri_proof.queries@.len() == params.num_queries,
            forall|k: int| 0 <= k < fri_proof.queries@.len()
                ==> (#[trigger] fri_proof.queries@[k]).position < two_pow((fri_params.log_domain_size - 1) as nat),
            fri_params == domain.fri_params(params.num_queries),
            rows@.len() == size,
            forall|r: int| 0 <= r < size ==> (#[trigger] rows@[r])@.len() == width,
            forall|r: int| 0 <= r < size ==> (#[trigger] rows@[r])@ == extended_row(air, params, trace, r),
            forall|k: int, r: int| 0 <= k < q && 0 <= r < 4 ==> (#[trigger] openings@[k].rows@[r]).values@
                == extended_row(air, params, trace, opened_index(air, params, fri_proof.queries@[k].position as nat, r) as int),
            tree.wf(),
            tree.leaves() == row_leaves(rows@),
            root@ == crate::merkle::tree_root(tree.leaves()),
            forall|k: int| 0 <= k < q ==> {
                let opened = (#[trigger] openings@[k]).rows@;
                let position = fri_proof.queries@[k].position as nat;
                &&& position < size / 2
                &&& opened.len() == 4
                &&& forall|r: int| 0 <= r < 4 ==> row_authentic(#[trigger] opened[r], opened_index(air, params, position, r), root, width as nat)
            },
        decreases fri_proof.queries@.len() - q,
    {
        let position = fri_proof.queries[q].position;
        proof {
            assert(two_pow((fri_params.log_domain_size - 1) as nat) == size / 2) by {
                assert(two_pow(domain.log_size as nat) == 2 * two_pow((domain.log_size - 1) as nat));
            }
        }
        let i0 = position;
        let i1 = wrap_add(position, lde_blowup, size);
        let i2 = position + half;
        let i3 = wrap_add(position + half, lde_blowup, size);
        let mut opened: Vec<RowOpening> = Vec::new();
        opened.push(open_row(&rows, &tree, &root, i0, width));
        opened.push(open_row(&rows, &tree, &root, i1, width));
        opened.push(open_row(&rows, &tree, &root, i2, width));
        opened.push(open_row(&rows, &tree, &root, i3, width));
        proof {
            assert forall|r: int| 0 <= r < 4 implies row_authentic(#[trigger] opened@[r], opened_index(air, params, position as nat, r), root, width as nat) by {
            }
            assert forall|r: int| 0 <= r < 4 implies (#[trigger] opened@[r]).values@
                == extended_row(air, params, trace, opened_index(air, params, position as nat, r) as int) by {
            }
        }
        let ghost before = openings@;
        openings.push(QueryOpening { rows: opened });
        proof {
            assert forall|k: int, r: int| 0 <= k < q + 1 && 0 <= r < 4 implies (#[trigger] openings@[k].rows@[r]).values@
                == extended_row(air, params, trace, opened_index(air, params, fri_proof.queries@[k].position as nat, r) as int) by {
                if k < q {
                    assert(openings@[k] == before[k]);
                }
            }
        }
        q = q + 1;
    }

    let proof = StarkProof { trace_root: root, fri: fri_proof, openings };
    proof {
        assert forall|q: int| 0 <= q < params.num_queries implies #[trigger] opening_authentic(air, params, proof, q) by {
            let opened = proof.openings@[q].rows@;
            assert(opened.len() == 4);
        }
        assert(fri_params == stark_fri_params(air, params));
        assert(two_pow((fri_params.log_domain_size - 1) as nat) == size / 2) by {
            assert(two_pow(domain.log_size as nat) == 2 * two_pow((domain.log_size - 1) as nat));
        }
        assert forall|k: int, r: int| 0 <= k < params.num_queries && 0 <= r < 4 implies (#[trigger] proof.openings@[k].rows@[r]).values@
            == extended_row(air, params, trace, opened_index(air, params, proof.fri.queries@[k].position as nat, r) as int) by {
            assert(proof.openings@[k] == openings@[k]);
        }
    }
    proof
}

/// The boundary points: the trace domain generator to the row of each
/// boundary.
pub open spec fn boundary_points_spec(air: &Air, omega_h: nat) -> Seq<Felt> {
    Seq::new(air.spec_boundaries().len(), |j: int| Felt::from_val(fpow(omega_h, air.spec_boundaries()[j].row as nat)))
}

/// The composition recomputed from the openings of query q matches the first
/// FRI layer at the query position and at its pair.
pub open spec fn query_consistent(air: &Air, params: &StarkParams, proof: StarkProof, q: int) -> bool {
    let n = air.spec_length();
    let log_n = log2(n);
    let log_size = log_n + log2(params.lde_blowup as nat);
    let omega_n = root_val(log_size as u32);
    let omega_h = root_val(log_n as u32);
    let half = domain_size(air, params) / 2;
    let weights = weights_felts(stark_weights(proof.trace_root, constraint_count(air)));
    let last_point = fpow(omega_h, (n - 1) as nat);
    let bpoints = boundary_points_spec(air, omega_h);
    let query = proof.fri.queries@[q];
    let position = query.position as nat;
    let rows = proof.openings@[q].rows@;
    let low = fmul(GENERATOR as nat, fpow(omega_n, position));
    let high = fmul(GENERATOR as nat, fpow(omega_n, position + half));
    &&& composition(air, weights, low, last_point, bpoints, rows[0].values@, rows[1].values@) == query.layers@[0].eval.val()
    &&& composition(air, weights, high, last_point, bpoints, rows[2].values@, rows[3].values@) == query.layers@[0].sibling.val()
}

/// What verification accepts: the FRI proof verifies over the extended
/// domain under a transcript seeded with the empty context, there is one
/// opening per query, and every opening is authentic and its recomputed
/// composition matches the first FRI layer.
pub open spec fn stark_accepted(air: &Air, params: &StarkParams, proof: StarkProof) -> bool {
    &&& fri_verifies(stark_fri_params(air, params), proof.fri, domain_state(Seq::empty()))
    &&& proof.openings@.len() == proof.fri.queries@.len()
    &&& forall|q: int| 0 <= q < proof.openings@.len() ==> #[trigger] opening_authentic(air, params, proof, q)
    &&& forall|q: int| 0 <= q < proof.openings@.len() ==> #[trigger] query_consistent(air, params, proof, q)
}

fn boundary_points_of(air: &Air, omega_h: Felt) -> (points: Vec<Felt>)
    ensures
        points@ == boundary_points_spec(air, omega_h.val()),
{
    let boundaries = air.boundaries();
    let mut points: Vec<Felt> = Vec::new();
    let mut j: usize = 0;
    while j < boundaries.len()
        invariant
            boundaries@ == air.spec_boundaries(),
            j <= boundaries@.len(),
            points@.len() == j,
            forall|k: int| 0 <= k < j ==> #[trigger] points@[k] == boundary_points_spec(air, omega_h.val())[k],
        decreases boundaries@.len() - j,
    {
        let x = omega_h.pow(boundaries[j].row as u64);
        let _raw = x.to_u64();
        proof {
            Felt::lemma_from_val(x.val());
        }
        points.push(x);
        j = j + 1;
    }
    assert(points@ =~= boundary_points_spec(air, omega_h.val()));
    points
}

fn check_row(row: &RowOpening, index: usize, root: &Digest, width: usize) -> (ok: bool)
    ensures
        ok == row_authentic(*row, index as nat, *root, width as nat),
{
    if row.index != index || row.values.len() != width || row.path.leaf_index != index {
        return false;
    }
    let leaf = hash_row(row.values.as_slice());
    crate::merkle::verify(root, &leaf, &row.path)
}

#[verifier::rlimit(40)]
fn check_query(
    air: &Air,
    params: &StarkParams,
    proof: &StarkProof,
    q: usize,
    domain: &Domain,
    weights: &Vec<Felt>,
    last_point: Felt,
    boundary_points: &Vec<Felt>,
) -> (ok: bool)
    requires
        domain.fits(air, params),
        air.wf(),
        q < proof.openings@.len(),
        proof.openings@.len() == proof.fri.queries@.len(),
        fri_shape(domain.fri_params(params.num_queries), proof.fri),
        weights@ == weights_felts(stark_weights(proof.trace_root, constraint_count(air))),
        weights@.len() == constraint_count(air),
        constraint_count(air) <= usize::MAX,
        boundary_points@ == boundary_points_spec(air, domain.omega_h.val()),
        last_point.val() == fpow(domain.omega_h.val(), (domain.n - 1) as nat),
    ensures
        ok == (opening_authentic(air, params, *proof, q as int) && query_consistent(air, params, *proof, q as int)),
{
    let size = domain.size;
    let half = size / 2;
    let fri_params = domain.fri_params_of(params.num_queries);
    proof {
        assert(size == domain_size(air, params));
    }
    let query = &proof.fri.queries[q];
    let opening = &proof.openings[q];
    let position = query.position;
    if position >= half {
        return false;
    }
    if opening.rows.len() != 4 {
        return false;
    }
    let i1 = wrap_add(position, domain.lde_blowup, size);
    let i3 = wrap_add(position + half, domain.lde_blowup, size);
    if !check_row(&opening.rows[0], position, &proof.trace_root, air.base_width()) {
        return false;
    }
    if !check_row(&opening.rows[1], i1, &proof.trace_root, air.base_width()) {
        return false;
    }
    if !check_row(&opening.rows[2], position + half, &proof.trace_root, air.base_width()) {
        return false;
    }
    if !check_row(&opening.rows[3], i3, &proof.trace_root, air.base_width()) {
        return false;
    }
    proof {
        assert(fri_shape(fri_params, proof.fri));
        assert(proof.fri.queries@[q as int].layers@.len() == fri_params.spec_rounds());
    }
    let point_low = domain.shift.mul(domain.omega_n.pow(position as u64));
    let recomputed_low = composition_value(
        air,
        weights.as_slice(),
        point_low,
        last_point,
        boundary_points.as_slice(),
        opening.rows[0].values.as_slice(),
        opening.rows[1].values.as_slice(),
    );
    if recomputed_low != query.layers[0].eval {
        return false;
    }
    let point_high = domain.shift.mul(domain.omega_n.pow((position + half) as u64));
    let recomputed_high = composition_value(
        air,
        weights.as_slice(),
        point_high,
        last_point,
        boundary_points.as_slice(),
        opening.rows[2].values.as_slice(),
        opening.rows[3].values.as_slice(),
    );
    if recomputed_high != query.layers[0].sibling {
        return false;
    }
    proof {
        let rows = proof.openings@[q as int].rows@;
        assert forall|r: int| 0 <= r < 4 implies row_authentic(#[trigger] rows[r], opened_index(air, params, position as nat, r), proof.trace_root, air.spec_base_width()) by {
        }
        assert(opening_authentic(air, params, *proof, q as int));
        assert(query_consistent(air, params, *proof, q as int));
    }
    true
}

/// Checks a proof against the description without the trace.
#[verifier::rlimit(40)]
pub fn verify(air: &Air, params: &StarkParams, proof: &StarkProof) -> (r: bool)
    requires
        params_fit(air, params),
        constraint_count(air) <= usize::MAX,
    ensures
        r == stark_accepted(air, params, *proof),
{
    let domain = Domain::new(air, params);
    let count = air.transitions().len() + air.boundaries().len();
    let weights = draw_weights(&proof.trace_root, count);
    let fri_params = domain.fri_params_of(params.num_queries);
    if !crate::fri::verify(&fri_params, &proof.fri) {
        return false;
    }
    if proof.openings.len() != proof.fri.queries.len() {
        return false;
    }
    let size = domain.size;
    let half = size / 2;
    let n = domain.n;
    let last_point = domain.omega_h.pow((n - 1) as u64);
    let boundary_points = boundary_points_of(air, domain.omega_h);
    proof {
        assert(size == domain_size(air, params));
    }
    let mut q: usize = 0;
    while q < proof.openings.len()
        invariant
            domain.fits(air, params),
            air.wf(),
            size == domain.size,
            size == domain_size(air, params),
            half == size / 2,
            n == domain.n,
            proof.openings@.len() == proof.fri.queries@.len(),
            fri_accepted(fri_params, proof.fri),
            fri_verifies(fri_params, proof.fri, domain_state(Seq::empty())),
            fri_params == domain.fri_params(params.num_queries),
            weights@ == weights_felts(stark_weights(proof.trace_root, constraint_count(air))),
            weights@.len() == constraint_count(air),
            constraint_count(air) <= usize::MAX,
            boundary_points@ == boundary_points_spec(air, domain.omega_h.val()),
            last_point.val() == fpow(domain.omega_h.val(), (n - 1) as nat),
            q <= proof.openings@.len(),
            forall|k: int| 0 <= k < q ==> #[trigger] opening_authentic(air, params, *proof, k),
            forall|k: int| 0 <= k < q ==> #[trigger] query_consistent(air, params, *proof, k),
        decreases proof.openings@.len() - q,
    {
        let ok = check_query(air, params, proof, q, &domain, &weights, last_point, &boundary_points);
        if !ok {
            proof {
                if !opening_authentic(air, params, *proof, q as int) {
                } else {
                    assert(!query_consistent(air, params, *proof, q as int));
                }
            }
            return false;
        }
        q = q + 1;
    }
    true
}

/// The composition at any point is a canonical field value.
proof fn lemma_composition_canonical(
    air: &Air,
    weights: Seq<Felt>,
    point: nat,
    last_point: nat,
    boundary_points: Seq<Felt>,
    current: Seq<Felt>,
    next: Seq<Felt>,
)
    ensures
        composition(air, weights, point, last_point, boundary_points, current, next) < p(),
{
    let k = constraint_count(air);
    if k > 0 {
        assert(composition_sum(air, weights, point, last_point, boundary_points, current, next, k) == fadd(
            composition_sum(air, weights, point, last_point, boundary_points, current, next, (k - 1) as nat),
            composition_term(air, weights, point, last_point, boundary_points, current, next, k - 1),
        ));
    }
}

/// A proof an honest prover made for a trace is accepted once its FRI final
/// layer came out constant, as it does when the composition has low degree.
#[verifier::spinoff_prover]
#[verifier::rlimit(60)]
pub proof fn law_honest_proof_verifies(air: &Air, params: &StarkParams, trace: &TraceTable, proof: StarkProof)
    requires
        params_fit(air, params),
        stark_honest(air, params, trace, proof),
        forall|i: int| 0 <= i < proof.fri.final_layer@.len()
            ==> #[trigger] proof.fri.final_layer@[i] == proof.fri.final_layer@[0],
    ensures
        stark_accepted(air, params, proof),
{
    let fp = stark_fri_params(air, params);
    let evals = composition_values(air, params, trace, proof.trace_root);
    let state = domain_state(Seq::<u8>::empty());
    let n = air.spec_length();
    let lde = params.lde_blowup as nat;
    assert(fp.log_domain_size as nat == log2(n) + log2(lde));
    assert(evals.len() == two_pow(fp.log_domain_size as nat));
    crate::fri::law_honest_proof_verifies(fp, evals, state, proof.fri);
    let challenges = crate::fri::fri_challenges(fp, proof.fri, state).0;
    let size = domain_size(air, params);
    assert(two_pow(fp.log_domain_size as nat) == 2 * two_pow((fp.log_domain_size - 1) as nat));
    let half = two_pow((fp.log_domain_size - 1) as nat);
    assert(half == size / 2);
    assert forall|q: int| 0 <= q < proof.openings@.len() implies #[trigger] query_consistent(air, params, proof, q) by {
        let query = proof.fri.queries@[q];
        let position = query.position as nat;
        assert(position < half);
        assert(crate::fri::honest_layer_opening(fp, evals, challenges, position, 0, query.layers@[0]));
        vstd::arithmetic::div_mod::lemma_small_mod(position, half);
        assert(crate::fri::honest_layers(evals, challenges, crate::fri::domain_generator_inv(fp.log_domain_size), 0) == evals);
        let rows = proof.openings@[q].rows@;
        assert(rows[0].values@ == extended_row(air, params, trace, opened_index(air, params, position, 0) as int));
        assert(rows[1].values@ == extended_row(air, params, trace, opened_index(air, params, position, 1) as int));
        assert(rows[2].values@ == extended_row(air, params, trace, opened_index(air, params, position, 2) as int));
        assert(rows[3].values@ == extended_row(air, params, trace, opened_index(air, params, position, 3) as int));
        let omega_n = root_val(extended_log(air, params));
        let omega_h = root_val(log2(n) as u32);
        let weights = weights_felts(stark_weights(proof.trace_root, constraint_count(air)));
        let lo = fmul(GENERATOR as nat, fpow(omega_n, position));
        let hi = fmul(GENERATOR as nat, fpow(omega_n, position + half));
        lemma_composition_canonical(air, weights, lo, fpow(omega_h, (n - 1) as nat), boundary_points_spec(air, omega_h),
            rows[0].values@, rows[1].values@);
        lemma_composition_canonical(air, weights, hi, fpow(omega_h, (n - 1) as nat), boundary_points_spec(air, omega_h),
            rows[2].values@, rows[3].values@);
        assert(query.layers@[0].eval == evals[position as int]);
        assert(query.layers@[0].sibling == evals[(position + half) as int]);
    }
}

/// A proof an honest prover made for a trace is accepted when the
/// composition it folds holds, over the shifted extended domain, the values
/// of a polynomial with no more coefficients than the extended size over the
/// FRI blow up.
#[verifier::spinoff_prover]
pub proof fn law_low_degree_composition_verifies(
    air: &Air,
    params: &StarkParams,
    trace: &TraceTable,
    proof: StarkProof,
    coeffs: Seq<Felt>,
)
    requires
        params_fit(air, params),
        stark_honest(air, params, trace, proof),
        coeffs.len() <= two_pow(stark_fri_params(air, params).spec_rounds()),
        forall|i: int| 0 <= i < domain_size(air, params) ==> #[trigger] composition_values(air, params, trace, proof.trace_root)[i].val()
            == poly::poly_eval(coeffs, fmul(GENERATOR as nat, fpow(root_val(extended_log(air, params)), i as nat))),
    ensures
        stark_accepted(air, params, proof),
{
    let fp = stark_fri_params(air, params);
    let evals = composition_values(air, params, trace, proof.trace_root);
    let state = domain_state(Seq::<u8>::empty());
    assert(fp.log_domain_size == extended_log(air, params));
    assert(evals.len() == two_pow(fp.log_domain_size as nat));
    vstd::arithmetic::div_mod::lemma_small_mod(GENERATOR as nat, p());
    crate::fri::law_low_degree_proof_verifies(fp, evals, state, proof.fri, coeffs, GENERATOR as nat);
    let chs = crate::fri::fri_challenges(fp, proof.fri, state).0;
    crate::folding::lemma_low_degree_folds_to_constant(evals, chs, coeffs, GENERATOR as nat,
        fp.log_domain_size as nat, fp.spec_rounds());
    law_honest_proof_verifies(air, params, trace, proof);
}

/// Acceptance depends on a proof only through its roots, values, positions,
/// indices and paths.
pub proof fn lemma_accepted_transfer(air: &Air, params: &StarkParams, a: StarkProof, b: StarkProof)
    requires
        same_proof(a, b),
        stark_accepted(air, params, a),
    ensures
        stark_accepted(air, params, b),
{
    reveal(same_query);
    reveal(same_opening);
    let fp = stark_fri_params(air, params);
    let st = domain_state(Seq::<u8>::empty());
    let rounds = fp.spec_rounds();
    let cha = crate::fri::fri_challenges(fp, a.fri, st).0;
    assert(cha == crate::fri::fri_challenges(fp, b.fri, st).0);
    assert(crate::fri::fri_positions(fp, a.fri, st) == crate::fri::fri_positions(fp, b.fri, st));
    assert forall|q: int| 0 <= q < b.fri.queries@.len() implies #[trigger] b.fri.queries@[q].layers@.len() == rounds by {
        assert(same_query(a.fri.queries@[q], b.fri.queries@[q]));
    }
    assert(crate::fri::fri_shape(fp, b.fri));
    assert forall|i: int| 0 <= i < b.fri.final_layer@.len() implies #[trigger] b.fri.final_layer@[i] == b.fri.final_layer@[0] by {
        assert(a.fri.final_layer@[i] == a.fri.final_layer@[0]);
    }
    assert forall|q: int| 0 <= q < fp.num_queries implies #[trigger] b.fri.queries@[q].position
        == crate::fri::fri_positions(fp, b.fri, st)[q] by {
        assert(same_query(a.fri.queries@[q], b.fri.queries@[q]));
    }
    assert forall|q: int, r: int| 0 <= q < fp.num_queries && 0 <= r < rounds
        implies #[trigger] crate::fri::layer_opens(fp, b.fri, q, r) by {
        assert(same_query(a.fri.queries@[q], b.fri.queries@[q]));
        assert(same_layer(a.fri.queries@[q].layers@[r], b.fri.queries@[q].layers@[r]));
        assert(crate::fri::layer_opens(fp, a.fri, q, r));
    }
    assert forall|q: int, r: int| 0 <= q < fp.num_queries && 0 <= r < rounds
        implies #[trigger] crate::fri::fold_consistent(fp, b.fri, cha, q, r) by {
        assert(same_query(a.fri.queries@[q], b.fri.queries@[q]));
        assert(same_layer(a.fri.queries@[q].layers@[r], b.fri.queries@[q].layers@[r]));
        if r + 1 < rounds {
            assert(same_layer(a.fri.queries@[q].layers@[r + 1], b.fri.queries@[q].layers@[r + 1]));
        }
        assert(crate::fri::fold_consistent(fp, a.fri, cha, q, r));
    }
    assert(fri_verifies(fp, b.fri, st));
    assert forall|q: int| 0 <= q < b.openings@.len() implies #[trigger] opening_authentic(air, params, b, q) by {
        assert(same_query(a.fri.queries@[q], b.fri.queries@[q]));
        assert(same_opening(a.openings@[q], b.openings@[q]));
        assert(opening_authentic(air, params, a, q));
        assert forall|r: int| 0 <= r < 4 implies row_authentic(#[trigger] b.openings@[q].rows@[r],
            opened_index(air, params, b.fri.queries@[q].position as nat, r), b.trace_root, air.spec_base_width()) by {
            assert(same_row(a.openings@[q].rows@[r], b.openings@[q].rows@[r]));
            assert(row_authentic(a.openings@[q].rows@[r],
                opened_index(air, params, a.fri.queries@[q].position as nat, r), a.trace_root, air.spec_base_width()));
        }
    }
    assert forall|q: int| 0 <= q < b.openings@.len() implies #[trigger] query_consistent(air, params, b, q) by {
        assert(same_query(a.fri.queries@[q], b.fri.queries@[q]));
        assert(same_opening(a.openings@[q], b.openings@[q]));
        assert(opening_authentic(air, params, a, q));
        assert(same_layer(a.fri.queries@[q].layers@[0], b.fri.queries@[q].layers@[0]));
        assert(same_row(a.openings@[q].rows@[0], b.openings@[q].rows@[0]));
        assert(same_row(a.openings@[q].rows@[1], b.openings@[q].rows@[1]));
        assert(same_row(a.openings@[q].rows@[2], b.openings@[q].rows@[2]));
        assert(same_row(a.openings@[q].rows@[3], b.openings@[q].rows@[3]));
        assert(query_consistent(air, params, a, q));
    }
}

} // verus!
