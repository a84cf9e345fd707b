//! The byte encoding of a proof: counts and words little endian, digests raw,
//! every list prefixed by its length.
use vstd::prelude::*;
use crate::crypto::{Digest, le_bytes, le_word, lemma_le_word_bytes, push_bytes, push_u64_le};
use crate::field::{Felt, MODULUS, p};
use crate::fri::{FriProof, QueryLayer, QueryProof};
use crate::merkle::MerkleProof;
use crate::stark::{QueryOpening, RowOpening, StarkProof};

verus! {

broadcast use Felt::lemma_val_injective;

/// The encodings of a list of items, one after the other.
pub open spec fn concat<T>(items: Seq<T>, f: spec_fn(T) -> Seq<u8>) -> Seq<u8>
    decreases items.len(),
{
    if items.len() == 0 {
        seq![]
    } else {
        concat(items.drop_last(), f) + f(items.last())
    }
}

/// A count or word.
pub open spec fn enc_word(v: u64) -> Seq<u8> {
    le_bytes(v)
}

/// A field element, its canonical value as a word.
pub open spec fn enc_felt(v: Felt) -> Seq<u8> {
    le_bytes((v.val() % p()) as u64)
}

/// A digest, its raw bytes.
pub open spec fn enc_digest(d: Digest) -> Seq<u8> {
    d@
}

/// A list: its length, then each item.
pub open spec fn enc_list<T>(items: Seq<T>, f: spec_fn(T) -> Seq<u8>) -> Seq<u8> {
    enc_word(items.len() as u64) + concat(items, f)
}

/// An authentication path: the leaf index, then the sibling list.
pub open spec fn enc_merkle(m: MerkleProof) -> Seq<u8> {
    enc_word(m.leaf_index as u64) + enc_list(m.siblings@, |d: Digest| enc_digest(d))
}

/// A FRI layer opening: both values, then both paths.
pub open spec fn enc_layer(l: QueryLayer<Felt>) -> Seq<u8> {
    enc_felt(l.eval) + enc_felt(l.sibling) + enc_merkle(l.eval_path) + enc_merkle(l.sibling_path)
}

/// A FRI query: the position, then the layer list.
pub open spec fn enc_query(q: QueryProof<Felt>) -> Seq<u8> {
    enc_word(q.position as u64) + enc_list(q.layers@, |l: QueryLayer<Felt>| enc_layer(l))
}

/// An opened row: the index, the value list, then the path.
pub open spec fn enc_row(r: RowOpening) -> Seq<u8> {
    enc_word(r.index as u64) + enc_list(r.values@, |v: Felt| enc_felt(v)) + enc_merkle(r.path)
}

/// A query opening: the row list.
pub open spec fn enc_opening(o: QueryOpening) -> Seq<u8> {
    enc_list(o.rows@, |r: RowOpening| enc_row(r))
}

/// A proof: the trace root, then the FRI layer roots, the final layer, the
/// FRI queries and the openings, each a list.
pub open spec fn spec_encode(proof: StarkProof) -> Seq<u8> {
    enc_digest(proof.trace_root)
        + enc_list(proof.fri.layer_roots@, |d: Digest| enc_digest(d))
        + enc_list(proof.fri.final_layer@, |v: Felt| enc_felt(v))
        + enc_list(proof.fri.queries@, |q: QueryProof<Felt>| enc_query(q))
        + enc_list(proof.openings@, |o: QueryOpening| enc_opening(o))
}

/// A segment sits in a byte string at a position.
pub open spec fn at(bytes: Seq<u8>, pos: nat, seg: Seq<u8>) -> bool {
    &&& pos + seg.len() <= bytes.len()
    &&& bytes.subrange(pos as int, (pos + seg.len()) as int) == seg
}

/// A word of an encoding read from a word of the input: the same word, or
/// that word reduced below the field order, as field elements are read.
pub open spec fn word_read(input: Seq<u8>, enc: Seq<u8>) -> bool {
    enc == input || le_word(enc) as nat == le_word(input) as nat % p()
}

/// The input from a position on reads, word by word, as a segment.
pub open spec fn reads_at(bytes: Seq<u8>, pos: nat, seg: Seq<u8>) -> bool
    decreases seg.len(),
{
    if seg.len() == 0 {
        pos <= bytes.len()
    } else if seg.len() < 8 {
        false
    } else {
        &&& pos + 8 <= bytes.len()
        &&& word_read(bytes.subrange(pos as int, pos + 8int), seg.take(8))
        &&& reads_at(bytes, pos + 8, seg.skip(8))
    }
}

/// The whole input reads as a segment of its own length.
pub open spec fn reads_as(bytes: Seq<u8>, seg: Seq<u8>) -> bool {
    seg.len() == bytes.len() && reads_at(bytes, 0, seg)
}

proof fn lemma_reads_join(bytes: Seq<u8>, pos: nat, a: Seq<u8>, c: Seq<u8>)
    requires
        reads_at(bytes, pos, a),
        reads_at(bytes, pos + a.len(), c),
    ensures
        reads_at(bytes, pos, a + c),
    decreases a.len(),
{
    if a.len() == 0 {
        assert(a + c =~= c);
    } else {
        assert((a + c).take(8) =~= a.take(8));
        assert((a + c).skip(8) =~= a.skip(8) + c);
        lemma_reads_join(bytes, pos + 8, a.skip(8), c);
    }
}

proof fn lemma_at_reads(bytes: Seq<u8>, pos: nat, seg: Seq<u8>)
    requires
        at(bytes, pos, seg),
        seg.len() % 8 == 0,
    ensures
        reads_at(bytes, pos, seg),
    decreases seg.len(),
{
    if seg.len() > 0 {
        assert(bytes.subrange(pos as int, pos + 8int) =~= seg.take(8));
        assert(bytes.subrange((pos + 8) as int, (pos + 8 + seg.skip(8).len()) as int) =~= seg.skip(8));
        lemma_at_reads(bytes, pos + 8, seg.skip(8));
    }
}

/// A segment read from the input has a whole number of words and fits it.
pub proof fn lemma_reads_len(bytes: Seq<u8>, pos: nat, seg: Seq<u8>)
    requires
        reads_at(bytes, pos, seg),
    ensures
        seg.len() % 8 == 0,
        pos + seg.len() <= bytes.len(),
    decreases seg.len(),
{
    if seg.len() > 0 {
        lemma_reads_len(bytes, pos + 8, seg.skip(8));
    }
}

/// Bytes that read as a proof's encoding hold a whole number of words, so a
/// length that is not a multiple of eight never decodes.
pub proof fn law_decoded_length_is_whole_words(bytes: Seq<u8>, q: StarkProof)
    requires
        reads_as(bytes, spec_encode(q)),
    ensures
        bytes.len() % 8 == 0,
{
    lemma_reads_len(bytes, 0, spec_encode(q));
}

proof fn lemma_word_reduced(bytes: Seq<u8>, pos: nat, w: u64, v: u64)
    requires
        at(bytes, pos, le_bytes(w)),
        v as nat == w as nat % p(),
    ensures
        reads_at(bytes, pos, le_bytes(v)),
{
    let seg = le_bytes(v);
    lemma_le_word_bytes(v);
    lemma_le_word_bytes(w);
    assert(seg.take(8) =~= seg);
    assert(seg.skip(8) =~= Seq::<u8>::empty());
    assert(bytes.subrange(pos as int, pos + 8int) == le_bytes(w));
    assert(word_read(bytes.subrange(pos as int, pos + 8int), seg.take(8)));
    assert(reads_at(bytes, pos + 8, seg.skip(8)));
}


/// Two authentication paths with the same index and siblings.
pub open spec fn same_merkle(a: MerkleProof, b: MerkleProof) -> bool {
    a.leaf_index == b.leaf_index && a.siblings@ == b.siblings@
}

/// Two FRI layer openings with the same values and paths.
pub open spec fn same_layer(a: QueryLayer<Felt>, b: QueryLayer<Felt>) -> bool {
    &&& a.eval == b.eval
    &&& a.sibling == b.sibling
    &&& same_merkle(a.eval_path, b.eval_path)
    &&& same_merkle(a.sibling_path, b.sibling_path)
}

/// Two FRI queries with the same position and layer openings.
#[verifier::opaque]
pub open spec fn same_query(a: QueryProof<Felt>, b: QueryProof<Felt>) -> bool {
    &&& a.position == b.position
    &&& a.layers@.len() == b.layers@.len()
    &&& forall|i: int| 0 <= i < a.layers@.len() ==> #[trigger] same_layer(a.layers@[i], b.layers@[i])
}

/// Two opened rows with the same index, values and path.
pub open spec fn same_row(a: RowOpening, b: RowOpening) -> bool {
    a.index == b.index && a.values@ == b.values@ && same_merkle(a.path, b.path)
}

/// Two query openings with the same rows.
#[verifier::opaque]
pub open spec fn same_opening(a: QueryOpening, b: QueryOpening) -> bool {
    &&& a.rows@.len() == b.rows@.len()
    &&& forall|i: int| 0 <= i < a.rows@.len() ==> #[trigger] same_row(a.rows@[i], b.rows@[i])
}

/// Two proofs that agree in every root, value, position, index and path.
pub open spec fn same_proof(a: StarkProof, b: StarkProof) -> bool {
    &&& a.trace_root == b.trace_root
    &&& a.fri.layer_roots@ == b.fri.layer_roots@
    &&& a.fri.final_layer@ == b.fri.final_layer@
    &&& a.fri.queries@.len() == b.fri.queries@.len()
    &&& forall|i: int| 0 <= i < a.fri.queries@.len() ==> #[trigger] same_query(a.fri.queries@[i], b.fri.queries@[i])
    &&& a.openings@.len() == b.openings@.len()
    &&& forall|i: int| 0 <= i < a.openings@.len() ==> #[trigger] same_opening(a.openings@[i], b.openings@[i])
}

proof fn lemma_split_eq(x: Seq<u8>, y: Seq<u8>, s: Seq<u8>, t: Seq<u8>)
    requires
        x.len() == y.len(),
        x + s == y + t,
    ensures
        x == y,
        s == t,
{
    assert(x =~= (x + s).take(x.len() as int));
    assert(y =~= (y + t).take(y.len() as int));
    assert(s =~= (x + s).skip(x.len() as int));
    assert(t =~= (y + t).skip(y.len() as int));
}

proof fn lemma_word_prefix(a: u64, b: u64, s: Seq<u8>, t: Seq<u8>)
    requires
        enc_word(a) + s == enc_word(b) + t,
    ensures
        a == b,
        s == t,
{
    lemma_split_eq(enc_word(a), enc_word(b), s, t);
    lemma_le_word_bytes(a);
    lemma_le_word_bytes(b);
}

proof fn lemma_felt_prefix(a: Felt, b: Felt, s: Seq<u8>, t: Seq<u8>)
    requires
        a.val() < p(),
        b.val() < p(),
        enc_felt(a) + s == enc_felt(b) + t,
    ensures
        a == b,
        s == t,
{
    lemma_split_eq(enc_felt(a), enc_felt(b), s, t);
    lemma_le_word_bytes((a.val() % p()) as u64);
    lemma_le_word_bytes((b.val() % p()) as u64);
    vstd::arithmetic::div_mod::lemma_small_mod(a.val(), p());
    vstd::arithmetic::div_mod::lemma_small_mod(b.val(), p());
    Felt::lemma_val_injective(a, b);
}

proof fn lemma_digest_prefix(a: Digest, b: Digest, s: Seq<u8>, t: Seq<u8>)
    requires
        enc_digest(a) + s == enc_digest(b) + t,
    ensures
        a == b,
        s == t,
{
    lemma_split_eq(enc_digest(a), enc_digest(b), s, t);
    assert(a =~= b);
}

/// A non empty list's items read front first.
proof fn lemma_concat_front<T>(items: Seq<T>, f: spec_fn(T) -> Seq<u8>)
    requires
        items.len() > 0,
    ensures
        concat(items, f) == f(items[0]) + concat(items.skip(1), f),
{
    lemma_concat_split(items, 1, f);
    assert(items.take(1).drop_last() =~= Seq::<T>::empty());
    assert(concat(items.take(1).drop_last(), f) =~= Seq::<u8>::empty());
    assert(items.take(1).last() == items[0]);
    assert(concat(items.take(1), f) =~= f(items[0]));
    assert(items.subrange(1, items.len() as int) =~= items.skip(1));
}


/// Every field element of a layer opening is canonical.
pub open spec fn canonical_layer(l: QueryLayer<Felt>) -> bool {
    l.eval.val() < p() && l.sibling.val() < p()
}

/// Every field element of a query is canonical.
#[verifier::opaque]
pub open spec fn canonical_query(q: QueryProof<Felt>) -> bool {
    forall|i: int| 0 <= i < q.layers@.len() ==> #[trigger] canonical_layer(q.layers@[i])
}

/// Every field element of an opened row is canonical.
#[verifier::opaque]
pub open spec fn canonical_row(r: RowOpening) -> bool {
    forall|i: int| 0 <= i < r.values@.len() ==> #[trigger] r.values@[i].val() < p()
}

/// Every field element of a query opening is canonical.
#[verifier::opaque]
pub open spec fn canonical_opening(o: QueryOpening) -> bool {
    forall|i: int| 0 <= i < o.rows@.len() ==> #[trigger] canonical_row(o.rows@[i])
}

/// Every field element of a proof is canonical, as in any proof built in
/// executable code.
pub open spec fn canonical_proof(pr: StarkProof) -> bool {
    &&& forall|i: int| 0 <= i < pr.fri.final_layer@.len() ==> #[trigger] pr.fri.final_layer@[i].val() < p()
    &&& forall|i: int| 0 <= i < pr.fri.queries@.len() ==> #[trigger] canonical_query(pr.fri.queries@[i])
    &&& forall|i: int| 0 <= i < pr.openings@.len() ==> #[trigger] canonical_opening(pr.openings@[i])
}

proof fn lemma_digest_list_prefix(xs: Seq<Digest>, ys: Seq<Digest>, s: Seq<u8>, t: Seq<u8>)
    requires
        xs.len() == ys.len(),
        concat(xs, |d: Digest| enc_digest(d)) + s == concat(ys, |d: Digest| enc_digest(d)) + t,
    ensures
        forall|i: int| 0 <= i < xs.len() ==> #[trigger] xs[i] == ys[i],
        s == t,
    decreases xs.len(),
{
    if xs.len() == 0 {
        assert(concat(xs, |d: Digest| enc_digest(d)) =~= Seq::<u8>::empty());
        assert(concat(ys, |d: Digest| enc_digest(d)) =~= Seq::<u8>::empty());
        assert(concat(xs, |d: Digest| enc_digest(d)) + s =~= s);
        assert(concat(ys, |d: Digest| enc_digest(d)) + t =~= t);
    } else {
        lemma_concat_front(xs, |d: Digest| enc_digest(d));
        lemma_concat_front(ys, |d: Digest| enc_digest(d));
        assert(concat(xs, |d: Digest| enc_digest(d)) + s =~= enc_digest(xs[0]) + (concat(xs.skip(1), |d: Digest| enc_digest(d)) + s));
        assert(concat(ys, |d: Digest| enc_digest(d)) + t =~= enc_digest(ys[0]) + (concat(ys.skip(1), |d: Digest| enc_digest(d)) + t));
        lemma_digest_prefix(xs[0], ys[0], concat(xs.skip(1), |d: Digest| enc_digest(d)) + s, concat(ys.skip(1), |d: Digest| enc_digest(d)) + t);
        lemma_digest_list_prefix(xs.skip(1), ys.skip(1), s, t);
        assert forall|i: int| 0 <= i < xs.len() implies #[trigger] xs[i] == ys[i] by {
            if i > 0 {
                assert(xs[i] == xs.skip(1)[i - 1]);
                assert(ys[i] == ys.skip(1)[i - 1]);
            }
        }
    }
}

proof fn lemma_felt_list_prefix(xs: Seq<Felt>, ys: Seq<Felt>, s: Seq<u8>, t: Seq<u8>)
    requires
        xs.len() == ys.len(),
        forall|i: int| 0 <= i < xs.len() ==> #[trigger] xs[i].val() < p(),
        forall|i: int| 0 <= i < ys.len() ==> #[trigger] ys[i].val() < p(),
        concat(xs, |v: Felt| enc_felt(v)) + s == concat(ys, |v: Felt| enc_felt(v)) + t,
    ensures
        forall|i: int| 0 <= i < xs.len() ==> #[trigger] xs[i] == ys[i],
        s == t,
    decreases xs.len(),
{
    if xs.len() == 0 {
        assert(concat(xs, |v: Felt| enc_felt(v)) =~= Seq::<u8>::empty());
        assert(concat(ys, |v: Felt| enc_felt(v)) =~= Seq::<u8>::empty());
        assert(concat(xs, |v: Felt| enc_felt(v)) + s =~= s);
        assert(concat(ys, |v: Felt| enc_felt(v)) + t =~= t);
    } else {
        lemma_concat_front(xs, |v: Felt| enc_felt(v));
        lemma_concat_front(ys, |v: Felt| enc_felt(v));
        assert(concat(xs, |v: Felt| enc_felt(v)) + s =~= enc_felt(xs[0]) + (concat(xs.skip(1), |v: Felt| enc_felt(v)) + s));
        assert(concat(ys, |v: Felt| enc_felt(v)) + t =~= enc_felt(ys[0]) + (concat(ys.skip(1), |v: Felt| enc_felt(v)) + t));
        lemma_felt_prefix(xs[0], ys[0], concat(xs.skip(1), |v: Felt| enc_felt(v)) + s, concat(ys.skip(1), |v: Felt| enc_felt(v)) + t);
        lemma_felt_list_prefix(xs.skip(1), ys.skip(1), s, t);
        assert forall|i: int| 0 <= i < xs.len() implies #[trigger] xs[i] == ys[i] by {
            if i > 0 {
                assert(xs[i] == xs.skip(1)[i - 1]);
                assert(ys[i] == ys.skip(1)[i - 1]);
            }
        }
    }
}

proof fn lemma_merkle_prefix(a: MerkleProof, b: MerkleProof, s: Seq<u8>, t: Seq<u8>)
    requires
        enc_merkle(a) + s == enc_merkle(b) + t,
    ensures
        same_merkle(a, b),
        s == t,
{
    let f = |d: Digest| enc_digest(d);
    let _ = a.siblings.len();
    let _ = b.siblings.len();
    assert(enc_merkle(a) + s =~= enc_word(a.leaf_index as u64) + (enc_word(a.siblings@.len() as u64) + (concat(a.siblings@, f) + s)));
    assert(enc_merkle(b) + t =~= enc_word(b.leaf_index as u64) + (enc_word(b.siblings@.len() as u64) + (concat(b.siblings@, f) + t)));
    lemma_word_prefix(a.leaf_index as u64, b.leaf_index as u64,
        enc_word(a.siblings@.len() as u64) + (concat(a.siblings@, f) + s), enc_word(b.siblings@.len() as u64) + (concat(b.siblings@, f) + t));
    lemma_word_prefix(a.siblings@.len() as u64, b.siblings@.len() as u64, concat(a.siblings@, f) + s, concat(b.siblings@, f) + t);
    lemma_digest_list_prefix(a.siblings@, b.siblings@, s, t);
    assert(a.siblings@ =~= b.siblings@);
}

proof fn lemma_layer_prefix(a: QueryLayer<Felt>, b: QueryLayer<Felt>, s: Seq<u8>, t: Seq<u8>)
    requires
        canonical_layer(a),
        canonical_layer(b),
        enc_layer(a) + s == enc_layer(b) + t,
    ensures
        same_layer(a, b),
        s == t,
{
    assert(enc_layer(a) + s =~= enc_felt(a.eval) + (enc_felt(a.sibling) + (enc_merkle(a.eval_path) + (enc_merkle(a.sibling_path) + s))));
    assert(enc_layer(b) + t =~= enc_felt(b.eval) + (enc_felt(b.sibling) + (enc_merkle(b.eval_path) + (enc_merkle(b.sibling_path) + t))));
    lemma_felt_prefix(a.eval, b.eval, enc_felt(a.sibling) + (enc_merkle(a.eval_path) + (enc_merkle(a.sibling_path) + s)),
        enc_felt(b.sibling) + (enc_merkle(b.eval_path) + (enc_merkle(b.sibling_path) + t)));
    lemma_felt_prefix(a.sibling, b.sibling, enc_merkle(a.eval_path) + (enc_merkle(a.sibling_path) + s),
        enc_merkle(b.eval_path) + (enc_merkle(b.sibling_path) + t));
    lemma_merkle_prefix(a.eval_path, b.eval_path, enc_merkle(a.sibling_path) + s, enc_merkle(b.sibling_path) + t);
    lemma_merkle_prefix(a.sibling_path, b.sibling_path, s, t);
}

#[verifier::spinoff_prover]
#[verifier::rlimit(100)]
proof fn lemma_layer_list_prefix(xs: Seq<QueryLayer<Felt>>, ys: Seq<QueryLayer<Felt>>, s: Seq<u8>, t: Seq<u8>)
    requires
        xs.len() == ys.len(),
        forall|i: int| 0 <= i < xs.len() ==> #[trigger] canonical_layer(xs[i]),
        forall|i: int| 0 <= i < ys.len() ==> #[trigger] canonical_layer(ys[i]),
        concat(xs, |l: QueryLayer<Felt>| enc_layer(l)) + s == concat(ys, |l: QueryLayer<Felt>| enc_layer(l)) + t,
    ensures
        forall|i: int| 0 <= i < xs.len() ==> #[trigger] same_layer(xs[i], ys[i]),
        s == t,
    decreases xs.len(),
{
    if xs.len() == 0 {
        assert(concat(xs, |l: QueryLayer<Felt>| enc_layer(l)) =~= Seq::<u8>::empty());
        assert(concat(ys, |l: QueryLayer<Felt>| enc_layer(l)) =~= Seq::<u8>::empty());
        assert(concat(xs, |l: QueryLayer<Felt>| enc_layer(l)) + s =~= s);
        assert(concat(ys, |l: QueryLayer<Felt>| enc_layer(l)) + t =~= t);
    } else {
        lemma_concat_front(xs, |l: QueryLayer<Felt>| enc_layer(l));
        lemma_concat_front(ys, |l: QueryLayer<Felt>| enc_layer(l));
        assert(concat(xs, |l: QueryLayer<Felt>| enc_layer(l)) + s =~= enc_layer(xs[0]) + (concat(xs.skip(1), |l: QueryLayer<Felt>| enc_layer(l)) + s));
        assert(concat(ys, |l: QueryLayer<Felt>| enc_layer(l)) + t =~= enc_layer(ys[0]) + (concat(ys.skip(1), |l: QueryLayer<Felt>| enc_layer(l)) + t));
        lemma_layer_prefix(xs[0], ys[0], concat(xs.skip(1), |l: QueryLayer<Felt>| enc_layer(l)) + s, concat(ys.skip(1), |l: QueryLayer<Felt>| enc_layer(l)) + t);
        assert forall|i: int| 0 <= i < xs.skip(1).len() implies #[trigger] canonical_layer(xs.skip(1)[i]) by {
            assert(xs.skip(1)[i] == xs[i + 1]);
        }
        assert forall|i: int| 0 <= i < ys.skip(1).len() implies #[trigger] canonical_layer(ys.skip(1)[i]) by {
            assert(ys.skip(1)[i] == ys[i + 1]);
        }
        lemma_layer_list_prefix(xs.skip(1), ys.skip(1), s, t);
        assert forall|i: int| 0 <= i < xs.len() implies #[trigger] same_layer(xs[i], ys[i]) by {
            if i > 0 {
                assert(xs[i] == xs.skip(1)[i - 1]);
                assert(ys[i] == ys.skip(1)[i - 1]);
            }
        }
    }
}

proof fn lemma_query_prefix(a: QueryProof<Felt>, b: QueryProof<Felt>, s: Seq<u8>, t: Seq<u8>)
    requires
        canonical_query(a),
        canonical_query(b),
        enc_query(a) + s == enc_query(b) + t,
    ensures
        same_query(a, b),
        s == t,
{
    reveal(same_query);
    reveal(canonical_query);
    let f = |l: QueryLayer<Felt>| enc_layer(l);
    let _ = a.layers.len();
    let _ = b.layers.len();
    assert(enc_query(a) + s =~= enc_word(a.position as u64) + (enc_word(a.layers@.len() as u64) + (concat(a.layers@, f) + s)));
    assert(enc_query(b) + t =~= enc_word(b.position as u64) + (enc_word(b.layers@.len() as u64) + (concat(b.layers@, f) + t)));
    lemma_word_prefix(a.position as u64, b.position as u64,
        enc_word(a.layers@.len() as u64) + (concat(a.layers@, f) + s), enc_word(b.layers@.len() as u64) + (concat(b.layers@, f) + t));
    lemma_word_prefix(a.layers@.len() as u64, b.layers@.len() as u64, concat(a.layers@, f) + s, concat(b.layers@, f) + t);
    lemma_layer_list_prefix(a.layers@, b.layers@, s, t);
}

#[verifier::spinoff_prover]
#[verifier::rlimit(100)]
proof fn lemma_query_list_prefix(xs: Seq<QueryProof<Felt>>, ys: Seq<QueryProof<Felt>>, s: Seq<u8>, t: Seq<u8>)
    requires
        xs.len() == ys.len(),
        forall|i: int| 0 <= i < xs.len() ==> #[trigger] canonical_query(xs[i]),
        forall|i: int| 0 <= i < ys.len() ==> #[trigger] canonical_query(ys[i]),
        concat(xs, |q: QueryProof<Felt>| enc_query(q)) + s == concat(ys, |q: QueryProof<Felt>| enc_query(q)) + t,
    ensures
        forall|i: int| 0 <= i < xs.len() ==> #[trigger] same_query(xs[i], ys[i]),
        s == t,
    decreases xs.len(),
{
    if xs.len() == 0 {
        assert(concat(xs, |q: QueryProof<Felt>| enc_query(q)) =~= Seq::<u8>::empty());
        assert(concat(ys, |q: QueryProof<Felt>| enc_query(q)) =~= Seq::<u8>::empty());
        assert(concat(xs, |q: QueryProof<Felt>| enc_query(q)) + s =~= s);
        assert(concat(ys, |q: QueryProof<Felt>| enc_query(q)) + t =~= t);
    } else {
        lemma_concat_front(xs, |q: QueryProof<Felt>| enc_query(q));
        lemma_concat_front(ys, |q: QueryProof<Felt>| enc_query(q));
        assert(concat(xs, |q: QueryProof<Felt>| enc_query(q)) + s =~= enc_query(xs[0]) + (concat(xs.skip(1), |q: QueryProof<Felt>| enc_query(q)) + s));
        assert(concat(ys, |q: QueryProof<Felt>| enc_query(q)) + t =~= enc_query(ys[0]) + (concat(ys.skip(1), |q: QueryProof<Felt>| enc_query(q)) + t));
        lemma_query_prefix(xs[0], ys[0], concat(xs.skip(1), |q: QueryProof<Felt>| enc_query(q)) + s, concat(ys.skip(1), |q: QueryProof<Felt>| enc_query(q)) + t);
        assert forall|i: int| 0 <= i < xs.skip(1).len() implies #[trigger] canonical_query(xs.skip(1)[i]) by {
            assert(xs.skip(1)[i] == xs[i + 1]);
        }
        assert forall|i: int| 0 <= i < ys.skip(1).len() implies #[trigger] canonical_query(ys.skip(1)[i]) by {
            assert(ys.skip(1)[i] == ys[i + 1]);
        }
        lemma_query_list_prefix(xs.skip(1), ys.skip(1), s, t);
        assert forall|i: int| 0 <= i < xs.len() implies #[trigger] same_query(xs[i], ys[i]) by {
            if i > 0 {
                assert(xs[i] == xs.skip(1)[i - 1]);
                assert(ys[i] == ys.skip(1)[i - 1]);
            }
        }
    }
}

proof fn lemma_row_prefix(a: RowOpening, b: RowOpening, s: Seq<u8>, t: Seq<u8>)
    requires
        canonical_row(a),
        canonical_row(b),
        enc_row(a) + s == enc_row(b) + t,
    ensures
        same_row(a, b),
        s == t,
{
    reveal(canonical_row);
    let f = |v: Felt| enc_felt(v);
    let _ = a.values.len();
    let _ = b.values.len();
    assert(enc_row(a) + s =~= enc_word(a.index as u64) + (enc_word(a.values@.len() as u64) + (concat(a.values@, f) + (enc_merkle(a.path) + s))));
    assert(enc_row(b) + t =~= enc_word(b.index as u64) + (enc_word(b.values@.len() as u64) + (concat(b.values@, f) + (enc_merkle(b.path) + t))));
    lemma_word_prefix(a.index as u64, b.index as u64,
        enc_word(a.values@.len() as u64) + (concat(a.values@, f) + (enc_merkle(a.path) + s)),
        enc_word(b.values@.len() as u64) + (concat(b.values@, f) + (enc_merkle(b.path) + t)));
    lemma_word_prefix(a.values@.len() as u64, b.values@.len() as u64, concat(a.values@, f) + (enc_merkle(a.path) + s),
        concat(b.values@, f) + (enc_merkle(b.path) + t));
    lemma_felt_list_prefix(a.values@, b.values@, enc_merkle(a.path) + s, enc_merkle(b.path) + t);
    assert(a.values@ =~= b.values@);
    lemma_merkle_prefix(a.path, b.path, s, t);
}

#[verifier::spinoff_prover]
#[verifier::rlimit(100)]
proof fn lemma_row_list_prefix(xs: Seq<RowOpening>, ys: Seq<RowOpening>, s: Seq<u8>, t: Seq<u8>)
    requires
        xs.len() == ys.len(),
        forall|i: int| 0 <= i < xs.len() ==> #[trigger] canonical_row(xs[i]),
        forall|i: int| 0 <= i < ys.len() ==> #[trigger] canonical_row(ys[i]),
        concat(xs, |r: RowOpening| enc_row(r)) + s == concat(ys, |r: RowOpening| enc_row(r)) + t,
    ensures
        forall|i: int| 0 <= i < xs.len() ==> #[trigger] same_row(xs[i], ys[i]),
        s == t,
    decreases xs.len(),
{
    if xs.len() == 0 {
        assert(concat(xs, |r: RowOpening| enc_row(r)) =~= Seq::<u8>::empty());
        assert(concat(ys, |r: RowOpening| enc_row(r)) =~= Seq::<u8>::empty());
        assert(concat(xs, |r: RowOpening| enc_row(r)) + s =~= s);
        assert(concat(ys, |r: RowOpening| enc_row(r)) + t =~= t);
    } else {
        lemma_concat_front(xs, |r: RowOpening| enc_row(r));
        lemma_concat_front(ys, |r: RowOpening| enc_row(r));
        assert(concat(xs, |r: RowOpening| enc_row(r)) + s =~= enc_row(xs[0]) + (concat(xs.skip(1), |r: RowOpening| enc_row(r)) + s));
        assert(concat(ys, |r: RowOpening| enc_row(r)) + t =~= enc_row(ys[0]) + (concat(ys.skip(1), |r: RowOpening| enc_row(r)) + t));
        lemma_row_prefix(xs[0], ys[0], concat(xs.skip(1), |r: RowOpening| enc_row(r)) + s, concat(ys.skip(1), |r: RowOpening| enc_row(r)) + t);
        assert forall|i: int| 0 <= i < xs.skip(1).len() implies #[trigger] canonical_row(xs.skip(1)[i]) by {
            assert(xs.skip(1)[i] == xs[i + 1]);
        }
        assert forall|i: int| 0 <= i < ys.skip(1).len() implies #[trigger] canonical_row(ys.skip(1)[i]) by {
            assert(ys.skip(1)[i] == ys[i + 1]);
        }
        lemma_row_list_prefix(xs.skip(1), ys.skip(1), s, t);
        assert forall|i: int| 0 <= i < xs.len() implies #[trigger] same_row(xs[i], ys[i]) by {
            if i > 0 {
                assert(xs[i] == xs.skip(1)[i - 1]);
                assert(ys[i] == ys.skip(1)[i - 1]);
            }
        }
    }
}

proof fn lemma_opening_prefix(a: QueryOpening, b: QueryOpening, s: Seq<u8>, t: Seq<u8>)
    requires
        canonical_opening(a),
        canonical_opening(b),
        enc_opening(a) + s == enc_opening(b) + t,
    ensures
        same_opening(a, b),
        s == t,
{
    reveal(same_opening);
    reveal(canonical_opening);
    let f = |r: RowOpening| enc_row(r);
    let _ = a.rows.len();
    let _ = b.rows.len();
    assert(enc_opening(a) + s =~= enc_word(a.rows@.len() as u64) + (concat(a.rows@, f) + s));
    assert(enc_opening(b) + t =~= enc_word(b.rows@.len() as u64) + (concat(b.rows@, f) + t));
    lemma_word_prefix(a.rows@.len() as u64, b.rows@.len() as u64, concat(a.rows@, f) + s, concat(b.rows@, f) + t);
    lemma_row_list_prefix(a.rows@, b.rows@, s, t);
}

#[verifier::spinoff_prover]
#[verifier::rlimit(100)]
proof fn lemma_opening_list_prefix(xs: Seq<QueryOpening>, ys: Seq<QueryOpening>, s: Seq<u8>, t: Seq<u8>)
    requires
        xs.len() == ys.len(),
        forall|i: int| 0 <= i < xs.len() ==> #[trigger] canonical_opening(xs[i]),
        forall|i: int| 0 <= i < ys.len() ==> #[trigger] canonical_opening(ys[i]),
        concat(xs, |o: QueryOpening| enc_opening(o)) + s == concat(ys, |o: QueryOpening| enc_opening(o)) + t,
    ensures
        forall|i: int| 0 <= i < xs.len() ==> #[trigger] same_opening(xs[i], ys[i]),
        s == t,
    decreases xs.len(),
{
    if xs.len() == 0 {
        assert(concat(xs, |o: QueryOpening| enc_opening(o)) =~= Seq::<u8>::empty());
        assert(concat(ys, |o: QueryOpening| enc_opening(o)) =~= Seq::<u8>::empty());
        assert(concat(xs, |o: QueryOpening| enc_opening(o)) + s =~= s);
        assert(concat(ys, |o: QueryOpening| enc_opening(o)) + t =~= t);
    } else {
        lemma_concat_front(xs, |o: QueryOpening| enc_opening(o));
        lemma_concat_front(ys, |o: QueryOpening| enc_opening(o));
        assert(concat(xs, |o: QueryOpening| enc_opening(o)) + s =~= enc_opening(xs[0]) + (concat(xs.skip(1), |o: QueryOpening| enc_opening(o)) + s));
        assert(concat(ys, |o: QueryOpening| enc_opening(o)) + t =~= enc_opening(ys[0]) + (concat(ys.skip(1), |o: QueryOpening| enc_opening(o)) + t));
        lemma_opening_prefix(xs[0], ys[0], concat(xs.skip(1), |o: QueryOpening| enc_opening(o)) + s, concat(ys.skip(1), |o: QueryOpening| enc_opening(o)) + t);
        assert forall|i: int| 0 <= i < xs.skip(1).len() implies #[trigger] canonical_opening(xs.skip(1)[i]) by {
            assert(xs.skip(1)[i] == xs[i + 1]);
        }
        assert forall|i: int| 0 <= i < ys.skip(1).len() implies #[trigger] canonical_opening(ys.skip(1)[i]) by {
            assert(ys.skip(1)[i] == ys[i + 1]);
        }
        lemma_opening_list_prefix(xs.skip(1), ys.skip(1), s, t);
        assert forall|i: int| 0 <= i < xs.len() implies #[trigger] same_opening(xs[i], ys[i]) by {
            if i > 0 {
                assert(xs[i] == xs.skip(1)[i - 1]);
                assert(ys[i] == ys.skip(1)[i - 1]);
            }
        }
    }
}

proof fn lemma_encode_layout(a: StarkProof)
    ensures
        spec_encode(a) + Seq::<u8>::empty() == enc_digest(a.trace_root) + (enc_word(a.fri.layer_roots@.len() as u64)
            + (concat(a.fri.layer_roots@, |d: Digest| enc_digest(d)) + (enc_word(a.fri.final_layer@.len() as u64)
            + (concat(a.fri.final_layer@, |v: Felt| enc_felt(v)) + (enc_word(a.fri.queries@.len() as u64)
            + (concat(a.fri.queries@, |q: QueryProof<Felt>| enc_query(q)) + (enc_word(a.openings@.len() as u64)
            + (concat(a.openings@, |o: QueryOpening| enc_opening(o)) + Seq::<u8>::empty())))))))),
{
    let x0 = enc_digest(a.trace_root);
    let x1 = enc_list(a.fri.layer_roots@, |d: Digest| enc_digest(d));
    let x2 = enc_list(a.fri.final_layer@, |v: Felt| enc_felt(v));
    let x3 = enc_list(a.fri.queries@, |q: QueryProof<Felt>| enc_query(q));
    let x4 = enc_list(a.openings@, |o: QueryOpening| enc_opening(o));
    assert(spec_encode(a) == x0 + x1 + x2 + x3 + x4);
    assert(x0 + x1 + x2 + x3 + x4 + Seq::<u8>::empty() =~= x0 + (x1 + (x2 + (x3 + (x4 + Seq::<u8>::empty())))));
    assert(x1 + (x2 + (x3 + (x4 + Seq::<u8>::empty()))) =~= enc_word(a.fri.layer_roots@.len() as u64)
            + (concat(a.fri.layer_roots@, |d: Digest| enc_digest(d)) + (x2 + (x3 + (x4 + Seq::<u8>::empty())))));
    assert(x2 + (x3 + (x4 + Seq::<u8>::empty())) =~= enc_word(a.fri.final_layer@.len() as u64)
            + (concat(a.fri.final_layer@, |v: Felt| enc_felt(v)) + (x3 + (x4 + Seq::<u8>::empty()))));
    assert(x3 + (x4 + Seq::<u8>::empty()) =~= enc_word(a.fri.queries@.len() as u64)
            + (concat(a.fri.queries@, |q: QueryProof<Felt>| enc_query(q)) + (x4 + Seq::<u8>::empty())));
    assert(x4 + Seq::<u8>::empty() =~= enc_word(a.openings@.len() as u64)
            + (concat(a.openings@, |o: QueryOpening| enc_opening(o)) + Seq::<u8>::empty()));
}

/// Two proofs with canonical field elements and the same encoding agree in
/// every root, value, position, index and path.
#[verifier::spinoff_prover]
#[verifier::rlimit(100)]
pub proof fn law_encoding_injective(a: StarkProof, b: StarkProof)
    requires
        canonical_proof(a),
        canonical_proof(b),
        spec_encode(a) == spec_encode(b),
    ensures
        same_proof(a, b),
{
    let fd = |d: Digest| enc_digest(d);
    let fv = |v: Felt| enc_felt(v);
    let fq = |q: QueryProof<Felt>| enc_query(q);
    let fo = |o: QueryOpening| enc_opening(o);
    let e = Seq::<u8>::empty();
    let _ = a.fri.layer_roots.len();
    let _ = b.fri.layer_roots.len();
    let _ = a.fri.final_layer.len();
    let _ = b.fri.final_layer.len();
    let _ = a.fri.queries.len();
    let _ = b.fri.queries.len();
    let _ = a.openings.len();
    let _ = b.openings.len();
    let ra = a.fri.layer_roots@;
    let rb = b.fri.layer_roots@;
    let va = a.fri.final_layer@;
    let vb = b.fri.final_layer@;
    let qa = a.fri.queries@;
    let qb = b.fri.queries@;
    let oa = a.openings@;
    let ob = b.openings@;
    let tail_a4 = concat(oa, fo) + e;
    let tail_b4 = concat(ob, fo) + e;
    let tail_a3 = concat(qa, fq) + (enc_word(oa.len() as u64) + tail_a4);
    let tail_b3 = concat(qb, fq) + (enc_word(ob.len() as u64) + tail_b4);
    let tail_a2 = concat(va, fv) + (enc_word(qa.len() as u64) + tail_a3);
    let tail_b2 = concat(vb, fv) + (enc_word(qb.len() as u64) + tail_b3);
    let tail_a1 = concat(ra, fd) + (enc_word(va.len() as u64) + tail_a2);
    let tail_b1 = concat(rb, fd) + (enc_word(vb.len() as u64) + tail_b2);
    lemma_encode_layout(a);
    lemma_encode_layout(b);
    lemma_digest_prefix(a.trace_root, b.trace_root, enc_word(ra.len() as u64) + tail_a1, enc_word(rb.len() as u64) + tail_b1);
    lemma_word_prefix(ra.len() as u64, rb.len() as u64, tail_a1, tail_b1);
    lemma_digest_list_prefix(ra, rb, enc_word(va.len() as u64) + tail_a2, enc_word(vb.len() as u64) + tail_b2);
    assert(ra =~= rb);
    lemma_word_prefix(va.len() as u64, vb.len() as u64, tail_a2, tail_b2);
    lemma_felt_list_prefix(va, vb, enc_word(qa.len() as u64) + tail_a3, enc_word(qb.len() as u64) + tail_b3);
    assert(va =~= vb);
    lemma_word_prefix(qa.len() as u64, qb.len() as u64, tail_a3, tail_b3);
    lemma_query_list_prefix(qa, qb, enc_word(oa.len() as u64) + tail_a4, enc_word(ob.len() as u64) + tail_b4);
    lemma_word_prefix(oa.len() as u64, ob.len() as u64, tail_a4, tail_b4);
    lemma_opening_list_prefix(oa, ob, e, e);
}

proof fn lemma_at_split(bytes: Seq<u8>, pos: nat, x: Seq<u8>, y: Seq<u8>)
    requires
        at(bytes, pos, x + y),
    ensures
        at(bytes, pos, x),
        at(bytes, pos + x.len(), y),
{
    assert(bytes.subrange(pos as int, (pos + x.len()) as int) =~= (x + y).subrange(0, x.len() as int));
    assert((x + y).subrange(0, x.len() as int) =~= x);
    assert(bytes.subrange((pos + x.len()) as int, (pos + x.len() + y.len()) as int)
        =~= (x + y).subrange(x.len() as int, (x.len() + y.len()) as int));
    assert((x + y).subrange(x.len() as int, (x.len() + y.len()) as int) =~= y);
}

proof fn lemma_concat_push<T>(items: Seq<T>, x: T, f: spec_fn(T) -> Seq<u8>)
    ensures
        concat(items.push(x), f) == concat(items, f) + f(x),
{
    assert(items.push(x).drop_last() =~= items);
}

proof fn lemma_concat_split<T>(items: Seq<T>, k: int, f: spec_fn(T) -> Seq<u8>)
    requires
        0 <= k <= items.len(),
    ensures
        concat(items, f) == concat(items.take(k), f) + concat(items.subrange(k, items.len() as int), f),
    decreases items.len(),
{
    if k == items.len() {
        assert(items.take(k) =~= items);
        assert(items.subrange(k, items.len() as int) =~= Seq::<T>::empty());
        assert(concat(items.subrange(k, items.len() as int), f) =~= seq![]);
    } else {
        lemma_concat_split(items.drop_last(), k, f);
        assert(items.drop_last().take(k) =~= items.take(k));
        let rest = items.subrange(k, items.len() as int);
        assert(rest.drop_last() =~= items.drop_last().subrange(k, items.drop_last().len() as int));
        assert(rest.last() == items.last());
    }
}

/// Reading item i of a list that sits at a position: it sits after the items
/// before it.
proof fn lemma_at_item<T>(bytes: Seq<u8>, pos: nat, items: Seq<T>, i: int, f: spec_fn(T) -> Seq<u8>)
    requires
        at(bytes, pos, concat(items, f)),
        0 <= i < items.len(),
    ensures
        at(bytes, pos + concat(items.take(i), f).len(), f(items[i])),
        concat(items.take(i + 1), f) == concat(items.take(i), f) + f(items[i]),
{
    lemma_concat_split(items, i + 1, f);
    assert(items.take(i + 1).drop_last() =~= items.take(i));
    assert(items.take(i + 1).last() == items[i]);
    lemma_at_split(bytes, pos, concat(items.take(i + 1), f), concat(items.subrange(i + 1, items.len() as int), f));
    lemma_at_split(bytes, pos, concat(items.take(i), f), f(items[i]));
}

proof fn lemma_bytes_word(b: Seq<u8>)
    requires
        b.len() == 8,
    ensures
        le_bytes(le_word(b)) == b,
{
    let (b0, b1, b2, b3, b4, b5, b6, b7) = (b[0], b[1], b[2], b[3], b[4], b[5], b[6], b[7]);
    let w = le_word(b);
    assert(w == (b0 as u64) | ((b1 as u64) << 8u64) | ((b2 as u64) << 16u64) | ((b3 as u64) << 24u64)
        | ((b4 as u64) << 32u64) | ((b5 as u64) << 40u64) | ((b6 as u64) << 48u64) | ((b7 as u64) << 56u64));
    assert(w as u8 == b0 && (w >> 8u64) as u8 == b1 && (w >> 16u64) as u8 == b2 && (w >> 24u64) as u8 == b3
        && (w >> 32u64) as u8 == b4 && (w >> 40u64) as u8 == b5 && (w >> 48u64) as u8 == b6
        && (w >> 56u64) as u8 == b7) by (bit_vector)
        requires
            w == (b0 as u64) | ((b1 as u64) << 8u64) | ((b2 as u64) << 16u64) | ((b3 as u64) << 24u64)
                | ((b4 as u64) << 32u64) | ((b5 as u64) << 40u64) | ((b6 as u64) << 48u64) | ((b7 as u64) << 56u64);
    assert(le_bytes(w) =~= b);
}

/// Reads a word at a position.
fn read_word(bytes: &[u8], pos: usize) -> (r: Option<(u64, usize)>)
    ensures
        r is Some <==> pos + 8 <= bytes@.len(),
        r is Some ==> (r->0).1 == pos + 8 && at(bytes@, pos as nat, enc_word((r->0).0)),
        r is Some ==> reads_at(bytes@, pos as nat, enc_word((r->0).0)),
{
    if pos > bytes.len() || bytes.len() - pos < 8 {
        return None;
    }
    let w = (bytes[pos] as u64) | ((bytes[pos + 1] as u64) << 8u64) | ((bytes[pos + 2] as u64) << 16u64)
        | ((bytes[pos + 3] as u64) << 24u64) | ((bytes[pos + 4] as u64) << 32u64)
        | ((bytes[pos + 5] as u64) << 40u64) | ((bytes[pos + 6] as u64) << 48u64)
        | ((bytes[pos + 7] as u64) << 56u64);
    proof {
        let seg = bytes@.subrange(pos as int, pos + 8int);
        assert(w == le_word(seg));
        lemma_bytes_word(seg);
        lemma_at_reads(bytes@, pos as nat, enc_word(w));
    }
    Some((w, pos + 8))
}

/// Reads a count at a position; a count beyond the word size is refused.
fn read_count(bytes: &[u8], pos: usize) -> (r: Option<(usize, usize)>)
    ensures
        r is Some ==> (r->0).1 == pos + 8 && at(bytes@, pos as nat, enc_word((r->0).0 as u64)),
        r is Some ==> reads_at(bytes@, pos as nat, enc_word((r->0).0 as u64)),
        forall|c: usize| #[trigger] at(bytes@, pos as nat, enc_word(c as u64)) ==> r == Some((c, (pos + 8) as usize)),
{
    match read_word(bytes, pos) {
        None => {
            proof {
                assert forall|c: usize| #[trigger] at(bytes@, pos as nat, enc_word(c as u64)) implies false by {}
            }
            None
        },
        Some((w, next)) => {
            proof {
                assert forall|c: usize| #[trigger] at(bytes@, pos as nat, enc_word(c as u64)) implies w == c as u64 by {
                    lemma_le_word_bytes(w);
                    lemma_le_word_bytes(c as u64);
                }
            }
            if w > usize::MAX as u64 {
                None
            } else {
                Some((w as usize, next))
            }
        },
    }
}

/// Reads a field element at a position, reducing the word.
fn read_felt(bytes: &[u8], pos: usize) -> (r: Option<(Felt, usize)>)
    ensures
        r is Some <==> pos + 8 <= bytes@.len(),
        r is Some ==> (r->0).1 == pos + 8,
        r is Some ==> reads_at(bytes@, pos as nat, enc_felt((r->0).0)),
        r is Some ==> (r->0).0.val() < p(),
        forall|v: Felt| #[trigger] at(bytes@, pos as nat, enc_felt(v)) ==> r is Some && enc_felt((r->0).0) == enc_felt(v),
{
    match read_word(bytes, pos) {
        None => None,
        Some((w, next)) => {
            let v = Felt::new(w);
            proof {
                assert forall|x: Felt| #[trigger] at(bytes@, pos as nat, enc_felt(x)) implies enc_felt(v) == enc_felt(x) by {
                    let xv = (x.val() % p()) as u64;
                    lemma_le_word_bytes(w);
                    lemma_le_word_bytes(xv);
                    assert(w == xv);
                    vstd::arithmetic::div_mod::lemma_mod_bound(x.val() as int, p() as int);
                    vstd::arithmetic::div_mod::lemma_small_mod(w as nat, p());
                    vstd::arithmetic::div_mod::lemma_small_mod(v.val(), p());
                }
                vstd::arithmetic::div_mod::lemma_small_mod(v.val(), p());
                lemma_word_reduced(bytes@, pos as nat, w, (v.val() % p()) as u64);
            }
            Some((v, next))
        },
    }
}

/// Reads a digest at a position.
fn read_digest(bytes: &[u8], pos: usize) -> (r: Option<(Digest, usize)>)
    ensures
        r is Some <==> pos + 32 <= bytes@.len(),
        r is Some ==> (r->0).1 == pos + 32 && at(bytes@, pos as nat, enc_digest((r->0).0)),
        r is Some ==> reads_at(bytes@, pos as nat, enc_digest((r->0).0)),
{
    if pos > bytes.len() || bytes.len() - pos < 32 {
        return None;
    }
    let n = bytes.len();
    let mut d = [0u8; 32];
    let mut k: usize = 0;
    while k < 32
        invariant
            n == bytes@.len(),
            k <= 32,
            pos + 32 <= bytes@.len(),
            forall|j: int| 0 <= j < k ==> #[trigger] d@[j] == bytes@[pos + j],
        decreases 32 - k,
    {
        d[k] = bytes[pos + k];
        k = k + 1;
    }
    assert(d@ =~= bytes@.subrange(pos as int, pos + 32));
    proof {
        lemma_at_reads(bytes@, pos as nat, enc_digest(d));
    }
    Some((d, pos + 32))
}


fn read_digest_at(bytes: &[u8], pos: usize, Ghost(t): Ghost<Digest>) -> (r: Option<(Digest, usize)>)
    ensures
        r is Some ==> (r->0).1 == pos + enc_digest((r->0).0).len() && (r->0).1 <= bytes@.len(),
        r is Some ==> reads_at(bytes@, pos as nat, enc_digest((r->0).0)),
        at(bytes@, pos as nat, enc_digest(t)) ==> r is Some && enc_digest((r->0).0) == enc_digest(t),
{
    read_digest(bytes, pos)
}

fn read_felt_at(bytes: &[u8], pos: usize, Ghost(t): Ghost<Felt>) -> (r: Option<(Felt, usize)>)
    ensures
        r is Some ==> (r->0).1 == pos + enc_felt((r->0).0).len() && (r->0).1 <= bytes@.len(),
        r is Some ==> reads_at(bytes@, pos as nat, enc_felt((r->0).0)),
        r is Some ==> (r->0).0.val() < p(),
        at(bytes@, pos as nat, enc_felt(t)) ==> r is Some && enc_felt((r->0).0) == enc_felt(t),
{
    read_felt(bytes, pos)
}

fn read_digests(bytes: &[u8], pos: usize, count: usize, Ghost(ts): Ghost<Seq<Digest>>) -> (r: Option<(Vec<Digest>, usize)>)
    requires
        pos <= bytes@.len(),
    ensures
        r is Some ==> (r->0).0@.len() == count && (r->0).1 == pos + concat((r->0).0@, |d: Digest| enc_digest(d)).len()
            && (r->0).1 <= bytes@.len(),
        r is Some ==> reads_at(bytes@, pos as nat, concat((r->0).0@, |d: Digest| enc_digest(d))),
        ts.len() == count && at(bytes@, pos as nat, concat(ts, |d: Digest| enc_digest(d)))
            ==> r is Some && concat((r->0).0@, |d: Digest| enc_digest(d)) == concat(ts, |d: Digest| enc_digest(d)),
{
    let ghost hyp = ts.len() == count && at(bytes@, pos as nat, concat(ts, |d: Digest| enc_digest(d)));
    let mut out: Vec<Digest> = Vec::new();
    let mut cur = pos;
    let mut i: usize = 0;
    proof {
        assert(out@ =~= Seq::<Digest>::empty());
        assert(concat(out@, |d: Digest| enc_digest(d)) =~= Seq::<u8>::empty());
        if hyp {
            assert(ts.take(0) =~= Seq::<Digest>::empty());
        }
    }
    while i < count
        invariant
            i <= count,
            out@.len() == i,
            cur == pos + concat(out@, |d: Digest| enc_digest(d)).len(),
            cur <= bytes@.len(),
            reads_at(bytes@, pos as nat, concat(out@, |d: Digest| enc_digest(d))),
            pos <= bytes@.len(),
            hyp == (ts.len() == count && at(bytes@, pos as nat, concat(ts, |d: Digest| enc_digest(d)))),
            hyp ==> concat(out@, |d: Digest| enc_digest(d)) == concat(ts.take(i as int), |d: Digest| enc_digest(d)),
        decreases count - i,
    {
        proof {
            if hyp {
                lemma_at_item(bytes@, pos as nat, ts, i as int, |d: Digest| enc_digest(d));
            }
        }
        let ghost before = out@;
        match read_digest_at(bytes, cur, Ghost(if hyp { ts[i as int] } else { arbitrary() })) {
            None => {
                return None;
            },
            Some((x, next)) => {
                out.push(x);
                proof {
                    lemma_concat_push(before, x, |d: Digest| enc_digest(d));
                    assert(out@ == before.push(x));
                    lemma_reads_join(bytes@, pos as nat, concat(before, |d: Digest| enc_digest(d)), enc_digest(x));
                }
                cur = next;
            },
        }
        i = i + 1;
    }
    proof {
        if hyp {
            assert(ts.take(count as int) =~= ts);
        }
    }
    Some((out, cur))
}

fn read_felts(bytes: &[u8], pos: usize, count: usize, Ghost(ts): Ghost<Seq<Felt>>) -> (r: Option<(Vec<Felt>, usize)>)
    requires
        pos <= bytes@.len(),
    ensures
        r is Some ==> (r->0).0@.len() == count && (r->0).1 == pos + concat((r->0).0@, |v: Felt| enc_felt(v)).len()
            && (r->0).1 <= bytes@.len(),
        r is Some ==> forall|k: int| 0 <= k < (r->0).0@.len() ==> #[trigger] (r->0).0@[k].val() < p(),
        r is Some ==> reads_at(bytes@, pos as nat, concat((r->0).0@, |v: Felt| enc_felt(v))),
        ts.len() == count && at(bytes@, pos as nat, concat(ts, |v: Felt| enc_felt(v)))
            ==> r is Some && concat((r->0).0@, |v: Felt| enc_felt(v)) == concat(ts, |v: Felt| enc_felt(v)),
{
    let ghost hyp = ts.len() == count && at(bytes@, pos as nat, concat(ts, |v: Felt| enc_felt(v)));
    let mut out: Vec<Felt> = Vec::new();
    let mut cur = pos;
    let mut i: usize = 0;
    proof {
        assert(out@ =~= Seq::<Felt>::empty());
        assert(concat(out@, |v: Felt| enc_felt(v)) =~= Seq::<u8>::empty());
        if hyp {
            assert(ts.take(0) =~= Seq::<Felt>::empty());
        }
    }
    while i < count
        invariant
            i <= count,
            out@.len() == i,
            cur == pos + concat(out@, |v: Felt| enc_felt(v)).len(),
            cur <= bytes@.len(),
            forall|k: int| 0 <= k < out@.len() ==> #[trigger] out@[k].val() < p(),
            reads_at(bytes@, pos as nat, concat(out@, |v: Felt| enc_felt(v))),
            pos <= bytes@.len(),
            hyp == (ts.len() == count && at(bytes@, pos as nat, concat(ts, |v: Felt| enc_felt(v)))),
            hyp ==> concat(out@, |v: Felt| enc_felt(v)) == concat(ts.take(i as int), |v: Felt| enc_felt(v)),
        decreases count - i,
    {
        proof {
            if hyp {
                lemma_at_item(bytes@, pos as nat, ts, i as int, |v: Felt| enc_felt(v));
            }
        }
        let ghost before = out@;
        match read_felt_at(bytes, cur, Ghost(if hyp { ts[i as int] } else { arbitrary() })) {
            None => {
                return None;
            },
            Some((x, next)) => {
                out.push(x);
                proof {
                    lemma_concat_push(before, x, |v: Felt| enc_felt(v));
                    assert(out@ == before.push(x));
                    assert forall|k: int| 0 <= k < out@.len() implies #[trigger] out@[k].val() < p() by {
                        if k < before.len() {
                            assert(out@[k] == before[k]);
                        }
                    }
                    lemma_reads_join(bytes@, pos as nat, concat(before, |v: Felt| enc_felt(v)), enc_felt(x));
                }
                cur = next;
            },
        }
        i = i + 1;
    }
    proof {
        if hyp {
            assert(ts.take(count as int) =~= ts);
        }
    }
    Some((out, cur))
}

proof fn lemma_enc_list_split<T>(bytes: Seq<u8>, pos: nat, items: Seq<T>, f: spec_fn(T) -> Seq<u8>)
    requires
        at(bytes, pos, enc_list(items, f)),
    ensures
        at(bytes, pos, enc_word(items.len() as u64)),
        at(bytes, pos + 8, concat(items, f)),
{
    lemma_at_split(bytes, pos, enc_word(items.len() as u64), concat(items, f));
}

fn read_merkle(bytes: &[u8], pos: usize, Ghost(t): Ghost<MerkleProof>) -> (r: Option<(MerkleProof, usize)>)
    ensures
        r is Some ==> (r->0).1 == pos + enc_merkle((r->0).0).len() && (r->0).1 <= bytes@.len(),
        r is Some ==> reads_at(bytes@, pos as nat, enc_merkle((r->0).0)),
        at(bytes@, pos as nat, enc_merkle(t)) ==> r is Some && enc_merkle((r->0).0) == enc_merkle(t),
{
    let ghost f = |d: Digest| enc_digest(d);
    let ghost hyp = at(bytes@, pos as nat, enc_merkle(t));
    proof {
        if hyp {
            let _ = t.siblings.len();
            lemma_at_split(bytes@, pos as nat, enc_word(t.leaf_index as u64), enc_list(t.siblings@, f));
            lemma_enc_list_split(bytes@, (pos + 8) as nat, t.siblings@, f);
        }
    }
    let (leaf_index, p1) = match read_count(bytes, pos) {
        None => { return None; },
        Some(x) => x,
    };
    let (len, p2) = match read_count(bytes, p1) {
        None => { return None; },
        Some(x) => x,
    };
    let (siblings, p3) = match read_digests(bytes, p2, len, Ghost(t.siblings@)) {
        None => { return None; },
        Some(x) => x,
    };
    let m = MerkleProof { leaf_index, siblings };
    proof {
        assert(enc_merkle(m) == enc_word(leaf_index as u64) + (enc_word(len as u64) + concat(m.siblings@, f)));
        assert((enc_word(leaf_index as u64) + (enc_word(len as u64) + concat(m.siblings@, f))).len()
            == 16 + concat(m.siblings@, f).len());
        lemma_reads_join(bytes@, p1 as nat, enc_word(len as u64), concat(m.siblings@, f));
        lemma_reads_join(bytes@, pos as nat, enc_word(leaf_index as u64), enc_word(len as u64) + concat(m.siblings@, f));
        if hyp {
            assert(leaf_index == t.leaf_index);
            assert(len == t.siblings@.len());
        }
    }
    Some((m, p3))
}

fn read_layer(bytes: &[u8], pos: usize, Ghost(t): Ghost<QueryLayer<Felt>>) -> (r: Option<(QueryLayer<Felt>, usize)>)
    ensures
        r is Some ==> (r->0).1 == pos + enc_layer((r->0).0).len() && (r->0).1 <= bytes@.len(),
        r is Some ==> reads_at(bytes@, pos as nat, enc_layer((r->0).0)),
        r is Some ==> canonical_layer((r->0).0),
        at(bytes@, pos as nat, enc_layer(t)) ==> r is Some && enc_layer((r->0).0) == enc_layer(t),
{
    let ghost hyp = at(bytes@, pos as nat, enc_layer(t));
    proof {
        if hyp {
            lemma_at_split(bytes@, pos as nat, enc_felt(t.eval) + enc_felt(t.sibling) + enc_merkle(t.eval_path), enc_merkle(t.sibling_path));
            lemma_at_split(bytes@, pos as nat, enc_felt(t.eval) + enc_felt(t.sibling), enc_merkle(t.eval_path));
            lemma_at_split(bytes@, pos as nat, enc_felt(t.eval), enc_felt(t.sibling));
        }
    }
    let (eval, p1) = match read_felt_at(bytes, pos, Ghost(t.eval)) { None => { return None; }, Some(x) => x };
    let (sibling, p2) = match read_felt_at(bytes, p1, Ghost(t.sibling)) { None => { return None; }, Some(x) => x };
    let (eval_path, p3) = match read_merkle(bytes, p2, Ghost(t.eval_path)) { None => { return None; }, Some(x) => x };
    let (sibling_path, p4) = match read_merkle(bytes, p3, Ghost(t.sibling_path)) { None => { return None; }, Some(x) => x };
    let l = QueryLayer { eval, sibling, eval_path, sibling_path };
    proof {
        lemma_reads_join(bytes@, pos as nat, enc_felt(eval), enc_felt(sibling));
        lemma_reads_join(bytes@, pos as nat, enc_felt(eval) + enc_felt(sibling), enc_merkle(eval_path));
        lemma_reads_join(bytes@, pos as nat, enc_felt(eval) + enc_felt(sibling) + enc_merkle(eval_path), enc_merkle(sibling_path));
    }
    Some((l, p4))
}

fn read_layers(bytes: &[u8], pos: usize, count: usize, Ghost(ts): Ghost<Seq<QueryLayer<Felt>>>) -> (r: Option<(Vec<QueryLayer<Felt>>, usize)>)
    requires
        pos <= bytes@.len(),
    ensures
        r is Some ==> (r->0).0@.len() == count && (r->0).1 == pos + concat((r->0).0@, |l: QueryLayer<Felt>| enc_layer(l)).len()
            && (r->0).1 <= bytes@.len(),
        r is Some ==> forall|k: int| 0 <= k < (r->0).0@.len() ==> #[trigger] canonical_layer((r->0).0@[k]),
        r is Some ==> reads_at(bytes@, pos as nat, concat((r->0).0@, |l: QueryLayer<Felt>| enc_layer(l))),
        ts.len() == count && at(bytes@, pos as nat, concat(ts, |l: QueryLayer<Felt>| enc_layer(l)))
            ==> r is Some && concat((r->0).0@, |l: QueryLayer<Felt>| enc_layer(l)) == concat(ts, |l: QueryLayer<Felt>| enc_layer(l)),
{
    let ghost hyp = ts.len() == count && at(bytes@, pos as nat, concat(ts, |l: QueryLayer<Felt>| enc_layer(l)));
    let mut out: Vec<QueryLayer<Felt>> = Vec::new();
    let mut cur = pos;
    let mut i: usize = 0;
    proof {
        assert(out@ =~= Seq::<QueryLayer<Felt>>::empty());
        assert(concat(out@, |l: QueryLayer<Felt>| enc_layer(l)) =~= Seq::<u8>::empty());
        if hyp {
            assert(ts.take(0) =~= Seq::<QueryLayer<Felt>>::empty());
        }
    }
    while i < count
        invariant
            i <= count,
            out@.len() == i,
            cur == pos + concat(out@, |l: QueryLayer<Felt>| enc_layer(l)).len(),
            cur <= bytes@.len(),
            forall|k: int| 0 <= k < out@.len() ==> #[trigger] canonical_layer(out@[k]),
            reads_at(bytes@, pos as nat, concat(out@, |l: QueryLayer<Felt>| enc_layer(l))),
            pos <= bytes@.len(),
            hyp == (ts.len() == count && at(bytes@, pos as nat, concat(ts, |l: QueryLayer<Felt>| enc_layer(l)))),
            hyp ==> concat(out@, |l: QueryLayer<Felt>| enc_layer(l)) == concat(ts.take(i as int), |l: QueryLayer<Felt>| enc_layer(l)),
        decreases count - i,
    {
        proof {
            if hyp {
                lemma_at_item(bytes@, pos as nat, ts, i as int, |l: QueryLayer<Felt>| enc_layer(l));
            }
        }
        let ghost before = out@;
        match read_layer(bytes, cur, Ghost(if hyp { ts[i as int] } else { arbitrary() })) {
            None => {
                return None;
            },
            Some((x, next)) => {
                out.push(x);
                proof {
                    lemma_concat_push(before, x, |l: QueryLayer<Felt>| enc_layer(l));
                    assert(out@ == before.push(x));
                    assert forall|k: int| 0 <= k < out@.len() implies #[trigger] canonical_layer(out@[k]) by {
                        if k < before.len() {
                            assert(out@[k] == before[k]);
                        }
                    }
                    lemma_reads_join(bytes@, pos as nat, concat(before, |l: QueryLayer<Felt>| enc_layer(l)), enc_layer(x));
                }
                cur = next;
            },
        }
        i = i + 1;
    }
    proof {
        if hyp {
            assert(ts.take(count as int) =~= ts);
        }
    }
    Some((out, cur))
}

fn read_query(bytes: &[u8], pos: usize, Ghost(t): Ghost<QueryProof<Felt>>) -> (r: Option<(QueryProof<Felt>, usize)>)
    ensures
        r is Some ==> (r->0).1 == pos + enc_query((r->0).0).len() && (r->0).1 <= bytes@.len(),
        r is Some ==> reads_at(bytes@, pos as nat, enc_query((r->0).0)),
        r is Some ==> canonical_query((r->0).0),
        at(bytes@, pos as nat, enc_query(t)) ==> r is Some && enc_query((r->0).0) == enc_query(t),
{
    proof {
        reveal(canonical_query);
    }
    let ghost f = |l: QueryLayer<Felt>| enc_layer(l);
    let ghost hyp = at(bytes@, pos as nat, enc_query(t));
    proof {
        if hyp {
            let _ = t.layers.len();
            lemma_at_split(bytes@, pos as nat, enc_word(t.position as u64), enc_list(t.layers@, f));
            lemma_enc_list_split(bytes@, (pos + 8) as nat, t.layers@, f);
        }
    }
    let (position, p1) = match read_count(bytes, pos) { None => { return None; }, Some(x) => x };
    let (len, p2) = match read_count(bytes, p1) { None => { return None; }, Some(x) => x };
    let (layers, p3) = match read_layers(bytes, p2, len, Ghost(t.layers@)) { None => { return None; }, Some(x) => x };
    let q = QueryProof { position, layers };
    proof {
        assert(enc_query(q) == enc_word(position as u64) + (enc_word(len as u64) + concat(q.layers@, f)));
        lemma_reads_join(bytes@, p1 as nat, enc_word(len as u64), concat(q.layers@, f));
        lemma_reads_join(bytes@, pos as nat, enc_word(position as u64), enc_word(len as u64) + concat(q.layers@, f));
        if hyp {
            assert(position == t.position);
            assert(len == t.layers@.len());
        }
    }
    Some((q, p3))
}

fn read_queries(bytes: &[u8], pos: usize, count: usize, Ghost(ts): Ghost<Seq<QueryProof<Felt>>>) -> (r: Option<(Vec<QueryProof<Felt>>, usize)>)
    requires
        pos <= bytes@.len(),
    ensures
        r is Some ==> (r->0).0@.len() == count && (r->0).1 == pos + concat((r->0).0@, |q: QueryProof<Felt>| enc_query(q)).len()
            && (r->0).1 <= bytes@.len(),
        r is Some ==> forall|k: int| 0 <= k < (r->0).0@.len() ==> #[trigger] canonical_query((r->0).0@[k]),
        r is Some ==> reads_at(bytes@, pos as nat, concat((r->0).0@, |q: QueryProof<Felt>| enc_query(q))),
        ts.len() == count && at(bytes@, pos as nat, concat(ts, |q: QueryProof<Felt>| enc_query(q)))
            ==> r is Some && concat((r->0).0@, |q: QueryProof<Felt>| enc_query(q)) == concat(ts, |q: QueryProof<Felt>| enc_query(q)),
{
    let ghost hyp = ts.len() == count && at(bytes@, pos as nat, concat(ts, |q: QueryProof<Felt>| enc_query(q)));
    let mut out: Vec<QueryProof<Felt>> = Vec::new();
    let mut cur = pos;
    let mut i: usize = 0;
    proof {
        assert(out@ =~= Seq::<QueryProof<Felt>>::empty());
        assert(concat(out@, |q: QueryProof<Felt>| enc_query(q)) =~= Seq::<u8>::empty());
        if hyp {
            assert(ts.take(0) =~= Seq::<QueryProof<Felt>>::empty());
        }
    }
    while i < count
        invariant
            i <= count,
            out@.len() == i,
            cur == pos + concat(out@, |q: QueryProof<Felt>| enc_query(q)).len(),
            cur <= bytes@.len(),
            forall|k: int| 0 <= k < out@.len() ==> #[trigger] canonical_query(out@[k]),
            reads_at(bytes@, pos as nat, concat(out@, |q: QueryProof<Felt>| enc_query(q))),
            pos <= bytes@.len(),
            hyp == (ts.len() == count && at(bytes@, pos as nat, concat(ts, |q: QueryProof<Felt>| enc_query(q)))),
            hyp ==> concat(out@, |q: QueryProof<Felt>| enc_query(q)) == concat(ts.take(i as int), |q: QueryProof<Felt>| enc_query(q)),
        decreases count - i,
    {
        proof {
            if hyp {
                lemma_at_item(bytes@, pos as nat, ts, i as int, |q: QueryProof<Felt>| enc_query(q));
            }
        }
        let ghost before = out@;
        match read_query(bytes, cur, Ghost(if hyp { ts[i as int] } else { arbitrary() })) {
            None => {
                return None;
            },
            Some((x, next)) => {
                out.push(x);
                proof {
                    lemma_concat_push(before, x, |q: QueryProof<Felt>| enc_query(q));
                    assert(out@ == before.push(x));
                    assert forall|k: int| 0 <= k < out@.len() implies #[trigger] canonical_query(out@[k]) by {
                        if k < before.len() {
                            assert(out@[k] == before[k]);
                        }
                    }
                    lemma_reads_join(bytes@, pos as nat, concat(before, |q: QueryProof<Felt>| enc_query(q)), enc_query(x));
                }
                cur = next;
            },
        }
        i = i + 1;
    }
    proof {
        if hyp {
            assert(ts.take(count as int) =~= ts);
        }
    }
    Some((out, cur))
}

fn read_row(bytes: &[u8], pos: usize, Ghost(t): Ghost<RowOpening>) -> (r: Option<(RowOpening, usize)>)
    ensures
        r is Some ==> (r->0).1 == pos + enc_row((r->0).0).len() && (r->0).1 <= bytes@.len(),
        r is Some ==> reads_at(bytes@, pos as nat, enc_row((r->0).0)),
        r is Some ==> canonical_row((r->0).0),
        at(bytes@, pos as nat, enc_row(t)) ==> r is Some && enc_row((r->0).0) == enc_row(t),
{
    proof {
        reveal(canonical_row);
    }
    let ghost fv = |v: Felt| enc_felt(v);
    let ghost hyp = at(bytes@, pos as nat, enc_row(t));
    proof {
        if hyp {
            let _ = t.values.len();
            lemma_at_split(bytes@, pos as nat, enc_word(t.index as u64) + enc_list(t.values@, fv), enc_merkle(t.path));
            lemma_at_split(bytes@, pos as nat, enc_word(t.index as u64), enc_list(t.values@, fv));
            lemma_enc_list_split(bytes@, (pos + 8) as nat, t.values@, fv);
        }
    }
    let (index, p1) = match read_count(bytes, pos) { None => { return None; }, Some(x) => x };
    let (nvalues, p2) = match read_count(bytes, p1) { None => { return None; }, Some(x) => x };
    let (values, p3) = match read_felts(bytes, p2, nvalues, Ghost(t.values@)) { None => { return None; }, Some(x) => x };
    let (path, p4) = match read_merkle(bytes, p3, Ghost(t.path)) { None => { return None; }, Some(x) => x };
    let row = RowOpening { index, values, path };
    proof {
        assert(enc_row(row) == enc_word(index as u64) + (enc_word(nvalues as u64) + concat(row.values@, fv))
            + enc_merkle(row.path));
        lemma_reads_join(bytes@, p1 as nat, enc_word(nvalues as u64), concat(row.values@, fv));
        lemma_reads_join(bytes@, pos as nat, enc_word(index as u64), enc_word(nvalues as u64) + concat(row.values@, fv));
        lemma_reads_join(bytes@, pos as nat, enc_word(index as u64) + (enc_word(nvalues as u64) + concat(row.values@, fv)),
            enc_merkle(row.path));
        if hyp {
            assert(index == t.index);
            assert(nvalues == t.values@.len());
        }
    }
    Some((row, p4))
}

fn read_rows(bytes: &[u8], pos: usize, count: usize, Ghost(ts): Ghost<Seq<RowOpening>>) -> (r: Option<(Vec<RowOpening>, usize)>)
    requires
        pos <= bytes@.len(),
    ensures
        r is Some ==> (r->0).0@.len() == count && (r->0).1 == pos + concat((r->0).0@, |r: RowOpening| enc_row(r)).len()
            && (r->0).1 <= bytes@.len(),
        r is Some ==> forall|k: int| 0 <= k < (r->0).0@.len() ==> #[trigger] canonical_row((r->0).0@[k]),
        r is Some ==> reads_at(bytes@, pos as nat, concat((r->0).0@, |r: RowOpening| enc_row(r))),
        ts.len() == count && at(bytes@, pos as nat, concat(ts, |r: RowOpening| enc_row(r)))
            ==> r is Some && concat((r->0).0@, |r: RowOpening| enc_row(r)) == concat(ts, |r: RowOpening| enc_row(r)),
{
    let ghost hyp = ts.len() == count && at(bytes@, pos as nat, concat(ts, |r: RowOpening| enc_row(r)));
    let mut out: Vec<RowOpening> = Vec::new();
    let mut cur = pos;
    let mut i: usize = 0;
    proof {
        assert(out@ =~= Seq::<RowOpening>::empty());
        assert(concat(out@, |r: RowOpening| enc_row(r)) =~= Seq::<u8>::empty());
        if hyp {
            assert(ts.take(0) =~= Seq::<RowOpening>::empty());
        }
    }
    while i < count
        invariant
            i <= count,
            out@.len() == i,
            cur == pos + concat(out@, |r: RowOpening| enc_row(r)).len(),
            cur <= bytes@.len(),
            forall|k: int| 0 <= k < out@.len() ==> #[trigger] canonical_row(out@[k]),
            reads_at(bytes@, pos as nat, concat(out@, |r: RowOpening| enc_row(r))),
            pos <= bytes@.len(),
            hyp == (ts.len() == count && at(bytes@, pos as nat, concat(ts, |r: RowOpening| enc_row(r)))),
            hyp ==> concat(out@, |r: RowOpening| enc_row(r)) == concat(ts.take(i as int), |r: RowOpening| enc_row(r)),
        decreases count - i,
    {
        proof {
            if hyp {
                lemma_at_item(bytes@, pos as nat, ts, i as int, |r: RowOpening| enc_row(r));
            }
        }
        let ghost before = out@;
        match read_row(bytes, cur, Ghost(if hyp { ts[i as int] } else { arbitrary() })) {
            None => {
                return None;
            },
            Some((x, next)) => {
                out.push(x);
                proof {
                    lemma_concat_push(before, x, |r: RowOpening| enc_row(r));
                    assert(out@ == before.push(x));
                    assert forall|k: int| 0 <= k < out@.len() implies #[trigger] canonical_row(out@[k]) by {
                        if k < before.len() {
                            assert(out@[k] == before[k]);
                        }
                    }
                    lemma_reads_join(bytes@, pos as nat, concat(before, |r: RowOpening| enc_row(r)), enc_row(x));
                }
                cur = next;
            },
        }
        i = i + 1;
    }
    proof {
        if hyp {
            assert(ts.take(count as int) =~= ts);
        }
    }
    Some((out, cur))
}

fn read_opening(bytes: &[u8], pos: usize, Ghost(t): Ghost<QueryOpening>) -> (r: Option<(QueryOpening, usize)>)
    ensures
        r is Some ==> (r->0).1 == pos + enc_opening((r->0).0).len() && (r->0).1 <= bytes@.len(),
        r is Some ==> reads_at(bytes@, pos as nat, enc_opening((r->0).0)),
        r is Some ==> canonical_opening((r->0).0),
        at(bytes@, pos as nat, enc_opening(t)) ==> r is Some && enc_opening((r->0).0) == enc_opening(t),
{
    proof {
        reveal(canonical_opening);
    }
    let ghost f = |r: RowOpening| enc_row(r);
    let ghost hyp = at(bytes@, pos as nat, enc_opening(t));
    proof {
        if hyp {
            let _ = t.rows.len();
            lemma_enc_list_split(bytes@, pos as nat, t.rows@, f);
        }
    }
    let (len, p1) = match read_count(bytes, pos) { None => { return None; }, Some(x) => x };
    let (rows, p2) = match read_rows(bytes, p1, len, Ghost(t.rows@)) { None => { return None; }, Some(x) => x };
    let o = QueryOpening { rows };
    proof {
        lemma_reads_join(bytes@, pos as nat, enc_word(len as u64), concat(o.rows@, f));
        if hyp {
            assert(len == t.rows@.len());
        }
    }
    Some((o, p2))
}

fn read_openings(bytes: &[u8], pos: usize, count: usize, Ghost(ts): Ghost<Seq<QueryOpening>>) -> (r: Option<(Vec<QueryOpening>, usize)>)
    requires
        pos <= bytes@.len(),
    ensures
        r is Some ==> (r->0).0@.len() == count && (r->0).1 == pos + concat((r->0).0@, |o: QueryOpening| enc_opening(o)).len()
            && (r->0).1 <= bytes@.len(),
        r is Some ==> forall|k: int| 0 <= k < (r->0).0@.len() ==> #[trigger] canonical_opening((r->0).0@[k]),
        r is Some ==> reads_at(bytes@, pos as nat, concat((r->0).0@, |o: QueryOpening| enc_opening(o))),
        ts.len() == count && at(bytes@, pos as nat, concat(ts, |o: QueryOpening| enc_opening(o)))
            ==> r is Some && concat((r->0).0@, |o: QueryOpening| enc_opening(o)) == concat(ts, |o: QueryOpening| enc_opening(o)),
{
    let ghost hyp = ts.len() == count && at(bytes@, pos as nat, concat(ts, |o: QueryOpening| enc_opening(o)));
    let mut out: Vec<QueryOpening> = Vec::new();
    let mut cur = pos;
    let mut i: usize = 0;
    proof {
        assert(out@ =~= Seq::<QueryOpening>::empty());
        assert(concat(out@, |o: QueryOpening| enc_opening(o)) =~= Seq::<u8>::empty());
        if hyp {
            assert(ts.take(0) =~= Seq::<QueryOpening>::empty());
        }
    }
    while i < count
        invariant
            i <= count,
            out@.len() == i,
            cur == pos + concat(out@, |o: QueryOpening| enc_opening(o)).len(),
            cur <= bytes@.len(),
            forall|k: int| 0 <= k < out@.len() ==> #[trigger] canonical_opening(out@[k]),
            reads_at(bytes@, pos as nat, concat(out@, |o: QueryOpening| enc_opening(o))),
            pos <= bytes@.len(),
            hyp == (ts.len() == count && at(bytes@, pos as nat, concat(ts, |o: QueryOpening| enc_opening(o)))),
            hyp ==> concat(out@, |o: QueryOpening| enc_opening(o)) == concat(ts.take(i as int), |o: QueryOpening| enc_opening(o)),
        decreases count - i,
    {
        proof {
            if hyp {
                lemma_at_item(bytes@, pos as nat, ts, i as int, |o: QueryOpening| enc_opening(o));
            }
        }
        let ghost before = out@;
        match read_opening(bytes, cur, Ghost(if hyp { ts[i as int] } else { arbitrary() })) {
            None => {
                return None;
            },
            Some((x, next)) => {
                out.push(x);
                proof {
                    lemma_concat_push(before, x, |o: QueryOpening| enc_opening(o));
                    assert(out@ == before.push(x));
                    assert forall|k: int| 0 <= k < out@.len() implies #[trigger] canonical_opening(out@[k]) by {
                        if k < before.len() {
                            assert(out@[k] == before[k]);
                        }
                    }
                    lemma_reads_join(bytes@, pos as nat, concat(before, |o: QueryOpening| enc_opening(o)), enc_opening(x));
                }
                cur = next;
            },
        }
        i = i + 1;
    }
    proof {
        if hyp {
            assert(ts.take(count as int) =~= ts);
        }
    }
    Some((out, cur))
}

fn put_digest(out: &mut Vec<u8>, d: &Digest)
    ensures
        final(out)@ == old(out)@ + enc_digest(*d),
{
    push_bytes(out, d);
}

fn put_felt(out: &mut Vec<u8>, v: Felt)
    ensures
        final(out)@ == old(out)@ + enc_felt(v),
        v.val() < p(),
{
    let w = v.to_u64();
    proof {
        vstd::arithmetic::div_mod::lemma_small_mod(v.val(), p());
    }
    push_u64_le(out, w);
}

fn put_digests(out: &mut Vec<u8>, items: &Vec<Digest>)
    ensures
        final(out)@ == old(out)@ + enc_list(items@, |d: Digest| enc_digest(d)),
{
    push_u64_le(out, items.len() as u64);
    let ghost start = out@;
    let mut i: usize = 0;
    proof {
        assert(items@.take(0) =~= Seq::<Digest>::empty());
        assert(out@ =~= start + concat(items@.take(0), |d: Digest| enc_digest(d)));
    }
    while i < items.len()
        invariant
            i <= items@.len(),
            out@ == start + concat(items@.take(i as int), |d: Digest| enc_digest(d)),
        decreases items@.len() - i,
    {
        proof {
            assert(items@.take(i + 1).drop_last() =~= items@.take(i as int));
        }
        put_digest(out, &items[i]);
        proof {
            assert(out@ =~= start + concat(items@.take(i + 1), |d: Digest| enc_digest(d)));
        }
        i = i + 1;
    }
    proof {
        assert(items@.take(items@.len() as int) =~= items@);
    }
}

fn put_felt_ref(out: &mut Vec<u8>, v: &Felt)
    ensures
        final(out)@ == old(out)@ + enc_felt(*v),
        v.val() < p(),
{
    put_felt(out, *v);
}

fn put_felts(out: &mut Vec<u8>, items: &Vec<Felt>)
    ensures
        final(out)@ == old(out)@ + enc_list(items@, |v: Felt| enc_felt(v)),
        forall|k: int| 0 <= k < items@.len() ==> #[trigger] items@[k].val() < p(),
{
    push_u64_le(out, items.len() as u64);
    let ghost start = out@;
    let mut i: usize = 0;
    proof {
        assert(items@.take(0) =~= Seq::<Felt>::empty());
        assert(out@ =~= start + concat(items@.take(0), |v: Felt| enc_felt(v)));
    }
    while i < items.len()
        invariant
            i <= items@.len(),
            forall|k: int| 0 <= k < i ==> #[trigger] items@[k].val() < p(),
            out@ == start + concat(items@.take(i as int), |v: Felt| enc_felt(v)),
        decreases items@.len() - i,
    {
        proof {
            assert(items@.take(i + 1).drop_last() =~= items@.take(i as int));
        }
        put_felt_ref(out, &items[i]);
        proof {
            assert(out@ =~= start + concat(items@.take(i + 1), |v: Felt| enc_felt(v)));
        }
        i = i + 1;
    }
    proof {
        assert(items@.take(items@.len() as int) =~= items@);
    }
}

fn put_merkle(out: &mut Vec<u8>, m: &MerkleProof)
    ensures
        final(out)@ == old(out)@ + enc_merkle(*m),
{
    push_u64_le(out, m.leaf_index as u64);
    put_digests(out, &m.siblings);
    assert(out@ =~= old(out)@ + enc_merkle(*m));
}

fn put_layer(out: &mut Vec<u8>, l: &QueryLayer<Felt>)
    ensures
        final(out)@ == old(out)@ + enc_layer(*l),
        canonical_layer(*l),
{
    put_felt(out, l.eval);
    put_felt(out, l.sibling);
    put_merkle(out, &l.eval_path);
    put_merkle(out, &l.sibling_path);
    assert(out@ =~= old(out)@ + enc_layer(*l));
}

fn put_layers(out: &mut Vec<u8>, items: &Vec<QueryLayer<Felt>>)
    ensures
        final(out)@ == old(out)@ + enc_list(items@, |l: QueryLayer<Felt>| enc_layer(l)),
        forall|k: int| 0 <= k < items@.len() ==> #[trigger] canonical_layer(items@[k]),
{
    push_u64_le(out, items.len() as u64);
    let ghost start = out@;
    let mut i: usize = 0;
    proof {
        assert(items@.take(0) =~= Seq::<QueryLayer<Felt>>::empty());
        assert(out@ =~= start + concat(items@.take(0), |l: QueryLayer<Felt>| enc_layer(l)));
    }
    while i < items.len()
        invariant
            i <= items@.len(),
            forall|k: int| 0 <= k < i ==> #[trigger] canonical_layer(items@[k]),
            out@ == start + concat(items@.take(i as int), |l: QueryLayer<Felt>| enc_layer(l)),
        decreases items@.len() - i,
    {
        proof {
            assert(items@.take(i + 1).drop_last() =~= items@.take(i as int));
        }
        put_layer(out, &items[i]);
        proof {
            assert(out@ =~= start + concat(items@.take(i + 1), |l: QueryLayer<Felt>| enc_layer(l)));
        }
        i = i + 1;
    }
    proof {
        assert(items@.take(items@.len() as int) =~= items@);
    }
}

fn put_query(out: &mut Vec<u8>, q: &QueryProof<Felt>)
    ensures
        final(out)@ == old(out)@ + enc_query(*q),
        canonical_query(*q),
{
    proof {
        reveal(canonical_query);
    }
    push_u64_le(out, q.position as u64);
    put_layers(out, &q.layers);
    assert(out@ =~= old(out)@ + enc_query(*q));
}

fn put_queries(out: &mut Vec<u8>, items: &Vec<QueryProof<Felt>>)
    ensures
        final(out)@ == old(out)@ + enc_list(items@, |q: QueryProof<Felt>| enc_query(q)),
        forall|k: int| 0 <= k < items@.len() ==> #[trigger] canonical_query(items@[k]),
{
    push_u64_le(out, items.len() as u64);
    let ghost start = out@;
    let mut i: usize = 0;
    proof {
        assert(items@.take(0) =~= Seq::<QueryProof<Felt>>::empty());
        assert(out@ =~= start + concat(items@.take(0), |q: QueryProof<Felt>| enc_query(q)));
    }
    while i < items.len()
        invariant
            i <= items@.len(),
            forall|k: int| 0 <= k < i ==> #[trigger] canonical_query(items@[k]),
            out@ == start + concat(items@.take(i as int), |q: QueryProof<Felt>| enc_query(q)),
        decreases items@.len() - i,
    {
        proof {
            assert(items@.take(i + 1).drop_last() =~= items@.take(i as int));
        }
        put_query(out, &items[i]);
        proof {
            assert(out@ =~= start + concat(items@.take(i + 1), |q: QueryProof<Felt>| enc_query(q)));
        }
        i = i + 1;
    }
    proof {
        assert(items@.take(items@.len() as int) =~= items@);
    }
}

fn put_row(out: &mut Vec<u8>, r: &RowOpening)
    ensures
        final(out)@ == old(out)@ + enc_row(*r),
        canonical_row(*r),
{
    proof {
        reveal(canonical_row);
    }
    push_u64_le(out, r.index as u64);
    put_felts(out, &r.values);
    put_merkle(out, &r.path);
    assert(out@ =~= old(out)@ + enc_row(*r));
}

fn put_rows(out: &mut Vec<u8>, items: &Vec<RowOpening>)
    ensures
        final(out)@ == old(out)@ + enc_list(items@, |r: RowOpening| enc_row(r)),
        forall|k: int| 0 <= k < items@.len() ==> #[trigger] canonical_row(items@[k]),
{
    push_u64_le(out, items.len() as u64);
    let ghost start = out@;
    let mut i: usize = 0;
    proof {
        assert(items@.take(0) =~= Seq::<RowOpening>::empty());
        assert(out@ =~= start + concat(items@.take(0), |r: RowOpening| enc_row(r)));
    }
    while i < items.len()
        invariant
            i <= items@.len(),
            forall|k: int| 0 <= k < i ==> #[trigger] canonical_row(items@[k]),
            out@ == start + concat(items@.take(i as int), |r: RowOpening| enc_row(r)),
        decreases items@.len() - i,
    {
        proof {
            assert(items@.take(i + 1).drop_last() =~= items@.take(i as int));
        }
        put_row(out, &items[i]);
        proof {
            assert(out@ =~= start + concat(items@.take(i + 1), |r: RowOpening| enc_row(r)));
        }
        i = i + 1;
    }
    proof {
        assert(items@.take(items@.len() as int) =~= items@);
    }
}

fn put_opening(out: &mut Vec<u8>, o: &QueryOpening)
    ensures
        final(out)@ == old(out)@ + enc_opening(*o),
        canonical_opening(*o),
{
    proof {
        reveal(canonical_opening);
    }
    put_rows(out, &o.rows);
}

fn put_openings(out: &mut Vec<u8>, items: &Vec<QueryOpening>)
    ensures
        final(out)@ == old(out)@ + enc_list(items@, |o: QueryOpening| enc_opening(o)),
        forall|k: int| 0 <= k < items@.len() ==> #[trigger] canonical_opening(items@[k]),
{
    push_u64_le(out, items.len() as u64);
    let ghost start = out@;
    let mut i: usize = 0;
    proof {
        assert(items@.take(0) =~= Seq::<QueryOpening>::empty());
        assert(out@ =~= start + concat(items@.take(0), |o: QueryOpening| enc_opening(o)));
    }
    while i < items.len()
        invariant
            i <= items@.len(),
            forall|k: int| 0 <= k < i ==> #[trigger] canonical_opening(items@[k]),
            out@ == start + concat(items@.take(i as int), |o: QueryOpening| enc_opening(o)),
        decreases items@.len() - i,
    {
        proof {
            assert(items@.take(i + 1).drop_last() =~= items@.take(i as int));
        }
        put_opening(out, &items[i]);
        proof {
            assert(out@ =~= start + concat(items@.take(i + 1), |o: QueryOpening| enc_opening(o)));
        }
        i = i + 1;
    }
    proof {
        assert(items@.take(items@.len() as int) =~= items@);
    }
}

/// Encodes a proof as bytes.
pub fn encode_proof(proof: &StarkProof) -> (bytes: Vec<u8>)
    ensures
        bytes@ == spec_encode(*proof),
        canonical_proof(*proof),
{
    let mut out: Vec<u8> = Vec::new();
    push_bytes(&mut out, &proof.trace_root);
    put_digests(&mut out, &proof.fri.layer_roots);
    put_felts(&mut out, &proof.fri.final_layer);
    put_queries(&mut out, &proof.fri.queries);
    put_openings(&mut out, &proof.openings);
    assert(out@ =~= spec_encode(*proof));
    out
}

/// Where each part of a proof's encoding lies in the bytes that hold it.
proof fn lemma_proof_layout(bytes: Seq<u8>, t: StarkProof)
    requires
        spec_encode(t) == bytes,
    ensures
        ({
            let a = enc_digest(t.trace_root);
            let b = enc_list(t.fri.layer_roots@, |d: Digest| enc_digest(d));
            let c = enc_list(t.fri.final_layer@, |v: Felt| enc_felt(v));
            let d = enc_list(t.fri.queries@, |q: QueryProof<Felt>| enc_query(q));
            let e = enc_list(t.openings@, |o: QueryOpening| enc_opening(o));
            &&& at(bytes, 0, a)
            &&& at(bytes, a.len(), b)
            &&& at(bytes, a.len() + b.len(), c)
            &&& at(bytes, a.len() + b.len() + c.len(), d)
            &&& at(bytes, a.len() + b.len() + c.len() + d.len(), e)
        }),
{
    let a = enc_digest(t.trace_root);
    let b = enc_list(t.fri.layer_roots@, |d: Digest| enc_digest(d));
    let c = enc_list(t.fri.final_layer@, |v: Felt| enc_felt(v));
    let d = enc_list(t.fri.queries@, |q: QueryProof<Felt>| enc_query(q));
    let e = enc_list(t.openings@, |o: QueryOpening| enc_opening(o));
    assert(at(bytes, 0, spec_encode(t))) by {
        assert(bytes.subrange(0, bytes.len() as int) =~= bytes);
    }
    lemma_at_split(bytes, 0, a + b + c + d, e);
    lemma_at_split(bytes, 0, a + b + c, d);
    lemma_at_split(bytes, 0, a + b, c);
    lemma_at_split(bytes, 0, a, b);
}

fn read_digest_list(bytes: &[u8], pos: usize, Ghost(tv): Ghost<Vec<Digest>>) -> (r: Option<(Vec<Digest>, usize)>)
    ensures
        r is Some ==> (r->0).1 == pos + enc_list((r->0).0@, |d: Digest| enc_digest(d)).len() && (r->0).1 <= bytes@.len(),
        r is Some ==> reads_at(bytes@, pos as nat, enc_list((r->0).0@, |d: Digest| enc_digest(d))),
        at(bytes@, pos as nat, enc_list(tv@, |d: Digest| enc_digest(d)))
            ==> r is Some && enc_list((r->0).0@, |d: Digest| enc_digest(d)) == enc_list(tv@, |d: Digest| enc_digest(d)),
{
    let ghost f = |d: Digest| enc_digest(d);
    let ghost hyp = at(bytes@, pos as nat, enc_list(tv@, f));
    proof {
        if hyp {
            lemma_enc_list_split(bytes@, pos as nat, tv@, f);
            assert(at(bytes@, pos as nat, enc_word(tv.len() as u64)));
        }
    }
    let (len, p1) = match read_count(bytes, pos) {
        None => { return None; },
        Some(x) => x,
    };
    proof {
        if hyp {
            assert(len == tv.len());
        }
    }
    if p1 > bytes.len() {
        return None;
    }
    let (items, p2) = match read_digests(bytes, p1, len, Ghost(tv@)) {
        None => { return None; },
        Some(x) => x,
    };
    proof {
        assert(enc_list(items@, f) == enc_word(len as u64) + concat(items@, f));
        lemma_reads_join(bytes@, pos as nat, enc_word(len as u64), concat(items@, f));
    }
    Some((items, p2))
}

fn read_felt_list(bytes: &[u8], pos: usize, Ghost(tv): Ghost<Vec<Felt>>) -> (r: Option<(Vec<Felt>, usize)>)
    ensures
        r is Some ==> (r->0).1 == pos + enc_list((r->0).0@, |v: Felt| enc_felt(v)).len() && (r->0).1 <= bytes@.len(),
        r is Some ==> reads_at(bytes@, pos as nat, enc_list((r->0).0@, |v: Felt| enc_felt(v))),
        r is Some ==> forall|k: int| 0 <= k < (r->0).0@.len() ==> #[trigger] (r->0).0@[k].val() < p(),
        at(bytes@, pos as nat, enc_list(tv@, |v: Felt| enc_felt(v)))
            ==> r is Some && enc_list((r->0).0@, |v: Felt| enc_felt(v)) == enc_list(tv@, |v: Felt| enc_felt(v)),
{
    let ghost f = |v: Felt| enc_felt(v);
    let ghost hyp = at(bytes@, pos as nat, enc_list(tv@, f));
    proof {
        if hyp {
            lemma_enc_list_split(bytes@, pos as nat, tv@, f);
            assert(at(bytes@, pos as nat, enc_word(tv.len() as u64)));
        }
    }
    let (len, p1) = match read_count(bytes, pos) {
        None => { return None; },
        Some(x) => x,
    };
    proof {
        if hyp {
            assert(len == tv.len());
        }
    }
    if p1 > bytes.len() {
        return None;
    }
    let (items, p2) = match read_felts(bytes, p1, len, Ghost(tv@)) {
        None => { return None; },
        Some(x) => x,
    };
    proof {
        assert(enc_list(items@, f) == enc_word(len as u64) + concat(items@, f));
        lemma_reads_join(bytes@, pos as nat, enc_word(len as u64), concat(items@, f));
    }
    Some((items, p2))
}

fn read_query_list(bytes: &[u8], pos: usize, Ghost(tv): Ghost<Vec<QueryProof<Felt>>>) -> (r: Option<(Vec<QueryProof<Felt>>, usize)>)
    ensures
        r is Some ==> (r->0).1 == pos + enc_list((r->0).0@, |q: QueryProof<Felt>| enc_query(q)).len() && (r->0).1 <= bytes@.len(),
        r is Some ==> reads_at(bytes@, pos as nat, enc_list((r->0).0@, |q: QueryProof<Felt>| enc_query(q))),
        r is Some ==> forall|k: int| 0 <= k < (r->0).0@.len() ==> #[trigger] canonical_query((r->0).0@[k]),
        at(bytes@, pos as nat, enc_list(tv@, |q: QueryProof<Felt>| enc_query(q)))
            ==> r is Some && enc_list((r->0).0@, |q: QueryProof<Felt>| enc_query(q)) == enc_list(tv@, |q: QueryProof<Felt>| enc_query(q)),
{
    let ghost f = |q: QueryProof<Felt>| enc_query(q);
    let ghost hyp = at(bytes@, pos as nat, enc_list(tv@, f));
    proof {
        if hyp {
            lemma_enc_list_split(bytes@, pos as nat, tv@, f);
            assert(at(bytes@, pos as nat, enc_word(tv.len() as u64)));
        }
    }
    let (len, p1) = match read_count(bytes, pos) {
        None => { return None; },
        Some(x) => x,
    };
    proof {
        if hyp {
            assert(len == tv.len());
        }
    }
    if p1 > bytes.len() {
        return None;
    }
    let (items, p2) = match read_queries(bytes, p1, len, Ghost(tv@)) {
        None => { return None; },
        Some(x) => x,
    };
    proof {
        assert(enc_list(items@, f) == enc_word(len as u64) + concat(items@, f));
        lemma_reads_join(bytes@, pos as nat, enc_word(len as u64), concat(items@, f));
    }
    Some((items, p2))
}

fn read_opening_list(bytes: &[u8], pos: usize, Ghost(tv): Ghost<Vec<QueryOpening>>) -> (r: Option<(Vec<QueryOpening>, usize)>)
    ensures
        r is Some ==> (r->0).1 == pos + enc_list((r->0).0@, |o: QueryOpening| enc_opening(o)).len() && (r->0).1 <= bytes@.len(),
        r is Some ==> reads_at(bytes@, pos as nat, enc_list((r->0).0@, |o: QueryOpening| enc_opening(o))),
        r is Some ==> forall|k: int| 0 <= k < (r->0).0@.len() ==> #[trigger] canonical_opening((r->0).0@[k]),
        at(bytes@, pos as nat, enc_list(tv@, |o: QueryOpening| enc_opening(o)))
            ==> r is Some && enc_list((r->0).0@, |o: QueryOpening| enc_opening(o)) == enc_list(tv@, |o: QueryOpening| enc_opening(o)),
{
    let ghost f = |o: QueryOpening| enc_opening(o);
    let ghost hyp = at(bytes@, pos as nat, enc_list(tv@, f));
    proof {
        if hyp {
            lemma_enc_list_split(bytes@, pos as nat, tv@, f);
            assert(at(bytes@, pos as nat, enc_word(tv.len() as u64)));
        }
    }
    let (len, p1) = match read_count(bytes, pos) {
        None => { return None; },
        Some(x) => x,
    };
    proof {
        if hyp {
            assert(len == tv.len());
        }
    }
    if p1 > bytes.len() {
        return None;
    }
    let (items, p2) = match read_openings(bytes, p1, len, Ghost(tv@)) {
        None => { return None; },
        Some(x) => x,
    };
    proof {
        assert(enc_list(items@, f) == enc_word(len as u64) + concat(items@, f));
        lemma_reads_join(bytes@, pos as nat, enc_word(len as u64), concat(items@, f));
    }
    Some((items, p2))
}

/// Decodes a proof. The bytes must hold exactly one encoding: a short read or
/// bytes left over give nothing. Any encoding of a proof decodes to a proof
/// with that same encoding, and a decoded proof's encoding has the length of
/// the input and agrees with it word for word, but that a field element may
/// be read from any word that reduces to it.
pub fn decode_proof(bytes: &[u8]) -> (r: Option<StarkProof>)
    ensures
        r is Some ==> spec_encode(r->0).len() == bytes@.len(),
        r is Some ==> reads_as(bytes@, spec_encode(r->0)),
        r is Some ==> canonical_proof(r->0),
        forall|t: StarkProof| #[trigger] spec_encode(t) == bytes@ && canonical_proof(t) ==> r is Some && same_proof(t, r->0),
        forall|t: StarkProof| #[trigger] spec_encode(t) == bytes@ ==> r is Some && spec_encode(r->0) == bytes@,
{
    let ghost t = choose|t: StarkProof| spec_encode(t) == bytes@;
    let ghost hyp = spec_encode(t) == bytes@;
    proof {
        if hyp {
            lemma_proof_layout(bytes@, t);
        }
    }
    let (trace_root, p1) = match read_digest_at(bytes, 0, Ghost(t.trace_root)) { None => { return None; }, Some(x) => x };
    let (layer_roots, p2) = match read_digest_list(bytes, p1, Ghost(t.fri.layer_roots)) { None => { return None; }, Some(x) => x };
    let (final_layer, p3) = match read_felt_list(bytes, p2, Ghost(t.fri.final_layer)) { None => { return None; }, Some(x) => x };
    let (queries, p4) = match read_query_list(bytes, p3, Ghost(t.fri.queries)) { None => { return None; }, Some(x) => x };
    let (openings, p5) = match read_opening_list(bytes, p4, Ghost(t.openings)) { None => { return None; }, Some(x) => x };
    if p5 != bytes.len() {
        return None;
    }
    let proof = StarkProof { trace_root, fri: FriProof { layer_roots, final_layer, queries }, openings };
    proof {
        let a = enc_digest(trace_root);
        let b1 = enc_list(layer_roots@, |d: Digest| enc_digest(d));
        let b2 = enc_list(final_layer@, |v: Felt| enc_felt(v));
        let b3 = enc_list(queries@, |q: QueryProof<Felt>| enc_query(q));
        let b4 = enc_list(openings@, |o: QueryOpening| enc_opening(o));
        lemma_reads_join(bytes@, 0, a, b1);
        lemma_reads_join(bytes@, 0, a + b1, b2);
        lemma_reads_join(bytes@, 0, a + b1 + b2, b3);
        lemma_reads_join(bytes@, 0, a + b1 + b2 + b3, b4);
        assert(spec_encode(proof) == a + b1 + b2 + b3 + b4);
        if hyp {
            assert(spec_encode(proof) =~= spec_encode(t));
        }
        assert forall|u: StarkProof| #[trigger] spec_encode(u) == bytes@ implies spec_encode(proof) == bytes@ by {
            assert(hyp);
        }
    }
    proof {
        assert forall|t: StarkProof| #[trigger] spec_encode(t) == bytes@ && canonical_proof(t) implies same_proof(t, proof) by {
            law_encoding_injective(t, proof);
        }
    }
    Some(proof)
}

} // verus!
