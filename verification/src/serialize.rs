//! The framing of queries and responses on the wire. A query is the
//! concatenation of serialized ciphertexts of one size; a response is such a
//! concatenation together with the number of ciphertexts of each segment.

use crate::client::HashTableQuery;
use crate::params::PsiParams;
use vstd::prelude::*;

verus! {

/// The serialized ciphertexts of the query for one hash table: for each
/// segment in turn, one ciphertext for each source power.
#[derive(Debug)]
pub struct HashTableQueryCts(pub Vec<Vec<u8>>);

/// The serialized ciphertexts of a query, hash table by hash table.
#[derive(Debug)]
pub struct Query(pub Vec<HashTableQueryCts>);

/// The serialized ciphertexts of the response of one hash table: for each
/// segment, one ciphertext for each inner box of the segment.
#[derive(Debug)]
pub struct HashTableQueryResponse(pub Vec<Vec<Vec<u8>>>);

/// The serialized ciphertexts of a response, hash table by hash table.
#[derive(Debug)]
pub struct QueryResponse(pub Vec<HashTableQueryResponse>);

/// A response on the wire.
#[derive(Debug)]
pub struct SerializedQueryResponse {
    /// The ciphertexts, one after the other.
    pub bytes: Vec<u8>,
    /// Number of inner boxes of each segment; the segments of a hash table
    /// follow one another, and so do the hash tables.
    pub inner_boxes_per_segment: Vec<usize>,
}

/// Why a message was refused.
#[derive(Clone, Copy, Debug, PartialEq, Eq, Structural)]
pub enum WireError {
    /// The message ends before its time.
    Short,
    /// The message is too long, or its parts contradict one another.
    Malformed,
}

/// The concatenation of the blobs.
pub open spec fn concat(blobs: Seq<Seq<u8>>) -> Seq<u8>
    decreases blobs.len(),
{
    if blobs.len() == 0 {
        Seq::empty()
    } else {
        concat(blobs.drop_last()) + blobs.last()
    }
}

/// The blobs of a list, as sequences.
pub open spec fn blobs_of(v: Seq<Vec<u8>>) -> Seq<Seq<u8>> {
    Seq::new(v.len(), |i: int| v[i]@)
}

/// The ciphertexts of a query, in the order of the wire.
pub open spec fn query_blobs(tables: Seq<HashTableQueryCts>) -> Seq<Seq<u8>>
    decreases tables.len(),
{
    if tables.len() == 0 {
        Seq::empty()
    } else {
        query_blobs(tables.drop_last()) + blobs_of(tables.last().0@)
    }
}

/// The ciphertexts of the segments of a hash table, in the order of the wire.
pub open spec fn segment_blobs(segments: Seq<Vec<Vec<u8>>>) -> Seq<Seq<u8>>
    decreases segments.len(),
{
    if segments.len() == 0 {
        Seq::empty()
    } else {
        segment_blobs(segments.drop_last()) + blobs_of(segments.last()@)
    }
}

/// The ciphertexts of a response, in the order of the wire.
pub open spec fn response_blobs(tables: Seq<HashTableQueryResponse>) -> Seq<Seq<u8>>
    decreases tables.len(),
{
    if tables.len() == 0 {
        Seq::empty()
    } else {
        response_blobs(tables.drop_last()) + segment_blobs(tables.last().0@)
    }
}

/// The numbers of ciphertexts of the segments of a hash table.
pub open spec fn segment_counts(segments: Seq<Vec<Vec<u8>>>) -> Seq<usize> {
    Seq::new(segments.len(), |g: int| segments[g]@.len() as usize)
}

/// The numbers of ciphertexts of the segments of a response, in the order of
/// the wire.
pub open spec fn response_counts(tables: Seq<HashTableQueryResponse>) -> Seq<usize>
    decreases tables.len(),
{
    if tables.len() == 0 {
        Seq::empty()
    } else {
        response_counts(tables.drop_last()) + segment_counts(tables.last().0@)
    }
}

/// The sum of the first `n` numbers.
pub open spec fn sum_upto(counts: Seq<usize>, n: int) -> int
    decreases n,
{
    if n <= 0 {
        0
    } else {
        sum_upto(counts, n - 1) + counts[n - 1]
    }
}

/// Every hash table of the query has `per_table` ciphertexts of `size` bytes.
pub open spec fn query_shaped(tables: Seq<HashTableQueryCts>, per_table: int, size: int) -> bool {
    forall|b: int|
        0 <= b < tables.len() ==> (#[trigger] tables[b]).0@.len() == per_table && forall|k: int|
            0 <= k < per_table ==> (#[trigger] tables[b].0@[k])@.len() == size
}

pub proof fn lemma_concat_push(blobs: Seq<Seq<u8>>, blob: Seq<u8>)
    ensures
        concat(blobs.push(blob)) == concat(blobs) + blob,
{
    assert(blobs.push(blob).drop_last() =~= blobs);
}

/// The blobs into which `bytes` divide when each takes `size` bytes, the
/// first `count` of them.
pub open spec fn pieces(bytes: Seq<u8>, size: int, count: int) -> Seq<Seq<u8>> {
    Seq::new(count as nat, |i: int| bytes.subrange(i * size, (i + 1) * size))
}

/// Pieces cut from a message and put together again are the message.
pub proof fn lemma_concat_pieces(bytes: Seq<u8>, size: int, count: int)
    requires
        size >= 0,
        count >= 0,
        count * size <= bytes.len(),
    ensures
        concat(pieces(bytes, size, count)) == bytes.subrange(0, count * size),
    decreases count,
{
    if count == 0 {
        assert(pieces(bytes, size, 0).len() == 0);
        assert(bytes.subrange(0, 0) =~= Seq::<u8>::empty());
        assert(0 * size == 0);
    } else {
        assert((count - 1) * size + size == count * size) by (nonlinear_arith);
        assert((count - 1) * size >= 0) by (nonlinear_arith)
            requires
                count >= 1,
                size >= 0,
        ;
        lemma_concat_pieces(bytes, size, count - 1);
        assert(pieces(bytes, size, count).drop_last() =~= pieces(bytes, size, count - 1));
        assert(bytes.subrange(0, (count - 1) * size) + bytes.subrange(
            (count - 1) * size,
            count * size,
        ) =~= bytes.subrange(0, count * size));
    }
}

/// The bytes of a query on the wire.
pub fn serialize_query(query: &Query) -> (bytes: Vec<u8>)
    ensures
        bytes@ == concat(query_blobs(query.0@)),
{
    let mut bytes: Vec<u8> = Vec::new();
    let tables: usize = query.0.len();
    let mut b: usize = 0;
    assert(query.0@.take(0) =~= Seq::<HashTableQueryCts>::empty());
    while b < tables
        invariant
            tables == query.0@.len(),
            b <= tables,
            bytes@ == concat(query_blobs(query.0@.take(b as int))),
        decreases tables - b,
    {
        let cts: &Vec<Vec<u8>> = &query.0[b].0;
        let ghost done = query_blobs(query.0@.take(b as int));
        let mut k: usize = 0;
        assert(done + blobs_of(cts@.take(0)) =~= done);
        while k < cts.len()
            invariant
                k <= cts@.len(),
                bytes@ == concat(done + blobs_of(cts@.take(k as int))),
            decreases cts@.len() - k,
        {
            bytes.extend_from_slice(cts[k].as_slice());
            proof {
                lemma_concat_push(done + blobs_of(cts@.take(k as int)), cts@[k as int]@);
                assert((done + blobs_of(cts@.take(k as int))).push(cts@[k as int]@) =~= done
                    + blobs_of(cts@.take(k + 1)));
            }
            k = k + 1;
        }
        proof {
            assert(cts@.take(cts@.len() as int) =~= cts@);
            assert(query.0@.take(b + 1).drop_last() =~= query.0@.take(b as int));
            assert(query.0@.take(b + 1).last() == query.0@[b as int]);
        }
        b = b + 1;
    }
    assert(query.0@.take(tables as int) =~= query.0@);
    bytes
}

/// The number of bytes of a query on the wire: the size of a ciphertext, by
/// the number of source powers, by the number of segments, by the number of
/// hash tables. `None` where this is beyond the machine's numbers.
pub fn expected_query_bytes(size_single_ct: usize, psi_params: &PsiParams) -> (expected: Option<
    usize,
>)
    requires
        psi_params.wf(),
    ensures
        match expected {
            Some(n) => n == query_bytes_len(size_single_ct as int, *psi_params),
            None => query_bytes_len(size_single_ct as int, *psi_params) > usize::MAX,
        },
{
    proof {
        crate::params::lemma_layout_segments(psi_params.layout_spec());
        crate::client::lemma_query_layout(*psi_params);
    }
    let segments: usize = HashTableQuery::segments_count(
        &psi_params.ht_size,
        &psi_params.ct_slots,
        &psi_params.psi_pt,
    ) as usize;
    let powers: usize = psi_params.source_powers.len();
    let tables: usize = psi_params.no_of_hash_tables as usize;
    let ghost s: int = size_single_ct as int;
    let ghost p: int = powers as int;
    let ghost g: int = segments as int;
    let ghost t: int = tables as int;
    let first: usize = match size_single_ct.checked_mul(powers) {
        Some(v) => v,
        None => {
            assert(s * p * g * t >= s * p) by (nonlinear_arith)
                requires
                    s * p > 0,
                    g >= 1,
                    t >= 1,
            ;
            return None;
        },
    };
    let second: usize = match first.checked_mul(segments) {
        Some(v) => v,
        None => {
            assert(s * p * g * t >= s * p * g) by (nonlinear_arith)
                requires
                    s * p * g > 0,
                    t >= 1,
            ;
            return None;
        },
    };
    second.checked_mul(tables)
}

/// Cuts `count` blobs of `size` bytes each from `bytes`, from `start` on.
fn cut_pieces(bytes: &[u8], start: usize, size: usize, count: usize) -> (out: Vec<Vec<u8>>)
    requires
        start + count * size <= bytes@.len(),
    ensures
        out@.len() == count,
        forall|k: int|
            0 <= k < count ==> (#[trigger] out@[k])@ == bytes@.subrange(
                start + k * size,
                start + (k + 1) * size,
            ),
{
    let mut out: Vec<Vec<u8>> = Vec::new();
    let total: usize = bytes.len();
    let mut k: usize = 0;
    while k < count
        invariant
            start + count * size <= bytes@.len(),
            bytes@.len() == total,
            k <= count,
            out@.len() == k,
            forall|m: int|
                0 <= m < k ==> (#[trigger] out@[m])@ == bytes@.subrange(
                    start + m * size,
                    start + (m + 1) * size,
                ),
        decreases count - k,
    {
        assert((k + 1) * size <= count * size && (k + 1) * size == k * size + size && k * size
            >= 0) by (nonlinear_arith)
            requires
                0 <= k < count,
                size >= 0,
        ;
        let from: usize = start + k * size;
        let piece: &[u8] = vstd::slice::slice_subrange(bytes, from, from + size);
        out.push(vstd::slice::slice_to_vec(piece));
        k = k + 1;
    }
    out
}

/// The query that a message holds. The message must have the length that
/// the parameters give for ciphertexts of `size_single_ct` bytes: a shorter
/// message is refused as `Short`, a longer one as `Malformed`.
///
/// The query has one list of ciphertexts for each hash table; the bytes of
/// the message go to the ciphertexts in their order.
pub fn deserialize_query(bytes: &[u8], size_single_ct: usize, psi_params: &PsiParams) -> (res:
    Result<Query, WireError>)
    requires
        psi_params.wf(),
    ensures
        res is Ok <==> bytes@.len() == query_bytes_len(size_single_ct as int, *psi_params),
        res == Err::<Query, WireError>(WireError::Short) <==> bytes@.len() < query_bytes_len(
            size_single_ct as int,
            *psi_params,
        ),
        res == Err::<Query, WireError>(WireError::Malformed) <==> bytes@.len() > query_bytes_len(
            size_single_ct as int,
            *psi_params,
        ),
        res is Ok ==> query_cut_from(
            bytes@,
            (res->Ok_0).0@,
            psi_params.no_of_hash_tables as int,
            query_per_table(*psi_params),
            size_single_ct as int,
        ),
{
    proof {
        crate::params::lemma_layout_segments(psi_params.layout_spec());
        crate::client::lemma_query_layout(*psi_params);
    }
    let length: usize = bytes.len();
    let expected_bytes: usize = match expected_query_bytes(size_single_ct, psi_params) {
        Some(n) => n,
        None => {
            return Err(WireError::Short);
        },
    };
    if bytes.len() < expected_bytes {
        return Err(WireError::Short);
    }
    if bytes.len() > expected_bytes {
        return Err(WireError::Malformed);
    }
    let segments: usize = HashTableQuery::segments_count(
        &psi_params.ht_size,
        &psi_params.ct_slots,
        &psi_params.psi_pt,
    ) as usize;
    let powers: usize = psi_params.source_powers.len();
    let tables: usize = psi_params.no_of_hash_tables as usize;
    let ghost size: int = size_single_ct as int;
    let ghost per: int = powers * segments;
    proof {
        assert(size * powers * segments * tables == tables * (per * size)) by (nonlinear_arith)
            requires
                per == powers * segments,
        ;
    }
    if size_single_ct == 0 {
        // ciphertexts without bytes: a message without bytes
        assert(tables * (per * size) == 0) by (nonlinear_arith)
            requires
                size == 0,
        ;
        let res: Result<Query, WireError> = deserialize_empty_query(
            bytes,
            powers,
            segments,
            tables,
        );
        proof {
            let query = res->Ok_0;
            assert forall|b: int, k: int| 0 <= b < query.0@.len() && 0 <= k < per implies (
            #[trigger] query.0@[b].0@[k])@ == bytes@.subrange(
                (b * per + k) * size_single_ct,
                (b * per + k + 1) * size_single_ct,
            ) by {
                assert((b * per + k) * size == 0 && (b * per + k + 1) * size == 0)
                    by (nonlinear_arith)
                    requires
                        size == 0,
                ;
                assert(bytes@.subrange(0, 0) =~= Seq::<u8>::empty());
            }
        }
        return res;
    }
    assert(per <= per * size && per * size <= tables * (per * size)) by (nonlinear_arith)
        requires
            size >= 1,
            per >= 0,
            tables >= 1,
    ;
    let per_table: usize = powers * segments;
    let mut ht_query_cts: Vec<HashTableQueryCts> = Vec::new();
    let mut b: usize = 0;
    while b < tables
        invariant
            size == size_single_ct as int,
            size >= 1,
            per == per_table as int,
            bytes@.len() == length,
            bytes@.len() == tables * (per * size),
            b <= tables,
            ht_query_cts@.len() == b,
            query_shaped(ht_query_cts@, per, size),
            forall|a: int, k: int|
                0 <= a < b && 0 <= k < per ==> (#[trigger] ht_query_cts@[a].0@[k])@
                    == bytes@.subrange((a * per + k) * size, (a * per + k + 1) * size),
        decreases tables - b,
    {
        assert((b + 1) * (per * size) <= tables * (per * size) && (b + 1) * (per * size) == b * (
        per * size) + per * size && b * (per * size) == (b * per) * size) by (nonlinear_arith)
            requires
                b < tables,
                per * size >= 0,
        ;
        assert(b * per <= (b * per) * size) by (nonlinear_arith)
            requires
                size >= 1,
                b * per >= 0,
        ;
        assert(b * per >= 0) by (nonlinear_arith)
            requires
                per >= 0,
        ;
        let start: usize = b * per_table * size_single_ct;
        let cts: Vec<Vec<u8>> = cut_pieces(bytes, start, size_single_ct, per_table);
        let ghost before = ht_query_cts@;
        ht_query_cts.push(HashTableQueryCts(cts));
        proof {
            assert forall|a: int| 0 <= a < ht_query_cts@.len() implies (
            #[trigger] ht_query_cts@[a]).0@.len() == per && forall|k: int|
                0 <= k < per ==> (#[trigger] ht_query_cts@[a].0@[k])@.len() == size by {
                if a < b {
                    assert(ht_query_cts@[a] == before[a]);
                    assert(before[a].0@.len() == per);
                } else {
                    assert forall|k: int| 0 <= k < per implies (
                    #[trigger] ht_query_cts@[a].0@[k])@.len() == size by {
                        assert((k + 1) * size <= per * size && (k + 1) * size == k * size + size
                            && k * size >= 0) by (nonlinear_arith)
                            requires
                                0 <= k < per,
                                size >= 0,
                        ;
                    }
                }
            }
            assert forall|a: int, k: int| 0 <= a < b + 1 && 0 <= k < per implies (
            #[trigger] ht_query_cts@[a].0@[k])@ == bytes@.subrange(
                (a * per + k) * size,
                (a * per + k + 1) * size,
            ) by {
                if a < b {
                    assert(ht_query_cts@[a] == before[a]);
                } else {
                    assert((a * per + k) * size == start + k * size && (a * per + k + 1) * size
                        == start + (k + 1) * size) by (nonlinear_arith)
                        requires
                            start == (a * per) * size,
                    ;
                }
            }
        }
        b = b + 1;
    }
    Ok(Query(ht_query_cts))
}

/// The query of a message without bytes, for ciphertexts without bytes.
fn deserialize_empty_query(bytes: &[u8], powers: usize, segments: usize, tables: usize) -> (res:
    Result<Query, WireError>)
    requires
        bytes@.len() == 0,
    ensures
        res is Ok,
        res->Ok_0.0@.len() == tables,
        query_shaped(res->Ok_0.0@, powers * segments, 0),
        forall|b: int, k: int|
            0 <= b < tables && 0 <= k < powers * segments ==> (#[trigger] res->Ok_0.0@[b].0@[k])@
                == Seq::<u8>::empty(),
{
    let mut out: Vec<HashTableQueryCts> = Vec::new();
    let mut b: usize = 0;
    while b < tables
        invariant
            b <= tables,
            out@.len() == b,
            forall|a: int|
                0 <= a < b ==> (#[trigger] out@[a]).0@.len() == powers * segments && forall|k: int|
                    0 <= k < powers * segments ==> (#[trigger] out@[a].0@[k])@
                        == Seq::<u8>::empty(),
        decreases tables - b,
    {
        let mut cts: Vec<Vec<u8>> = Vec::new();
        let mut p: usize = 0;
        while p < powers
            invariant
                p <= powers,
                cts@.len() == p * segments,
                forall|k: int| 0 <= k < cts@.len() ==> (#[trigger] cts@[k])@ == Seq::<u8>::empty(),
            decreases powers - p,
        {
            let mut g: usize = 0;
            while g < segments
                invariant
                    p < powers,
                    g <= segments,
                    cts@.len() == p * segments + g,
                    forall|k: int|
                        0 <= k < cts@.len() ==> (#[trigger] cts@[k])@ == Seq::<u8>::empty(),
                decreases segments - g,
            {
                cts.push(Vec::new());
                g = g + 1;
            }
            assert((p + 1) * segments == p * segments + segments) by (nonlinear_arith);
            p = p + 1;
        }
        let ghost before = out@;
        out.push(HashTableQueryCts(cts));
        proof {
            assert forall|a: int| 0 <= a < b + 1 implies (#[trigger] out@[a]).0@.len() == powers
                * segments && forall|k: int|
                0 <= k < powers * segments ==> (#[trigger] out@[a].0@[k])@
                    == Seq::<u8>::empty() by {
                if a < b {
                    assert(out@[a] == before[a]);
                }
            }
        }
        b = b + 1;
    }
    Ok(Query(out))
}

pub proof fn lemma_segment_blobs_push(segments: Seq<Vec<Vec<u8>>>, segment: Vec<Vec<u8>>)
    ensures
        segment_blobs(segments.push(segment)) == segment_blobs(segments) + blobs_of(segment@),
{
    assert(segments.push(segment).drop_last() =~= segments);
}

/// A response for the wire: its ciphertexts one after the other, and the
/// number of ciphertexts of each segment.
pub fn serialize_query_response(query_response: &QueryResponse) -> (out: SerializedQueryResponse)
    ensures
        out.bytes@ == concat(response_blobs(query_response.0@)),
        out.inner_boxes_per_segment@ == response_counts(query_response.0@),
{
    let mut bytes: Vec<u8> = Vec::new();
    let mut inner_box_lengths: Vec<usize> = Vec::new();
    let tables: usize = query_response.0.len();
    let mut b: usize = 0;
    assert(query_response.0@.take(0) =~= Seq::<HashTableQueryResponse>::empty());
    while b < tables
        invariant
            tables == query_response.0@.len(),
            b <= tables,
            bytes@ == concat(response_blobs(query_response.0@.take(b as int))),
            inner_box_lengths@ == response_counts(query_response.0@.take(b as int)),
        decreases tables - b,
    {
        let segments: &Vec<Vec<Vec<u8>>> = &query_response.0[b].0;
        let ghost done = response_blobs(query_response.0@.take(b as int));
        let ghost counted = response_counts(query_response.0@.take(b as int));
        let mut g: usize = 0;
        proof {
            assert(segments@.take(0) =~= Seq::<Vec<Vec<u8>>>::empty());
            assert(done + segment_blobs(segments@.take(0)) =~= done);
            assert(counted + segment_counts(segments@.take(0)) =~= counted);
        }
        while g < segments.len()
            invariant
                g <= segments@.len(),
                bytes@ == concat(done + segment_blobs(segments@.take(g as int))),
                inner_box_lengths@ == counted + segment_counts(segments@.take(g as int)),
            decreases segments@.len() - g,
        {
            let cts: &Vec<Vec<u8>> = &segments[g];
            let ghost before = done + segment_blobs(segments@.take(g as int));
            let mut j: usize = 0;
            assert(before + blobs_of(cts@.take(0)) =~= before);
            while j < cts.len()
                invariant
                    j <= cts@.len(),
                    bytes@ == concat(before + blobs_of(cts@.take(j as int))),
                decreases cts@.len() - j,
            {
                bytes.extend_from_slice(cts[j].as_slice());
                proof {
                    lemma_concat_push(before + blobs_of(cts@.take(j as int)), cts@[j as int]@);
                    assert((before + blobs_of(cts@.take(j as int))).push(cts@[j as int]@)
                        =~= before + blobs_of(cts@.take(j + 1)));
                }
                j = j + 1;
            }
            inner_box_lengths.push(cts.len());
            proof {
                assert(cts@.take(cts@.len() as int) =~= cts@);
                assert(segments@.take(g + 1) =~= segments@.take(g as int).push(segments@[g as int]));
                lemma_segment_blobs_push(segments@.take(g as int), segments@[g as int]);
                assert(before + blobs_of(cts@) =~= done + segment_blobs(segments@.take(g + 1)));
                assert(inner_box_lengths@ =~= counted + segment_counts(segments@.take(g + 1)));
            }
            g = g + 1;
        }
        proof {
            assert(segments@.take(segments@.len() as int) =~= segments@);
            assert(query_response.0@.take(b + 1).drop_last() =~= query_response.0@.take(b as int));
            assert(query_response.0@.take(b + 1).last() == query_response.0@[b as int]);
        }
        b = b + 1;
    }
    assert(query_response.0@.take(tables as int) =~= query_response.0@);
    SerializedQueryResponse { bytes, inner_boxes_per_segment: inner_box_lengths }
}

/// The number of segments of a response: those of a hash table, by the number
/// of hash tables.
pub open spec fn response_segments(psi_params: PsiParams) -> int {
    psi_params.no_of_hash_tables * crate::client::query_layout_of(psi_params).segments()
}

/// The response that a message holds, for ciphertexts of `size_single_ct`
/// bytes. The message must name a number of ciphertexts for each segment of
/// each hash table, and hold as many ciphertexts as these numbers say: one
/// that holds fewer bytes is refused as `Short`; one with counts for another
/// number of segments, or with more bytes, as `Malformed`.
pub fn deserialize_query_response(
    serialized_query_response: &SerializedQueryResponse,
    size_single_ct: usize,
    psi_params: &PsiParams,
) -> (res: Result<QueryResponse, WireError>)
    requires
        psi_params.wf(),
        size_single_ct > 0,
    ensures
        res is Ok <==> serialized_query_response.inner_boxes_per_segment@.len()
            == response_segments(*psi_params) && serialized_query_response.bytes@.len()
            == sum_upto(
            serialized_query_response.inner_boxes_per_segment@,
            response_segments(*psi_params),
        ) * size_single_ct,
        res == Err::<QueryResponse, WireError>(WireError::Short)
            <==> serialized_query_response.inner_boxes_per_segment@.len() == response_segments(
            *psi_params,
        ) && serialized_query_response.bytes@.len() < sum_upto(
            serialized_query_response.inner_boxes_per_segment@,
            response_segments(*psi_params),
        ) * size_single_ct,
        res is Ok ==> response_cut_from(
            serialized_query_response.bytes@,
            serialized_query_response.inner_boxes_per_segment@,
            (res->Ok_0).0@,
            psi_params.no_of_hash_tables as int,
            crate::client::query_layout_of(*psi_params).segments(),
            size_single_ct as int,
        ),
{
    proof {
        crate::params::lemma_layout_segments(psi_params.layout_spec());
        crate::client::lemma_query_layout(*psi_params);
    }
    let bytes: &[u8] = serialized_query_response.bytes.as_slice();
    let counts: &[usize] = serialized_query_response.inner_boxes_per_segment.as_slice();
    let length: usize = bytes.len();
    let segments_per_hash_table: usize = HashTableQuery::segments_count(
        &psi_params.ht_size,
        &psi_params.ct_slots,
        &psi_params.psi_pt,
    ) as usize;
    let tables: usize = psi_params.no_of_hash_tables as usize;
    let ghost size: int = size_single_ct as int;
    let ghost per: int = segments_per_hash_table as int;
    assert(tables * per <= 8 * 0xffff_ffff) by (nonlinear_arith)
        requires
            tables <= 8,
            0 <= per <= 0xffff_ffff,
    ;
    let total_expected_segments_response: u64 = tables as u64 * segments_per_hash_table as u64;
    if counts.len() as u64 != total_expected_segments_response {
        return Err(WireError::Malformed);
    }
    let all: usize = counts.len();
    // the number of ciphertexts, and of their bytes
    let mut total: usize = 0;
    let mut m: usize = 0;
    while m < all
        invariant
            size >= 1,
            size == size_single_ct as int,
            all == counts@.len(),
            counts@ == serialized_query_response.inner_boxes_per_segment@,
            all == response_segments(*psi_params),
            length == serialized_query_response.bytes@.len(),
            m <= all,
            total == sum_upto(counts@, m as int),
            total * size <= length,
        decreases all - m,
    {
        let next: usize = match total.checked_add(counts[m]) {
            Some(v) => v,
            None => {
                proof {
                    lemma_sum_grows(counts@, m + 1, all as int);
                    assert(sum_upto(counts@, all as int) * size >= sum_upto(counts@, all as int))
                        by (nonlinear_arith)
                        requires
                            size >= 1,
                            sum_upto(counts@, all as int) >= 0,
                    ;
                }
                return Err(WireError::Short);
            },
        };
        let next_bytes: Option<usize> = next.checked_mul(size_single_ct);
        let fits: bool = match next_bytes {
            Some(v) => v <= length,
            None => false,
        };
        if !fits {
            proof {
                lemma_sum_grows(counts@, m + 1, all as int);
                assert(sum_upto(counts@, all as int) * size >= next * size) by (nonlinear_arith)
                    requires
                        size >= 1,
                        sum_upto(counts@, all as int) >= next,
                ;
            }
            return Err(WireError::Short);
        }
        total = next;
        m = m + 1;
    }
    if total * size_single_ct != length {
        return Err(WireError::Malformed);
    }
    let mut query_response: Vec<HashTableQueryResponse> = Vec::new();
    let mut ciphertexts_processed: usize = 0;
    let mut b: usize = 0;
    while b < tables
        invariant
            size >= 1,
            size == size_single_ct as int,
            per == segments_per_hash_table as int,
            all == counts@.len(),
            all == tables * per,
            length == serialized_query_response.bytes@.len(),
            bytes@ == serialized_query_response.bytes@,
            sum_upto(counts@, all as int) * size == length,
            b <= tables,
            ciphertexts_processed == sum_upto(counts@, b * per),
            query_response@.len() == b,
            forall|a: int| 0 <= a < b ==> (#[trigger] query_response@[a]).0@.len() == per,
            forall|a: int, g: int|
                0 <= a < b && 0 <= g < per ==> (#[trigger] query_response@[a].0@[g])@.len()
                    == counts@[a * per + g],
            forall|a: int, g: int, j: int|
                0 <= a < b && 0 <= g < per && 0 <= j < query_response@[a].0@[g]@.len() ==> (
                #[trigger] query_response@[a].0@[g]@[j])@ == bytes@.subrange(
                    (sum_upto(counts@, a * per + g) + j) * size,
                    (sum_upto(counts@, a * per + g) + j + 1) * size,
                ),
        decreases tables - b,
    {
        // the segments of one hash table
        let mut ht_table_query_response: Vec<Vec<Vec<u8>>> = Vec::new();
        let mut g: usize = 0;
        proof {
            assert((b + 1) * per == b * per + per && b * per >= 0 && (b + 1) * per <= tables * per)
                by (nonlinear_arith)
                requires
                    0 <= b < tables,
                    per >= 0,
            ;
        }
        while g < segments_per_hash_table
            invariant
                size >= 1,
                size == size_single_ct as int,
                per == segments_per_hash_table as int,
                all == counts@.len(),
                b * per + per <= all,
                b * per >= 0,
                length == serialized_query_response.bytes@.len(),
                bytes@ == serialized_query_response.bytes@,
                sum_upto(counts@, all as int) * size == length,
                g <= per,
                ciphertexts_processed == sum_upto(counts@, b * per + g),
                ht_table_query_response@.len() == g,
                forall|e: int|
                    0 <= e < g ==> (#[trigger] ht_table_query_response@[e])@.len() == counts@[b
                        * per + e],
                forall|e: int, j: int|
                    0 <= e < g && 0 <= j < ht_table_query_response@[e]@.len() ==> (
                    #[trigger] ht_table_query_response@[e]@[j])@ == bytes@.subrange(
                        (sum_upto(counts@, b * per + e) + j) * size,
                        (sum_upto(counts@, b * per + e) + j + 1) * size,
                    ),
            decreases per - g,
        {
            let index: usize = b * segments_per_hash_table + g;
            let segment_length: usize = counts[index];
            proof {
                lemma_sum_grows(counts@, index + 1, all as int);
                let upto: int = sum_upto(counts@, index as int);
                assert(sum_upto(counts@, index + 1) == upto + segment_length);
                assert(upto * size + segment_length * size <= length && upto * size >= 0 && upto
                    + segment_length <= length) by (nonlinear_arith)
                    requires
                        upto + segment_length <= sum_upto(counts@, all as int),
                        sum_upto(counts@, all as int) * size == length,
                        size >= 1,
                        upto >= 0,
                ;
            }
            // the ciphertexts of the segment
            let start: usize = ciphertexts_processed * size_single_ct;
            let segment_query_response: Vec<Vec<u8>> = cut_pieces(
                bytes,
                start,
                size_single_ct,
                segment_length,
            );
            let ghost before = ht_table_query_response@;
            ht_table_query_response.push(segment_query_response);
            proof {
                assert forall|e: int, j: int|
                    0 <= e < g + 1 && 0 <= j < ht_table_query_response@[e]@.len() implies (
                #[trigger] ht_table_query_response@[e]@[j])@ == bytes@.subrange(
                    (sum_upto(counts@, b * per + e) + j) * size,
                    (sum_upto(counts@, b * per + e) + j + 1) * size,
                ) by {
                    if e < g {
                        assert(ht_table_query_response@[e] == before[e]);
                    } else {
                        let upto: int = sum_upto(counts@, index as int);
                        assert((upto + j) * size == start + j * size && (upto + j + 1) * size
                            == start + (j + 1) * size) by (nonlinear_arith)
                            requires
                                start == upto * size,
                        ;
                    }
                }
            }
            ciphertexts_processed = ciphertexts_processed + segment_length;
            g = g + 1;
        }
        let ghost before = query_response@;
        query_response.push(HashTableQueryResponse(ht_table_query_response));
        proof {
            assert forall|a: int| 0 <= a < b + 1 implies (#[trigger] query_response@[a]).0@.len()
                == per by {
                if a < b {
                    assert(query_response@[a] == before[a]);
                }
            }
            assert forall|a: int, g2: int| 0 <= a < b + 1 && 0 <= g2 < per implies (
            #[trigger] query_response@[a].0@[g2])@.len() == counts@[a * per + g2] by {
                if a < b {
                    assert(query_response@[a] == before[a]);
                }
            }
            assert forall|a: int, g2: int, j: int|
                0 <= a < b + 1 && 0 <= g2 < per && 0 <= j < query_response@[a].0@[g2]@.len() implies (
            #[trigger] query_response@[a].0@[g2]@[j])@ == bytes@.subrange(
                (sum_upto(counts@, a * per + g2) + j) * size,
                (sum_upto(counts@, a * per + g2) + j + 1) * size,
            ) by {
                if a < b {
                    assert(query_response@[a] == before[a]);
                }
            }
        }
        b = b + 1;
    }
    Ok(QueryResponse(query_response))
}

/// The sums of a list of counts grow with the number of counts summed.
pub proof fn lemma_sum_grows(counts: Seq<usize>, n: int, m: int)
    requires
        0 <= n <= m,
    ensures
        0 <= sum_upto(counts, n) <= sum_upto(counts, m),
    decreases m,
{
    if n < m {
        lemma_sum_grows(counts, n, m - 1);
    } else if n > 0 {
        lemma_sum_grows(counts, n - 1, m - 1);
    }
}

/// The number of bytes of a query for ciphertexts of `size` bytes.
pub open spec fn query_bytes_len(size: int, psi_params: PsiParams) -> int {
    size * psi_params.source_powers@.len() * crate::client::query_layout_of(psi_params).segments()
        * psi_params.no_of_hash_tables
}

/// The number of ciphertexts of the query for one hash table: one for each
/// source power and segment.
pub open spec fn query_per_table(psi_params: PsiParams) -> int {
    psi_params.source_powers@.len() * crate::client::query_layout_of(psi_params).segments()
}

/// The query was cut from the message: it has `tables` hash tables of
/// `per_table` ciphertexts, and the ciphertexts are the pieces of `size`
/// bytes of the message, in their order.
pub open spec fn query_cut_from(
    bytes: Seq<u8>,
    query: Seq<HashTableQueryCts>,
    tables: int,
    per_table: int,
    size: int,
) -> bool {
    &&& query.len() == tables
    &&& query_shaped(query, per_table, size)
    &&& forall|b: int, k: int|
        0 <= b < query.len() && 0 <= k < per_table ==> (#[trigger] query[b].0@[k])@
            == bytes.subrange((b * per_table + k) * size, (b * per_table + k + 1) * size)
}

/// The response was cut from the message: it has `tables` hash tables of
/// `segments` segments, each segment has as many ciphertexts as `counts`
/// says, and the ciphertexts are the pieces of `size` bytes of the message,
/// in their order.
pub open spec fn response_cut_from(
    bytes: Seq<u8>,
    counts: Seq<usize>,
    response: Seq<HashTableQueryResponse>,
    tables: int,
    segments: int,
    size: int,
) -> bool {
    &&& response.len() == tables
    &&& forall|b: int| 0 <= b < response.len() ==> (#[trigger] response[b]).0@.len() == segments
    &&& forall|b: int, g: int|
        0 <= b < response.len() && 0 <= g < segments ==> (#[trigger] response[b].0@[g])@.len()
            == counts[b * segments + g]
    &&& forall|b: int, g: int, j: int|
        0 <= b < response.len() && 0 <= g < segments && 0 <= j < response[b].0@[g]@.len() ==> (
        #[trigger] response[b].0@[g]@[j])@ == bytes.subrange(
            (sum_upto(counts, b * segments + g) + j) * size,
            (sum_upto(counts, b * segments + g) + j + 1) * size,
        )
}

/// Every hash table of the response has `segments` segments, and every
/// ciphertext has `size` bytes.
pub open spec fn response_shaped(tables: Seq<HashTableQueryResponse>, segments: int, size: int) -> bool {
    &&& forall|b: int| 0 <= b < tables.len() ==> (#[trigger] tables[b]).0@.len() == segments
    &&& forall|b: int, g: int, j: int|
        0 <= b < tables.len() && 0 <= g < tables[b].0@.len() && 0 <= j < tables[b].0@[g]@.len()
            ==> (#[trigger] tables[b].0@[g]@[j])@.len() == size
}

/// The ciphertexts of a query, hash table by hash table.
pub open spec fn query_view(tables: Seq<HashTableQueryCts>) -> Seq<Seq<Seq<u8>>> {
    Seq::new(tables.len(), |b: int| blobs_of(tables[b].0@))
}

/// The ciphertexts of a response, by hash table and segment.
pub open spec fn response_view(tables: Seq<HashTableQueryResponse>) -> Seq<Seq<Seq<Seq<u8>>>> {
    Seq::new(
        tables.len(),
        |b: int| Seq::new(tables[b].0@.len(), |g: int| blobs_of(tables[b].0@[g]@)),
    )
}

/// Every blob has `size` bytes.
pub open spec fn uniform(blobs: Seq<Seq<u8>>, size: int) -> bool {
    forall|i: int| 0 <= i < blobs.len() ==> (#[trigger] blobs[i]).len() == size
}

/// Blobs of one size can be read back from their concatenation.
pub proof fn lemma_concat_uniform(blobs: Seq<Seq<u8>>, size: int)
    requires
        uniform(blobs, size),
        size >= 0,
    ensures
        concat(blobs).len() == blobs.len() * size,
        forall|i: int|
            0 <= i < blobs.len() ==> concat(blobs).subrange(i * size, (i + 1) * size)
                == #[trigger] blobs[i],
    decreases blobs.len(),
{
    if blobs.len() == 0 {
        assert(0 * size == 0);
    } else {
        let init = blobs.drop_last();
        let n = blobs.len() - 1;
        lemma_concat_uniform(init, size);
        assert(n * size + size == (n + 1) * size) by (nonlinear_arith);
        assert(blobs.last().len() == size);
        assert forall|i: int| 0 <= i < blobs.len() implies concat(blobs).subrange(
            i * size,
            (i + 1) * size,
        ) == #[trigger] blobs[i] by {
            assert(i * size >= 0 && i * size + size == (i + 1) * size) by (nonlinear_arith)
                requires
                    i >= 0,
                    size >= 0,
            ;
            if i < n {
                assert((i + 1) * size <= n * size) by (nonlinear_arith)
                    requires
                        i + 1 <= n,
                        size >= 0,
                ;
                assert(init[i] == blobs[i]);
                assert(concat(blobs).subrange(i * size, (i + 1) * size) =~= concat(init).subrange(
                    i * size,
                    (i + 1) * size,
                ));
            } else {
                assert(concat(blobs).subrange(n * size, (n + 1) * size) =~= blobs.last());
            }
        }
    }
}

/// Where the ciphertexts of a shaped query stand among its blobs.
pub proof fn lemma_query_blobs_index(tables: Seq<HashTableQueryCts>, per_table: int, size: int)
    requires
        query_shaped(tables, per_table, size),
        per_table >= 0,
    ensures
        query_blobs(tables).len() == tables.len() * per_table,
        uniform(query_blobs(tables), size),
        forall|b: int, k: int|
            0 <= b < tables.len() && 0 <= k < per_table ==> query_blobs(tables)[b * per_table + k]
                == (#[trigger] tables[b].0@[k])@,
    decreases tables.len(),
{
    if tables.len() == 0 {
        assert(0 * per_table == 0);
    } else {
        let init = tables.drop_last();
        let n = tables.len() - 1;
        assert(query_shaped(init, per_table, size)) by {
            assert forall|b: int| 0 <= b < init.len() implies (#[trigger] init[b]).0@.len()
                == per_table && forall|k: int|
                0 <= k < per_table ==> (#[trigger] init[b].0@[k])@.len() == size by {
                assert(init[b] == tables[b]);
            }
        }
        lemma_query_blobs_index(init, per_table, size);
        let last = blobs_of(tables.last().0@);
        assert(tables[n].0@.len() == per_table);
        assert(n * per_table + per_table == (n + 1) * per_table) by (nonlinear_arith);
        assert forall|i: int| 0 <= i < query_blobs(tables).len() implies (#[trigger] query_blobs(
            tables,
        )[i]).len() == size by {
            if i >= n * per_table {
                let k = i - n * per_table;
                assert(query_blobs(tables)[i] == tables[n].0@[k]@);
            }
        }
        assert forall|b: int, k: int| 0 <= b < tables.len() && 0 <= k < per_table implies query_blobs(
            tables,
        )[b * per_table + k] == (#[trigger] tables[b].0@[k])@ by {
            assert(b * per_table >= 0 && (b < n ==> b * per_table + per_table <= n * per_table)
                && (b == n ==> b * per_table == n * per_table)) by (nonlinear_arith)
                requires
                    0 <= b <= n,
                    per_table >= 0,
            ;
            if b < n {
                assert(init[b] == tables[b]);
                assert(query_blobs(init)[b * per_table + k] == init[b].0@[k]@);
            } else {
                assert(last[k] == tables[n].0@[k]@);
            }
        }
    }
}

/// A query that went over the wire comes back as it was sent. `sent` is a
/// query for the parameters, with ciphertexts of `size` bytes: its message
/// has the length that deserialization asks for, and a query cut from that
/// message has the ciphertexts of `sent`.
pub proof fn lemma_query_round_trip(
    sent: Seq<HashTableQueryCts>,
    received: Seq<HashTableQueryCts>,
    size: int,
    psi_params: PsiParams,
)
    requires
        size >= 0,
        sent.len() == psi_params.no_of_hash_tables,
        psi_params.wf(),
        query_shaped(sent, query_per_table(psi_params), size),
        query_cut_from(
            concat(query_blobs(sent)),
            received,
            psi_params.no_of_hash_tables as int,
            query_per_table(psi_params),
            size,
        ),
    ensures
        concat(query_blobs(sent)).len() == query_bytes_len(size, psi_params),
        query_view(received) == query_view(sent),
{
    let per = query_per_table(psi_params);
    let blobs = query_blobs(sent);
    let bytes = concat(blobs);
    crate::params::lemma_layout_segments(psi_params.layout_spec());
    crate::client::lemma_query_layout(psi_params);
    assert(per >= 0) by (nonlinear_arith)
        requires
            per == psi_params.source_powers@.len() * crate::client::query_layout_of(
                psi_params,
            ).segments(),
            crate::client::query_layout_of(psi_params).segments() >= 0,
    ;
    lemma_query_blobs_index(sent, per, size);
    lemma_concat_uniform(blobs, size);
    let powers = psi_params.source_powers@.len() as int;
    let segments = crate::client::query_layout_of(psi_params).segments();
    let tables = psi_params.no_of_hash_tables as int;
    assert((tables * (powers * segments)) * size == size * powers * segments * tables)
        by (nonlinear_arith);
    assert forall|b: int| 0 <= b < sent.len() implies #[trigger] query_view(received)[b]
        == query_view(sent)[b] by {
        assert(received[b].0@.len() == per);
        assert(sent[b].0@.len() == per);
        assert forall|k: int| 0 <= k < per implies blobs_of(received[b].0@)[k] == blobs_of(
            sent[b].0@,
        )[k] by {
            assert(b * per + k >= 0 && b * per + k < sent.len() * per) by (nonlinear_arith)
                requires
                    0 <= b < sent.len(),
                    0 <= k < per,
            ;
            assert(blobs[b * per + k] == sent[b].0@[k]@);
            assert(received[b].0@[k]@ == bytes.subrange(
                (b * per + k) * size,
                (b * per + k + 1) * size,
            ));
        }
        assert(blobs_of(received[b].0@) =~= blobs_of(sent[b].0@));
    }
    assert(query_view(received) =~= query_view(sent));
}

/// A sum of counts looks at the counts summed only.
pub proof fn lemma_sum_prefix(a: Seq<usize>, b: Seq<usize>, n: int)
    requires
        0 <= n <= a.len(),
        n <= b.len(),
        forall|i: int| 0 <= i < n ==> a[i] == b[i],
    ensures
        sum_upto(a, n) == sum_upto(b, n),
    decreases n,
{
    if n > 0 {
        lemma_sum_prefix(a, b, n - 1);
    }
}

/// The sums of two lists of counts, one after the other.
pub proof fn lemma_sum_append(a: Seq<usize>, b: Seq<usize>, n: int)
    requires
        0 <= n <= b.len(),
    ensures
        sum_upto(a + b, a.len() + n) == sum_upto(a, a.len() as int) + sum_upto(b, n),
    decreases n,
{
    if n == 0 {
        lemma_sum_prefix(a + b, a, a.len() as int);
    } else {
        lemma_sum_append(a, b, n - 1);
        assert((a + b)[a.len() + n - 1] == b[n - 1]);
    }
}

/// Where the ciphertexts of the segments of a hash table stand among their
/// blobs.
pub proof fn lemma_segment_blobs_index(segments: Seq<Vec<Vec<u8>>>, size: int)
    requires
        forall|g: int, j: int|
            0 <= g < segments.len() && 0 <= j < segments[g]@.len() ==> (
            #[trigger] segments[g]@[j])@.len() == size,
    ensures
        segment_blobs(segments).len() == sum_upto(segment_counts(segments), segments.len() as int),
        uniform(segment_blobs(segments), size),
        forall|g: int, j: int|
            0 <= g < segments.len() && 0 <= j < segments[g]@.len() ==> segment_blobs(
                segments,
            )[sum_upto(segment_counts(segments), g) + j] == (#[trigger] segments[g]@[j])@,
    decreases segments.len(),
{
    if segments.len() > 0 {
        let init = segments.drop_last();
        let n = segments.len() - 1;
        let counts = segment_counts(segments);
        assert forall|g: int, j: int| 0 <= g < init.len() && 0 <= j < init[g]@.len() implies (
        #[trigger] init[g]@[j])@.len() == size by {
            assert(init[g] == segments[g]);
            assert(segments[g]@[j]@.len() == size);
        }
        lemma_segment_blobs_index(init, size);
        assert(segments[n].len() == segments[n]@.len());
        assert(counts[n] == segments[n]@.len());
        lemma_sum_prefix(counts, segment_counts(init), n);
        let last = blobs_of(segments[n]@);
        assert forall|i: int| 0 <= i < segment_blobs(segments).len() implies (
        #[trigger] segment_blobs(segments)[i]).len() == size by {
            if i >= segment_blobs(init).len() {
                let j = i - segment_blobs(init).len();
                assert(segment_blobs(segments)[i] == segments[n]@[j]@);
            }
        }
        assert forall|g: int, j: int| 0 <= g < segments.len() && 0 <= j < segments[g]@.len() implies
            segment_blobs(segments)[sum_upto(counts, g) + j] == (#[trigger] segments[g]@[j])@ by {
            if g < n {
                assert(init[g] == segments[g]);
                assert(segments[g].len() == segments[g]@.len());
                lemma_sum_prefix(counts, segment_counts(init), g);
                lemma_sum_prefix(counts, segment_counts(init), g + 1);
                lemma_sum_grows(segment_counts(init), g + 1, n);
                lemma_sum_grows(segment_counts(init), g, g + 1);
                assert(sum_upto(segment_counts(init), g + 1) == sum_upto(segment_counts(init), g)
                    + segments[g]@.len());
                assert(segment_blobs(init)[sum_upto(segment_counts(init), g) + j] == init[g]@[j]@);
            } else {
                assert(last[j] == segments[n]@[j]@);
            }
        }
    }
}

/// Where the counts and the ciphertexts of a shaped response stand among its
/// counts and blobs.
pub proof fn lemma_response_blobs_index(
    tables: Seq<HashTableQueryResponse>,
    segments: int,
    size: int,
)
    requires
        response_shaped(tables, segments, size),
        segments >= 0,
    ensures
        response_counts(tables).len() == tables.len() * segments,
        forall|b: int, g: int|
            0 <= b < tables.len() && 0 <= g < segments ==> response_counts(tables)[b * segments
                + g] == (#[trigger] tables[b].0@[g])@.len(),
        response_blobs(tables).len() == sum_upto(response_counts(tables), tables.len() * segments),
        uniform(response_blobs(tables), size),
        forall|b: int, g: int, j: int|
            0 <= b < tables.len() && 0 <= g < segments && 0 <= j < tables[b].0@[g]@.len()
                ==> response_blobs(tables)[sum_upto(response_counts(tables), b * segments + g) + j]
                == (#[trigger] tables[b].0@[g]@[j])@,
    decreases tables.len(),
{
    if tables.len() == 0 {
        assert(0 * segments == 0);
    } else {
        let init = tables.drop_last();
        let n = tables.len() - 1;
        let last = tables[n].0@;
        let counts = response_counts(tables);
        let init_counts = response_counts(init);
        assert(response_shaped(init, segments, size)) by {
            assert forall|b: int| 0 <= b < init.len() implies (#[trigger] init[b]).0@.len()
                == segments by {
                assert(init[b] == tables[b]);
            }
            assert forall|b: int, g: int, j: int|
                0 <= b < init.len() && 0 <= g < init[b].0@.len() && 0 <= j
                    < init[b].0@[g]@.len() implies (#[trigger] init[b].0@[g]@[j])@.len() == size by {
                assert(init[b] == tables[b]);
                assert(tables[b].0@[g]@[j]@.len() == size);
            }
        }
        lemma_response_blobs_index(init, segments, size);
        assert(last.len() == segments);
        assert forall|g: int, j: int| 0 <= g < last.len() && 0 <= j < last[g]@.len() implies (
        #[trigger] last[g]@[j])@.len() == size by {
            assert(tables[n].0@[g]@[j]@.len() == size);
        }
        lemma_segment_blobs_index(last, size);
        assert(n * segments + segments == (n + 1) * segments && n * segments >= 0)
            by (nonlinear_arith)
            requires
                n >= 0,
                segments >= 0,
        ;
        assert(counts == init_counts + segment_counts(last));
        assert(response_blobs(tables) == response_blobs(init) + segment_blobs(last));
        lemma_sum_append(init_counts, segment_counts(last), segments);
        assert forall|b: int, g: int| 0 <= b < tables.len() && 0 <= g < segments implies counts[b
            * segments + g] == (#[trigger] tables[b].0@[g])@.len() by {
            assert(b * segments >= 0 && (b < n ==> b * segments + segments <= n * segments) && (b
                == n ==> b * segments == n * segments)) by (nonlinear_arith)
                requires
                    0 <= b <= n,
                    segments >= 0,
            ;
            if b < n {
                assert(init[b] == tables[b]);
                assert(init_counts[b * segments + g] == init[b].0@[g]@.len());
            } else {
                assert(last[g].len() == last[g]@.len());
                assert(segment_counts(last)[g] == last[g]@.len());
            }
        }
        assert forall|i: int| 0 <= i < response_blobs(tables).len() implies (
        #[trigger] response_blobs(tables)[i]).len() == size by {
            if i >= response_blobs(init).len() {
                let j = i - response_blobs(init).len();
                assert(response_blobs(tables)[i] == segment_blobs(last)[j]);
            }
        }
        assert forall|b: int, g: int, j: int|
            0 <= b < tables.len() && 0 <= g < segments && 0 <= j
                < tables[b].0@[g]@.len() implies response_blobs(tables)[sum_upto(
            counts,
            b * segments + g,
        ) + j] == (#[trigger] tables[b].0@[g]@[j])@ by {
            assert(b * segments >= 0 && (b < n ==> b * segments + segments <= n * segments) && (b
                == n ==> b * segments == n * segments)) by (nonlinear_arith)
                requires
                    0 <= b <= n,
                    segments >= 0,
            ;
            let index = b * segments + g;
            if b < n {
                assert(init[b] == tables[b]);
                lemma_sum_prefix(counts, init_counts, index);
                lemma_sum_prefix(counts, init_counts, index + 1);
                lemma_sum_grows(init_counts, index + 1, n * segments);
                lemma_sum_grows(init_counts, index, index + 1);
                assert(init_counts[index] == init[b].0@[g]@.len());
                assert(sum_upto(init_counts, index + 1) == sum_upto(init_counts, index)
                    + init_counts[index]);
                assert(response_blobs(init)[sum_upto(init_counts, index) + j]
                    == init[b].0@[g]@[j]@);
            } else {
                lemma_sum_append(init_counts, segment_counts(last), g);
                lemma_sum_grows(segment_counts(last), g + 1, segments);
                lemma_sum_grows(segment_counts(last), g, g + 1);
                assert(last[g].len() == last[g]@.len());
                assert(sum_upto(segment_counts(last), g + 1) == sum_upto(segment_counts(last), g)
                    + segment_counts(last)[g]);
                assert(segment_blobs(last)[sum_upto(segment_counts(last), g) + j]
                    == last[g]@[j]@);
            }
        }
    }
}

/// A response that went over the wire comes back as it was sent. `sent` is
/// a response for the parameters, with ciphertexts of `size` bytes: its
/// message has the counts and the length that deserialization asks for, and
/// a response cut from that message has the ciphertexts of `sent`.
pub proof fn lemma_response_round_trip(
    sent: Seq<HashTableQueryResponse>,
    received: Seq<HashTableQueryResponse>,
    size: int,
    psi_params: PsiParams,
)
    requires
        size >= 0,
        psi_params.wf(),
        sent.len() == psi_params.no_of_hash_tables,
        response_shaped(sent, crate::client::query_layout_of(psi_params).segments(), size),
        response_cut_from(
            concat(response_blobs(sent)),
            response_counts(sent),
            received,
            psi_params.no_of_hash_tables as int,
            crate::client::query_layout_of(psi_params).segments(),
            size,
        ),
    ensures
        response_counts(sent).len() == response_segments(psi_params),
        concat(response_blobs(sent)).len() == sum_upto(
            response_counts(sent),
            response_segments(psi_params),
        ) * size,
        response_view(received) == response_view(sent),
{
    let segments = crate::client::query_layout_of(psi_params).segments();
    let blobs = response_blobs(sent);
    let counts = response_counts(sent);
    let bytes = concat(blobs);
    crate::params::lemma_layout_segments(psi_params.layout_spec());
    crate::client::lemma_query_layout(psi_params);
    lemma_response_blobs_index(sent, segments, size);
    lemma_concat_uniform(blobs, size);
    assert forall|b: int| 0 <= b < sent.len() implies #[trigger] response_view(received)[b]
        == response_view(sent)[b] by {
        assert(received[b].0@.len() == segments);
        assert(sent[b].0@.len() == segments);
        assert forall|g: int| 0 <= g < segments implies blobs_of(#[trigger] received[b].0@[g]@)
            == blobs_of(sent[b].0@[g]@) by {
            let index = b * segments + g;
            assert(index >= 0 && index + 1 <= sent.len() * segments) by (nonlinear_arith)
                requires
                    index == b * segments + g,
                    0 <= b < sent.len(),
                    0 <= g < segments,
            ;
            assert(received[b].0@[g]@.len() == counts[index]);
            assert(counts[index] == sent[b].0@[g]@.len());
            lemma_sum_grows(counts, index + 1, sent.len() * segments);
            lemma_sum_grows(counts, index, index + 1);
            assert(sum_upto(counts, index + 1) == sum_upto(counts, index) + counts[index]);
            assert forall|j: int| 0 <= j < sent[b].0@[g]@.len() implies blobs_of(
                received[b].0@[g]@,
            )[j] == blobs_of(sent[b].0@[g]@)[j] by {
                assert(blobs[sum_upto(counts, index) + j] == sent[b].0@[g]@[j]@);
                assert(received[b].0@[g]@[j]@ == bytes.subrange(
                    (sum_upto(counts, index) + j) * size,
                    (sum_upto(counts, index) + j + 1) * size,
                ));
            }
            assert(blobs_of(received[b].0@[g]@) =~= blobs_of(sent[b].0@[g]@));
        }
        assert(response_view(received)[b] =~= response_view(sent)[b]);
    }
    assert(response_view(received) =~= response_view(sent));
}

/// A message that was cut into a query comes back when the query is put
/// together again.
pub proof fn lemma_query_bytes_round_trip(
    bytes: Seq<u8>,
    query: Seq<HashTableQueryCts>,
    tables: int,
    per_table: int,
    size: int,
)
    requires
        tables >= 0,
        per_table >= 0,
        size >= 0,
        bytes.len() == tables * per_table * size,
        query_cut_from(bytes, query, tables, per_table, size),
    ensures
        concat(query_blobs(query)) == bytes,
{
    lemma_query_blobs_index(query, per_table, size);
    let blobs = query_blobs(query);
    let count = tables * per_table;
    assert(count >= 0) by (nonlinear_arith)
        requires
            count == tables * per_table,
            tables >= 0,
            per_table >= 0,
    ;
    assert forall|i: int| 0 <= i < count implies #[trigger] blobs[i] == pieces(bytes, size, count)[i] by {
        assert(per_table > 0) by (nonlinear_arith)
            requires
                0 <= i < tables * per_table,
                per_table >= 0,
        ;
        let b = i / per_table;
        let k = i % per_table;
        vstd::arithmetic::div_mod::lemma_fundamental_div_mod(i, per_table);
        vstd::arithmetic::div_mod::lemma_mod_bound(i, per_table);
        assert(0 <= b < tables && i == b * per_table + k) by (nonlinear_arith)
            requires
                i == per_table * b + k,
                0 <= k < per_table,
                0 <= i < tables * per_table,
        ;
        assert(blobs[b * per_table + k] == query[b].0@[k]@);
    }
    assert(blobs =~= pieces(bytes, size, count));
    lemma_concat_pieces(bytes, size, count);
    assert(bytes.subrange(0, count * size) =~= bytes);
}

} // verus!
