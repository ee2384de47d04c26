//! 256-bit values and their division into little-endian chunks.

use vstd::arithmetic::div_mod::lemma_fundamental_div_mod;
use vstd::prelude::*;

verus! {

/// A 256-bit value, held as its 32 little-endian bytes.
#[derive(Clone, Copy, Debug)]
pub struct U256 {
    pub bytes: [u8; 32],
}

impl View for U256 {
    type V = Seq<u8>;

    open spec fn view(&self) -> Seq<u8> {
        self.bytes@
    }
}

/// The number that the bytes `bytes[start .. start + len]` spell, lowest byte
/// first.
pub open spec fn le_value(bytes: Seq<u8>, start: int, len: int) -> int
    decreases len,
{
    if len <= 0 {
        0
    } else {
        bytes[start] as int + 256 * le_value(bytes, start + 1, len - 1)
    }
}

/// Byte `j` of the number `c`, counted from the lowest.
pub open spec fn byte_at(c: int, j: int) -> int
    decreases j,
{
    if j <= 0 {
        c % 256
    } else {
        byte_at(c / 256, j - 1)
    }
}

/// `256` to the power `k`.
pub open spec fn pow256(k: int) -> int
    decreases k,
{
    if k <= 0 {
        1
    } else {
        256 * pow256(k - 1)
    }
}

/// The chunks of `len` bytes each into which the first `count * len` bytes of
/// `bytes` divide.
pub open spec fn chunks_of(bytes: Seq<u8>, count: int, len: int) -> Seq<int> {
    Seq::new(count as nat, |k: int| le_value(bytes, k * len, len))
}

/// The bytes that `chunks` spell when each gives its `len` lowest bytes,
/// padded with zeros to 32 bytes.
pub open spec fn bytes_of_chunks(chunks: Seq<u32>, len: int) -> Seq<u8> {
    Seq::new(
        32,
        |i: int|
            if 0 <= i < chunks.len() * len {
                byte_at(chunks[i / len] as int, i % len) as u8
            } else {
                0u8
            },
    )
}

pub proof fn lemma_le_value_bound(bytes: Seq<u8>, start: int, len: int)
    requires
        len >= 0,
    ensures
        0 <= le_value(bytes, start, len) < pow256(len),
    decreases len,
{
    if len > 0 {
        lemma_le_value_bound(bytes, start + 1, len - 1);
    }
}

pub proof fn lemma_pow256_values()
    ensures
        pow256(0) == 1,
        pow256(1) == 0x100,
        pow256(2) == 0x1_0000,
        pow256(3) == 0x100_0000,
        pow256(4) == 0x1_0000_0000,
{
    reveal_with_fuel(pow256, 6);
}

/// Reading a chunk and taking its `j`-th byte gives the byte that was read.
pub proof fn lemma_byte_of_le_value(bytes: Seq<u8>, start: int, len: int, j: int)
    requires
        0 <= j < len,
    ensures
        byte_at(le_value(bytes, start, len), j) == bytes[start + j] as int,
    decreases j,
{
    let rest: int = le_value(bytes, start + 1, len - 1);
    let v: int = le_value(bytes, start, len);
    let b: int = bytes[start] as int;
    assert(v == b + 256 * rest);
    assert(v % 256 == b && v / 256 == rest) by {
        vstd::arithmetic::div_mod::lemma_fundamental_div_mod_converse(v, 256, rest, b);
    }
    if j > 0 {
        lemma_byte_of_le_value(bytes, start + 1, len - 1, j - 1);
    }
}

impl U256 {
    /// The value whose little-endian bytes are `bytes`.
    pub fn from_le_bytes(bytes: [u8; 32]) -> (v: U256)
        ensures
            v@ == bytes@,
    {
        U256 { bytes }
    }

    /// The little-endian bytes of the value.
    pub fn to_le_bytes(&self) -> (bytes: [u8; 32])
        ensures
            bytes@ == self@,
    {
        self.bytes
    }

    /// The value of a 128-bit number: its 16 bytes, then 16 zero bytes.
    pub fn from_u128(v: u128) -> (r: U256)
        ensures
            forall|i: int| 0 <= i < 16 ==> #[trigger] r@[i] as int == byte_at(v as int, i),
            forall|i: int| 16 <= i < 32 ==> #[trigger] r@[i] == 0,
    {
        let mut bytes: [u8; 32] = [0u8; 32];
        let mut rem: u128 = v;
        let mut i: usize = 0;
        while i < 16
            invariant
                i <= 16,
                forall|k: int| 0 <= k < i ==> #[trigger] bytes@[k] as int == byte_at(v as int, k),
                forall|k: int| i <= k < 32 ==> #[trigger] bytes@[k] == 0,
                forall|k: int| k >= 0 ==> #[trigger] byte_at(rem as int, k) == byte_at(v as int, i + k),
            decreases 16 - i,
        {
            bytes[i] = (rem % 256) as u8;
            proof {
                assert(byte_at(rem as int, 0) == rem % 256);
                assert forall|k: int| k >= 0 implies #[trigger] byte_at((rem / 256) as int, k)
                    == byte_at(v as int, i + 1 + k) by {
                    assert(byte_at(rem as int, k + 1) == byte_at(v as int, i + (k + 1)));
                }
            }
            rem = rem / 256;
            i = i + 1;
        }
        U256 { bytes }
    }

    /// Whether two values are the same.
    pub fn equals(&self, other: &U256) -> (b: bool)
        ensures
            b == (self@ == other@),
    {
        let mut i: usize = 0;
        while i < 32
            invariant
                i <= 32,
                forall|k: int| 0 <= k < i ==> self@[k] == other@[k],
            decreases 32 - i,
        {
            if self.bytes[i] != other.bytes[i] {
                return false;
            }
            i = i + 1;
        }
        assert(self@ =~= other@);
        true
    }
}

/// The number that at most four bytes spell, lowest byte first.
pub fn bytes_to_u32(bytes: &[u8]) -> (v: u32)
    requires
        bytes@.len() <= 4,
    ensures
        v as int == le_value(bytes@, 0, bytes@.len() as int),
{
    let n: usize = bytes.len();
    let mut acc: u64 = 0;
    let mut i: usize = n;
    proof {
        lemma_pow256_values();
    }
    while i > 0
        invariant
            n == bytes@.len(),
            n <= 4,
            i <= n,
            acc as int == le_value(bytes@, i as int, n - i),
            acc < pow256(n - i),
        decreases i,
    {
        i = i - 1;
        proof {
            lemma_le_value_bound(bytes@, i + 1, n - i - 1);
            lemma_le_value_bound(bytes@, i as int, n - i);
            lemma_pow256_values();
            reveal_with_fuel(pow256, 6);
        }
        acc = acc * 256 + bytes[i] as u64;
    }
    proof {
        lemma_pow256_values();
        reveal_with_fuel(pow256, 6);
    }
    acc as u32
}

/// The first `no_of_chunks` chunks of `bytes_per_chunk` bytes of `value`, each
/// read lowest byte first.
pub fn value_to_chunks(value: &U256, no_of_chunks: u32, bytes_per_chunk: u32) -> (chunks: Vec<u32>)
    requires
        bytes_per_chunk <= 4,
        no_of_chunks * bytes_per_chunk <= 32,
    ensures
        ints_of(chunks@) == chunks_of(value@, no_of_chunks as int, bytes_per_chunk as int),
{
    let ghost len: int = bytes_per_chunk as int;
    let mut chunks: Vec<u32> = Vec::new();
    let mut chunk_index: u32 = 0;
    while chunk_index < no_of_chunks
        invariant
            len == bytes_per_chunk as int,
            bytes_per_chunk <= 4,
            no_of_chunks * bytes_per_chunk <= 32,
            chunk_index <= no_of_chunks,
            chunks@.len() == chunk_index,
            forall|k: int|
                0 <= k < chunk_index ==> #[trigger] chunks@[k] as int == le_value(
                    value@,
                    k * len,
                    len,
                ),
        decreases no_of_chunks - chunk_index,
    {
        assert((chunk_index + 1) * bytes_per_chunk <= no_of_chunks * bytes_per_chunk)
            by (nonlinear_arith)
            requires
                chunk_index < no_of_chunks,
        ;
        assert((chunk_index + 1) * bytes_per_chunk == chunk_index * bytes_per_chunk
            + bytes_per_chunk) by (nonlinear_arith);
        let chunk: u32 = chunk_at(value, chunk_index * bytes_per_chunk, bytes_per_chunk);
        chunks.push(chunk);
        chunk_index = chunk_index + 1;
    }
    assert(ints_of(chunks@) =~= chunks_of(value@, no_of_chunks as int, len));
    chunks
}

/// The residues of a vector as mathematical integers.
pub open spec fn ints_of(v: Seq<u32>) -> Seq<int> {
    Seq::new(v.len(), |i: int| v[i] as int)
}

/// The number that the `len` bytes of `value` from `start` on spell.
pub fn chunk_at(value: &U256, start: u32, len: u32) -> (v: u32)
    requires
        len <= 4,
        start + len <= 32,
    ensures
        v as int == le_value(value@, start as int, len as int),
        v < pow256(len as int),
{
    let mut acc: u64 = 0;
    let mut i: u32 = len;
    proof {
        lemma_pow256_values();
    }
    while i > 0
        invariant
            len <= 4,
            start + len <= 32,
            i <= len,
            acc as int == le_value(value@, start + i, len - i),
            acc < pow256(len - i),
        decreases i,
    {
        i = i - 1;
        proof {
            lemma_le_value_bound(value@, start + i + 1, len - i - 1);
            lemma_le_value_bound(value@, start + i, len - i);
            lemma_pow256_values();
            reveal_with_fuel(pow256, 6);
        }
        acc = acc * 256 + value.bytes[(start + i) as usize] as u64;
    }
    proof {
        lemma_pow256_values();
        reveal_with_fuel(pow256, 6);
    }
    acc as u32
}

/// The value whose bytes are the `bytes_per_chunk` lowest bytes of each chunk
/// in turn, lowest byte first; bytes past the last chunk are zero.
pub fn chunks_to_value(chunks: &[u32], total_bytes: u32, bytes_per_chunk: u32) -> (value: U256)
    requires
        0 < bytes_per_chunk <= 4,
        total_bytes <= 32,
        chunks@.len() == total_bytes / bytes_per_chunk,
    ensures
        value@ == bytes_of_chunks(chunks@, bytes_per_chunk as int),
{
    let ghost len: int = bytes_per_chunk as int;
    let n: usize = chunks.len();
    let mut bytes: [u8; 32] = [0u8; 32];
    proof {
        lemma_fundamental_div_mod(total_bytes as int, len);
        assert(n * len <= 32) by (nonlinear_arith)
            requires
                n == total_bytes / bytes_per_chunk,
                total_bytes == len * (total_bytes as int / len) + total_bytes as int % len,
                total_bytes as int % len >= 0,
                total_bytes <= 32,
                len == bytes_per_chunk,
        ;
    }
    let mut k: usize = 0;
    while k < n
        invariant
            len == bytes_per_chunk as int,
            0 < bytes_per_chunk <= 4,
            n == chunks@.len(),
            n * len <= 32,
            k <= n,
            forall|i: int|
                0 <= i < k * len ==> #[trigger] bytes@[i] as int == byte_at(
                    chunks@[i / len] as int,
                    i % len,
                ),
            forall|i: int| k * len <= i < 32 ==> #[trigger] bytes@[i] == 0,
        decreases n - k,
    {
        let mut rem: u32 = chunks[k];
        let mut j: u32 = 0;
        assert((k + 1) * len <= n * len) by (nonlinear_arith)
            requires
                k < n,
                len > 0,
        ;
        assert((k + 1) * len == k * len + len) by (nonlinear_arith);
        while j < bytes_per_chunk
            invariant
                len == bytes_per_chunk as int,
                0 < bytes_per_chunk <= 4,
                n == chunks@.len(),
                n * len <= 32,
                k < n,
                (k + 1) * len <= 32,
                (k + 1) * len == k * len + len,
                j <= bytes_per_chunk,
                forall|m: int|
                    m >= 0 ==> #[trigger] byte_at(rem as int, m) == byte_at(
                        chunks@[k as int] as int,
                        j + m,
                    ),
                forall|i: int|
                    0 <= i < k * len + j ==> #[trigger] bytes@[i] as int == byte_at(
                        chunks@[i / len] as int,
                        i % len,
                    ),
                forall|i: int| k * len + j <= i < 32 ==> #[trigger] bytes@[i] == 0,
            decreases bytes_per_chunk - j,
        {
            let at: usize = k * (bytes_per_chunk as usize) + j as usize;
            let ghost before = bytes@;
            bytes[at] = (rem % 256) as u8;
            proof {
                assert(byte_at(rem as int, 0) == rem % 256);
                assert forall|m: int| m >= 0 implies #[trigger] byte_at((rem / 256) as int, m)
                    == byte_at(chunks@[k as int] as int, j + 1 + m) by {
                    assert(byte_at(rem as int, m + 1) == byte_at(
                        chunks@[k as int] as int,
                        j + (m + 1),
                    ));
                }
                // position `at` belongs to chunk k, byte j
                assert(at as int / len == k && at as int % len == j) by {
                    vstd::arithmetic::div_mod::lemma_fundamental_div_mod_converse(
                        at as int,
                        len,
                        k as int,
                        j as int,
                    );
                }
                assert forall|i: int| 0 <= i < k * len + j + 1 implies #[trigger] bytes@[i] as int
                    == byte_at(chunks@[i / len] as int, i % len) by {
                    if i < at {
                        assert(bytes@[i] == before[i]);
                    }
                }
            }
            rem = rem / 256;
            j = j + 1;
        }
        k = k + 1;
    }
    let value: U256 = U256 { bytes };
    assert(value@ =~= bytes_of_chunks(chunks@, len));
    value
}

/// Cutting a value into chunks that cover all its 32 bytes and putting the
/// chunks together again gives the value back.
pub proof fn lemma_chunks_round_trip(bytes: Seq<u8>, chunks: Seq<u32>, count: int, len: int)
    requires
        bytes.len() == 32,
        0 < len,
        count * len == 32,
        ints_of(chunks) == chunks_of(bytes, count, len),
    ensures
        bytes_of_chunks(chunks, len) == bytes,
{
    let out = bytes_of_chunks(chunks, len);
    assert(count > 0) by (nonlinear_arith)
        requires
            count * len == 32,
            len > 0,
    ;
    assert(chunks.len() == count) by {
        assert(ints_of(chunks).len() == chunks.len());
        assert(chunks_of(bytes, count, len).len() == count);
    }
    assert forall|i: int| 0 <= i < 32 implies out[i] == bytes[i] by {
        let k: int = i / len;
        let j: int = i % len;
        lemma_fundamental_div_mod(i, len);
        vstd::arithmetic::div_mod::lemma_mod_bound(i, len);
        assert(0 <= k < count) by (nonlinear_arith)
            requires
                i == len * k + j,
                0 <= j < len,
                0 <= i < count * len,
                len > 0,
        ;
        assert(chunks[k] as int == ints_of(chunks)[k]);
        assert(chunks[k] as int == le_value(bytes, k * len, len));
        lemma_byte_of_le_value(bytes, k * len, len, j);
        assert(k * len == len * k) by (nonlinear_arith);
    }
    assert(out =~= bytes);
}

/// The vectors of a list, as sequences.
pub open spec fn rows2(v: Seq<Vec<u32>>) -> Seq<Seq<u32>> {
    Seq::new(v.len(), |j: int| v[j]@)
}

/// The vectors of a list of lists, as sequences.
pub open spec fn rows3(v: Seq<Vec<Vec<u32>>>) -> Seq<Seq<Seq<u32>>> {
    Seq::new(v.len(), |g: int| rows2(v[g]@))
}

/// The vectors of a list of lists of lists, as sequences.
pub open spec fn rows4(v: Seq<Vec<Vec<Vec<u32>>>>) -> Seq<Seq<Seq<Seq<u32>>>> {
    Seq::new(v.len(), |b: int| rows3(v[b]@))
}

} // verus!
