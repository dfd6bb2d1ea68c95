//! Byte layouts of integers, and the leaf patterns and byte operations that
//! go with them.

use vstd::prelude::*;

verus! {

/// Byte `j` of `x`, counting from the least significant one.
pub open spec fn byte_of(x: u64, j: int) -> u8
    decreases j,
{
    if j <= 0 {
        (x % 256) as u8
    } else {
        byte_of(x / 256, j - 1)
    }
}

/// Moving one byte along is dividing by 256.
proof fn lemma_byte_of_shift(x: u64, j: int)
    requires
        j >= 0,
    ensures
        byte_of(x / 256, j) == byte_of(x, j + 1),
{
}

/// The eight bytes of `x`, most significant first.
pub open spec fn u64_be_bytes(x: u64) -> Seq<u8> {
    Seq::new(8, |i: int| byte_of(x, 7 - i))
}

/// The 32-byte leaf numbered `i`: its eight low bytes hold `i`, least
/// significant first, and the rest are zero.
pub open spec fn leaf_pattern(i: u64) -> Seq<u8> {
    Seq::new(32, |j: int| if j < 8 { byte_of(i, j as int) } else { 0u8 })
}

/// The eight bytes of `x`, most significant first.
pub fn transform_u64_to_array_of_u8(x: u64) -> (r: [u8; 8])
    ensures
        r@ == u64_be_bytes(x),
{
    let mut r = [0u8; 8];
    let mut v: u64 = x;
    let mut j: usize = 0;
    while j < 8
        invariant
            0 <= j <= 8,
            forall|t: int| t >= 0 ==> #[trigger] byte_of(v, t) == byte_of(x, j + t),
            forall|i: int| 8 - j <= i < 8 ==> r@[i] == byte_of(x, 7 - i),
        decreases 8 - j,
    {
        proof {
            assert(byte_of(v, 0) == byte_of(x, j as int + 0));
            assert forall|t: int| t >= 0 implies #[trigger] byte_of(v / 256, t) == byte_of(x, (j + 1) + t) by {
                lemma_byte_of_shift(v, t);
                assert(byte_of(v, t + 1) == byte_of(x, j + (t + 1)));
            }
        }
        r[7 - j] = (v % 256) as u8;
        v = v / 256;
        j = j + 1;
    }
    assert(r@ =~= u64_be_bytes(x));
    r
}

/// The leaf pattern of `i`.
fn leaf_bytes(i: u64) -> (r: [u8; 32])
    ensures
        r@ == leaf_pattern(i),
{
    let mut r = [0u8; 32];
    let mut v: u64 = i;
    let mut j: usize = 0;
    while j < 8
        invariant
            0 <= j <= 8,
            forall|t: int| t >= 0 ==> #[trigger] byte_of(v, t) == byte_of(i, j + t),
            forall|k: int| 0 <= k < j ==> r@[k] == byte_of(i, k),
            forall|k: int| 8 <= k < 32 ==> r@[k] == 0u8,
        decreases 8 - j,
    {
        proof {
            assert(byte_of(v, 0) == byte_of(i, j as int + 0));
            assert forall|t: int| t >= 0 implies #[trigger] byte_of(v / 256, t) == byte_of(i, (j + 1) + t) by {
                lemma_byte_of_shift(v, t);
                assert(byte_of(v, t + 1) == byte_of(i, j + (t + 1)));
            }
        }
        r[j] = (v % 256) as u8;
        v = v / 256;
        j = j + 1;
    }
    assert(r@ =~= leaf_pattern(i));
    r
}

/// The leaves numbered `0` to `n - 1`, in order.
pub fn init_bytes_vec(n: usize) -> (r: Vec<[u8; 32]>)
    ensures
        r@.len() == n,
        forall|i: int| 0 <= i < n ==> (#[trigger] r@[i])@ == leaf_pattern(i as u64),
{
    let mut r: Vec<[u8; 32]> = Vec::new();
    let mut i: usize = 0;
    while i < n
        invariant
            0 <= i <= n,
            r@.len() == i,
            forall|k: int| 0 <= k < i ==> (#[trigger] r@[k])@ == leaf_pattern(k as u64),
        decreases n - i,
    {
        r.push(leaf_bytes(i as u64));
        i = i + 1;
    }
    r
}

/// The bytewise exclusive or of two digests.
pub fn bitxor(a: &[u8; 32], b: &[u8; 32]) -> (r: [u8; 32])
    ensures
        forall|i: int| 0 <= i < 32 ==> #[trigger] r@[i] == a@[i] ^ b@[i],
{
    let mut r = [0u8; 32];
    let mut i: usize = 0;
    while i < 32
        invariant
            0 <= i <= 32,
            forall|k: int| 0 <= k < i ==> #[trigger] r@[k] == a@[k] ^ b@[k],
        decreases 32 - i,
    {
        r[i] = a[i] ^ b[i];
        i = i + 1;
    }
    r
}

} // verus!
