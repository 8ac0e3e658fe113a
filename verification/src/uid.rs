//! The user identifier as stored in the session: a 128-bit value encoded
//! as exactly sixteen little-endian bytes. The session store itself is an
//! outside concern; these are the pure encode and decode halves.

use vstd::prelude::*;

verus! {

/// The value of a little-endian byte string.
pub open spec fn le_value(b: Seq<u8>) -> int
    decreases b.len(),
{
    if b.len() == 0 {
        0
    } else {
        b[0] + 256 * le_value(b.drop_first())
    }
}

/// Powers of 256, the radix of the encoding.
pub open spec fn pow256(n: nat) -> int
    decreases n,
{
    if n == 0 {
        1
    } else {
        256 * pow256((n - 1) as nat)
    }
}

proof fn lemma_le_value_bound(b: Seq<u8>)
    ensures
        0 <= le_value(b) < pow256(b.len()),
    decreases b.len(),
{
    if b.len() > 0 {
        lemma_le_value_bound(b.drop_first());
    }
}

proof fn lemma_pow256_mono(a: nat, b: nat)
    requires
        a <= b,
    ensures
        pow256(a) <= pow256(b),
        pow256(a) >= 1,
    decreases b,
{
    if b > 0 {
        if a == b {
            lemma_pow256_mono((a - 1) as nat, (b - 1) as nat);
        } else {
            lemma_pow256_mono(a, (b - 1) as nat);
        }
    }
}

proof fn lemma_pow256_16()
    ensures
        pow256(16) == 0x1_0000_0000_0000_0000_0000_0000_0000_0000,
{
    assert(pow256(0) == 1);
    assert(pow256(1) == 256);
    assert(pow256(2) == 0x1_0000);
    assert(pow256(3) == 0x100_0000);
    assert(pow256(4) == 0x1_0000_0000);
    assert(pow256(5) == 0x100_0000_0000);
    assert(pow256(6) == 0x1_0000_0000_0000);
    assert(pow256(7) == 0x100_0000_0000_0000);
    assert(pow256(8) == 0x1_0000_0000_0000_0000);
    assert(pow256(9) == 0x100_0000_0000_0000_0000);
    assert(pow256(10) == 0x1_0000_0000_0000_0000_0000);
    assert(pow256(11) == 0x100_0000_0000_0000_0000_0000);
    assert(pow256(12) == 0x1_0000_0000_0000_0000_0000_0000);
    assert(pow256(13) == 0x100_0000_0000_0000_0000_0000_0000);
    assert(pow256(14) == 0x1_0000_0000_0000_0000_0000_0000_0000);
    assert(pow256(15) == 0x100_0000_0000_0000_0000_0000_0000_0000);
}

/// `le_value` over an appended byte: the byte weighs in at the radix power
/// of its position.
proof fn lemma_le_value_push(s: Seq<u8>, x: u8)
    ensures
        le_value(s.push(x)) == le_value(s) + pow256(s.len()) * x,
    decreases s.len(),
{
    if s.len() == 0 {
        assert(s.push(x).drop_first() =~= s);
    } else {
        assert(s.push(x).drop_first() =~= s.drop_first().push(x));
        lemma_le_value_push(s.drop_first(), x);
        assert(le_value(s.push(x)) == s[0] + 256 * (le_value(s.drop_first()) + pow256(
            (s.len() - 1) as nat,
        ) * x));
        assert(256 * (le_value(s.drop_first()) + pow256((s.len() - 1) as nat) * x) == 256
            * le_value(s.drop_first()) + 256 * (pow256((s.len() - 1) as nat) * x))
            by (nonlinear_arith);
        assert(256 * (pow256((s.len() - 1) as nat) * x) == (256 * pow256((s.len() - 1) as nat))
            * x) by (nonlinear_arith);
    }
}

/// Decodes a stored identifier: sixteen little-endian bytes give back the
/// value, any other length is rejected.
pub fn uid_from_bytes(b: &Vec<u8>) -> (r: Option<u128>)
    ensures
        b@.len() == 16 ==> (r matches Some(u) && u == le_value(b@)),
        b@.len() != 16 ==> r is None,
{
    if b.len() != 16 {
        return None;
    }
    proof {
        lemma_pow256_16();
    }
    let mut acc: u128 = 0;
    let mut i: usize = 16;
    while i > 0
        invariant
            i <= 16,
            b@.len() == 16,
            acc == le_value(b@.skip(i as int)),
            pow256(16) == 0x1_0000_0000_0000_0000_0000_0000_0000_0000,
        decreases i,
    {
        proof {
            lemma_le_value_bound(b@.skip(i as int));
            lemma_pow256_mono((16 - i) as nat, 15);
            assert(256 * le_value(b@.skip(i as int)) <= 256 * (pow256(15) - 1))
                by (nonlinear_arith)
                requires
                    le_value(b@.skip(i as int)) <= pow256(15) - 1,
            ;
            assert(256 * pow256(15) == pow256(16));
        }
        i -= 1;
        let byte = b[i];
        proof {
            assert(b@.skip(i as int).drop_first() =~= b@.skip(i + 1));
            assert(b@.skip(i as int)[0] == b@[i as int]);
        }
        acc = acc * 256 + (byte as u128);
    }
    proof {
        assert(b@.skip(0) =~= b@);
    }
    Some(acc)
}

/// Encodes an identifier for the session: exactly sixteen little-endian
/// bytes whose value is the identifier again.
pub fn uid_to_bytes(uid: u128) -> (r: Vec<u8>)
    ensures
        r@.len() == 16,
        le_value(r@) == uid,
{
    proof {
        lemma_pow256_16();
    }
    let mut v: Vec<u8> = Vec::new();
    let mut x: u128 = uid;
    let mut i: usize = 0;
    while i < 16
        invariant
            i <= 16,
            v@.len() == i,
            uid == le_value(v@) + pow256(i as nat) * x,
            pow256(16) == 0x1_0000_0000_0000_0000_0000_0000_0000_0000,
        decreases 16 - i,
    {
        let byte = (x % 256) as u8;
        proof {
            lemma_le_value_push(v@, byte);
            lemma_pow256_mono(i as nat, 16);
            assert(pow256(i as nat) * x == pow256(i as nat) * byte + pow256((i + 1) as nat) * (x
                / 256)) by (nonlinear_arith)
                requires
                    x >= 0,
                    byte == x % 256,
                    pow256((i + 1) as nat) == 256 * pow256(i as nat),
            ;
        }
        v.push(byte);
        x = x / 256;
        i += 1;
    }
    proof {
        lemma_le_value_bound(v@);
        assert(x == 0) by (nonlinear_arith)
            requires
                uid == le_value(v@) + pow256(16) * x,
                0 <= le_value(v@) < pow256(16),
                pow256(16) == 0x1_0000_0000_0000_0000_0000_0000_0000_0000,
                0 <= uid < pow256(16),
                x >= 0,
        ;
    }
    v
}

} // verus!
