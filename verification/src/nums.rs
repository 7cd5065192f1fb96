//! Integers written as little-endian limbs, bytes and bits.
use vstd::arithmetic::div_mod::*;
use vstd::arithmetic::mul::*;
use vstd::prelude::*;

verus! {

/// The integer with the given little-endian 64-bit limbs.
pub open spec fn limbs_val(s: Seq<u64>) -> int
    decreases s.len(),
{
    if s.len() == 0 {
        0
    } else {
        s[0] as int + 0x1_0000_0000_0000_0000 * limbs_val(s.skip(1))
    }
}

/// The integer with the given little-endian bytes.
pub open spec fn bytes_val(s: Seq<u8>) -> int
    decreases s.len(),
{
    if s.len() == 0 {
        0
    } else {
        s[0] as int + 256 * bytes_val(s.skip(1))
    }
}

/// The integer with the given binary digits, least significant first.
pub open spec fn bits_val(s: Seq<bool>) -> int
    decreases s.len(),
{
    if s.len() == 0 {
        0
    } else {
        (if s[0] {
            1int
        } else {
            0int
        }) + 2 * bits_val(s.skip(1))
    }
}

/// The low `k` bytes of a number, least significant first.
pub open spec fn le_bytes(n: int, k: nat) -> Seq<u8>
    decreases k,
{
    if k == 0 {
        Seq::empty()
    } else {
        seq![(n % 256) as u8] + le_bytes(n / 256, (k - 1) as nat)
    }
}

/// `base^n`.
pub open spec fn pow(base: int, n: nat) -> int
    decreases n,
{
    if n == 0 {
        1
    } else {
        base * pow(base, (n - 1) as nat)
    }
}

pub proof fn lemma_pow_pos(base: int, n: nat)
    requires
        base > 0,
    ensures
        pow(base, n) > 0,
    decreases n,
{
    if n > 0 {
        lemma_pow_pos(base, (n - 1) as nat);
        lemma_mul_strictly_positive(base, pow(base, (n - 1) as nat));
    }
}

pub proof fn lemma_pow_add(base: int, m: nat, n: nat)
    ensures
        pow(base, m + n) == pow(base, m) * pow(base, n),
    decreases m,
{
    if m > 0 {
        lemma_pow_add(base, (m - 1) as nat, n);
        assert((m + n - 1) as nat == (m - 1) as nat + n);
        lemma_mul_is_associative(base, pow(base, (m - 1) as nat), pow(base, n));
    }
}

pub proof fn lemma_bytes_bound(s: Seq<u8>)
    ensures
        0 <= bytes_val(s) < pow(256, s.len()),
    decreases s.len(),
{
    if s.len() > 0 {
        lemma_bytes_bound(s.skip(1));
    }
}

pub proof fn lemma_bits_bound(s: Seq<bool>)
    ensures
        0 <= bits_val(s) < pow(2, s.len()),
    decreases s.len(),
{
    if s.len() > 0 {
        lemma_bits_bound(s.skip(1));
    }
}

/// Four limbs spelt out.
pub proof fn lemma_limbs4(s: Seq<u64>)
    requires
        s.len() == 4,
    ensures
        limbs_val(s) == s[0] + 0x1_0000_0000_0000_0000 * s[1]
            + 0x1_0000_0000_0000_0000_0000_0000_0000_0000int * s[2]
            + 0x1_0000_0000_0000_0000_0000_0000_0000_0000_0000_0000_0000_0000int * s[3],
        0 <= limbs_val(s)
            < 0x1_0000_0000_0000_0000_0000_0000_0000_0000_0000_0000_0000_0000_0000_0000_0000_0000int,
{
    let b: int = 0x1_0000_0000_0000_0000;
    let s1 = s.skip(1);
    let s2 = s1.skip(1);
    let s3 = s2.skip(1);
    reveal_with_fuel(limbs_val, 5);
    assert(s3.skip(1).len() == 0);
    assert(s1[0] == s[1] && s2[0] == s[2] && s3[0] == s[3]);
    assert(limbs_val(s3) == s[3] as int);
}

/// Strings of bytes of one length are equal where their values are.
pub proof fn lemma_bytes_unique(s: Seq<u8>, t: Seq<u8>)
    requires
        s.len() == t.len(),
        bytes_val(s) == bytes_val(t),
    ensures
        s == t,
    decreases s.len(),
{
    if s.len() > 0 {
        let (x, y) = (bytes_val(s.skip(1)), bytes_val(t.skip(1)));
        assert(s[0] == t[0] && x == y) by {
            assert(s[0] + 256 * x == t[0] + 256 * y);
        }
        lemma_bytes_unique(s.skip(1), t.skip(1));
        assert(s =~= seq![s[0]] + s.skip(1));
        assert(t =~= seq![t[0]] + t.skip(1));
    } else {
        assert(s =~= t);
    }
}

/// Limbs of one length are equal where their values are.
pub proof fn lemma_limbs_unique(s: Seq<u64>, t: Seq<u64>)
    requires
        s.len() == t.len(),
        limbs_val(s) == limbs_val(t),
    ensures
        s == t,
    decreases s.len(),
{
    if s.len() > 0 {
        let (x, y) = (limbs_val(s.skip(1)), limbs_val(t.skip(1)));
        assert(s[0] == t[0] && x == y) by {
            assert(s[0] + 0x1_0000_0000_0000_0000 * x == t[0] + 0x1_0000_0000_0000_0000 * y);
        }
        lemma_limbs_unique(s.skip(1), t.skip(1));
        assert(s =~= seq![s[0]] + s.skip(1));
        assert(t =~= seq![t[0]] + t.skip(1));
    } else {
        assert(s =~= t);
    }
}

/// The value of a string of bytes from those of its two parts.
pub proof fn lemma_bytes_split(s: Seq<u8>, n: int)
    requires
        0 <= n <= s.len(),
    ensures
        bytes_val(s) == bytes_val(s.take(n)) + pow(256, n as nat) * bytes_val(s.skip(n)),
    decreases n,
{
    if n > 0 {
        lemma_bytes_split(s.skip(1), n - 1);
        assert(s.skip(1).take(n - 1) =~= s.take(n).skip(1));
        assert(s.skip(1).skip(n - 1) =~= s.skip(n));
        let k = pow(256, (n - 1) as nat);
        let rest = bytes_val(s.skip(n));
        lemma_mul_is_associative(256, k, rest);
        lemma_mul_is_distributive_add(256, bytes_val(s.take(n).skip(1)), k * rest);
    } else {
        assert(s.skip(0) =~= s);
    }
}

/// The value of a list of binary digits from those of its two parts.
pub proof fn lemma_bits_split(s: Seq<bool>, n: int)
    requires
        0 <= n <= s.len(),
    ensures
        bits_val(s) == bits_val(s.take(n)) + pow(2, n as nat) * bits_val(s.skip(n)),
    decreases n,
{
    if n > 0 {
        lemma_bits_split(s.skip(1), n - 1);
        assert(s.skip(1).take(n - 1) =~= s.take(n).skip(1));
        assert(s.skip(1).skip(n - 1) =~= s.skip(n));
        let k = pow(2, (n - 1) as nat);
        let rest = bits_val(s.skip(n));
        lemma_mul_is_associative(2, k, rest);
        lemma_mul_is_distributive_add(2, bits_val(s.take(n).skip(1)), k * rest);
    } else {
        assert(s.skip(0) =~= s);
    }
}

/// A list of zeros has value zero, and no other has.
pub proof fn lemma_bytes_zero(s: Seq<u8>)
    ensures
        (bytes_val(s) == 0) == (forall|i: int| 0 <= i < s.len() ==> s[i] == 0),
    decreases s.len(),
{
    if s.len() > 0 {
        lemma_bytes_zero(s.skip(1));
        lemma_bytes_bound(s.skip(1));
        if bytes_val(s) == 0 {
            assert forall|i: int| 0 <= i < s.len() implies s[i] == 0 by {
                if i > 0 {
                    assert(s.skip(1)[i - 1] == s[i]);
                }
            }
        }
        if forall|i: int| 0 <= i < s.len() ==> s[i] == 0 {
            assert forall|i: int| 0 <= i < s.skip(1).len() implies s.skip(1)[i] == 0 by {
                assert(s.skip(1)[i] == s[i + 1]);
            }
        }
    }
}

/// `2^64`, `2^128` and `2^256` as numbers.
pub proof fn lemma_pow256()
    ensures
        pow(256, 16) == 0x1_0000_0000_0000_0000_0000_0000_0000_0000int,
        pow(256, 32)
            == 0x1_0000_0000_0000_0000_0000_0000_0000_0000_0000_0000_0000_0000_0000_0000_0000_0000int,
{
    assert(pow(256, 8) == 0x1_0000_0000_0000_0000int) by {
        reveal_with_fuel(pow, 9);
    }
    lemma_pow_add(256, 8, 8);
    lemma_pow_add(256, 16, 16);
    assert(0x1_0000_0000_0000_0000_0000_0000_0000_0000int * 0x1_0000_0000_0000_0000_0000_0000_0000_0000int
        == 0x1_0000_0000_0000_0000_0000_0000_0000_0000_0000_0000_0000_0000_0000_0000_0000_0000int);
}

/// Sums, differences, products and negations of remainders.
pub proof fn lemma_mod_ops(x: int, y: int, m: int)
    requires
        m > 0,
    ensures
        (x % m + y % m) % m == (x + y) % m,
        (x % m - y % m) % m == (x - y) % m,
        ((x % m) * (y % m)) % m == (x * y) % m,
        ((x % m) * y) % m == (x * y) % m,
        (x * (y % m)) % m == (x * y) % m,
        (-(x % m)) % m == (-x) % m,
        (x % m) % m == x % m,
        (x % m + y) % m == (x + y) % m,
        (x + y % m) % m == (x + y) % m,
        ((x + y) % m) % m == (x + y) % m,
        ((x * y) % m) % m == (x * y) % m,
        ((-x) % m) % m == (-x) % m,
{
    lemma_add_mod_noop(x, y, m);
    lemma_sub_mod_noop(x, y, m);
    lemma_mul_mod_noop(x, y, m);
    lemma_mul_mod_noop_left(x, y, m);
    lemma_mul_mod_noop_right(x, y, m);
    lemma_sub_mod_noop(0, x, m);
    lemma_small_mod(0, m as nat);
    lemma_mod_twice(x, m);
    lemma_mod_twice(x + y, m);
    lemma_mod_twice(x * y, m);
    lemma_mod_twice(-x, m);
    lemma_add_mod_noop(x % m, y, m);
    lemma_add_mod_noop(x, y % m, m);
    lemma_mod_twice(y, m);
    assert(0 - x % m == -(x % m));
    assert(0 - x == -x);
}

/// The low bytes of a number that they can hold have its value.
pub proof fn lemma_le_bytes(n: int, k: nat)
    requires
        0 <= n < pow(256, k),
    ensures
        le_bytes(n, k).len() == k,
        bytes_val(le_bytes(n, k)) == n,
    decreases k,
{
    if k > 0 {
        let q = pow(256, (k - 1) as nat);
        assert(n / 256 < q) by {
            assert(pow(256, k) == 256 * q);
        }
        lemma_le_bytes(n / 256, (k - 1) as nat);
        let s = le_bytes(n, k);
        assert(s.skip(1) =~= le_bytes(n / 256, (k - 1) as nat));
        assert(s[0] == (n % 256) as u8);
    }
}

/// A number of `k` bytes takes `k` bytes.
pub proof fn lemma_le_bytes_len(n: int, k: nat)
    ensures
        le_bytes(n, k).len() == k,
    decreases k,
{
    if k > 0 {
        lemma_le_bytes_len(n / 256, (k - 1) as nat);
    }
}

/// Bytes appended on top.
pub proof fn lemma_bytes_append(s: Seq<u8>, t: Seq<u8>)
    ensures
        bytes_val(s + t) == bytes_val(s) + pow(256, s.len()) * bytes_val(t),
{
    lemma_bytes_split(s + t, s.len() as int);
    assert((s + t).take(s.len() as int) =~= s);
    assert((s + t).skip(s.len() as int) =~= t);
}

/// A limb appended on top.
pub proof fn lemma_limbs_append(s: Seq<u64>, l: u64)
    ensures
        limbs_val(s.push(l)) == limbs_val(s) + pow(0x1_0000_0000_0000_0000, s.len()) * l,
    decreases s.len(),
{
    if s.len() == 0 {
        reveal_with_fuel(limbs_val, 2);
        assert(s.push(l).skip(1).len() == 0);
    } else {
        lemma_limbs_append(s.skip(1), l);
        assert(s.push(l).skip(1) =~= s.skip(1).push(l));
        let q = pow(0x1_0000_0000_0000_0000, s.skip(1).len());
        lemma_mul_is_associative(0x1_0000_0000_0000_0000, q, l as int);
        lemma_mul_is_distributive_add(0x1_0000_0000_0000_0000, limbs_val(s.skip(1)), q * l);
    }
}

/// `256^(8k) = (2^64)^k`.
pub proof fn lemma_pow_limbs(k: nat)
    ensures
        pow(256, 8 * k) == pow(0x1_0000_0000_0000_0000, k),
    decreases k,
{
    if k > 0 {
        lemma_pow_limbs((k - 1) as nat);
        assert(8 * k == 8 + 8 * (k - 1) as nat);
        lemma_pow_add(256, 8, 8 * (k - 1) as nat);
        assert(pow(256, 8) == 0x1_0000_0000_0000_0000int) by {
            reveal_with_fuel(pow, 9);
        }
    }
}

} // verus!
