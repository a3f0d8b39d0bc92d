//! Addresses as big-endian byte sequences, and their integer values.

use vstd::prelude::*;

verus! {

/// The integer that a big-endian byte sequence denotes.
pub open spec fn be_value(s: Seq<u8>) -> nat
    decreases s.len(),
{
    if s.len() == 0 {
        0
    } else {
        be_value(s.drop_last()) * 256 + s.last() as nat
    }
}

/// `256` to the power `n`: the number of distinct byte sequences of length `n`.
pub open spec fn pow256(n: nat) -> nat
    decreases n,
{
    if n == 0 {
        1
    } else {
        256 * pow256((n - 1) as nat)
    }
}

/// A sequence of `n` bytes that are all `b`.
pub open spec fn filled(n: nat, b: u8) -> Seq<u8> {
    Seq::new(n, |i: int| b)
}

pub proof fn lemma_pow256_positive(n: nat)
    ensures
        pow256(n) >= 1,
    decreases n,
{
    if n > 0 {
        lemma_pow256_positive((n - 1) as nat);
    }
}

pub proof fn lemma_pow256_monotone(a: nat, b: nat)
    requires
        a <= b,
    ensures
        pow256(a) <= pow256(b),
    decreases b,
{
    if a < b {
        lemma_pow256_monotone(a, (b - 1) as nat);
        lemma_pow256_positive((b - 1) as nat);
    }
}

pub proof fn lemma_pow256_family_sizes()
    ensures
        pow256(4) == 0x1_0000_0000,
        pow256(16) == 0x1_0000_0000_0000_0000_0000_0000_0000_0000,
{
    reveal_with_fuel(pow256, 17);
}

/// A value is below `256` to the power of the length.
pub proof fn lemma_be_value_bound(s: Seq<u8>)
    ensures
        be_value(s) < pow256(s.len()),
    decreases s.len(),
{
    if s.len() > 0 {
        let p = s.drop_last();
        lemma_be_value_bound(p);
        let x = be_value(p);
        let q = pow256(p.len());
        assert(x * 256 + (s.last() as nat) < 256 * q) by (nonlinear_arith)
            requires
                x < q,
                s.last() < 256,
        ;
    }
}

/// The value of a concatenation.
pub proof fn lemma_be_value_concat(a: Seq<u8>, b: Seq<u8>)
    ensures
        be_value(a + b) == be_value(a) * pow256(b.len()) + be_value(b),
    decreases b.len(),
{
    if b.len() == 0 {
        assert(a + b =~= a);
        assert(pow256(0) == 1);
        assert(be_value(b) == 0);
    } else {
        let b0 = b.drop_last();
        assert((a + b).drop_last() =~= a + b0);
        assert((a + b).last() == b.last());
        lemma_be_value_concat(a, b0);
        assert(pow256(b.len()) == 256 * pow256(b0.len()));
        assert(be_value(a + b) == be_value(a + b0) * 256 + b.last() as nat);
        assert(be_value(b) == be_value(b0) * 256 + b.last() as nat);
        let x = be_value(a);
        let q = pow256(b0.len());
        let y = be_value(b0);
        assert((x * q + y) * 256 + b.last() as nat == x * (256 * q) + (y * 256 + b.last() as nat))
            by (nonlinear_arith);
    }
}

pub proof fn lemma_be_value_zeros(n: nat)
    ensures
        be_value(filled(n, 0)) == 0,
    decreases n,
{
    if n > 0 {
        assert(filled(n, 0).drop_last() =~= filled((n - 1) as nat, 0));
        lemma_be_value_zeros((n - 1) as nat);
    }
}

pub proof fn lemma_be_value_all_max(n: nat)
    ensures
        be_value(filled(n, 255)) + 1 == pow256(n),
    decreases n,
{
    if n > 0 {
        assert(filled(n, 255).drop_last() =~= filled((n - 1) as nat, 255));
        lemma_be_value_all_max((n - 1) as nat);
    }
}

/// An IP address as its octets in network order: four for IPv4, sixteen for IPv6.
#[derive(Clone, Debug, PartialEq, Eq, Hash)]
pub struct IpAddr {
    pub octets: Vec<u8>,
}

impl IpAddr {
    /// The address has the length of one of the two families.
    pub open spec fn wf(&self) -> bool {
        self.octets@.len() == 4 || self.octets@.len() == 16
    }

    /// The address as an integer.
    pub open spec fn value(&self) -> nat {
        be_value(self.octets@)
    }

    /// The IPv4 address `a.b.c.d`.
    pub fn v4(a: u8, b: u8, c: u8, d: u8) -> (r: IpAddr)
        ensures
            r.octets@ == seq![a, b, c, d],
            r.wf(),
    {
        let r = IpAddr { octets: vec![a, b, c, d] };
        assert(r.octets@ =~= seq![a, b, c, d]);
        r
    }

    /// An address from its octets, if there are four or sixteen of them.
    pub fn from_octets(octets: Vec<u8>) -> (r: Option<IpAddr>)
        ensures
            r.is_some() <==> (octets@.len() == 4 || octets@.len() == 16),
            r.is_some() ==> r.unwrap().octets@ == octets@,
    {
        if octets.len() == 4 || octets.len() == 16 {
            Some(IpAddr { octets })
        } else {
            None
        }
    }

    /// Whether this is an IPv4 address.
    pub fn is_ipv4(&self) -> (r: bool)
        ensures
            r == (self.octets@.len() == 4),
    {
        self.octets.len() == 4
    }

    /// The address as an integer.
    pub fn to_u128(&self) -> (r: u128)
        requires
            self.wf(),
        ensures
            r == self.value(),
    {
        let n = self.octets.len();
        let mut v: u128 = 0;
        let mut i: usize = 0;
        proof {
            lemma_pow256_family_sizes();
            lemma_pow256_monotone(n as nat, 16);
        }
        while i < n
            invariant
                n == self.octets@.len(),
                n <= 16,
                i <= n,
                pow256(n as nat) <= pow256(16),
                pow256(16) == 0x1_0000_0000_0000_0000_0000_0000_0000_0000,
                v == be_value(self.octets@.take(i as int)),
            decreases n - i,
        {
            let ghost prefix = self.octets@.take(i as int + 1);
            proof {
                assert(prefix.drop_last() =~= self.octets@.take(i as int));
                lemma_be_value_bound(prefix);
                lemma_pow256_monotone((i + 1) as nat, n as nat);
            }
            v = v * 256 + self.octets[i] as u128;
            i = i + 1;
        }
        assert(self.octets@.take(n as int) =~= self.octets@);
        v
    }

    /// The address of `len` octets whose integer is `v`.
    pub fn from_u128(v: u128, len: usize) -> (r: IpAddr)
        requires
            len == 4 || len == 16,
            v < pow256(len as nat),
        ensures
            r.octets@.len() == len,
            r.value() == v,
    {
        let mut octets: Vec<u8> = Vec::new();
        let mut z: usize = 0;
        while z < len
            invariant
                z <= len,
                octets@ == filled(z as nat, 0),
            decreases len - z,
        {
            octets.push(0);
            z = z + 1;
            assert(octets@ =~= filled(z as nat, 0));
        }
        let mut rest: u128 = v;
        let mut k: usize = 0;
        proof {
            assert(octets@.skip(len as int) =~= Seq::<u8>::empty());
            assert(be_value(Seq::<u8>::empty()) == 0);
            assert(pow256(0) == 1);
        }
        while k < len
            invariant
                k <= len,
                octets@.len() == len,
                octets@.take(len - k) == filled((len - k) as nat, 0),
                v == be_value(octets@.skip(len - k)) + rest * pow256(k as nat),
            decreases len - k,
        {
            let ghost old_octets = octets@;
            let ghost old_rest = rest as nat;
            let i = len - 1 - k;
            octets.set(i, (rest % 256) as u8);
            rest = rest / 256;
            proof {
                let tail = old_octets.skip(len - k);
                assert(octets@.skip(i as int) =~= seq![(old_rest % 256) as u8] + tail);
                lemma_be_value_concat(seq![(old_rest % 256) as u8], tail);
                assert(be_value(seq![(old_rest % 256) as u8]) == old_rest % 256) by {
                    assert(seq![(old_rest % 256) as u8].drop_last() =~= Seq::<u8>::empty());
                    reveal_with_fuel(be_value, 2);
                }
                assert(octets@.take(i as int) =~= old_octets.take(i as int));
                assert(old_octets.take(i as int) =~= old_octets.take(len - k).take(i as int));
                assert(octets@.take(len - (k + 1)) =~= filled((len - (k + 1)) as nat, 0));
                let p = pow256(k as nat);
                assert(pow256((k + 1) as nat) == 256 * p);
                assert(old_rest * p == (old_rest % 256) * p + (old_rest / 256) * (256 * p))
                    by (nonlinear_arith);
            }
            k = k + 1;
        }
        proof {
            assert(octets@.skip(0) =~= octets@);
            lemma_be_value_bound(octets@);
            lemma_pow256_positive(len as nat);
            if rest > 0 {
                assert(rest * pow256(len as nat) >= pow256(len as nat)) by (nonlinear_arith)
                    requires
                        rest >= 1,
                ;
            }
        }
        IpAddr { octets }
    }
}

} // verus!
