//! Identifiers, their XOR distance, network addresses and nodes.

use vstd::prelude::*;

verus! {

/// Number of bytes in an identifier.
pub const ID_SIZE: usize = 20;

/// A point in the DHT keyspace: 160 bits, compared by XOR distance.
#[derive(Clone, Copy, Debug, PartialEq, Eq)]
pub struct Id {
    pub bytes: [u8; 20],
}

impl View for Id {
    type V = Seq<u8>;

    open spec fn view(&self) -> Seq<u8> {
        self.bytes@
    }
}

/// Big-endian value of the first `n` bytes of `s`.
pub open spec fn prefix_value(s: Seq<u8>, n: nat) -> nat
    decreases n,
{
    if n == 0 {
        0
    } else {
        prefix_value(s, (n - 1) as nat) * 256 + s[n - 1] as nat
    }
}

/// Bytewise XOR of two byte sequences of equal length.
pub open spec fn xor_bytes(a: Seq<u8>, b: Seq<u8>) -> Seq<u8> {
    Seq::new(a.len(), |i: int| a[i] ^ b[i])
}

/// XOR distance between two identifiers, read as a 160-bit unsigned number.
pub open spec fn distance(a: Id, b: Id) -> nat {
    prefix_value(xor_bytes(a@, b@), 20)
}

proof fn lemma_prefix_equal(s: Seq<u8>, t: Seq<u8>, n: nat)
    requires
        n <= s.len(),
        n <= t.len(),
        forall|j: int| 0 <= j < n ==> s[j] == t[j],
    ensures
        prefix_value(s, n) == prefix_value(t, n),
    decreases n,
{
    if n > 0 {
        lemma_prefix_equal(s, t, (n - 1) as nat);
    }
}

proof fn lemma_prefix_less_extends(s: Seq<u8>, t: Seq<u8>, k: nat, n: nat)
    requires
        k <= n,
        n <= s.len(),
        n <= t.len(),
        prefix_value(s, k) < prefix_value(t, k),
    ensures
        prefix_value(s, n) < prefix_value(t, n),
    decreases n - k,
{
    if k < n {
        let a = prefix_value(s, k);
        let b = prefix_value(t, k);
        let x = s[k as int] as nat;
        let y = t[k as int] as nat;
        assert(a * 256 + x < b * 256 + y) by (nonlinear_arith)
            requires
                a < b,
                x < 256,
        ;
        lemma_prefix_less_extends(s, t, k + 1, n);
    }
}

proof fn lemma_prefix_injective(s: Seq<u8>, t: Seq<u8>, n: nat)
    requires
        n <= s.len(),
        n <= t.len(),
        prefix_value(s, n) == prefix_value(t, n),
    ensures
        forall|j: int| 0 <= j < n ==> s[j] == t[j],
    decreases n,
{
    if n > 0 {
        let a = prefix_value(s, (n - 1) as nat);
        let b = prefix_value(t, (n - 1) as nat);
        let x = s[n - 1] as nat;
        let y = t[n - 1] as nat;
        assert(a == b && x == y) by (nonlinear_arith)
            requires
                a * 256 + x == b * 256 + y,
                x < 256,
                y < 256,
        ;
        lemma_prefix_injective(s, t, (n - 1) as nat);
    }
}

/// Distinct identifiers lie at distinct distances from any target.
pub proof fn lemma_distance_injective(target: Id, a: Id, b: Id)
    requires
        distance(target, a) == distance(target, b),
    ensures
        a@ == b@,
{
    let xa = xor_bytes(target@, a@);
    let xb = xor_bytes(target@, b@);
    lemma_prefix_injective(xa, xb, 20);
    assert forall|j: int| 0 <= j < 20 implies a@[j] == b@[j] by {
        let t = target@[j];
        let p = a@[j];
        let q = b@[j];
        assert(xa[j] == t ^ p);
        assert(xb[j] == t ^ q);
        assert((t ^ p) == (t ^ q) ==> p == q) by (bit_vector);
    }
    assert(a@ =~= b@);
}

impl Id {
    /// An identifier with the given bytes, most significant first.
    pub fn from_bytes(bytes: [u8; 20]) -> (r: Id)
        ensures
            r@ == bytes@,
    {
        Id { bytes }
    }

    /// Whether the two identifiers hold the same bytes.
    pub fn same_as(&self, other: &Id) -> (r: bool)
        ensures
            r == (self@ == other@),
    {
        let mut i: usize = 0;
        while i < ID_SIZE
            invariant
                i <= 20,
                self@.len() == 20,
                other@.len() == 20,
                forall|j: int| 0 <= j < i ==> self@[j] == other@[j],
            decreases 20 - i,
        {
            if self.bytes[i] != other.bytes[i] {
                return false;
            }
            i += 1;
        }
        assert(self@ =~= other@);
        true
    }

    /// Whether `a` is strictly closer to `self` than `b` is.
    pub fn closer(&self, a: &Id, b: &Id) -> (r: bool)
        ensures
            r == (distance(*self, *a) < distance(*self, *b)),
    {
        let ghost xa = xor_bytes(self@, a@);
        let ghost xb = xor_bytes(self@, b@);
        let mut i: usize = 0;
        while i < ID_SIZE
            invariant
                i <= 20,
                self@.len() == 20,
                xa.len() == 20,
                xb.len() == 20,
                xa == xor_bytes(self@, a@),
                xb == xor_bytes(self@, b@),
                forall|j: int| 0 <= j < i ==> xa[j] == xb[j],
            decreases 20 - i,
        {
            let x: u8 = self.bytes[i] ^ a.bytes[i];
            let y: u8 = self.bytes[i] ^ b.bytes[i];
            assert(x == xa[i as int] && y == xb[i as int]);
            if x != y {
                proof {
                    lemma_prefix_equal(xa, xb, i as nat);
                    if x < y {
                        lemma_prefix_less_extends(xa, xb, (i + 1) as nat, 20);
                    } else {
                        lemma_prefix_less_extends(xb, xa, (i + 1) as nat, 20);
                    }
                }
                return x < y;
            }
            i += 1;
        }
        proof {
            lemma_prefix_equal(xa, xb, 20);
        }
        false
    }
}

/// A UDP endpoint of a remote participant.
#[derive(Clone, Copy, Debug, PartialEq, Eq, Structural)]
pub enum Address {
    V4 { ipv4: u32, port: u16 },
    V6 { ipv6: u128, port: u16 },
}

impl Address {
    /// Whether requests can be sent to this address: only IPv4 is handled so far.
    pub open spec fn supported(self) -> bool {
        self is V4
    }

    /// Whether this is an IPv6 address.
    pub fn is_ipv6(&self) -> (r: bool)
        ensures
            r == (*self is V6),
    {
        match self {
            Address::V4 { .. } => false,
            Address::V6 { .. } => true,
        }
    }

    /// Whether requests can be sent to this address.
    pub fn is_supported(&self) -> (r: bool)
        ensures
            r == self.supported(),
    {
        !self.is_ipv6()
    }
}

/// A remote participant: its identifier and the address it was seen at.
#[derive(Clone, Copy, Debug, PartialEq, Eq)]
pub struct Node {
    pub id: Id,
    pub address: Address,
}

impl Node {
    pub fn new(id: Id, address: Address) -> (r: Node)
        ensures
            r == (Node { id, address }),
    {
        Node { id, address }
    }
}

} // verus!
