use vstd::prelude::*;
use vstd::arithmetic::power2::{pow2, lemma_pow2_pos, lemma_pow2_strictly_increases, lemma2_to64};
use vstd::arithmetic::div_mod::lemma_small_mod;
use vstd::bits::{low_bits_mask, lemma_low_bits_mask_values, lemma_u32_low_bits_mask_is_mod, lemma_u64_shl_is_mul};
use crate::error::ScanError;

verus! {

#[verifier::external_type_specification]
#[verifier::external_body]
pub struct ExIpNetworkError(ipnetwork::IpNetworkError);

/// The low `32 - prefix` bits: the host part of an address in a block of
/// that prefix length.
pub open spec fn host_bits(prefix: nat) -> u32 {
    low_bits_mask((32 - prefix) as nat) as u32
}

/// The network part of `ip` under `prefix`: its host bits cleared.
pub open spec fn network_of(ip: u32, prefix: nat) -> u32 {
    ip & !host_bits(prefix)
}

/// How many addresses a block of that prefix length holds.
pub open spec fn block_size(prefix: nat) -> nat {
    pow2((32 - prefix) as nat)
}

/// Relies on `Ipv4Network::new`, which refuses a prefix over 32, and on
/// `Ipv4Network::network`, which clears the host bits of the address.
#[verifier::external_body]
fn checked_network(ip: u32, prefix: u8) -> (r: Result<u32, ipnetwork::IpNetworkError>)
    ensures
        match r {
            Ok(n) => prefix <= 32 && n == network_of(ip, prefix as nat),
            Err(_) => prefix > 32,
        },
{
    ipnetwork::Ipv4Network::new(core::net::Ipv4Addr::from(ip), prefix).map(
        |net| u32::from(net.network()),
    )
}

/// An IPv4 CIDR block: its lowest address and its prefix length.
#[derive(Debug, Clone, Copy, PartialEq, Eq, Structural)]
pub struct AddressRange {
    pub network: u32,
    pub prefix: u8,
}

/// The block that holds `ip` under `prefix`.
pub open spec fn block_of(ip: u32, prefix: u8) -> AddressRange {
    AddressRange { network: network_of(ip, prefix as nat), prefix }
}

impl AddressRange {
    /// The prefix fits an IPv4 address and the host bits of the lowest
    /// address are clear.
    pub open spec fn wf(&self) -> bool {
        &&& self.prefix <= 32
        &&& self.network & host_bits(self.prefix as nat) == 0
    }

    pub open spec fn size(&self) -> nat {
        block_size(self.prefix as nat)
    }

    /// The `i`th address of the block, counted from its lowest.
    pub open spec fn host(&self, i: int) -> u32 {
        self.network | (i as u32)
    }

    /// Every address of the block, in ascending order.
    pub open spec fn hosts(&self) -> Seq<u32> {
        Seq::new(self.size(), |i: int| self.host(i))
    }

    /// The block of `prefix` bits around `ip`; a prefix over 32 is refused.
    pub fn new(ip: u32, prefix: u8) -> (r: Result<AddressRange, ScanError>)
        ensures
            match r {
                Ok(a) => prefix <= 32 && a == block_of(ip, prefix) && a.wf(),
                Err(e) => prefix > 32 && e == ScanError::InvalidPrefix,
            },
    {
        match checked_network(ip, prefix) {
            Ok(network) => {
                proof {
                    let l = host_bits(prefix as nat);
                    assert((ip & !l) & l == 0) by (bit_vector);
                }
                Ok(AddressRange { network, prefix })
            },
            Err(_) => Err(ScanError::InvalidPrefix),
        }
    }

    pub fn network(&self) -> (r: u32)
        ensures
            r == self.network,
    {
        self.network
    }

    pub fn prefix(&self) -> (r: u8)
        ensures
            r == self.prefix,
    {
        self.prefix
    }

    /// The number of addresses in the block: `2^(32 - prefix)`.
    pub fn len(&self) -> (n: u64)
        requires
            self.wf(),
        ensures
            n == self.size(),
    {
        let shift: u64 = 32 - self.prefix as u64;
        proof {
            lemma2_to64();
            if shift < 32 {
                lemma_pow2_strictly_increases(shift as nat, 32);
            }
            lemma_u64_shl_is_mul(1, shift);
        }
        1u64 << shift
    }

    /// The `i`th address of the block, counted from its lowest.
    pub fn host_at(&self, i: u64) -> (a: u32)
        requires
            self.wf(),
            i < self.size(),
        ensures
            a == self.hosts()[i as int],
    {
        self.network | (i as u32)
    }

    /// A fresh traversal of the block from its lowest address.
    pub fn iter(&self) -> (c: HostCursor)
        requires
            self.wf(),
        ensures
            c.wf(),
            c.range == *self,
            c.pos == 0,
            c.remaining() == self.hosts(),
    {
        proof {
            assert(self.hosts().skip(0) =~= self.hosts());
        }
        HostCursor { range: *self, pos: 0 }
    }
}

/// A host index below the block size has no bit outside the host part.
proof fn lemma_index_in_host_bits(i: u32, prefix: nat)
    requires
        prefix <= 32,
        i < block_size(prefix),
    ensures
        i & !host_bits(prefix) == 0,
        i & host_bits(prefix) == i,
{
    let k = (32 - prefix) as nat;
    let l = host_bits(prefix);
    if k == 32 {
        lemma_low_bits_mask_values();
        assert(l == 0xffff_ffffu32);
        assert(i & !0xffff_ffffu32 == 0 && i & 0xffff_ffffu32 == i) by (bit_vector);
    } else {
        lemma_u32_low_bits_mask_is_mod(i, k);
        lemma_pow2_pos(k);
        lemma2_to64();
        lemma_pow2_strictly_increases(k, 32);
        lemma_small_mod(i as nat, pow2(k));
        assert(i & l == i);
        assert((i & l) == i ==> i & !l == 0) by (bit_vector);
    }
}

/// Traversing a block yields exactly `2^(32 - prefix)` addresses, each the
/// lowest address plus its position, so all distinct and ascending, and all
/// sharing the top `prefix` bits with `ip`.
pub proof fn lemma_block_hosts(ip: u32, prefix: u8)
    requires
        prefix <= 32,
    ensures
        block_of(ip, prefix).hosts().len() == pow2((32 - prefix) as nat),
        forall|i: int|
            0 <= i < block_of(ip, prefix).hosts().len() ==> {
                let h = #[trigger] block_of(ip, prefix).hosts()[i];
                &&& h as int == network_of(ip, prefix as nat) as int + i
                &&& h & !host_bits(prefix as nat) == ip & !host_bits(prefix as nat)
            },
        block_of(ip, prefix).hosts().no_duplicates(),
{
    let r = block_of(ip, prefix);
    let hs = r.hosts();
    let l = host_bits(prefix as nat);
    let n = network_of(ip, prefix as nat);
    lemma2_to64();
    if prefix > 0 {
        lemma_pow2_strictly_increases((32 - prefix) as nat, 32);
    }
    assert forall|i: int| 0 <= i < hs.len() implies {
        let h = #[trigger] hs[i];
        &&& h as int == n as int + i
        &&& h & !l == ip & !l
    } by {
        let x = i as u32;
        lemma_index_in_host_bits(x, prefix as nat);
        assert(x & !l == 0 ==> ((ip & !l) | x) as u64 == (ip & !l) as u64 + x as u64)
            by (bit_vector);
        assert(x & !l == 0 ==> ((ip & !l) | x) & !l == ip & !l) by (bit_vector);
    }
    assert forall|i: int, j: int| 0 <= i < hs.len() && 0 <= j < hs.len() && i != j
        implies hs[i] != hs[j] by {
        assert(hs[i] as int == n as int + i);
        assert(hs[j] as int == n as int + j);
    }
}

/// A lazy traversal of an `AddressRange`.
#[derive(Debug, Clone, Copy)]
pub struct HostCursor {
    pub range: AddressRange,
    pub pos: u64,
}

impl HostCursor {
    pub open spec fn wf(&self) -> bool {
        self.range.wf() && self.pos <= self.range.size()
    }

    /// The addresses not yet handed out, in the order they will come.
    pub open spec fn remaining(&self) -> Seq<u32> {
        self.range.hosts().skip(self.pos as int)
    }

    /// The next address, or `None` once the block is exhausted.
    pub fn next(&mut self) -> (r: Option<u32>)
        requires
            old(self).wf(),
        ensures
            final(self).wf(),
            final(self).range == old(self).range,
            match r {
                Some(a) => {
                    &&& old(self).pos < old(self).range.size()
                    &&& final(self).pos == old(self).pos + 1
                    &&& a == old(self).range.hosts()[old(self).pos as int]
                    &&& old(self).remaining().len() > 0
                    &&& a == old(self).remaining()[0]
                    &&& final(self).remaining() == old(self).remaining().drop_first()
                },
                None => {
                    &&& old(self).pos == old(self).range.size()
                    &&& old(self).remaining().len() == 0
                    &&& *final(self) == *old(self)
                },
            },
    {
        let n = self.range.len();
        if self.pos < n {
            let a = self.range.host_at(self.pos);
            self.pos = self.pos + 1;
            proof {
                assert(final(self).remaining() =~= old(self).remaining().drop_first());
            }
            Some(a)
        } else {
            None
        }
    }
}

/// Two traversals started from the same block yield the same sequence: the
/// block's addresses in ascending order.
pub proof fn lemma_traversal_restartable(r: AddressRange, first: HostCursor, second: HostCursor)
    requires
        r.wf(),
        first.wf() && first.remaining() == r.hosts(),
        second.wf() && second.remaining() == r.hosts(),
    ensures
        first.remaining() == second.remaining(),
{
}

} // verus!
