use vstd::prelude::*;
use vstd::arithmetic::power2::{pow2, lemma_pow2_strictly_increases, lemma2_to64};
use crate::error::ScanError;
use crate::range::{host_bits, block_of, AddressRange};

verus! {

/// Relies on `ipnetwork::ipv4_mask_to_prefix`: the number of leading one
/// bits of the mask, refused where a one bit follows a zero bit.
#[verifier::external_body]
fn checked_mask_prefix(mask: u32) -> (r: Result<u8, ipnetwork::IpNetworkError>)
    ensures
        match r {
            Ok(p) => is_mask_of(mask, p),
            Err(_) => !valid_mask(mask),
        },
{
    ipnetwork::ipv4_mask_to_prefix(core::net::Ipv4Addr::from(mask))
}

/// `mask` is the subnet mask of prefix length `prefix`: `prefix` one bits
/// followed by zero bits.
pub open spec fn is_mask_of(mask: u32, prefix: u8) -> bool {
    prefix <= 32 && mask == !host_bits(prefix as nat)
}

/// `mask` is a contiguous subnet mask.
pub open spec fn valid_mask(mask: u32) -> bool {
    exists|p: u8| is_mask_of(mask, p)
}

/// The prefix length of a valid mask.
pub open spec fn prefix_of_mask(mask: u32) -> u8 {
    choose|p: u8| is_mask_of(mask, p)
}

/// A mask determines its prefix length.
proof fn lemma_mask_prefix_unique(mask: u32, p: u8, q: u8)
    requires
        is_mask_of(mask, p),
        is_mask_of(mask, q),
    ensures
        p == q,
{
    let a = host_bits(p as nat);
    let b = host_bits(q as nat);
    assert(!a == !b ==> a == b) by (bit_vector);
    lemma2_to64();
    if p < q {
        lemma_pow2_strictly_increases((32 - q) as nat, (32 - p) as nat);
        if p > 0 {
            lemma_pow2_strictly_increases((32 - p) as nat, 32);
        }
    } else if q < p {
        lemma_pow2_strictly_increases((32 - p) as nat, (32 - q) as nat);
        if q > 0 {
            lemma_pow2_strictly_increases((32 - q) as nat, 32);
        }
    }
}

/// The prefix length of a contiguous subnet mask (`255.255.255.128` gives
/// 25); any other mask is refused.
pub fn mask_to_prefix(mask: u32) -> (r: Result<u8, ScanError>)
    ensures
        match r {
            Ok(p) => valid_mask(mask) && p == prefix_of_mask(mask) && is_mask_of(mask, p),
            Err(e) => !valid_mask(mask) && e == ScanError::InvalidMask,
        },
{
    match checked_mask_prefix(mask) {
        Ok(p) => {
            proof {
                lemma_mask_prefix_unique(mask, p, prefix_of_mask(mask));
            }
            Ok(p)
        },
        Err(_) => Err(ScanError::InvalidMask),
    }
}

/// The address a scan is asked about.
#[derive(Debug, Clone, Copy, PartialEq, Eq, Structural)]
pub enum TargetAddress {
    V4(u32),
    V6(u128),
}

/// One IPv4 address assigned to a local interface, with its prefix length.
#[derive(Debug, Clone, Copy, PartialEq, Eq, Structural)]
pub struct InterfaceAddress {
    pub addr: u32,
    pub prefix: u8,
}

/// The prefix length with which `ip` is assigned locally, if it is. Where
/// the table lists the address more than once, the last entry counts.
pub open spec fn assigned_prefix(table: Seq<InterfaceAddress>, ip: u32) -> Option<u8>
    decreases table.len(),
{
    if table.len() == 0 {
        None
    } else if table.last().addr == ip {
        Some(table.last().prefix)
    } else {
        assigned_prefix(table.drop_last(), ip)
    }
}

/// The block of `prefix` bits around `ip`, or `InvalidPrefix`.
pub open spec fn checked_block(ip: u32, prefix: u8) -> Result<AddressRange, ScanError> {
    if prefix <= 32 {
        Ok(block_of(ip, prefix))
    } else {
        Err(ScanError::InvalidPrefix)
    }
}

/// Which network a scan of `target` covers: the local assignment's own
/// prefix first, then the explicit prefix, then the explicit mask.
pub open spec fn resolution(
    target: TargetAddress,
    prefix: Option<u8>,
    mask: Option<u32>,
    table: Seq<InterfaceAddress>,
) -> Result<AddressRange, ScanError> {
    match target {
        TargetAddress::V6(_) => Err(ScanError::NotSupported),
        TargetAddress::V4(ip) => match assigned_prefix(table, ip) {
            Some(p) => checked_block(ip, p),
            None => match prefix {
                Some(p) => checked_block(ip, p),
                None => match mask {
                    Some(m) => if valid_mask(m) {
                        Ok(block_of(ip, prefix_of_mask(m)))
                    } else {
                        Err(ScanError::InvalidMask)
                    },
                    None => Err(ScanError::UnresolvableTarget),
                },
            },
        },
    }
}

/// The prefix length with which `ip` is assigned in `table`, if it is.
pub fn find_assigned_prefix(table: &Vec<InterfaceAddress>, ip: u32) -> (r: Option<u8>)
    ensures
        r == assigned_prefix(table@, ip),
{
    let mut i: usize = table.len();
    proof {
        assert(table@.take(i as int) =~= table@);
    }
    while i > 0
        invariant
            i <= table@.len(),
            assigned_prefix(table@, ip) == assigned_prefix(table@.take(i as int), ip),
        decreases i,
    {
        let entry = table[i - 1];
        proof {
            assert(table@.take(i - 1) =~= table@.take(i as int).drop_last());
        }
        if entry.addr == ip {
            return Some(entry.prefix);
        }
        i = i - 1;
    }
    None
}

/// Decides which network to scan for `target`. An IPv4 target assigned to
/// a local interface gets that interface's prefix, whatever `prefix` or
/// `mask` say; otherwise `prefix` decides, then `mask`; with neither the
/// target is unresolvable. IPv6 targets are not supported.
pub fn resolve(
    target: TargetAddress,
    prefix: Option<u8>,
    mask: Option<u32>,
    table: &Vec<InterfaceAddress>,
) -> (r: Result<AddressRange, ScanError>)
    ensures
        r == resolution(target, prefix, mask, table@),
        r is Ok ==> r->Ok_0.wf(),
{
    proof {
        assert(table@.take(table@.len() as int) =~= table@);
    }
    match target {
        TargetAddress::V6(_) => Err(ScanError::NotSupported),
        TargetAddress::V4(ip) => match find_assigned_prefix(table, ip) {
            Some(p) => AddressRange::new(ip, p),
            None => match prefix {
                Some(p) => AddressRange::new(ip, p),
                None => match mask {
                    Some(m) => match mask_to_prefix(m) {
                        Ok(p) => AddressRange::new(ip, p),
                        Err(e) => Err(e),
                    },
                    None => Err(ScanError::UnresolvableTarget),
                },
            },
        },
    }
}

/// A locally assigned IPv4 address is scanned with its interface's prefix
/// length; an explicit prefix or mask is ignored, not merged.
pub proof fn lemma_assignment_overrides(
    ip: u32,
    prefix: Option<u8>,
    mask: Option<u32>,
    table: Seq<InterfaceAddress>,
    p: u8,
)
    requires
        assigned_prefix(table, ip) == Some(p),
        p <= 32,
    ensures
        resolution(TargetAddress::V4(ip), prefix, mask, table) == Ok::<AddressRange, ScanError>(block_of(ip, p)),
        resolution(TargetAddress::V4(ip), prefix, mask, table)->Ok_0.prefix == p,
{
}

/// An IPv4 address that is not assigned locally, given without a prefix
/// or a mask, cannot be resolved.
pub proof fn lemma_unassigned_needs_prefix(ip: u32, table: Seq<InterfaceAddress>)
    requires
        assigned_prefix(table, ip) == None::<u8>,
    ensures
        resolution(TargetAddress::V4(ip), None, None, table) == Err::<AddressRange, ScanError>(ScanError::UnresolvableTarget),
{
}

/// A mask determines the prefix length it encodes, and only a contiguous
/// mask encodes one.
pub proof fn lemma_mask_round_trip(p: u8)
    requires
        p <= 32,
    ensures
        valid_mask(!host_bits(p as nat)),
        prefix_of_mask(!host_bits(p as nat)) == p,
{
    let m = !host_bits(p as nat);
    assert(is_mask_of(m, p));
    lemma_mask_prefix_unique(m, p, prefix_of_mask(m));
}

} // verus!
