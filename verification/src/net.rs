//! Plain-value model of IP addresses, and the conversions the resolver
//! needs: reading an address out of record data, and normalizing an
//! IPv4-mapped IPv6 address for source comparison.

use vstd::prelude::*;

verus! {

/// An IP address as the integer value of its big-endian bytes.
#[derive(Debug, Clone, Copy, PartialEq, Eq, Structural)]
pub enum IpAddress {
    V4(u32),
    V6(u128),
}

/// The integer value of a big-endian byte string.
pub open spec fn spec_be_int(s: Seq<u8>) -> int
    decreases s.len(),
{
    if s.len() == 0 {
        0
    } else {
        spec_be_int(s.drop_last()) * 256 + s.last()
    }
}

/// 256 to the power `n`.
pub open spec fn pow256(n: int) -> int
    decreases n,
{
    if n <= 0 {
        1
    } else {
        256 * pow256(n - 1)
    }
}

/// The address held in the `rdata` of an A or AAAA record, by its length.
pub open spec fn spec_bytes_to_ip(s: Seq<u8>) -> Option<IpAddress> {
    if s.len() == 4 {
        Some(IpAddress::V4(spec_be_int(s) as u32))
    } else if s.len() == 16 {
        Some(IpAddress::V6(spec_be_int(s) as u128))
    } else {
        None
    }
}

proof fn lemma_pow256_values()
    ensures
        pow256(4) == 0x1_0000_0000,
        pow256(16) == 0x1_0000_0000_0000_0000_0000_0000_0000_0000,
{
    assert(pow256(0) == 1);
    assert(pow256(1) == 256);
    assert(pow256(2) == 0x1_0000);
    assert(pow256(3) == 0x100_0000);
    assert(pow256(4) == 0x1_0000_0000);
    assert(pow256(5) == 0x100_0000_0000);
    assert(pow256(6) == 0x1_0000_0000_0000);
    assert(pow256(7) == 0x100_0000_0000_0000);
    assert(pow256(8) == 0x1_0000_0000_0000_0000);
    assert(pow256(9) == 0x100_0000_0000_0000_0000);
    assert(pow256(10) == 0x1_0000_0000_0000_0000_0000);
    assert(pow256(11) == 0x100_0000_0000_0000_0000_0000);
    assert(pow256(12) == 0x1_0000_0000_0000_0000_0000_0000);
    assert(pow256(13) == 0x100_0000_0000_0000_0000_0000_0000);
    assert(pow256(14) == 0x1_0000_0000_0000_0000_0000_0000_0000);
    assert(pow256(15) == 0x100_0000_0000_0000_0000_0000_0000_0000);
    assert(pow256(16) == 0x1_0000_0000_0000_0000_0000_0000_0000_0000);
}

proof fn lemma_pow256_le(a: int, b: int)
    requires
        a <= b,
    ensures
        pow256(a) <= pow256(b),
    decreases b - a,
{
    if a < b {
        lemma_pow256_le(a, b - 1);
        lemma_be_pos(b);
    }
}

proof fn lemma_be_pos(n: int)
    ensures
        pow256(n) >= 1,
    decreases n,
{
    if n > 0 {
        lemma_be_pos(n - 1);
    }
}

/// Reads an IPv4 address from 4 bytes of record data, an IPv6 address from
/// 16, and nothing from any other length.
pub fn bytes_to_ip(ip: &[u8]) -> (r: Option<IpAddress>)
    ensures
        r == spec_bytes_to_ip(ip@),
{
    if ip.len() == 4 {
        let mut acc: u32 = 0;
        let mut i: usize = 0;
        while i < 4
            invariant
                i <= 4,
                ip@.len() == 4,
                acc == spec_be_int(ip@.subrange(0, i as int)),
                acc < pow256(i as int),
            decreases 4 - i,
        {
            proof {
                lemma_pow256_values();
                lemma_pow256_le(i as int + 1, 4);
                assert(ip@.subrange(0, i + 1).drop_last() =~= ip@.subrange(0, i as int));
                assert(ip@.subrange(0, i + 1).last() == ip@[i as int]);
            }
            acc = acc * 256 + (ip[i] as u32);
            i = i + 1;
        }
        proof {
            assert(ip@.subrange(0, 4) =~= ip@);
        }
        Some(IpAddress::V4(acc))
    } else if ip.len() == 16 {
        let mut acc: u128 = 0;
        let mut i: usize = 0;
        while i < 16
            invariant
                i <= 16,
                ip@.len() == 16,
                acc == spec_be_int(ip@.subrange(0, i as int)),
                acc < pow256(i as int),
            decreases 16 - i,
        {
            proof {
                lemma_pow256_values();
                lemma_pow256_le(i as int + 1, 16);
                assert(ip@.subrange(0, i + 1).drop_last() =~= ip@.subrange(0, i as int));
                assert(ip@.subrange(0, i + 1).last() == ip@[i as int]);
            }
            acc = acc * 256 + (ip[i] as u128);
            i = i + 1;
        }
        proof {
            assert(ip@.subrange(0, 16) =~= ip@);
        }
        Some(IpAddress::V6(acc))
    } else {
        None
    }
}

/// An IPv4-mapped IPv6 address (`::ffff:a.b.c.d`) normalized to the IPv4
/// address it carries; every other address is kept as it is.
pub open spec fn spec_convert_mapped(ip: IpAddress) -> IpAddress {
    match ip {
        IpAddress::V4(_) => ip,
        IpAddress::V6(v) => if v / 0x1_0000_0000 == 0xFFFF {
            IpAddress::V4((v % 0x1_0000_0000) as u32)
        } else {
            ip
        },
    }
}

/// Normalizes an IPv4-mapped IPv6 address to IPv4 before source comparison.
pub fn convert_mapped_addr(ip: IpAddress) -> (r: IpAddress)
    ensures
        r == spec_convert_mapped(ip),
{
    match ip {
        IpAddress::V4(_) => ip,
        IpAddress::V6(v) => {
            if v / 0x1_0000_0000 == 0xFFFF {
                IpAddress::V4((v % 0x1_0000_0000) as u32)
            } else {
                ip
            }
        },
    }
}

/// Whether a datagram that arrived from `received` is acceptable for a
/// query that was sent to `expected`: the source, with an IPv4-mapped
/// address normalized, must equal the target.
pub fn source_matches(expected: &IpAddress, received: &IpAddress) -> (r: bool)
    ensures
        r == (spec_convert_mapped(*received) == *expected),
{
    let conv = convert_mapped_addr(*received);
    conv == *expected
}

} // verus!
