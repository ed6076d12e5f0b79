//! IPv4 CIDR blocks: reading one from text, membership, and the division of
//! a block into equal sub-blocks.

use crate::ipv4::{ipv4_of, parse_ipv4_chars};
use crate::text::{chars_of, fields, number_of, parse_number, split_fields, without_plus};
use vstd::arithmetic::power2::{
    lemma2_to64, lemma_pow2_adds, lemma_pow2_pos, lemma_pow2_strictly_increases, pow2,
};
use vstd::bits::{lemma_u64_pow2_no_overflow, lemma_u64_shl_is_mul};
use vstd::prelude::*;

verus! {

/// An IPv4 CIDR block: an address as a 32-bit number and a prefix length.
#[derive(Clone, Copy, Debug, PartialEq, Eq, Structural)]
pub struct CidrBlock {
    pub address: u32,
    pub prefix: u8,
}

/// The 32-bit value whose top `prefix` bits are set and whose other bits are clear.
pub open spec fn mask(prefix: u8) -> u32 {
    if prefix == 0 {
        0u32
    } else {
        0xFFFF_FFFFu32 << ((32 - prefix) as u32)
    }
}

impl CidrBlock {
    /// The prefix length lies in `0..=32`.
    pub open spec fn valid(self) -> bool {
        self.prefix <= 32
    }

    /// The address is the start of the block: its host bits are zero.
    pub open spec fn normalized(self) -> bool {
        self.address & mask(self.prefix) == self.address
    }

    /// `ip` lies in the block.
    pub open spec fn contains(self, ip: u32) -> bool {
        ip & mask(self.prefix) == self.address & mask(self.prefix)
    }
}

/// The mask of a prefix length.
pub fn prefix_mask(prefix: u8) -> (m: u32)
    requires
        prefix <= 32,
    ensures
        m == mask(prefix),
{
    if prefix == 0 {
        0
    } else {
        0xFFFF_FFFFu32 << ((32 - prefix) as u32)
    }
}

/// Whether `ip` lies in the block that starts at `subnet_ip` with `prefix` bits fixed.
pub fn is_ip_in_subnet(ip: u32, subnet_ip: u32, prefix: u8) -> (inside: bool)
    requires
        prefix <= 32,
    ensures
        inside == (CidrBlock { address: subnet_ip, prefix }).contains(ip),
{
    let m = prefix_mask(prefix);
    (ip & m) == (subnet_ip & m)
}

/// Why a text is no CIDR block, or why a block cannot be divided.
#[derive(Clone, Copy, Debug, PartialEq, Eq, Structural)]
pub enum SubnetError {
    /// The text is not an address, one `/` and a prefix length.
    Format,
    /// The part before the `/` is no IPv4 address in dotted-quad form.
    Address,
    /// The part after the `/` is no whole number in `0..=32`.
    PrefixRange,
    /// The new prefix length is not greater than the block's own.
    PrefixTooSmall { new_prefix: u8, prefix: u8 },
    /// The new prefix length is greater than 32.
    PrefixOutOfRange,
}

/// What `s` reads as a prefix length: an optional `+`, then one or more
/// digits, the value at most 32.
pub open spec fn prefix_of(s: Seq<char>) -> Option<u8> {
    match number_of(without_plus(s), 32) {
        Some(n) => Some(n as u8),
        None => None,
    }
}

/// What `s` reads as a CIDR block. The address is taken as written, with
/// whatever host bits it has.
pub open spec fn cidr_of(s: Seq<char>) -> Result<CidrBlock, SubnetError> {
    let parts = fields(s, '/');
    if parts.len() != 2 {
        Err(SubnetError::Format)
    } else if ipv4_of(parts[0]) is None {
        Err(SubnetError::Address)
    } else if prefix_of(parts[1]) is None {
        Err(SubnetError::PrefixRange)
    } else {
        Ok(CidrBlock { address: ipv4_of(parts[0])->0, prefix: prefix_of(parts[1])->0 })
    }
}

/// The start of the block of `prefix` fixed bits in which `address` lies.
pub open spec fn network_of(address: u32, prefix: u8) -> u32 {
    address & mask(prefix)
}

/// The number of addresses in a block with `prefix` fixed bits.
pub open spec fn block_size(prefix: u8) -> nat {
    pow2((32 - prefix) as nat)
}

/// The sub-blocks of `new_prefix` fixed bits that tile `base`, from the
/// lowest address up.
pub open spec fn subdivision(base: CidrBlock, new_prefix: u8) -> Seq<CidrBlock> {
    Seq::new(
        pow2((new_prefix - base.prefix) as nat),
        |k: int|
            CidrBlock {
                address: (network_of(base.address, base.prefix) + k * block_size(new_prefix)) as u32,
                prefix: new_prefix,
            },
    )
}

/// What dividing `base` into blocks of `new_prefix` fixed bits gives.
pub open spec fn division(base: CidrBlock, new_prefix: u8) -> Result<Seq<CidrBlock>, SubnetError> {
    if new_prefix <= base.prefix {
        Err(SubnetError::PrefixTooSmall { new_prefix, prefix: base.prefix })
    } else if new_prefix > 32 {
        Err(SubnetError::PrefixOutOfRange)
    } else {
        Ok(subdivision(base, new_prefix))
    }
}

/// `outcome` is what dividing `base` into blocks of `new_prefix` fixed bits gives.
pub open spec fn is_division(
    base: CidrBlock,
    new_prefix: u8,
    outcome: Result<Vec<CidrBlock>, SubnetError>,
) -> bool {
    match outcome {
        Ok(blocks) => division(base, new_prefix) == Ok::<Seq<CidrBlock>, SubnetError>(blocks@),
        Err(error) => division(base, new_prefix) == Err::<Seq<CidrBlock>, SubnetError>(error),
    }
}

/// The facts about masks that the bits decide: with `host_bits` low bits
/// free, `m` the mask and `size` the number of addresses of such a block.
proof fn lemma_mask_bits(a: u32, ip: u32, host_bits: u32, m: u32, size: u64)
    by (bit_vector)
    requires
        host_bits <= 32,
        m == (if host_bits == 32 {
            0u32
        } else {
            0xFFFF_FFFFu32 << host_bits
        }),
        size == 1u64 << (host_bits as u64),
    ensures
        (a & m) & m == a & m,
        a & m <= a,
        (a & m) as u64 + size <= 0x1_0000_0000u64,
        (ip & m == a & m) <==> (a & m <= ip && (ip as u64) < (a & m) as u64 + size),
{
}

/// The facts about sub-blocks that the bits decide: the block number `k`
/// of those with `host_bits` low bits free, inside a block that starts at
/// `n` and has `base_bits` low bits free, starts at its own network address
/// and ends inside the address space.
proof fn lemma_sub_block_bits(n: u32, k: u64, host_bits: u32, base_bits: u32, m: u32, base_m: u32)
    by (bit_vector)
    requires
        host_bits < base_bits <= 32,
        m == 0xFFFF_FFFFu32 << host_bits,
        base_m == (if base_bits == 32 {
            0u32
        } else {
            0xFFFF_FFFFu32 << base_bits
        }),
        n & base_m == n,
        k < 1u64 << ((base_bits - host_bits) as u64),
    ensures
        (k << (host_bits as u64)) < 0x1_0000_0000u64,
        n as u64 + (k << (host_bits as u64)) + (1u64 << (host_bits as u64)) <= 0x1_0000_0000u64,
        ((n as u64 + (k << (host_bits as u64))) as u32) & m == (n as u64 + (k << (
            host_bits as u64
        ))) as u32,
{
}

/// The number of addresses of a block as a shift.
pub proof fn lemma_block_size(prefix: u8)
    requires
        prefix <= 32,
    ensures
        block_size(prefix) == 1u64 << ((32 - prefix) as u64),
        1 <= block_size(prefix) <= 0x1_0000_0000,
{
    let bits = (32 - prefix) as u64;
    lemma_u64_pow2_no_overflow(bits as nat);
    lemma_u64_shl_is_mul(1, bits);
    lemma_pow2_pos(bits as nat);
    lemma2_to64();
    if bits < 32 {
        lemma_pow2_strictly_increases(bits as nat, 32);
    }
}

/// The mask of `prefix`, written over the number of free low bits.
proof fn lemma_mask_by_host_bits(prefix: u8)
    requires
        prefix <= 32,
    ensures
        mask(prefix) == (if (32 - prefix) as u32 == 32 {
            0u32
        } else {
            0xFFFF_FFFFu32 << ((32 - prefix) as u32)
        }),
{
}

/// A block holds exactly the addresses from its network address up to the
/// last one of its size, and its network address is the start of a block.
pub proof fn lemma_block_range(block: CidrBlock, ip: u32)
    requires
        block.valid(),
    ensures
        network_of(network_of(block.address, block.prefix), block.prefix) == network_of(
            block.address,
            block.prefix,
        ),
        network_of(block.address, block.prefix) <= block.address,
        network_of(block.address, block.prefix) + block_size(block.prefix) <= 0x1_0000_0000,
        block.contains(ip) <==> network_of(block.address, block.prefix) <= ip < network_of(
            block.address,
            block.prefix,
        ) + block_size(block.prefix),
{
    let bits = (32 - block.prefix) as u32;
    lemma_block_size(block.prefix);
    lemma_mask_by_host_bits(block.prefix);
    lemma_mask_bits(block.address, ip, bits, mask(block.prefix), 1u64 << (bits as u64));
}

/// The sub-block number `k` of a division starts where the formula says,
/// at an address that is its own network address, and ends inside the
/// address space.
pub proof fn lemma_sub_block(base: CidrBlock, new_prefix: u8, k: int)
    requires
        base.prefix < new_prefix <= 32,
        0 <= k < pow2((new_prefix - base.prefix) as nat),
    ensures
        pow2((new_prefix - base.prefix) as nat) * block_size(new_prefix) == block_size(base.prefix),
        network_of(base.address, base.prefix) + k * block_size(new_prefix) + block_size(new_prefix)
            <= network_of(base.address, base.prefix) + block_size(base.prefix) <= 0x1_0000_0000,
        subdivision(base, new_prefix)[k].address == network_of(base.address, base.prefix) + k
            * block_size(new_prefix),
        subdivision(base, new_prefix)[k].normalized(),
{
    let n = network_of(base.address, base.prefix);
    let bits = (32 - new_prefix) as u32;
    let base_bits = (32 - base.prefix) as u32;
    let count = pow2((new_prefix - base.prefix) as nat);
    let step = block_size(new_prefix);
    lemma_block_size(new_prefix);
    lemma_block_size(base.prefix);
    lemma_block_range(base, 0);
    lemma_mask_by_host_bits(new_prefix);
    lemma_mask_by_host_bits(base.prefix);
    lemma_pow2_adds((new_prefix - base.prefix) as nat, (32 - new_prefix) as nat);
    lemma_u64_pow2_no_overflow((new_prefix - base.prefix) as nat);
    lemma_u64_shl_is_mul(1, (base_bits - bits) as u64);
    assert(count == 1u64 << ((base_bits - bits) as u64));
    assert(count <= 0x1_0000_0000) by (nonlinear_arith)
        requires
            count * step <= 0x1_0000_0000,
            1 <= step,
            0 <= count,
    ;
    lemma_sub_block_bits(n, k as u64, bits, base_bits, mask(new_prefix), mask(base.prefix));
    assert(k * step <= 0xFFFF_FFFF * 0x1_0000_0000) by (nonlinear_arith)
        requires
            0 <= k <= 0xFFFF_FFFF,
            0 <= step <= 0x1_0000_0000,
    ;
    lemma_u64_shl_is_mul(k as u64, bits as u64);
    assert((k + 1) * step <= count * step) by (nonlinear_arith)
        requires
            0 <= k < count,
            0 <= step,
    ;
    assert((k + 1) * step == k * step + step) by (nonlinear_arith);
}

/// Reads a CIDR block in the form `A.B.C.D/N`. The address is taken as
/// written: an address with host bits set is accepted and kept.
pub fn validate_subnet(subnet: &str) -> (outcome: Result<CidrBlock, SubnetError>)
    ensures
        outcome == cidr_of(subnet@),
        outcome matches Ok(block) ==> block.valid(),
{
    let chars = chars_of(subnet);
    let parts = split_fields(&chars, '/');
    if parts.len() != 2 {
        return Err(SubnetError::Format);
    }
    let address = match parse_ipv4_chars(&parts[0]) {
        Some(address) => address,
        None => { return Err(SubnetError::Address); },
    };
    let digits = &parts[1];
    let start: usize = if digits.len() > 0 && digits[0] == '+' {
        1
    } else {
        0
    };
    assert(digits@.skip(start as int) =~= without_plus(digits@));
    match parse_number(digits, start, 32) {
        Some(prefix) => Ok(CidrBlock { address, prefix: prefix as u8 }),
        None => Err(SubnetError::PrefixRange),
    }
}

/// The start of the block of `prefix` fixed bits in which `ip` lies.
pub fn calculate_network_address(ip: u32, prefix: u8) -> (network: u32)
    requires
        prefix <= 32,
    ensures
        network == network_of(ip, prefix),
{
    ip & prefix_mask(prefix)
}

/// Divides `subnet` into all the blocks of `new_prefix` fixed bits that lie
/// in it, from the lowest address up. The block is first brought to its
/// network address. Every block of the result is made, `2^32` of them where
/// a `/0` is divided into single addresses: no request is refused for its
/// size.
pub fn divide_subnet(subnet: CidrBlock, new_prefix: u8) -> (outcome: Result<
    Vec<CidrBlock>,
    SubnetError,
>)
    ensures
        is_division(subnet, new_prefix, outcome),
        outcome is Ok <==> subnet.prefix < new_prefix <= 32,
        new_prefix <= subnet.prefix <==> outcome == Err::<Vec<CidrBlock>, SubnetError>(
            SubnetError::PrefixTooSmall { new_prefix, prefix: subnet.prefix },
        ),
        subnet.prefix < new_prefix && new_prefix > 32 <==> outcome == Err::<
            Vec<CidrBlock>,
            SubnetError,
        >(SubnetError::PrefixOutOfRange),
        outcome matches Ok(blocks) ==> {
            &&& blocks@.len() == pow2((new_prefix - subnet.prefix) as nat)
            &&& uniform(blocks@, new_prefix)
            &&& rising(blocks@)
            &&& disjoint(blocks@)
            &&& covers(blocks@, subnet)
        },
{
    let prefix = subnet.prefix;
    if new_prefix <= prefix {
        return Err(SubnetError::PrefixTooSmall { new_prefix, prefix });
    }
    if new_prefix > 32 {
        return Err(SubnetError::PrefixOutOfRange);
    }
    let network = calculate_network_address(subnet.address, prefix);
    let step: u64 = 1u64 << ((32 - new_prefix) as u64);
    let count: u64 = 1u64 << ((new_prefix - prefix) as u64);
    let ghost wanted = subdivision(subnet, new_prefix);
    proof {
        lemma_block_size(new_prefix);
        lemma_u64_pow2_no_overflow((new_prefix - prefix) as nat);
        lemma_u64_shl_is_mul(1, (new_prefix - prefix) as u64);
    }
    let mut blocks: Vec<CidrBlock> = Vec::new();
    let mut current: u64 = network as u64;
    let mut k: u64 = 0;
    while k < count
        invariant
            subnet.prefix < new_prefix <= 32,
            network == network_of(subnet.address, subnet.prefix),
            step == block_size(new_prefix),
            count == pow2((new_prefix - subnet.prefix) as nat),
            wanted == subdivision(subnet, new_prefix),
            k <= count,
            current == network + k * step,
            blocks@ == wanted.take(k as int),
        decreases count - k,
    {
        proof {
            lemma_sub_block(subnet, new_prefix, k as int);
            assert((k + 1) * step == k * step + step) by (nonlinear_arith);
        }
        blocks.push(CidrBlock { address: current as u32, prefix: new_prefix });
        proof {
            assert(blocks@ =~= wanted.take(k + 1));
        }
        current = current + step;
        k = k + 1;
    }
    proof {
        assert(blocks@ =~= wanted);
        lemma_division_tiles(subnet, new_prefix);
    }
    Ok(blocks)
}

/// The addresses of the blocks rise strictly along the list.
pub open spec fn rising(blocks: Seq<CidrBlock>) -> bool {
    forall|i: int, j: int|
        0 <= i < j < blocks.len() ==> (#[trigger] blocks[i]).address < (#[trigger] blocks[j]).address
}

/// No address lies in two blocks of the list.
pub open spec fn disjoint(blocks: Seq<CidrBlock>) -> bool {
    forall|i: int, j: int, ip: u32|
        #![trigger blocks[i].contains(ip), blocks[j].contains(ip)]
        0 <= i < j < blocks.len() ==> !(blocks[i].contains(ip) && blocks[j].contains(ip))
}

/// `ip` lies in a block of the list.
pub open spec fn held(blocks: Seq<CidrBlock>, ip: u32) -> bool {
    exists|k: int| 0 <= k < blocks.len() && (#[trigger] blocks[k]).contains(ip)
}

/// The addresses that lie in a block of the list are exactly those of `base`.
pub open spec fn covers(blocks: Seq<CidrBlock>, base: CidrBlock) -> bool {
    forall|ip: u32| #[trigger] base.contains(ip) <==> held(blocks, ip)
}

/// Every block of the list has the prefix length `prefix`, which is valid,
/// and starts at its own network address.
pub open spec fn uniform(blocks: Seq<CidrBlock>, prefix: u8) -> bool {
    forall|k: int|
        0 <= k < blocks.len() ==> {
            &&& (#[trigger] blocks[k]).prefix == prefix
            &&& blocks[k].valid()
            &&& blocks[k].normalized()
        }
}

/// The blocks that a division gives are as many as there are values of the
/// bits between the two prefix lengths; each has the new prefix length and
/// starts at its own network address; their addresses rise strictly; no
/// address lies in two of them; and the addresses that lie in one of them
/// are exactly those of the divided block.
pub proof fn lemma_division_tiles(base: CidrBlock, new_prefix: u8)
    requires
        base.prefix < new_prefix <= 32,
    ensures
        subdivision(base, new_prefix).len() == pow2((new_prefix - base.prefix) as nat),
        uniform(subdivision(base, new_prefix), new_prefix),
        rising(subdivision(base, new_prefix)),
        disjoint(subdivision(base, new_prefix)),
        covers(subdivision(base, new_prefix), base),
{
    let blocks = subdivision(base, new_prefix);
    let n = network_of(base.address, base.prefix) as int;
    let step = block_size(new_prefix) as int;
    let count = pow2((new_prefix - base.prefix) as nat) as int;
    lemma_block_size(new_prefix);
    assert forall|k: int| 0 <= k < blocks.len() implies {
        &&& (#[trigger] blocks[k]).prefix == new_prefix
        &&& blocks[k].valid()
        &&& blocks[k].normalized()
    } by {
        lemma_sub_block(base, new_prefix, k);
    }
    assert forall|i: int, j: int| 0 <= i < j < blocks.len() implies (#[trigger] blocks[i]).address
        < (#[trigger] blocks[j]).address by {
        lemma_sub_block(base, new_prefix, i);
        lemma_sub_block(base, new_prefix, j);
        assert(i * step + step <= j * step) by (nonlinear_arith)
            requires
                i < j,
                0 < step,
        ;
    }
    assert forall|i: int, j: int, ip: u32|
        #![trigger blocks[i].contains(ip), blocks[j].contains(ip)]
        0 <= i < j < blocks.len() implies !(blocks[i].contains(ip) && blocks[j].contains(ip)) by {
        lemma_sub_block(base, new_prefix, i);
        lemma_sub_block(base, new_prefix, j);
        lemma_block_range(blocks[i], ip);
        lemma_block_range(blocks[j], ip);
        assert(i * step + step <= j * step) by (nonlinear_arith)
            requires
                i < j,
                0 < step,
        ;
    }
    assert forall|ip: u32| #[trigger] base.contains(ip) <==> held(blocks, ip) by {
        lemma_block_range(base, ip);
        lemma_pow2_pos((new_prefix - base.prefix) as nat);
        lemma_sub_block(base, new_prefix, 0);
        if base.contains(ip) {
            let k = (ip - n) / step;
            assert(0 <= k < count && k * step <= ip - n < k * step + step) by (nonlinear_arith)
                requires
                    k == (ip - n) / step,
                    0 <= ip - n < count * step,
                    0 < step,
            ;
            lemma_sub_block(base, new_prefix, k);
            lemma_block_range(blocks[k], ip);
            assert(blocks[k].contains(ip));
        }
        if held(blocks, ip) {
            let k = choose|k: int| 0 <= k < blocks.len() && (#[trigger] blocks[k]).contains(ip);
            lemma_sub_block(base, new_prefix, k);
            lemma_block_range(blocks[k], ip);
        }
    }
}

/// Two results of dividing one block by one prefix length are the same:
/// both are blocks, and the same ones in the same order, or both are the
/// same error.
pub proof fn lemma_division_is_unique(
    base: CidrBlock,
    new_prefix: u8,
    first: Result<Vec<CidrBlock>, SubnetError>,
    second: Result<Vec<CidrBlock>, SubnetError>,
)
    requires
        is_division(base, new_prefix, first),
        is_division(base, new_prefix, second),
    ensures
        match (first, second) {
            (Ok(a), Ok(b)) => a@ == b@,
            (Err(a), Err(b)) => a == b,
            _ => false,
        },
{
}

} // verus!
