//! IPv4 addresses and CIDR blocks.
//!
//! An address is held as its 32-bit value (`u32`, the same value that
//! `std::net::Ipv4Addr` converts to and from).  A block of prefix length
//! `len` covers `block_size(len) = 2^(32 - len)` consecutive addresses,
//! starting at a multiple of that size.
use vstd::arithmetic::div_mod::*;
use vstd::arithmetic::power2::*;
use vstd::bits::*;
use vstd::prelude::*;
use crate::text::{
    append_chars, dec, decimal_chars, digits_value, is_digit, is_digit_exec, parse_u8_spec,
    split_chars, split_on, string_from_chars, chars_of, append_str, trim_ws, trim_ws_chars, parse_u8,
    lemma_dec_facts, lemma_parse_u8_dec, lemma_split_append, lemma_split_without_sep, is_ws,
    trim_end_by, trim_start_by,
};

verus! {

/// Maximum length for an IPv4 subnet mask (32 bits).
pub const MAX_LENGTH: u8 = 32;

/// Number of distinct IPv4 addresses, `2^32`.
pub open spec fn addr_space() -> nat {
    0x1_0000_0000
}

/// Number of addresses in a block with prefix length `len` (for `len <= 32`).
pub open spec fn block_size(len: nat) -> nat {
    pow2((32 - len) as nat)
}

/// First (network) address of the block of prefix length `len` holding `addr`.
pub open spec fn net_of(addr: nat, len: nat) -> nat {
    (addr - addr % block_size(len)) as nat
}

/// Last (broadcast) address of the block of prefix length `len` holding `addr`.
pub open spec fn bcast_of(addr: nat, len: nat) -> nat {
    (net_of(addr, len) + block_size(len) - 1) as nat
}

/// The netmask of prefix length `len`: the top `len` bits set.
pub open spec fn netmask_of(len: nat) -> nat {
    (addr_space() - block_size(len)) as nat
}

/// The address that follows the block of prefix length `len` holding `addr`.
pub open spec fn after_block(addr: nat, len: nat) -> nat {
    net_of(addr, len) + block_size(len)
}

/// `addr` is the network address of a block of prefix length `len`.
pub open spec fn aligned(addr: nat, len: nat) -> bool {
    addr % block_size(len) == 0
}

/// Number of trailing zero bits of a 32-bit value (32 for zero).
pub open spec fn trailing_zero_bits(x: nat) -> nat
    decreases x,
{
    if x == 0 {
        32
    } else if x % 2 == 1 {
        0
    } else {
        1 + trailing_zero_bits(x / 2)
    }
}

/// The smallest prefix length for which `addr` is a network address.
pub open spec fn min_aligned_len(addr: nat) -> nat {
    (32 - trailing_zero_bits(addr)) as nat
}

/// Sizes of blocks: positive, at most the address space, and halving with
/// each longer prefix.
pub proof fn lemma_block_size_facts(len: nat)
    requires
        len <= 32,
    ensures
        block_size(len) > 0,
        block_size(len) <= addr_space(),
        block_size(len) * pow2(len) == addr_space(),
        len == 32 ==> block_size(len) == 1,
        len < 32 ==> block_size(len) % 2 == 0,
        len < 32 ==> block_size(len) == 2 * block_size(len + 1),
{
    lemma_pow2_pos((32 - len) as nat);
    lemma2_to64();
    lemma_pow2_adds((32 - len) as nat, len);
    if len < 32 {
        lemma_pow2_adds((32 - (len + 1)) as nat, 1);
        assert(((32 - (len + 1)) as nat) + 1 == (32 - len) as nat);
    }
    if len > 0 {
        lemma_pow2_strictly_increases((32 - len) as nat, 32);
    }
}

/// Basic division facts for a positive divisor.
pub proof fn lemma_divmod(x: nat, d: nat)
    requires
        d > 0,
    ensures
        x == d * (x / d) + x % d,
        x % d < d,
        x / d <= x,
{
    lemma_fundamental_div_mod(x as int, d as int);
    lemma_mod_pos_bound(x as int, d as int);
    lemma_div_is_ordered_by_denominator(x as int, 1, d as int);
}

/// A multiple of `a * b` is a multiple of `a`.
pub proof fn lemma_mod_factor(x: nat, a: nat, b: nat)
    requires
        a > 0,
        b > 0,
        x % (a * b) == 0,
    ensures
        x % a == 0,
{
    assert(a * b > 0) by (nonlinear_arith)
        requires
            a > 0,
            b > 0,
    ;
    lemma_divmod(x, a * b);
    let q = x / (a * b);
    assert(x == a * (b * q)) by (nonlinear_arith)
        requires
            x == (a * b) * q + 0,
    ;
    lemma_mod_multiples_basic((b * q) as int, a as int);
    assert((b * q) * a == a * (b * q)) by (nonlinear_arith);
}

/// Facts about the block of prefix length `len` that holds `addr`.
pub proof fn lemma_block(addr: nat, len: nat)
    requires
        addr < addr_space(),
        len <= 32,
    ensures
        net_of(addr, len) <= addr,
        addr <= bcast_of(addr, len),
        bcast_of(addr, len) < addr_space(),
        after_block(addr, len) <= addr_space(),
        aligned(net_of(addr, len), len),
        net_of(addr, len) % block_size(len) == 0,
        aligned(addr, len) ==> net_of(addr, len) == addr,
        addr % block_size(len) == 0 ==> net_of(addr, len) == addr,
        net_of(net_of(addr, len), len) == net_of(addr, len),
{
    lemma_block_size_facts(len);
    let s = block_size(len);
    lemma_divmod(addr, s);
    let q = addr / s;
    let net = net_of(addr, len);
    assert(net == s * q);
    lemma_mod_multiples_basic(q as int, s as int);
    assert(q * s == s * q) by (nonlinear_arith);
    assert(net % s == 0);
    if q >= pow2(len) {
        assert(s * q >= s * pow2(len)) by (nonlinear_arith)
            requires
                q >= pow2(len),
                s > 0,
        ;
        assert(false);
    }
    assert(s * q + s <= s * pow2(len)) by (nonlinear_arith)
        requires
            q < pow2(len),
            s > 0,
    ;
}

/// A network address of a block is also the network address of every
/// smaller block (longer prefix) that starts there.
pub proof fn lemma_aligned_longer(addr: nat, len: nat, len2: nat)
    requires
        len <= len2 <= 32,
        aligned(addr, len),
    ensures
        aligned(addr, len2),
{
    lemma_pow2_adds((32 - len2) as nat, (len2 - len) as nat);
    assert(((32 - len2) as nat) + ((len2 - len) as nat) == (32 - len) as nat);
    lemma_pow2_pos((32 - len2) as nat);
    lemma_pow2_pos((len2 - len) as nat);
    lemma_mod_factor(addr, block_size(len2), pow2((len2 - len) as nat));
}

/// A nonzero value below `2^n` has fewer than `n` trailing zero bits.
pub proof fn lemma_trailing_zero_bits_bound(x: nat, n: nat)
    requires
        0 < x < pow2(n),
    ensures
        trailing_zero_bits(x) < n,
    decreases x,
{
    if n == 0 {
        lemma2_to64();
    } else if x % 2 == 1 {
    } else {
        lemma_pow2_unfold(n);
        lemma_divmod(x, 2);
        lemma_trailing_zero_bits_bound(x / 2, (n - 1) as nat);
    }
}

/// A value is divisible by `2^k` for every `k` up to its trailing zero count.
pub proof fn lemma_trailing_zero_bits(x: nat, k: nat)
    requires
        x < addr_space(),
        k <= trailing_zero_bits(x),
    ensures
        trailing_zero_bits(x) <= 32,
        x % pow2(k) == 0,
    decreases x,
{
    lemma2_to64();
    if x > 0 {
        lemma_trailing_zero_bits_bound(x, 32);
    }
    if x == 0 {
        lemma_pow2_pos(k);
        lemma_small_mod(0, pow2(k));
    } else if x % 2 == 1 {
        assert(k == 0);
        lemma_small_mod(0, 1);
        assert(x % 1 == 0);
    } else {
        lemma_divmod(x, 2);
        if k == 0 {
            assert(x % 1 == 0);
        } else {
            lemma_trailing_zero_bits(x / 2, (k - 1) as nat);
            lemma_divmod(x / 2, pow2((k - 1) as nat));
            lemma_pow2_adds((k - 1) as nat, 1);
            assert(((k - 1) as nat) + 1 == k);
            let q = (x / 2) / pow2((k - 1) as nat);
            assert(x == pow2(k) * q) by (nonlinear_arith)
                requires
                    x == 2 * (x / 2) + 0,
                    x / 2 == pow2((k - 1) as nat) * q + 0,
                    pow2(k) == pow2((k - 1) as nat) * 2,
            ;
            lemma_pow2_pos(k);
            lemma_mod_multiples_basic(q as int, pow2(k) as int);
            assert(q * pow2(k) == pow2(k) * q) by (nonlinear_arith);
        }
    }
}

/// A nonzero value is not divisible by `2^k` beyond its trailing zero count.
pub proof fn lemma_trailing_zero_bits_exact(x: nat, k: nat)
    requires
        0 < x < addr_space(),
        trailing_zero_bits(x) < k,
    ensures
        x % pow2(k) != 0,
    decreases x,
{
    lemma2_to64();
    lemma_pow2_pos(k);
    lemma_pow2_adds((k - 1) as nat, 1);
    assert(((k - 1) as nat) + 1 == k);
    lemma_pow2_pos((k - 1) as nat);
    lemma_divmod(x, 2);
    if x % pow2(k) == 0 {
        lemma_divmod(x, pow2(k));
        let q = x / pow2(k);
        if x % 2 == 1 {
            assert(x == 2 * (pow2((k - 1) as nat) * q)) by (nonlinear_arith)
                requires
                    x == pow2(k) * q + 0,
                    pow2(k) == pow2((k - 1) as nat) * 2,
            ;
            lemma_mod_multiples_basic((pow2((k - 1) as nat) * q) as int, 2);
            assert((pow2((k - 1) as nat) * q) * 2 == 2 * (pow2((k - 1) as nat) * q))
                by (nonlinear_arith);
        } else {
            assert(x / 2 == pow2((k - 1) as nat) * q) by (nonlinear_arith)
                requires
                    x == pow2(k) * q + 0,
                    x == 2 * (x / 2) + 0,
                    pow2(k) == pow2((k - 1) as nat) * 2,
            ;
            lemma_mod_multiples_basic(q as int, pow2((k - 1) as nat) as int);
            assert(q * pow2((k - 1) as nat) == pow2((k - 1) as nat) * q) by (nonlinear_arith);
            lemma_trailing_zero_bits_exact(x / 2, (k - 1) as nat);
        }
    }
}

/// `min_aligned_len(addr)` is exactly the set boundary of prefix lengths for
/// which `addr` is a network address.
pub proof fn lemma_min_aligned_len(addr: nat, len: nat)
    requires
        addr < addr_space(),
        len <= 32,
    ensures
        min_aligned_len(addr) <= 32,
        aligned(addr, len) <==> min_aligned_len(addr) <= len,
{
    lemma_trailing_zero_bits(addr, 0);
    if min_aligned_len(addr) <= len {
        lemma_trailing_zero_bits(addr, (32 - len) as nat);
    } else {
        lemma_trailing_zero_bits_exact(addr, (32 - len) as nat);
    }
}

/// Exact `2^(32 - len)` as a machine integer.
pub(crate) fn block_size_u64(len: u8) -> (r: u64)
    requires
        len <= 32,
    ensures
        r == block_size(len as nat),
        1 <= r <= addr_space(),
{
    proof {
        lemma_block_size_facts(len as nat);
        lemma_u64_pow2_no_overflow((32 - len) as nat);
        lemma_u64_shl_is_mul(1, (32 - len) as u64);
    }
    1u64 << ((32 - len) as u64)
}

/// The netmask of a prefix length: the top `len` bits set.
///
/// Fails when `len` is above 32.
pub fn get_cidr_mask(len: u8) -> (r: Result<u32, Ipv4Error>)
    ensures
        r is Err <==> len > MAX_LENGTH,
        r matches Err(e) ==> e == Ipv4Error::NetworkLengthTooLong,
        r matches Ok(m) ==> m as nat == netmask_of(len as nat),
{
    if len > MAX_LENGTH {
        Err(Ipv4Error::NetworkLengthTooLong)
    } else {
        let size = block_size_u64(len);
        Ok((0x1_0000_0000u64 - size) as u32)
    }
}

/// The netmask of the prefix length of `ipv4`.
pub fn get_cidr_mask_ipv4(ipv4: Ipv4) -> (r: Result<u32, Ipv4Error>)
    ensures
        r is Err <==> ipv4.mask > MAX_LENGTH,
        r matches Err(e) ==> e == Ipv4Error::NetworkLengthTooLong,
        r matches Ok(m) ==> m as nat == netmask_of(ipv4.mask as nat),
{
    get_cidr_mask(ipv4.mask)
}

/// The network address of the block of prefix length `len` that holds `addr`.
pub fn cut_addr(addr: u32, len: u8) -> (r: Result<u32, Ipv4Error>)
    ensures
        r is Err <==> len > MAX_LENGTH,
        r matches Err(e) ==> e == Ipv4Error::NetworkLengthTooLong,
        r matches Ok(a) ==> a as nat == net_of(addr as nat, len as nat),
{
    if len > MAX_LENGTH {
        Err(Ipv4Error::NetworkLengthTooLong)
    } else {
        let size = block_size_u64(len);
        let bits = addr as u64;
        proof {
            lemma_block(addr as nat, len as nat);
            lemma_divmod(bits as nat, size as nat);
        }
        Ok((bits - bits % size) as u32)
    }
}

/// Cuts `ipv4` down to the smaller block of prefix length `len` that holds
/// its address.
pub fn cut_addr_ipv4(ipv4: Ipv4, len: u8) -> (r: Result<Ipv4, Ipv4Error>)
    ensures
        r is Err <==> (len <= ipv4.mask || len > MAX_LENGTH),
        r matches Err(e) ==> (len <= ipv4.mask ==> e == Ipv4Error::CutToSmallerOnly) && (
        len > ipv4.mask ==> e == Ipv4Error::NetworkLengthTooLong),
        r matches Ok(c) ==> c.addr as nat == net_of(ipv4.addr as nat, len as nat) && c.mask
            == len,
{
    if len <= ipv4.mask {
        Err(Ipv4Error::CutToSmallerOnly)
    } else {
        let a = cut_addr(ipv4.addr, len)?;
        Ok(Ipv4 { addr: a, mask: len })
    }
}

/// The address that follows the block of prefix length `cidr` holding
/// `addr`.
///
/// Fails when `cidr` is above 32, or when that block is the last one of the
/// address space.
pub fn ip_after_subnet(addr: u32, cidr: u8) -> (r: Result<u32, Ipv4Error>)
    requires
        cidr != 0,
    ensures
        r is Err <==> (cidr > MAX_LENGTH || after_block(addr as nat, cidr as nat) >= addr_space()),
        r matches Err(e) ==> (cidr > MAX_LENGTH ==> e == Ipv4Error::NetworkLengthTooLong) && (
        cidr <= MAX_LENGTH ==> e == Ipv4Error::NextSubnetOverflow),
        r matches Ok(a) ==> a as nat == after_block(addr as nat, cidr as nat),
{
    if cidr > MAX_LENGTH {
        Err(Ipv4Error::NetworkLengthTooLong)
    } else {
        let network_bits = cut_addr(addr, cidr)?;
        let subnet_size = block_size_u64(cidr);
        proof {
            lemma_block_size_facts(cidr as nat);
            lemma2_to64();
            lemma_pow2_strictly_increases((32 - cidr) as nat, 32);
        }
        let subnet_size = subnet_size as u32;
        match network_bits.checked_add(subnet_size) {
            Some(n) => Ok(n),
            None => Err(Ipv4Error::NextSubnetOverflow),
        }
    }
}

/// The broadcast address of the block of prefix length `len` holding `addr`.
pub fn broadcast_addr(addr: u32, len: u8) -> (r: Result<u32, Ipv4Error>)
    ensures
        r is Err <==> len > MAX_LENGTH,
        r matches Err(e) ==> e == Ipv4Error::NetworkLengthTooLong,
        r matches Ok(a) ==> a as nat == bcast_of(addr as nat, len as nat),
{
    if len > MAX_LENGTH {
        Err(Ipv4Error::NetworkLengthTooLong)
    } else {
        let network_bits = cut_addr(addr, len)?;
        let size = block_size_u64(len);
        proof {
            lemma_block(addr as nat, len as nat);
        }
        Ok((network_bits as u64 + size - 1) as u32)
    }
}

/// Usable host addresses in an Azure subnet of prefix length `len`: Azure
/// keeps 5 addresses of every subnet for itself.
///
/// Fails for prefix lengths of 30 and above.
pub fn num_az_hosts(len: u8) -> (r: Result<u64, Ipv4Error>)
    ensures
        r is Err <==> len >= MAX_LENGTH - 2,
        r matches Err(e) ==> e == Ipv4Error::HostLengthInvalid,
        r matches Ok(n) ==> n == block_size(len as nat) - 5,
{
    if len >= MAX_LENGTH - 2 {
        Err(Ipv4Error::HostLengthInvalid)
    } else {
        let size = block_size_u64(len);
        proof {
            lemma2_to64();
            lemma_block_size_facts(len as nat);
            assert(block_size(len as nat) >= 8) by {
                if len < 29 {
                    lemma_pow2_strictly_increases(3, (32 - len) as nat);
                }
            }
        }
        Ok(size - 5)
    }
}

/// The smallest prefix length for which `ip` is a network address
/// (32 minus the number of trailing zero bits of `ip`).
pub fn lo_mask(ip: u32) -> (r: u8)
    ensures
        r as nat == min_aligned_len(ip as nat),
        r <= 32,
{
    proof {
        lemma2_to64();
        lemma_trailing_zero_bits(ip as nat, 0);
    }
    if ip == 0 {
        return 0;
    }
    let mut x: u32 = ip;
    let mut tz: u8 = 0;
    while x % 2 == 0
        invariant
            0 < x <= ip,
            tz + trailing_zero_bits(x as nat) == trailing_zero_bits(ip as nat),
            trailing_zero_bits(ip as nat) <= 32,
        decreases x,
    {
        x = x / 2;
        tz = tz + 1;
    }
    32 - tz
}

/// An IPv4 address with a prefix length, as in `10.0.0.0/24`.
#[derive(Debug, Clone, Copy, PartialEq, Eq, Structural, PartialOrd, Ord, Hash)]
pub struct Ipv4 {
    /// The address, as its 32-bit value.
    pub addr: u32,
    /// The prefix length (0-32 for a usable block).
    pub mask: u8,
}

impl Ipv4 {
    /// The prefix length is at most 32.
    pub open spec fn wf(self) -> bool {
        self.mask <= MAX_LENGTH
    }

    /// First address of the block.
    pub open spec fn lo_spec(self) -> nat {
        net_of(self.addr as nat, self.mask as nat)
    }

    /// Last address of the block.
    pub open spec fn hi_spec(self) -> nat {
        bcast_of(self.addr as nat, self.mask as nat)
    }

    /// The same block with its address replaced by the broadcast address.
    ///
    /// Fails when the prefix length is above 32.
    pub fn broadcast(&self) -> (r: Result<Ipv4, Ipv4Error>)
        ensures
            r is Err <==> !self.wf(),
            r matches Err(e) ==> e == Ipv4Error::NetworkLengthTooLong,
            r matches Ok(b) ==> b.addr as nat == self.hi_spec() && b.mask == self.mask,
    {
        let b = broadcast_addr(self.addr, self.mask)?;
        Ok(Ipv4 { addr: b, mask: self.mask })
    }

    /// The highest (broadcast) address in the block.
    pub fn hi(&self) -> (r: u32)
        requires
            self.wf(),
        ensures
            r as nat == self.hi_spec(),
    {
        match broadcast_addr(self.addr, self.mask) {
            Ok(b) => b,
            Err(_) => 0,
        }
    }

    /// The lowest (network) address in the block.
    pub fn lo(&self) -> (r: u32)
        requires
            self.wf(),
        ensures
            r as nat == self.lo_spec(),
    {
        match cut_addr(self.addr, self.mask) {
            Ok(a) => a,
            Err(_) => 0,
        }
    }

    /// Whether `ip` lies within the block.
    pub fn contains(&self, ip: u32) -> (r: bool)
        requires
            self.wf(),
        ensures
            r == (self.lo_spec() <= ip && ip <= self.hi_spec()),
    {
        ip >= self.lo() && ip <= self.hi()
    }
}

/// The block that follows `ipv4`, with prefix length `mask` (or the same
/// prefix length when `mask` is `None`).
///
/// When the new prefix length is not longer than the current one, the next
/// block is the one after the larger block holding `ipv4.addr`; otherwise it
/// is the one after the new-size block holding the broadcast address of
/// `ipv4`.
pub fn next_subnet_ipv4(ipv4: Ipv4, mask: Option<u8>) -> (r: Result<Ipv4, Ipv4Error>)
    requires
        mask.unwrap_or(ipv4.mask) != 0,
    ensures
        ({
            let new_mask = mask.unwrap_or(ipv4.mask);
            let start = if new_mask <= ipv4.mask {
                ipv4.addr as nat
            } else {
                bcast_of(ipv4.addr as nat, ipv4.mask as nat)
            };
            &&& r is Err <==> (new_mask > MAX_LENGTH || after_block(start, new_mask as nat)
                >= addr_space())
            &&& r matches Err(e) ==> (new_mask > MAX_LENGTH ==> e
                == Ipv4Error::NetworkLengthTooLong) && (new_mask <= MAX_LENGTH ==> e
                == Ipv4Error::NextSubnetOverflow)
            &&& r matches Ok(n) ==> n.addr as nat == after_block(start, new_mask as nat) && n.mask
                == new_mask
        }),
{
    let current_mask = ipv4.mask;
    let new_mask = match mask {
        Some(m) => m,
        None => current_mask,
    };
    if new_mask <= current_mask {
        let next_subnet = ip_after_subnet(ipv4.addr, new_mask)?;
        Ok(Ipv4 { addr: next_subnet, mask: new_mask })
    } else {
        let current_broadcast = broadcast_addr(ipv4.addr, current_mask)?;
        let next_subnet = ip_after_subnet(current_broadcast, new_mask)?;
        Ok(Ipv4 { addr: next_subnet, mask: new_mask })
    }
}

/// An octet of a dotted-quad address: one to three digits, no leading zero,
/// at most 255.
pub open spec fn octet_ok(p: Seq<char>) -> bool {
    &&& 1 <= p.len() <= 3
    &&& forall|i: int| 0 <= i < p.len() ==> is_digit(#[trigger] p[i])
    &&& (p.len() > 1 ==> p[0] != '0')
    &&& digits_value(p) <= 255
}

/// `s` is a dotted-quad address, as `Ipv4Addr::from_str` accepts it.
pub open spec fn addr_text_ok(s: Seq<char>) -> bool {
    let ps = split_on(s, '.');
    &&& ps.len() == 4
    &&& forall|i: int| 0 <= i < 4 ==> octet_ok(#[trigger] ps[i])
}

/// The 32-bit value of a dotted-quad address.
pub open spec fn addr_text_value(s: Seq<char>) -> nat {
    let ps = split_on(s, '.');
    digits_value(ps[0]) * 16777216 + digits_value(ps[1]) * 65536 + digits_value(ps[2]) * 256
        + digits_value(ps[3])
}

/// Dotted-quad text of an address, as `Ipv4Addr` displays it.
pub open spec fn addr_text(a: nat) -> Seq<char> {
    dec(a / 16777216) + seq!['.'] + dec((a / 65536) % 256) + seq!['.'] + dec((a / 256) % 256)
        + seq!['.'] + dec(a % 256)
}

/// `address/length` text of a block.
pub open spec fn cidr_text(c: Ipv4) -> Seq<char> {
    addr_text(c.addr as nat) + seq!['/'] + dec(c.mask as nat)
}

proof fn lemma_digits_value_bound(p: Seq<char>)
    requires
        forall|i: int| 0 <= i < p.len() ==> is_digit(#[trigger] p[i]),
        p.len() <= 3,
    ensures
        digits_value(p) <= 999,
        p.len() <= 2 ==> digits_value(p) <= 99,
        p.len() <= 1 ==> digits_value(p) <= 9,
        p.len() == 0 ==> digits_value(p) == 0,
    decreases p.len(),
{
    if p.len() > 0 {
        assert(is_digit(p[p.len() - 1]));
        lemma_digits_value_bound(p.drop_last());
    }
}

/// The value of one octet, or `None` when it is not a valid octet.
fn octet_value(p: &Vec<char>) -> (r: Option<u32>)
    ensures
        r is Some <==> octet_ok(p@),
        r matches Some(x) ==> x as nat == digits_value(p@),
{
    let n = p.len();
    if n < 1 || n > 3 {
        return None;
    }
    if n > 1 && p[0] == '0' {
        return None;
    }
    let mut acc: u32 = 0;
    let mut k: usize = 0;
    assert(p@.subrange(0, 0) =~= Seq::<char>::empty());
    while k < n
        invariant
            k <= n == p@.len() <= 3,
            forall|i: int| 0 <= i < k ==> is_digit(#[trigger] p@[i]),
            acc as nat == digits_value(p@.subrange(0, k as int)),
            acc <= 999,
        decreases n - k,
    {
        if !is_digit_exec(p[k]) {
            return None;
        }
        assert(p@.subrange(0, k + 1).drop_last() =~= p@.subrange(0, k as int));
        proof {
            lemma_digits_value_bound(p@.subrange(0, k as int));
        }
        acc = acc * 10 + (p[k] as u32 - 48);
        k += 1;
    }
    assert(p@.subrange(0, n as int) =~= p@);
    if acc > 255 {
        return None;
    }
    Some(acc)
}

/// `Ipv4Addr::from_str` on a sequence of characters.
pub fn parse_addr(v: &Vec<char>) -> (r: Option<u32>)
    ensures
        r is Some <==> addr_text_ok(v@),
        r matches Some(a) ==> a as nat == addr_text_value(v@),
{
    let parts = split_chars(v, '.');
    if parts.len() != 4 {
        return None;
    }
    assert(parts@[0]@ == split_on(v@, '.')[0]);
    assert(parts@[1]@ == split_on(v@, '.')[1]);
    assert(parts@[2]@ == split_on(v@, '.')[2]);
    assert(parts@[3]@ == split_on(v@, '.')[3]);
    let a = match octet_value(&parts[0]) {
        Some(x) => x,
        None => {
            return None;
        },
    };
    let b = match octet_value(&parts[1]) {
        Some(x) => x,
        None => {
            return None;
        },
    };
    let c = match octet_value(&parts[2]) {
        Some(x) => x,
        None => {
            return None;
        },
    };
    let d = match octet_value(&parts[3]) {
        Some(x) => x,
        None => {
            return None;
        },
    };
    assert(forall|i: int| 0 <= i < 4 ==> octet_ok(#[trigger] split_on(v@, '.')[i])) by {
        assert forall|i: int| 0 <= i < 4 implies octet_ok(#[trigger] split_on(v@, '.')[i]) by {
            if i == 0 {
            } else if i == 1 {
            } else if i == 2 {
            } else {
            }
        }
    }
    Some(a * 16777216 + b * 65536 + c * 256 + d)
}

/// Dotted-quad text of an address.
pub fn addr_chars(a: u32) -> (r: Vec<char>)
    ensures
        r@ == addr_text(a as nat),
{
    let mut r = decimal_chars((a / 16777216) as u64);
    r.push('.');
    let x = decimal_chars(((a / 65536) % 256) as u64);
    append_chars(&mut r, &x);
    r.push('.');
    let y = decimal_chars(((a / 256) % 256) as u64);
    append_chars(&mut r, &y);
    r.push('.');
    let z = decimal_chars((a % 256) as u64);
    append_chars(&mut r, &z);
    r
}

/// Dotted-quad text of an address, as a `String`.
pub fn addr_string(a: u32) -> (r: String)
    ensures
        r@ == addr_text(a as nat),
{
    let v = addr_chars(a);
    string_from_chars(v.as_slice())
}

/// The outcome of reading `address/length` text: the text split at `/`
/// must have two parts, an address and an 8-bit length; with `check_len`
/// the length must also be at most 32.
pub open spec fn cidr_parse_ok(s: Seq<char>, check_len: bool) -> bool {
    let ps = split_on(s, '/');
    &&& ps.len() == 2
    &&& addr_text_ok(ps[0])
    &&& parse_u8_spec(ps[1]) is Ok
    &&& (check_len ==> parse_u8_spec(ps[1])->Ok_0 <= MAX_LENGTH)
}

/// The block that `address/length` text denotes, once it reads.
pub open spec fn cidr_parse_value(s: Seq<char>) -> Ipv4 {
    let ps = split_on(s, '/');
    Ipv4 { addr: addr_text_value(ps[0]) as u32, mask: parse_u8_spec(ps[1])->Ok_0 }
}

/// Errors raised by the IPv4 helpers; `message` gives their text.
#[derive(Debug, Clone, PartialEq, Eq)]
pub enum Ipv4Error {
    /// A prefix length above 32.
    NetworkLengthTooLong,
    /// A cut that would not make the block smaller.
    CutToSmallerOnly,
    /// The block is the last one of the address space.
    NextSubnetOverflow,
    /// A prefix length of 30 or more, for which Azure has no usable hosts.
    HostLengthInvalid,
    /// Text that is not `address/mask`.
    InvalidAddressMask,
    /// The address part is not a dotted-quad address.
    InvalidAddress(String),
    /// The mask part is not an 8-bit number.
    InvalidMask(IntParseError),
    /// Stored block text that is not `address/mask`.
    InvalidCidrFormat(String),
    /// Stored block text whose address part does not read.
    InvalidIpAddress(String),
    /// Stored block text whose mask part does not read.
    InvalidSubnetMask(String),
}

impl IntParseError {
    /// The text std gives the same kind of `ParseIntError`.
    pub open spec fn message_text(self) -> Seq<char> {
        match self {
            IntParseError::Empty => "cannot parse integer from empty string"@,
            IntParseError::InvalidDigit => "invalid digit found in string"@,
            IntParseError::PosOverflow => "number too large to fit in target type"@,
        }
    }

    pub fn message(&self) -> (r: String)
        ensures
            r@ == self.message_text(),
    {
        match self {
            IntParseError::Empty => "cannot parse integer from empty string".to_owned(),
            IntParseError::InvalidDigit => "invalid digit found in string".to_owned(),
            IntParseError::PosOverflow => "number too large to fit in target type".to_owned(),
        }
    }
}

impl Ipv4Error {
    /// The text of the error.
    pub open spec fn message_text(self) -> Seq<char> {
        match self {
            Ipv4Error::NetworkLengthTooLong => "Network length is too long"@,
            Ipv4Error::CutToSmallerOnly => "Network can only be cut to a smaller size"@,
            Ipv4Error::NextSubnetOverflow => "Next subnet calculation overflowed"@,
            Ipv4Error::HostLengthInvalid => "Network length is too long or invalid"@,
            Ipv4Error::InvalidAddressMask => "Invalid address/mask"@,
            Ipv4Error::InvalidAddress(a) => "Invalid address "@ + a@,
            Ipv4Error::InvalidMask(k) => k.message_text(),
            Ipv4Error::InvalidCidrFormat(t) => "invalid CIDR format: "@ + t@,
            Ipv4Error::InvalidIpAddress(t) => "invalid IP address: "@ + t@,
            Ipv4Error::InvalidSubnetMask(t) => "invalid subnet mask: "@ + t@,
        }
    }

    /// The text of the error.
    pub fn message(&self) -> (r: String)
        ensures
            r@ == self.message_text(),
    {
        match self {
            Ipv4Error::NetworkLengthTooLong => "Network length is too long".to_owned(),
            Ipv4Error::CutToSmallerOnly => "Network can only be cut to a smaller size".to_owned(),
            Ipv4Error::NextSubnetOverflow => "Next subnet calculation overflowed".to_owned(),
            Ipv4Error::HostLengthInvalid => "Network length is too long or invalid".to_owned(),
            Ipv4Error::InvalidAddressMask => "Invalid address/mask".to_owned(),
            Ipv4Error::InvalidAddress(a) => prefixed("Invalid address ", a.as_str()),
            Ipv4Error::InvalidMask(k) => k.message(),
            Ipv4Error::InvalidCidrFormat(t) => prefixed("invalid CIDR format: ", t.as_str()),
            Ipv4Error::InvalidIpAddress(t) => prefixed("invalid IP address: ", t.as_str()),
            Ipv4Error::InvalidSubnetMask(t) => prefixed("invalid subnet mask: ", t.as_str()),
        }
    }
}

fn prefixed(head: &str, tail: &str) -> (r: String)
    ensures
        r@ == head@ + tail@,
{
    let mut v = chars_of(head);
    append_str(&mut v, tail);
    string_from_chars(v.as_slice())
}

impl Ipv4 {
    /// `address/length` text of the block, as `10.0.0.0/24`.
    pub fn to_string(&self) -> (r: String)
        ensures
            r@ == cidr_text(*self),
    {
        let mut v = addr_chars(self.addr);
        v.push('/');
        let m = decimal_chars(self.mask as u64);
        append_chars(&mut v, &m);
        string_from_chars(v.as_slice())
    }

    /// Reads `address/length` text such as `"10.0.0.0/24"`; white space
    /// around the text is ignored and the length must be at most 32.
    pub fn new(addr_cidr: &str) -> (r: Result<Ipv4, Ipv4Error>)
        ensures
            ({
                let t = trim_ws(addr_cidr@);
                let ps = split_on(t, '/');
                &&& r is Ok <==> cidr_parse_ok(t, true)
                &&& r matches Ok(c) ==> c == cidr_parse_value(t)
                &&& ps.len() != 2 ==> r == Err::<Ipv4, Ipv4Error>(Ipv4Error::InvalidAddressMask)
                &&& ps.len() == 2 && !addr_text_ok(ps[0]) ==> r is Err
                    && r->Err_0 is InvalidAddress && r->Err_0->InvalidAddress_0@ == ps[0]
                &&& ps.len() == 2 && addr_text_ok(ps[0]) && parse_u8_spec(ps[1]) is Err ==> r
                    == Err::<Ipv4, Ipv4Error>(Ipv4Error::InvalidMask(parse_u8_spec(ps[1])->Err_0))
                &&& ps.len() == 2 && addr_text_ok(ps[0]) && parse_u8_spec(ps[1]) is Ok
                    && parse_u8_spec(ps[1])->Ok_0 > MAX_LENGTH ==> r == Err::<Ipv4, Ipv4Error>(
                    Ipv4Error::NetworkLengthTooLong,
                )
            }),
    {
        let all = chars_of(addr_cidr);
        let t = trim_ws_chars(&all);
        let parts = split_chars(&t, '/');
        if parts.len() != 2 {
            return Err(Ipv4Error::InvalidAddressMask);
        }
        assert(parts@[0]@ == split_on(t@, '/')[0]);
        assert(parts@[1]@ == split_on(t@, '/')[1]);
        let addr = match parse_addr(&parts[0]) {
            Some(a) => a,
            None => {
                return Err(Ipv4Error::InvalidAddress(string_from_chars(parts[0].as_slice())));
            },
        };
        let mask = match parse_u8(&parts[1]) {
            Ok(m) => m,
            Err(k) => {
                return Err(Ipv4Error::InvalidMask(k));
            },
        };
        if mask > MAX_LENGTH {
            return Err(Ipv4Error::NetworkLengthTooLong);
        }
        Ok(Ipv4 { addr, mask })
    }

    /// Reads `address/length` text as it is stored in cache files: no white
    /// space is ignored and the length is not checked.
    pub fn from_cidr_text(s: &str) -> (r: Result<Ipv4, Ipv4Error>)
        ensures
            ({
                let ps = split_on(s@, '/');
                &&& r is Ok <==> cidr_parse_ok(s@, false)
                &&& r matches Ok(c) ==> c == cidr_parse_value(s@)
                &&& ps.len() != 2 ==> r is Err && r->Err_0 is InvalidCidrFormat
                    && r->Err_0->InvalidCidrFormat_0@ == s@
                &&& ps.len() == 2 && !addr_text_ok(ps[0]) ==> r is Err
                    && r->Err_0 is InvalidIpAddress && r->Err_0->InvalidIpAddress_0@ == ps[0]
                &&& ps.len() == 2 && addr_text_ok(ps[0]) && parse_u8_spec(ps[1]) is Err ==> r is Err
                    && r->Err_0 is InvalidSubnetMask && r->Err_0->InvalidSubnetMask_0@ == ps[1]
            }),
    {
        let all = chars_of(s);
        let parts = split_chars(&all, '/');
        if parts.len() != 2 {
            return Err(Ipv4Error::InvalidCidrFormat(string_from_chars(all.as_slice())));
        }
        assert(parts@[0]@ == split_on(all@, '/')[0]);
        assert(parts@[1]@ == split_on(all@, '/')[1]);
        let addr = match parse_addr(&parts[0]) {
            Some(a) => a,
            None => {
                return Err(Ipv4Error::InvalidIpAddress(string_from_chars(parts[0].as_slice())));
            },
        };
        let mask = match parse_u8(&parts[1]) {
            Ok(m) => m,
            Err(_) => {
                return Err(Ipv4Error::InvalidSubnetMask(string_from_chars(parts[1].as_slice())));
            },
        };
        Ok(Ipv4 { addr, mask })
    }
}


/// Why a decimal `u8` could not be read (the kinds of std's `ParseIntError`).
#[derive(Debug, Clone, Copy, PartialEq, Eq)]
pub enum IntParseError {
    Empty,
    InvalidDigit,
    PosOverflow,
}

proof fn lemma_concat_without(a: Seq<char>, b: Seq<char>, c: char)
    requires
        !a.contains(c),
        !b.contains(c),
    ensures
        !(a + b).contains(c),
{
    if (a + b).contains(c) {
        let i = choose|i: int| 0 <= i < (a + b).len() && (a + b)[i] == c;
        if i < a.len() {
            assert(a[i] == c);
        } else {
            assert(b[i - a.len()] == c);
        }
    }
}

proof fn lemma_dec_without(n: nat, c: char)
    requires
        !is_digit(c),
    ensures
        !dec(n).contains(c),
{
    lemma_dec_facts(n);
    if dec(n).contains(c) {
        let i = choose|i: int| 0 <= i < dec(n).len() && dec(n)[i] == c;
        assert(is_digit(dec(n)[i]));
    }
}

proof fn lemma_octet_dec(n: nat)
    requires
        n <= 255,
    ensures
        octet_ok(dec(n)),
        digits_value(dec(n)) == n,
{
    lemma_dec_facts(n);
}

/// Law (text round trip): the `address/length` text of a block with a
/// prefix length of at most 32 reads back as that block, so
/// `Ipv4::new(&x.to_string())` gives `Ok(x)`.
pub proof fn lemma_cidr_text_round_trip(c: Ipv4)
    requires
        c.wf(),
    ensures
        trim_ws(cidr_text(c)) == cidr_text(c),
        cidr_parse_ok(cidr_text(c), true),
        cidr_parse_value(cidr_text(c)) == c,
{
    let u = c.addr;
    let v = u as u64;
    let a = u as nat;
    assert(v / 16777216 < 256 && (v / 65536) % 256 < 256 && (v / 256) % 256 < 256 && v % 256 < 256
        && v == (v / 16777216) * 16777216 + ((v / 65536) % 256) * 65536 + ((v / 256) % 256) * 256
        + v % 256) by (bit_vector)
        requires
            v < 4294967296,
    ;
    let x1 = a / 16777216;
    let x2 = (a / 65536) % 256;
    let x3 = (a / 256) % 256;
    let x4 = a % 256;
    assert(x1 == v / 16777216 && x2 == (v / 65536) % 256 && x3 == (v / 256) % 256 && x4 == v % 256);
    lemma_octet_dec(x1);
    lemma_octet_dec(x2);
    lemma_octet_dec(x3);
    lemma_octet_dec(x4);
    let d1 = dec(x1);
    let d2 = dec(x2);
    let d3 = dec(x3);
    let d4 = dec(x4);
    let m = dec(c.mask as nat);
    lemma_dec_facts(c.mask as nat);
    assert(!is_digit('.') && !is_digit('/'));
    lemma_dec_without(x1, '.');
    lemma_dec_without(x2, '.');
    lemma_dec_without(x3, '.');
    lemma_dec_without(x4, '.');
    lemma_dec_without(x1, '/');
    lemma_dec_without(x2, '/');
    lemma_dec_without(x3, '/');
    lemma_dec_without(x4, '/');
    lemma_dec_without(c.mask as nat, '/');
    let p1 = d1 + seq!['.'] + d2;
    let p2 = p1 + seq!['.'] + d3;
    let at = p2 + seq!['.'] + d4;
    assert(at == addr_text(a));
    lemma_split_without_sep(d1, '.');
    lemma_split_append(d1, d2, '.');
    lemma_split_append(p1, d3, '.');
    lemma_split_append(p2, d4, '.');
    let ps = split_on(at, '.');
    assert(ps =~= seq![d1, d2, d3, d4]);
    assert forall|i: int| 0 <= i < 4 implies octet_ok(#[trigger] ps[i]) by {
        if i == 0 {
            assert(ps[i] == d1);
        } else if i == 1 {
            assert(ps[i] == d2);
        } else if i == 2 {
            assert(ps[i] == d3);
        } else {
            assert(ps[i] == d4);
        }
    }
    assert(addr_text_ok(at));
    assert(!seq!['.'].contains('/')) by {
        if seq!['.'].contains('/') {
            let i = choose|i: int| 0 <= i < 1 && seq!['.'][i] == '/';
        }
    }
    lemma_concat_without(d1, seq!['.'], '/');
    lemma_concat_without(d1 + seq!['.'], d2, '/');
    lemma_concat_without(p1, seq!['.'], '/');
    lemma_concat_without(p1 + seq!['.'], d3, '/');
    lemma_concat_without(p2, seq!['.'], '/');
    lemma_concat_without(p2 + seq!['.'], d4, '/');
    lemma_split_without_sep(at, '/');
    lemma_split_append(at, m, '/');
    let t = cidr_text(c);
    assert(t == at + seq!['/'] + m);
    let qs = split_on(t, '/');
    assert(qs =~= seq![at, m]);
    lemma_parse_u8_dec(c.mask);
    assert(addr_text_value(at) == a);
    assert(cidr_parse_ok(t, true));
    assert(cidr_parse_value(t) == c);
    assert(t[0] == d1[0]);
    assert(is_digit(d1[0]));
    assert(t.last() == m.last());
    assert(is_digit(m[m.len() - 1]));
    assert(!is_ws(t[0]) && !is_ws(t.last()));
    assert(trim_start_by(t, |ch: char| is_ws(ch)) == t);
    assert(trim_end_by(t, |ch: char| is_ws(ch)) == t);
}

} // verus!
