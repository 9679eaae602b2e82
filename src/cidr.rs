//! IPv4 CIDR blocks and the table of edge-network ranges.
use crate::ipv4::{dotted_quad, parse_ipv4};
use std::str::FromStr;
use vstd::string::StringSliceAdditionalSpecFns;
use vstd::prelude::*;

verus! {

/// Netmask with the top `prefix` bits set (`prefix` at most 32).
pub open spec fn prefix_mask(prefix: u8) -> u32 {
    if prefix == 0 {
        0u32
    } else {
        0xffff_ffffu32 << ((32 - prefix) as u32)
    }
}

/// `ip` lies in the block with base `network` and length `prefix`:
/// `ip & mask == network & mask`.
pub open spec fn in_block(network: u32, prefix: u8, ip: u32) -> bool {
    ip & prefix_mask(prefix) == network & prefix_mask(prefix)
}

/// The first address of a block (its network address).
pub open spec fn block_first(network: u32, prefix: u8) -> u32 {
    network & prefix_mask(prefix)
}

/// The last address of a block (its broadcast address).
pub open spec fn block_last(network: u32, prefix: u8) -> u32 {
    (network & prefix_mask(prefix)) | !prefix_mask(prefix)
}

fn mask_for(prefix: u8) -> (m: u32)
    requires
        prefix <= 32,
    ensures
        m == prefix_mask(prefix),
{
    if prefix == 0 {
        0
    } else {
        0xffff_ffffu32 << ((32 - prefix) as u32)
    }
}

/// A block is exactly the contiguous range from its first to its last
/// address, both ends included.
pub proof fn lemma_block_is_range(network: u32, prefix: u8, ip: u32)
    requires
        prefix <= 32,
    ensures
        in_block(network, prefix, ip) <==> block_first(network, prefix) <= ip
            <= block_last(network, prefix),
{
    if prefix == 0 {
        assert(ip & 0u32 == network & 0u32 && (network & 0u32) <= ip && ip <= ((network & 0u32)
            | !0u32)) by (bit_vector);
    } else {
        let k: u32 = (32 - prefix) as u32;
        assert(k < 32);
        assert(((ip & (0xffff_ffffu32 << k)) == (network & (0xffff_ffffu32 << k))) <==> ((network
            & (0xffff_ffffu32 << k)) <= ip && ip <= ((network & (0xffff_ffffu32 << k)) | !(
        0xffff_ffffu32 << k)))) by (bit_vector)
            requires
                k < 32,
        ;
    }
}

/// An IPv4 CIDR block: a base address and a prefix length of at most 32.
#[derive(Clone, Copy, Debug, PartialEq, Eq)]
pub struct CidrBlock {
    network: u32,
    prefix: u8,
}

impl CidrBlock {
    /// The prefix is at most 32 bits long.
    pub open spec fn wf(self) -> bool {
        self.spec_prefix() <= 32
    }

    pub closed spec fn spec_network(self) -> u32 {
        self.network
    }

    pub closed spec fn spec_prefix(self) -> u8 {
        self.prefix
    }

    /// Whether `ip` lies in this block.
    pub open spec fn spec_contains(self, ip: u32) -> bool {
        in_block(self.spec_network(), self.spec_prefix(), ip)
    }

    /// The block with base `network` and length `prefix`; `None` when the
    /// prefix is longer than 32 bits.
    pub fn new(network: u32, prefix: u8) -> (r: Option<CidrBlock>)
        ensures
            r is Some <==> prefix <= 32,
            r matches Some(b) ==> b.spec_network() == network && b.spec_prefix() == prefix
                && b.wf(),
    {
        if prefix <= 32 {
            Some(CidrBlock { network, prefix })
        } else {
            None
        }
    }

    pub fn network(&self) -> (r: u32)
        ensures
            r == self.spec_network(),
    {
        self.network
    }

    pub fn prefix(&self) -> (r: u8)
        ensures
            r == self.spec_prefix(),
    {
        self.prefix
    }

    /// Standard prefix masking: `ip & mask == network & mask`.
    pub fn contains(&self, ip: u32) -> (r: bool)
        requires
            self.wf(),
        ensures
            r == self.spec_contains(ip),
    {
        let m = mask_for(self.prefix);
        ip & m == self.network & m
    }

    /// The network address, the lowest address of the block.
    pub fn first_address(&self) -> (r: u32)
        requires
            self.wf(),
        ensures
            r == block_first(self.spec_network(), self.spec_prefix()),
            self.spec_contains(r),
    {
        proof {
            lemma_block_is_range(self.network, self.prefix, self.network & prefix_mask(self.prefix));
            let n = self.network;
            let m = prefix_mask(self.prefix);
            assert(((n & m) & m) == (n & m)) by (bit_vector);
        }
        let m = mask_for(self.prefix);
        self.network & m
    }

    /// The broadcast address, the highest address of the block.
    pub fn last_address(&self) -> (r: u32)
        requires
            self.wf(),
        ensures
            r == block_last(self.spec_network(), self.spec_prefix()),
            self.spec_contains(r),
    {
        proof {
            let n = self.network;
            let m = prefix_mask(self.prefix);
            assert((((n & m) | !m) & m) == (n & m)) by (bit_vector);
        }
        let m = mask_for(self.prefix);
        (self.network & m) | !m
    }
}

/// What ipnetwork's parser makes of a CIDR text: base address and prefix.
pub uninterp spec fn parsed_cidr(text: Seq<char>) -> Option<(u32, u8)>;

/// Relies on ipnetwork's `Ipv4Network::from_str`, which reads `a.b.c.d/p`
/// (or a bare address, as a /32) and refuses any prefix over 32; the address
/// is handed back as written, `ip()`, with its prefix, `prefix()`.
#[verifier::external_body]
fn parse_cidr(text: &str) -> (r: Option<(u32, u8)>)
    ensures
        r == parsed_cidr(text@),
        r matches Some(p) ==> p.1 <= 32,
{
    match ipnetwork::Ipv4Network::from_str(text) {
        Ok(net) => Some((u32::from(net.ip()), net.prefix())),
        Err(_) => None,
    }
}

/// The blocks that the texts denote, in order, skipping those that do not parse.
pub open spec fn cidrs_of(texts: Seq<Seq<char>>) -> Seq<(u32, u8)>
    decreases texts.len(),
{
    if texts.len() == 0 {
        Seq::empty()
    } else {
        let rest = cidrs_of(texts.drop_last());
        match parsed_cidr(texts.last()) {
            Some(p) => rest.push(p),
            None => rest,
        }
    }
}

/// The edge-network ranges published by Cloudflare, as CIDR texts.
pub open spec fn cloudflare_texts() -> Seq<Seq<char>> {
    seq![
        "173.245.48.0/20"@,
        "103.21.244.0/22"@,
        "103.22.200.0/22"@,
        "103.31.4.0/22"@,
        "141.101.64.0/18"@,
        "108.162.192.0/18"@,
        "190.93.240.0/20"@,
        "188.114.96.0/20"@,
        "197.234.240.0/22"@,
        "198.41.128.0/17"@,
        "162.158.0.0/15"@,
        "104.16.0.0/13"@,
        "104.24.0.0/14"@,
        "172.64.0.0/13"@,
        "131.0.72.0/22"@,
    ]
}

/// The CIDR texts of `cloudflare_texts`.
pub fn cloudflare_ranges() -> (r: Vec<&'static str>)
    ensures
        r@.map_values(|t: &str| t@) == cloudflare_texts(),
{
    let r = vec![
        "173.245.48.0/20",
        "103.21.244.0/22",
        "103.22.200.0/22",
        "103.31.4.0/22",
        "141.101.64.0/18",
        "108.162.192.0/18",
        "190.93.240.0/20",
        "188.114.96.0/20",
        "197.234.240.0/22",
        "198.41.128.0/17",
        "162.158.0.0/15",
        "104.16.0.0/13",
        "104.24.0.0/14",
        "172.64.0.0/13",
        "131.0.72.0/22",
    ];
    assert(r@.map_values(|t: &str| t@) =~= cloudflare_texts());
    r
}

/// A fixed, read-only table of CIDR blocks that belong to an edge network.
#[derive(Clone, Debug)]
pub struct EdgeNetworkTable {
    blocks: Vec<CidrBlock>,
}

impl View for EdgeNetworkTable {
    type V = Seq<(u32, u8)>;

    closed spec fn view(&self) -> Seq<(u32, u8)> {
        self.blocks@.map_values(|b: CidrBlock| (b.spec_network(), b.spec_prefix()))
    }
}

/// `ip` lies in one of the blocks.
pub open spec fn in_some_block(blocks: Seq<(u32, u8)>, ip: u32) -> bool {
    exists|i: int| 0 <= i < blocks.len() && #[trigger] in_block(blocks[i].0, blocks[i].1, ip)
}

impl EdgeNetworkTable {
    /// Every block of the table has a prefix of at most 32 bits.
    pub open spec fn wf(&self) -> bool {
        forall|i: int| 0 <= i < self@.len() ==> #[trigger] self@[i].1 <= 32
    }

    /// The table made of the given blocks, in order.
    pub fn new(blocks: Vec<CidrBlock>) -> (r: EdgeNetworkTable)
        requires
            forall|i: int| 0 <= i < blocks@.len() ==> #[trigger] blocks@[i].wf(),
        ensures
            r@ == blocks@.map_values(|b: CidrBlock| (b.spec_network(), b.spec_prefix())),
            r.wf(),
    {
        let r = EdgeNetworkTable { blocks };
        assert forall|i: int| 0 <= i < r@.len() implies #[trigger] r@[i].1 <= 32 by {
            assert(r.blocks@[i].wf());
        }
        r
    }

    /// The table of the blocks that the texts denote, in order; a text that
    /// does not parse as an IPv4 CIDR block is left out.
    pub fn from_cidr_texts(texts: &Vec<&str>) -> (r: EdgeNetworkTable)
        ensures
            r@ == cidrs_of(texts@.map_values(|t: &str| t@)),
            r.wf(),
    {
        let ghost views = texts@.map_values(|t: &str| t@);
        let mut blocks: Vec<CidrBlock> = Vec::new();
        let mut i: usize = 0;
        while i < texts.len()
            invariant
                i <= texts@.len(),
                views == texts@.map_values(|t: &str| t@),
                blocks@.map_values(|b: CidrBlock| (b.spec_network(), b.spec_prefix())) == cidrs_of(
                    views.subrange(0, i as int),
                ),
                forall|j: int| 0 <= j < blocks@.len() ==> #[trigger] blocks@[j].wf(),
            decreases texts@.len() - i,
        {
            let parsed = parse_cidr(texts[i]);
            proof {
                assert(views.subrange(0, i + 1).drop_last() == views.subrange(0, i as int));
                assert(views.subrange(0, i + 1).last() == texts@[i as int]@);
            }
            match parsed {
                Some(p) => {
                    let b = CidrBlock { network: p.0, prefix: p.1 };
                    blocks.push(b);
                    assert(blocks@.map_values(|b: CidrBlock| (b.spec_network(), b.spec_prefix()))
                        =~= cidrs_of(views.subrange(0, i + 1)));
                },
                None => {},
            }
            i = i + 1;
        }
        assert(views.subrange(0, texts@.len() as int) == views);
        EdgeNetworkTable::new(blocks)
    }

    /// The Cloudflare table, from `cloudflare_ranges`.
    pub fn cloudflare() -> (r: EdgeNetworkTable)
        ensures
            r@ == cidrs_of(cloudflare_texts()),
            r.wf(),
    {
        let texts = cloudflare_ranges();
        EdgeNetworkTable::from_cidr_texts(&texts)
    }

    /// Checks `wf`: every block's prefix is at most 32 bits long.
    pub fn is_well_formed(&self) -> (r: bool)
        ensures
            r == self.wf(),
    {
        let mut i: usize = 0;
        while i < self.blocks.len()
            invariant
                i <= self@.len(),
                forall|j: int| 0 <= j < i ==> #[trigger] self@[j].1 <= 32,
            decreases self@.len() - i,
        {
            if self.blocks[i].prefix > 32 {
                assert(self@[i as int].1 > 32);
                return false;
            }
            i = i + 1;
        }
        true
    }

    /// Number of blocks.
    pub fn len(&self) -> (r: usize)
        ensures
            r == self@.len(),
    {
        self.blocks.len()
    }

    /// Containment test over the table: true on the first block that holds
    /// `ip`; the order of the blocks does not matter.
    pub fn is_edge_network(&self, ip: u32) -> (r: bool)
        requires
            self.wf(),
        ensures
            r == in_some_block(self@, ip),
    {
        let mut i: usize = 0;
        while i < self.blocks.len()
            invariant
                i <= self@.len(),
                self.wf(),
                forall|j: int| 0 <= j < i ==> !#[trigger] in_block(self@[j].0, self@[j].1, ip),
            decreases self@.len() - i,
        {
            assert(self@[i as int].1 <= 32);
            assert(self.blocks@[i as int].wf());
            if self.blocks[i].contains(ip) {
                assert(in_block(self@[i as int].0, self@[i as int].1, ip));
                return true;
            }
            i = i + 1;
        }
        false
    }
}

/// Whether `ip`, an IPv4 address in dotted-decimal text, lies in the
/// Cloudflare table; false for any text that is not such an address.
pub fn is_cloudflare_ip(ip: &str) -> (r: bool)
    ensures
        r == exists|a: u32|
            ip.spec_bytes() == #[trigger] dotted_quad(a) && in_some_block(
                cidrs_of(cloudflare_texts()),
                a,
            ),
{
    match parse_ipv4(ip.as_bytes()) {
        Some(a) => {
            let t = EdgeNetworkTable::cloudflare();
            let r = t.is_edge_network(a);
            proof {
                if !r {
                    assert forall|c: u32|
                        !(ip.spec_bytes() == #[trigger] dotted_quad(c) && in_some_block(
                            cidrs_of(cloudflare_texts()),
                            c,
                        )) by {
                        if ip.spec_bytes() == dotted_quad(c) {
                            assert(c == a);
                        }
                    }
                }
            }
            r
        },
        None => false,
    }
}

/// Both ends of every block of a table, its network address and its
/// broadcast address, are edge-network addresses, and so is every address
/// between them.
pub proof fn lemma_block_bounds_are_edge(t: EdgeNetworkTable, i: int, ip: u32)
    requires
        t.wf(),
        0 <= i < t@.len(),
        block_first(t@[i].0, t@[i].1) <= ip <= block_last(t@[i].0, t@[i].1),
    ensures
        in_some_block(t@, block_first(t@[i].0, t@[i].1)),
        in_some_block(t@, block_last(t@[i].0, t@[i].1)),
        in_some_block(t@, ip),
{
    let (n, p) = t@[i];
    lemma_block_is_range(n, p, block_first(n, p));
    lemma_block_is_range(n, p, block_last(n, p));
    lemma_block_is_range(n, p, ip);
    let m = prefix_mask(p);
    assert((n & m) <= ((n & m) | !m)) by (bit_vector);
}

/// An address outside every block of a table is not an edge-network address.
pub proof fn lemma_outside_all_blocks(t: EdgeNetworkTable, ip: u32)
    requires
        t.wf(),
        forall|i: int|
            0 <= i < t@.len() ==> ip < block_first(t@[i].0, t@[i].1) || block_last(t@[i].0, t@[i].1)
                < ip,
    ensures
        !in_some_block(t@, ip),
{
    assert forall|i: int| 0 <= i < t@.len() implies !#[trigger] in_block(t@[i].0, t@[i].1, ip) by {
        lemma_block_is_range(t@[i].0, t@[i].1, ip);
    }
}

} // verus!
