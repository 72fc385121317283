//! Server-configuration parsing: the comma-separated list values, the
//! blocked-traffic patterns, the allowed origins, and the page-offset CIDR
//! blocklist.
//!
//! Reading the environment happens at the application edge; each raw value
//! is handed in here as text and parsed under an exact contract.

use vstd::prelude::*;
use vstd::string::*;

use crate::strutil::find_char;
use crate::strutil::index_of_char;
use crate::strutil::lemma_index_of_char;
use crate::strutil::lemma_split_nonempty;
use crate::strutil::split_on;
use crate::strutil::split_string;
use crate::strutil::split_terminator_on;
use crate::strutil::str_eq;

verus! {

/// A CIDR block of the page-offset blocklist, as the library reads it:
/// the family, the address as one integer, and the prefix length.
#[derive(PartialEq, Eq, Structural, Clone, Copy, Debug)]
pub enum CidrBlock {
    /// An IPv4 network: address and prefix length.
    V4 { addr: u32, prefix: u8 },
    /// An IPv6 network: address and prefix length.
    V6 { addr: u128, prefix: u8 },
}

impl CidrBlock {
    /// The prefix length of the block.
    pub open spec fn spec_prefix(self) -> u8 {
        match self {
            CidrBlock::V4 { prefix, .. } => prefix,
            CidrBlock::V6 { prefix, .. } => prefix,
        }
    }

    /// The shortest host prefix the blocklist accepts for this family:
    /// 16 bits for IPv4, 64 for IPv6 — anything wider would block far too
    /// large a range.
    pub open spec fn min_prefix(self) -> u8 {
        match self {
            CidrBlock::V4 { .. } => 16,
            CidrBlock::V6 { .. } => 64,
        }
    }

    /// The prefix never exceeds the family's address width.
    pub open spec fn wf(self) -> bool {
        match self {
            CidrBlock::V4 { prefix, .. } => prefix <= 32,
            CidrBlock::V6 { prefix, .. } => prefix <= 128,
        }
    }
}

/// What parsing a text as an IP network returns: the block, or nothing
/// when the text is not an IPv4 or IPv6 CIDR block.
pub uninterp spec fn parsed_cidr(s: Seq<char>) -> Option<CidrBlock>;

/// Relies on ipnetwork's `IpNetwork::from_str` and its `ip` / `prefix`
/// accessors: the parse is a function of the text alone, and a parsed
/// network's prefix is validated against its family's address width
/// (32 bits for IPv4, 128 for IPv6).
#[verifier::external_body]
fn parse_ip_network(block: &str) -> (r: Option<CidrBlock>)
    ensures
        r == parsed_cidr(block@),
        r matches Some(c) ==> c.wf(),
{
    match block.parse::<ipnetwork::IpNetwork>() {
        Ok(ipnetwork::IpNetwork::V4(n)) => Some(
            CidrBlock::V4 { addr: u32::from(n.ip()), prefix: n.prefix() },
        ),
        Ok(ipnetwork::IpNetwork::V6(n)) => Some(
            CidrBlock::V6 { addr: u128::from(n.ip()), prefix: n.prefix() },
        ),
        Err(_) => None,
    }
}

/// Why a blocklist entry was rejected.
#[derive(PartialEq, Eq, Structural, Clone, Copy, Debug)]
pub enum CidrBlockError {
    /// The text is not an IPv4 or IPv6 CIDR block.
    NotACidrBlock,
    /// The host prefix is shorter than 16 bits (IPv4) or 64 bits (IPv6).
    HostPrefixTooShort,
}

/// What `parse_cidr_block` decides for one piece of text.
pub open spec fn cidr_block_result(s: Seq<char>) -> Result<CidrBlock, CidrBlockError> {
    match parsed_cidr(s) {
        Option::None => Err(CidrBlockError::NotACidrBlock),
        Option::Some(c) => if c.spec_prefix() >= c.min_prefix() {
            Ok(c)
        } else {
            Err(CidrBlockError::HostPrefixTooShort)
        },
    }
}

/// Parses one CIDR block of the page-offset blocklist, rejecting text that
/// is no CIDR block and blocks whose host prefix is shorter than 16 bits
/// (IPv4) or 64 bits (IPv6).
pub fn parse_cidr_block(block: &str) -> (r: Result<CidrBlock, CidrBlockError>)
    ensures
        r == cidr_block_result(block@),
{
    match parse_ip_network(block) {
        None => Err(CidrBlockError::NotACidrBlock),
        Some(c) => {
            let (prefix, min) = match c {
                CidrBlock::V4 { prefix, .. } => (prefix, 16u8),
                CidrBlock::V6 { prefix, .. } => (prefix, 64u8),
            };
            if prefix >= min {
                Ok(c)
            } else {
                Err(CidrBlockError::HostPrefixTooShort)
            }
        },
    }
}

/// Parses the whole comma-separated page-offset CIDR blocklist; the first
/// invalid block's error wins.
pub fn parse_cidr_list(s: &str) -> (r: Result<Vec<CidrBlock>, CidrBlockError>)
    ensures
        ({
            let pieces = split_on(s@, ',');
            match r {
                Ok(v) => v@.len() == pieces.len() && forall|k: int|
                    0 <= k < pieces.len() ==> cidr_block_result(pieces[k]) == Ok::<
                        CidrBlock,
                        CidrBlockError,
                    >(v@[k]),
                Err(e) => exists|k: int|
                    0 <= k < pieces.len() && cidr_block_result(pieces[k]) == Err::<
                        CidrBlock,
                        CidrBlockError,
                    >(e) && forall|j: int| 0 <= j < k ==> cidr_block_result(pieces[j]) is Ok,
            }
        }),
{
    let ghost pieces = split_on(s@, ',');
    let parts = split_string(s, ',');
    let mut v: Vec<CidrBlock> = Vec::new();
    let mut k: usize = 0;
    while k < parts.len()
        invariant
            pieces == split_on(s@, ','),
            pieces =~= parts@.map_values(|t: String| t@),
            k <= parts@.len(),
            v@.len() == k,
            forall|j: int|
                0 <= j < k ==> cidr_block_result(pieces[j]) == Ok::<CidrBlock, CidrBlockError>(
                    v@[j],
                ),
        decreases parts@.len() - k,
    {
        proof {
            assert(pieces[k as int] == parts@[k as int]@);
        }
        match parse_cidr_block(parts[k].as_str()) {
            Ok(c) => v.push(c),
            Err(e) => {
                proof {
                    assert(cidr_block_result(pieces[k as int]) == Err::<CidrBlock, CidrBlockError>(
                        e,
                    ));
                    assert(forall|j: int| 0 <= j < k ==> cidr_block_result(pieces[j]) is Ok);
                    assert(exists|w: int|
                        0 <= w < pieces.len() && cidr_block_result(pieces[w]) == Err::<
                            CidrBlock,
                            CidrBlockError,
                        >(e) && forall|j: int| 0 <= j < w ==> cidr_block_result(pieces[j]) is Ok);
                }
                return Err(e);
            },
        }
        k = k + 1;
    }
    Ok(v)
}

/// Splits a comma-separated configuration value into its entries; an
/// empty value means no entries at all.
pub fn parse_comma_list(s: &str) -> (r: Vec<String>)
    ensures
        s@.len() == 0 ==> r@.len() == 0,
        s@.len() > 0 ==> r@.map_values(|t: String| t@) =~= split_on(s@, ','),
{
    if s.unicode_len() == 0 {
        Vec::new()
    } else {
        split_string(s, ',')
    }
}

/// The key of one blocked-traffic pattern: what stands before its first
/// equals sign.
pub open spec fn pattern_key(p: Seq<char>) -> Seq<char> {
    p.take(index_of_char(p, '='))
}

/// The value of one blocked-traffic pattern: what stands after its first
/// equals sign.
pub open spec fn pattern_value(p: Seq<char>) -> Seq<char> {
    p.skip(index_of_char(p, '=') + 1)
}

/// Splits the blocked-traffic configuration value on commas and each
/// pattern at its first equals sign into a header name and the name of the
/// environment variable holding the blocked values. A pattern without an
/// equals sign is malformed configuration that aborts process start, so
/// such inputs are excluded here.
pub fn parse_traffic_patterns(patterns: &str) -> (r: Vec<(String, String)>)
    requires
        forall|k: int|
            0 <= k < split_terminator_on(patterns@, ',').len() ==> index_of_char(
                split_terminator_on(patterns@, ',')[k],
                '=',
            ) >= 0,
    ensures
        r@.len() == split_terminator_on(patterns@, ',').len(),
        forall|k: int|
            0 <= k < r@.len() ==> r@[k].0@ == pattern_key(split_terminator_on(patterns@, ',')[k])
                && r@[k].1@ == pattern_value(split_terminator_on(patterns@, ',')[k]),
{
    let ghost pieces = split_terminator_on(patterns@, ',');
    let mut parts = split_string(patterns, ',');
    proof {
        lemma_split_nonempty(patterns@, ',');
    }
    let last_len = parts[parts.len() - 1].as_str().unicode_len();
    if last_len == 0 {
        parts.pop();
        proof {
            assert(parts@.map_values(|t: String| t@) =~= pieces);
        }
    } else {
        proof {
            assert(parts@.map_values(|t: String| t@) =~= pieces);
        }
    }
    let mut r: Vec<(String, String)> = Vec::new();
    let mut k: usize = 0;
    while k < parts.len()
        invariant
            pieces =~= parts@.map_values(|t: String| t@),
            forall|j: int| 0 <= j < pieces.len() ==> index_of_char(pieces[j], '=') >= 0,
            k <= parts@.len(),
            r@.len() == k,
            forall|j: int|
                0 <= j < k ==> r@[j].0@ == pattern_key(pieces[j]) && r@[j].1@ == pattern_value(
                    pieces[j],
                ),
        decreases parts@.len() - k,
    {
        let p = parts[k].as_str();
        proof {
            assert(p@ == pieces[k as int]);
            lemma_index_of_char(p@, '=');
        }
        let n = p.unicode_len();
        let eq = match find_char(p, '=') {
            Some(i) => i,
            None => {
                proof {
                    assert(index_of_char(p@, '=') >= 0);
                }
                unreached()
            },
        };
        let key = p.substring_char(0, eq).to_owned();
        let value = p.substring_char(eq + 1, n).to_owned();
        proof {
            assert(key@ =~= pattern_key(p@));
            assert(value@ =~= pattern_value(p@));
        }
        r.push((key, value));
        k = k + 1;
    }
    r
}

/// The origins from which the browser-facing API accepts requests.
#[derive(Clone, Debug, Default)]
pub struct AllowedOrigins(Vec<String>);

impl View for AllowedOrigins {
    type V = Seq<Seq<char>>;

    closed spec fn view(&self) -> Seq<Seq<char>> {
        self.0@.map_values(|t: String| t@)
    }
}

impl AllowedOrigins {
    /// The comma-separated origins of the allowed-origins configuration
    /// value, in order. Reading the value from the environment happens at
    /// the application edge.
    pub fn from_default_env(allowed_origins: &str) -> (r: Self)
        ensures
            r@ =~= split_on(allowed_origins@, ','),
    {
        AllowedOrigins(split_string(allowed_origins, ','))
    }

    /// Whether `value` reads as one of the allowed origins.
    pub fn contains(&self, value: &str) -> (b: bool)
        ensures
            b == self@.contains(value@),
    {
        let mut i: usize = 0;
        while i < self.0.len()
            invariant
                self@.len() == self.0@.len(),
                i <= self.0@.len(),
                forall|j: int| 0 <= j < i ==> self@[j] != value@,
            decreases self.0@.len() - i,
        {
            if str_eq(self.0[i].as_str(), value) {
                assert(self@[i as int] == value@);
                return true;
            }
            i = i + 1;
        }
        false
    }
}

} // verus!
