//! Address values and their canonical text.

use vstd::prelude::*;
use crate::text::{push_hex_chars, push_dec_chars, spec_dec_chars, spec_hex_chars, string_from_chars};

verus! {

/// An IPv4 address as its four octets.
#[derive(Debug, Clone, Copy, PartialEq, Eq)]
pub struct IpV4Address {
    pub octets: [u8; 4],
}

/// An IPv6 address as its eight big-endian 16-bit groups.
#[derive(Debug, Clone, Copy, PartialEq, Eq)]
pub struct IpV6Address {
    pub groups: [u16; 8],
}

/// A resolved address, IPv4 or IPv6.
#[derive(Debug, Clone, Copy, PartialEq, Eq)]
pub enum IpAddress {
    V4(IpV4Address),
    V6(IpV6Address),
}

/// Dotted-decimal text of four octets.
pub open spec fn spec_ipv4_text(o: Seq<u8>) -> Seq<char> {
    spec_dec_chars(o[0] as nat) + seq!['.'] + spec_dec_chars(o[1] as nat) + seq!['.']
        + spec_dec_chars(o[2] as nat) + seq!['.'] + spec_dec_chars(o[3] as nat)
}

/// The length of the run of zero groups starting at `i`.
pub open spec fn spec_zero_run(g: Seq<u16>, i: int) -> int
    decreases g.len() - i,
{
    if i < 0 || i >= g.len() || g[i] != 0 {
        0
    } else {
        1 + spec_zero_run(g, i + 1)
    }
}

/// Start and length of the best zero run at or after `i`: the longest,
/// and the leftmost among equally long ones.
pub open spec fn spec_best_zero_run(g: Seq<u16>, i: int) -> (int, int)
    decreases g.len() - i,
{
    if i < 0 || i >= g.len() {
        (g.len() as int, 0)
    } else {
        let rest = spec_best_zero_run(g, i + 1);
        let l = spec_zero_run(g, i);
        if l >= rest.1 {
            (i, l)
        } else {
            rest
        }
    }
}

/// Hexadecimal groups joined by colons.
pub open spec fn spec_groups_text(g: Seq<u16>) -> Seq<char>
    decreases g.len(),
{
    if g.len() == 0 {
        seq![]
    } else if g.len() == 1 {
        spec_hex_chars(g[0] as nat)
    } else {
        spec_hex_chars(g[0] as nat) + seq![':'] + spec_groups_text(g.drop_first())
    }
}

/// Canonical IPv6 text: lowercase hexadecimal groups without leading
/// zeros, joined by colons, with the longest — leftmost among equals —
/// run of two or more zero groups compressed to `::`.
pub open spec fn spec_ipv6_text(g: Seq<u16>) -> Seq<char> {
    let run = spec_best_zero_run(g, 0);
    if run.1 >= 2 {
        spec_groups_text(g.subrange(0, run.0)) + seq![':', ':'] + spec_groups_text(
            g.subrange(run.0 + run.1, g.len() as int),
        )
    } else {
        spec_groups_text(g)
    }
}

/// The text of an address, IPv4 dotted decimal or canonical IPv6.
pub open spec fn spec_ip_text(ip: IpAddress) -> Seq<char> {
    match ip {
        IpAddress::V4(v) => spec_ipv4_text(v.octets@),
        IpAddress::V6(v) => spec_ipv6_text(v.groups@),
    }
}

/// The length of the zero run starting at `i`.
fn zero_run(groups: &[u16; 8], i: usize) -> (l: usize)
    requires
        i <= 8,
    ensures
        l == spec_zero_run(groups@, i as int),
        l <= 8 - i,
    decreases 8 - i,
{
    if i >= 8 {
        0
    } else if groups[i] != 0 {
        0
    } else {
        1 + zero_run(groups, i + 1)
    }
}

/// Start and length of the best zero run at or after `i`.
fn best_zero_run(groups: &[u16; 8], i: usize) -> (r: (usize, usize))
    requires
        i <= 8,
    ensures
        (r.0 as int, r.1 as int) == spec_best_zero_run(groups@, i as int),
        r.0 <= 8,
        r.0 + r.1 <= 8,
    decreases 8 - i,
{
    if i >= 8 {
        (8, 0)
    } else {
        let rest = best_zero_run(groups, i + 1);
        let l = zero_run(groups, i);
        proof {
            lemma_zero_run_bounded(groups@, i as int);
        }
        if l >= rest.1 {
            (i, l)
        } else {
            rest
        }
    }
}

/// A zero run stays inside the sequence.
proof fn lemma_zero_run_bounded(g: Seq<u16>, i: int)
    requires
        0 <= i <= g.len(),
    ensures
        i + spec_zero_run(g, i) <= g.len(),
    decreases g.len() - i,
{
    if i < g.len() && g[i] == 0 {
        lemma_zero_run_bounded(g, i + 1);
    }
}

/// Append the groups `a..b`, hexadecimal and joined by colons.
fn push_groups(out: &mut Vec<char>, groups: &[u16; 8], a: usize, b: usize)
    requires
        a <= b <= 8,
    ensures
        final(out)@ == old(out)@ + spec_groups_text(groups@.subrange(a as int, b as int)),
    decreases b - a,
{
    if a < b {
        push_hex_chars(out, groups[a] as u64);
        if a + 1 < b {
            out.push(':');
        }
        push_groups(out, groups, a + 1, b);
        proof {
            let sub = groups@.subrange(a as int, b as int);
            assert(sub[0] == groups@[a as int]);
            assert(sub.drop_first() =~= groups@.subrange(a as int + 1, b as int));
            assert(final(out)@ =~= old(out)@ + spec_groups_text(sub));
        }
    } else {
        proof {
            assert(groups@.subrange(a as int, b as int) =~= Seq::<u16>::empty());
            assert(final(out)@ =~= old(out)@ + spec_groups_text(
                groups@.subrange(a as int, b as int),
            ));
        }
    }
}

impl IpV4Address {
    /// The dotted-decimal text of this address.
    pub fn to_text(&self) -> (r: String)
        ensures
            r@ == spec_ipv4_text(self.octets@),
    {
        let mut cs: Vec<char> = Vec::new();
        push_dec_chars(&mut cs, self.octets[0] as u64);
        cs.push('.');
        push_dec_chars(&mut cs, self.octets[1] as u64);
        cs.push('.');
        push_dec_chars(&mut cs, self.octets[2] as u64);
        cs.push('.');
        push_dec_chars(&mut cs, self.octets[3] as u64);
        proof {
            assert(cs@ =~= spec_ipv4_text(self.octets@));
        }
        string_from_chars(cs)
    }
}

impl IpV6Address {
    /// The canonical text of this address.
    pub fn to_text(&self) -> (r: String)
        ensures
            r@ == spec_ipv6_text(self.groups@),
    {
        let (bs, bl) = best_zero_run(&self.groups, 0);
        let mut cs: Vec<char> = Vec::new();
        if bl >= 2 {
            push_groups(&mut cs, &self.groups, 0, bs);
            cs.push(':');
            cs.push(':');
            push_groups(&mut cs, &self.groups, bs + bl, 8);
            proof {
                assert(cs@ =~= spec_ipv6_text(self.groups@));
            }
        } else {
            push_groups(&mut cs, &self.groups, 0, 8);
            proof {
                assert(self.groups@.subrange(0, 8) =~= self.groups@);
                assert(cs@ =~= spec_ipv6_text(self.groups@));
            }
        }
        string_from_chars(cs)
    }
}

impl IpAddress {
    /// The text of this address.
    pub fn to_text(&self) -> (r: String)
        ensures
            r@ == spec_ip_text(*self),
    {
        match self {
            IpAddress::V4(v) => v.to_text(),
            IpAddress::V6(v) => v.to_text(),
        }
    }
}

} // verus!
