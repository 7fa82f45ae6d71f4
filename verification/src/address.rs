//! Peer addresses and the text of an IP address.
//!
//! A version four address is written as four decimal numbers joined by dots.
//! A version six address is written as lower case hexadecimal groups joined by
//! colons, where the leftmost of the longest runs of two or more zero groups is
//! shortened to `::`; an address that carries a version four address behind the
//! prefix `::ffff:` is written with that prefix and the dotted form.

use vstd::prelude::*;
use crate::digits::{
    decimal_text, digit_value, hex_text, lemma_numeral_is_well_formed, push_decimal, push_hex,
};

verus! {

/// An IP address: the four octets of version four, or the eight groups of
/// version six, most significant first.
#[derive(Clone, Copy, Debug, PartialEq, Eq)]
pub enum IpAddress {
    V4([u8; 4]),
    V6([u16; 8]),
}

/// The address of the other end of a connection.
#[derive(Clone, Copy, Debug, PartialEq, Eq)]
pub struct PeerAddress {
    pub ip: IpAddress,
    pub port: u16,
}

/// Four octets in dotted decimal form.
pub open spec fn ipv4_text(octets: Seq<u8>) -> Seq<char>
    recommends
        octets.len() == 4,
{
    decimal_text(octets[0] as nat) + "."@ + decimal_text(octets[1] as nat) + "."@ + decimal_text(
        octets[2] as nat,
    ) + "."@ + decimal_text(octets[3] as nat)
}

/// The length of the run of zero groups that begins at index `i`: zero where
/// the group at `i` is not zero or `i` is no index.
pub open spec fn zeros_from(groups: Seq<u16>, i: int) -> nat
    decreases groups.len() - i,
{
    if 0 <= i < groups.len() && groups[i] == 0 {
        zeros_from(groups, i + 1) + 1
    } else {
        0
    }
}

/// Start and length of the leftmost of the longest runs of zero groups that
/// begin at index `i` or later; `(0, 0)` where no group from `i` on is zero.
pub open spec fn longest_zero_run_from(groups: Seq<u16>, i: int) -> (int, int)
    decreases groups.len() - i,
{
    if i < 0 || i >= groups.len() {
        (0, 0)
    } else {
        let here = zeros_from(groups, i);
        let later = longest_zero_run_from(groups, i + 1);
        if 0 < here && later.1 <= here {
            (i, here as int)
        } else {
            later
        }
    }
}

/// Start and length of the leftmost of the longest runs of zero groups;
/// `(0, 0)` where no group is zero.
pub open spec fn longest_zero_run(groups: Seq<u16>) -> (int, int) {
    longest_zero_run_from(groups, 0)
}

/// Whether the `len` groups from index `start` on exist, are at least one, and
/// are all zero.
pub open spec fn is_zero_run(groups: Seq<u16>, start: int, len: int) -> bool {
    &&& 0 <= start
    &&& 0 < len
    &&& start + len <= groups.len()
    &&& forall|k: int| start <= k < start + len ==> groups[k] == 0
}

/// The groups in hexadecimal, joined by colons.
pub open spec fn hex_groups(groups: Seq<u16>) -> Seq<char>
    decreases groups.len(),
{
    if groups.len() == 0 {
        Seq::empty()
    } else if groups.len() == 1 {
        hex_text(groups[0] as nat)
    } else {
        hex_groups(groups.drop_last()) + ":"@ + hex_text(groups.last() as nat)
    }
}

/// Whether the groups are five zeros and then `ffff`, so that the last two
/// carry a version four address.
pub open spec fn is_ipv4_mapped(groups: Seq<u16>) -> bool
    recommends
        groups.len() == 8,
{
    &&& groups[0] == 0
    &&& groups[1] == 0
    &&& groups[2] == 0
    &&& groups[3] == 0
    &&& groups[4] == 0
    &&& groups[5] == 0xffff
}

/// The four octets held by the last two of eight groups.
pub open spec fn mapped_octets(groups: Seq<u16>) -> Seq<u8>
    recommends
        groups.len() == 8,
{
    seq![
        (groups[6] / 256) as u8,
        (groups[6] % 256) as u8,
        (groups[7] / 256) as u8,
        (groups[7] % 256) as u8,
    ]
}

/// Eight groups in the compressed form of version six.
pub open spec fn ipv6_text(groups: Seq<u16>) -> Seq<char>
    recommends
        groups.len() == 8,
{
    if is_ipv4_mapped(groups) {
        "::ffff:"@ + ipv4_text(mapped_octets(groups))
    } else {
        let run = longest_zero_run(groups);
        if run.1 > 1 {
            hex_groups(groups.subrange(0, run.0)) + "::"@ + hex_groups(
                groups.subrange(run.0 + run.1, groups.len() as int),
            )
        } else {
            hex_groups(groups)
        }
    }
}

/// The text of an IP address.
pub open spec fn ip_text(ip: IpAddress) -> Seq<char> {
    match ip {
        IpAddress::V4(octets) => ipv4_text(octets@),
        IpAddress::V6(groups) => ipv6_text(groups@),
    }
}

/// Whether the run of zeros of length `len` at `start` is the leftmost of the
/// longest: no run of zeros is longer, and none of the same length begins
/// further left.
pub open spec fn is_leftmost_longest_zero_run(groups: Seq<u16>, start: int, len: int) -> bool {
    &&& is_zero_run(groups, start, len)
    &&& forall|s: int, l: int| #[trigger]
        is_zero_run(groups, s, l) ==> l < len || (l == len && start <= s)
}

/// Where a group is zero, `longest_zero_run` names the leftmost of the longest
/// runs of zeros. Where none is, it names `(0, 0)`.
pub proof fn lemma_longest_zero_run_is_leftmost_longest(groups: Seq<u16>)
    ensures
        longest_zero_run(groups).1 >= 0,
        longest_zero_run(groups).1 != 0 ==> is_leftmost_longest_zero_run(
            groups,
            longest_zero_run(groups).0,
            longest_zero_run(groups).1,
        ),
        longest_zero_run(groups).1 == 0 ==> longest_zero_run(groups).0 == 0,
        longest_zero_run(groups).1 == 0 <==> forall|k: int|
            0 <= k < groups.len() ==> #[trigger] groups[k] != 0,
{
    let run = longest_zero_run(groups);
    lemma_longest_zero_run_from(groups, 0);
    assert forall|s: int, l: int| #[trigger] is_zero_run(groups, s, l) implies l < run.1 || (l
        == run.1 && run.0 <= s) by {
        lemma_zero_run_is_counted(groups, s, l);
    }
    if run.1 == 0 {
        assert forall|k: int| 0 <= k < groups.len() implies #[trigger] groups[k] != 0 by {
            if groups[k] == 0 {
                assert(is_zero_run(groups, k, 1));
            }
        }
    } else {
        assert(groups[run.0] == 0);
    }
}

/// There is one leftmost longest run of zeros, the one that `longest_zero_run`
/// names.
pub proof fn lemma_leftmost_longest_zero_run_is_unique(groups: Seq<u16>, start: int, len: int)
    requires
        is_leftmost_longest_zero_run(groups, start, len),
    ensures
        longest_zero_run(groups) == (start, len),
{
    lemma_longest_zero_run_is_leftmost_longest(groups);
    let found = longest_zero_run(groups);
    assert(groups[start] == 0);
    assert(is_zero_run(groups, found.0, found.1));
}

/// A run of zeros that begins at `start` is no longer than `zeros_from` says.
proof fn lemma_zero_run_is_counted(groups: Seq<u16>, start: int, len: int)
    requires
        is_zero_run(groups, start, len),
    ensures
        len <= zeros_from(groups, start),
    decreases len,
{
    assert(groups[start] == 0);
    if len > 1 {
        lemma_zero_run_is_counted(groups, start + 1, len - 1);
    }
}

/// The groups that `zeros_from` counts are a run of zeros.
proof fn lemma_counted_zeros_are_a_run(groups: Seq<u16>, start: int)
    requires
        0 < zeros_from(groups, start),
    ensures
        is_zero_run(groups, start, zeros_from(groups, start) as int),
    decreases groups.len() - start,
{
    if 0 < zeros_from(groups, start + 1) {
        lemma_counted_zeros_are_a_run(groups, start + 1);
    }
}

/// Of the runs of zeros that begin at `i` or later, `longest_zero_run_from`
/// names the leftmost of those that `zeros_from` counts longest.
proof fn lemma_longest_zero_run_from(groups: Seq<u16>, i: int)
    requires
        0 <= i,
    ensures
        longest_zero_run_from(groups, i).1 == 0 ==> longest_zero_run_from(groups, i).0 == 0,
        longest_zero_run_from(groups, i).1 != 0 ==> {
            &&& i <= longest_zero_run_from(groups, i).0
            &&& longest_zero_run_from(groups, i).1 == zeros_from(
                groups,
                longest_zero_run_from(groups, i).0,
            )
            &&& is_zero_run(
                groups,
                longest_zero_run_from(groups, i).0,
                longest_zero_run_from(groups, i).1,
            )
        },
        forall|start: int|
            i <= start ==> #[trigger] zeros_from(groups, start) < longest_zero_run_from(groups, i).1
                || (zeros_from(groups, start) == longest_zero_run_from(groups, i).1 && (
            zeros_from(groups, start) == 0 || longest_zero_run_from(groups, i).0 <= start)),
    decreases groups.len() - i,
{
    if i < groups.len() {
        lemma_longest_zero_run_from(groups, i + 1);
        if 0 < zeros_from(groups, i) {
            lemma_counted_zeros_are_a_run(groups, i);
        }
    }
}

/// Whether `c` may stand in the text of an address: a hexadecimal digit in
/// lower case, a colon or a dot.
pub open spec fn is_address_char(c: char) -> bool {
    digit_value(c) < 16 || c == ':' || c == '.'
}

/// Whether `text` is made of address characters alone.
pub open spec fn is_address_text(text: Seq<char>) -> bool {
    forall|i: int| 0 <= i < text.len() ==> is_address_char(#[trigger] text[i])
}

/// The text of an address is made of hexadecimal digits, colons and dots, and
/// of at least two of them.
pub proof fn lemma_ip_text_is_address_text(ip: IpAddress)
    ensures
        is_address_text(ip_text(ip)),
        ip_text(ip).len() >= 2,
{
    match ip {
        IpAddress::V4(octets) => {
            lemma_ipv4_text_is_address_text(octets@);
        },
        IpAddress::V6(groups) => {
            let groups = groups@;
            reveal_strlit("::ffff:");
            reveal_strlit("::");
            if is_ipv4_mapped(groups) {
                lemma_ipv4_text_is_address_text(mapped_octets(groups));
            } else {
                let run = longest_zero_run(groups);
                lemma_longest_zero_run_is_leftmost_longest(groups);
                if run.1 > 1 {
                    lemma_hex_groups_is_address_text(groups.subrange(0, run.0));
                    lemma_hex_groups_is_address_text(
                        groups.subrange(run.0 + run.1, groups.len() as int),
                    );
                } else {
                    lemma_hex_groups_is_address_text(groups);
                }
            }
        },
    }
}

/// The dotted decimal form is made of digits and dots, seven of them or more.
proof fn lemma_ipv4_text_is_address_text(octets: Seq<u8>)
    requires
        octets.len() == 4,
    ensures
        is_address_text(ipv4_text(octets)),
        ipv4_text(octets).len() >= 7,
{
    reveal_strlit(".");
    lemma_numeral_is_well_formed(octets[0] as nat, 10);
    lemma_numeral_is_well_formed(octets[1] as nat, 10);
    lemma_numeral_is_well_formed(octets[2] as nat, 10);
    lemma_numeral_is_well_formed(octets[3] as nat, 10);
}

/// Groups joined by colons are made of hexadecimal digits and colons, one
/// digit or more for each group.
proof fn lemma_hex_groups_is_address_text(groups: Seq<u16>)
    ensures
        is_address_text(hex_groups(groups)),
        hex_groups(groups).len() >= 2 * groups.len() - 1,
    decreases groups.len(),
{
    reveal_strlit(":");
    if groups.len() == 1 {
        lemma_numeral_is_well_formed(groups[0] as nat, 16);
    } else if groups.len() > 1 {
        lemma_hex_groups_is_address_text(groups.drop_last());
        lemma_numeral_is_well_formed(groups.last() as nat, 16);
    }
}

impl PeerAddress {
    /// The peer at `ip` and `port`.
    pub fn new(ip: IpAddress, port: u16) -> (peer: PeerAddress)
        ensures
            peer.ip == ip,
            peer.port == port,
    {
        PeerAddress { ip, port }
    }

    /// The peer's IP address.
    pub fn ip(&self) -> (ip: IpAddress)
        ensures
            ip == self.ip,
    {
        self.ip
    }

    /// The peer's port.
    pub fn port(&self) -> (port: u16)
        ensures
            port == self.port,
    {
        self.port
    }
}

/// Appends four octets in dotted decimal form to `out`.
fn push_ipv4(out: &mut String, octets: &[u8; 4])
    ensures
        final(out)@ == old(out)@ + ipv4_text(octets@),
{
    push_decimal(out, octets[0] as u64);
    out.append(".");
    push_decimal(out, octets[1] as u64);
    out.append(".");
    push_decimal(out, octets[2] as u64);
    out.append(".");
    push_decimal(out, octets[3] as u64);
    assert(out@ =~= old(out)@ + ipv4_text(octets@));
}

/// Appends the groups from index `from` up to `to` to `out`, in hexadecimal
/// and joined by colons.
fn push_hex_groups(out: &mut String, groups: &[u16; 8], from: usize, to: usize)
    requires
        from <= to <= 8,
    ensures
        final(out)@ == old(out)@ + hex_groups(groups@.subrange(from as int, to as int)),
{
    let mut i: usize = from;
    assert(groups@.subrange(from as int, from as int) =~= Seq::<u16>::empty());
    assert(out@ =~= old(out)@ + hex_groups(groups@.subrange(from as int, i as int)));
    while i < to
        invariant
            from <= i <= to <= 8,
            out@ == old(out)@ + hex_groups(groups@.subrange(from as int, i as int)),
        decreases to - i,
    {
        let ghost before = groups@.subrange(from as int, i as int);
        let ghost after = groups@.subrange(from as int, i as int + 1);
        assert(after.drop_last() =~= before);
        assert(after.last() == groups@[i as int]);
        if i > from {
            out.append(":");
        }
        push_hex(out, groups[i] as u64);
        assert(out@ =~= old(out)@ + hex_groups(after));
        i = i + 1;
    }
}

/// Finds the leftmost of the longest runs of zero groups. It walks from the
/// last group to the first, so that of two runs of one length the one further
/// left is kept.
fn find_longest_zero_run(groups: &[u16; 8]) -> (run: (usize, usize))
    ensures
        (run.0 as int, run.1 as int) == longest_zero_run(groups@),
        run.0 + run.1 <= 8,
{
    let mut start: usize = 0;
    let mut len: usize = 0;
    let mut here: usize = 0;
    let mut i: usize = 8;
    while i > 0
        invariant
            i <= 8,
            here == zeros_from(groups@, i as int),
            (start as int, len as int) == longest_zero_run_from(groups@, i as int),
            i + here <= 8,
            start + len <= 8,
        decreases i,
    {
        i = i - 1;
        if groups[i] == 0 {
            here = here + 1;
        } else {
            here = 0;
        }
        if 0 < here && len <= here {
            start = i;
            len = here;
        }
    }
    (start, len)
}

/// Whether the groups carry a version four address behind `::ffff:`.
fn carries_ipv4(groups: &[u16; 8]) -> (mapped: bool)
    ensures
        mapped == is_ipv4_mapped(groups@),
{
    groups[0] == 0 && groups[1] == 0 && groups[2] == 0 && groups[3] == 0 && groups[4] == 0
        && groups[5] == 0xffff
}

/// Appends eight groups in the compressed form of version six to `out`.
fn push_ipv6(out: &mut String, groups: &[u16; 8])
    ensures
        final(out)@ == old(out)@ + ipv6_text(groups@),
{
    if carries_ipv4(groups) {
        let octets: [u8; 4] = [
            (groups[6] / 256) as u8,
            (groups[6] % 256) as u8,
            (groups[7] / 256) as u8,
            (groups[7] % 256) as u8,
        ];
        assert(octets@ =~= mapped_octets(groups@));
        out.append("::ffff:");
        push_ipv4(out, &octets);
        assert(out@ =~= old(out)@ + ipv6_text(groups@));
    } else {
        let (start, len) = find_longest_zero_run(groups);
        if len > 1 {
            push_hex_groups(out, groups, 0, start);
            out.append("::");
            push_hex_groups(out, groups, start + len, 8);
            assert(out@ =~= old(out)@ + ipv6_text(groups@));
        } else {
            push_hex_groups(out, groups, 0, 8);
            assert(groups@.subrange(0, 8) =~= groups@);
        }
    }
}

impl IpAddress {
    /// Appends the text of the address to `out`.
    pub fn push_text(&self, out: &mut String)
        ensures
            final(out)@ == old(out)@ + ip_text(*self),
    {
        match self {
            IpAddress::V4(octets) => push_ipv4(out, octets),
            IpAddress::V6(groups) => push_ipv6(out, groups),
        }
    }

    /// The text of the address.
    pub fn to_text(&self) -> (text: String)
        ensures
            text@ == ip_text(*self),
    {
        let mut text = String::new();
        self.push_text(&mut text);
        text
    }
}

} // verus!
