//! The text of an address identifies the address: two addresses with one text
//! are the same address.

use vstd::prelude::*;
use crate::address::{
    hex_groups, ip_text, ipv4_text, ipv6_text, is_ipv4_mapped,
    lemma_longest_zero_run_is_leftmost_longest, longest_zero_run, mapped_octets, IpAddress,
};
use crate::digits::{
    decimal_text, hex_text, lemma_numeral_is_injective, lemma_numeral_is_well_formed, numeral,
};

verus! {

/// Whether `c` stands nowhere in `text`.
spec fn lacks(text: Seq<char>, c: char) -> bool {
    forall|i: int| 0 <= i < text.len() ==> #[trigger] text[i] != c
}

/// A numeral holds neither a colon nor a dot.
proof fn lemma_numeral_lacks_separators(n: nat, base: nat)
    requires
        2 <= base <= 16,
    ensures
        lacks(numeral(n, base), ':'),
        lacks(numeral(n, base), '.'),
        numeral(n, base).len() >= 1,
{
    lemma_numeral_is_well_formed(n, base);
}

/// Two texts that end in a separator and a part without one are alike only
/// where what stands before the separator is alike, and the parts too.
proof fn lemma_split_at_last_separator(
    before: Seq<char>,
    part: Seq<char>,
    other_before: Seq<char>,
    other_part: Seq<char>,
    sep: char,
)
    requires
        before + seq![sep] + part == other_before + seq![sep] + other_part,
        lacks(part, sep),
        lacks(other_part, sep),
    ensures
        before == other_before,
        part == other_part,
{
    let text = before + seq![sep] + part;
    let other = other_before + seq![sep] + other_part;
    assert(text.len() == before.len() + 1 + part.len());
    assert(other.len() == other_before.len() + 1 + other_part.len());
    if before.len() < other_before.len() {
        let i = other_before.len() as int;
        assert(other[i] == sep);
        assert(text[i] == part[i - before.len() - 1]);
    }
    if other_before.len() < before.len() {
        let i = before.len() as int;
        assert(text[i] == sep);
        assert(other[i] == other_part[i - other_before.len() - 1]);
    }
    assert(before =~= other_before) by {
        assert forall|i: int| 0 <= i < before.len() implies before[i] == other_before[i] by {
            assert(text[i] == before[i]);
            assert(other[i] == other_before[i]);
        }
    }
    assert(part =~= other_part) by {
        assert forall|i: int| 0 <= i < part.len() implies part[i] == other_part[i] by {
            assert(text[before.len() + 1 + i] == part[i]);
            assert(other[before.len() + 1 + i] == other_part[i]);
        }
    }
}

/// Four octets are identified by their dotted decimal form.
pub proof fn lemma_ipv4_text_is_injective(first: Seq<u8>, second: Seq<u8>)
    requires
        first.len() == 4,
        second.len() == 4,
        ipv4_text(first) == ipv4_text(second),
    ensures
        first == second,
{
    reveal_strlit(".");
    assert("."@ =~= seq!['.']);
    let a = |i: int| decimal_text(first[i] as nat);
    let b = |i: int| decimal_text(second[i] as nat);
    lemma_numeral_lacks_separators(first[0] as nat, 10);
    lemma_numeral_lacks_separators(first[1] as nat, 10);
    lemma_numeral_lacks_separators(first[2] as nat, 10);
    lemma_numeral_lacks_separators(first[3] as nat, 10);
    lemma_numeral_lacks_separators(second[0] as nat, 10);
    lemma_numeral_lacks_separators(second[1] as nat, 10);
    lemma_numeral_lacks_separators(second[2] as nat, 10);
    lemma_numeral_lacks_separators(second[3] as nat, 10);
    lemma_split_at_last_separator(
        a(0) + "."@ + a(1) + "."@ + a(2),
        a(3),
        b(0) + "."@ + b(1) + "."@ + b(2),
        b(3),
        '.',
    );
    lemma_split_at_last_separator(a(0) + "."@ + a(1), a(2), b(0) + "."@ + b(1), b(2), '.');
    lemma_split_at_last_separator(a(0), a(1), b(0), b(1), '.');
    lemma_numeral_is_injective(first[0] as nat, second[0] as nat, 10);
    lemma_numeral_is_injective(first[1] as nat, second[1] as nat, 10);
    lemma_numeral_is_injective(first[2] as nat, second[2] as nat, 10);
    lemma_numeral_is_injective(first[3] as nat, second[3] as nat, 10);
    assert(first =~= second);
}

/// Whether two colons stand side by side in `text`, at index `i` and behind it.
spec fn has_double_colon_at(text: Seq<char>, i: int) -> bool {
    0 <= i && i + 1 < text.len() && text[i] == ':' && text[i + 1] == ':'
}

/// Groups joined by colons, where there is a group at all: the text begins
/// and ends with a digit, holds no dot, and no two colons side by side.
proof fn lemma_hex_groups_shape(groups: Seq<u16>)
    requires
        groups.len() >= 1,
    ensures
        hex_groups(groups).len() >= 1,
        hex_groups(groups)[0] != ':',
        hex_groups(groups).last() != ':',
        lacks(hex_groups(groups), '.'),
        forall|i: int| !#[trigger] has_double_colon_at(hex_groups(groups), i),
    decreases groups.len(),
{
    reveal_strlit(":");
    assert(":"@ =~= seq![':']);
    lemma_numeral_lacks_separators(groups.last() as nat, 16);
    if groups.len() > 1 {
        lemma_hex_groups_shape(groups.drop_last());
        let before = hex_groups(groups.drop_last());
        let text = hex_groups(groups);
        assert(text =~= before + seq![':'] + hex_text(groups.last() as nat));
        assert forall|i: int| !#[trigger] has_double_colon_at(text, i) by {
            if has_double_colon_at(text, i) {
                if i + 1 < before.len() {
                    assert(has_double_colon_at(before, i));
                } else if i + 1 == before.len() {
                    assert(text[i] == before.last());
                } else if i == before.len() {
                    assert(text[i + 1] == hex_text(groups.last() as nat)[0]);
                } else {
                    assert(text[i] == hex_text(groups.last() as nat)[i - before.len() - 1]);
                }
            }
        }
        assert(text.last() == hex_text(groups.last() as nat).last());
        assert(text[0] == before[0]);
    }
}

/// Groups are identified by their text.
proof fn lemma_hex_groups_is_injective(first: Seq<u16>, second: Seq<u16>)
    requires
        hex_groups(first) == hex_groups(second),
    ensures
        first == second,
    decreases first.len(),
{
    reveal_strlit(":");
    assert(":"@ =~= seq![':']);
    if first.len() == 0 || second.len() == 0 {
        if first.len() > 0 {
            lemma_hex_groups_shape(first);
        }
        if second.len() > 0 {
            lemma_hex_groups_shape(second);
        }
        assert(first =~= second);
    } else {
        lemma_numeral_lacks_separators(first.last() as nat, 16);
        lemma_numeral_lacks_separators(second.last() as nat, 16);
        if first.len() == 1 && second.len() == 1 {
        } else if first.len() == 1 {
            let i = hex_groups(second.drop_last()).len() as int;
            assert(hex_groups(second)[i] == ':');
        } else if second.len() == 1 {
            let i = hex_groups(first.drop_last()).len() as int;
            assert(hex_groups(first)[i] == ':');
        } else {
            lemma_split_at_last_separator(
                hex_groups(first.drop_last()),
                hex_text(first.last() as nat),
                hex_groups(second.drop_last()),
                hex_text(second.last() as nat),
                ':',
            );
            lemma_hex_groups_is_injective(first.drop_last(), second.drop_last());
        }
        lemma_numeral_is_injective(first.last() as nat, second.last() as nat, 16);
        assert(first =~= first.drop_last().push(first.last()));
        assert(second =~= second.drop_last().push(second.last()));
    }
}

/// Where two texts hold `::` behind a part that holds no two colons side by
/// side and does not end in a colon, and the texts are alike, the two parts
/// are of the same length.
proof fn lemma_double_colon_stands_once(
    before: Seq<char>,
    after: Seq<char>,
    other_before: Seq<char>,
    other_after: Seq<char>,
)
    requires
        before + seq![':', ':'] + after == other_before + seq![':', ':'] + other_after,
        forall|i: int| !#[trigger] has_double_colon_at(before, i),
        forall|i: int| !#[trigger] has_double_colon_at(other_before, i),
        before.len() > 0 ==> before.last() != ':',
        other_before.len() > 0 ==> other_before.last() != ':',
    ensures
        before == other_before,
        after == other_after,
{
    let text = before + seq![':', ':'] + after;
    let other = other_before + seq![':', ':'] + other_after;
    if before.len() < other_before.len() {
        let i = before.len() as int;
        assert(text[i] == ':' && text[i + 1] == ':');
        assert(other[i] == other_before[i]);
        if i + 1 < other_before.len() {
            assert(other[i + 1] == other_before[i + 1]);
            assert(has_double_colon_at(other_before, i));
        }
    }
    if other_before.len() < before.len() {
        let i = other_before.len() as int;
        assert(other[i] == ':' && other[i + 1] == ':');
        assert(text[i] == before[i]);
        if i + 1 < before.len() {
            assert(text[i + 1] == before[i + 1]);
            assert(has_double_colon_at(before, i));
        }
    }
    assert(before =~= other_before) by {
        assert forall|i: int| 0 <= i < before.len() implies before[i] == other_before[i] by {
            assert(text[i] == before[i]);
            assert(other[i] == other_before[i]);
        }
    }
    assert(after =~= other_after) by {
        assert(text.len() == before.len() + 2 + after.len());
        assert(other.len() == other_before.len() + 2 + other_after.len());
        assert forall|i: int| 0 <= i < after.len() implies after[i] == other_after[i] by {
            assert(text[before.len() + 2 + i] == after[i]);
            assert(other[before.len() + 2 + i] == other_after[i]);
        }
    }
}

/// The dotted decimal form holds a dot and no colon.
proof fn lemma_ipv4_text_shape(octets: Seq<u8>)
    requires
        octets.len() == 4,
    ensures
        lacks(ipv4_text(octets), ':'),
        exists|i: int| 0 <= i < ipv4_text(octets).len() && #[trigger] ipv4_text(octets)[i] == '.',
{
    reveal_strlit(".");
    assert("."@ =~= seq!['.']);
    lemma_numeral_lacks_separators(octets[0] as nat, 10);
    lemma_numeral_lacks_separators(octets[1] as nat, 10);
    lemma_numeral_lacks_separators(octets[2] as nat, 10);
    lemma_numeral_lacks_separators(octets[3] as nat, 10);
    let i = decimal_text(octets[0] as nat).len() as int;
    assert(ipv4_text(octets)[i] == '.');
}

/// The three forms of version six tell themselves apart: only the form with
/// an embedded version four address holds a dot, and of the other two only
/// the shortened form holds two colons side by side. Each holds a colon.
proof fn lemma_ipv6_text_shape(groups: Seq<u16>)
    requires
        groups.len() == 8,
    ensures
        is_ipv4_mapped(groups) <==> !lacks(ipv6_text(groups), '.'),
        !is_ipv4_mapped(groups) ==> (longest_zero_run(groups).1 > 1 <==> exists|i: int| #[trigger]
            has_double_colon_at(ipv6_text(groups), i)),
        !lacks(ipv6_text(groups), ':'),
{
    reveal_strlit("::ffff:");
    reveal_strlit("::");
    reveal_strlit(":");
    assert("::"@ =~= seq![':', ':']);
    assert(":"@ =~= seq![':']);
    let text = ipv6_text(groups);
    if is_ipv4_mapped(groups) {
        lemma_ipv4_text_shape(mapped_octets(groups));
        let dotted = ipv4_text(mapped_octets(groups));
        let i = choose|i: int| 0 <= i < dotted.len() && #[trigger] dotted[i] == '.';
        assert(text[7 + i] == '.');
        assert(text[0] == ':');
    } else {
        let run = longest_zero_run(groups);
        lemma_longest_zero_run_is_leftmost_longest(groups);
        if run.1 > 1 {
            let head = groups.subrange(0, run.0);
            let tail = groups.subrange(run.0 + run.1, 8);
            if head.len() > 0 {
                lemma_hex_groups_shape(head);
            }
            if tail.len() > 0 {
                lemma_hex_groups_shape(tail);
            }
            let at = hex_groups(head).len() as int;
            assert(text[at] == ':');
            assert(text[at + 1] == ':');
            assert(has_double_colon_at(text, at));
        } else {
            lemma_hex_groups_shape(groups);
            let at = hex_groups(groups.drop_last()).len() as int;
            assert(text[at] == ':');
        }
    }
}

/// Eight groups are identified by their compressed form.
pub proof fn lemma_ipv6_text_is_injective(first: Seq<u16>, second: Seq<u16>)
    requires
        first.len() == 8,
        second.len() == 8,
        ipv6_text(first) == ipv6_text(second),
    ensures
        first == second,
{
    reveal_strlit("::ffff:");
    reveal_strlit("::");
    assert("::"@ =~= seq![':', ':']);
    lemma_ipv6_text_shape(first);
    lemma_ipv6_text_shape(second);
    let text = ipv6_text(first);
    if is_ipv4_mapped(first) {
        let a = ipv4_text(mapped_octets(first));
        let b = ipv4_text(mapped_octets(second));
        assert(a =~= text.subrange(7, text.len() as int));
        assert(b =~= text.subrange(7, text.len() as int));
        lemma_ipv4_text_is_injective(mapped_octets(first), mapped_octets(second));
        assert(mapped_octets(first)[0] == mapped_octets(second)[0]);
        assert(mapped_octets(first)[1] == mapped_octets(second)[1]);
        assert(mapped_octets(first)[2] == mapped_octets(second)[2]);
        assert(mapped_octets(first)[3] == mapped_octets(second)[3]);
        assert(first[6] == second[6]);
        assert(first[7] == second[7]);
        assert(first =~= second);
    } else {
        let run = longest_zero_run(first);
        let other = longest_zero_run(second);
        lemma_longest_zero_run_is_leftmost_longest(first);
        lemma_longest_zero_run_is_leftmost_longest(second);
        if run.1 > 1 {
            let head = first.subrange(0, run.0);
            let tail = first.subrange(run.0 + run.1, 8);
            let other_head = second.subrange(0, other.0);
            let other_tail = second.subrange(other.0 + other.1, 8);
            if head.len() > 0 {
                lemma_hex_groups_shape(head);
            }
            if other_head.len() > 0 {
                lemma_hex_groups_shape(other_head);
            }
            lemma_double_colon_stands_once(
                hex_groups(head),
                hex_groups(tail),
                hex_groups(other_head),
                hex_groups(other_tail),
            );
            lemma_hex_groups_is_injective(head, other_head);
            lemma_hex_groups_is_injective(tail, other_tail);
            assert(run.0 == head.len());
            assert(other.0 == other_head.len());
            assert(8 - (run.0 + run.1) == tail.len());
            assert(8 - (other.0 + other.1) == other_tail.len());
            assert forall|i: int| 0 <= i < 8 implies first[i] == second[i] by {
                if i < run.0 {
                    assert(first[i] == head[i]);
                    assert(second[i] == other_head[i]);
                } else if i < run.0 + run.1 {
                } else {
                    assert(first[i] == tail[i - (run.0 + run.1)]);
                    assert(second[i] == other_tail[i - (run.0 + run.1)]);
                }
            }
            assert(first =~= second);
        } else {
            lemma_hex_groups_is_injective(first, second);
        }
    }
}

/// An address is identified by its text: two addresses with the same text
/// are the same address.
pub proof fn lemma_ip_text_is_injective(first: IpAddress, second: IpAddress)
    requires
        ip_text(first) == ip_text(second),
    ensures
        first == second,
{
    match (first, second) {
        (IpAddress::V4(a), IpAddress::V4(b)) => {
            lemma_ipv4_text_is_injective(a@, b@);
            assert(a =~= b);
        },
        (IpAddress::V6(a), IpAddress::V6(b)) => {
            lemma_ipv6_text_is_injective(a@, b@);
            assert(a =~= b);
        },
        (IpAddress::V4(a), IpAddress::V6(b)) => {
            lemma_ipv4_text_shape(a@);
            lemma_ipv6_text_shape(b@);
        },
        (IpAddress::V6(a), IpAddress::V4(b)) => {
            lemma_ipv4_text_shape(b@);
            lemma_ipv6_text_shape(a@);
        },
    }
}

} // verus!
