//! The address codec: from six IPv6 answers to one 80-byte header.
//!
//! Every answer carries an order tag in the high nibble of its third byte and
//! 27 payload nibbles behind it. Sorted by tag and laid end to end, the
//! payloads of six answers give 162 nibbles, of which the first 160 are the
//! header.

use vstd::prelude::*;
use vstd::seq_lib::{
    lemma_multiset_commutative, to_multiset_build, to_multiset_contains, to_multiset_len,
    to_multiset_remove,
};

verus! {

/// The number of answers that carry one header.
pub const ADDRESSES_PER_HEADER: usize = 6;

/// The length of a serialized block header, in bytes.
pub const HEADER_LEN: usize = 80;

/// The order tag of an address: the high nibble of its third byte.
pub open spec fn order_tag(addr: [u8; 16]) -> int {
    addr[2] as int / 16
}

/// Payload nibble `k` of an address, for `k` from 0 to 26. The first is the
/// low nibble of byte 2; bytes 3 to 15 follow, high nibble before low.
pub open spec fn payload_nibble(addr: [u8; 16], k: int) -> int {
    let byte = addr[2 + (k + 1) / 2] as int;
    if k % 2 == 0 {
        byte % 16
    } else {
        byte / 16
    }
}

/// Whether an address carries the given order tag.
pub open spec fn has_tag(tag: int) -> spec_fn([u8; 16]) -> bool {
    |addr: [u8; 16]| order_tag(addr) == tag
}

/// The addresses that carry the given order tag, in the order in which they
/// stand in `addrs`.
pub open spec fn with_tag(addrs: Seq<[u8; 16]>, tag: int) -> Seq<[u8; 16]> {
    addrs.filter(has_tag(tag))
}

/// The addresses whose order tag is below `tags`, by ascending tag; those
/// that share a tag keep the order in which they stand in `addrs`.
pub open spec fn sorted_below(addrs: Seq<[u8; 16]>, tags: nat) -> Seq<[u8; 16]>
    decreases tags,
{
    if tags == 0 {
        Seq::empty()
    } else {
        sorted_below(addrs, (tags - 1) as nat) + with_tag(addrs, tags - 1)
    }
}

/// The addresses by ascending order tag. An order tag is a nibble, so this
/// is every address of `addrs`.
pub open spec fn sort_by_tag(addrs: Seq<[u8; 16]>) -> Seq<[u8; 16]> {
    sorted_below(addrs, 16)
}

/// Nibble `n` of the stream made of the payloads of `sorted`, one address
/// after the other.
pub open spec fn stream_nibble(sorted: Seq<[u8; 16]>, n: int) -> int {
    payload_nibble(sorted[n / 27], n % 27)
}

/// Byte `i` of the header packed from the nibble stream of `sorted`: two
/// nibbles to a byte, the high one first.
pub open spec fn packed_byte(sorted: Seq<[u8; 16]>, i: int) -> u8 {
    (16 * stream_nibble(sorted, 2 * i) + stream_nibble(sorted, 2 * i + 1)) as u8
}

/// The all-zero header, which stands for "not decodable".
pub open spec fn zero_header() -> Seq<u8> {
    Seq::new(80, |i: int| 0u8)
}

/// The header that a set of answers carries: packed from the six addresses
/// in tag order, or the all-zero header where there are not exactly six.
pub open spec fn decode(addrs: Seq<[u8; 16]>) -> Seq<u8> {
    if addrs.len() == 6 {
        Seq::new(80, |i: int| packed_byte(sort_by_tag(addrs), i))
    } else {
        zero_header()
    }
}

/// Reads the order tag of an address.
fn read_order_tag(addr: &[u8; 16]) -> (tag: u8)
    ensures
        tag as int == order_tag(*addr),
        tag < 16,
{
    let byte: u8 = addr[2];
    assert(byte >> 4 == byte / 16) by (bit_vector);
    byte >> 4
}

/// Reads payload nibble `k` of an address.
fn read_payload_nibble(addr: &[u8; 16], k: usize) -> (nibble: u8)
    requires
        k < 27,
    ensures
        nibble as int == payload_nibble(*addr, k as int),
        nibble < 16,
{
    let byte: u8 = addr[2 + (k + 1) / 2];
    if k % 2 == 0 {
        assert(byte & 0x0f == byte % 16) by (bit_vector);
        byte & 0x0f
    } else {
        assert(byte >> 4 == byte / 16) by (bit_vector);
        byte >> 4
    }
}

/// Appending an address lengthens the part sorted below `tags` by one
/// exactly when its tag is below `tags`.
proof fn lemma_sorted_below_push_len(addrs: Seq<[u8; 16]>, addr: [u8; 16], tags: nat)
    ensures
        sorted_below(addrs.push(addr), tags).len() == sorted_below(addrs, tags).len() + (if order_tag(
            addr,
        ) < tags {
            1int
        } else {
            0int
        }),
    decreases tags,
{
    if tags > 0 {
        lemma_sorted_below_push_len(addrs, addr, (tags - 1) as nat);
        addrs.lemma_filter_len_push(has_tag(tags - 1), addr);
    }
}

/// Sorting by tag keeps every address.
pub proof fn lemma_sort_keeps_len(addrs: Seq<[u8; 16]>)
    ensures
        sort_by_tag(addrs).len() == addrs.len(),
    decreases addrs.len(),
{
    if addrs.len() == 0 {
        assert(addrs =~= Seq::empty());
        lemma_sorted_below_of_none(16);
    } else {
        let rest = addrs.drop_last();
        assert(addrs =~= rest.push(addrs.last()));
        lemma_sort_keeps_len(rest);
        lemma_sorted_below_push_len(rest, addrs.last(), 16);
    }
}

/// The part sorted below `tags` holds tags below `tags` only, in ascending
/// order.
proof fn lemma_sorted_below_is_ascending(addrs: Seq<[u8; 16]>, tags: nat)
    ensures
        forall|i: int|
            0 <= i < sorted_below(addrs, tags).len() ==> order_tag(
                #[trigger] sorted_below(addrs, tags)[i],
            ) < tags,
        forall|i: int, j: int|
            0 <= i <= j < sorted_below(addrs, tags).len() ==> order_tag(
                #[trigger] sorted_below(addrs, tags)[i],
            ) <= order_tag(#[trigger] sorted_below(addrs, tags)[j]),
    decreases tags,
{
    if tags > 0 {
        lemma_sorted_below_is_ascending(addrs, (tags - 1) as nat);
        let front = sorted_below(addrs, (tags - 1) as nat);
        let back = with_tag(addrs, tags - 1);
        let whole = sorted_below(addrs, tags);
        assert forall|i: int| 0 <= i < back.len() implies order_tag(#[trigger] back[i]) == tags
            - 1 by {
            addrs.lemma_filter_pred(has_tag(tags - 1), i);
        }
        assert forall|i: int| 0 <= i < whole.len() implies if i < front.len() {
            order_tag(#[trigger] whole[i]) < tags - 1
        } else {
            order_tag(whole[i]) == tags - 1
        } by {
            if i < front.len() {
                assert(whole[i] == front[i]);
            } else {
                assert(whole[i] == back[i - front.len()]);
            }
        }
    }
}

/// The sorted addresses stand in ascending order of their tags.
pub proof fn lemma_sort_is_ascending(addrs: Seq<[u8; 16]>)
    ensures
        forall|i: int, j: int|
            0 <= i <= j < sort_by_tag(addrs).len() ==> order_tag(#[trigger] sort_by_tag(addrs)[i])
                <= order_tag(#[trigger] sort_by_tag(addrs)[j]),
{
    lemma_sorted_below_is_ascending(addrs, 16);
}

/// An address stands among those of a tag as often as it stands in the
/// whole, if the tag is its own, and not at all if it is not.
proof fn lemma_with_tag_count(addrs: Seq<[u8; 16]>, tag: int, addr: [u8; 16])
    ensures
        with_tag(addrs, tag).to_multiset().count(addr) == (if order_tag(addr) == tag {
            addrs.to_multiset().count(addr)
        } else {
            0
        }),
    decreases addrs.len(),
{
    if addrs.len() == 0 {
        reveal(Seq::filter);
        assert(addrs =~= Seq::empty());
        to_multiset_contains(addrs, addr);
    } else {
        let rest = addrs.drop_last();
        let last = addrs.last();
        assert(addrs =~= rest.push(last));
        lemma_with_tag_count(rest, tag, addr);
        rest.lemma_filter_push(last, has_tag(tag));
        to_multiset_build(rest, last);
        to_multiset_build(with_tag(rest, tag), last);
    }
}

/// An address stands in the part sorted below `tags` as often as it stands
/// in the whole, if its tag is below `tags`, and not at all if it is not.
proof fn lemma_sorted_below_count(addrs: Seq<[u8; 16]>, tags: nat, addr: [u8; 16])
    ensures
        sorted_below(addrs, tags).to_multiset().count(addr) == (if order_tag(addr) < tags {
            addrs.to_multiset().count(addr)
        } else {
            0
        }),
    decreases tags,
{
    if tags == 0 {
        to_multiset_contains(sorted_below(addrs, 0), addr);
    } else {
        lemma_sorted_below_count(addrs, (tags - 1) as nat, addr);
        lemma_with_tag_count(addrs, tags - 1, addr);
        lemma_multiset_commutative(sorted_below(addrs, (tags - 1) as nat), with_tag(addrs, tags - 1));
    }
}

/// The sorted addresses are the given ones, each as often as it was given.
pub proof fn lemma_sort_is_permutation(addrs: Seq<[u8; 16]>)
    ensures
        sort_by_tag(addrs).to_multiset() == addrs.to_multiset(),
{
    assert forall|addr: [u8; 16]|
        sort_by_tag(addrs).to_multiset().count(addr) == addrs.to_multiset().count(addr) by {
        lemma_sorted_below_count(addrs, 16, addr);
    }
    assert(sort_by_tag(addrs).to_multiset() =~= addrs.to_multiset());
}

/// Among the sorted addresses, those that share a tag stand as they were
/// given.
pub proof fn lemma_sort_is_stable(addrs: Seq<[u8; 16]>, tag: int)
    ensures
        with_tag(sort_by_tag(addrs), tag) == with_tag(addrs, tag),
{
    lemma_sorted_below_keeps_order(addrs, 16, tag);
    if !(0 <= tag < 16) {
        addrs.lemma_all_neg_filter_empty(has_tag(tag));
    }
}

/// The addresses of one tag stand in the part sorted below `tags` as they
/// were given, if the tag is below `tags`, and not at all if it is not.
proof fn lemma_sorted_below_keeps_order(addrs: Seq<[u8; 16]>, tags: nat, tag: int)
    ensures
        with_tag(sorted_below(addrs, tags), tag) == (if 0 <= tag < tags {
            with_tag(addrs, tag)
        } else {
            Seq::empty()
        }),
    decreases tags,
{
    if tags == 0 {
        reveal(Seq::filter);
    } else {
        let front = sorted_below(addrs, (tags - 1) as nat);
        let back = with_tag(addrs, tags - 1);
        lemma_sorted_below_keeps_order(addrs, (tags - 1) as nat, tag);
        Seq::filter_distributes_over_add(front, back, has_tag(tag));
        assert forall|i: int| 0 <= i < back.len() implies has_tag(tags - 1)(#[trigger] back[i]) by {
            addrs.lemma_filter_pred(has_tag(tags - 1), i);
        }
        if tag == tags - 1 {
            lemma_filter_keeps_all(back, has_tag(tag));
        } else {
            back.lemma_all_neg_filter_empty(has_tag(tag));
        }
    }
}

/// A filter that every element passes keeps the sequence as it is.
proof fn lemma_filter_keeps_all(s: Seq<[u8; 16]>, pred: spec_fn([u8; 16]) -> bool)
    requires
        forall|i: int| 0 <= i < s.len() ==> pred(#[trigger] s[i]),
    ensures
        s.filter(pred) == s,
    decreases s.len(),
{
    reveal(Seq::filter);
    if s.len() > 0 {
        lemma_filter_keeps_all(s.drop_last(), pred);
        assert(s =~= s.drop_last().push(s.last()));
    }
}

/// Nothing sorts to nothing.
proof fn lemma_sorted_below_of_none(tags: nat)
    ensures
        sorted_below(Seq::empty(), tags) =~= Seq::<[u8; 16]>::empty(),
    decreases tags,
{
    reveal(Seq::filter);
    if tags > 0 {
        lemma_sorted_below_of_none((tags - 1) as nat);
    }
}

/// Sorts the addresses by ascending order tag, in place. Addresses that
/// share a tag keep their order.
pub fn sort_by_order_tag(ips: &mut [[u8; 16]])
    ensures
        final(ips)@ == sort_by_tag(old(ips)@),
{
    let ghost given = ips@;
    let count: usize = ips.len();
    let mut sorted: Vec<[u8; 16]> = Vec::new();
    let mut tag: u8 = 0;
    while tag < 16
        invariant
            tag <= 16,
            ips@ == given,
            count == given.len(),
            sorted@ == sorted_below(given, tag as nat),
        decreases 16 - tag,
    {
        let mut i: usize = 0;
        proof {
            reveal(Seq::filter);
            assert(given.take(0) =~= Seq::<[u8; 16]>::empty());
        }
        while i < count
            invariant
                tag < 16,
                i <= count,
                ips@ == given,
                count == given.len(),
                sorted@ == sorted_below(given, tag as nat) + with_tag(given.take(i as int), tag as int),
            decreases count - i,
        {
            let addr: [u8; 16] = ips[i];
            proof {
                assert(given.take(i + 1) =~= given.take(i as int).push(addr));
                given.take(i as int).lemma_filter_push(addr, has_tag(tag as int));
            }
            if read_order_tag(&addr) == tag {
                sorted.push(addr);
            }
            i += 1;
        }
        proof {
            assert(given.take(count as int) =~= given);
        }
        tag += 1;
    }
    proof {
        lemma_sort_keeps_len(given);
    }
    let mut k: usize = 0;
    while k < count
        invariant
            k <= count,
            count == given.len(),
            ips@.len() == count,
            sorted@ == sort_by_tag(given),
            sorted@.len() == count,
            forall|j: int| 0 <= j < k ==> ips@[j] == sorted@[j],
        decreases count - k,
    {
        ips[k] = sorted[k];
        k += 1;
    }
    assert(ips@ =~= sorted@);
}

/// Reads nibble `n` of the stream made of the payloads of `sorted`.
fn read_stream_nibble(sorted: &[[u8; 16]], n: usize) -> (nibble: u8)
    requires
        n < 27 * sorted@.len(),
    ensures
        nibble as int == stream_nibble(sorted@, n as int),
        nibble < 16,
{
    read_payload_nibble(&sorted[n / 27], n % 27)
}

/// Recovers the header that six answers carry. The addresses are sorted by
/// order tag in place and their payload nibbles packed into 80 bytes; the two
/// nibbles left over at the end of the last address are dropped. A call with
/// any other number of addresses leaves them as they are and returns the
/// all-zero header.
pub fn map_addrs_to_header(ips: &mut [[u8; 16]]) -> (header: [u8; 80])
    ensures
        header@ == decode(old(ips)@),
        final(ips)@ == (if old(ips)@.len() == 6 {
            sort_by_tag(old(ips)@)
        } else {
            old(ips)@
        }),
{
    let mut header: [u8; 80] = [0u8; 80];
    if ips.len() != ADDRESSES_PER_HEADER {
        assert(header@ =~= zero_header());
        return header;
    }
    let ghost given = ips@;
    sort_by_order_tag(ips);
    proof {
        lemma_sort_keeps_len(given);
    }
    let mut i: usize = 0;
    while i < HEADER_LEN
        invariant
            i <= 80,
            ips@ == sort_by_tag(given),
            ips@.len() == 6,
            forall|j: int| 0 <= j < i ==> header@[j] == packed_byte(ips@, j),
        decreases 80 - i,
    {
        let high: u8 = read_stream_nibble(ips, 2 * i);
        let low: u8 = read_stream_nibble(ips, 2 * i + 1);
        assert((high << 4) | low == 16 * high + low) by (bit_vector)
            requires
                high < 16,
                low < 16,
        ;
        header[i] = (high << 4) | low;
        i += 1;
    }
    assert(header@ =~= decode(given));
    header
}

/// Whether two addresses agree in the bytes that the codec reads: bytes 2
/// to 15, the order tag included.
pub open spec fn same_payload(a: [u8; 16], b: [u8; 16]) -> bool {
    forall|k: int| 2 <= k < 16 ==> a[k] == b[k]
}

/// Whether the addresses that share an order tag agree in the bytes that the
/// codec reads, so that the tags alone settle the order of the payloads.
pub open spec fn ties_agree(addrs: Seq<[u8; 16]>) -> bool {
    forall|i: int, j: int|
        0 <= i < addrs.len() && 0 <= j < addrs.len() && order_tag(addrs[i]) == order_tag(addrs[j])
            ==> same_payload(addrs[i], addrs[j])
}

/// Whether two sequences of addresses have the same length and agree, place
/// by place, in the bytes that the codec reads.
pub open spec fn same_payloads(first: Seq<[u8; 16]>, second: Seq<[u8; 16]>) -> bool {
    &&& first.len() == second.len()
    &&& forall|i: int| 0 <= i < first.len() ==> same_payload(first[i], second[i])
}

/// Taking one element out of a sequence takes it out of what a filter keeps.
proof fn lemma_filter_len_remove(s: Seq<[u8; 16]>, i: int, pred: spec_fn([u8; 16]) -> bool)
    requires
        0 <= i < s.len(),
    ensures
        s.filter(pred).len() == s.remove(i).filter(pred).len() + (if pred(s[i]) {
            1int
        } else {
            0int
        }),
{
    let front = s.take(i);
    let back = s.skip(i + 1);
    assert(s =~= front.push(s[i]) + back);
    assert(s.remove(i) =~= front + back);
    Seq::filter_distributes_over_add(front.push(s[i]), back, pred);
    Seq::filter_distributes_over_add(front, back, pred);
    front.lemma_filter_len_push(pred, s[i]);
}

/// A filter keeps as many elements of a sequence as of any permutation of it.
proof fn lemma_filter_len_of_permutation(
    first: Seq<[u8; 16]>,
    second: Seq<[u8; 16]>,
    pred: spec_fn([u8; 16]) -> bool,
)
    requires
        first.to_multiset() == second.to_multiset(),
    ensures
        first.filter(pred).len() == second.filter(pred).len(),
    decreases first.len(),
{
    to_multiset_len(first);
    to_multiset_len(second);
    if first.len() == 0 {
        assert(first =~= Seq::empty());
        assert(second =~= Seq::empty());
    } else {
        let last = first.last();
        let rest = first.drop_last();
        assert(first =~= rest.push(last));
        assert(first.contains(last));
        to_multiset_contains(first, last);
        to_multiset_contains(second, last);
        let i = choose|i: int| 0 <= i < second.len() && second[i] == last;
        to_multiset_build(rest, last);
        to_multiset_remove(second, i);
        assert(rest.to_multiset() =~= second.remove(i).to_multiset());
        lemma_filter_len_of_permutation(rest, second.remove(i), pred);
        rest.lemma_filter_len_push(pred, last);
        lemma_filter_len_remove(second, i, pred);
    }
}

/// Under `ties_agree`, the addresses of one tag read the same in a sequence
/// and in any permutation of it.
proof fn lemma_with_tag_of_permutation(first: Seq<[u8; 16]>, second: Seq<[u8; 16]>, tag: int)
    requires
        first.to_multiset() == second.to_multiset(),
        ties_agree(first),
    ensures
        same_payloads(with_tag(first, tag), with_tag(second, tag)),
{
    lemma_filter_len_of_permutation(first, second, has_tag(tag));
    let kept_first = with_tag(first, tag);
    let kept_second = with_tag(second, tag);
    assert forall|i: int| 0 <= i < kept_first.len() implies same_payload(
        kept_first[i],
        kept_second[i],
    ) by {
        let a = kept_first[i];
        let b = kept_second[i];
        first.lemma_filter_pred(has_tag(tag), i);
        second.lemma_filter_pred(has_tag(tag), i);
        assert(kept_first.contains(a));
        assert(kept_second.contains(b));
        first.lemma_filter_contains_rev(has_tag(tag), a);
        second.lemma_filter_contains_rev(has_tag(tag), b);
        to_multiset_contains(first, b);
        to_multiset_contains(second, b);
        assert(first.contains(b));
    }
}

/// Under `ties_agree`, a sequence and any permutation of it read the same
/// once sorted.
proof fn lemma_sorted_below_of_permutation(first: Seq<[u8; 16]>, second: Seq<[u8; 16]>, tags: nat)
    requires
        first.to_multiset() == second.to_multiset(),
        ties_agree(first),
    ensures
        same_payloads(sorted_below(first, tags), sorted_below(second, tags)),
    decreases tags,
{
    if tags > 0 {
        lemma_sorted_below_of_permutation(first, second, (tags - 1) as nat);
        lemma_with_tag_of_permutation(first, second, tags - 1);
    }
}

/// The header depends on the bytes that the codec reads, and on nothing else.
proof fn lemma_packed_byte_reads_payload(first: Seq<[u8; 16]>, second: Seq<[u8; 16]>, i: int)
    requires
        same_payloads(first, second),
        first.len() == 6,
        0 <= i < 80,
    ensures
        packed_byte(first, i) == packed_byte(second, i),
{
    let high = 2 * i;
    let low = 2 * i + 1;
    assert(same_payload(first[high / 27], second[high / 27]));
    assert(same_payload(first[low / 27], second[low / 27]));
}

/// Decoding does not depend on the order of the answers: a permutation of
/// the addresses decodes to the same header, provided that the addresses of
/// one order tag agree in the bytes that carry the header. (Where two
/// addresses share a tag and differ in their payload, the tags do not say
/// which comes first, and the order in which they arrive decides.)
pub proof fn lemma_decode_order_independent(first: Seq<[u8; 16]>, second: Seq<[u8; 16]>)
    requires
        first.to_multiset() == second.to_multiset(),
        first.len() == 6 ==> ties_agree(first),
    ensures
        decode(first) == decode(second),
{
    to_multiset_len(first);
    to_multiset_len(second);
    if first.len() == 6 {
        lemma_sorted_below_of_permutation(first, second, 16);
        lemma_sort_keeps_len(first);
        assert forall|i: int| 0 <= i < 80 implies packed_byte(sort_by_tag(first), i) == packed_byte(
            sort_by_tag(second),
            i,
        ) by {
            lemma_packed_byte_reads_payload(sort_by_tag(first), sort_by_tag(second), i);
        }
        assert(decode(first) =~= decode(second));
    }
}

} // verus!
