//! The resolver's side of the exchange: the hostname that asks for the
//! header at a height, and what counts as an answer to it.

use crate::text::{decimal, push_decimal};
use vstd::prelude::*;
use vstd::string::StringExecFns;

verus! {

/// The number of heights that share one bucket label.
pub const HEIGHTS_PER_BUCKET: u32 = 10000;

/// One address out of a resolution, IPv4 or IPv6, as its bytes.
#[derive(Clone, Copy, Debug)]
pub enum IpAnswer {
    V4([u8; 4]),
    V6([u8; 16]),
}

/// The hostname that asks for the header at `height`: the height, the
/// bucket that the height falls in, and the domain, with dots between them.
pub open spec fn hostname(height: u32, domain: Seq<char>) -> Seq<char> {
    decimal(height as nat) + seq!['.'] + decimal((height / HEIGHTS_PER_BUCKET) as nat) + seq!['.']
        + domain
}

/// The IPv6 addresses among the answers, in their order.
pub open spec fn ipv6_answers(answers: Seq<IpAnswer>) -> Seq<[u8; 16]>
    decreases answers.len(),
{
    if answers.len() == 0 {
        Seq::empty()
    } else {
        let before = ipv6_answers(answers.drop_last());
        match answers.last() {
            IpAnswer::V6(octets) => before.push(octets),
            IpAnswer::V4(_) => before,
        }
    }
}

/// Builds the hostname that asks for the header at `height`.
pub fn build_hostname(height: u32, bucket_domain: &str) -> (name: String)
    ensures
        name@ == hostname(height, bucket_domain@),
{
    let mut name: String = String::new();
    push_decimal(&mut name, height);
    name.push('.');
    push_decimal(&mut name, height / HEIGHTS_PER_BUCKET);
    name.push('.');
    name.append(bucket_domain);
    assert(name@ =~= hostname(height, bucket_domain@));
    name
}

/// Keeps the IPv6 addresses of a resolution and drops the others.
pub fn keep_ipv6(answers: &[IpAnswer]) -> (kept: Vec<[u8; 16]>)
    ensures
        kept@ == ipv6_answers(answers@),
{
    let mut kept: Vec<[u8; 16]> = Vec::new();
    let mut i: usize = 0;
    assert(answers@.take(0) =~= Seq::empty());
    while i < answers.len()
        invariant
            i <= answers@.len(),
            kept@ == ipv6_answers(answers@.take(i as int)),
        decreases answers@.len() - i,
    {
        assert(answers@.take(i + 1).drop_last() =~= answers@.take(i as int));
        match answers[i] {
            IpAnswer::V6(octets) => {
                kept.push(octets);
            },
            IpAnswer::V4(_) => {},
        }
        i += 1;
    }
    assert(answers@.take(i as int) =~= answers@);
    kept
}

} // verus!
