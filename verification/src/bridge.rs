//! What crosses the boundary to the chain engine, as plain values: a
//! position in its header chain, the framing of serialized headers, and
//! its logging categories.

use crate::text::{hex_digit, hex_digit_char};
use vstd::prelude::*;

verus! {

/// The length of a block hash, in bytes.
pub const HASH_LEN: usize = 32;

/// The logging categories of the chain engine.
#[allow(dead_code)]
#[derive(Clone, Copy, Debug, PartialEq, Eq)]
pub enum LogFlags {
    NET,
    TOR,
    MEMPOOL,
    HTTP,
    BENCH,
    ZMQ,
    DB,
    RPC,
    ESTIMATEFEE,
    ADDRMAN,
    SELECTCOINS,
    REINDEX,
    CMPCTBLOCK,
    RAND,
    PRUNE,
    PROXY,
    MEMPOOLREJ,
    LIBEVENT,
    COINDB,
    QT,
    LEVELDB,
}

impl LogFlags {
    /// The place of the category's bit, counted from the lowest.
    pub open spec fn bit_index(self) -> nat {
        match self {
            LogFlags::NET => 0,
            LogFlags::TOR => 1,
            LogFlags::MEMPOOL => 2,
            LogFlags::HTTP => 3,
            LogFlags::BENCH => 4,
            LogFlags::ZMQ => 5,
            LogFlags::DB => 6,
            LogFlags::RPC => 7,
            LogFlags::ESTIMATEFEE => 8,
            LogFlags::ADDRMAN => 9,
            LogFlags::SELECTCOINS => 10,
            LogFlags::REINDEX => 11,
            LogFlags::CMPCTBLOCK => 12,
            LogFlags::RAND => 13,
            LogFlags::PRUNE => 14,
            LogFlags::PROXY => 15,
            LogFlags::MEMPOOLREJ => 16,
            LogFlags::LIBEVENT => 17,
            LogFlags::COINDB => 18,
            LogFlags::QT => 19,
            LogFlags::LEVELDB => 20,
        }
    }

    /// The category as the chain engine knows it: a word with one bit set.
    pub fn bits(self) -> (mask: u32)
        ensures
            mask as nat == vstd::arithmetic::power2::pow2(self.bit_index()),
    {
        proof {
            vstd::arithmetic::power2::lemma2_to64();
        }
        match self {
            LogFlags::NET => 0x1,
            LogFlags::TOR => 0x2,
            LogFlags::MEMPOOL => 0x4,
            LogFlags::HTTP => 0x8,
            LogFlags::BENCH => 0x10,
            LogFlags::ZMQ => 0x20,
            LogFlags::DB => 0x40,
            LogFlags::RPC => 0x80,
            LogFlags::ESTIMATEFEE => 0x100,
            LogFlags::ADDRMAN => 0x200,
            LogFlags::SELECTCOINS => 0x400,
            LogFlags::REINDEX => 0x800,
            LogFlags::CMPCTBLOCK => 0x1000,
            LogFlags::RAND => 0x2000,
            LogFlags::PRUNE => 0x4000,
            LogFlags::PROXY => 0x8000,
            LogFlags::MEMPOOLREJ => 0x1_0000,
            LogFlags::LIBEVENT => 0x2_0000,
            LogFlags::COINDB => 0x4_0000,
            LogFlags::QT => 0x8_0000,
            LogFlags::LEVELDB => 0x10_0000,
        }
    }
}

/// A position in the chain engine's header chain: its height and the hash
/// of its block.
#[derive(Clone, Copy, Debug, PartialEq, Eq)]
pub struct BlockIndex {
    height: i32,
    hash: [u8; 32],
}

/// The hash in hexadecimal, last byte first: character `i` is the high
/// digit of a byte where `i` is even, the low one where it is odd.
pub open spec fn reversed_hex(hash: Seq<u8>) -> Seq<char> {
    Seq::new(
        2 * hash.len(),
        |i: int|
            {
                let byte = hash[hash.len() - 1 - i / 2] as int;
                if i % 2 == 0 {
                    hex_digit(byte / 16)
                } else {
                    hex_digit(byte % 16)
                }
            },
    )
}

/// How many headers a flat buffer holds: a buffer is one or more headers of
/// 80 bytes each, end to end, or it is not a sequence of headers at all.
pub open spec fn framed_headers(len: nat) -> Option<nat> {
    if len > 0 && len % 80 == 0 {
        Some(len / 80)
    } else {
        None
    }
}

impl BlockIndex {
    /// The position's height, as a spec value.
    pub closed spec fn spec_height(&self) -> i32 {
        self.height
    }

    /// The position's hash, as a spec value.
    pub closed spec fn spec_hash(&self) -> Seq<u8> {
        self.hash@
    }

    /// The position of the block with this hash, at this height.
    pub fn new(height: i32, hash: [u8; 32]) -> (index: Self)
        ensures
            index.spec_height() == height,
            index.spec_hash() == hash@,
    {
        BlockIndex { height, hash }
    }

    /// The height of the position.
    pub fn height(&self) -> (height: i32)
        ensures
            height == self.spec_height(),
    {
        self.height
    }

    /// The hash of the position's block.
    pub fn hash(&self) -> (hash: [u8; 32])
        ensures
            hash@ == self.spec_hash(),
    {
        self.hash
    }

    /// The hash in hexadecimal, in reversed byte order: 64 characters that
    /// start with the hash's last byte.
    pub fn hash_hex(&self) -> (res: String)
        ensures
            res@ == reversed_hex(self.spec_hash()),
    {
        let mut res: String = String::new();
        let mut left: usize = HASH_LEN;
        while left > 0
            invariant
                left <= 32,
                res@ == reversed_hex(self.hash@).take(2 * (32 - left)),
            decreases left,
        {
            left -= 1;
            let byte: u8 = self.hash[left];
            assert(byte >> 4 == byte / 16 && byte & 0x0f == byte % 16) by (bit_vector);
            res.push(hex_digit_char(byte >> 4));
            res.push(hex_digit_char(byte & 0x0f));
            assert(res@ =~= reversed_hex(self.hash@).take(2 * (32 - left)));
        }
        assert(res@ =~= reversed_hex(self.hash@));
        res
    }
}

/// Counts the headers in a flat buffer of serialized headers.
pub fn count_flat_headers(headers: &[u8]) -> (count: Option<usize>)
    ensures
        count is Some <==> framed_headers(headers@.len()) is Some,
        count matches Some(n) ==> framed_headers(headers@.len()) == Some(n as nat),
{
    let len: usize = headers.len();
    if len % 80 != 0 || len == 0 {
        None
    } else {
        Some(len / 80)
    }
}

} // verus!
