//! The fixed 32-byte record: a 6-byte nonce and a 26-byte truncated digest.

use vstd::prelude::*;
use vstd::arithmetic::power2::{pow2, lemma_pow2_adds, lemma2_to64, lemma2_to64_rest};

use crate::pow::lemma_pow2_le;

verus! {

/// Size of the nonce field in bytes.
pub const NONCE_SIZE: usize = 6;

/// Size of the truncated digest field in bytes.
pub const HASH_SIZE: usize = 26;

/// Size of a whole encoded record in bytes.
pub const RECORD_SIZE: usize = 32;

/// One (nonce, digest) pair. Immutable once created; stored on disk as its
/// 32 raw bytes, nonce first, digest second.
#[derive(Clone, Copy, Debug)]
pub struct Record {
    pub nonce: [u8; 6],
    pub hash: [u8; 26],
}

impl Record {
    /// The 32-byte on-disk encoding of this record.
    pub open spec fn spec_bytes(self) -> Seq<u8> {
        self.nonce@ + self.hash@
    }

    /// The digest field as a byte sequence.
    pub open spec fn digest(self) -> Seq<u8> {
        self.hash@
    }

    /// Encode the record as its 32 raw bytes.
    pub fn to_bytes(&self) -> (out: Vec<u8>)
        ensures
            out@ == self.spec_bytes(),
            out@.len() == 32,
    {
        let mut out: Vec<u8> = Vec::new();
        let mut i: usize = 0;
        while i < 6
            invariant
                i <= 6,
                out@ == self.nonce@.take(i as int),
            decreases 6 - i,
        {
            out.push(self.nonce[i]);
            proof {
                assert(out@ =~= self.nonce@.take(i + 1));
            }
            i = i + 1;
        }
        proof {
            assert(out@ =~= self.nonce@);
        }
        let mut j: usize = 0;
        while j < 26
            invariant
                j <= 26,
                out@ == self.nonce@ + self.hash@.take(j as int),
            decreases 26 - j,
        {
            out.push(self.hash[j]);
            proof {
                assert(out@ =~= self.nonce@ + self.hash@.take(j + 1));
            }
            j = j + 1;
        }
        proof {
            assert(out@ =~= self.spec_bytes());
        }
        out
    }

    /// Decode a record from 32 bytes of `data` starting at `start`.
    pub fn from_bytes(data: &Vec<u8>, start: usize) -> (r: Record)
        requires
            start + 32 <= data@.len(),
        ensures
            r.spec_bytes() == data@.subrange(start as int, start + 32),
    {
        let n: usize = data.len();
        let mut nonce: [u8; 6] = [0; 6];
        let mut hash: [u8; 26] = [0; 26];
        let mut i: usize = 0;
        while i < 6
            invariant
                i <= 6,
                n == data@.len(),
                start + 32 <= n,
                nonce@.take(i as int) == data@.subrange(start as int, start + i),
            decreases 6 - i,
        {
            nonce[i] = data[start + i];
            proof {
                assert(nonce@.take(i + 1) =~= data@.subrange(start as int, start + i + 1));
            }
            i = i + 1;
        }
        let mut j: usize = 0;
        while j < 26
            invariant
                j <= 26,
                n == data@.len(),
                start + 32 <= n,
                nonce@.take(6) == data@.subrange(start as int, start + 6),
                hash@.take(j as int) == data@.subrange(start + 6, start + 6 + j),
            decreases 26 - j,
        {
            hash[j] = data[start + 6 + j];
            proof {
                assert(hash@.take(j + 1) =~= data@.subrange(start + 6, start + 6 + j + 1));
            }
            j = j + 1;
        }
        let r = Record { nonce, hash };
        proof {
            assert(nonce@ =~= nonce@.take(6));
            assert(hash@ =~= hash@.take(26));
            assert(r.spec_bytes() =~= data@.subrange(start as int, start + 32));
        }
        r
    }
}

/// The nonce field read as a big-endian integer.
pub open spec fn be_bytes_value(s: Seq<u8>) -> nat
    decreases s.len(),
{
    if s.len() == 0 {
        0
    } else {
        be_bytes_value(s.drop_last()) * 256 + s.last() as nat
    }
}

/// `be_bytes_value` of `n` bytes is below `2^(8n)`; enough here to know that
/// six bytes fit in a `u64`.
pub proof fn lemma_be_bytes_value_bound(s: Seq<u8>)
    ensures
        be_bytes_value(s) < pow2(8 * s.len()),
    decreases s.len(),
{
    if s.len() == 0 {
        lemma2_to64();
    } else {
        lemma_be_bytes_value_bound(s.drop_last());
        lemma_pow2_adds(8 * (s.len() - 1) as nat, 8);
        lemma2_to64();
    }
}

/// The lowercase hex character of one 4-bit value.
pub open spec fn hex_char(v: u8) -> char {
    if v == 0 {
        '0'
    } else if v == 1 {
        '1'
    } else if v == 2 {
        '2'
    } else if v == 3 {
        '3'
    } else if v == 4 {
        '4'
    } else if v == 5 {
        '5'
    } else if v == 6 {
        '6'
    } else if v == 7 {
        '7'
    } else if v == 8 {
        '8'
    } else if v == 9 {
        '9'
    } else if v == 10 {
        'a'
    } else if v == 11 {
        'b'
    } else if v == 12 {
        'c'
    } else if v == 13 {
        'd'
    } else if v == 14 {
        'e'
    } else {
        'f'
    }
}

/// The lowercase hex rendering of a byte sequence, two characters per
/// byte, high half first.
pub open spec fn hex_of(d: Seq<u8>) -> Seq<char> {
    Seq::new(
        d.len() * 2,
        |i: int|
            if i % 2 == 0 {
                hex_char((d[i / 2] / 16) as u8)
            } else {
                hex_char((d[i / 2] % 16) as u8)
            },
    )
}

/// One lowercase hex character as a string slice.
fn hex_digit_str(v: u8) -> (r: &'static str)
    requires
        v < 16,
    ensures
        r@.len() == 1,
        r@[0] == hex_char(v),
{
    proof {
        reveal_strlit("0");
        reveal_strlit("1");
        reveal_strlit("2");
        reveal_strlit("3");
        reveal_strlit("4");
        reveal_strlit("5");
        reveal_strlit("6");
        reveal_strlit("7");
        reveal_strlit("8");
        reveal_strlit("9");
        reveal_strlit("a");
        reveal_strlit("b");
        reveal_strlit("c");
        reveal_strlit("d");
        reveal_strlit("e");
        reveal_strlit("f");
    }
    if v == 0 {
        "0"
    } else if v == 1 {
        "1"
    } else if v == 2 {
        "2"
    } else if v == 3 {
        "3"
    } else if v == 4 {
        "4"
    } else if v == 5 {
        "5"
    } else if v == 6 {
        "6"
    } else if v == 7 {
        "7"
    } else if v == 8 {
        "8"
    } else if v == 9 {
        "9"
    } else if v == 10 {
        "a"
    } else if v == 11 {
        "b"
    } else if v == 12 {
        "c"
    } else if v == 13 {
        "d"
    } else if v == 14 {
        "e"
    } else {
        "f"
    }
}

/// Render a digest as its 52-character lowercase hex string.
pub fn hash_to_string(hash: &[u8; 26]) -> (s: String)
    ensures
        s@ == hex_of(hash@),
{
    let mut s = String::new();
    let mut i: usize = 0;
    while i < 26
        invariant
            i <= 26,
            s@ == hex_of(hash@).take(2 * i),
        decreases 26 - i,
    {
        let b = hash[i];
        let hi = hex_digit_str(b / 16);
        s.append(hi);
        let lo = hex_digit_str(b % 16);
        s.append(lo);
        proof {
            assert(s@ =~= hex_of(hash@).take(2 * (i + 1)));
        }
        i = i + 1;
    }
    proof {
        assert(hex_of(hash@).take(52) =~= hex_of(hash@));
    }
    s
}

/// Convert a 6-byte nonce to its decimal (integer) value.
pub fn nonce_to_decimal(nonce: &[u8; 6]) -> (v: u64)
    ensures
        v == be_bytes_value(nonce@),
{
    let mut acc: u64 = 0;
    let mut i: usize = 0;
    while i < 6
        invariant
            i <= 6,
            acc == be_bytes_value(nonce@.take(i as int)),
        decreases 6 - i,
    {
        proof {
            assert(nonce@.take(i + 1).drop_last() =~= nonce@.take(i as int));
            lemma_be_bytes_value_bound(nonce@.take(i + 1));
            lemma_pow2_le(8 * (i + 1) as nat, 48);
            lemma2_to64();
            lemma2_to64_rest();
        }
        acc = acc * 256 + (nonce[i] as u64);
        i = i + 1;
    }
    proof {
        assert(nonce@.take(6) =~= nonce@);
    }
    acc
}

} // verus!
