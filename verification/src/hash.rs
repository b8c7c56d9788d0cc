//! A hash of a line: the 64-bit FNV-1a hash of its bytes. Lines with the
//! same bytes have the same hash; lines with the same hash need not have the
//! same bytes.

use vstd::prelude::*;
use vstd::string::*;

use crate::text::bytes_of_each;

verus! {

/// The hash `h` of some bytes, taken on by one more byte.
pub open spec fn hash_step(h: u64, b: u8) -> u64 {
    (h ^ (b as u64)).wrapping_mul(0x0000_0100_0000_01b3)
}

/// The hash of the first `i` bytes of `line`.
pub open spec fn hash_upto(line: Seq<u8>, i: int) -> u64
    decreases i,
{
    if i <= 0 {
        0xcbf2_9ce4_8422_2325
    } else {
        hash_step(hash_upto(line, i - 1), line[i - 1])
    }
}

/// The hash of `line`.
pub open spec fn line_hash(line: Seq<u8>) -> u64 {
    hash_upto(line, line.len() as int)
}

/// The hash of each of a sequence of lines.
pub open spec fn hashes_of(lines: Seq<Seq<u8>>) -> Seq<u64> {
    lines.map_values(|l: Seq<u8>| line_hash(l))
}

/// The hash of `line`.
pub fn hash_line(line: &str) -> (h: u64)
    ensures
        h == line_hash(line.spec_bytes()),
{
    let b = line.as_bytes();
    let mut h: u64 = 0xcbf2_9ce4_8422_2325;
    let mut i: usize = 0;
    while i < b.len()
        invariant
            i <= b@.len(),
            b@ == line.spec_bytes(),
            h == hash_upto(b@, i as int),
        decreases b@.len() - i,
    {
        h = (h ^ (b[i] as u64)).wrapping_mul(0x0000_0100_0000_01b3);
        i = i + 1;
    }
    h
}

/// The hash of each of `lines`.
pub fn hash_lines(lines: &[&str]) -> (hashes: Vec<u64>)
    ensures
        hashes@ == hashes_of(bytes_of_each(lines@)),
{
    let mut hashes: Vec<u64> = Vec::new();
    let mut i: usize = 0;
    while i < lines.len()
        invariant
            i <= lines@.len(),
            hashes@.len() == i,
            forall|k: int|
                0 <= k < i ==> hashes@[k] == line_hash((#[trigger] lines@[k]).spec_bytes()),
        decreases lines@.len() - i,
    {
        hashes.push(hash_line(lines[i]));
        i = i + 1;
    }
    assert(hashes@ =~= hashes_of(bytes_of_each(lines@)));
    hashes
}

} // verus!
