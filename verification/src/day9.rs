//! Disk-block compaction: a dense digit string alternately gives file and
//! free-space run lengths.  Free space is filled from the rightmost file
//! blocks, and the result is summarised by a position-weighted checksum.

use vstd::prelude::*;
use vstd::string::StringSliceAdditionalSpecFns;

verus! {

type Id = usize;

/// One block of the disk: part of the file with the given id, or free.
#[derive(Debug, Eq, PartialEq, Ord, PartialOrd, Hash, Copy, Clone)]
pub enum DiskBlock {
    File(Id),
    Free(),
}

/// The block for digit group `k`: even groups are files, numbered in
/// order; odd groups are free space.
pub open spec fn block_kind(k: nat) -> DiskBlock {
    if k % 2 == 0 {
        DiskBlock::File((k / 2) as usize)
    } else {
        DiskBlock::Free()
    }
}

/// The blocks denoted by the input from group `k` on: every digit becomes
/// that many blocks, non-digit bytes are skipped.
pub open spec fn blocks_rec(s: Seq<u8>, k: nat) -> Seq<DiskBlock>
    decreases s.len(),
{
    if s.len() == 0 {
        seq![]
    } else if crate::parsing::is_digit(s[0]) {
        Seq::new((s[0] - 0x30) as nat, |x: int| block_kind(k)) + blocks_rec(s.drop_first(), k + 1)
    } else {
        blocks_rec(s.drop_first(), k)
    }
}

/// The blocks denoted by a whole input text.
pub open spec fn spec_blocks(s: Seq<u8>) -> Seq<DiskBlock> {
    blocks_rec(s, 0)
}

/// Expand the digit string into one `DiskBlock` per disk block.
#[verifier::loop_isolation(false)]
pub fn parse_input(input: &str) -> (r: Vec<DiskBlock>)
    ensures
        r@ == spec_blocks(input.spec_bytes()),
{
    let s = input.as_bytes();
    let mut out: Vec<DiskBlock> = Vec::new();
    let mut i: usize = 0;
    let mut k: usize = 0;
    proof {
        assert(s@.skip(0) =~= s@);
        assert(out@ + blocks_rec(s@, 0) =~= blocks_rec(s@, 0));
    }
    while i < s.len()
        invariant
            i <= s@.len(),
            k <= i,
            spec_blocks(input.spec_bytes()) == out@ + blocks_rec(s@.skip(i as int), k as nat),
        decreases s@.len() - i,
    {
        let ghost pre_out = out@;
        proof {
            assert(s@.skip(i as int)[0] == s@[i as int]);
            assert(s@.skip(i as int).drop_first() =~= s@.skip(i as int + 1));
        }
        let b = s[i];
        if 0x30 <= b && b <= 0x39 {
            let d: usize = (b - 0x30) as usize;
            let blk = if k % 2 == 0 {
                DiskBlock::File(k / 2)
            } else {
                DiskBlock::Free()
            };
            proof {
                assert(blk == block_kind(k as nat));
            }
            let mut c: usize = 0;
            while c < d
                invariant
                    c <= d,
                    out@ =~= pre_out + Seq::new(c as nat, |x: int| block_kind(k as nat)),
                decreases d - c,
            {
                out.push(blk);
                c = c + 1;
            }
            proof {
                assert(out@ + blocks_rec(s@.skip(i as int + 1), (k + 1) as nat) =~= pre_out
                    + blocks_rec(s@.skip(i as int), k as nat));
            }
            k = k + 1;
        }
        i = i + 1;
    }
    proof {
        assert(s@.skip(i as int) =~= Seq::<u8>::empty());
        assert(out@ + blocks_rec(Seq::<u8>::empty(), k as nat) =~= out@);
    }
    out
}

/// The checksum of the blocks from position `i0` on: each file block
/// contributes its position times its file id.
pub open spec fn checksum_rec(s: Seq<DiskBlock>, i0: nat) -> nat
    decreases s.len(),
{
    if s.len() == 0 {
        0
    } else {
        (match s[0] {
            DiskBlock::File(id) => i0 * (id as nat),
            DiskBlock::Free() => 0,
        }) + checksum_rec(s.drop_first(), i0 + 1)
    }
}

/// The checksum of a block list.
pub open spec fn spec_checksum(s: Seq<DiskBlock>) -> nat {
    checksum_rec(s, 0)
}

/// Sum position times file id over all file blocks.
#[verifier::loop_isolation(false)]
pub fn checksum(blocks: &[DiskBlock]) -> (r: usize)
    requires
        spec_checksum(blocks@) <= usize::MAX,
    ensures
        r == spec_checksum(blocks@),
{
    let mut acc: usize = 0;
    let mut i: usize = 0;
    proof {
        assert(blocks@.skip(0) =~= blocks@);
    }
    while i < blocks.len()
        invariant
            i <= blocks@.len(),
            acc + checksum_rec(blocks@.skip(i as int), i as nat) == spec_checksum(blocks@),
        decreases blocks@.len() - i,
    {
        proof {
            assert(blocks@.skip(i as int)[0] == blocks@[i as int]);
            assert(blocks@.skip(i as int).drop_first() =~= blocks@.skip(i as int + 1));
        }
        match blocks[i] {
            DiskBlock::File(id) => {
                acc = acc + i * id;
            },
            DiskBlock::Free() => {},
        }
        i = i + 1;
    }
    acc
}

/// The compacted block list: file blocks stay in place, free space is
/// filled from the rightmost remaining file blocks, trailing free space is
/// discarded.
pub open spec fn spec_compact(s: Seq<DiskBlock>) -> Seq<DiskBlock>
    decreases s.len(),
{
    if s.len() == 0 {
        seq![]
    } else {
        match s[0] {
            DiskBlock::File(_) => seq![s[0]] + spec_compact(s.drop_first()),
            DiskBlock::Free() => {
                match s.last() {
                    DiskBlock::File(_) => seq![s.last()] + spec_compact(
                        s.drop_first().drop_last(),
                    ),
                    DiskBlock::Free() => spec_compact(s.drop_last()),
                }
            },
        }
    }
}

/// Compact the parsed disk and return the checksum of the result.
#[verifier::loop_isolation(false)]
pub fn part_1(input: &str) -> (r: usize)
    requires
        spec_checksum(spec_compact(spec_blocks(input.spec_bytes()))) <= usize::MAX,
    ensures
        r == spec_checksum(spec_compact(spec_blocks(input.spec_bytes()))),
{
    let original = parse_input(input);
    let mut result: Vec<DiskBlock> = Vec::new();
    let mut lo: usize = 0;
    let mut hi: usize = original.len();
    proof {
        assert(original@.subrange(0, original@.len() as int) =~= original@);
        assert(result@ + spec_compact(original@) =~= spec_compact(original@));
    }
    while lo < hi
        invariant
            lo <= hi <= original@.len(),
            spec_compact(original@) == result@ + spec_compact(
                original@.subrange(lo as int, hi as int),
            ),
        decreases hi - lo,
    {
        let ghost pre = result@;
        let ghost window = original@.subrange(lo as int, hi as int);
        proof {
            assert(window[0] == original@[lo as int]);
            assert(window.last() == original@[hi as int - 1]);
            assert(window.drop_first() =~= original@.subrange(lo as int + 1, hi as int));
            assert(window.drop_last() =~= original@.subrange(lo as int, hi as int - 1));
            if hi - lo >= 2 {
                assert(window.drop_first().drop_last() =~= original@.subrange(
                    lo as int + 1,
                    hi as int - 1,
                ));
            }
        }
        match original[lo] {
            DiskBlock::File(id) => {
                result.push(DiskBlock::File(id));
                lo = lo + 1;
                proof {
                    assert(pre + (seq![window[0]] + spec_compact(window.drop_first())) =~= result@
                        + spec_compact(window.drop_first()));
                }
            },
            DiskBlock::Free() => {
                match original[hi - 1] {
                    DiskBlock::File(id) => {
                        result.push(DiskBlock::File(id));
                        lo = lo + 1;
                        hi = hi - 1;
                        proof {
                            assert(pre + (seq![window.last()] + spec_compact(
                                window.drop_first().drop_last(),
                            )) =~= result@ + spec_compact(window.drop_first().drop_last()));
                        }
                    },
                    DiskBlock::Free() => {
                        hi = hi - 1;
                    },
                }
            },
        }
    }
    proof {
        assert(original@.subrange(lo as int, hi as int) =~= Seq::<DiskBlock>::empty());
        assert(result@ + Seq::<DiskBlock>::empty() =~= result@);
    }
    checksum(result.as_slice())
}

} // verus!
