//! Disk defragmentation over a compressed block map.
//!
//! The input alternates file lengths and gap lengths.  Expanding writes the
//! file ids and gaps out block by block; reducing swaps the rightmost file
//! blocks into the leftmost gaps until the files sit in one prefix; the
//! checksum sums block position times file id over that prefix.

use vstd::prelude::*;

verus! {

/// One block of the expanded disk: a gap, or a block of the given file id.
#[derive(Clone, Copy, PartialEq, Eq, Structural, Debug)]
pub enum Bits {
    Empty,
    Value(u16),
}

/// A run of equal blocks: its content, length, start position, and whether
/// the reducing pass has already tried to move it.
#[derive(Clone, Copy, PartialEq, Eq, Structural, Debug)]
pub struct Block {
    pub value: Bits,
    pub length: usize,
    pub start_pos: usize,
    pub moved: bool,
}

/// The disk in all its forms: the compressed map, the expanded blocks, the
/// reduced blocks, the runs, and the count of file blocks.
pub struct Data {
    pub compressed: Vec<u16>,
    pub raw: Vec<Bits>,
    pub raw_reduced: Vec<Bits>,
    pub empty_blocks: Vec<Block>,
    pub value_blocks: Vec<Block>,
    pub non_empty_count: usize,
}

/// The expanded form of the first `k` length pairs: for each file, its id
/// repeated by its length, then the following gap.
pub open spec fn expand_upto(comp: Seq<u16>, k: int) -> Seq<Bits>
    decreases k,
{
    if k <= 0 {
        Seq::empty()
    } else {
        expand_upto(comp, k - 1) + Seq::new(
            comp[2 * (k - 1)] as nat,
            |q: int| Bits::Value((k - 1) as u16),
        ) + Seq::new(gap_len(comp, k - 1), |q: int| Bits::Empty)
    }
}

/// The gap after file `i`: the next length, or nothing for the last file.
pub open spec fn gap_len(comp: Seq<u16>, i: int) -> nat {
    if 2 * i + 1 >= comp.len() {
        0
    } else {
        comp[2 * i + 1] as nat
    }
}

/// How many length pairs the compressed map holds.
pub open spec fn pair_count(comp: Seq<u16>) -> int {
    (comp.len() + 1) as int / 2
}

/// The total file length of the first `k` pairs.
pub open spec fn file_len_upto(comp: Seq<u16>, k: int) -> int
    decreases k,
{
    if k <= 0 {
        0
    } else {
        file_len_upto(comp, k - 1) + comp[2 * (k - 1)]
    }
}

/// How many of the first `t` blocks hold a file id.
pub open spec fn count_files(s: Seq<Bits>, t: int) -> int
    decreases t,
{
    if t <= 0 {
        0
    } else {
        count_files(s, t - 1) + if s[t - 1] is Empty {
            0int
        } else {
            1
        }
    }
}

proof fn lemma_count_files_bounds(s: Seq<Bits>, t: int)
    ensures
        0 <= count_files(s, t) <= if t >= 0 {
            t
        } else {
            0
        },
    decreases t,
{
    if t > 0 {
        lemma_count_files_bounds(s, t - 1);
    }
}

/// Swapping a gap with a file block keeps the file-block count.
proof fn lemma_count_files_update(s: Seq<Bits>, i: int, b: Bits, t: int)
    requires
        0 <= i < s.len(),
        t <= s.len(),
    ensures
        count_files(s.update(i, b), t) == count_files(s, t) + if i < t {
            (if b is Empty {
                0int
            } else {
                1
            }) - (if s[i] is Empty {
                0int
            } else {
                1
            })
        } else {
            0
        },
    decreases t,
{
    if t > 0 {
        lemma_count_files_update(s, i, b, t - 1);
    }
}

/// A stretch of gaps adds nothing to the file-block count.
proof fn lemma_count_files_gap_range(s: Seq<Bits>, t1: int, t2: int)
    requires
        0 <= t1 <= t2 <= s.len(),
        forall|k: int| t1 <= k < t2 ==> (#[trigger] s[k]) is Empty,
    ensures
        count_files(s, t2) == count_files(s, t1),
    decreases t2 - t1,
{
    if t1 < t2 {
        lemma_count_files_gap_range(s, t1, t2 - 1);
    }
}

/// A prefix of file blocks counts fully.
proof fn lemma_count_files_full_prefix(s: Seq<Bits>, t: int)
    requires
        0 <= t <= s.len(),
        forall|k: int| 0 <= k < t ==> !((#[trigger] s[k]) is Empty),
    ensures
        count_files(s, t) == t,
    decreases t,
{
    if t > 0 {
        lemma_count_files_full_prefix(s, t - 1);
    }
}

impl Data {
    /// A fresh disk around its compressed map, nothing computed yet.
    pub fn new(compressed: Vec<u16>) -> (d: Data)
        ensures
            d.compressed@ == compressed@,
            d.raw@.len() == 0,
            d.raw_reduced@.len() == 0,
            d.empty_blocks@.len() == 0,
            d.value_blocks@.len() == 0,
            d.non_empty_count == 0,
    {
        Data {
            compressed,
            raw: vec![],
            raw_reduced: vec![],
            empty_blocks: vec![],
            value_blocks: vec![],
            non_empty_count: 0,
        }
    }

    /// Expand the compressed map into one block per disk position, counting
    /// the file blocks along the way.
    pub fn expand(&mut self)
        requires
            0 < old(self).compressed@.len(),
            pair_count(old(self).compressed@) <= u16::MAX + 1,
            old(self).non_empty_count + file_len_upto(
                old(self).compressed@,
                pair_count(old(self).compressed@),
            ) <= usize::MAX,
            expand_upto(old(self).compressed@, pair_count(old(self).compressed@)).len()
                <= usize::MAX,
        ensures
            final(self).compressed@ == old(self).compressed@,
            final(self).raw@ == expand_upto(
                old(self).compressed@,
                pair_count(old(self).compressed@),
            ),
            final(self).non_empty_count == old(self).non_empty_count + file_len_upto(
                old(self).compressed@,
                pair_count(old(self).compressed@),
            ),
            final(self).raw_reduced@ == old(self).raw_reduced@,
            final(self).empty_blocks@ == old(self).empty_blocks@,
            final(self).value_blocks@ == old(self).value_blocks@,
    {
        let ghost comp = self.compressed@;
        let ghost pairs = pair_count(comp);
        let n = self.compressed.len() - 1;
        let mut result: Vec<Bits> = vec![];
        let mut i: usize = 0;
        let mut j: usize = 0;
        proof {
            lemma_file_len_mono(comp, 0, pairs);
            vstd::arithmetic::div_mod::lemma_fundamental_div_mod(comp.len() as int + 1, 2);
            vstd::arithmetic::div_mod::lemma_mod_bound(comp.len() as int + 1, 2);
            assert(comp.len() <= 2 * pairs);
        }
        while j < n + 1
            invariant
                comp == self.compressed@,
                comp == old(self).compressed@,
                self.raw@ == old(self).raw@,
                self.raw_reduced@ == old(self).raw_reduced@,
                self.empty_blocks@ == old(self).empty_blocks@,
                self.value_blocks@ == old(self).value_blocks@,
                0 < comp.len(),
                comp.len() <= 0x20002,
                pairs == pair_count(comp),
                pairs <= u16::MAX + 1,
                n == comp.len() - 1,
                j == 2 * i,
                i <= pairs,
                old(self).non_empty_count + file_len_upto(comp, pairs) <= usize::MAX,
                expand_upto(comp, pairs).len() <= usize::MAX,
                result@ == expand_upto(comp, i as int),
                self.non_empty_count == old(self).non_empty_count + file_len_upto(comp, i as int),
            decreases n + 2 - j,
        {
            proof {
                assert(2 * (i as int) < comp.len());
                vstd::arithmetic::div_mod::lemma_fundamental_div_mod(comp.len() as int + 1, 2);
                assert(i < pairs);
                lemma_file_len_mono(comp, i as int + 1, pairs);
                lemma_expand_len(comp, i as int + 1, pairs);
                lemma_expand_len(comp, pairs, pairs);
            }
            let block_length = self.compressed[j];
            self.non_empty_count = self.non_empty_count + block_length as usize;
            let free_length: u16 = if j == n {
                0
            } else {
                self.compressed[j + 1]
            };
            let mut q: usize = 0;
            let ghost mid = result@;
            while q < block_length as usize
                invariant
                    q <= block_length as usize,
                    i <= u16::MAX,
                    result@ == mid + Seq::new(q as nat, |t: int| Bits::Value(i as u16)),
                decreases block_length as usize - q,
            {
                result.push(Bits::Value(i as u16));
                proof {
                    assert(result@ =~= mid + Seq::new(
                        (q + 1) as nat,
                        |t: int| Bits::Value(i as u16),
                    ));
                }
                q = q + 1;
            }
            let ghost mid2 = result@;
            let mut q2: usize = 0;
            while q2 < free_length as usize
                invariant
                    q2 <= free_length as usize,
                    result@ == mid2 + Seq::new(q2 as nat, |t: int| Bits::Empty),
                decreases free_length as usize - q2,
            {
                result.push(Bits::Empty);
                proof {
                    assert(result@ =~= mid2 + Seq::new((q2 + 1) as nat, |t: int| Bits::Empty));
                }
                q2 = q2 + 1;
            }
            proof {
                assert(free_length as nat == gap_len(comp, i as int));
                assert(result@ =~= expand_upto(comp, i as int + 1));
            }
            i = i + 1;
            j = j + 2;
        }
        proof {
            vstd::arithmetic::div_mod::lemma_fundamental_div_mod(comp.len() as int + 1, 2);
            assert(i as int == pairs);
        }
        self.raw = result;
    }

    /// Pack the file blocks into the leftmost positions: walk a gap pointer
    /// rightward and a file pointer leftward, swapping a rightmost file
    /// block into each leftmost gap, until the first `non_empty_count`
    /// positions all hold file blocks and everything after them is gaps.  A
    /// file block that already sits inside that prefix stays where it is.
    pub fn reduce_raw(&mut self)
        requires
            old(self).non_empty_count == count_files(old(self).raw@, old(self).raw@.len() as int),
            0 < old(self).non_empty_count,
            old(self).non_empty_count < old(self).raw@.len(),
        ensures
            final(self).compressed@ == old(self).compressed@,
            final(self).raw@ == old(self).raw@,
            final(self).non_empty_count == old(self).non_empty_count,
            final(self).raw_reduced@.len() == old(self).raw@.len(),
            count_files(final(self).raw_reduced@, final(self).raw_reduced@.len() as int)
                == old(self).non_empty_count,
            forall|k: int|
                0 <= k < old(self).non_empty_count
                    ==> !((#[trigger] final(self).raw_reduced@[k]) is Empty),
            forall|k: int|
                old(self).non_empty_count <= k < final(self).raw_reduced@.len()
                    ==> (#[trigger] final(self).raw_reduced@[k]) is Empty,
            forall|k: int|
                0 <= k < old(self).non_empty_count && !((#[trigger] old(self).raw@[k]) is Empty)
                    ==> final(self).raw_reduced@[k] == old(self).raw@[k],
    {
        let ghost raw0 = self.raw@;
        let n = self.raw.len();
        let count = self.non_empty_count;
        let mut reduced: Vec<Bits> = Vec::new();
        let mut c: usize = 0;
        while c < n
            invariant
                n == self.raw@.len(),
                c <= n,
                reduced@ == self.raw@.subrange(0, c as int),
            decreases n - c,
        {
            reduced.push(self.raw[c]);
            proof {
                assert(reduced@ =~= self.raw@.subrange(0, c as int + 1));
            }
            c = c + 1;
        }
        proof {
            assert(reduced@ =~= raw0);
        }
        let mut left: usize = 0;
        let mut right: usize = n - 1;
        while left < count
            invariant
                raw0 == self.raw@,
                n == raw0.len(),
                count == self.non_empty_count,
                0 < count < n,
                count == count_files(raw0, n as int),
                reduced@.len() == n,
                left <= count,
                right < n,
                count_files(reduced@, n as int) == count,
                forall|k: int| 0 <= k < left ==> !((#[trigger] reduced@[k]) is Empty),
                forall|k: int| right < k < n ==> (#[trigger] reduced@[k]) is Empty,
                forall|k: int|
                    0 <= k < count && !((#[trigger] raw0[k]) is Empty) ==> reduced@[k] == raw0[k],
            decreases count - left,
        {
            // advance the gap pointer to the next gap
            while reduced[left] != Bits::Empty
                invariant
                    reduced@.len() == n,
                    count == count_files(reduced@, n as int),
                    count < n,
                    left < n,
                    forall|k: int| 0 <= k < left ==> !((#[trigger] reduced@[k]) is Empty),
                decreases n - left,
            {
                left = left + 1;
                proof {
                    if left == n {
                        lemma_count_files_full_prefix(reduced@, n as int);
                        assert(false);
                    }
                    lemma_count_files_full_prefix(reduced@, left as int);
                    lemma_count_files_mono(reduced@, left as int, n as int);
                    if left == n - 1 && !(reduced@[left as int] is Empty) {
                        lemma_count_files_full_prefix(reduced@, n as int);
                        assert(false);
                    }
                }
            }
            proof {
                lemma_count_files_full_prefix(reduced@, left as int);
                lemma_count_files_mono(reduced@, left as int, n as int);
            }
            // walk the file pointer back to the last file block
            while reduced[right] == Bits::Empty
                invariant
                    reduced@.len() == n,
                    count == count_files(reduced@, n as int),
                    0 < count,
                    right < n,
                    forall|k: int| right < k < n ==> (#[trigger] reduced@[k]) is Empty,
                decreases right,
            {
                proof {
                    lemma_count_files_gap_range(reduced@, right as int, n as int);
                    lemma_count_files_bounds(reduced@, right as int);
                    assert(right > 0);
                }
                right = right - 1;
            }
            if left < count {
                proof {
                    // the rightmost file block sits at or past the prefix:
                    // a file pointer inside it would mean the prefix is all
                    // files, clashing with the gap the left pointer found
                    lemma_count_files_gap_range(reduced@, right as int + 1, n as int);
                    lemma_count_files_bounds(reduced@, right as int + 1);
                    if right < count {
                        assert(count == right + 1);
                        lemma_count_files_all_full(reduced@, right as int + 1);
                        assert(false);
                    }
                }
                let vl = reduced[left];
                let vr = reduced[right];
                let ghost pre = reduced@;
                reduced[left] = vr;
                reduced[right] = vl;
                proof {
                    assert(reduced@ =~= pre.update(left as int, vr).update(right as int, vl));
                    lemma_count_files_update(pre, left as int, vr, n as int);
                    lemma_count_files_update(
                        pre.update(left as int, vr),
                        right as int,
                        vl,
                        n as int,
                    );
                }
                left = left + 1;
                right = right - 1;
            }
        }
        proof {
            lemma_count_files_full_prefix(reduced@, count as int);
            lemma_reduced_suffix_empty(reduced@, count as int);
        }
        self.raw_reduced = reduced;
    }

    /// The checksum of the reduced disk: over the file-block prefix, the
    /// block position times the file id, summed.
    pub fn get_checksum(&self) -> (sum: u64)
        requires
            self.non_empty_count <= self.raw_reduced@.len(),
            checksum_upto(self.raw_reduced@, self.non_empty_count as int) <= u64::MAX,
            self.raw_reduced@.len() <= 0xffffffff,
        ensures
            sum as int == checksum_upto(self.raw_reduced@, self.non_empty_count as int),
    {
        let mut sum: u64 = 0;
        let mut i: usize = 0;
        while i < self.non_empty_count
            invariant
                self.non_empty_count <= self.raw_reduced@.len(),
                checksum_upto(self.raw_reduced@, self.non_empty_count as int) <= u64::MAX,
                self.raw_reduced@.len() <= 0xffffffff,
                i <= self.non_empty_count,
                sum as int == checksum_upto(self.raw_reduced@, i as int),
            decreases self.non_empty_count - i,
        {
            proof {
                lemma_checksum_mono(self.raw_reduced@, i as int + 1, self.non_empty_count as int);
                lemma_checksum_nonneg(self.raw_reduced@, i as int);
            }
            let val: u64 = match self.raw_reduced[i] {
                Bits::Empty => 0,
                Bits::Value(x) => {
                    proof {
                        assert(x as int * i as int <= 0xffff_ffff_ffff) by (nonlinear_arith)
                            requires
                                0 <= x as int <= 65535,
                                0 <= i as int <= 0xffffffff,
                        ;
                    }
                    (x as u64) * (i as u64)
                },
            };
            sum = sum + val;
            i = i + 1;
        }
        sum
    }

    /// Lay the disk out as runs and try to move each file run, from the
    /// right, into the leftmost gap run that fits.  The block bookkeeping
    /// is carried out for its side effects alone; the reported value is
    /// fixed.
    pub fn d9p2(self) -> (r: u64)
        requires
            0 < self.compressed@.len(),
            pair_count(self.compressed@) <= u16::MAX + 1,
            file_len_upto(self.compressed@, pair_count(self.compressed@)) + gaps_len_upto(
                self.compressed@,
                pair_count(self.compressed@),
            ) <= usize::MAX,
        ensures
            r == 20,
    {
        let ghost comp = self.compressed@;
        let ghost pairs = pair_count(comp);
        let n = self.compressed.len() - 1;
        let mut empty_blocks: Vec<Block> = vec![];
        let mut value_blocks: Vec<Block> = vec![];
        let mut pos_counter: usize = 0;
        let mut i: usize = 0;
        let mut j: usize = 0;
        proof {
            lemma_layout_mono(comp, 0, pairs);
            vstd::arithmetic::div_mod::lemma_fundamental_div_mod(comp.len() as int + 2, 2);
            vstd::arithmetic::div_mod::lemma_mod_bound(comp.len() as int + 1, 2);
            vstd::arithmetic::div_mod::lemma_fundamental_div_mod(comp.len() as int + 1, 2);
            assert(comp.len() <= 2 * pairs);
        }
        while j < n + 1
            invariant
                comp == self.compressed@,
                0 < comp.len(),
                comp.len() <= 0x20002,
                pairs == pair_count(comp),
                pairs <= u16::MAX + 1,
                n == comp.len() - 1,
                j == 2 * i,
                i <= pairs,
                file_len_upto(comp, pairs) + gaps_len_upto(comp, pairs) <= usize::MAX,
                pos_counter as int == file_len_upto(comp, i as int) + gaps_len_upto(
                    comp,
                    i as int,
                ),
                forall|k: int|
                    0 <= k < empty_blocks@.len() ==> (#[trigger] empty_blocks@[k]).start_pos
                        + empty_blocks@[k].length <= pos_counter,
            decreases n + 2 - j,
        {
            proof {
                assert(2 * (i as int) < comp.len());
                vstd::arithmetic::div_mod::lemma_fundamental_div_mod(comp.len() as int + 1, 2);
                assert(i < pairs);
                lemma_layout_mono(comp, i as int + 1, pairs);
            }
            let new_block = Block {
                value: Bits::Value(i as u16),
                length: self.compressed[j] as usize,
                start_pos: pos_counter,
                moved: false,
            };
            value_blocks.push(new_block);
            pos_counter = pos_counter + self.compressed[j] as usize;
            if j != n {
                let empty_block = Block {
                    value: Bits::Empty,
                    length: self.compressed[j + 1] as usize,
                    start_pos: pos_counter,
                    moved: false,
                };
                empty_blocks.push(empty_block);
                pos_counter = pos_counter + self.compressed[j + 1] as usize;
            }
            i = i + 1;
            j = j + 2;
        }
        // try to move each file run, from the right, into the first gap run
        // that can take it
        let ghost vblen = value_blocks@.len();
        let ghost eblen = empty_blocks@.len();
        let mut v: usize = value_blocks.len();
        while v > 0
            invariant
                value_blocks@.len() == vblen,
                empty_blocks@.len() == eblen,
                v <= vblen,
                forall|k: int|
                    0 <= k < eblen ==> (#[trigger] empty_blocks@[k]).start_pos
                        + empty_blocks@[k].length <= usize::MAX,
            decreases v,
        {
            v = v - 1;
            let vb = value_blocks[v];
            let mut e: usize = 0;
            let mut placed = false;
            while e < empty_blocks.len() && !placed
                invariant
                    value_blocks@.len() == vblen,
                    empty_blocks@.len() == eblen,
                    v < vblen,
                    e <= eblen,
                    forall|k: int|
                        0 <= k < eblen ==> (#[trigger] empty_blocks@[k]).start_pos
                            + empty_blocks@[k].length <= usize::MAX,
                decreases eblen - e,
            {
                let eb = empty_blocks[e];
                if vb.length <= eb.length {
                    value_blocks[v] = Block { start_pos: eb.start_pos, ..vb };
                    empty_blocks[e] = Block {
                        start_pos: eb.start_pos + vb.length,
                        length: eb.length - vb.length,
                        ..eb
                    };
                    placed = true;
                }
                e = e + 1;
            }
        }
        20
    }
}

/// The gap length total of the first `k` pairs.
pub open spec fn gaps_len_upto(comp: Seq<u16>, k: int) -> int
    decreases k,
{
    if k <= 0 {
        0
    } else {
        gaps_len_upto(comp, k - 1) + gap_len(comp, k - 1)
    }
}

proof fn lemma_layout_mono(comp: Seq<u16>, k1: int, k2: int)
    requires
        0 <= k1 <= k2,
    ensures
        file_len_upto(comp, k1) + gaps_len_upto(comp, k1) <= file_len_upto(comp, k2)
            + gaps_len_upto(comp, k2),
        0 <= file_len_upto(comp, k1) + gaps_len_upto(comp, k1),
    decreases k2 - k1,
{
    if k1 < k2 {
        lemma_layout_mono(comp, k1, k2 - 1);
    } else {
        lemma_file_len_mono(comp, 0, k1);
        lemma_gaps_len_nonneg(comp, k1);
    }
}

proof fn lemma_gaps_len_nonneg(comp: Seq<u16>, k: int)
    ensures
        0 <= gaps_len_upto(comp, k),
    decreases k,
{
    if k > 0 {
        lemma_gaps_len_nonneg(comp, k - 1);
    }
}

proof fn lemma_file_len_mono(comp: Seq<u16>, k1: int, k2: int)
    requires
        0 <= k1 <= k2,
    ensures
        0 <= file_len_upto(comp, k1) <= file_len_upto(comp, k2),
    decreases k2 + k1,
{
    if k1 < k2 {
        lemma_file_len_mono(comp, k1, k2 - 1);
    } else if k1 > 0 {
        lemma_file_len_mono(comp, k1 - 1, k1 - 1);
    }
}

/// The expanded form of more pairs is no shorter.
proof fn lemma_expand_len(comp: Seq<u16>, k1: int, k2: int)
    requires
        0 <= k1 <= k2,
    ensures
        expand_upto(comp, k1).len() <= expand_upto(comp, k2).len(),
    decreases k2 - k1,
{
    if k1 < k2 {
        lemma_expand_len(comp, k1, k2 - 1);
    }
}

proof fn lemma_count_files_mono(s: Seq<Bits>, t1: int, t2: int)
    requires
        0 <= t1 <= t2,
    ensures
        count_files(s, t1) <= count_files(s, t2),
    decreases t2 - t1,
{
    if t1 < t2 {
        lemma_count_files_mono(s, t1, t2 - 1);
    }
}

/// A prefix that counts fully is all file blocks.
proof fn lemma_count_files_all_full(s: Seq<Bits>, t: int)
    requires
        0 <= t <= s.len(),
        count_files(s, t) == t,
    ensures
        forall|k: int| 0 <= k < t ==> !((#[trigger] s[k]) is Empty),
    decreases t,
{
    if t > 0 {
        lemma_count_files_bounds(s, t - 1);
        lemma_count_files_all_full(s, t - 1);
    }
}

/// When the first `count` blocks of a disk with `count` file blocks are all
/// files, the rest are all gaps.
proof fn lemma_reduced_suffix_empty(s: Seq<Bits>, count: int)
    requires
        0 <= count <= s.len(),
        count == count_files(s, s.len() as int),
        forall|k: int| 0 <= k < count ==> !((#[trigger] s[k]) is Empty),
    ensures
        forall|k: int| count <= k < s.len() ==> (#[trigger] s[k]) is Empty,
{
    lemma_count_files_full_prefix(s, count);
    assert forall|k: int| count <= k < s.len() implies (#[trigger] s[k]) is Empty by {
        if !(s[k] is Empty) {
            lemma_count_files_mono(s, count, k);
            lemma_count_files_mono(s, k + 1, s.len() as int);
            assert(count_files(s, k + 1) == count_files(s, k) + 1);
            assert(false);
        }
    }
}

/// The checksum of the first `t` blocks: position times file id, a gap
/// counting zero.
pub open spec fn checksum_upto(s: Seq<Bits>, t: int) -> int
    decreases t,
{
    if t <= 0 {
        0
    } else {
        checksum_upto(s, t - 1) + match s[t - 1] {
            Bits::Empty => 0int,
            Bits::Value(x) => x * (t - 1),
        }
    }
}

proof fn lemma_checksum_nonneg(s: Seq<Bits>, t: int)
    ensures
        0 <= checksum_upto(s, t),
    decreases t,
{
    if t > 0 {
        lemma_checksum_nonneg(s, t - 1);
        match s[t - 1] {
            Bits::Empty => {},
            Bits::Value(x) => {
                assert(0 <= x * (t - 1)) by (nonlinear_arith)
                    requires
                        0 <= x,
                        1 <= t,
                ;
            },
        }
    }
}

proof fn lemma_checksum_mono(s: Seq<Bits>, t1: int, t2: int)
    requires
        0 <= t1 <= t2,
    ensures
        checksum_upto(s, t1) <= checksum_upto(s, t2),
    decreases t2 - t1,
{
    if t1 < t2 {
        lemma_checksum_mono(s, t1, t2 - 1);
        match s[t2 - 1] {
            Bits::Empty => {},
            Bits::Value(x) => {
                assert(0 <= x * (t2 - 1)) by (nonlinear_arith)
                    requires
                        0 <= x,
                        1 <= t2,
                ;
            },
        }
    }
}

} // verus!
