//! Disk compaction: a dense map of alternating file and free-space sizes;
//! sectors move left into free space, either one sector or one whole file
//! at a time, and the checksum weights each file id by its position.
use vstd::prelude::*;
use crate::text;

verus! {

/// The disk: one entry per sector, a file id or free space.
#[derive(Debug)]
pub struct Filesystem {
    pub sectors: Vec<Option<u32>>,
}

/// Checksum: the sum over sectors of position times file id, free space
/// counting zero.
pub open spec fn spec_checksum(s: Seq<Option<u32>>) -> int
    decreases s.len(),
{
    if s.len() == 0 {
        0
    } else {
        spec_checksum(s.drop_last()) + (s.len() - 1) * (match s.last() {
            Some(id) => id as int,
            None => 0,
        })
    }
}

/// Swapping two entries keeps the multiset of sectors.
proof fn lemma_swap_multiset(s: Seq<Option<u32>>, i: int, j: int)
    requires
        0 <= i < s.len(),
        0 <= j < s.len(),
        i != j,
    ensures
        s.update(i, s[j]).update(j, s[i]).to_multiset() =~= s.to_multiset(),
{
    broadcast use vstd::multiset::group_multiset_axioms;

    let t1 = s.update(i, s[j]);
    vstd::seq_lib::to_multiset_update(s, i, s[j]);
    assert(t1[j] == s[j]);
    vstd::seq_lib::to_multiset_update(t1, j, s[i]);
    broadcast use vstd::seq_lib::group_to_multiset_ensures;

    assert(s.to_multiset().contains(s[i])) by {
        assert(s[i] == s[i]);
    }
    assert(t1.to_multiset().contains(t1[j])) by {
        assert(t1[j] == t1[j]);
    }
}

/// Swap two sectors in place.
fn swap_cells(v: &mut Vec<Option<u32>>, i: usize, j: usize)
    requires
        i < old(v)@.len(),
        j < old(v)@.len(),
        i != j,
    ensures
        final(v)@ == old(v)@.update(i as int, old(v)@[j as int]).update(
            j as int,
            old(v)@[i as int],
        ),
        final(v)@.to_multiset() == old(v)@.to_multiset(),
        final(v)@.len() == old(v)@.len(),
{
    proof {
        lemma_swap_multiset(v@, i as int, j as int);
    }
    let a = v[i];
    let b = v[j];
    v.set(i, b);
    v.set(j, a);
}

/// The start of the maximal run of `Some(id)` entries ending at `i`.
pub open spec fn run_start(orig: Seq<Option<u32>>, i: int, id: u32) -> int
    decreases i,
{
    if i <= 0 {
        0
    } else if orig[i - 1] == Some(id) {
        run_start(orig, i - 1, id)
    } else {
        i
    }
}

/// A run start never lies past its end.
pub proof fn lemma_run_start_le(orig: Seq<Option<u32>>, i: int, id: u32)
    ensures
        run_start(orig, i, id) <= i || i < 0,
        0 <= run_start(orig, i, id) || i < 0,
    decreases i,
{
    if i > 0 && orig[i - 1] == Some(id) {
        lemma_run_start_le(orig, i - 1, id);
    }
}

/// The leftmost free run of exactly `flen` cells before `limit`,
/// continuing a run of `run` free cells ending at `e`.
pub open spec fn find_free(
    out: Seq<Option<u32>>,
    limit: int,
    flen: int,
    e: int,
    run: int,
) -> Option<int>
    decreases limit - e,
{
    if e >= limit {
        None
    } else if out[e] is None {
        if run + 1 == flen {
            Some(e + 1 - flen)
        } else {
            find_free(out, limit, flen, e + 1, run + 1)
        }
    } else {
        find_free(out, limit, flen, e + 1, 0)
    }
}

/// The layout after the file sectors in `[start, start + flen)` have been
/// swapped pairwise with the free cells in `[dest, dest + flen)`, from
/// offset `k` on.
pub open spec fn swap_range(
    out: Seq<Option<u32>>,
    dest: int,
    start: int,
    flen: int,
    k: int,
) -> Seq<Option<u32>>
    decreases flen - k,
{
    if k >= flen {
        out
    } else {
        swap_range(
            out.update(dest + k, out[start + k]).update(start + k, out[dest + k]),
            dest,
            start,
            flen,
            k + 1,
        )
    }
}

/// The whole-file compaction of the suffix ending at `end`: each file run
/// of the original layout, rightmost first, swaps into the leftmost free
/// run of its length lying wholly before it, or stays.
pub open spec fn spec_blocks(orig: Seq<Option<u32>>, out: Seq<Option<u32>>, end: int) -> Seq<
    Option<u32>,
>
    decreases end,
    via spec_blocks_decreases
{
    if end <= 0 {
        out
    } else {
        match orig[end - 1] {
            None => spec_blocks(orig, out, end - 1),
            Some(id) => {
                let start = run_start(orig, end - 1, id);
                let flen = end - start;
                match find_free(out, start, flen, 0, 0) {
                    Some(dest) => spec_blocks(orig, swap_range(out, dest, start, flen, 0), start),
                    None => spec_blocks(orig, out, start),
                }
            },
        }
    }
}

#[via_fn]
proof fn spec_blocks_decreases(orig: Seq<Option<u32>>, out: Seq<Option<u32>>, end: int) {
    if end > 0 {
        match orig[end - 1] {
            None => {},
            Some(id) => {
                lemma_run_start_le(orig, end - 1, id);
            },
        }
    }
}

/// The layout after the two-pointer sector compaction of `s`: the left
/// cursor skips file sectors, the right cursor skips free ones, and a
/// file sector at the right swaps into a free one at the left.
pub open spec fn spec_sectors(s: Seq<Option<u32>>, left: int, right: int) -> Seq<Option<u32>>
    decreases right - left,
{
    if left >= right {
        s
    } else if s[left] is Some {
        spec_sectors(s, left + 1, right)
    } else if s[right] is None {
        spec_sectors(s, left, right - 1)
    } else {
        spec_sectors(s.update(left, s[right]).update(right, s[left]), left + 1, right)
    }
}

/// The per-sector compaction of the whole layout.
pub open spec fn spec_compacted(s: Seq<Option<u32>>) -> Seq<Option<u32>> {
    if s.len() == 0 {
        s
    } else {
        spec_sectors(s, 0, s.len() - 1)
    }
}

/// Whether the sector holds exactly the file `id`.
fn same_id(cell: Option<u32>, id: u32) -> (r: bool)
    ensures
        r == (cell == Some(id)),
{
    match cell {
        Some(p) => p == id,
        None => false,
    }
}

impl Filesystem {
    /// An empty disk.
    pub fn new() -> (r: Filesystem)
        ensures
            r.sectors@.len() == 0,
    {
        Filesystem { sectors: Vec::new() }
    }

    /// Move single sectors from the end into the leftmost free space until
    /// all files sit at the front: afterwards no file sector follows a
    /// free one.
    pub fn compact_sectors(&self) -> (r: Filesystem)
        ensures
            r.sectors@.len() == self.sectors@.len(),
            r.sectors@.to_multiset() == self.sectors@.to_multiset(),
            forall|i: int, j: int|
                0 <= i < j < r.sectors@.len() && (#[trigger] r.sectors@[i]) is None ==> (
                #[trigger] r.sectors@[j]) is None,
            r.sectors@ == spec_compacted(self.sectors@),
    {
        let ghost orig = self.sectors@;
        let mut out = copy_sectors(&self.sectors);
        if out.len() == 0 {
            return Filesystem { sectors: out };
        }
        let mut left: usize = 0;
        let mut right: usize = out.len() - 1;
        while left < right
            invariant
                left <= right < out@.len(),
                out@.len() == self.sectors@.len(),
                out@.to_multiset() == self.sectors@.to_multiset(),
                forall|q: int| 0 <= q < left ==> (#[trigger] out@[q]) is Some,
                forall|q: int| right < q < out@.len() ==> (#[trigger] out@[q]) is None,
                spec_compacted(orig) == spec_sectors(out@, left as int, right as int),
            decreases right - left,
        {
            if out[left].is_some() {
                proof {
                    assert(spec_sectors(out@, left as int, right as int) == spec_sectors(
                        out@,
                        left as int + 1,
                        right as int,
                    ));
                }
                left = left + 1;
            } else if out[right].is_none() {
                proof {
                    assert(spec_sectors(out@, left as int, right as int) == spec_sectors(
                        out@,
                        left as int,
                        right as int - 1,
                    ));
                }
                right = right - 1;
            } else {
                let ghost pre = out@;
                swap_cells(&mut out, left, right);
                proof {
                    assert(out@ == pre.update(left as int, pre[right as int]).update(
                        right as int,
                        pre[left as int],
                    ));
                    assert(spec_sectors(pre, left as int, right as int) == spec_sectors(
                        out@,
                        left as int + 1,
                        right as int,
                    ));
                    assert(out@[left as int] == pre[right as int]);
                    assert forall|q: int| 0 <= q < left + 1 implies (#[trigger] out@[q])
                        is Some by {
                        if q < left {
                            assert(out@[q] == pre[q]);
                        }
                    }
                    assert forall|q: int| right < q < out@.len() implies (#[trigger] out@[q])
                        is None by {
                        assert(out@[q] == pre[q]);
                    }
                }
                left = left + 1;
            }
        }
        proof {
            assert forall|i: int, j: int|
                0 <= i < j < out@.len() && (#[trigger] out@[i]) is None implies (
            #[trigger] out@[j]) is None by {
                assert(left == right);
                if i < left {
                    assert(out@[i] is Some);
                }
            }
            assert(spec_sectors(out@, left as int, right as int) == out@);
        }
        Filesystem { sectors: out }
    }

    /// Move whole files, rightmost first, into the leftmost free run that
    /// fits; files that fit nowhere to their left stay.
    pub fn compact_blocks(&self) -> (r: Filesystem)
        ensures
            r.sectors@.len() == self.sectors@.len(),
            r.sectors@.to_multiset() == self.sectors@.to_multiset(),
            r.sectors@ == spec_blocks(self.sectors@, self.sectors@, self.sectors@.len() as int),
    {
        let ghost orig = self.sectors@;
        let mut out = copy_sectors(&self.sectors);
        let n = self.sectors.len();
        // walk file runs from the right of the original layout
        let mut end: usize = n;
        while end > 0
            invariant
                end <= n,
                n == orig.len(),
                orig == self.sectors@,
                out@.len() == n,
                out@.to_multiset() == orig.to_multiset(),
                spec_blocks(orig, orig, n as int) == spec_blocks(orig, out@, end as int),
            decreases end,
        {
            let cell = self.sectors[end - 1];
            match cell {
                None => {
                    proof {
                        assert(spec_blocks(orig, out@, end as int) == spec_blocks(
                            orig,
                            out@,
                            end as int - 1,
                        ));
                    }
                    end = end - 1;
                },
                Some(id) => {
                    // find the start of this file's run
                    let mut start: usize = end - 1;
                    while start > 0 && same_id(self.sectors[start - 1], id)
                        invariant
                            start < end <= n,
                            n == orig.len(),
                            orig == self.sectors@,
                            orig[end as int - 1] == Some(id),
                            run_start(orig, end as int - 1, id) == run_start(
                                orig,
                                start as int,
                                id,
                            ),
                        decreases start,
                    {
                        proof {
                            assert(orig[start as int - 1] == Some(id));
                            assert(run_start(orig, start as int, id) == run_start(
                                orig,
                                start as int - 1,
                                id,
                            ));
                        }
                        start = start - 1;
                    }
                    proof {
                        if start > 0 {
                            assert(orig[start as int - 1] != Some(id));
                        }
                        assert(run_start(orig, start as int, id) == start);
                        assert(run_start(orig, end as int - 1, id) == start);
                    }
                    let flen = end - start;
                    // find the leftmost free run of at least flen cells
                    let mut e: usize = 0;
                    let mut run: usize = 0;
                    let mut dest: usize = 0;
                    let mut found = false;
                    while e < start && !found
                        invariant
                            e <= start <= n,
                            out@.len() == n,
                            run <= e,
                            flen >= 1,
                            found ==> dest + flen <= start && (forall|q: int|
                                dest <= q < dest + flen ==> out@[q] is None),
                            !found ==> (forall|q: int| e - run <= q < e ==> out@[q] is None),
                            !found ==> run < flen,
                            !found ==> find_free(out@, start as int, flen as int, 0, 0)
                                == find_free(
                                out@,
                                start as int,
                                flen as int,
                                e as int,
                                run as int,
                            ),
                            found ==> find_free(out@, start as int, flen as int, 0, 0) == Some(
                                dest as int,
                            ),
                        decreases start - e,
                    {
                        if out[e].is_none() {
                            run = run + 1;
                            if run == flen {
                                dest = e + 1 - flen;
                                found = true;
                                proof {
                                    assert(forall|q: int|
                                        dest <= q < dest + flen ==> out@[q] is None);
                                    assert(find_free(
                                        out@,
                                        start as int,
                                        flen as int,
                                        e as int,
                                        run as int - 1,
                                    ) == Some(e as int + 1 - flen));
                                }
                            } else {
                                proof {
                                    assert(find_free(
                                        out@,
                                        start as int,
                                        flen as int,
                                        e as int,
                                        run as int - 1,
                                    ) == find_free(
                                        out@,
                                        start as int,
                                        flen as int,
                                        e as int + 1,
                                        run as int,
                                    ));
                                }
                            }
                        } else {
                            run = 0;
                            proof {
                                assert(find_free(
                                    out@,
                                    start as int,
                                    flen as int,
                                    e as int,
                                    run as int,
                                ) == find_free(
                                    out@,
                                    start as int,
                                    flen as int,
                                    e as int + 1,
                                    0,
                                ));
                            }
                        }
                        e = e + 1;
                    }
                    proof {
                        if !found {
                            assert(e >= start);
                            assert(find_free(
                                out@,
                                start as int,
                                flen as int,
                                e as int,
                                run as int,
                            ) is None);
                            assert(find_free(out@, start as int, flen as int, 0, 0) is None);
                        }
                    }
                    let ghost out_pre = out@;
                    if found {
                        // swap the file's sectors into the free run
                        let mut k: usize = 0;
                        while k < flen
                            invariant
                                k <= flen,
                                flen == end - start,
                                start < end <= n,
                                dest + flen <= start,
                                out@.len() == n,
                                n == orig.len(),
                                out@.to_multiset() == orig.to_multiset(),
                                swap_range(out_pre, dest as int, start as int, flen as int, 0)
                                    == swap_range(
                                    out@,
                                    dest as int,
                                    start as int,
                                    flen as int,
                                    k as int,
                                ),
                            decreases flen - k,
                        {
                            let ghost before = out@;
                            swap_cells(&mut out, dest + k, start + k);
                            proof {
                                assert(out@ == before.update(
                                    dest as int + k,
                                    before[start as int + k],
                                ).update(start as int + k, before[dest as int + k]));
                                assert(swap_range(
                                    before,
                                    dest as int,
                                    start as int,
                                    flen as int,
                                    k as int,
                                ) == swap_range(
                                    out@,
                                    dest as int,
                                    start as int,
                                    flen as int,
                                    k as int + 1,
                                ));
                            }
                            k = k + 1;
                        }
                        proof {
                            assert(swap_range(
                                out@,
                                dest as int,
                                start as int,
                                flen as int,
                                flen as int,
                            ) == out@);
                            assert(out@ == swap_range(
                                out_pre,
                                dest as int,
                                start as int,
                                flen as int,
                                0,
                            ));
                            assert(spec_blocks(orig, out_pre, end as int) == spec_blocks(
                                orig,
                                out@,
                                start as int,
                            ));
                        }
                    } else {
                        proof {
                            assert(spec_blocks(orig, out_pre, end as int) == spec_blocks(
                                orig,
                                out@,
                                start as int,
                            ));
                        }
                    }
                    end = start;
                },
            }
        }
        proof {
            assert(spec_blocks(orig, out@, 0) == out@);
        }
        Filesystem { sectors: out }
    }

    /// The checksum of the current layout.
    /// The checksum of the current layout.
    pub fn checksum(&self) -> (r: u64)
        requires
            spec_checksum(self.sectors@) <= u64::MAX,
        ensures
            r == spec_checksum(self.sectors@),
    {
        let ghost sv = self.sectors@;
        let mut total: u64 = 0;
        let mut i: usize = 0;
        while i < self.sectors.len()
            invariant
                i <= sv.len(),
                sv == self.sectors@,
                spec_checksum(sv) <= u64::MAX,
                total == spec_checksum(sv.take(i as int)),
            decreases sv.len() - i,
        {
            proof {
                assert(sv.take(i as int + 1).drop_last() =~= sv.take(i as int));
                assert(sv.take(i as int + 1).last() == sv[i as int]);
                lemma_checksum_prefix(sv, i as int + 1);
                lemma_checksum_nonneg(sv.take(i as int));
                let v: int = match sv[i as int] {
                    Some(id) => id as int,
                    None => 0,
                };
                assert((i as int) * v >= 0) by (nonlinear_arith)
                    requires
                        0 <= i as int,
                        0 <= v,
                ;
            }
            let c = self.sectors[i];
            match c {
                Some(id) => {
                    let add = (i as u64) * (id as u64);
                    proof {
                        assert(add == (i as int) * (id as int));
                    }
                    total = total + add;
                },
                None => {},
            }
            i = i + 1;
        }
        proof {
            assert(sv.take(sv.len() as int) =~= sv);
        }
        total
    }
}

/// Checksums are sums of non-negative terms.
proof fn lemma_checksum_nonneg(s: Seq<Option<u32>>)
    ensures
        spec_checksum(s) >= 0,
    decreases s.len(),
{
    if s.len() > 0 {
        lemma_checksum_nonneg(s.drop_last());
        let v: int = match s.last() {
            Some(id) => id as int,
            None => 0,
        };
        assert((s.len() - 1) * v >= 0) by (nonlinear_arith)
            requires
                s.len() >= 1,
                v >= 0,
        ;
    }
}

/// Partial checksums stay below the whole checksum.
proof fn lemma_checksum_prefix(s: Seq<Option<u32>>, i: int)
    requires
        0 <= i <= s.len(),
    ensures
        spec_checksum(s.take(i)) <= spec_checksum(s),
    decreases s.len() - i,
{
    if i == s.len() {
        assert(s.take(i) =~= s);
    } else {
        lemma_checksum_prefix(s, i + 1);
        assert(s.take(i + 1).drop_last() =~= s.take(i));
        assert(s.take(i + 1).last() == s[i]);
        let v: int = match s[i] {
            Some(id) => id as int,
            None => 0,
        };
        assert(i * v >= 0) by (nonlinear_arith)
            requires
                0 <= i,
                0 <= v,
        ;
    }
}

/// A copy of the sector list.
fn copy_sectors(v: &Vec<Option<u32>>) -> (r: Vec<Option<u32>>)
    ensures
        r@ == v@,
{
    let mut r: Vec<Option<u32>> = Vec::new();
    let mut i: usize = 0;
    while i < v.len()
        invariant
            i <= v@.len(),
            r@ == v@.take(i as int),
        decreases v@.len() - i,
    {
        r.push(v[i]);
        proof {
            assert(r@ =~= v@.take(i as int + 1));
        }
        i = i + 1;
    }
    proof {
        assert(v@.take(v@.len() as int) =~= v@);
    }
    r
}

/// The sector run one map digit expands to: the digit's count of copies
/// of the file id `i/2` at even positions, of free space at odd ones.
pub open spec fn spec_run(line: Seq<char>, i: int) -> Seq<Option<u32>> {
    let size = if text::is_digit_char(line[i]) {
        text::digit_of(line[i])
    } else {
        0
    };
    let entry: Option<u32> = if i % 2 == 0 && i / 2 <= u32::MAX {
        Some((i / 2) as u32)
    } else {
        None
    };
    Seq::new(size as nat, |q: int| entry)
}

/// The disk the first `k` digits of the dense map describe.
pub open spec fn spec_disk(line: Seq<char>, k: int) -> Seq<Option<u32>>
    decreases k,
{
    if k <= 0 {
        Seq::empty()
    } else {
        spec_disk(line, k - 1) + spec_run(line, k - 1)
    }
}

/// The problem: a disk read from its dense map.
#[derive(Debug)]
pub struct Problem {
    pub filesystem: Filesystem,
}

impl Problem {
    /// Parse the dense map: digits alternate between file sizes and free
    /// space sizes; file ids count up from zero.
    pub fn from_string(string: &str) -> (r: Problem)
        requires
            text::lines_of(string@).len() >= 1,
        ensures
            r.filesystem.sectors@ == spec_disk(
                text::lines_of(string@)[0],
                text::lines_of(string@)[0].len() as int,
            ),
            r.filesystem.sectors@.len() <= text::lines_of(string@)[0].len() * 9,
    {
        let chars = text::chars_of(string);
        let lines = text::split_lines(&chars);
        let line = &lines[0];
        let ghost l0 = text::lines_of(string@)[0];
        proof {
            assert(lines@[0]@ == l0);
            assert(spec_disk(l0, 0) =~= Seq::<Option<u32>>::empty());
        }
        let mut sectors: Vec<Option<u32>> = Vec::new();
        let mut i: usize = 0;
        while i < line.len()
            invariant
                i <= line@.len(),
                line@ == l0,
                sectors@ == spec_disk(l0, i as int),
                sectors@.len() <= i * 9,
            decreases line@.len() - i,
        {
            let c = line[i];
            let size: usize = if '0' <= c && c <= '9' {
                (c as u32 - '0' as u32) as usize
            } else {
                0
            };
            let entry: Option<u32> = if i % 2 == 0 {
                if i / 2 <= u32::MAX as usize {
                    Some((i / 2) as u32)
                } else {
                    None
                }
            } else {
                None
            };
            proof {
                assert(spec_run(l0, i as int).len() == size);
                assert(forall|q: int|
                    0 <= q < size ==> #[trigger] spec_run(l0, i as int)[q] == entry);
            }
            let mut k: usize = 0;
            let ghost pre = sectors@;
            while k < size
                invariant
                    k <= size,
                    size <= 9,
                    sectors@ == pre + Seq::new(k as nat, |q: int| entry),
                    sectors@.len() == pre.len() + k,
                decreases size - k,
            {
                sectors.push(entry);
                proof {
                    assert(sectors@ =~= pre + Seq::new(k as nat + 1, |q: int| entry));
                }
                k = k + 1;
            }
            proof {
                assert(sectors@ =~= spec_disk(l0, i as int + 1)) by {
                    assert(spec_disk(l0, i as int + 1) == spec_disk(l0, i as int) + spec_run(
                        l0,
                        i as int,
                    ));
                    assert(sectors@.len() == pre.len() + size);
                    assert forall|q: int| 0 <= q < sectors@.len() implies sectors@[q]
                        == spec_disk(l0, i as int + 1)[q] by {
                        if q < pre.len() {
                            assert(sectors@[q] == pre[q]);
                        } else {
                            assert(sectors@[q] == Seq::new(size as nat, |t: int| entry)[q
                                - pre.len()]);
                        }
                    }
                }
                assert(sectors@.len() <= (i + 1) * 9) by (nonlinear_arith)
                    requires
                        sectors@.len() <= i * 9 + 9,
                        0 <= i,
                ;
            }
            i = i + 1;
        }
        proof {
            assert(sectors@.len() <= line@.len() * 9) by (nonlinear_arith)
                requires
                    sectors@.len() <= (i as int) * 9,
                    i as int <= line@.len(),
        ;
        }
        Problem { filesystem: Filesystem { sectors } }
    }

    /// Checksum after per-sector compaction.
    pub fn part_1(&self) -> (r: u64)
        requires
            self.filesystem.sectors@.len() <= 0x8000,
        ensures
            r == spec_checksum(spec_compacted(self.filesystem.sectors@)),
    {
        let compacted = self.filesystem.compact_sectors();
        proof {
            lemma_checksum_bound(compacted.sectors@);
        }
        compacted.checksum()
    }

    /// Checksum after whole-file compaction.
    pub fn part_2(&self) -> (r: u64)
        requires
            self.filesystem.sectors@.len() <= 0x8000,
        ensures
            r == spec_checksum(
                spec_blocks(
                    self.filesystem.sectors@,
                    self.filesystem.sectors@,
                    self.filesystem.sectors@.len() as int,
                ),
            ),
    {
        let compacted = self.filesystem.compact_blocks();
        proof {
            lemma_checksum_bound(compacted.sectors@);
        }
        compacted.checksum()
    }
}

/// Any layout of at most `0x8000` sectors has a checksum inside `u64`:
/// each term is at most the length times the largest file id.
proof fn lemma_checksum_bound(t: Seq<Option<u32>>)
    requires
        t.len() <= 0x8000,
    ensures
        spec_checksum(t) <= t.len() * t.len() * (u32::MAX as int),
        spec_checksum(t) <= u64::MAX,
    decreases t.len(),
{
    let m = u32::MAX as int;
    if t.len() == 0 {
    } else {
        lemma_checksum_bound(t.drop_last());
        let v: int = match t.last() {
            Some(id) => id as int,
            None => 0,
        };
        assert(0 <= v <= m);
        assert((t.len() - 1) * v <= (t.len() - 1) * m) by (nonlinear_arith)
            requires
                0 <= v <= m,
                t.len() >= 1,
        ;
        assert((t.len() - 1) * (t.len() - 1) * m + (t.len() - 1) * m <= t.len() * t.len() * m)
            by (nonlinear_arith)
            requires
                t.len() >= 1,
                m >= 0,
        ;
    }
    assert(t.len() * t.len() * m <= 0x8000 * 0x8000 * m) by (nonlinear_arith)
        requires
            0 <= t.len() <= 0x8000,
            m >= 0,
    ;
}

} // verus!
