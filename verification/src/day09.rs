//! A disk map gives, digit by digit, the length of a file and the length of
//! the free space behind it, in turn. The files are numbered in their order.
//! The first part moves the blocks of the files, one by one from the end of
//! the disk, into the free space nearest the beginning; the second moves
//! whole files. The answer is the sum, over the blocks, of the place of the
//! block times the number of its file.
use vstd::prelude::*;
use vstd::string::StringSliceAdditionalSpecFns;

verus! {

/// The number that a digit stands for.
pub open spec fn digit_of(b: u8) -> Option<u64> {
    if 48 <= b <= 57 {
        Some((b - 48) as u64)
    } else {
        None
    }
}

/// `x`, `n` times.
pub open spec fn repeated<T>(x: T, n: int) -> Seq<T> {
    Seq::new(n as nat, |i: int| x)
}

/// The disk block by block, the number of a file or nothing, as the pairs
/// of digits from the `k`-th on give it, behind `disk`. `None` where a byte
/// of the map is no digit.
pub open spec fn expanded(map: Seq<u8>, k: int, disk: Seq<Option<u64>>) -> Option<
    Seq<Option<u64>>,
>
    decreases map.len() + 1 - 2 * k,
{
    if 0 <= k && 2 * k < map.len() {
        match digit_of(map[2 * k]) {
            None => None,
            Some(f) => {
                let with_file = disk + repeated(Some(k as u64), f as int);
                if 2 * k + 1 < map.len() {
                    match digit_of(map[2 * k + 1]) {
                        None => None,
                        Some(g) => expanded(
                            map,
                            k + 1,
                            with_file + repeated(None::<u64>, g as int),
                        ),
                    }
                } else {
                    expanded(map, k + 1, with_file)
                }
            },
        }
    } else {
        Some(disk)
    }
}

/// The places from the `i`-th on of the blocks that are free, or of those
/// that are not.
pub open spec fn positions(disk: Seq<Option<u64>>, free: bool, i: int) -> Seq<usize>
    decreases disk.len() - i,
{
    if 0 <= i < disk.len() {
        (if (disk[i] is None) == free {
            seq![i as usize]
        } else {
            seq![]
        }) + positions(disk, free, i + 1)
    } else {
        seq![]
    }
}

/// The disk after the blocks have been moved: the last block of a file goes
/// to the first free place, as long as that lies before it. `i` free places
/// have been used, `j` blocks of files are left.
pub open spec fn compacted(
    disk: Seq<Option<u64>>,
    frees: Seq<usize>,
    files: Seq<usize>,
    i: int,
    j: int,
) -> Seq<Option<u64>>
    decreases frees.len() - i,
{
    if 0 <= i < frees.len() && 0 < j <= files.len() && frees[i] < files[j - 1] && files[j - 1]
        < disk.len() {
        compacted(
            disk.update(frees[i] as int, disk[files[j - 1] as int]).update(
                files[j - 1] as int,
                None,
            ),
            frees,
            files,
            i + 1,
            j - 1,
        )
    } else {
        disk
    }
}

/// The disk without the free blocks at its end.
pub open spec fn trimmed(disk: Seq<Option<u64>>) -> Seq<Option<u64>>
    decreases disk.len(),
{
    if disk.len() > 0 && disk.last() is None {
        trimmed(disk.drop_last())
    } else {
        disk
    }
}

/// The sum of place times file number over the blocks from the `i`-th on,
/// added to `acc`. `None` where it does not fit in 64 bits.
pub open spec fn checksum(disk: Seq<Option<u64>>, i: int, acc: u64) -> Option<u64>
    decreases disk.len() - i,
{
    if 0 <= i < disk.len() {
        match disk[i] {
            None => checksum(disk, i + 1, acc),
            Some(id) => if i * id > u64::MAX || acc + i * id > u64::MAX {
                None
            } else {
                checksum(disk, i + 1, (acc + i * id) as u64)
            },
        }
    } else {
        Some(acc)
    }
}

/// The answer to the first part for the text `s`.
pub open spec fn answer_one(s: Seq<u8>) -> Option<u64> {
    match expanded(s, 0, seq![]) {
        None => None,
        Some(disk) => checksum(
            trimmed(
                compacted(
                    disk,
                    positions(disk, true, 0),
                    positions(disk, false, 0),
                    0,
                    positions(disk, false, 0).len() as int,
                ),
            ),
            0,
            0,
        ),
    }
}

/// A stretch of the disk: the file numbers of its blocks, and the number of
/// free blocks behind them.
pub struct FileBlock {
    pub file_ids: Vec<u64>,
    pub free_space: u64,
}

/// A stretch of the disk as the contracts see it.
pub struct Stretch {
    pub file_ids: Seq<u64>,
    pub free_space: u64,
}

impl View for FileBlock {
    type V = Stretch;

    open spec fn view(&self) -> Stretch {
        Stretch { file_ids: self.file_ids@, free_space: self.free_space }
    }
}

/// The views of the stretches.
pub open spec fn stretches(v: Seq<FileBlock>) -> Seq<Stretch> {
    Seq::new(v.len(), |i: int| v[i]@)
}

/// The number that a digit stands for, 0 for a byte that is no digit.
pub open spec fn digit_or_zero(b: u8) -> u64 {
    match digit_of(b) {
        Some(d) => d,
        None => 0,
    }
}

/// The stretches that the pairs of bytes from the `k`-th on give: a byte
/// that is no digit counts as 0.
pub open spec fn stretches_of(map: Seq<u8>, k: int) -> Seq<Stretch>
    decreases map.len() + 1 - 2 * k,
{
    if 0 <= k && 2 * k < map.len() {
        seq![
            Stretch {
                file_ids: repeated(k as u64, digit_or_zero(map[2 * k]) as int),
                free_space: if 2 * k + 1 < map.len() {
                    digit_or_zero(map[2 * k + 1])
                } else {
                    0
                },
            },
        ] + stretches_of(map, k + 1)
    } else {
        seq![]
    }
}

/// The stretches with every stretch from the `j + 1`-th on that holds no
/// block of a file taken out, its free space given to the stretch before it.
pub open spec fn merged(disk: Seq<Stretch>, j: int) -> Option<Seq<Stretch>>
    decreases disk.len() - j,
{
    if 0 <= j && j + 1 < disk.len() {
        if disk[j + 1].file_ids.len() == 0 {
            if disk[j].free_space + disk[j + 1].free_space > u64::MAX {
                None
            } else {
                merged(
                    disk.update(
                        j,
                        Stretch {
                            file_ids: disk[j].file_ids,
                            free_space: (disk[j].free_space + disk[j + 1].free_space) as u64,
                        },
                    ).remove(j + 1),
                    j,
                )
            }
        } else {
            merged(disk, j + 1)
        }
    } else {
        Some(disk)
    }
}

/// The stretches after the file that was first at place `rev` has been
/// moved, if there is room for it, to the first stretch from `left` on,
/// before place `rev`, that has the room. What is moved is as many blocks as
/// the file had at first, out of the stretch that is at place `rev` now.
/// `None` where there is no such stretch, or it has not so many blocks, or the
/// file had no blocks at all.
pub open spec fn moved(disk: Seq<Stretch>, file: Stretch, rev: int, left: int) -> Option<
    Seq<Stretch>,
>
    decreases rev - left,
{
    if 0 <= left < rev {
        let size = file.file_ids.len();
        if left >= disk.len() {
            None
        } else if disk[left].free_space >= size {
            if size == 0 || rev >= disk.len() || disk[left].file_ids.len() + size > usize::MAX {
                None
            } else {
                let filled = disk.update(
                    left,
                    Stretch {
                        file_ids: disk[left].file_ids + repeated(file.file_ids[0], size as int),
                        free_space: (disk[left].free_space - size) as u64,
                    },
                );
                if filled[rev].file_ids.len() < size || filled[rev - 1].free_space + size
                    > u64::MAX {
                    None
                } else {
                    let drained = filled.update(
                        rev,
                        Stretch {
                            file_ids: filled[rev].file_ids.skip(size as int),
                            free_space: filled[rev].free_space,
                        },
                    );
                    merged(
                        drained.update(
                            rev - 1,
                            Stretch {
                                file_ids: drained[rev - 1].file_ids,
                                free_space: (drained[rev - 1].free_space + size) as u64,
                            },
                        ),
                        0,
                    )
                }
            }
        } else {
            moved(disk, file, rev, left + 1)
        }
    } else {
        Some(disk)
    }
}

/// The stretches after the files have been moved, the last first; `index`
/// files have had their turn.
pub open spec fn defragmented(disk: Seq<Stretch>, first: Seq<Stretch>, index: int) -> Option<
    Seq<Stretch>,
>
    decreases first.len() - index,
{
    if 0 <= index < first.len() {
        match moved(disk, first[first.len() - 1 - index], first.len() - 1 - index, 0) {
            None => None,
            Some(d) => defragmented(d, first, index + 1),
        }
    } else {
        Some(disk)
    }
}

/// The sum of place times file number over the blocks of a stretch from the
/// `i`-th on, the first of them at place `pos`; added to `sum`. With the sum
/// goes the place behind the stretch. `None` where the sum does not fit in
/// 64 bits or a place in 32 bits with a sign.
pub open spec fn stretch_sum(s: Stretch, i: int, pos: int, sum: u64) -> Option<(int, u64)>
    decreases s.file_ids.len() - i,
{
    if 0 <= i < s.file_ids.len() {
        if pos * s.file_ids[i] > u64::MAX || sum + pos * s.file_ids[i] > u64::MAX || pos + 1
            > i32::MAX {
            None
        } else {
            stretch_sum(s, i + 1, pos + 1, (sum + pos * s.file_ids[i]) as u64)
        }
    } else if (s.free_space > 0 && pos + s.free_space > i32::MAX) {
        None
    } else {
        Some((pos + s.free_space, sum))
    }
}

/// The same over the stretches from the `b`-th on.
pub open spec fn disk_sum(disk: Seq<Stretch>, b: int, pos: int, sum: u64) -> Option<u64>
    decreases disk.len() - b,
{
    if 0 <= b < disk.len() {
        match stretch_sum(disk[b], 0, pos, sum) {
            None => None,
            Some(r) => disk_sum(disk, b + 1, r.0, r.1),
        }
    } else {
        Some(sum)
    }
}

/// The answer to the second part for the text `s`.
pub open spec fn answer_two(s: Seq<u8>) -> Option<u64> {
    match defragmented(stretches_of(s, 0), stretches_of(s, 0), 0) {
        None => None,
        Some(disk) => disk_sum(disk, 0, 0, 0),
    }
}

fn read_digit(b: u8) -> (out: Option<u64>)
    ensures
        out == digit_of(b),
{
    if 48 <= b && b <= 57 {
        Some((b - 48) as u64)
    } else {
        None
    }
}

#[verifier::loop_isolation(false)]
fn push_blocks(disk: &mut Vec<Option<u64>>, x: Option<u64>, n: u64)
    ensures
        final(disk)@ == old(disk)@ + repeated(x, n as int),
{
    let mut i: u64 = 0;
    assert(disk@ =~= old(disk)@ + repeated(x, 0));
    while i < n
        invariant
            0 <= i <= n,
            disk@ == old(disk)@ + repeated(x, i as int),
        decreases n - i,
    {
        disk.push(x);
        i += 1;
        assert(disk@ =~= old(disk)@ + repeated(x, i as int));
    }
}

#[verifier::loop_isolation(false)]
fn expand(map: &[u8]) -> (out: Option<Vec<Option<u64>>>)
    ensures
        match expanded(map@, 0, seq![]) {
            Some(d) => out is Some && out->0@ == d,
            None => out is None,
        },
{
    let mut disk: Vec<Option<u64>> = Vec::new();
    let n = map.len();
    let mut k: usize = 0;
    let mut at: usize = 0;
    while at < n
        invariant
            at == 2 * k,
            n == map@.len(),
            expanded(map@, k as int, disk@) == expanded(map@, 0, seq![]),
        decreases n - at,
    {
        let f = match read_digit(map[at]) {
            Some(f) => f,
            None => {
                return None;
            },
        };
        push_blocks(&mut disk, Some(k as u64), f);
        if at + 1 < n {
            let g = match read_digit(map[at + 1]) {
                Some(g) => g,
                None => {
                    return None;
                },
            };
            push_blocks(&mut disk, None, g);
            at += 2;
        } else {
            assert(expanded(map@, k + 1, disk@) == Some(disk@));
            return Some(disk);
        }
        k += 1;
    }
    Some(disk)
}

#[verifier::loop_isolation(false)]
fn find_positions(disk: &Vec<Option<u64>>, free: bool) -> (out: Vec<usize>)
    ensures
        out@ == positions(disk@, free, 0),
{
    let mut out: Vec<usize> = Vec::new();
    let mut i: usize = 0;
    while i < disk.len()
        invariant
            0 <= i <= disk@.len(),
            out@ + positions(disk@, free, i as int) == positions(disk@, free, 0),
        decreases disk@.len() - i,
    {
        let ghost before = out@;
        let ghost rest = positions(disk@, free, i + 1);
        if disk[i].is_none() == free {
            out.push(i);
            assert(out@ + rest =~= before + (seq![i] + rest));
        } else {
            assert(out@ + rest =~= before + (Seq::<usize>::empty() + rest));
        }
        i += 1;
    }
    assert(out@ + Seq::<usize>::empty() =~= out@);
    out
}

/// The sum of place times file number after the blocks have been moved one by one.
#[verifier::loop_isolation(false)]
pub fn part_one(input: &str) -> (out: Option<u64>)
    ensures
        out == answer_one(input.spec_bytes()),
{
    let mut encoding = match expand(input.as_bytes()) {
        Some(d) => d,
        None => {
            return None;
        },
    };
    let free_positions = find_positions(&encoding, true);
    let digit_positions = find_positions(&encoding, false);
    let ghost goal = compacted(
        encoding@,
        free_positions@,
        digit_positions@,
        0,
        digit_positions@.len() as int,
    );
    let mut i: usize = 0;
    let mut j: usize = digit_positions.len();
    while i < free_positions.len() && j > 0 && free_positions[i] < digit_positions[j - 1]
        && digit_positions[j - 1] < encoding.len()
        invariant
            0 <= i <= free_positions@.len(),
            0 <= j <= digit_positions@.len(),
            compacted(encoding@, free_positions@, digit_positions@, i as int, j as int) == goal,
        decreases free_positions@.len() - i,
    {
        let gap_idx = free_positions[i];
        let digit_idx = digit_positions[j - 1];
        let block = encoding[digit_idx];
        encoding.set(gap_idx, block);
        encoding.set(digit_idx, None);
        i += 1;
        j -= 1;
    }
    let ghost moved_disk = encoding@;
    loop
        invariant
            trimmed(encoding@) == trimmed(moved_disk),
        decreases encoding@.len(),
    {
        let n = encoding.len();
        if n > 0 && encoding[n - 1].is_none() {
            encoding.pop();
        } else {
            break ;
        }
    }
    let mut sum: u64 = 0;
    let mut pos: usize = 0;
    while pos < encoding.len()
        invariant
            0 <= pos <= encoding@.len(),
            checksum(encoding@, pos as int, sum) == checksum(encoding@, 0, 0),
        decreases encoding@.len() - pos,
    {
        match encoding[pos] {
            None => {},
            Some(id) => {
                assert((pos as int) * (id as int) <= u128::MAX) by (nonlinear_arith)
                    requires
                        0 <= pos <= 0xffff_ffff_ffff_ffff,
                        0 <= id <= 0xffff_ffff_ffff_ffff,
                ;
                let term: u128 = (pos as u128) * (id as u128);
                if term > u64::MAX as u128 {
                    return None;
                }
                sum = match sum.checked_add(term as u64) {
                    Some(s) => s,
                    None => {
                        return None;
                    },
                };
            },
        }
        pos += 1;
    }
    Some(sum)
}

fn read_digit_or_zero(b: u8) -> (out: u64)
    ensures
        out == digit_or_zero(b),
{
    match read_digit(b) {
        Some(d) => d,
        None => 0,
    }
}

#[verifier::loop_isolation(false)]
fn repeat_id(id: u64, n: u64) -> (out: Vec<u64>)
    ensures
        out@ == repeated(id, n as int),
{
    let mut out: Vec<u64> = Vec::new();
    let mut i: u64 = 0;
    while i < n
        invariant
            0 <= i <= n,
            out@.len() == i,
            forall|k: int| 0 <= k < i ==> out@[k] == id,
        decreases n - i,
    {
        out.push(id);
        i += 1;
    }
    assert(out@ =~= repeated(id, n as int));
    out
}

#[verifier::loop_isolation(false)]
fn read_stretches(map: &[u8]) -> (out: Vec<FileBlock>)
    ensures
        stretches(out@) == stretches_of(map@, 0),
{
    let mut encoding: Vec<FileBlock> = Vec::new();
    assert(stretches(encoding@) =~= Seq::<Stretch>::empty());
    let n = map.len();
    let mut k: usize = 0;
    let mut at: usize = 0;
    let mut done = false;
    while at < n && !done
        invariant
            at == 2 * k,
            n == map@.len(),
            !done ==> stretches(encoding@) + stretches_of(map@, k as int) == stretches_of(map@, 0),
            done ==> stretches(encoding@) == stretches_of(map@, 0),
        decreases n - at, if done { 0int } else { 1int },
    {
        let file_ids = repeat_id(k as u64, read_digit_or_zero(map[at]));
        let free_space = if at + 1 < n {
            read_digit_or_zero(map[at + 1])
        } else {
            0
        };
        let block = FileBlock { file_ids, free_space };
        let ghost before = stretches(encoding@);
        let ghost bv = block@;
        let ghost rest = stretches_of(map@, k + 1);
        encoding.push(block);
        assert(stretches(encoding@) =~= before.push(bv));
        assert(stretches(encoding@) + rest =~= before + (seq![bv] + rest));
        if at + 1 < n && at + 1 < usize::MAX {
            at += 2;
            k += 1;
        } else {
            assert(rest =~= Seq::<Stretch>::empty());
            assert(stretches(encoding@) + Seq::<Stretch>::empty() =~= stretches(encoding@));
            done = true;
        }
    }
    assert(stretches(encoding@) + Seq::<Stretch>::empty() =~= stretches(encoding@));
    encoding
}

#[verifier::loop_isolation(false)]
fn merge(encoding: &mut Vec<FileBlock>) -> (ok: bool)
    ensures
        match merged(stretches(old(encoding)@), 0) {
            Some(d) => ok && stretches(final(encoding)@) == d,
            None => !ok,
        },
{
    let ghost goal = merged(stretches(encoding@), 0);
    let mut j: usize = 0;
    while j + 1 < encoding.len()
        invariant
            j < usize::MAX,
            merged(stretches(encoding@), j as int) == goal,
        decreases encoding@.len() - j,
    {
        let ghost d = stretches(encoding@);
        assert(d[j as int] == encoding@[j as int]@);
        assert(d[j + 1] == encoding@[j + 1]@);
        if encoding[j + 1].file_ids.len() == 0 {
            let extra = encoding[j + 1].free_space;
            let total = match encoding[j].free_space.checked_add(extra) {
                Some(t) => t,
                None => {
                    return false;
                },
            };
            encoding[j].free_space = total;
            assert(stretches(encoding@) =~= d.update(
                j as int,
                Stretch { file_ids: d[j as int].file_ids, free_space: total },
            ));
            let ghost d1 = stretches(encoding@);
            encoding.remove(j + 1);
            assert(stretches(encoding@) =~= d1.remove(j + 1));
        } else {
            if j + 1 == usize::MAX {
                return true;
            }
            j += 1;
        }
    }
    true
}

#[verifier::loop_isolation(false)]
fn drain_front(v: &Vec<u64>, n: usize) -> (out: Vec<u64>)
    requires
        n <= v@.len(),
    ensures
        out@ == v@.skip(n as int),
{
    let mut out: Vec<u64> = Vec::new();
    let mut i: usize = n;
    while i < v.len()
        invariant
            n <= i <= v@.len(),
            out@ == v@.subrange(n as int, i as int),
        decreases v@.len() - i,
    {
        out.push(v[i]);
        i += 1;
        assert(out@ =~= v@.subrange(n as int, i as int));
    }
    assert(out@ =~= v@.skip(n as int));
    out
}

/// Moves one file, if there is room for it before its place.
#[verifier::loop_isolation(false)]
fn move_file(encoding: &mut Vec<FileBlock>, file: &FileBlock, rev_idx: usize) -> (ok: bool)
    ensures
        match moved(stretches(old(encoding)@), file@, rev_idx as int, 0) {
            Some(d) => ok && stretches(final(encoding)@) == d,
            None => !ok,
        },
{
    let ghost goal = moved(stretches(encoding@), file@, rev_idx as int, 0);
    let size = file.file_ids.len();
    let mut left_idx: usize = 0;
    while left_idx < rev_idx
        invariant
            0 <= left_idx <= rev_idx,
            *encoding == *old(encoding),
            moved(stretches(encoding@), file@, rev_idx as int, left_idx as int) == goal,
        decreases rev_idx - left_idx,
    {
        let ghost d = stretches(encoding@);
        if left_idx >= encoding.len() {
            return false;
        }
        assert(d[left_idx as int] == encoding@[left_idx as int]@);
        let free = encoding[left_idx].free_space;
        let size64 = size as u64;
        if free as u128 >= size as u128 {
            if size == 0 || rev_idx >= encoding.len() {
                return false;
            }
            let the_id = file.file_ids[0];
            if encoding[left_idx].file_ids.len() > usize::MAX - size {
                return false;
            }
            let mut more = repeat_id(the_id, size64);
            let ghost old_ids = encoding@[left_idx as int].file_ids@;
            encoding[left_idx].file_ids.append(&mut more);
            encoding[left_idx].free_space = free - size64;
            assert(stretches(encoding@) =~= d.update(
                left_idx as int,
                Stretch {
                    file_ids: old_ids + repeated(the_id, size as int),
                    free_space: (free - size) as u64,
                },
            ));
            let ghost filled = stretches(encoding@);
            assert(filled[rev_idx as int] == encoding@[rev_idx as int]@);
            assert(filled[rev_idx - 1] == encoding@[rev_idx - 1]@);
            if encoding[rev_idx].file_ids.len() < size {
                return false;
            }
            let before_free = match encoding[rev_idx - 1].free_space.checked_add(size64) {
                Some(f) => f,
                None => {
                    return false;
                },
            };
            let rest = drain_front(&encoding[rev_idx].file_ids, size);
            encoding[rev_idx].file_ids = rest;
            assert(stretches(encoding@) =~= filled.update(
                rev_idx as int,
                Stretch {
                    file_ids: filled[rev_idx as int].file_ids.skip(size as int),
                    free_space: filled[rev_idx as int].free_space,
                },
            ));
            let ghost drained = stretches(encoding@);
            assert(drained[rev_idx - 1] == encoding@[rev_idx - 1]@);
            encoding[rev_idx - 1].free_space = before_free;
            assert(stretches(encoding@) =~= drained.update(
                rev_idx - 1,
                Stretch {
                    file_ids: drained[rev_idx - 1].file_ids,
                    free_space: before_free,
                },
            ));
            return merge(encoding);
        }
        left_idx += 1;
    }
    true
}

fn copy_block(b: &FileBlock) -> (out: FileBlock)
    ensures
        out@ == b@,
{
    let ids = drain_front(&b.file_ids, 0);
    assert(ids@ =~= b.file_ids@);
    FileBlock { file_ids: ids, free_space: b.free_space }
}

/// The sum of place times file number after whole files have been moved.
#[verifier::loop_isolation(false)]
pub fn part_two(input: &str) -> (out: Option<u64>)
    ensures
        out == answer_two(input.spec_bytes()),
{
    let mut encoding = read_stretches(input.as_bytes());
    let ghost first = stretches(encoding@);
    let mut duplicate: Vec<FileBlock> = Vec::new();
    let mut c: usize = 0;
    while c < encoding.len()
        invariant
            0 <= c <= encoding@.len(),
            duplicate@.len() == c,
            first == stretches(encoding@),
            forall|k: int| 0 <= k < c ==> (#[trigger] duplicate@[k])@ == first[k],
        decreases encoding@.len() - c,
    {
        assert(first[c as int] == encoding@[c as int]@);
        duplicate.push(copy_block(&encoding[c]));
        c += 1;
    }
    assert(stretches(duplicate@) =~= first);
    let ghost goal = defragmented(first, first, 0);
    let n = duplicate.len();
    let mut index: usize = 0;
    while index < n
        invariant
            0 <= index <= n,
            n == first.len(),
            stretches(duplicate@) == first,
            defragmented(stretches(encoding@), first, index as int) == goal,
        decreases n - index,
    {
        let rev_idx = n - 1 - index;
        assert(first[rev_idx as int] == duplicate@[rev_idx as int]@);
        if !move_file(&mut encoding, &duplicate[rev_idx], rev_idx) {
            return None;
        }
        index += 1;
    }
    let ghost disk = stretches(encoding@);
    let mut pos: i32 = 0;
    let mut sum: u64 = 0;
    let mut b: usize = 0;
    while b < encoding.len()
        invariant
            0 <= b <= encoding@.len(),
            0 <= pos,
            disk == stretches(encoding@),
            disk_sum(disk, b as int, pos as int, sum) == disk_sum(disk, 0, 0, 0),
        decreases encoding@.len() - b,
    {
        let block = &encoding[b];
        assert(disk[b as int] == block@);
        let ghost block_goal = stretch_sum(block@, 0, pos as int, sum);
        let mut i: usize = 0;
        while i < block.file_ids.len()
            invariant
                0 <= i <= block.file_ids@.len(),
                0 <= pos,
                stretch_sum(block@, i as int, pos as int, sum) == block_goal,
            decreases block.file_ids@.len() - i,
        {
            let id = block.file_ids[i];
            assert((pos as int) * (id as int) <= u128::MAX) by (nonlinear_arith)
                requires
                    0 <= pos <= 0x7fff_ffff,
                    0 <= id <= 0xffff_ffff_ffff_ffff,
            ;
            let term: u128 = (pos as u128) * (id as u128);
            if term > u64::MAX as u128 {
                return None;
            }
            let next = match sum.checked_add(term as u64) {
                Some(s) => s,
                None => {
                    return None;
                },
            };
            if pos == i32::MAX {
                return None;
            }
            sum = next;
            pos += 1;
            i += 1;
        }
        if block.free_space > 0 {
            if block.free_space > (i32::MAX - pos) as u64 {
                return None;
            }
            pos += block.free_space as i32;
        }
        b += 1;
    }
    Some(sum)
}

/// The places in `frees` from the `i`-th on are places of the disk, each
/// free and each before the next.
pub open spec fn free_in_turn(disk: Seq<Option<u64>>, frees: Seq<usize>, i: int) -> bool {
    &&& forall|k: int| i <= k < frees.len() ==> (#[trigger] frees[k]) < disk.len() && disk[frees[k] as int] is None
    &&& forall|a: int, b: int| i <= a < b < frees.len() ==> frees[a] < frees[b]
}

proof fn lemma_positions_in_turn(disk: Seq<Option<u64>>, free: bool, i: int)
    requires
        0 <= i,
        disk.len() <= usize::MAX,
    ensures
        forall|k: int|
            0 <= k < positions(disk, free, i).len() ==> {
                let p = #[trigger] positions(disk, free, i)[k];
                i <= p < disk.len() && (disk[p as int] is None) == free
            },
        forall|a: int, b: int|
            0 <= a < b < positions(disk, free, i).len() ==> positions(disk, free, i)[a] < positions(
                disk,
                free,
                i,
            )[b],
    decreases disk.len() - i,
{
    if i < disk.len() {
        lemma_positions_in_turn(disk, free, i + 1);
        let rest = positions(disk, free, i + 1);
        let all = positions(disk, free, i);
        if (disk[i] is None) == free {
            assert(all =~= seq![i as usize] + rest);
            assert forall|k: int| 0 <= k < all.len() implies {
                let p = #[trigger] all[k];
                i <= p < disk.len() && (disk[p as int] is None) == free
            } by {
                if k > 0 {
                    assert(all[k] == rest[k - 1]);
                }
            }
            assert forall|a: int, b: int| 0 <= a < b < all.len() implies all[a] < all[b] by {
                assert(all[b] == rest[b - 1]);
                if a > 0 {
                    assert(all[a] == rest[a - 1]);
                }
            }
        } else {
            assert(all =~= rest);
        }
    }
}

proof fn lemma_compacted_keeps_blocks(
    disk: Seq<Option<u64>>,
    frees: Seq<usize>,
    files: Seq<usize>,
    i: int,
    j: int,
)
    requires
        0 <= i,
        free_in_turn(disk, frees, i),
    ensures
        compacted(disk, frees, files, i, j).len() == disk.len(),
        compacted(disk, frees, files, i, j).to_multiset() == disk.to_multiset(),
    decreases frees.len() - i,
{
    if 0 <= i < frees.len() && 0 < j <= files.len() && frees[i] < files[j - 1] && files[j - 1]
        < disk.len() {
        let f = frees[i] as int;
        let g = files[j - 1] as int;
        let x = disk[g];
        let half = disk.update(f, x);
        let next = half.update(g, None);
        assert(disk[f] is None);
        assert(half[g] == x);
        broadcast use vstd::multiset::group_multiset_axioms;
        vstd::seq_lib::to_multiset_update(disk, f, x);
        vstd::seq_lib::to_multiset_update(half, g, None);
        vstd::seq_lib::to_multiset_contains(disk, None::<u64>);
        assert(disk.contains(disk[f]));
        assert(next.to_multiset() =~= disk.to_multiset());
        assert(free_in_turn(next, frees, i + 1)) by {
            assert forall|k: int| i + 1 <= k < frees.len() implies (#[trigger] frees[k])
                < next.len() && next[frees[k] as int] is None by {
                assert(frees[i] < frees[k]);
            }
        }
        lemma_compacted_keeps_blocks(next, frees, files, i + 1, j - 1);
    }
}

/// Moving the blocks neither loses a block nor makes one: the disk
/// afterwards holds what it held before, block for block, in another order.
pub proof fn lemma_compaction_keeps_blocks(disk: Seq<Option<u64>>)
    requires
        disk.len() <= usize::MAX,
    ensures
        ({
            let after = compacted(
                disk,
                positions(disk, true, 0),
                positions(disk, false, 0),
                0,
                positions(disk, false, 0).len() as int,
            );
            after.len() == disk.len() && after.to_multiset() == disk.to_multiset()
        }),
{
    lemma_positions_in_turn(disk, true, 0);
    lemma_compacted_keeps_blocks(
        disk,
        positions(disk, true, 0),
        positions(disk, false, 0),
        0,
        positions(disk, false, 0).len() as int,
    );
}

} // verus!
