//! Mathematical model of a log directory.
//!
//! A directory is a sequence of files, each a name, its bytes, and the
//! length of the prefix that is guaranteed to survive a crash. The
//! functions here say what every operation of the engine means on that
//! model: which files a key's enumeration visits and in what order,
//! which file a targeted read resolves to, what recovery reads out of
//! the file names, and which files compaction deletes.

use vstd::prelude::*;
use crate::codec::{has_log_signature, segment_expiration, segment_records};
use crate::filename::{name_is_log, name_matches_key, parse_filename};

verus! {

/// The model of one stored file.
pub struct FileModel {
    /// The file's name, as bytes.
    pub name: Seq<u8>,
    /// The file's bytes.
    pub data: Seq<u8>,
    /// The length of the prefix that is on stable storage.
    pub durable_len: nat,
}

impl FileModel {
    /// The durable prefix cannot run past the end of the file.
    pub open spec fn wf(self) -> bool {
        self.durable_len <= self.data.len()
    }

    /// The file as a crash leaves it: only the durable prefix remains.
    pub open spec fn crashed(self) -> FileModel {
        FileModel {
            name: self.name,
            data: self.data.take(self.durable_len as int),
            durable_len: self.durable_len,
        }
    }
}

/// No two files share a name.
pub open spec fn names_distinct(fs: Seq<FileModel>) -> bool {
    forall|i: int, j: int|
        0 <= i < j < fs.len() ==> (#[trigger] fs[i]).name != (#[trigger] fs[j]).name
}

/// All files are well-formed and no two share a name.
pub open spec fn files_wf(fs: Seq<FileModel>) -> bool {
    names_distinct(fs) && forall|i: int| 0 <= i < fs.len() ==> (#[trigger] fs[i]).wf()
}

/// The directory as a crash leaves it.
pub open spec fn crashed_files(fs: Seq<FileModel>) -> Seq<FileModel> {
    Seq::new(fs.len(), |i: int| fs[i].crashed())
}

/// What recovery reads out of the file names for one key hash: one
/// past the largest sequence number of any parseable name with that
/// hash, saturated at the largest representable value; zero when the
/// hash has no file.
pub open spec fn scan_next(fs: Seq<FileModel>, h: u64) -> u64
    decreases fs.len(),
{
    if fs.len() == 0 {
        0u64
    } else {
        let rest = scan_next(fs.drop_last(), h);
        match parse_filename(fs.last().name) {
            Some((h2, s)) => if h2 == h {
                let bump = if s < u64::MAX {
                    (s + 1) as u64
                } else {
                    u64::MAX
                };
                if rest < bump {
                    bump
                } else {
                    rest
                }
            } else {
                rest
            },
            None => rest,
        }
    }
}

/// The files a key's enumeration visits, in directory order, paired
/// with the sequence number parsed from their names.
pub open spec fn matching_pairs(fs: Seq<FileModel>, san: Seq<u8>, h: u64) -> Seq<(u64, FileModel)>
    decreases fs.len(),
{
    if fs.len() == 0 {
        seq![]
    } else {
        matching_pairs(fs.drop_last(), san, h) + (if name_matches_key(fs.last().name, san, h) {
            seq![(parse_filename(fs.last().name).unwrap().1, fs.last())]
        } else {
            seq![]
        })
    }
}

/// Stable insertion into a sequence sorted by sequence number: the new
/// pair goes after every pair with the same sequence number.
pub open spec fn insert_pair(sorted: Seq<(u64, FileModel)>, p: (u64, FileModel)) -> Seq<
    (u64, FileModel),
>
    decreases sorted.len(),
{
    if sorted.len() == 0 {
        seq![p]
    } else if p.0 < sorted.last().0 {
        insert_pair(sorted.drop_last(), p).push(sorted.last())
    } else {
        sorted.push(p)
    }
}

/// Stable insertion sort by sequence number.
pub open spec fn sort_pairs(ps: Seq<(u64, FileModel)>) -> Seq<(u64, FileModel)>
    decreases ps.len(),
{
    if ps.len() == 0 {
        seq![]
    } else {
        insert_pair(sort_pairs(ps.drop_last()), ps.last())
    }
}

/// The concatenated record contents of a sequence of segment files.
pub open spec fn records_concat(ps: Seq<(u64, FileModel)>) -> Seq<Seq<u8>>
    decreases ps.len(),
{
    if ps.len() == 0 {
        seq![]
    } else {
        records_concat(ps.drop_last()) + segment_records(ps.last().1.data)
    }
}

/// Every record content for one key, ordered by ascending segment
/// sequence number, then by position in the file.
pub open spec fn enum_records_model(fs: Seq<FileModel>, san: Seq<u8>, h: u64) -> Seq<Seq<u8>> {
    records_concat(sort_pairs(matching_pairs(fs, san, h)))
}

/// The first file whose name parses to the given hash and sequence
/// number, in directory order.
pub open spec fn find_segment(fs: Seq<FileModel>, h: u64, s: u64) -> Option<FileModel>
    decreases fs.len(),
{
    if fs.len() == 0 {
        None
    } else if parse_filename(fs[0].name) == Some((h, s)) {
        Some(fs[0])
    } else {
        find_segment(fs.drop_first(), h, s)
    }
}

/// Whether compaction deletes a file: it bears the `.log` suffix, its
/// header is readable and carries the segment signature, and its
/// expiration lies strictly in the past.
pub open spec fn file_expired(f: FileModel, now: u64) -> bool {
    name_is_log(f.name) && f.data.len() >= 24 && has_log_signature(f.data) && now
        > segment_expiration(f.data)
}

/// The directory after compaction at time `now`: the files whose
/// expiration has not passed, in their old order.
pub open spec fn compact_model(fs: Seq<FileModel>, now: u64) -> Seq<FileModel>
    decreases fs.len(),
{
    if fs.len() == 0 {
        seq![]
    } else {
        compact_model(fs.drop_last(), now) + (if file_expired(fs.last(), now) {
            seq![]
        } else {
            seq![fs.last()]
        })
    }
}

/// Compaction keeps exactly the files that have not expired, keeps
/// them well-formed, and leaves nothing expired behind.
pub proof fn lemma_compact_model_props(fs: Seq<FileModel>, now: u64)
    ensures
        forall|i: int|
            0 <= i < compact_model(fs, now).len() ==> !file_expired(
                #[trigger] compact_model(fs, now)[i],
                now,
            ),
        forall|i: int|
            0 <= i < compact_model(fs, now).len() ==> exists|j: int|
                0 <= j < fs.len() && fs[j] == #[trigger] compact_model(fs, now)[i],
        forall|j: int|
            0 <= j < fs.len() && !file_expired(#[trigger] fs[j], now) ==> compact_model(
                fs,
                now,
            ).contains(fs[j]),
        compact_model(fs, now).len() <= fs.len(),
    decreases fs.len(),
{
    if fs.len() > 0 {
        lemma_compact_model_props(fs.drop_last(), now);
        let r0 = compact_model(fs.drop_last(), now);
        let r = compact_model(fs, now);
        assert forall|i: int| 0 <= i < r.len() implies !file_expired(#[trigger] r[i], now) by {
            if i < r0.len() {
                assert(r[i] == r0[i]);
            } else {
                assert(r[i] == fs.last());
            }
        }
        assert forall|i: int| 0 <= i < r.len() implies exists|j: int|
            0 <= j < fs.len() && fs[j] == #[trigger] r[i] by {
            if i < r0.len() {
                assert(r[i] == r0[i]);
                let j = choose|j: int| 0 <= j < fs.drop_last().len() && fs.drop_last()[j] == r0[i];
                assert(fs[j] == r[i]);
            } else {
                assert(fs[fs.len() - 1] == r[i]);
            }
        }
        assert forall|j: int| 0 <= j < fs.len() && !file_expired(#[trigger] fs[j], now) implies
            r.contains(fs[j]) by {
            if j < fs.len() - 1 {
                assert(fs.drop_last()[j] == fs[j]);
                assert(r0.contains(fs[j]));
                let i = choose|i: int| 0 <= i < r0.len() && r0[i] == fs[j];
                assert(r[i] == fs[j]);
            } else {
                assert(fs.last() == fs[j]);
                assert(r[r.len() - 1] == fs[j]);
            }
        }
    }
}

/// Compaction of a directory with distinct names keeps names distinct.
pub proof fn lemma_compact_model_wf(fs: Seq<FileModel>, now: u64)
    requires
        files_wf(fs),
    ensures
        files_wf(compact_model(fs, now)),
    decreases fs.len(),
{
    if fs.len() > 0 {
        assert(files_wf(fs.drop_last())) by {
            assert(forall|i: int| 0 <= i < fs.drop_last().len() ==> fs.drop_last()[i] == fs[i]);
        }
        lemma_compact_model_wf(fs.drop_last(), now);
        lemma_compact_model_props(fs.drop_last(), now);
        let r0 = compact_model(fs.drop_last(), now);
        let r = compact_model(fs, now);
        assert forall|a: int, b: int| 0 <= a < b < r.len() implies (#[trigger] r[a]).name != (
        #[trigger] r[b]).name by {
            if b < r0.len() {
                assert(r[a] == r0[a] && r[b] == r0[b]);
            } else {
                assert(r[b] == fs.last());
                assert(r[a] == r0[a]);
                let j = choose|j: int| 0 <= j < fs.drop_last().len() && fs.drop_last()[j] == r0[a];
                assert(fs[j] == r0[a]);
                assert(fs[j].name != fs[fs.len() - 1].name);
            }
        }
        assert forall|i: int| 0 <= i < r.len() implies (#[trigger] r[i]).wf() by {
            if i < r0.len() {
                assert(r[i] == r0[i]);
            } else {
                assert(r[i] == fs.last());
                assert(fs[fs.len() - 1].wf());
            }
        }
    }
}

/// Compaction is idempotent: run twice at one time, the second pass
/// deletes nothing.
pub proof fn lemma_compact_idempotent(fs: Seq<FileModel>, now: u64)
    ensures
        compact_model(compact_model(fs, now), now) == compact_model(fs, now),
{
    lemma_compact_model_props(fs, now);
    lemma_compact_all_kept(compact_model(fs, now), now);
}

/// Compaction of a directory with nothing expired keeps every file.
pub proof fn lemma_compact_all_kept(fs: Seq<FileModel>, now: u64)
    requires
        forall|i: int| 0 <= i < fs.len() ==> !file_expired(#[trigger] fs[i], now),
    ensures
        compact_model(fs, now) == fs,
    decreases fs.len(),
{
    if fs.len() > 0 {
        assert(forall|i: int|
            0 <= i < fs.drop_last().len() ==> !file_expired(#[trigger] fs.drop_last()[i], now))
            by {
            assert(forall|i: int| 0 <= i < fs.drop_last().len() ==> fs.drop_last()[i] == fs[i]);
        }
        lemma_compact_all_kept(fs.drop_last(), now);
        assert(!file_expired(fs.last(), now)) by {
            assert(fs[fs.len() - 1] == fs.last());
        }
        assert(compact_model(fs, now) =~= fs);
    } else {
        assert(compact_model(fs, now) =~= fs);
    }
}

/// Elements of a stable insertion are the inserted pair or pairs of
/// the original sequence.
pub proof fn lemma_insert_pair_membership(sorted: Seq<(u64, FileModel)>, p: (u64, FileModel))
    ensures
        insert_pair(sorted, p).len() == sorted.len() + 1,
        forall|i: int|
            0 <= i < insert_pair(sorted, p).len() ==> (#[trigger] insert_pair(sorted, p)[i] == p
                || sorted.contains(insert_pair(sorted, p)[i])),
    decreases sorted.len(),
{
    if sorted.len() == 0 {
    } else if p.0 < sorted.last().0 {
        lemma_insert_pair_membership(sorted.drop_last(), p);
        let r = insert_pair(sorted, p);
        let r0 = insert_pair(sorted.drop_last(), p);
        assert forall|i: int| 0 <= i < r.len() implies (#[trigger] r[i] == p || sorted.contains(
            r[i],
        )) by {
            if i < r.len() - 1 {
                assert(r[i] == r0[i]);
                if r0[i] != p {
                    let j = choose|j: int|
                        0 <= j < sorted.drop_last().len() && sorted.drop_last()[j] == r0[i];
                    assert(sorted[j] == r0[i]);
                }
            } else {
                assert(r[i] == sorted.last());
                assert(sorted[sorted.len() - 1] == sorted.last());
            }
        }
    } else {
        let r = insert_pair(sorted, p);
        assert forall|i: int| 0 <= i < r.len() implies (#[trigger] r[i] == p || sorted.contains(
            r[i],
        )) by {
            if i < sorted.len() {
                assert(sorted[i] == r[i]);
            }
        }
    }
}

/// Elements of the sorted sequence are elements of the original.
pub proof fn lemma_sort_pairs_membership(ps: Seq<(u64, FileModel)>)
    ensures
        sort_pairs(ps).len() == ps.len(),
        forall|i: int|
            0 <= i < sort_pairs(ps).len() ==> ps.contains(#[trigger] sort_pairs(ps)[i]),
    decreases ps.len(),
{
    if ps.len() != 0 {
        lemma_sort_pairs_membership(ps.drop_last());
        lemma_insert_pair_membership(sort_pairs(ps.drop_last()), ps.last());
        let r = sort_pairs(ps);
        assert forall|i: int| 0 <= i < r.len() implies ps.contains(#[trigger] r[i]) by {
            if r[i] == ps.last() {
                assert(ps[ps.len() - 1] == r[i]);
            } else {
                assert(sort_pairs(ps.drop_last()).contains(r[i]));
                let j = choose|j: int|
                    0 <= j < sort_pairs(ps.drop_last()).len() && sort_pairs(ps.drop_last())[j]
                        == r[i];
                assert(ps.drop_last().contains(r[i]));
                let k = choose|k: int|
                    0 <= k < ps.drop_last().len() && ps.drop_last()[k] == r[i];
                assert(ps[k] == r[i]);
            }
        }
    }
}

/// Inserting a pair whose sequence number is no smaller than every
/// pair in the sorted sequence appends it at the end.
pub proof fn lemma_insert_pair_at_end(sorted: Seq<(u64, FileModel)>, p: (u64, FileModel))
    requires
        sorted.len() == 0 || p.0 >= sorted.last().0,
    ensures
        insert_pair(sorted, p) == sorted.push(p),
{
}

/// Extracting a strictly maximal pair: sorting a sequence that holds
/// one pair with a strictly greater sequence number than every other
/// pair sorts the rest and appends that pair.
pub proof fn lemma_sort_extract_max(ps: Seq<(u64, FileModel)>, k: int)
    requires
        0 <= k < ps.len(),
        forall|j: int| 0 <= j < ps.len() && j != k ==> (#[trigger] ps[j]).0 < ps[k].0,
    ensures
        sort_pairs(ps) == sort_pairs(ps.remove(k)).push(ps[k]),
    decreases ps.len(),
{
    if k == ps.len() - 1 {
        lemma_sort_pairs_membership(ps.drop_last());
        let s = sort_pairs(ps.drop_last());
        assert(s.len() == 0 || ps[k].0 >= s.last().0) by {
            if s.len() > 0 {
                assert(ps.drop_last().contains(s.last()));
                let j = choose|j: int| 0 <= j < ps.drop_last().len() && ps.drop_last()[j] == s.last();
                assert(ps[j] == s.last());
            }
        }
        lemma_insert_pair_at_end(s, ps.last());
        assert(ps.remove(k) =~= ps.drop_last());
        assert(ps[k] == ps.last());
    } else {
        let last = ps.last();
        let inner = ps.drop_last();
        assert(forall|j: int| 0 <= j < inner.len() && j != k ==> (#[trigger] inner[j]).0 < inner[k].0)
            by {
            assert(forall|j: int| 0 <= j < inner.len() ==> inner[j] == ps[j]);
        }
        lemma_sort_extract_max(inner, k);
        let s0 = sort_pairs(inner.remove(k));
        assert(sort_pairs(ps) == insert_pair(s0.push(inner[k]), last));
        assert(last.0 < inner[k].0) by {
            assert(ps[ps.len() - 1] == last);
        }
        assert(insert_pair(s0.push(inner[k]), last) == insert_pair(s0, last).push(inner[k])) by {
            assert(s0.push(inner[k]).last() == inner[k]);
            assert(s0.push(inner[k]).drop_last() =~= s0);
        }
        assert(inner.remove(k) =~= ps.remove(k).drop_last());
        assert(ps.remove(k).last() == last) by {
            assert(ps.remove(k)[ps.len() - 2] == ps[ps.len() - 1]);
        }
        assert(sort_pairs(ps.remove(k)) == insert_pair(s0, last));
        assert(ps[k] == inner[k]);
        assert(sort_pairs(ps) =~= sort_pairs(ps.remove(k)).push(ps[k]));
    }
}

/// The concatenated records of a sequence with a pair appended.
pub proof fn lemma_records_concat_push(ps: Seq<(u64, FileModel)>, p: (u64, FileModel))
    ensures
        records_concat(ps.push(p)) == records_concat(ps) + segment_records(p.1.data),
{
    assert(ps.push(p).drop_last() =~= ps);
    assert(ps.push(p).last() == p);
}

} // verus!

verus! {

/// Whether a sequence of pairs is sorted by ascending sequence number.
pub open spec fn sorted_by_seq(ps: Seq<(u64, FileModel)>) -> bool {
    forall|a: int, b: int| 0 <= a < b < ps.len() ==> (#[trigger] ps[a]).0 <= (#[trigger] ps[b]).0
}

/// Stable insertion keeps the sequence sorted.
pub proof fn lemma_insert_pair_sorted(sorted: Seq<(u64, FileModel)>, p: (u64, FileModel))
    requires
        sorted_by_seq(sorted),
    ensures
        sorted_by_seq(insert_pair(sorted, p)),
    decreases sorted.len(),
{
    if sorted.len() == 0 {
    } else if p.0 < sorted.last().0 {
        assert(sorted_by_seq(sorted.drop_last())) by {
            assert(forall|a: int, b: int|
                0 <= a < b < sorted.drop_last().len() ==> (#[trigger] sorted.drop_last()[a]).0 <= (
                #[trigger] sorted.drop_last()[b]).0);
        }
        lemma_insert_pair_sorted(sorted.drop_last(), p);
        let r0 = insert_pair(sorted.drop_last(), p);
        let r = r0.push(sorted.last());
        lemma_insert_pair_membership(sorted.drop_last(), p);
        assert forall|a: int, b: int| 0 <= a < b < r.len() implies (#[trigger] r[a]).0 <= (
        #[trigger] r[b]).0 by {
            if b == r.len() - 1 {
                assert(r[b] == sorted.last());
                if r0[a] != p {
                    assert(sorted.drop_last().contains(r0[a]));
                    let j = choose|j: int|
                        0 <= j < sorted.drop_last().len() && sorted.drop_last()[j] == r0[a];
                    assert(sorted[j] == r0[a]);
                    assert(sorted[j].0 <= sorted.last().0) by {
                        assert(sorted[sorted.len() - 1] == sorted.last());
                    }
                }
            }
        }
    } else {
        let r = sorted.push(p);
        assert forall|a: int, b: int| 0 <= a < b < r.len() implies (#[trigger] r[a]).0 <= (
        #[trigger] r[b]).0 by {
            if b == r.len() - 1 {
                if a < sorted.len() {
                    assert(sorted[a].0 <= sorted.last().0) by {
                        if a < sorted.len() - 1 {
                            assert(sorted[sorted.len() - 1] == sorted.last());
                        }
                    }
                }
            }
        }
    }
}

/// Where a stable insertion lands: before every strictly greater pair,
/// after everything else.
pub proof fn lemma_insert_pair_position(sorted: Seq<(u64, FileModel)>, p: (u64, FileModel), j: int)
    requires
        sorted_by_seq(sorted),
        0 <= j <= sorted.len(),
        j == 0 || sorted[j - 1].0 <= p.0,
        forall|k: int| j <= k < sorted.len() ==> p.0 < (#[trigger] sorted[k]).0,
    ensures
        insert_pair(sorted, p) == sorted.subrange(0, j) + seq![p] + sorted.subrange(
            j,
            sorted.len() as int,
        ),
    decreases sorted.len() - j,
{
    if j == sorted.len() {
        assert(insert_pair(sorted, p) == sorted.push(p));
        assert(sorted.push(p) =~= sorted.subrange(0, j) + seq![p] + sorted.subrange(
            j,
            sorted.len() as int,
        ));
    } else {
        assert(p.0 < sorted.last().0) by {
            assert(sorted[sorted.len() - 1] == sorted.last());
        }
        let inner = sorted.drop_last();
        assert(sorted_by_seq(inner)) by {
            assert(forall|a: int, b: int|
                0 <= a < b < inner.len() ==> (#[trigger] inner[a]).0 <= (#[trigger] inner[b]).0);
        }
        assert(forall|k: int| j <= k < inner.len() ==> p.0 < (#[trigger] inner[k]).0) by {
            assert(forall|k: int| 0 <= k < inner.len() ==> inner[k] == sorted[k]);
        }
        assert(j == 0 || inner[j - 1].0 <= p.0) by {
            if j > 0 {
                assert(inner[j - 1] == sorted[j - 1]);
            }
        }
        lemma_insert_pair_position(inner, p, j);
        assert(insert_pair(sorted, p) == insert_pair(inner, p).push(sorted.last()));
        assert(insert_pair(inner, p).push(sorted.last()) =~= sorted.subrange(0, j) + seq![p]
            + sorted.subrange(j, sorted.len() as int)) by {
            assert(inner.subrange(0, j) =~= sorted.subrange(0, j));
            assert(inner.subrange(j, inner.len() as int) =~= sorted.subrange(
                j,
                sorted.len() - 1,
            ));
        }
    }
}

/// Recovery's next sequence number lies strictly past every sequence
/// number parsed from a file name with the hash, up to saturation.
pub proof fn lemma_scan_next_covers(fs: Seq<FileModel>, h: u64, i: int)
    requires
        0 <= i < fs.len(),
    ensures
        match parse_filename(fs[i].name) {
            Some(p) => p.0 == h ==> (p.1 < scan_next(fs, h) || scan_next(fs, h) == u64::MAX),
            None => true,
        },
    decreases fs.len(),
{
    if i == fs.len() - 1 {
        assert(fs.last() == fs[i]);
    } else {
        lemma_scan_next_covers(fs.drop_last(), h, i);
        assert(fs.drop_last()[i] == fs[i]);
        assert(scan_next(fs, h) >= scan_next(fs.drop_last(), h));
    }
}

/// The first file whose name parses to a hash and sequence number, as
/// an index; `-1` when there is none.
pub open spec fn find_segment_idx(fs: Seq<FileModel>, h: u64, s: u64) -> int
    decreases fs.len(),
{
    if fs.len() == 0 {
        -1
    } else if parse_filename(fs[0].name) == Some((h, s)) {
        0
    } else {
        let r = find_segment_idx(fs.drop_first(), h, s);
        if r < 0 {
            -1
        } else {
            r + 1
        }
    }
}

/// What a read by reference resolves to and returns: the first file
/// whose name parses to the hash and sequence number, read at the
/// offset; `None` when no file matches or no complete, correctly
/// signed frame lies at the offset.
pub open spec fn read_back(fs: Seq<FileModel>, h: u64, s: u64, off: u64) -> Option<Seq<u8>> {
    let i = find_segment_idx(fs, h, s);
    if i < 0 {
        None
    } else {
        match crate::codec::read_in_segment(fs[i].data, off) {
            crate::codec::FrameReadOutcome::Content(c) => Some(c),
            _ => None,
        }
    }
}

/// Where `find_segment_idx` points, the name parses to the pair, and
/// nowhere before.
pub proof fn lemma_find_segment_idx(fs: Seq<FileModel>, h: u64, s: u64)
    ensures
        find_segment_idx(fs, h, s) < fs.len(),
        find_segment_idx(fs, h, s) >= -1,
        find_segment_idx(fs, h, s) >= 0 ==> parse_filename(fs[find_segment_idx(fs, h, s)].name)
            == Some((h, s)),
        find_segment_idx(fs, h, s) < 0 ==> forall|j: int|
            0 <= j < fs.len() ==> parse_filename((#[trigger] fs[j]).name) != Some((h, s)),
        forall|j: int|
            0 <= j < find_segment_idx(fs, h, s) ==> parse_filename((#[trigger] fs[j]).name)
                != Some((h, s)),
    decreases fs.len(),
{
    if fs.len() > 0 && parse_filename(fs[0].name) != Some((h, s)) {
        lemma_find_segment_idx(fs.drop_first(), h, s);
        assert forall|j: int|
            0 <= j < fs.len() && find_segment_idx(fs, h, s) < 0 implies parse_filename(
            (#[trigger] fs[j]).name,
        ) != Some((h, s)) by {
            if j > 0 {
                assert(parse_filename(fs.drop_first()[j - 1].name) != Some((h, s)));
            }
        }
        assert forall|j: int| 0 <= j < find_segment_idx(fs, h, s) implies parse_filename(
            (#[trigger] fs[j]).name,
        ) != Some((h, s)) by {
            if j > 0 {
                assert(parse_filename(fs.drop_first()[j - 1].name) != Some((h, s)));
            }
        }
    }
}

/// A found first match is where `find_segment_idx` points.
pub proof fn lemma_find_segment_idx_is_first(fs: Seq<FileModel>, h: u64, s: u64, i: int)
    requires
        0 <= i < fs.len(),
        parse_filename(fs[i].name) == Some((h, s)),
        forall|j: int| 0 <= j < i ==> parse_filename((#[trigger] fs[j]).name) != Some((h, s)),
    ensures
        find_segment_idx(fs, h, s) == i,
    decreases fs.len(),
{
    if i > 0 {
        assert(fs.drop_first()[i - 1].name == fs[i].name);
        assert forall|j: int| 0 <= j < i - 1 implies parse_filename(
            (#[trigger] fs.drop_first()[j]).name,
        ) != Some((h, s)) by {
            assert(fs.drop_first()[j] == fs[j + 1]);
        }
        lemma_find_segment_idx_is_first(fs.drop_first(), h, s, i - 1);
    }
}

/// Two directories whose files bear the same names in the same order
/// resolve every reference to the same index.
pub proof fn lemma_find_segment_idx_same_names(fs1: Seq<FileModel>, fs2: Seq<FileModel>, h: u64, s: u64)
    requires
        fs1.len() == fs2.len(),
        forall|i: int| 0 <= i < fs1.len() ==> (#[trigger] fs1[i]).name == (#[trigger] fs2[i]).name,
    ensures
        find_segment_idx(fs1, h, s) == find_segment_idx(fs2, h, s),
    decreases fs1.len(),
{
    if fs1.len() > 0 {
        assert(fs1[0].name == fs2[0].name);
        assert forall|i: int|
            0 <= i < fs1.drop_first().len() implies (#[trigger] fs1.drop_first()[i]).name == (
        #[trigger] fs2.drop_first()[i]).name by {
            assert(fs1.drop_first()[i] == fs1[i + 1]);
            assert(fs2.drop_first()[i] == fs2[i + 1]);
        }
        lemma_find_segment_idx_same_names(fs1.drop_first(), fs2.drop_first(), h, s);
    }
}

/// The index of the file that contributed the `j`-th matching pair.
pub open spec fn pair_source(fs: Seq<FileModel>, san: Seq<u8>, h: u64, j: int) -> int
    decreases fs.len(),
{
    if fs.len() == 0 {
        -1
    } else if j < matching_pairs(fs.drop_last(), san, h).len() {
        pair_source(fs.drop_last(), san, h, j)
    } else {
        fs.len() - 1
    }
}

/// Each matching pair holds the parsed sequence number and the model
/// of the file it came from.
pub proof fn lemma_pair_source(fs: Seq<FileModel>, san: Seq<u8>, h: u64, j: int)
    requires
        0 <= j < matching_pairs(fs, san, h).len(),
    ensures
        0 <= pair_source(fs, san, h, j) < fs.len(),
        name_matches_key(fs[pair_source(fs, san, h, j)].name, san, h),
        matching_pairs(fs, san, h)[j] == (
            parse_filename(fs[pair_source(fs, san, h, j)].name).unwrap().1,
            fs[pair_source(fs, san, h, j)],
        ),
    decreases fs.len(),
{
    let ps = matching_pairs(fs, san, h);
    let ps0 = matching_pairs(fs.drop_last(), san, h);
    if j < ps0.len() {
        lemma_pair_source(fs.drop_last(), san, h, j);
        let i = pair_source(fs.drop_last(), san, h, j);
        assert(fs.drop_last()[i] == fs[i]);
        assert(ps[j] == ps0[j]);
    } else {
        assert(name_matches_key(fs.last().name, san, h));
        assert(fs[fs.len() - 1] == fs.last());
        assert(ps[j] == (parse_filename(fs.last().name).unwrap().1, fs.last()));
    }
}

/// Distinct matching pairs come from distinct files, in order.
pub proof fn lemma_pair_source_mono(fs: Seq<FileModel>, san: Seq<u8>, h: u64, j1: int, j2: int)
    requires
        0 <= j1 < j2 < matching_pairs(fs, san, h).len(),
    ensures
        pair_source(fs, san, h, j1) < pair_source(fs, san, h, j2),
    decreases fs.len(),
{
    let ps0 = matching_pairs(fs.drop_last(), san, h);
    if j2 < ps0.len() {
        lemma_pair_source_mono(fs.drop_last(), san, h, j1, j2);
    } else {
        lemma_pair_source(fs.drop_last(), san, h, j1);
    }
}

/// Replacing a matching file in place, name unchanged, replaces its
/// pair in place. Returns the pair's position.
pub proof fn lemma_matching_pairs_update(
    fs: Seq<FileModel>,
    k: int,
    f2: FileModel,
    san: Seq<u8>,
    h: u64,
) -> (m: int)
    requires
        0 <= k < fs.len(),
        f2.name == fs[k].name,
        name_matches_key(fs[k].name, san, h),
    ensures
        0 <= m < matching_pairs(fs, san, h).len(),
        pair_source(fs, san, h, m) == k,
        matching_pairs(fs, san, h)[m] == (parse_filename(fs[k].name).unwrap().1, fs[k]),
        matching_pairs(fs.update(k, f2), san, h) == matching_pairs(fs, san, h).update(
            m,
            (parse_filename(fs[k].name).unwrap().1, f2),
        ),
    decreases fs.len(),
{
    let ps = matching_pairs(fs, san, h);
    let fs2 = fs.update(k, f2);
    let q = parse_filename(fs[k].name).unwrap().1;
    if k == fs.len() - 1 {
        let ps0 = matching_pairs(fs.drop_last(), san, h);
        let m = ps0.len() as int;
        assert(fs.last() == fs[k]);
        assert(fs2.last() == f2);
        assert(fs2.drop_last() =~= fs.drop_last());
        assert(ps == ps0 + seq![(q, fs[k])]);
        assert(ps[m] == (q, fs[k]));
        assert(matching_pairs(fs2, san, h) =~= ps.update(m, (q, f2)));
        m
    } else {
        assert(fs2.drop_last() =~= fs.drop_last().update(k, f2));
        assert(fs.drop_last()[k] == fs[k]);
        let m = lemma_matching_pairs_update(fs.drop_last(), k, f2, san, h);
        let ps0 = matching_pairs(fs.drop_last(), san, h);
        assert(fs2.last() == fs.last());
        let tail: Seq<(u64, FileModel)> = if name_matches_key(fs.last().name, san, h) {
            seq![(parse_filename(fs.last().name).unwrap().1, fs.last())]
        } else {
            seq![]
        };
        assert(ps == ps0 + tail);
        assert(matching_pairs(fs2, san, h) == ps0.update(m, (q, f2)) + tail);
        assert(ps0.update(m, (q, f2)) + tail =~= (ps0 + tail).update(m, (q, f2)));
        assert(ps[m] == ps0[m]);
        m
    }
}

/// Replacing a non-matching file in place, name unchanged, leaves a
/// key's matching pairs alone.
pub proof fn lemma_matching_pairs_update_nonmatching(
    fs: Seq<FileModel>,
    k: int,
    f2: FileModel,
    san: Seq<u8>,
    h: u64,
)
    requires
        0 <= k < fs.len(),
        f2.name == fs[k].name,
        !name_matches_key(fs[k].name, san, h),
    ensures
        matching_pairs(fs.update(k, f2), san, h) == matching_pairs(fs, san, h),
    decreases fs.len(),
{
    let fs2 = fs.update(k, f2);
    if k == fs.len() - 1 {
        assert(fs2.drop_last() =~= fs.drop_last());
        assert(fs2.last() == f2);
        assert(fs.last() == fs[k]);
        assert(matching_pairs(fs2, san, h) =~= matching_pairs(fs, san, h));
    } else {
        assert(fs2.drop_last() =~= fs.drop_last().update(k, f2));
        assert(fs.drop_last()[k] == fs[k]);
        lemma_matching_pairs_update_nonmatching(fs.drop_last(), k, f2, san, h);
        assert(fs2.last() == fs.last());
        assert(matching_pairs(fs2, san, h) =~= matching_pairs(fs, san, h));
    }
}

/// Appending a file whose name does not match leaves a key's matching
/// pairs alone.
pub proof fn lemma_matching_pairs_push_nonmatching(
    fs: Seq<FileModel>,
    f: FileModel,
    san: Seq<u8>,
    h: u64,
)
    requires
        !name_matches_key(f.name, san, h),
    ensures
        matching_pairs(fs.push(f), san, h) == matching_pairs(fs, san, h),
{
    assert(fs.push(f).drop_last() =~= fs);
    assert(fs.push(f).last() == f);
    assert(matching_pairs(fs.push(f), san, h) =~= matching_pairs(fs, san, h));
}

/// Every file a key's enumeration visits routes to one hash.
pub open spec fn files_route_to(fs: Seq<FileModel>, san: Seq<u8>, h: u64) -> bool {
    forall|i: int|
        0 <= i < fs.len() && name_matches_key((#[trigger] fs[i]).name, san, h)
            ==> parse_filename(fs[i].name).unwrap().0 == h
}

/// The key a segment file header names, for a `.log` file whose header
/// is complete and correctly signed: its key bytes decoded as UTF-8,
/// lossily where they are not valid UTF-8.
pub open spec fn file_key_string(f: FileModel) -> Option<Seq<char>> {
    if name_is_log(f.name) && has_log_signature(f.data) {
        match crate::codec::segment_key_bytes(f.data) {
            Some(kb) => Some(
                if vstd::utf8::valid_utf8(kb) {
                    vstd::utf8::decode_utf8(kb)
                } else {
                    crate::trusted::lossy_utf8(kb)
                },
            ),
            None => None,
        }
    } else {
        None
    }
}

/// The distinct keys named by the segment file headers, in order of
/// first appearance.
pub open spec fn keys_model(fs: Seq<FileModel>) -> Seq<Seq<char>>
    decreases fs.len(),
{
    if fs.len() == 0 {
        seq![]
    } else {
        let rest = keys_model(fs.drop_last());
        match file_key_string(fs.last()) {
            None => rest,
            Some(k) => if rest.contains(k) {
                rest
            } else {
                rest.push(k)
            },
        }
    }
}

/// Two directories whose files name the same keys file by file name
/// the same key set.
pub proof fn lemma_keys_model_pointwise(fs1: Seq<FileModel>, fs2: Seq<FileModel>)
    requires
        fs1.len() == fs2.len(),
        forall|i: int|
            0 <= i < fs1.len() ==> file_key_string(#[trigger] fs1[i]) == file_key_string(
                #[trigger] fs2[i],
            ),
    ensures
        keys_model(fs1) == keys_model(fs2),
    decreases fs1.len(),
{
    if fs1.len() > 0 {
        assert forall|i: int|
            0 <= i < fs1.drop_last().len() implies file_key_string(
            #[trigger] fs1.drop_last()[i],
        ) == file_key_string(#[trigger] fs2.drop_last()[i]) by {
            assert(fs1.drop_last()[i] == fs1[i]);
            assert(fs2.drop_last()[i] == fs2[i]);
        }
        lemma_keys_model_pointwise(fs1.drop_last(), fs2.drop_last());
        assert(fs1[fs1.len() - 1] == fs1.last());
        assert(fs2[fs2.len() - 1] == fs2.last());
    }
}

/// Adding a file extends the key set by its key, unless the key is
/// already named.
pub proof fn lemma_keys_model_push(fs: Seq<FileModel>, f: FileModel)
    ensures
        keys_model(fs.push(f)) == (match file_key_string(f) {
            None => keys_model(fs),
            Some(k) => if keys_model(fs).contains(k) {
                keys_model(fs)
            } else {
                keys_model(fs).push(k)
            },
        }),
{
    assert(fs.push(f).drop_last() =~= fs);
    assert(fs.push(f).last() == f);
}

/// A key named by some file is in the key set.
pub proof fn lemma_keys_model_contains(fs: Seq<FileModel>, i: int, k: Seq<char>)
    requires
        0 <= i < fs.len(),
        file_key_string(fs[i]) == Some(k),
    ensures
        keys_model(fs).contains(k),
    decreases fs.len(),
{
    let rest = keys_model(fs.drop_last());
    if i == fs.len() - 1 {
        assert(fs.last() == fs[i]);
        if !rest.contains(k) {
            assert(keys_model(fs)[keys_model(fs).len() - 1] == k);
        } else {
            let j = choose|j: int| 0 <= j < rest.len() && rest[j] == k;
            assert(keys_model(fs)[j] == k);
        }
    } else {
        assert(fs.drop_last()[i] == fs[i]);
        lemma_keys_model_contains(fs.drop_last(), i, k);
        let j = choose|j: int| 0 <= j < rest.len() && rest[j] == k;
        assert(keys_model(fs)[j] == k);
    }
}

} // verus!

verus! {

/// A reference resolved in the directory resolves to the same index
/// after a file is appended.
pub proof fn lemma_find_segment_idx_push(fs: Seq<FileModel>, f: FileModel, h: u64, s: u64)
    requires
        find_segment_idx(fs, h, s) >= 0,
    ensures
        find_segment_idx(fs.push(f), h, s) == find_segment_idx(fs, h, s),
{
    let i = find_segment_idx(fs, h, s);
    lemma_find_segment_idx(fs, h, s);
    assert(fs.push(f)[i].name == fs[i].name);
    assert forall|j: int| 0 <= j < i implies parse_filename(
        (#[trigger] fs.push(f)[j]).name,
    ) != Some((h, s)) by {
        assert(fs.push(f)[j] == fs[j]);
    }
    lemma_find_segment_idx_is_first(fs.push(f), h, s, i);
}

} // verus!

verus! {

/// Two directories that agree on every file's name and bytes; the
/// durable prefixes may differ.
pub open spec fn same_files_content(fs1: Seq<FileModel>, fs2: Seq<FileModel>) -> bool {
    &&& fs1.len() == fs2.len()
    &&& forall|i: int|
        0 <= i < fs1.len() ==> (#[trigger] fs1[i]).name == fs2[i].name && fs1[i].data
            == fs2[i].data
}

/// Two pair sequences that agree on every sequence number and every
/// file's name and bytes.
pub open spec fn pairs_same_content(p1: Seq<(u64, FileModel)>, p2: Seq<(u64, FileModel)>) -> bool {
    &&& p1.len() == p2.len()
    &&& forall|i: int|
        0 <= i < p1.len() ==> (#[trigger] p1[i]).0 == p2[i].0 && p1[i].1.name == p2[i].1.name
            && p1[i].1.data == p2[i].1.data
}

/// Matching pairs agree where the directories agree on names and bytes.
proof fn lemma_matching_pairs_same_content(
    fs1: Seq<FileModel>,
    fs2: Seq<FileModel>,
    san: Seq<u8>,
    h: u64,
)
    requires
        same_files_content(fs1, fs2),
    ensures
        pairs_same_content(matching_pairs(fs1, san, h), matching_pairs(fs2, san, h)),
    decreases fs1.len(),
{
    if fs1.len() > 0 {
        assert(same_files_content(fs1.drop_last(), fs2.drop_last())) by {
            assert(forall|i: int|
                0 <= i < fs1.drop_last().len() ==> (#[trigger] fs1.drop_last()[i]) == fs1[i]
                    && (#[trigger] fs2.drop_last()[i]) == fs2[i]);
        }
        lemma_matching_pairs_same_content(fs1.drop_last(), fs2.drop_last(), san, h);
        assert(fs1[fs1.len() - 1] == fs1.last() && fs2[fs2.len() - 1] == fs2.last());
        assert(fs1.last().name == fs2.last().name);
        let p1 = matching_pairs(fs1, san, h);
        let p2 = matching_pairs(fs2, san, h);
        let q1 = matching_pairs(fs1.drop_last(), san, h);
        let q2 = matching_pairs(fs2.drop_last(), san, h);
        assert forall|i: int|
            0 <= i < p1.len() implies (#[trigger] p1[i]).0 == p2[i].0 && p1[i].1.name
            == p2[i].1.name && p1[i].1.data == p2[i].1.data by {
            if i < q1.len() {
                assert(p1[i] == q1[i] && p2[i] == q2[i]);
            }
        }
    }
}

/// Stable insertion agrees where the inputs agree on sequence numbers
/// and on names and bytes.
proof fn lemma_insert_pair_same_content(
    s1: Seq<(u64, FileModel)>,
    s2: Seq<(u64, FileModel)>,
    a1: (u64, FileModel),
    a2: (u64, FileModel),
)
    requires
        pairs_same_content(s1, s2),
        a1.0 == a2.0,
        a1.1.name == a2.1.name,
        a1.1.data == a2.1.data,
    ensures
        pairs_same_content(insert_pair(s1, a1), insert_pair(s2, a2)),
    decreases s1.len(),
{
    if s1.len() == 0 {
    } else {
        assert(s1[s1.len() - 1] == s1.last() && s2[s2.len() - 1] == s2.last());
        assert(s1.last().0 == s2.last().0);
        if a1.0 < s1.last().0 {
            assert(pairs_same_content(s1.drop_last(), s2.drop_last())) by {
                assert(forall|i: int|
                    0 <= i < s1.drop_last().len() ==> (#[trigger] s1.drop_last()[i]) == s1[i]
                        && (#[trigger] s2.drop_last()[i]) == s2[i]);
            }
            lemma_insert_pair_same_content(s1.drop_last(), s2.drop_last(), a1, a2);
            let r1 = insert_pair(s1.drop_last(), a1);
            let r2 = insert_pair(s2.drop_last(), a2);
            assert forall|i: int|
                0 <= i < r1.push(s1.last()).len() implies (#[trigger] r1.push(s1.last())[i]).0
                == r2.push(s2.last())[i].0 && r1.push(s1.last())[i].1.name == r2.push(
                s2.last(),
            )[i].1.name && r1.push(s1.last())[i].1.data == r2.push(s2.last())[i].1.data by {
                if i < r1.len() {
                    assert(r1.push(s1.last())[i] == r1[i]);
                    assert(r2.push(s2.last())[i] == r2[i]);
                }
            }
        } else {
            assert forall|i: int|
                0 <= i < s1.push(a1).len() implies (#[trigger] s1.push(a1)[i]).0 == s2.push(
                a2,
            )[i].0 && s1.push(a1)[i].1.name == s2.push(a2)[i].1.name && s1.push(a1)[i].1.data
                == s2.push(a2)[i].1.data by {
                if i < s1.len() {
                    assert(s1.push(a1)[i] == s1[i] && s2.push(a2)[i] == s2[i]);
                }
            }
        }
    }
}

/// Sorting agrees where the inputs agree on sequence numbers and on
/// names and bytes.
proof fn lemma_sort_pairs_same_content(p1: Seq<(u64, FileModel)>, p2: Seq<(u64, FileModel)>)
    requires
        pairs_same_content(p1, p2),
    ensures
        pairs_same_content(sort_pairs(p1), sort_pairs(p2)),
    decreases p1.len(),
{
    if p1.len() > 0 {
        assert(pairs_same_content(p1.drop_last(), p2.drop_last())) by {
            assert(forall|i: int|
                0 <= i < p1.drop_last().len() ==> (#[trigger] p1.drop_last()[i]) == p1[i]
                    && (#[trigger] p2.drop_last()[i]) == p2[i]);
        }
        lemma_sort_pairs_same_content(p1.drop_last(), p2.drop_last());
        assert(p1[p1.len() - 1] == p1.last() && p2[p2.len() - 1] == p2.last());
        lemma_insert_pair_same_content(
            sort_pairs(p1.drop_last()),
            sort_pairs(p2.drop_last()),
            p1.last(),
            p2.last(),
        );
    }
}

/// The concatenated records agree where the pairs agree on bytes.
proof fn lemma_records_concat_same_content(p1: Seq<(u64, FileModel)>, p2: Seq<(u64, FileModel)>)
    requires
        pairs_same_content(p1, p2),
    ensures
        records_concat(p1) == records_concat(p2),
    decreases p1.len(),
{
    if p1.len() > 0 {
        assert(pairs_same_content(p1.drop_last(), p2.drop_last())) by {
            assert(forall|i: int|
                0 <= i < p1.drop_last().len() ==> (#[trigger] p1.drop_last()[i]) == p1[i]
                    && (#[trigger] p2.drop_last()[i]) == p2[i]);
        }
        lemma_records_concat_same_content(p1.drop_last(), p2.drop_last());
        assert(p1[p1.len() - 1] == p1.last() && p2[p2.len() - 1] == p2.last());
        assert(p1.last().1.data == p2.last().1.data);
    }
}

/// Enumeration reads only the files' names and bytes: directories that
/// agree on them replay the same records for every key, whatever their
/// durable prefixes.
pub proof fn lemma_enum_same_content(
    fs1: Seq<FileModel>,
    fs2: Seq<FileModel>,
    san: Seq<u8>,
    h: u64,
)
    requires
        same_files_content(fs1, fs2),
    ensures
        enum_records_model(fs1, san, h) == enum_records_model(fs2, san, h),
{
    lemma_matching_pairs_same_content(fs1, fs2, san, h);
    lemma_sort_pairs_same_content(matching_pairs(fs1, san, h), matching_pairs(fs2, san, h));
    lemma_records_concat_same_content(
        sort_pairs(matching_pairs(fs1, san, h)),
        sort_pairs(matching_pairs(fs2, san, h)),
    );
}

} // verus!
