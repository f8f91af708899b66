//! The write-ahead log engine.
//!
//! A `Wal` owns a directory of segment files and the in-memory routing
//! state rebuilt from it: the next sequence number for each key hash
//! and the table of active segments. Appends route a record to the
//! active segment of its key, rotating on a time-based policy; reads
//! resolve an `EntryRef` to a segment file and one frame inside it;
//! enumeration replays a key's segments in sequence order; compaction
//! deletes segment files whose expiration lies in the past.

use vstd::prelude::*;
use vstd::slice::{slice_subrange, slice_to_vec};
use vstd::string::StringSliceAdditionalSpecFns;
use crate::codec::{
    append_frame, bytes_equal, encode_segment_header, read_frame_in_segment, read_records,
    segment_header_bytes, well_framed_from, FrameReadOutcome,
};
use crate::codec;
use crate::errors::WalError;
use crate::filename::{
    build_filename, build_key_prefix, generate_filename, key_file_prefix, name_matches,
    name_matches_key, parse_filename, sanitize_key, sanitized_key, try_parse_filename,
    lemma_filename_round_trip, lemma_filename_has_prefix,
};
use crate::hashing::{fnv1a, key_hash_of};
use crate::model::{
    crashed_files, enum_records_model, file_expired, files_route_to, files_wf, find_segment_idx,
    keys_model, lemma_compact_idempotent, lemma_compact_model_props, lemma_compact_model_wf,
    lemma_compact_all_kept, lemma_find_segment_idx, lemma_keys_model_contains,
    lemma_keys_model_pointwise, lemma_keys_model_push, lemma_enum_same_content,
    same_files_content,
    lemma_find_segment_idx_is_first, lemma_find_segment_idx_same_names, lemma_insert_pair_at_end,
    lemma_insert_pair_membership, lemma_insert_pair_position, lemma_insert_pair_sorted,
    lemma_matching_pairs_push_nonmatching, lemma_matching_pairs_update,
    lemma_matching_pairs_update_nonmatching, lemma_pair_source, lemma_pair_source_mono,
    lemma_records_concat_push, lemma_scan_next_covers, lemma_sort_extract_max,
    lemma_find_segment_idx_push, insert_pair,
    lemma_sort_pairs_membership, matching_pairs, names_distinct,
    pair_source, read_back, records_concat, scan_next, sort_pairs, sorted_by_seq, compact_model,
    file_key_string, FileModel,
};
use crate::options::WalOptions;
use crate::storage::{files_seq_view, lemma_directory_view, Directory, StoredFile};
use crate::trusted::{bytes_to_string_lossy, unix_now_seconds};

verus! {

/// Largest header accepted for a record, in bytes.
pub const MAX_HEADER_SIZE: usize = 65535;

/// Reference to one record in the log: the key's hash, the sequence
/// number of its segment, and the byte offset of its frame, measured
/// from the first byte after the segment file header. Valid across
/// process restarts until compaction deletes the segment.
#[derive(Debug, Clone, Copy, PartialEq, Eq, Structural)]
pub struct EntryRef {
    /// Hash of the key, identifying the segment set.
    pub key_hash: u64,
    /// Sequence number of the segment file.
    pub sequence_number: u64,
    /// Byte offset of the record frame, after the segment file header.
    pub offset: u64,
}

/// The state of one open segment: its key, its file's name, and the
/// rotation data.
struct ActiveSegment {
    key_hash: u64,
    file_name: Vec<u8>,
    sequence_number: u64,
    expiration_timestamp: u64,
    header_len: u64,
    key_bytes: Ghost<Seq<u8>>,
    key_chars: Ghost<Seq<char>>,
}

/// The value stored in an association table under a key hash; zero
/// when the hash is absent.
pub open spec fn table_lookup(t: Seq<(u64, u64)>, h: u64) -> u64
    decreases t.len(),
{
    if t.len() == 0 {
        0u64
    } else if t[0].0 == h {
        t[0].1
    } else {
        table_lookup(t.drop_first(), h)
    }
}

/// Look a key hash up in an association table.
fn table_get(t: &Vec<(u64, u64)>, h: u64) -> (r: u64)
    ensures
        r == table_lookup(t@, h),
{
    let n = t.len();
    let mut i: usize = 0;
    proof {
        assert(t@.skip(0) =~= t@);
    }
    while i < n
        invariant
            0 <= i <= n,
            n == t@.len(),
            table_lookup(t@, h) == table_lookup(t@.skip(i as int), h),
        decreases n - i,
    {
        proof {
            assert(t@.skip(i as int)[0] == t@[i as int]);
            assert(t@.skip(i as int).drop_first() =~= t@.skip(i + 1));
        }
        if t[i].0 == h {
            return t[i].1;
        }
        i = i + 1;
    }
    proof {
        assert(t@.skip(n as int).len() == 0);
    }
    0
}

/// Updating the first entry of a key hash changes its lookup and no
/// other.
proof fn lemma_table_update(t: Seq<(u64, u64)>, i: int, h: u64, v: u64)
    requires
        0 <= i < t.len(),
        t[i].0 == h,
        forall|j: int| 0 <= j < i ==> (#[trigger] t[j]).0 != h,
    ensures
        table_lookup(t.update(i, (h, v)), h) == v,
        forall|h2: u64| h2 != h ==> table_lookup(t.update(i, (h, v)), h2) == table_lookup(t, h2),
    decreases t.len(),
{
    let t2 = t.update(i, (h, v));
    if i == 0 {
        assert(t2[0] == (h, v));
        assert(t2.drop_first() =~= t.drop_first());
        assert forall|h2: u64| h2 != h implies table_lookup(t2, h2) == table_lookup(t, h2) by {
            assert(table_lookup(t2, h2) == table_lookup(t2.drop_first(), h2));
            assert(table_lookup(t, h2) == table_lookup(t.drop_first(), h2));
        }
    } else {
        assert(t2[0] == t[0]);
        assert(t[0].0 != h);
        assert(t2.drop_first() =~= t.drop_first().update(i - 1, (h, v)));
        assert(t.drop_first()[i - 1] == t[i]);
        assert forall|j: int| 0 <= j < i - 1 implies (#[trigger] t.drop_first()[j]).0 != h by {
            assert(t.drop_first()[j] == t[j + 1]);
        }
        lemma_table_update(t.drop_first(), i - 1, h, v);
        assert forall|h2: u64| h2 != h implies table_lookup(t2, h2) == table_lookup(t, h2) by {
            if t[0].0 != h2 {
                assert(table_lookup(t2, h2) == table_lookup(t2.drop_first(), h2));
                assert(table_lookup(t, h2) == table_lookup(t.drop_first(), h2));
            }
        }
    }
}

/// Appending an entry for a fresh key hash sets its lookup and no
/// other.
proof fn lemma_table_push(t: Seq<(u64, u64)>, h: u64, v: u64)
    requires
        forall|j: int| 0 <= j < t.len() ==> (#[trigger] t[j]).0 != h,
    ensures
        table_lookup(t.push((h, v)), h) == v,
        forall|h2: u64| h2 != h ==> table_lookup(t.push((h, v)), h2) == table_lookup(t, h2),
    decreases t.len(),
{
    let t2 = t.push((h, v));
    if t.len() == 0 {
        assert(t2[0] == (h, v));
        assert(t2.drop_first() =~= Seq::<(u64, u64)>::empty());
        assert forall|h2: u64| h2 != h implies table_lookup(t2, h2) == table_lookup(t, h2) by {
            assert(table_lookup(t2, h2) == table_lookup(t2.drop_first(), h2));
        }
    } else {
        assert(t2[0] == t[0]);
        assert(t2.drop_first() =~= t.drop_first().push((h, v)));
        assert forall|j: int| 0 <= j < t.drop_first().len() implies (
        #[trigger] t.drop_first()[j]).0 != h by {
            assert(t.drop_first()[j] == t[j + 1]);
        }
        lemma_table_push(t.drop_first(), h, v);
        assert forall|h2: u64| h2 != h implies table_lookup(t2, h2) == table_lookup(t, h2) by {
            if t[0].0 != h2 {
                assert(table_lookup(t2, h2) == table_lookup(t2.drop_first(), h2));
                assert(table_lookup(t, h2) == table_lookup(t.drop_first(), h2));
            }
        }
    }
}

/// Bind a key hash to a value in an association table.
fn table_set(t: &mut Vec<(u64, u64)>, h: u64, v: u64)
    ensures
        table_lookup(final(t)@, h) == v,
        forall|h2: u64| h2 != h ==> table_lookup(final(t)@, h2) == table_lookup(old(t)@, h2),
{
    let ghost t0 = t@;
    let n = t.len();
    let mut i: usize = 0;
    while i < n
        invariant
            0 <= i <= n,
            n == t@.len(),
            t@ == t0,
            t0 == old(t)@,
            forall|j: int| 0 <= j < i ==> (#[trigger] t@[j]).0 != h,
        decreases n - i,
    {
        if t[i].0 == h {
            proof {
                lemma_table_update(t0, i as int, h, v);
            }
            t[i] = (h, v);
            proof {
                assert(t@ =~= t0.update(i as int, (h, v)));
            }
            return ;
        }
        i = i + 1;
    }
    proof {
        lemma_table_push(t0, h, v);
    }
    t.push((h, v));
    proof {
        assert(t@ =~= t0.push((h, v)));
    }
}

/// The first active entry of a key hash, or `-1`.
spec fn active_find(acts: Seq<ActiveSegment>, h: u64) -> int
    decreases acts.len(),
{
    if acts.len() == 0 {
        -1
    } else if acts[0].key_hash == h {
        0
    } else {
        let r = active_find(acts.drop_first(), h);
        if r < 0 {
            -1
        } else {
            r + 1
        }
    }
}

/// Where `active_find` points, the hash is found, and nowhere before.
proof fn lemma_active_find(acts: Seq<ActiveSegment>, h: u64)
    ensures
        active_find(acts, h) < acts.len(),
        active_find(acts, h) >= -1,
        active_find(acts, h) >= 0 ==> acts[active_find(acts, h)].key_hash == h,
        active_find(acts, h) < 0 ==> forall|j: int|
            0 <= j < acts.len() ==> (#[trigger] acts[j]).key_hash != h,
        forall|j: int| 0 <= j < active_find(acts, h) ==> (#[trigger] acts[j]).key_hash != h,
    decreases acts.len(),
{
    if acts.len() > 0 && acts[0].key_hash != h {
        lemma_active_find(acts.drop_first(), h);
        assert forall|j: int| 0 <= j < acts.len() && active_find(acts, h) < 0 implies (
        #[trigger] acts[j]).key_hash != h by {
            if j > 0 {
                assert(acts.drop_first()[j - 1].key_hash != h);
            }
        }
        assert forall|j: int| 0 <= j < active_find(acts, h) implies (#[trigger] acts[j]).key_hash
            != h by {
            if j > 0 {
                assert(acts.drop_first()[j - 1].key_hash != h);
            }
        }
    }
}

/// A found first occurrence is where `active_find` points.
proof fn lemma_active_find_is_first(acts: Seq<ActiveSegment>, h: u64, i: int)
    requires
        0 <= i < acts.len(),
        acts[i].key_hash == h,
        forall|j: int| 0 <= j < i ==> (#[trigger] acts[j]).key_hash != h,
    ensures
        active_find(acts, h) == i,
    decreases acts.len(),
{
    if i > 0 {
        assert(acts.drop_first()[i - 1].key_hash == h);
        assert forall|j: int| 0 <= j < i - 1 implies (#[trigger] acts.drop_first()[j]).key_hash
            != h by {
            assert(acts.drop_first()[j] == acts[j + 1]);
        }
        lemma_active_find_is_first(acts.drop_first(), h, i - 1);
    }
}

/// The first active entry with a key hash, scanning in table order.
fn find_active_index(acts: &Vec<ActiveSegment>, h: u64) -> (r: Option<usize>)
    ensures
        match r {
            Some(i) => i < acts@.len() && acts@[i as int].key_hash == h && active_find(acts@, h)
                == i as int,
            None => active_find(acts@, h) == -1,
        },
{
    let n = acts.len();
    let mut i: usize = 0;
    while i < n
        invariant
            0 <= i <= n,
            n == acts@.len(),
            forall|j: int| 0 <= j < i ==> (#[trigger] acts@[j]).key_hash != h,
        decreases n - i,
    {
        if acts[i].key_hash == h {
            proof {
                lemma_active_find_is_first(acts@, h, i as int);
            }
            return Some(i);
        }
        i = i + 1;
    }
    proof {
        lemma_active_find(acts@, h);
        if active_find(acts@, h) >= 0 {
            assert(acts@[active_find(acts@, h)].key_hash == h);
            assert(false);
        }
    }
    None
}

/// A file's parsed sequence number lies under the table's bound for
/// its hash, unless that bound is saturated.
spec fn file_seq_bounded(f: FileModel, t: Seq<(u64, u64)>) -> bool {
    match parse_filename(f.name) {
        Some(p) => p.1 < table_lookup(t, p.0) || table_lookup(t, p.0) == u64::MAX,
        None => true,
    }
}

/// The bytes of an active segment's file: at least the header, which
/// is the canonical segment header, followed by whole frames.
spec fn active_file_ok(a: ActiveSegment, f: FileModel) -> bool {
    &&& f.data.len() >= a.header_len
    &&& f.data.take(a.header_len as int) == segment_header_bytes(
        a.expiration_timestamp,
        a.key_bytes@,
    )
    &&& well_framed_from(f.data, a.header_len as int)
}

/// Any other file of the same hash is an older segment.
spec fn older_segment(a: ActiveSegment, f: FileModel) -> bool {
    match parse_filename(f.name) {
        Some(p) => p.0 == a.key_hash ==> p.1 < a.sequence_number,
        None => true,
    }
}

/// Everything an active table entry promises.
spec fn active_entry_wf(a: ActiveSegment, fs: Seq<FileModel>, t: Seq<(u64, u64)>) -> bool {
    &&& a.key_bytes@ == vstd::utf8::encode_utf8(a.key_chars@)
    &&& a.key_hash == fnv1a(a.key_bytes@)
    &&& a.header_len == 32 + a.key_bytes@.len()
    &&& a.file_name@ == generate_filename(
        sanitized_key(a.key_chars@),
        a.key_hash,
        a.sequence_number,
    )
    &&& a.sequence_number < table_lookup(t, a.key_hash)
    &&& exists|i: int| 0 <= i < fs.len() && (#[trigger] fs[i]).name == a.file_name@
    &&& forall|i: int|
        0 <= i < fs.len() && (#[trigger] fs[i]).name == a.file_name@ ==> active_file_ok(a, fs[i])
    &&& forall|i: int|
        0 <= i < fs.len() && (#[trigger] fs[i]).name != a.file_name@ ==> older_segment(a, fs[i])
}

/// The sequence number a new segment gets, given the stored next
/// value: one where the hash has never been seen, else that value.
pub open spec fn alloc_seq(next: u64) -> u64 {
    if next == 0 {
        1u64
    } else {
        next
    }
}

/// When a segment created at `now` expires: one segment duration
/// later, saturated at the largest representable timestamp.
pub open spec fn expiration_of(now: u64, dur: u64) -> u64 {
    if now + dur > u64::MAX {
        u64::MAX
    } else {
        (now + dur) as u64
    }
}

/// A write-ahead log over a directory of segment files.
pub struct Wal {
    options: WalOptions,
    files: Vec<StoredFile>,
    active: Vec<ActiveSegment>,
    next_seq: Vec<(u64, u64)>,
}

impl Wal {
    /// The models of the directory's files.
    pub closed spec fn files_model(self) -> Seq<FileModel> {
        files_seq_view(self.files@)
    }

    /// The configuration the log was opened with.
    pub closed spec fn options_spec(self) -> WalOptions {
        self.options
    }

    /// The next sequence number a new segment of this hash would get;
    /// zero when the hash has never been seen.
    pub closed spec fn next_seq_of(self, h: u64) -> u64 {
        table_lookup(self.next_seq@, h)
    }

    /// How many segments are open for append.
    pub closed spec fn active_count(self) -> nat {
        self.active@.len()
    }

    /// Whether a segment is open for append under this key hash.
    pub closed spec fn has_active(self, h: u64) -> bool {
        active_find(self.active@, h) >= 0
    }

    /// When the active segment of this hash expires; meaningful only
    /// where `has_active` holds.
    pub closed spec fn active_expiration(self, h: u64) -> u64 {
        if active_find(self.active@, h) >= 0 {
            self.active@[active_find(self.active@, h)].expiration_timestamp
        } else {
            0u64
        }
    }

    /// The sequence number of the active segment of this hash;
    /// meaningful only where `has_active` holds.
    pub closed spec fn active_sequence(self, h: u64) -> u64 {
        if active_find(self.active@, h) >= 0 {
            self.active@[active_find(self.active@, h)].sequence_number
        } else {
            0u64
        }
    }

    /// Where the next record of this hash's active segment would land:
    /// the segment file's length, measured from the first byte after
    /// its header. Meaningful only where `has_active` holds.
    pub closed spec fn active_next_offset(self, h: u64) -> u64 {
        let i = active_find(self.active@, h);
        if i >= 0 {
            let a = self.active@[i];
            let k = crate::storage::name_index(self.files_model(), a.file_name@);
            if k >= 0 && a.header_len <= self.files_model()[k].data.len() <= u64::MAX {
                (self.files_model()[k].data.len() - a.header_len) as u64
            } else {
                0u64
            }
        } else {
            0u64
        }
    }

    /// All the record contents a key's enumeration yields, in order.
    pub closed spec fn records_for_key(self, key: Seq<char>) -> Seq<Seq<u8>> {
        enum_records_model(
            self.files_model(),
            sanitized_key(key),
            fnv1a(vstd::utf8::encode_utf8(key)),
        )
    }

    /// Every file and every active entry that this key's appends and
    /// enumeration touch belongs to this very key: no other key's
    /// sanitized form and hash collide with it.
    pub closed spec fn routing_clean(self, key: Seq<char>) -> bool {
        let san = sanitized_key(key);
        let h = fnv1a(vstd::utf8::encode_utf8(key));
        &&& files_route_to(self.files_model(), san, h)
        &&& forall|i: int|
            0 <= i < self.active@.len() && (#[trigger] self.active@[i]).key_hash == h
                ==> self.active@[i].key_chars@ == key
    }

    /// All the active segments' bytes are on stable storage.
    pub closed spec fn actives_durable(self) -> bool {
        forall|i: int, k: int|
            0 <= i < self.active@.len() && 0 <= k < self.files_model().len() && (
            #[trigger] self.files_model()[k]).name == (#[trigger] self.active@[i]).file_name@
                ==> self.files_model()[k].durable_len == self.files_model()[k].data.len()
    }

    /// No active segment has expired at `now`.
    pub closed spec fn actives_current(self, now: u64) -> bool {
        forall|i: int|
            0 <= i < self.active@.len() ==> now <= (#[trigger] self.active@[i]).expiration_timestamp
    }

    /// The engine's invariant.
    pub closed spec fn wf(self) -> bool {
        &&& self.options.valid()
        &&& files_wf(self.files_model())
        &&& forall|i: int|
            0 <= i < self.files_model().len() ==> file_seq_bounded(
                #[trigger] self.files_model()[i],
                self.next_seq@,
            )
        &&& forall|i: int, j: int|
            0 <= i < j < self.active@.len() ==> (#[trigger] self.active@[i]).key_hash != (
            #[trigger] self.active@[j]).key_hash
        &&& forall|i: int|
            0 <= i < self.active@.len() ==> active_entry_wf(
                #[trigger] self.active@[i],
                self.files_model(),
                self.next_seq@,
            )
    }

    /// Open a log over a directory: validate the options and seed the
    /// per-key sequence counters from the segment file names. No file
    /// is opened or read; no segment is active until the first append.
    pub fn new(dir: Directory, options: WalOptions) -> (r: Result<Wal, WalError>)
        requires
            dir.wf(),
        ensures
            options.valid() <==> r is Ok,
            !options.valid() ==> (r matches Err(e) && e is InvalidConfig),
            r matches Ok(w) ==> {
                &&& w.wf()
                &&& w.files_model() == dir@
                &&& w.active_count() == 0
                &&& (forall|h: u64| !(#[trigger] w.has_active(h)))
                &&& w.options_spec() == options
                &&& forall|h: u64| #[trigger] w.next_seq_of(h) == scan_next(dir@, h)
            },
    {
        options.validate()?;
        proof {
            lemma_directory_view(&dir);
        }
        let mut wal = Wal { options, files: dir.files, active: Vec::new(), next_seq: Vec::new() };
        let ghost fsv = wal.files_model();
        let n = wal.files.len();
        let mut i: usize = 0;
        while i < n
            invariant
                0 <= i <= n,
                n == wal.files@.len(),
                wal.files_model() == fsv,
                wal.options == options,
                wal.active@.len() == 0,
                forall|h: u64| #[trigger] table_lookup(wal.next_seq@, h) == scan_next(
                    fsv.take(i as int),
                    h,
                ),
            decreases n - i,
        {
            let ghost pre = fsv.take(i as int);
            let ghost cur = fsv.take(i + 1);
            proof {
                assert(cur.drop_last() =~= pre);
                assert(cur.last() == fsv[i as int]);
            }
            match try_parse_filename(&wal.files[i].name) {
                Some((h, s)) => {
                    let bump = if s < u64::MAX {
                        s + 1
                    } else {
                        u64::MAX
                    };
                    let curval = table_get(&wal.next_seq, h);
                    if curval < bump {
                        table_set(&mut wal.next_seq, h, bump);
                    }
                    proof {
                        assert(parse_filename(fsv[i as int].name) == Some((h, s)));
                        assert forall|h2: u64| #[trigger] table_lookup(wal.next_seq@, h2)
                            == scan_next(cur, h2) by {
                            if h2 == h {
                                assert(scan_next(cur, h2) == if scan_next(pre, h2) < bump {
                                    bump
                                } else {
                                    scan_next(pre, h2)
                                });
                            } else {
                                assert(scan_next(cur, h2) == scan_next(pre, h2));
                            }
                        }
                    }
                },
                None => {
                    proof {
                        assert(parse_filename(fsv[i as int].name) is None);
                        assert forall|h2: u64| #[trigger] table_lookup(wal.next_seq@, h2)
                            == scan_next(cur, h2) by {
                            assert(scan_next(cur, h2) == scan_next(pre, h2));
                        }
                    }
                },
            }
            i = i + 1;
        }
        proof {
            assert(fsv.take(n as int) =~= fsv);
            assert forall|k: int| 0 <= k < fsv.len() implies file_seq_bounded(
                #[trigger] fsv[k],
                wal.next_seq@,
            ) by {
                lemma_scan_next_covers(fsv, 0, k);
                if parse_filename(fsv[k].name) is Some {
                    let p = parse_filename(fsv[k].name).unwrap();
                    lemma_scan_next_covers(fsv, p.0, k);
                }
            }
            assert forall|h: u64| !(#[trigger] wal.has_active(h)) by {
                assert(active_find(wal.active@, h) == -1);
            }
        }
        Ok(wal)
    }

    /// Hand the directory back; every buffered byte reaches it, as a
    /// clean process exit leaves the file system.
    pub fn into_directory(self) -> (r: Directory)
        requires
            self.wf(),
        ensures
            r@ == self.files_model(),
            r.wf(),
    {
        let d = Directory { files: self.files };
        proof {
            lemma_directory_view(&d);
        }
        d
    }

    /// A copy of the directory as it stands, every buffered byte
    /// included, the log left untouched. A host program mirrors this
    /// onto the real file system.
    pub fn directory_snapshot(&self) -> (r: Directory)
        requires
            self.wf(),
        ensures
            r@ == self.files_model(),
            r.wf(),
    {
        let ghost fsv = self.files_model();
        let n = self.files.len();
        let mut out: Vec<StoredFile> = Vec::new();
        let mut i: usize = 0;
        while i < n
            invariant
                0 <= i <= n,
                n == self.files@.len(),
                fsv == self.files_model(),
                self.wf(),
                files_seq_view(out@) =~= fsv.take(i as int),
            decreases n - i,
        {
            let f = &self.files[i];
            let name = slice_to_vec(f.name.as_slice());
            let data = slice_to_vec(f.data.as_slice());
            let g = StoredFile { name, data, durable_len: f.durable_len };
            proof {
                assert(g@ == fsv[i as int]);
            }
            let ghost prev = out@;
            out.push(g);
            proof {
                assert(out@ =~= prev.push(g));
                assert(files_seq_view(prev).len() == prev.len());
                assert(fsv.take(i + 1).drop_last() =~= fsv.take(i as int));
                assert forall|k: int| 0 <= k < i + 1 implies files_seq_view(out@)[k] == fsv.take(
                    i + 1,
                )[k] by {
                    assert(files_seq_view(out@)[k] == out@[k]@);
                    if k < i {
                        assert(out@[k] == prev[k]);
                        assert(files_seq_view(prev)[k] == prev[k]@);
                        assert(fsv.take(i as int)[k] == fsv.take(i + 1)[k]);
                    } else {
                        assert(out@[k] == g);
                    }
                }
                assert(files_seq_view(out@) =~= fsv.take(i + 1));
            }
            i = i + 1;
        }
        proof {
            assert(fsv.take(n as int) =~= fsv);
        }
        let d = Directory { files: out };
        proof {
            lemma_directory_view(&d);
            assert(d@ =~= fsv);
        }
        d
    }

    /// The directory as a crash at this moment would leave it: every
    /// file cut back to its durable prefix.
    pub fn simulate_crash(&self) -> (r: Directory)
        requires
            self.wf(),
        ensures
            r@ == crashed_files(self.files_model()),
            r.wf(),
    {
        let ghost fsv = self.files_model();
        let n = self.files.len();
        let mut out: Vec<StoredFile> = Vec::new();
        let mut i: usize = 0;
        while i < n
            invariant
                0 <= i <= n,
                n == self.files@.len(),
                fsv == self.files_model(),
                self.wf(),
                files_seq_view(out@) =~= crashed_files(fsv.take(i as int)),
            decreases n - i,
        {
            let f = &self.files[i];
            proof {
                assert(fsv[i as int] == f@);
                assert(fsv[i as int].wf());
            }
            let name = slice_to_vec(f.name.as_slice());
            let data = slice_to_vec(slice_subrange(f.data.as_slice(), 0, f.durable_len));
            let g = StoredFile { name, data, durable_len: f.durable_len };
            proof {
                assert(g@ == fsv[i as int].crashed());
            }
            let ghost prev = out@;
            out.push(g);
            proof {
                assert(fsv.take(i + 1).drop_last() =~= fsv.take(i as int));
                assert(out@ =~= prev.push(g));
                assert(files_seq_view(prev).len() == prev.len());
                assert(crashed_files(fsv.take(i as int)).len() == i);
                assert(prev.len() == i);
                assert(out@.len() == i + 1);
                assert forall|k: int| 0 <= k < i + 1 implies files_seq_view(out@)[k]
                    == crashed_files(fsv.take(i + 1))[k] by {
                    assert(crashed_files(fsv.take(i + 1))[k] == fsv.take(i + 1)[k].crashed());
                    assert(files_seq_view(out@)[k] == out@[k]@);
                    if k < i {
                        assert(out@[k] == prev[k]);
                        assert(files_seq_view(prev)[k] == prev[k]@);
                        assert(files_seq_view(prev)[k] == crashed_files(fsv.take(i as int))[k]);
                        assert(crashed_files(fsv.take(i as int))[k] == fsv.take(i as int)[k].crashed());
                        assert(fsv.take(i as int)[k] == fsv.take(i + 1)[k]);
                    } else {
                        assert(out@[k] == g);
                    }
                }
                assert(files_seq_view(out@) =~= crashed_files(fsv.take(i + 1)));
            }
            i = i + 1;
        }
        proof {
            assert(fsv.take(n as int) =~= fsv);
        }
        let d = Directory { files: out };
        proof {
            lemma_directory_view(&d);
            assert forall|k: int| 0 <= k < d@.len() implies (#[trigger] d@[k]).wf() by {
                assert(d@[k] == fsv[k].crashed());
                assert(fsv[k].wf());
            }
            assert forall|a: int, b: int| 0 <= a < b < d@.len() implies (#[trigger] d@[a]).name != (
            #[trigger] d@[b]).name by {
                assert(d@[a].name == fsv[a].name);
                assert(d@[b].name == fsv[b].name);
            }
        }
        d
    }

    /// How many segments are open for append.
    pub fn active_segment_count(&self) -> (r: usize)
        ensures
            r == self.active_count(),
    {
        self.active.len()
    }

    /// Drop every open segment and discard the whole store. The
    /// sequence counters survive, so sequence numbers are never reused
    /// within this process.
    pub fn shutdown(&mut self) -> (r: Result<(), WalError>)
        requires
            old(self).wf(),
        ensures
            final(self).wf(),
            r is Ok,
            final(self).files_model() == Seq::<FileModel>::empty(),
            final(self).active_count() == 0,
            final(self).options_spec() == old(self).options_spec(),
            forall|h: u64| #[trigger] final(self).next_seq_of(h) == old(self).next_seq_of(h),
    {
        self.active.clear();
        self.files.clear();
        proof {
            assert(self.files_model() =~= Seq::<FileModel>::empty());
        }
        Ok(())
    }


    /// What segment acquisition guarantees when it hands back the
    /// index of the active entry for the key.
    spec fn goc_post(w0: Wal, w1: Wal, key: &str, now: u64, idx: int) -> bool {
        let h = fnv1a(key.spec_bytes());
        let reuse = w0.has_active(h) && now < w0.active_expiration(h);
        let a = w1.active@[idx];
        &&& 0 <= idx < w1.active@.len()
        &&& active_find(w1.active@, h) == idx
        &&& a.key_hash == h
        &&& w1.has_active(h)
        &&& (forall|h2: u64| h2 != h ==> #[trigger] w1.next_seq_of(h2) == w0.next_seq_of(h2))
        &&& (forall|h2: u64|
            h2 != h ==> ((active_find(w1.active@, h2) >= 0) <==> (#[trigger] active_find(
                w0.active@,
                h2,
            ) >= 0)))
        &&& (w0.routing_clean(key@) ==> a.key_chars@ == key@ && w1.routing_clean(key@))
        &&& if reuse {
            &&& w1.files_model() == w0.files_model()
            &&& w1.active@ == w0.active@
            &&& w1.next_seq@ == w0.next_seq@
        } else {
            &&& a.key_bytes@ == key.spec_bytes()
            &&& a.key_chars@ == key@
            &&& a.sequence_number == alloc_seq(w0.next_seq_of(h))
            &&& a.expiration_timestamp == expiration_of(
                now,
                w0.options_spec().spec_segment_duration(),
            )
            &&& w0.next_seq_of(h) != u64::MAX
            &&& w1.files_model() == w0.files_model().push(
                FileModel {
                    name: a.file_name@,
                    data: segment_header_bytes(a.expiration_timestamp, a.key_bytes@),
                    durable_len: 0,
                },
            )
            &&& w1.active_count() == w0.active_count() + (if w0.has_active(h) {
                0int
            } else {
                1int
            })
            &&& w1.next_seq_of(h) == a.sequence_number + 1
        }
    }

    /// Find or create the active segment for a key at time `now`:
    /// drop the active segment if it has expired, and then, if none is
    /// open, allocate the next sequence number, write a fresh segment
    /// file holding only its header, and install it in the table.
    #[verifier::rlimit(100)]
    #[verifier::spinoff_prover]
    fn get_or_create_active_segment(&mut self, key: &str, now: u64) -> (r: Result<usize, WalError>)
        requires
            old(self).wf(),
        ensures
            final(self).wf(),
            final(self).options_spec() == old(self).options_spec(),
            ({
                let h = fnv1a(key.spec_bytes());
                let reuse = old(self).has_active(h) && now < old(self).active_expiration(h);
                let alloc_ok = key.spec_bytes().len() + 32 <= u64::MAX && old(self).next_seq_of(h)
                    != u64::MAX;
                &&& (r is Ok <==> (reuse || alloc_ok))
                &&& (r matches Err(e) ==> e is Io && *final(self) == *old(self))
                &&& (r matches Ok(idx) ==> Wal::goc_post(*old(self), *final(self), key, now, idx as int))
            }),
    {
        let key_bv = key.as_bytes_vec();
        let h = key_hash_of(key.as_bytes());
        let ghost fs0 = self.files_model();
        let ghost t0 = self.next_seq@;
        let ghost acts0 = self.active@;
        let found = find_active_index(&self.active, h);
        match found {
            Some(i) => {
                if now < self.active[i].expiration_timestamp {
                    return Ok(i);
                }
            },
            None => {},
        }
        let next = table_get(&self.next_seq, h);
        if next == u64::MAX {
            return Err(WalError::Io("sequence numbers for this key are exhausted".to_owned()));
        }
        if key_bv.len() as u64 > u64::MAX - 32 {
            return Err(WalError::Io("key is too large for a segment file header".to_owned()));
        }
        let seq: u64 = if next == 0 {
            1
        } else {
            next
        };
        match found {
            Some(i) => {
                proof {
                    lemma_active_find(acts0, h);
                }
                let _dropped = self.active.remove(i);
                proof {
                    assert(self.active@ =~= acts0.remove(i as int));
                    assert forall|j: int| 0 <= j < self.active@.len() implies (
                    #[trigger] self.active@[j]).key_hash != h by {
                        if j < i {
                            assert(self.active@[j] == acts0[j]);
                        } else {
                            assert(self.active@[j] == acts0[j + 1]);
                            assert(acts0[i as int].key_hash == acts0[j + 1].key_hash ==> false);
                        }
                    }
                }
            },
            None => {
                proof {
                    lemma_active_find(acts0, h);
                }
            },
        }
        let ghost acts_mid = self.active@;
        proof {
            assert forall|j: int| 0 <= j < acts_mid.len() implies (#[trigger] acts_mid[j]).key_hash
                != h by {}
            assert forall|j: int| 0 <= j < acts_mid.len() implies exists|j0: int|
                0 <= j0 < acts0.len() && acts0[j0] == #[trigger] acts_mid[j] by {
                match found {
                    Some(i) => {
                        if j < i {
                            assert(acts_mid[j] == acts0[j]);
                        } else {
                            assert(acts_mid[j] == acts0[j + 1]);
                        }
                    },
                    None => {
                        assert(acts_mid[j] == acts0[j]);
                    },
                }
            }
        }
        let hl: u64 = 32 + key_bv.len() as u64;
        let dur = self.options.segment_duration();
        let exp: u64 = if now > u64::MAX - dur {
            u64::MAX
        } else {
            now + dur
        };
        let san = sanitize_key(key);
        let name = build_filename(&san, h, seq);
        let name_copy = slice_to_vec(name.as_slice());
        let data = encode_segment_header(exp, key_bv.as_slice());
        table_set(&mut self.next_seq, h, seq + 1);
        let sf = StoredFile { name, data, durable_len: 0 };
        let ghost newfm = sf@;
        self.files.push(sf);
        let a = ActiveSegment {
            key_hash: h,
            file_name: name_copy,
            sequence_number: seq,
            expiration_timestamp: exp,
            header_len: hl,
            key_bytes: Ghost(key.spec_bytes()),
            key_chars: Ghost(key@),
        };
        let idx = self.active.len();
        self.active.push(a);
        proof {
            let kb = key.spec_bytes();
            let san_s = sanitized_key(key@);
            let fs1 = self.files_model();
            let t1 = self.next_seq@;
            let acts1 = self.active@;
            assert(san@ == san_s);
            assert(newfm.name == generate_filename(san_s, h, seq));
            assert(newfm.data == segment_header_bytes(exp, kb));
            assert(fs1 =~= fs0.push(newfm));
            lemma_filename_round_trip(san_s, h, seq);
            assert(parse_filename(newfm.name) == Some((h, seq)));
            // the new name is fresh
            assert forall|i: int| 0 <= i < fs0.len() implies (#[trigger] fs0[i]).name
                != newfm.name by {
                if fs0[i].name == newfm.name {
                    assert(file_seq_bounded(fs0[i], t0));
                    assert(parse_filename(fs0[i].name) == Some((h, seq)));
                    assert(seq < table_lookup(t0, h) || table_lookup(t0, h) == u64::MAX);
                }
            }
            // distinct names
            assert forall|i: int, j: int| 0 <= i < j < fs1.len() implies (#[trigger] fs1[i]).name
                != (#[trigger] fs1[j]).name by {
                if j < fs0.len() {
                    assert(fs1[i] == fs0[i] && fs1[j] == fs0[j]);
                } else {
                    assert(fs1[j] == newfm && fs1[i] == fs0[i]);
                }
            }
            assert forall|i: int| 0 <= i < fs1.len() implies (#[trigger] fs1[i]).wf() by {
                if i < fs0.len() {
                    assert(fs1[i] == fs0[i]);
                }
            }
            // sequence bounds under the new table
            assert(table_lookup(t1, h) == seq + 1);
            assert forall|i: int| 0 <= i < fs1.len() implies file_seq_bounded(
                #[trigger] fs1[i],
                t1,
            ) by {
                if i < fs0.len() {
                    assert(fs1[i] == fs0[i]);
                    assert(file_seq_bounded(fs0[i], t0));
                    match parse_filename(fs0[i].name) {
                        Some(p) => {
                            if p.0 == h {
                                assert(p.1 < table_lookup(t0, h));
                                assert(table_lookup(t0, h) <= seq);
                            }
                        },
                        None => {},
                    }
                } else {
                    assert(fs1[i] == newfm);
                }
            }
            // active table: distinct hashes
            assert forall|i: int, j: int| 0 <= i < j < acts1.len() implies (
            #[trigger] acts1[i]).key_hash != (#[trigger] acts1[j]).key_hash by {
                if j < acts_mid.len() {
                    assert(acts1[i] == acts_mid[i] && acts1[j] == acts_mid[j]);
                    match found {
                        Some(r) => {
                            let i0: int = if i < r { i } else { i + 1 };
                            let j0: int = if j < r { j } else { j + 1 };
                            assert(acts_mid[i] == acts0[i0]);
                            assert(acts_mid[j] == acts0[j0]);
                            assert(acts0[i0].key_hash != acts0[j0].key_hash);
                        },
                        None => {
                            assert(acts_mid[i] == acts0[i] && acts_mid[j] == acts0[j]);
                        },
                    }
                } else {
                    assert(acts1[j] == a);
                    assert(acts1[i] == acts_mid[i]);
                    assert(acts_mid[i].key_hash != h);
                }
            }
            // the new entry is well-formed
            assert(kb == vstd::utf8::encode_utf8(key@));
            assert(active_file_ok(a, newfm)) by {
                assert(newfm.data.len() == 32 + kb.len());
                assert(newfm.data.take(hl as int) =~= newfm.data);
                assert(well_framed_from(newfm.data, hl as int));
            }
            assert(active_entry_wf(a, fs1, t1)) by {
                assert(fs1[fs1.len() - 1].name == a.file_name@);
                assert forall|i: int|
                    0 <= i < fs1.len() && (#[trigger] fs1[i]).name == a.file_name@ implies
                    active_file_ok(a, fs1[i]) by {
                    if i < fs0.len() {
                        assert(fs0[i].name != newfm.name);
                    } else {
                        assert(fs1[i] == newfm);
                    }
                }
                assert forall|i: int|
                    0 <= i < fs1.len() && (#[trigger] fs1[i]).name != a.file_name@ implies
                    older_segment(a, fs1[i]) by {
                    if i < fs0.len() {
                        assert(fs1[i] == fs0[i]);
                        assert(file_seq_bounded(fs0[i], t0));
                        match parse_filename(fs0[i].name) {
                            Some(p) => {
                                if p.0 == h {
                                    assert(p.1 < table_lookup(t0, h));
                                    assert(table_lookup(t0, h) <= seq);
                                }
                            },
                            None => {},
                        }
                    } else {
                        assert(fs1[i] == newfm);
                    }
                }
            }
            // the surviving entries stay well-formed
            assert forall|j: int| 0 <= j < acts1.len() implies active_entry_wf(
                #[trigger] acts1[j],
                fs1,
                t1,
            ) by {
                if j < acts_mid.len() {
                    let a2 = acts_mid[j];
                    assert(acts1[j] == a2);
                    let j0 = choose|j0: int| 0 <= j0 < acts0.len() && acts0[j0] == a2;
                    assert(active_entry_wf(a2, fs0, t0));
                    assert(a2.key_hash != h);
                    assert(table_lookup(t1, a2.key_hash) == table_lookup(t0, a2.key_hash));
                    let w = choose|w: int| 0 <= w < fs0.len() && (#[trigger] fs0[w]).name
                        == a2.file_name@;
                    assert(fs1[w].name == a2.file_name@);
                    assert(parse_filename(a2.file_name@) == Some((a2.key_hash, a2.sequence_number)))
                        by {
                        lemma_filename_round_trip(
                            sanitized_key(a2.key_chars@),
                            a2.key_hash,
                            a2.sequence_number,
                        );
                    }
                    assert(newfm.name != a2.file_name@);
                    assert forall|i: int|
                        0 <= i < fs1.len() && (#[trigger] fs1[i]).name == a2.file_name@ implies
                        active_file_ok(a2, fs1[i]) by {
                        if i < fs0.len() {
                            assert(fs1[i] == fs0[i]);
                        } else {
                            assert(fs1[i] == newfm);
                        }
                    }
                    assert forall|i: int|
                        0 <= i < fs1.len() && (#[trigger] fs1[i]).name != a2.file_name@ implies
                        older_segment(a2, fs1[i]) by {
                        if i < fs0.len() {
                            assert(fs1[i] == fs0[i]);
                        } else {
                            assert(fs1[i] == newfm);
                            assert(parse_filename(newfm.name) == Some((h, seq)));
                        }
                    }
                } else {
                    assert(acts1[j] == a);
                }
            }
            // position of the new entry in the table
            assert forall|j: int| 0 <= j < idx as int implies (#[trigger] acts1[j]).key_hash
                != h by {
                assert(acts1[j] == acts_mid[j]);
            }
            lemma_active_find_is_first(acts1, h, idx as int);
            // routing stays clean for this key
            if old(self).routing_clean(key@) {
                assert forall|i: int|
                    0 <= i < fs1.len() && name_matches_key((#[trigger] fs1[i]).name, san_s, h)
                    implies parse_filename(fs1[i].name).unwrap().0 == h by {
                    if i < fs0.len() {
                        assert(fs1[i] == fs0[i]);
                        assert(files_route_to(fs0, san_s, h));
                    } else {
                        assert(fs1[i] == newfm);
                    }
                }
                assert forall|i: int|
                    0 <= i < acts1.len() && (#[trigger] acts1[i]).key_hash == h implies
                    acts1[i].key_chars@ == key@ by {
                    if i < acts_mid.len() {
                        assert(acts_mid[i].key_hash != h);
                    } else {
                        assert(acts1[i] == a);
                    }
                }
            }
            assert(self.active_count() == acts0.len() + (if active_find(acts0, h) >= 0 {
                0int
            } else {
                1int
            }));
            // other hashes keep or lose no active entry
            assert forall|h2: u64|
                h2 != h implies ((active_find(acts1, h2) >= 0) <==> (active_find(acts0, h2)
                >= 0)) by {
                lemma_active_find(acts1, h2);
                lemma_active_find(acts0, h2);
                if active_find(acts1, h2) >= 0 {
                    let j = active_find(acts1, h2);
                    assert(acts1[j].key_hash == h2);
                    assert(j < acts_mid.len()) by {
                        if j == acts_mid.len() {
                            assert(acts1[j] == a);
                        }
                    }
                    assert(acts1[j] == acts_mid[j]);
                    match found {
                        Some(rr) => {
                            let j0: int = if j < rr {
                                j
                            } else {
                                j + 1
                            };
                            assert(acts_mid[j] == acts0[j0]);
                            assert(acts0[j0].key_hash == h2);
                        },
                        None => {
                            assert(acts_mid[j] == acts0[j]);
                            assert(acts0[j].key_hash == h2);
                        },
                    }
                }
                if active_find(acts0, h2) >= 0 {
                    let j0 = active_find(acts0, h2);
                    assert(acts0[j0].key_hash == h2);
                    match found {
                        Some(rr) => {
                            assert(acts0[rr as int].key_hash == h);
                            assert(j0 != rr);
                            let j: int = if j0 < rr {
                                j0
                            } else {
                                j0 - 1
                            };
                            assert(acts_mid[j] == acts0[j0]);
                            assert(acts1[j] == acts_mid[j]);
                            assert(acts1[j].key_hash == h2);
                        },
                        None => {
                            assert(acts1[j0] == acts0[j0]);
                            assert(acts1[j0].key_hash == h2);
                        },
                    }
                }
            }
        }
        Ok(idx)
    }
}

} // verus!

verus! {

/// The bytes of an optional record header; empty when absent.
pub open spec fn header_view(header: Option<Vec<u8>>) -> Seq<u8> {
    match header {
        Some(h) => h@,
        None => seq![],
    }
}

/// The contents of a batch's entries, in batch order.
pub open spec fn batch_contents(entries: Seq<(&str, Option<Vec<u8>>, Vec<u8>)>) -> Seq<Seq<u8>> {
    Seq::new(entries.len(), |i: int| entries[i].2@)
}

/// Crashing commutes with replacing one file.
proof fn lemma_crashed_update(fs: Seq<FileModel>, k: int, f2: FileModel)
    requires
        0 <= k < fs.len(),
    ensures
        crashed_files(fs.update(k, f2)) == crashed_files(fs).update(k, f2.crashed()),
{
    assert(crashed_files(fs.update(k, f2)) =~= crashed_files(fs).update(k, f2.crashed()));
}

/// Crashing commutes with adding a file.
proof fn lemma_crashed_push(fs: Seq<FileModel>, f: FileModel)
    ensures
        crashed_files(fs.push(f)) == crashed_files(fs).push(f.crashed()),
{
    assert(crashed_files(fs.push(f)) =~= crashed_files(fs).push(f.crashed()));
}

/// A successful read is unaffected by a file added at the end of the
/// directory.
proof fn lemma_read_back_push(fs: Seq<FileModel>, f: FileModel, h2: u64, s2: u64, o2: u64)
    requires
        read_back(fs, h2, s2, o2) is Some,
    ensures
        read_back(fs.push(f), h2, s2, o2) == read_back(fs, h2, s2, o2),
{
    let i = find_segment_idx(fs, h2, s2);
    lemma_find_segment_idx(fs, h2, s2);
    lemma_find_segment_idx_push(fs, f, h2, s2);
    assert(fs.push(f)[i] == fs[i]);
}

/// A successful read is unaffected by replacing one file with an
/// extension of itself under the same name.
proof fn lemma_read_back_extend(fs: Seq<FileModel>, k: int, f2: FileModel, h2: u64, s2: u64, o2: u64)
    requires
        0 <= k < fs.len(),
        f2.name == fs[k].name,
        fs[k].data.len() <= f2.data.len(),
        fs[k].data == f2.data.take(fs[k].data.len() as int),
        read_back(fs, h2, s2, o2) is Some,
    ensures
        read_back(fs.update(k, f2), h2, s2, o2) == read_back(fs, h2, s2, o2),
{
    let fs2 = fs.update(k, f2);
    assert forall|i: int| 0 <= i < fs.len() implies (#[trigger] fs[i]).name == (
    #[trigger] fs2[i]).name by {}
    lemma_find_segment_idx_same_names(fs, fs2, h2, s2);
    let i = find_segment_idx(fs, h2, s2);
    lemma_find_segment_idx(fs, h2, s2);
    if i == k {
        assert(crate::codec::read_in_segment(fs[k].data, o2) is Content);
        crate::codec::lemma_read_in_segment_prefix(fs[k].data, f2.data, o2);
        assert(fs2[i] == f2);
    } else {
        assert(fs2[i] == fs[i]);
    }
}

} // verus!

verus! {

/// The model of a segment file after one frame is appended, and, when
/// the append is durable, the whole file is put on stable storage.
pub open spec fn appended_file(f1: FileModel, hv: Seq<u8>, c: Seq<u8>, durable: bool) -> FileModel {
    FileModel {
        name: f1.name,
        data: f1.data + crate::codec::frame_bytes(hv, c),
        durable_len: if durable {
            (f1.data + crate::codec::frame_bytes(hv, c)).len()
        } else {
            f1.durable_len
        },
    }
}

/// What a successful append does to the directory, byte for byte:
/// exactly one segment file — one whose name parses to the reference's
/// hash and sequence number — grows by exactly the frame bytes (the
/// record signature, the header length, the header, the content length,
/// the content); every other file and every earlier byte is untouched.
/// Either that file already existed (first branch), or it is fresh and
/// holds nothing but its segment header before the frame (second
/// branch). In both branches the reference's offset is the frame's
/// position measured from the first byte after the segment file header.
pub open spec fn appends_one_frame(
    w0: Wal,
    w2: Wal,
    hv: Seq<u8>,
    c: Seq<u8>,
    durable: bool,
    er: EntryRef,
) -> bool {
    let fs0 = w0.files_model();
    let fs2 = w2.files_model();
    ||| (exists|k: int|
        {
            &&& 0 <= k < fs0.len()
            &&& parse_filename((#[trigger] fs0[k]).name) == Some(
                (er.key_hash, er.sequence_number),
            )
            &&& crate::codec::records_start(fs0[k].data) == Some(
                fs0[k].data.len() - er.offset,
            )
            &&& fs2 == fs0.update(k, appended_file(fs0[k], hv, c, durable))
        })
    ||| (exists|f: FileModel|
        {
            &&& #[trigger] parse_filename(f.name) == Some((er.key_hash, er.sequence_number))
            &&& crate::codec::records_start(f.data) == Some(f.data.len() as int)
            &&& f.durable_len == 0
            &&& er.offset == 0
            &&& fs2 == fs0.push(f).update(fs0.len() as int, appended_file(f, hv, c, durable))
        })
}

/// Writing one frame at the end of an active segment's file keeps the
/// engine's invariant, makes the new record readable at its reference,
/// and disturbs no read that succeeded before.
#[verifier::rlimit(100)]
#[verifier::spinoff_prover]
proof fn lemma_append_write_effect(
    acts: Seq<ActiveSegment>,
    idx: int,
    fs1: Seq<FileModel>,
    t1: Seq<(u64, u64)>,
    k: int,
    hv: Seq<u8>,
    c: Seq<u8>,
    durable: bool,
    offset: u64,
)
    requires
        files_wf(fs1),
        forall|i: int| 0 <= i < fs1.len() ==> file_seq_bounded(#[trigger] fs1[i], t1),
        forall|i: int, j: int|
            0 <= i < j < acts.len() ==> (#[trigger] acts[i]).key_hash != (
            #[trigger] acts[j]).key_hash,
        forall|j: int| 0 <= j < acts.len() ==> active_entry_wf(#[trigger] acts[j], fs1, t1),
        0 <= idx < acts.len(),
        0 <= k < fs1.len(),
        fs1[k].name == acts[idx].file_name@,
        hv.len() <= 65535,
        c.len() <= u64::MAX,
        offset == fs1[k].data.len() - acts[idx].header_len,
    ensures
        ({
            let a = acts[idx];
            let f1 = fs1[k];
            let f2 = appended_file(f1, hv, c, durable);
            let fs2 = fs1.update(k, f2);
            &&& files_wf(fs2)
            &&& forall|i: int| 0 <= i < fs2.len() ==> file_seq_bounded(#[trigger] fs2[i], t1)
            &&& forall|j: int| 0 <= j < acts.len() ==> active_entry_wf(#[trigger] acts[j], fs2, t1)
            &&& read_back(fs2, a.key_hash, a.sequence_number, offset) == Some(c)
            &&& (durable ==> read_back(crashed_files(fs2), a.key_hash, a.sequence_number, offset)
                == Some(c))
            &&& (forall|h2: u64, s2: u64, o2: u64|
                (#[trigger] read_back(crashed_files(fs1), h2, s2, o2)) is Some ==> read_back(
                    crashed_files(fs2),
                    h2,
                    s2,
                    o2,
                ) == read_back(crashed_files(fs1), h2, s2, o2))
            &&& (forall|h2: u64, s2: u64, o2: u64|
                (#[trigger] read_back(fs1, h2, s2, o2)) is Some ==> read_back(fs2, h2, s2, o2)
                    == read_back(fs1, h2, s2, o2))
            &&& crate::codec::segment_records(f2.data) == crate::codec::segment_records(
                f1.data,
            ).push(c)
        }),
{
    let a = acts[idx];
    let f1 = fs1[k];
    let frame = crate::codec::frame_bytes(hv, c);
    let f2 = appended_file(f1, hv, c, durable);
    let fs2 = fs1.update(k, f2);
    let a_hl = a.header_len;
    assert(active_entry_wf(a, fs1, t1));
    assert(active_file_ok(a, f1));
    lemma_filename_round_trip(sanitized_key(a.key_chars@), a.key_hash, a.sequence_number);
    assert(parse_filename(a.file_name@) == Some((a.key_hash, a.sequence_number)));
    crate::codec::lemma_frame_fields(hv, c);
    assert(f2.data.len() == f1.data.len() + frame.len());
    assert(f1.data =~= f2.data.take(f1.data.len() as int));
    crate::codec::lemma_append_frame_records(f1.data, a_hl as int, hv, c);
    let kb = a.key_bytes@;
    assert(f2.data.take(a_hl as int) =~= f1.data.take(a_hl as int));
    assert(f2.data =~= segment_header_bytes(a.expiration_timestamp, kb) + f2.data.skip(
        a_hl as int,
    ));
    crate::codec::lemma_segment_header_fields(a.expiration_timestamp, kb, f2.data.skip(a_hl as int));
    assert(crate::codec::records_start(f2.data) == Some(a_hl as int));
    assert(f1.data =~= segment_header_bytes(a.expiration_timestamp, kb) + f1.data.skip(a_hl as int));
    crate::codec::lemma_segment_header_fields(a.expiration_timestamp, kb, f1.data.skip(a_hl as int));
    assert(crate::codec::records_start(f1.data) == Some(a_hl as int));
    assert(crate::codec::segment_records(f2.data) == crate::codec::segment_records(f1.data).push(c));
    // files stay well-formed
    assert forall|i: int, j: int| 0 <= i < j < fs2.len() implies (#[trigger] fs2[i]).name != (
    #[trigger] fs2[j]).name by {
        assert(fs2[i].name == fs1[i].name && fs2[j].name == fs1[j].name);
    }
    assert forall|i: int| 0 <= i < fs2.len() implies (#[trigger] fs2[i]).wf() by {
        if i != k {
            assert(fs2[i] == fs1[i]);
        }
    }
    assert forall|i: int| 0 <= i < fs2.len() implies file_seq_bounded(#[trigger] fs2[i], t1) by {
        assert(fs2[i].name == fs1[i].name);
        assert(file_seq_bounded(fs1[i], t1));
    }
    // the active entries stay well-formed
    assert forall|j: int| 0 <= j < acts.len() implies active_entry_wf(
        #[trigger] acts[j],
        fs2,
        t1,
    ) by {
        let a2 = acts[j];
        assert(active_entry_wf(a2, fs1, t1));
        lemma_filename_round_trip(sanitized_key(a2.key_chars@), a2.key_hash, a2.sequence_number);
        let w = choose|w: int| 0 <= w < fs1.len() && (#[trigger] fs1[w]).name == a2.file_name@;
        assert(fs2[w].name == a2.file_name@);
        assert forall|i: int|
            0 <= i < fs2.len() && (#[trigger] fs2[i]).name == a2.file_name@ implies active_file_ok(
            a2,
            fs2[i],
        ) by {
            if i == k {
                assert(f1.name == a2.file_name@);
                assert(a2.key_hash == a.key_hash);
                assert(a2 == a) by {
                    if j < idx {
                        assert(acts[j].key_hash != acts[idx].key_hash);
                    } else if idx < j {
                        assert(acts[idx].key_hash != acts[j].key_hash);
                    }
                }
                assert(active_file_ok(a2, f2)) by {
                    assert(f2.data.take(a_hl as int) == segment_header_bytes(
                        a.expiration_timestamp,
                        kb,
                    ));
                    assert(well_framed_from(f2.data, a_hl as int));
                }
            } else {
                assert(fs2[i] == fs1[i]);
            }
        }
        assert forall|i: int|
            0 <= i < fs2.len() && (#[trigger] fs2[i]).name != a2.file_name@ implies older_segment(
            a2,
            fs2[i],
        ) by {
            assert(fs2[i].name == fs1[i].name);
            assert(older_segment(a2, fs1[i]));
        }
    }
    // the reference reads back to the content
    assert forall|i: int| 0 <= i < fs2.len() && i != k implies parse_filename(
        (#[trigger] fs2[i]).name,
    ) != Some((a.key_hash, a.sequence_number)) by {
        assert(fs2[i].name == fs1[i].name);
        assert(fs1[i].name != a.file_name@) by {
            if fs1[i].name == a.file_name@ {
                assert(fs1[i].name == fs1[k].name);
            }
        }
        assert(older_segment(a, fs1[i]));
    }
    lemma_find_segment_idx_is_first(fs2, a.key_hash, a.sequence_number, k);
    assert(crate::codec::parse_frame(f2.data, f1.data.len() as int) == Some(
        (c, f2.data.len() as int),
    )) by {
        crate::codec::lemma_frame_at_end(f1.data, hv, c);
    }
    assert(a_hl + offset == f1.data.len());
    assert(crate::codec::read_frame_at(f2.data, f1.data.len() as int) == FrameReadOutcome::Content(
        c,
    )) by {
        crate::codec::lemma_subrange_of_concat_right(f1.data, frame, 0, 6);
        assert(f2.data.subrange(f1.data.len() as int, f1.data.len() as int + 6)
            == crate::codec::rec_signature());
    }
    assert(read_back(fs2, a.key_hash, a.sequence_number, offset) == Some(c));
    if durable {
        let cfs2 = crashed_files(fs2);
        assert forall|i: int| 0 <= i < fs2.len() implies (#[trigger] cfs2[i]).name == (
        #[trigger] fs2[i]).name by {}
        lemma_find_segment_idx_same_names(fs2, cfs2, a.key_hash, a.sequence_number);
        assert(cfs2[k].data =~= f2.data);
        assert(read_back(cfs2, a.key_hash, a.sequence_number, offset) == Some(c));
    }
    lemma_crashed_update(fs1, k, f2);
    assert forall|h2: u64, s2: u64, o2: u64|
        (#[trigger] read_back(crashed_files(fs1), h2, s2, o2)) is Some implies read_back(
        crashed_files(fs2),
        h2,
        s2,
        o2,
    ) == read_back(crashed_files(fs1), h2, s2, o2) by {
        let c1 = crashed_files(fs1);
        let cf2 = f2.crashed();
        assert(c1[k] == f1.crashed());
        assert(cf2.name == c1[k].name);
        assert(c1[k].data.len() <= cf2.data.len());
        assert(c1[k].data =~= cf2.data.take(c1[k].data.len() as int));
        lemma_read_back_extend(c1, k, cf2, h2, s2, o2);
    }
    assert forall|h2: u64, s2: u64, o2: u64|
        (#[trigger] read_back(fs1, h2, s2, o2)) is Some implies read_back(fs2, h2, s2, o2)
            == read_back(fs1, h2, s2, o2) by {
        lemma_read_back_extend(fs1, k, f2, h2, s2, o2);
    }
}

/// Appending a record to the newest segment of a key appends exactly
/// its content to the key's enumeration, and leaves every other key's
/// enumeration alone.
#[verifier::rlimit(100)]
#[verifier::spinoff_prover]
proof fn lemma_append_push_law(
    fs1: Seq<FileModel>,
    k: int,
    f2: FileModel,
    san: Seq<u8>,
    h: u64,
    q: u64,
    c: Seq<u8>,
)
    requires
        names_distinct(fs1),
        0 <= k < fs1.len(),
        fs1[k].name == generate_filename(san, h, q),
        f2.name == fs1[k].name,
        files_route_to(fs1, san, h),
        forall|i: int|
            0 <= i < fs1.len() && i != k ==> (match parse_filename((#[trigger] fs1[i]).name) {
                Some(p) => p.0 == h ==> p.1 < q,
                None => true,
            }),
        crate::codec::segment_records(f2.data) == crate::codec::segment_records(fs1[k].data).push(
            c,
        ),
    ensures
        enum_records_model(fs1.update(k, f2), san, h) == enum_records_model(fs1, san, h).push(c),
        files_route_to(fs1.update(k, f2), san, h),
        forall|san2: Seq<u8>, h2: u64|
            !name_matches_key(generate_filename(san, h, q), san2, h2)
                ==> #[trigger] enum_records_model(fs1.update(k, f2), san2, h2)
                == enum_records_model(fs1, san2, h2),
{
    let fs2 = fs1.update(k, f2);
    lemma_filename_round_trip(san, h, q);
    lemma_filename_has_prefix(san, h, q);
    assert(name_matches_key(fs1[k].name, san, h));
    let ps = matching_pairs(fs1, san, h);
    let m = lemma_matching_pairs_update(fs1, k, f2, san, h);
    assert(parse_filename(fs1[k].name).unwrap().1 == q);
    assert forall|j: int| 0 <= j < ps.len() && j != m implies (#[trigger] ps[j]).0 < q by {
        lemma_pair_source(fs1, san, h, j);
        let src = pair_source(fs1, san, h, j);
        assert(src != k) by {
            if j < m {
                lemma_pair_source_mono(fs1, san, h, j, m);
            } else {
                lemma_pair_source_mono(fs1, san, h, m, j);
            }
        }
        assert(parse_filename(fs1[src].name).unwrap().0 == h);
    }
    let ps2 = matching_pairs(fs2, san, h);
    assert(ps2 == ps.update(m, (q, f2)));
    assert(ps[m] == (q, fs1[k]));
    lemma_sort_extract_max(ps, m);
    assert forall|j: int| 0 <= j < ps2.len() && j != m implies (#[trigger] ps2[j]).0 < ps2[m].0 by {
        assert(ps2[j] == ps[j]);
    }
    lemma_sort_extract_max(ps2, m);
    assert(ps2.remove(m) =~= ps.remove(m));
    lemma_records_concat_push(sort_pairs(ps.remove(m)), (q, fs1[k]));
    lemma_records_concat_push(sort_pairs(ps.remove(m)), (q, f2));
    assert(enum_records_model(fs2, san, h) == records_concat(sort_pairs(ps.remove(m)))
        + crate::codec::segment_records(f2.data));
    assert(enum_records_model(fs1, san, h) == records_concat(sort_pairs(ps.remove(m)))
        + crate::codec::segment_records(fs1[k].data));
    assert(enum_records_model(fs2, san, h) =~= enum_records_model(fs1, san, h).push(c));
    assert forall|i: int|
        0 <= i < fs2.len() && name_matches_key((#[trigger] fs2[i]).name, san, h) implies
        parse_filename(fs2[i].name).unwrap().0 == h by {
        assert(fs2[i].name == fs1[i].name);
    }
    assert forall|san2: Seq<u8>, h2: u64|
        !name_matches_key(generate_filename(san, h, q), san2, h2)
        implies #[trigger] enum_records_model(fs2, san2, h2) == enum_records_model(
        fs1,
        san2,
        h2,
    ) by {
        lemma_matching_pairs_update_nonmatching(fs1, k, f2, san2, h2);
    }
}


/// Creating a fresh segment file that holds only its header changes no
/// key's enumeration and disturbs no read.
#[verifier::rlimit(100)]
#[verifier::spinoff_prover]
proof fn lemma_create_segment_effect(
    fs0: Seq<FileModel>,
    newfm: FileModel,
    san: Seq<u8>,
    h: u64,
    q: u64,
)
    requires
        forall|i: int| 0 <= i < fs0.len() ==> (#[trigger] fs0[i]).name != newfm.name,
        newfm.name == generate_filename(san, h, q),
        crate::codec::records_start(newfm.data) == Some(newfm.data.len() as int),
        files_route_to(fs0, san, h),
        forall|i: int|
            0 <= i < fs0.len() ==> (match parse_filename((#[trigger] fs0[i]).name) {
                Some(p) => p.0 == h ==> p.1 < q,
                None => true,
            }),
    ensures
        enum_records_model(fs0.push(newfm), san, h) == enum_records_model(fs0, san, h),
        files_route_to(fs0.push(newfm), san, h),
        forall|san2: Seq<u8>, h2: u64|
            !name_matches_key(generate_filename(san, h, q), san2, h2)
                ==> #[trigger] enum_records_model(fs0.push(newfm), san2, h2) == enum_records_model(
                fs0,
                san2,
                h2,
            ),
        forall|h2: u64, s2: u64, o2: u64|
            (#[trigger] read_back(fs0, h2, s2, o2)) is Some ==> read_back(
                fs0.push(newfm),
                h2,
                s2,
                o2,
            ) == read_back(fs0, h2, s2, o2),
        forall|h2: u64, s2: u64, o2: u64|
            (#[trigger] read_back(crashed_files(fs0), h2, s2, o2)) is Some ==> read_back(
                crashed_files(fs0.push(newfm)),
                h2,
                s2,
                o2,
            ) == read_back(crashed_files(fs0), h2, s2, o2),
{
    let fs1 = fs0.push(newfm);
    lemma_filename_round_trip(san, h, q);
    lemma_filename_has_prefix(san, h, q);
    // the new file holds no records
    crate::codec::lemma_records_at_len(newfm.data);
    assert(crate::codec::segment_records(newfm.data) =~= Seq::<Seq<u8>>::empty());
    // its pair sorts last and contributes nothing
    let ps = matching_pairs(fs0, san, h);
    assert(fs1.drop_last() =~= fs0);
    assert(fs1.last() == newfm);
    let pr = (q, newfm);
    assert(matching_pairs(fs1, san, h) == ps + seq![pr]);
    assert(ps.push(pr) =~= ps + seq![pr]);
    assert(matching_pairs(fs1, san, h) == ps.push(pr));
    assert(ps.push(pr).drop_last() =~= ps);
    assert(ps.push(pr).last() == pr);
    assert(sort_pairs(ps.push(pr)) == insert_pair(sort_pairs(ps), pr));
    lemma_sort_pairs_membership(ps);
    let sp = sort_pairs(ps);
    assert(sp.len() == 0 || pr.0 >= sp.last().0) by {
        if sp.len() > 0 {
            assert(ps.contains(sp.last()));
            let j = choose|j: int| 0 <= j < ps.len() && ps[j] == sp.last();
            lemma_pair_source(fs0, san, h, j);
            let src = pair_source(fs0, san, h, j);
            assert(parse_filename(fs0[src].name).unwrap().0 == h);
        }
    }
    lemma_insert_pair_at_end(sp, pr);
    lemma_records_concat_push(sp, pr);
    assert(enum_records_model(fs1, san, h) =~= enum_records_model(fs0, san, h));
    // routing stays clean
    assert forall|i: int|
        0 <= i < fs1.len() && name_matches_key((#[trigger] fs1[i]).name, san, h) implies
        parse_filename(fs1[i].name).unwrap().0 == h by {
        if i < fs0.len() {
            assert(fs1[i] == fs0[i]);
        } else {
            assert(fs1[i] == newfm);
        }
    }
    // other keys see the same pairs
    assert forall|san2: Seq<u8>, h2: u64|
        !name_matches_key(generate_filename(san, h, q), san2, h2)
        implies #[trigger] enum_records_model(fs1, san2, h2) == enum_records_model(
        fs0,
        san2,
        h2,
    ) by {
        lemma_matching_pairs_push_nonmatching(fs0, newfm, san2, h2);
    }
    // reads are preserved
    assert forall|h2: u64, s2: u64, o2: u64|
        (#[trigger] read_back(fs0, h2, s2, o2)) is Some implies read_back(fs1, h2, s2, o2)
            == read_back(fs0, h2, s2, o2) by {
        lemma_read_back_push(fs0, newfm, h2, s2, o2);
    }
    lemma_crashed_push(fs0, newfm);
    assert forall|h2: u64, s2: u64, o2: u64|
        (#[trigger] read_back(crashed_files(fs0), h2, s2, o2)) is Some implies read_back(
        crashed_files(fs1),
        h2,
        s2,
        o2,
    ) == read_back(crashed_files(fs0), h2, s2, o2) by {
        lemma_read_back_push(crashed_files(fs0), newfm.crashed(), h2, s2, o2);
    }
}


/// What a successful append promises of reads: the new record reads
/// back at its reference, durably so for a durable append, and every
/// read that succeeded before, against the live files or against their
/// durable prefixes, returns the same bytes.
pub open spec fn append_preserves_reads(
    w0: Wal,
    w2: Wal,
    key: &str,
    c: Seq<u8>,
    durable: bool,
    er: EntryRef,
) -> bool {
    let h = fnv1a(key.spec_bytes());
    &&& er.key_hash == h
    &&& read_back(w2.files_model(), er.key_hash, er.sequence_number, er.offset) == Some(c)
    &&& (durable ==> read_back(
        crashed_files(w2.files_model()),
        er.key_hash,
        er.sequence_number,
        er.offset,
    ) == Some(c))
    &&& (forall|h2: u64, s2: u64, o2: u64|
        (#[trigger] read_back(crashed_files(w0.files_model()), h2, s2, o2)) is Some ==> read_back(
            crashed_files(w2.files_model()),
            h2,
            s2,
            o2,
        ) == read_back(crashed_files(w0.files_model()), h2, s2, o2))
    &&& (forall|h2: u64, s2: u64, o2: u64|
        (#[trigger] read_back(w0.files_model(), h2, s2, o2)) is Some ==> read_back(
            w2.files_model(),
            h2,
            s2,
            o2,
        ) == read_back(w0.files_model(), h2, s2, o2))
    &&& w2.active_count() == w0.active_count() + (if w0.has_active(h) {
        0int
    } else {
        1int
    })
    &&& w2.has_active(h)
    &&& (forall|h2: u64| h2 != h ==> ((#[trigger] w2.has_active(h2)) <==> w0.has_active(h2)))
    &&& (forall|h2: u64| h2 != h ==> #[trigger] w2.next_seq_of(h2) == w0.next_seq_of(h2))
    &&& w2.next_seq_of(h) >= w0.next_seq_of(h)
    &&& w2.active_sequence(h) == er.sequence_number
    &&& ((er.sequence_number == alloc_seq(w0.next_seq_of(h)) && er.offset == 0
        && w2.next_seq_of(h) == alloc_seq(w0.next_seq_of(h)) + 1) || (w0.has_active(h)
        && er.sequence_number == w0.active_sequence(h) && er.offset == w0.active_next_offset(h)
        && w2.next_seq_of(h) == w0.next_seq_of(h)))
}

/// What a successful append promises of enumeration, where no other
/// key's files collide with this key's routing: the key's records grow
/// by exactly the new content, and any key whose enumeration cannot
/// match the touched segment file's name sees the same records.
pub open spec fn append_extends_key(w0: Wal, w2: Wal, key: &str, c: Seq<u8>, er: EntryRef) -> bool {
    let h = fnv1a(key.spec_bytes());
    w0.routing_clean(key@) ==> {
        &&& w2.records_for_key(key@) == w0.records_for_key(key@).push(c)
        &&& w2.routing_clean(key@)
        &&& keys_model(w2.files_model()) == (if keys_model(w0.files_model()).contains(key@) {
            keys_model(w0.files_model())
        } else {
            keys_model(w0.files_model()).push(key@)
        })
        &&& (forall|san2: Seq<u8>, h2: u64|
            !name_matches_key(
                generate_filename(sanitized_key(key@), h, er.sequence_number),
                san2,
                h2,
            ) ==> #[trigger] enum_records_model(w2.files_model(), san2, h2) == enum_records_model(
                w0.files_model(),
                san2,
                h2,
            ))
    }
}

/// Reads are preserved across segment acquisition: it either leaves
/// the files alone or adds one file at the end.
#[verifier::rlimit(60)]
#[verifier::spinoff_prover]
proof fn lemma_goc_read_preservation(fs0: Seq<FileModel>, fs1: Seq<FileModel>, pushed: Option<FileModel>)
    requires
        fs1 == (match pushed {
            None => fs0,
            Some(f) => fs0.push(f),
        }),
    ensures
        forall|h2: u64, s2: u64, o2: u64|
            (#[trigger] read_back(fs0, h2, s2, o2)) is Some ==> read_back(fs1, h2, s2, o2)
                == read_back(fs0, h2, s2, o2),
        forall|h2: u64, s2: u64, o2: u64|
            (#[trigger] read_back(crashed_files(fs0), h2, s2, o2)) is Some ==> read_back(
                crashed_files(fs1),
                h2,
                s2,
                o2,
            ) == read_back(crashed_files(fs0), h2, s2, o2),
{
    match pushed {
        None => {},
        Some(f) => {
            assert forall|h2: u64, s2: u64, o2: u64|
                (#[trigger] read_back(fs0, h2, s2, o2)) is Some implies read_back(fs1, h2, s2, o2)
                    == read_back(fs0, h2, s2, o2) by {
                lemma_read_back_push(fs0, f, h2, s2, o2);
            }
            lemma_crashed_push(fs0, f);
            assert forall|h2: u64, s2: u64, o2: u64|
                (#[trigger] read_back(crashed_files(fs0), h2, s2, o2)) is Some implies read_back(
                crashed_files(fs1),
                h2,
                s2,
                o2,
            ) == read_back(crashed_files(fs0), h2, s2, o2) by {
                lemma_read_back_push(crashed_files(fs0), f.crashed(), h2, s2, o2);
            }
        },
    }
}

/// Read preservation composes across two steps.
proof fn lemma_compose_read_preservation(fsa: Seq<FileModel>, fsb: Seq<FileModel>, fsc: Seq<FileModel>)
    requires
        forall|h2: u64, s2: u64, o2: u64|
            (#[trigger] read_back(fsa, h2, s2, o2)) is Some ==> read_back(fsb, h2, s2, o2)
                == read_back(fsa, h2, s2, o2),
        forall|h2: u64, s2: u64, o2: u64|
            (#[trigger] read_back(fsb, h2, s2, o2)) is Some ==> read_back(fsc, h2, s2, o2)
                == read_back(fsb, h2, s2, o2),
    ensures
        forall|h2: u64, s2: u64, o2: u64|
            (#[trigger] read_back(fsa, h2, s2, o2)) is Some ==> read_back(fsc, h2, s2, o2)
                == read_back(fsa, h2, s2, o2),
{
    assert forall|h2: u64, s2: u64, o2: u64|
        (#[trigger] read_back(fsa, h2, s2, o2)) is Some implies read_back(fsc, h2, s2, o2)
            == read_back(fsa, h2, s2, o2) by {
        assert(read_back(fsb, h2, s2, o2) == read_back(fsa, h2, s2, o2));
    }
}

/// The frame write keeps the invariant and preserves reads.
#[verifier::rlimit(100)]
#[verifier::spinoff_prover]
proof fn lemma_append_finish_core(
    w0: Wal,
    w1: Wal,
    w2: Wal,
    key: &str,
    hv: Seq<u8>,
    c: Seq<u8>,
    durable: bool,
    now: u64,
    idx: int,
    k0: int,
    offset: u64,
    er: EntryRef,
)
    requires
        w1.wf(),
        hv.len() <= 65535,
        c.len() <= u64::MAX,
        0 <= idx < w1.active@.len(),
        Wal::goc_post(w0, w1, key, now, idx),
        0 <= k0 < w1.files_model().len(),
        w1.files_model()[k0].name == w1.active@[idx].file_name@,
        w1.files_model()[k0].data.len() <= u64::MAX,
        offset == w1.files_model()[k0].data.len() - w1.active@[idx].header_len,
        w2.files_model() == w1.files_model().update(
            k0,
            appended_file(w1.files_model()[k0], hv, c, durable),
        ),
        w2.active@ == w1.active@,
        w2.next_seq@ == w1.next_seq@,
        w2.options_spec() == w1.options_spec(),
        er == (EntryRef {
            key_hash: w1.active@[idx].key_hash,
            sequence_number: w1.active@[idx].sequence_number,
            offset: offset,
        }),
    ensures
        w2.wf(),
        append_preserves_reads(w0, w2, key, c, durable, er),
{
    let h = fnv1a(key.spec_bytes());
    let a = w1.active@[idx];
    let fs0 = w0.files_model();
    let fs1 = w1.files_model();
    let t1 = w1.next_seq@;
    let f1 = fs1[k0];

            let f2 = appended_file(f1, hv, c, durable);
            let fs2 = w2.files_model();
            let k = k0;
            assert(fs2 =~= fs1.update(k, f2));
            lemma_append_write_effect(
                w2.active@,
                idx,
                fs1,
                t1,
                k,
                hv,
                c,
                durable,
                offset,
            );
            let reuse = w0.has_active(h) && now < w0.active_expiration(h);
            let newfm = FileModel {
                name: a.file_name@,
                data: segment_header_bytes(a.expiration_timestamp, a.key_bytes@),
                durable_len: 0,
            };
            if !reuse {
                lemma_goc_read_preservation(fs0, fs1, Some(newfm));
            } else {
                lemma_goc_read_preservation(fs0, fs1, None);
            }
            // reads that succeeded on the old state still succeed
            lemma_compose_read_preservation(fs0, fs1, fs2);
            lemma_compose_read_preservation(
                crashed_files(fs0),
                crashed_files(fs1),
                crashed_files(fs2),
            );
    assert forall|h2: u64| h2 != h implies #[trigger] w2.next_seq_of(h2) == w0.next_seq_of(
        h2,
    ) by {
        assert(w1.next_seq_of(h2) == w0.next_seq_of(h2));
        assert(w2.next_seq_of(h2) == table_lookup(w2.next_seq@, h2));
        assert(w1.next_seq_of(h2) == table_lookup(w1.next_seq@, h2));
    }
    assert(w2.next_seq_of(h) >= w0.next_seq_of(h)) by {
        assert(w2.next_seq_of(h) == table_lookup(w2.next_seq@, h));
        assert(w1.next_seq_of(h) == table_lookup(w1.next_seq@, h));
    }
    // the table of open segments is untouched by the write
    assert forall|h2: u64| h2 != h implies ((#[trigger] w2.has_active(h2)) <==> w0.has_active(
        h2,
    )) by {
        assert(active_find(w2.active@, h2) == active_find(w1.active@, h2));
    }
    assert(w2.active_sequence(h) == er.sequence_number) by {
        assert(active_find(w2.active@, h) == idx);
    }
    // where the reference points: a fresh segment starts at offset zero,
    // a reused one appends at its end
    let reuse = w0.has_active(h) && now < w0.active_expiration(h);
    assert(w2.next_seq_of(h) == table_lookup(w2.next_seq@, h));
    assert(w1.next_seq_of(h) == table_lookup(w1.next_seq@, h));
    if reuse {
        assert(active_find(w0.active@, h) == idx);
        assert(w0.active_sequence(h) == a.sequence_number);
        assert(w0.active_next_offset(h) == offset) by {
            assert forall|j: int| 0 <= j < k0 implies (#[trigger] fs0[j]).name
                != a.file_name@ by {
                assert(fs1[j].name != fs1[k0].name);
            }
            crate::storage::lemma_name_index_is_first(fs0, a.file_name@, k0);
            assert(active_file_ok(a, fs1[k0]));
        }
    } else {
        assert(er.sequence_number == alloc_seq(w0.next_seq_of(h)));
        assert(w2.next_seq_of(h) == alloc_seq(w0.next_seq_of(h)) + 1);
        let newfm = FileModel {
            name: a.file_name@,
            data: segment_header_bytes(a.expiration_timestamp, a.key_bytes@),
            durable_len: 0,
        };
        assert(fs1 == fs0.push(newfm));
        assert(k0 == fs0.len()) by {
            if k0 < fs0.len() {
                assert(fs1[k0].name == fs1[fs0.len() as int].name);
            }
        }
        assert(fs1[k0] == newfm);
        assert(er.offset == 0) by {
            assert(a.header_len == 32 + a.key_bytes@.len());
            crate::codec::lemma_segment_header_fields(
                a.expiration_timestamp,
                a.key_bytes@,
                Seq::<u8>::empty(),
            );
            assert(newfm.data =~= segment_header_bytes(a.expiration_timestamp, a.key_bytes@)
                + Seq::<u8>::empty());
        }
    }
    assert(w2.wf());
    assert(append_preserves_reads(w0, w2, key, c, durable, er));
}

/// The frame write extends the key's enumeration by the content.
#[verifier::rlimit(100)]
#[verifier::spinoff_prover]
proof fn lemma_append_finish_routing(
    w0: Wal,
    w1: Wal,
    w2: Wal,
    key: &str,
    hv: Seq<u8>,
    c: Seq<u8>,
    durable: bool,
    now: u64,
    idx: int,
    k0: int,
    offset: u64,
    er: EntryRef,
)
    requires
        w0.wf(),
        w1.wf(),
        hv.len() <= 65535,
        c.len() <= u64::MAX,
        0 <= idx < w1.active@.len(),
        Wal::goc_post(w0, w1, key, now, idx),
        0 <= k0 < w1.files_model().len(),
        w1.files_model()[k0].name == w1.active@[idx].file_name@,
        w1.files_model()[k0].data.len() <= u64::MAX,
        offset == w1.files_model()[k0].data.len() - w1.active@[idx].header_len,
        w2.files_model() == w1.files_model().update(
            k0,
            appended_file(w1.files_model()[k0], hv, c, durable),
        ),
        w2.active@ == w1.active@,
        w2.next_seq@ == w1.next_seq@,
        w2.options_spec() == w1.options_spec(),
        er == (EntryRef {
            key_hash: w1.active@[idx].key_hash,
            sequence_number: w1.active@[idx].sequence_number,
            offset: offset,
        }),
    ensures
        append_extends_key(w0, w2, key, c, er),
{
    let h = fnv1a(key.spec_bytes());
    let a = w1.active@[idx];
    let fs0 = w0.files_model();
    let fs1 = w1.files_model();
    let t1 = w1.next_seq@;
    let f1 = fs1[k0];
    let f2 = appended_file(f1, hv, c, durable);
    let fs2 = w2.files_model();
    let k = k0;
    lemma_append_write_effect(w2.active@, idx, fs1, t1, k, hv, c, durable, offset);
    let san = sanitized_key(key@);
    let reuse = w0.has_active(h) && now < w0.active_expiration(h);
    let newfm = FileModel {
        name: a.file_name@,
        data: segment_header_bytes(a.expiration_timestamp, a.key_bytes@),
        durable_len: 0,
    };
    assert(h == fnv1a(vstd::utf8::encode_utf8(key@)));
            // the push law, under clean routing
            if w0.routing_clean(key@) {
                assert(a.key_chars@ == key@);
                assert(a.key_bytes@ == vstd::utf8::encode_utf8(key@));
                assert(a.key_hash == h);
                assert(f1.name == generate_filename(san, h, a.sequence_number));
                if !reuse {
                    assert forall|i: int| 0 <= i < fs0.len() implies (#[trigger] fs0[i]).name
                        != newfm.name by {
                        assert(fs1[i] == fs0[i]);
                        assert(fs1[fs0.len() as int] == newfm);
                        if fs0[i].name == newfm.name {
                            assert(fs1[i].name == fs1[fs0.len() as int].name);
                        }
                    }
                    assert(crate::codec::records_start(newfm.data) == Some(
                        newfm.data.len() as int,
                    )) by {
                        assert(newfm.data =~= segment_header_bytes(
                            a.expiration_timestamp,
                            a.key_bytes@,
                        ) + Seq::<u8>::empty());
                        crate::codec::lemma_segment_header_fields(
                            a.expiration_timestamp,
                            a.key_bytes@,
                            Seq::<u8>::empty(),
                        );
                    }
                    assert forall|i: int|
                        0 <= i < fs0.len() implies (match parse_filename(
                        (#[trigger] fs0[i]).name,
                    ) {
                        Some(p) => p.0 == h ==> p.1 < a.sequence_number,
                        None => true,
                    }) by {
                        assert(file_seq_bounded(fs0[i], w0.next_seq@)) by {
                            assert(w0.wf());
                        }
                    }
                    lemma_create_segment_effect(fs0, newfm, san, h, a.sequence_number);
                    assert(enum_records_model(fs1, san, h) == enum_records_model(fs0, san, h));
                    assert(files_route_to(fs1, san, h));
                } else {
                    assert(fs1 == fs0);
                }
                assert forall|i: int|
                    0 <= i < fs1.len() && i != k implies (match parse_filename(
                    (#[trigger] fs1[i]).name,
                ) {
                    Some(p) => p.0 == h ==> p.1 < a.sequence_number,
                    None => true,
                }) by {
                    assert(fs1[i].name != a.file_name@) by {
                        if fs1[i].name == a.file_name@ {
                            assert(fs1[i].name == fs1[k].name);
                        }
                    }
                    assert(older_segment(a, fs1[i]));
                }
                lemma_append_push_law(fs1, k, f2, san, h, a.sequence_number, c);
                assert(enum_records_model(fs2, san, h) == enum_records_model(fs0, san, h).push(
                    c,
                ));
                assert forall|san2: Seq<u8>, h2: u64|
                    !name_matches_key(generate_filename(san, h, a.sequence_number), san2, h2)
                    implies #[trigger] enum_records_model(fs2, san2, h2) == enum_records_model(
                    fs0,
                    san2,
                    h2,
                ) by {
                    assert(enum_records_model(fs2, san2, h2) == enum_records_model(
                        fs1,
                        san2,
                        h2,
                    ));
                    if !reuse {
                        assert(enum_records_model(fs1, san2, h2) == enum_records_model(
                            fs0,
                            san2,
                            h2,
                        ));
                    }
                }
                assert forall|i: int|
                    0 <= i < w2.active@.len() && (#[trigger] w2.active@[i]).key_hash == h
                    implies w2.active@[i].key_chars@ == key@ by {}
                assert(w2.routing_clean(key@));
                // the key set: the touched file names this very key
                let kb = a.key_bytes@;
                vstd::utf8::encode_utf8_valid_utf8(key@);
                vstd::utf8::encode_utf8_decode_utf8(key@);
                assert(kb == vstd::utf8::encode_utf8(key@));
                assert(crate::filename::name_is_log(a.file_name@)) by {
                    assert(a.file_name@.subrange(
                        a.file_name@.len() - 4,
                        a.file_name@.len() as int,
                    ) =~= crate::filename::dot_log()) by {
                        crate::filename::lemma_seq4_digits(a.sequence_number as nat);
                    }
                }
                let f1k = fs1[k];
                assert(active_file_ok(a, f1k));
                assert(f1k.data =~= segment_header_bytes(a.expiration_timestamp, kb)
                    + f1k.data.skip(a.header_len as int));
                crate::codec::lemma_segment_header_fields(
                    a.expiration_timestamp,
                    kb,
                    f1k.data.skip(a.header_len as int),
                );
                assert(file_key_string(f1k) == Some(key@)) by {
                    assert(crate::codec::segment_key_bytes(f1k.data) == Some(kb));
                }
                // the write keeps every file's key
                let f2k = appended_file(f1k, hv, c, durable);
                assert(file_key_string(f2k) == Some(key@)) by {
                    assert(f2k.data =~= segment_header_bytes(a.expiration_timestamp, kb)
                        + f2k.data.skip(a.header_len as int)) by {
                        assert(f2k.data.take(a.header_len as int) =~= f1k.data.take(
                            a.header_len as int,
                        ));
                    }
                    crate::codec::lemma_segment_header_fields(
                        a.expiration_timestamp,
                        kb,
                        f2k.data.skip(a.header_len as int),
                    );
                    assert(crate::codec::segment_key_bytes(f2k.data) == Some(kb));
                }
                assert forall|i: int|
                    0 <= i < fs1.len() implies file_key_string(#[trigger] fs1[i])
                    == file_key_string(#[trigger] fs2[i]) by {
                    if i != k {
                        assert(fs2[i] == fs1[i]);
                    } else {
                        assert(fs2[i] == f2k);
                    }
                }
                lemma_keys_model_pointwise(fs1, fs2);
                if reuse {
                    assert(fs1 == fs0);
                    lemma_keys_model_contains(fs0, k, key@);
                } else {
                    assert(fs1 == fs0.push(newfm));
                    assert(f1k == newfm);
                    lemma_keys_model_push(fs0, newfm);
                }
            }
    assert(append_extends_key(w0, w2, key, c, er));
}

} // verus!

verus! {

impl Wal {
    /// Append one record at wall-clock second `now`: route it to the
    /// key's active segment, rotating or creating one as the policy
    /// demands, write its frame at the end of the segment file, and,
    /// when `durable` is set, put the whole file on stable storage
    /// before returning. The returned reference locates the record for
    /// `read_entry_at`, in this process and after a restart.
    #[verifier::rlimit(100)]
    #[verifier::spinoff_prover]
    pub fn append_entry_at(
        &mut self,
        key: &str,
        header: Option<Vec<u8>>,
        content: Vec<u8>,
        durable: bool,
        now: u64,
    ) -> (r: Result<EntryRef, WalError>)
        requires
            old(self).wf(),
        ensures
            final(self).wf(),
            final(self).options_spec() == old(self).options_spec(),
            ({
                let h = fnv1a(key.spec_bytes());
                let reuse = old(self).has_active(h) && now < old(self).active_expiration(h);
                let alloc_ok = key.spec_bytes().len() + 32 <= u64::MAX && old(self).next_seq_of(h)
                    != u64::MAX;
                &&& (r is Ok <==> (header_view(header).len() <= 65535 && (reuse || alloc_ok)))
                &&& (header_view(header).len() > 65535 ==> (r matches Err(e) && e matches
                    WalError::HeaderTooLarge { size, max } && size == header_view(header).len()
                    && max == 65535))
                &&& (r matches Err(e) ==> *final(self) == *old(self) && (e is HeaderTooLarge
                    || e is Io))
                &&& (r matches Ok(er) ==> append_preserves_reads(
                    *old(self),
                    *final(self),
                    key,
                    content@,
                    durable,
                    er,
                ) && append_extends_key(*old(self), *final(self), key, content@, er))
                &&& (r matches Ok(er) ==> (if reuse {
                    &&& er.sequence_number == old(self).active_sequence(h)
                    &&& er.offset == old(self).active_next_offset(h)
                    &&& final(self).next_seq_of(h) == old(self).next_seq_of(h)
                } else {
                    &&& er.sequence_number == alloc_seq(old(self).next_seq_of(h))
                    &&& er.offset == 0
                    &&& final(self).next_seq_of(h) == er.sequence_number + 1
                }))
                &&& (r matches Ok(er) ==> appends_one_frame(
                    *old(self),
                    *final(self),
                    header_view(header),
                    content@,
                    durable,
                    er,
                ))
            }),
    {
        let hlen = match &header {
            Some(hb) => hb.len(),
            None => 0,
        };
        if hlen > MAX_HEADER_SIZE {
            return Err(WalError::HeaderTooLarge { size: hlen, max: MAX_HEADER_SIZE });
        }
        let ghost fs0 = self.files_model();
        let idx = match self.get_or_create_active_segment(key, now) {
            Ok(i) => i,
            Err(e) => {
                return Err(e);
            },
        };
        let ghost w1 = *self;
        let ghost h = fnv1a(key.spec_bytes());
        let ghost a = self.active@[idx as int];
        let er = self.write_frame_at(key, header, content, durable, now, idx, Ghost(*old(self)));
        proof {
            let w0 = *old(self);
            let reuse = w0.has_active(h) && now < w0.active_expiration(h);
            assert(self.active@ == w1.active@);
            assert(active_find(self.active@, h) == idx as int);
            assert(self.active_sequence(h) == a.sequence_number);
            assert(er.sequence_number == a.sequence_number);
            if reuse {
                assert(w1.active@ == w0.active@);
                assert(active_find(w0.active@, h) == idx as int);
                assert(w0.active_sequence(h) == a.sequence_number);
                assert(a.sequence_number < w0.next_seq_of(h)) by {
                    assert(active_entry_wf(w0.active@[idx as int], w0.files_model(), w0.next_seq@));
                    assert(w0.next_seq_of(h) == table_lookup(w0.next_seq@, h));
                }
                assert(a.sequence_number < alloc_seq(w0.next_seq_of(h)));
                assert(er.sequence_number != alloc_seq(w0.next_seq_of(h)));
            } else {
                assert(a.sequence_number == alloc_seq(w0.next_seq_of(h)));
                if w0.has_active(h) {
                    lemma_active_find(w0.active@, h);
                    assert(w0.active_sequence(h)
                        == w0.active@[active_find(w0.active@, h)].sequence_number);
                    assert(w0.active_sequence(h) < w0.next_seq_of(h)) by {
                        assert(active_entry_wf(
                            w0.active@[active_find(w0.active@, h)],
                            w0.files_model(),
                            w0.next_seq@,
                        ));
                        assert(w0.next_seq_of(h) == table_lookup(w0.next_seq@, h));
                    }
                    assert(w0.active_sequence(h) < alloc_seq(w0.next_seq_of(h)));
                    assert(er.sequence_number != w0.active_sequence(h));
                }
            }
        }
        Ok(er)
    }

    /// Write one record frame at the end of the segment file that the
    /// active entry at `idx` owns, and make it durable if asked.
    #[verifier::rlimit(100)]
    #[verifier::spinoff_prover]
    fn write_frame_at(
        &mut self,
        key: &str,
        header: Option<Vec<u8>>,
        content: Vec<u8>,
        durable: bool,
        now: u64,
        idx: usize,
        Ghost(w0): Ghost<Wal>,
    ) -> (er: EntryRef)
        requires
            old(self).wf(),
            header_view(header).len() <= 65535,
            Wal::goc_post(w0, *old(self), key, now, idx as int),
            w0.wf(),
        ensures
            final(self).wf(),
            final(self).options_spec() == old(self).options_spec(),
            final(self).active@ == old(self).active@,
            final(self).next_seq@ == old(self).next_seq@,
            append_preserves_reads(w0, *final(self), key, content@, durable, er),
            append_extends_key(w0, *final(self), key, content@, er),
            appends_one_frame(w0, *final(self), header_view(header), content@, durable, er),
    {
        let ghost w1 = *old(self);
        let ghost h = fnv1a(key.spec_bytes());
        let ghost a = self.active@[idx as int];
        let ghost fs1 = self.files_model();
        let ghost t1 = self.next_seq@;
        let a_hash = self.active[idx].key_hash;
        let a_seq = self.active[idx].sequence_number;
        let a_hl = self.active[idx].header_len;
        proof {
            assert(active_entry_wf(a, fs1, t1));
            lemma_filename_round_trip(sanitized_key(a.key_chars@), a.key_hash, a.sequence_number);
            assert(parse_filename(a.file_name@) == Some((a.key_hash, a.sequence_number)));
        }
        let fidx = match crate::storage::find_name_index(
            &self.files,
            self.active[idx].file_name.as_slice(),
        ) {
            Some(i) => i,
            None => {
                proof {
                    let w = choose|w: int|
                        0 <= w < fs1.len() && (#[trigger] fs1[w]).name == a.file_name@;
                    assert(false);
                }
                return EntryRef { key_hash: 0, sequence_number: 0, offset: 0 };
            },
        };
        let ghost f1 = fs1[fidx as int];
        proof {
            assert(f1.name == a.file_name@);
            assert(active_file_ok(a, f1));
            assert(f1.data.len() >= a_hl);
        }
        let flen = self.files[fidx].data.len();
        let offset = (flen as u64) - a_hl;
        let ghost hv = header_view(header);
        let empty_hdr: Vec<u8> = Vec::new();
        let hdr_slice: &[u8] = match &header {
            Some(hb) => hb.as_slice(),
            None => empty_hdr.as_slice(),
        };
        proof {
            assert(hdr_slice@ == hv);
            assert(hv.len() <= 65535);
        }
        append_frame(&mut self.files[fidx].data, hdr_slice, content.as_slice());
        if durable {
            let dl = self.files[fidx].data.len();
            self.files[fidx].durable_len = dl;
        }
        let er = EntryRef { key_hash: a_hash, sequence_number: a_seq, offset };
        proof {
            vstd::std_specs::vec::axiom_spec_len(&content);
            assert(content@.len() <= u64::MAX);
            assert(self.files_model() =~= fs1.update(
                fidx as int,
                appended_file(f1, hv, content@, durable),
            ));
            lemma_append_finish_core(
                w0,
                w1,
                *self,
                key,
                hv,
                content@,
                durable,
                now,
                idx as int,
                fidx as int,
                offset,
                er,
            );
            lemma_append_finish_routing(
                w0,
                w1,
                *self,
                key,
                hv,
                content@,
                durable,
                now,
                idx as int,
                fidx as int,
                offset,
                er,
            );
            // byte-for-byte: one file grew by exactly the frame
            let fs0 = w0.files_model();
            let fs2 = self.files_model();
            let reuse = w0.has_active(h) && now < w0.active_expiration(h);
            assert(f1.data =~= segment_header_bytes(a.expiration_timestamp, a.key_bytes@)
                + f1.data.skip(a.header_len as int));
            crate::codec::lemma_segment_header_fields(
                a.expiration_timestamp,
                a.key_bytes@,
                f1.data.skip(a.header_len as int),
            );
            assert(crate::codec::records_start(f1.data) == Some(a.header_len as int));
            if reuse {
                assert(fs1 == fs0);
                let k = fidx as int;
                assert(parse_filename(fs0[k].name) == Some((er.key_hash, er.sequence_number)));
                assert(crate::codec::records_start(fs0[k].data) == Some(
                    fs0[k].data.len() - er.offset,
                ));
                assert(fs2 == fs0.update(k, appended_file(fs0[k], hv, content@, durable)));
            } else {
                let newfm = FileModel {
                    name: a.file_name@,
                    data: segment_header_bytes(a.expiration_timestamp, a.key_bytes@),
                    durable_len: 0,
                };
                assert(fs1 == fs0.push(newfm));
                assert(fidx as int == fs0.len()) by {
                    if (fidx as int) < fs0.len() {
                        assert(fs1[fidx as int].name == fs1[fs0.len() as int].name);
                    }
                }
                assert(f1 == newfm);
                assert(er.offset == 0) by {
                    assert(a.header_len == 32 + a.key_bytes@.len());
                }
                assert(crate::codec::records_start(newfm.data) == Some(newfm.data.len() as int));
                assert(parse_filename(newfm.name) == Some((er.key_hash, er.sequence_number)));
                assert(fs2 == fs0.push(newfm).update(
                    fs0.len() as int,
                    appended_file(newfm, hv, content@, durable),
                ));
            }
            assert(appends_one_frame(w0, *self, hv, content@, durable, er));
        }
        er
    }

}

} // verus!

verus! {

/// The pairs a collection loop gathers, interpreted over the files.
spec fn pairs_model(ps: Seq<(u64, usize)>, fs: Seq<FileModel>) -> Seq<(u64, FileModel)> {
    Seq::new(ps.len(), |j: int| (ps[j].0, fs[ps[j].1 as int]))
}

/// Whether a string is already among the collected keys.
fn contains_string(v: &Vec<String>, s: &String) -> (r: bool)
    ensures
        r == v.deep_view().contains(s@),
{
    let n = v.len();
    let mut i: usize = 0;
    while i < n
        invariant
            0 <= i <= n,
            n == v@.len(),
            forall|j: int| 0 <= j < i ==> (#[trigger] v.deep_view()[j]) != s@,
        decreases n - i,
    {
        if v[i].eq(s) {
            proof {
                assert(v.deep_view()[i as int] == s@);
            }
            return true;
        }
        proof {
            assert(v.deep_view()[i as int] == v@[i as int]@);
        }
        i = i + 1;
    }
    proof {
        if v.deep_view().contains(s@) {
            let j = choose|j: int| 0 <= j < v.deep_view().len() && v.deep_view()[j] == s@;
            assert(v.deep_view()[j] != s@);
        }
    }
    false
}

impl Wal {
    /// Read one record by its reference: find the segment file whose
    /// name carries the reference's hash and sequence number, skip the
    /// file header, advance by the offset, and read one frame. The
    /// result depends on the stored files and the reference alone, and
    /// the log is untouched.
    pub fn read_entry_at(&self, entry_ref: EntryRef) -> (r: Result<Vec<u8>, WalError>)
        ensures
            ({
                let i = find_segment_idx(
                    self.files_model(),
                    entry_ref.key_hash,
                    entry_ref.sequence_number,
                );
                if i < 0 {
                    r matches Err(e) && e is EntryNotFound
                } else {
                    match crate::codec::read_in_segment(
                        self.files_model()[i].data,
                        entry_ref.offset,
                    ) {
                        FrameReadOutcome::Content(c) => r matches Ok(v) && v@ == c,
                        FrameReadOutcome::BadSignature => r matches Err(e) && e is CorruptedData,
                        FrameReadOutcome::ShortRead => r matches Err(e) && e is Io,
                    }
                }
            }),
            read_back(
                self.files_model(),
                entry_ref.key_hash,
                entry_ref.sequence_number,
                entry_ref.offset,
            ) matches Some(c) ==> (r matches Ok(v) && v@ == c),
    {
        let ghost fsv = self.files_model();
        let n = self.files.len();
        let mut i: usize = 0;
        while i < n
            invariant
                0 <= i <= n,
                n == self.files@.len(),
                fsv == self.files_model(),
                forall|j: int|
                    0 <= j < i ==> parse_filename((#[trigger] fsv[j]).name) != Some(
                        (entry_ref.key_hash, entry_ref.sequence_number),
                    ),
            decreases n - i,
        {
            match try_parse_filename(&self.files[i].name) {
                Some((ph, ps)) => {
                    if ph == entry_ref.key_hash && ps == entry_ref.sequence_number {
                        proof {
                            lemma_find_segment_idx_is_first(
                                fsv,
                                entry_ref.key_hash,
                                entry_ref.sequence_number,
                                i as int,
                            );
                        }
                        return read_frame_in_segment(&self.files[i].data, entry_ref.offset);
                    }
                },
                None => {},
            }
            i = i + 1;
        }
        proof {
            lemma_find_segment_idx(fsv, entry_ref.key_hash, entry_ref.sequence_number);
            if find_segment_idx(fsv, entry_ref.key_hash, entry_ref.sequence_number) >= 0 {
                assert(false);
            }
        }
        Err(WalError::EntryNotFound("no segment file carries this hash and sequence number".to_owned()))
    }

    /// Replay every record for a key, in order: collect the segment
    /// files whose names carry the key's prefix, sort them by sequence
    /// number, and read each one's records by the tolerant scan.
    #[verifier::rlimit(100)]
    #[verifier::spinoff_prover]
    pub fn enumerate_records(&self, key: &str) -> (r: Vec<Vec<u8>>)
        ensures
            r.deep_view() == self.records_for_key(key@),
    {
        let san = sanitize_key(key);
        let h = key_hash_of(key.as_bytes());
        let prefix = build_key_prefix(&san, h);
        let ghost fsv = self.files_model();
        let ghost sans = sanitized_key(key@);
        proof {
            assert(prefix@ == key_file_prefix(sans, h));
        }
        let n = self.files.len();
        let mut pairs: Vec<(u64, usize)> = Vec::new();
        let mut i: usize = 0;
        while i < n
            invariant
                0 <= i <= n,
                n == self.files@.len(),
                fsv == self.files_model(),
                prefix@ == key_file_prefix(sans, h),
                forall|j: int| 0 <= j < pairs@.len() ==> (#[trigger] pairs@[j]).1 < n,
                pairs_model(pairs@, fsv) =~= matching_pairs(fsv.take(i as int), sans, h),
            decreases n - i,
        {
            let ghost pre = fsv.take(i as int);
            let ghost cur = fsv.take(i + 1);
            proof {
                assert(cur.drop_last() =~= pre);
                assert(cur.last() == fsv[i as int]);
            }
            if name_matches(&self.files[i].name, &prefix) {
                let sq = match try_parse_filename(&self.files[i].name) {
                    Some((_, sq)) => sq,
                    None => {
                        proof {
                            assert(false);
                        }
                        0
                    },
                };
                let ghost pm0 = pairs_model(pairs@, fsv);
                pairs.push((sq, i));
                proof {
                    assert(pairs_model(pairs@, fsv) =~= pm0.push((sq, fsv[i as int])));
                    assert(matching_pairs(cur, sans, h) =~= matching_pairs(pre, sans, h).push(
                        (sq, fsv[i as int]),
                    ));
                }
            } else {
                proof {
                    assert(matching_pairs(cur, sans, h) =~= matching_pairs(pre, sans, h));
                }
            }
            i = i + 1;
        }
        proof {
            assert(fsv.take(n as int) =~= fsv);
        }
        let ghost allpairs = pairs_model(pairs@, fsv);
        // sort the segments by ascending sequence number, stably
        let m = pairs.len();
        let mut sorted: Vec<(u64, usize)> = Vec::new();
        let mut k: usize = 0;
        while k < m
            invariant
                0 <= k <= m,
                m == pairs@.len(),
                fsv == self.files_model(),
                allpairs == pairs_model(pairs@, fsv),
                forall|j: int| 0 <= j < pairs@.len() ==> (#[trigger] pairs@[j]).1 < fsv.len(),
                forall|j: int| 0 <= j < sorted@.len() ==> (#[trigger] sorted@[j]).1 < fsv.len(),
                pairs_model(sorted@, fsv) =~= sort_pairs(allpairs.take(k as int)),
                sorted_by_seq(pairs_model(sorted@, fsv)),
            decreases m - k,
        {
            let p = pairs[k];
            let ghost sm = pairs_model(sorted@, fsv);
            let ghost pm = (p.0, fsv[p.1 as int]);
            let mut j: usize = sorted.len();
            while j > 0 && p.0 < sorted[j - 1].0
                invariant
                    0 <= j <= sorted@.len(),
                    pm.0 == p.0,
                    forall|t: int|
                        j <= t < sorted@.len() ==> pm.0 < (#[trigger] sorted@[t]).0,
                decreases j,
            {
                j = j - 1;
            }
            proof {
                assert(allpairs.take(k + 1).drop_last() =~= allpairs.take(k as int));
                assert(allpairs.take(k + 1).last() == allpairs[k as int]);
                assert(allpairs[k as int] == pm);
                assert forall|t: int| j <= t < sm.len() implies pm.0 < (#[trigger] sm[t]).0 by {
                    assert(sorted@[t].0 == sm[t].0);
                }
                assert(j == 0 || sm[j - 1].0 <= pm.0) by {
                    if j > 0 {
                        assert(sorted@[j - 1].0 == sm[j - 1].0);
                    }
                }
                lemma_insert_pair_position(sm, pm, j as int);
                lemma_insert_pair_sorted(sm, pm);
            }
            sorted.insert(j, p);
            proof {
                assert(sorted@ =~= sorted@.subrange(0, j as int) + seq![p] + sorted@.subrange(
                    j + 1,
                    sorted@.len() as int,
                ));
                assert(insert_pair(sm, pm) == sm.subrange(0, j as int) + seq![pm] + sm.subrange(
                    j as int,
                    sm.len() as int,
                ));
                assert(pairs_model(sorted@, fsv) =~= insert_pair(sm, pm));
                assert(sort_pairs(allpairs.take(k + 1)) == insert_pair(
                    sort_pairs(allpairs.take(k as int)),
                    pm,
                ));
            }
            k = k + 1;
        }
        proof {
            assert(allpairs.take(m as int) =~= allpairs);
        }
        let ghost sortedm = pairs_model(sorted@, fsv);
        // concatenate the records of each segment, in order
        let sn = sorted.len();
        let mut out: Vec<Vec<u8>> = Vec::new();
        let mut t: usize = 0;
        while t < sn
            invariant
                0 <= t <= sn,
                sn == sorted@.len(),
                fsv == self.files_model(),
                sortedm == pairs_model(sorted@, fsv),
                forall|j: int| 0 <= j < sorted@.len() ==> (#[trigger] sorted@[j]).1 < fsv.len(),
                out.deep_view() =~= records_concat(sortedm.take(t as int)),
            decreases sn - t,
        {
            let fi = sorted[t].1;
            let mut rec = read_records(&self.files[fi].data);
            let ghost outdv = out.deep_view();
            let ghost recdv = rec.deep_view();
            proof {
                assert(recdv == crate::codec::segment_records(fsv[fi as int].data));
                assert(sortedm.take(t + 1).drop_last() =~= sortedm.take(t as int));
                assert(sortedm.take(t + 1).last() == sortedm[t as int]);
            }
            out.append(&mut rec);
            proof {
                assert(out.deep_view() =~= outdv + recdv);
                assert(records_concat(sortedm.take(t + 1)) == records_concat(sortedm.take(t as int))
                    + crate::codec::segment_records(sortedm[t as int].1.data));
                assert(sortedm[t as int].1 == fsv[fi as int]);
            }
            t = t + 1;
        }
        proof {
            assert(sortedm.take(sn as int) =~= sortedm);
            assert(out.deep_view() =~= enum_records_model(fsv, sans, h));
            assert(h == fnv1a(vstd::utf8::encode_utf8(key@)));
        }
        out
    }

    /// List the distinct keys named by the segment file headers, in
    /// order of first appearance. A file whose header is cut short or
    /// carries the wrong signature is skipped.
    #[verifier::rlimit(100)]
    #[verifier::spinoff_prover]
    pub fn enumerate_keys(&self) -> (r: Vec<String>)
        ensures
            r.deep_view() == keys_model(self.files_model()),
    {
        let ghost fsv = self.files_model();
        let n = self.files.len();
        let mut keys: Vec<String> = Vec::new();
        let mut i: usize = 0;
        while i < n
            invariant
                0 <= i <= n,
                n == self.files@.len(),
                fsv == self.files_model(),
                keys.deep_view() =~= keys_model(fsv.take(i as int)),
            decreases n - i,
        {
            let ghost pre = fsv.take(i as int);
            let ghost cur = fsv.take(i + 1);
            proof {
                assert(cur.drop_last() =~= pre);
                assert(cur.last() == fsv[i as int]);
            }
            let name = &self.files[i].name;
            let nn = name.len();
            let data = &self.files[i].data;
            let dn = data.len();
            let mut key_str: Option<String> = None;
            if nn >= 4 && name[nn - 4] == 46u8 && name[nn - 3] == 108u8 && name[nn - 2] == 111u8
                && name[nn - 1] == 103u8 {
                proof {
                    assert(name@.subrange(nn - 4, nn as int) =~= crate::filename::dot_log());
                    assert(crate::filename::name_is_log(name@));
                }
                if dn >= 32 && data[0] == 78u8 && data[1] == 65u8 && data[2] == 78u8 && data[3]
                    == 79u8 && data[4] == 45u8 && data[5] == 76u8 && data[6] == 79u8 && data[7]
                    == 71u8 {
                    proof {
                        assert(data@.subrange(0, 8) =~= crate::codec::log_signature());
                    }
                    let klen_bytes = slice_subrange(data.as_slice(), 24, 32);
                    let klen = vstd::bytes::u64_from_le_bytes(klen_bytes);
                    if klen <= (dn - 32) as u64 {
                        let kb = slice_to_vec(
                            slice_subrange(data.as_slice(), 32, 32 + (klen as usize)),
                        );
                        proof {
                            assert(kb@ =~= data@.subrange(32, 32 + klen as int));
                            assert(crate::codec::segment_key_bytes(data@) == Some(kb@));
                        }
                        key_str = Some(bytes_to_string_lossy(&kb));
                    } else {
                        proof {
                            assert(crate::codec::segment_key_bytes(data@) is None);
                        }
                    }
                } else {
                    proof {
                        if dn >= 8 && crate::codec::has_log_signature(data@) {
                            if dn >= 32 {
                                assert(data@[0] == crate::codec::log_signature()[0]);
                                assert(data@[1] == crate::codec::log_signature()[1]);
                                assert(data@[2] == crate::codec::log_signature()[2]);
                                assert(data@[3] == crate::codec::log_signature()[3]);
                                assert(data@[4] == crate::codec::log_signature()[4]);
                                assert(data@[5] == crate::codec::log_signature()[5]);
                                assert(data@[6] == crate::codec::log_signature()[6]);
                                assert(data@[7] == crate::codec::log_signature()[7]);
                            }
                        }
                        assert(file_key_string(fsv[i as int]) is None);
                    }
                }
            } else {
                proof {
                    if crate::filename::name_is_log(name@) {
                        assert(name@[nn - 4] == crate::filename::dot_log()[0]);
                        assert(name@[nn - 3] == crate::filename::dot_log()[1]);
                        assert(name@[nn - 2] == crate::filename::dot_log()[2]);
                        assert(name@[nn - 1] == crate::filename::dot_log()[3]);
                    }
                    assert(file_key_string(fsv[i as int]) is None);
                }
            }
            match key_str {
                Some(ks) => {
                    proof {
                        let kbv = crate::codec::segment_key_bytes(fsv[i as int].data).unwrap();
                        if vstd::utf8::valid_utf8(kbv) {
                            assert(ks@ == vstd::utf8::decode_utf8(kbv));
                        } else {
                            assert(ks@ == crate::trusted::lossy_utf8(kbv));
                        }
                        assert(file_key_string(fsv[i as int]) == Some(ks@));
                    }
                    let ghost kdv = keys.deep_view();
                    if !contains_string(&keys, &ks) {
                        let ghost ksv = ks@;
                        keys.push(ks);
                        proof {
                            assert(keys.deep_view() =~= kdv.push(ksv));
                        }
                    }
                },
                None => {
                    proof {
                        assert(file_key_string(fsv[i as int]) is None);
                    }
                },
            }
            i = i + 1;
        }
        proof {
            assert(fsv.take(n as int) =~= fsv);
        }
        keys
    }
}

} // verus!

verus! {

/// The active entries that survive compaction at `now`: those whose
/// expiration has not passed, in their old order.
spec fn keep_actives(acts: Seq<ActiveSegment>, now: u64) -> Seq<ActiveSegment>
    decreases acts.len(),
{
    if acts.len() == 0 {
        seq![]
    } else {
        keep_actives(acts.drop_last(), now) + (if now > acts.last().expiration_timestamp {
            seq![]
        } else {
            seq![acts.last()]
        })
    }
}

/// Surviving entries are original entries that have not expired, and
/// every unexpired original entry survives.
proof fn lemma_keep_actives_props(acts: Seq<ActiveSegment>, now: u64)
    ensures
        forall|i: int|
            0 <= i < keep_actives(acts, now).len() ==> now <= (#[trigger] keep_actives(
                acts,
                now,
            )[i]).expiration_timestamp,
        forall|i: int|
            0 <= i < keep_actives(acts, now).len() ==> exists|j: int|
                0 <= j < acts.len() && acts[j] == #[trigger] keep_actives(acts, now)[i],
        forall|j: int|
            0 <= j < acts.len() && now <= (#[trigger] acts[j]).expiration_timestamp
                ==> keep_actives(acts, now).contains(acts[j]),
        forall|a: int, b: int|
            0 <= a < b < keep_actives(acts, now).len() ==> exists|a0: int, b0: int|
                0 <= a0 < b0 < acts.len() && acts[a0] == #[trigger] keep_actives(acts, now)[a]
                    && acts[b0] == #[trigger] keep_actives(acts, now)[b],
    decreases acts.len(),
{
    if acts.len() > 0 {
        lemma_keep_actives_props(acts.drop_last(), now);
        let r0 = keep_actives(acts.drop_last(), now);
        let r = keep_actives(acts, now);
        assert forall|i: int| 0 <= i < r.len() implies now <= (
        #[trigger] r[i]).expiration_timestamp by {
            if i < r0.len() {
                assert(r[i] == r0[i]);
            } else {
                assert(r[i] == acts.last());
            }
        }
        assert forall|i: int| 0 <= i < r.len() implies exists|j: int|
            0 <= j < acts.len() && acts[j] == #[trigger] r[i] by {
            if i < r0.len() {
                assert(r[i] == r0[i]);
                let j = choose|j: int|
                    0 <= j < acts.drop_last().len() && acts.drop_last()[j] == r0[i];
                assert(acts[j] == r[i]);
            } else {
                assert(acts[acts.len() - 1] == r[i]);
            }
        }
        assert forall|j: int|
            0 <= j < acts.len() && now <= (#[trigger] acts[j]).expiration_timestamp implies
            r.contains(acts[j]) by {
            if j < acts.len() - 1 {
                assert(acts.drop_last()[j] == acts[j]);
                assert(r0.contains(acts[j]));
                let i = choose|i: int| 0 <= i < r0.len() && r0[i] == acts[j];
                assert(r[i] == acts[j]);
            } else {
                assert(acts.last() == acts[j]);
                assert(r[r.len() - 1] == acts[j]);
            }
        }
        assert forall|a: int, b: int| 0 <= a < b < r.len() implies exists|a0: int, b0: int|
            0 <= a0 < b0 < acts.len() && acts[a0] == #[trigger] r[a] && acts[b0] == #[trigger] r[b]
            by {
            if b < r0.len() {
                let (a0, b0) = choose|a0: int, b0: int|
                    0 <= a0 < b0 < acts.drop_last().len() && acts.drop_last()[a0] == r0[a]
                        && acts.drop_last()[b0] == r0[b];
                assert(acts[a0] == r[a] && acts[b0] == r[b]);
            } else {
                assert(r[b] == acts.last());
                assert(r[a] == r0[a]);
                let a0 = choose|a0: int|
                    0 <= a0 < acts.drop_last().len() && acts.drop_last()[a0] == r0[a];
                assert(acts[a0] == r[a] && acts[acts.len() - 1] == r[b]);
            }
        }
    }
}

impl Wal {
    /// Whether two logs hold the same active-segment table.
    pub closed spec fn same_active_table(self, other: Wal) -> bool {
        self.active@ == other.active@
    }

    /// Delete every segment file whose expiration lies strictly in the
    /// past, dropping first any open handle to such a file. Files whose
    /// headers are unreadable or carry the wrong signature are kept.
    #[verifier::rlimit(100)]
    #[verifier::spinoff_prover]
    pub fn compact_at(&mut self, now: u64) -> (r: Result<(), WalError>)
        requires
            old(self).wf(),
        ensures
            final(self).wf(),
            r is Ok,
            final(self).files_model() == compact_model(old(self).files_model(), now),
            final(self).options_spec() == old(self).options_spec(),
            forall|h: u64| #[trigger] final(self).next_seq_of(h) == old(self).next_seq_of(h),
            final(self).actives_current(now),
            forall|i: int|
                0 <= i < final(self).files_model().len() ==> !file_expired(
                    #[trigger] final(self).files_model()[i],
                    now,
                ),
            old(self).actives_current(now) ==> final(self).same_active_table(*old(self)),
    {
        let ghost acts0 = self.active@;
        let ghost fs0 = self.files_model();
        let ghost t0 = self.next_seq@;
        // drop the active entries that have expired
        let ghost mut c: int = 0;
        let mut i: usize = 0;
        proof {
            assert(acts0.take(0) =~= Seq::<ActiveSegment>::empty());
            assert(acts0.skip(0) =~= acts0);
            assert(self.active@ =~= keep_actives(acts0.take(0), now) + acts0.skip(0));
        }
        while i < self.active.len()
            invariant
                0 <= c <= acts0.len(),
                i as int == keep_actives(acts0.take(c), now).len(),
                self.active@ =~= keep_actives(acts0.take(c), now) + acts0.skip(c),
                self.files_model() == fs0,
                self.next_seq@ == t0,
                self.options == old(self).options,
                self.files@ == old(self).files@,
            decreases acts0.len() - c,
        {
            proof {
                assert(self.active@[i as int] == acts0.skip(c)[0]);
                assert(acts0.skip(c)[0] == acts0[c]);
                assert(acts0.take(c + 1).drop_last() =~= acts0.take(c));
                assert(acts0.take(c + 1).last() == acts0[c]);
            }
            if now > self.active[i].expiration_timestamp {
                let ghost pre = self.active@;
                let _dropped = self.active.remove(i);
                proof {
                    assert(self.active@ =~= pre.remove(i as int));
                    assert(keep_actives(acts0.take(c + 1), now) =~= keep_actives(
                        acts0.take(c),
                        now,
                    ));
                    assert(self.active@ =~= keep_actives(acts0.take(c + 1), now) + acts0.skip(
                        c + 1,
                    ));
                    c = c + 1;
                }
            } else {
                proof {
                    assert(keep_actives(acts0.take(c + 1), now) =~= keep_actives(
                        acts0.take(c),
                        now,
                    ).push(acts0[c]));
                    assert(self.active@ =~= keep_actives(acts0.take(c + 1), now) + acts0.skip(
                        c + 1,
                    ));
                    c = c + 1;
                }
                i = i + 1;
            }
        }
        proof {
            assert(acts0.skip(c).len() == 0);
            assert(c == acts0.len());
            assert(acts0.take(c) =~= acts0);
            assert(self.active@ =~= keep_actives(acts0, now));
        }
        let ghost acts1 = self.active@;
        // delete the expired segment files
        let ghost mut fc: int = 0;
        let mut fi: usize = 0;
        proof {
            assert(fs0.take(0) =~= Seq::<FileModel>::empty());
            assert(fs0.skip(0) =~= fs0);
            assert(self.files_model() =~= compact_model(fs0.take(0), now) + fs0.skip(0));
        }
        while fi < self.files.len()
            invariant
                0 <= fc <= fs0.len(),
                fi as int == compact_model(fs0.take(fc), now).len(),
                self.files_model() =~= compact_model(fs0.take(fc), now) + fs0.skip(fc),
                self.next_seq@ == t0,
                self.options == old(self).options,
                self.active@ == acts1,
            decreases fs0.len() - fc,
        {
            proof {
                assert(self.files_model()[fi as int] == fs0.skip(fc)[0]);
                assert(fs0.skip(fc)[0] == fs0[fc]);
                assert(fs0.take(fc + 1).drop_last() =~= fs0.take(fc));
                assert(fs0.take(fc + 1).last() == fs0[fc]);
            }
            let name = &self.files[fi].name;
            let nn = name.len();
            let data = &self.files[fi].data;
            let dn = data.len();
            let mut expired = false;
            if nn >= 4 && name[nn - 4] == 46u8 && name[nn - 3] == 108u8 && name[nn - 2] == 111u8
                && name[nn - 1] == 103u8 && dn >= 24 && data[0] == 78u8 && data[1] == 65u8
                && data[2] == 78u8 && data[3] == 79u8 && data[4] == 45u8 && data[5] == 76u8
                && data[6] == 79u8 && data[7] == 71u8 {
                proof {
                    assert(name@.subrange(nn - 4, nn as int) =~= crate::filename::dot_log());
                    assert(crate::filename::name_is_log(name@));
                    assert(data@.subrange(0, 8) =~= crate::codec::log_signature());
                }
                let exp_bytes = slice_subrange(data.as_slice(), 16, 24);
                let exp = vstd::bytes::u64_from_le_bytes(exp_bytes);
                proof {
                    assert(exp == crate::codec::segment_expiration(data@));
                }
                if now > exp {
                    expired = true;
                }
            } else {
                proof {
                    if crate::filename::name_is_log(name@) && nn >= 4 {
                        assert(name@[nn - 4] == crate::filename::dot_log()[0]);
                        assert(name@[nn - 3] == crate::filename::dot_log()[1]);
                        assert(name@[nn - 2] == crate::filename::dot_log()[2]);
                        assert(name@[nn - 1] == crate::filename::dot_log()[3]);
                    }
                    if dn >= 24 && crate::codec::has_log_signature(data@) {
                        assert(data@[0] == crate::codec::log_signature()[0]);
                        assert(data@[1] == crate::codec::log_signature()[1]);
                        assert(data@[2] == crate::codec::log_signature()[2]);
                        assert(data@[3] == crate::codec::log_signature()[3]);
                        assert(data@[4] == crate::codec::log_signature()[4]);
                        assert(data@[5] == crate::codec::log_signature()[5]);
                        assert(data@[6] == crate::codec::log_signature()[6]);
                        assert(data@[7] == crate::codec::log_signature()[7]);
                    }
                }
            }
            proof {
                assert(expired == file_expired(fs0[fc], now));
            }
            if expired {
                let ghost pre = self.files@;
                let _gone = self.files.remove(fi);
                proof {
                    assert(self.files@ =~= pre.remove(fi as int));
                    assert(self.files_model() =~= files_seq_view(pre).remove(fi as int));
                    assert(compact_model(fs0.take(fc + 1), now) =~= compact_model(
                        fs0.take(fc),
                        now,
                    ));
                    assert(self.files_model() =~= compact_model(fs0.take(fc + 1), now) + fs0.skip(
                        fc + 1,
                    ));
                    fc = fc + 1;
                }
            } else {
                proof {
                    assert(compact_model(fs0.take(fc + 1), now) =~= compact_model(
                        fs0.take(fc),
                        now,
                    ).push(fs0[fc]));
                    assert(self.files_model() =~= compact_model(fs0.take(fc + 1), now) + fs0.skip(
                        fc + 1,
                    ));
                    fc = fc + 1;
                }
                fi = fi + 1;
            }
        }
        proof {
            assert(fs0.skip(fc).len() == 0);
            assert(fc == fs0.len());
            assert(fs0.take(fc) =~= fs0);
            let fs1 = self.files_model();
            assert(fs1 =~= compact_model(fs0, now));
            lemma_compact_model_props(fs0, now);
            lemma_compact_model_wf(fs0, now);
            lemma_keep_actives_props(acts0, now);
            // the invariant survives compaction
            assert forall|k: int| 0 <= k < fs1.len() implies file_seq_bounded(
                #[trigger] fs1[k],
                t0,
            ) by {
                let j = choose|j: int| 0 <= j < fs0.len() && fs0[j] == fs1[k];
                assert(file_seq_bounded(fs0[j], t0));
            }
            assert forall|a: int, b: int| 0 <= a < b < self.active@.len() implies (
            #[trigger] self.active@[a]).key_hash != (#[trigger] self.active@[b]).key_hash by {
                let (a0, b0) = choose|a0: int, b0: int|
                    0 <= a0 < b0 < acts0.len() && acts0[a0] == self.active@[a] && acts0[b0]
                        == self.active@[b];
                assert(acts0[a0].key_hash != acts0[b0].key_hash);
            }
            assert forall|j: int| 0 <= j < self.active@.len() implies active_entry_wf(
                #[trigger] self.active@[j],
                fs1,
                t0,
            ) by {
                let a = self.active@[j];
                let j0 = choose|j0: int| 0 <= j0 < acts0.len() && acts0[j0] == a;
                assert(active_entry_wf(a, fs0, t0));
                assert(now <= a.expiration_timestamp);
                let w = choose|w: int| 0 <= w < fs0.len() && (#[trigger] fs0[w]).name == a.file_name@;
                let f = fs0[w];
                assert(active_file_ok(a, f));
                assert(!file_expired(f, now)) by {
                    assert(f.data =~= segment_header_bytes(a.expiration_timestamp, a.key_bytes@)
                        + f.data.skip(a.header_len as int));
                    crate::codec::lemma_segment_header_fields(
                        a.expiration_timestamp,
                        a.key_bytes@,
                        f.data.skip(a.header_len as int),
                    );
                }
                assert(fs1.contains(f));
                let wi = choose|wi: int| 0 <= wi < fs1.len() && fs1[wi] == f;
                assert(fs1[wi].name == a.file_name@);
                assert forall|k: int|
                    0 <= k < fs1.len() && (#[trigger] fs1[k]).name == a.file_name@ implies
                    active_file_ok(a, fs1[k]) by {
                    let k0 = choose|k0: int| 0 <= k0 < fs0.len() && fs0[k0] == fs1[k];
                }
                assert forall|k: int|
                    0 <= k < fs1.len() && (#[trigger] fs1[k]).name != a.file_name@ implies
                    older_segment(a, fs1[k]) by {
                    let k0 = choose|k0: int| 0 <= k0 < fs0.len() && fs0[k0] == fs1[k];
                    assert(older_segment(a, fs0[k0]));
                }
            }
            assert(self.wf());
            // no active entry has expired
            assert forall|j: int| 0 <= j < self.active@.len() implies now <= (
            #[trigger] self.active@[j]).expiration_timestamp by {}
            // next sequence numbers are untouched
            assert forall|h: u64| #[trigger] self.next_seq_of(h) == old(self).next_seq_of(h) by {}
            // when nothing had expired, the table is untouched
            if old(self).actives_current(now) {
                assert forall|j: int|
                    0 <= j < acts0.len() implies now <= (
                #[trigger] acts0[j]).expiration_timestamp by {}
                lemma_keep_actives_all_kept(acts0, now);
            }
        }
        Ok(())
    }

    /// Put every active segment's bytes on stable storage.
    #[verifier::rlimit(100)]
    #[verifier::spinoff_prover]
    pub fn sync(&mut self) -> (r: Result<(), WalError>)
        requires
            old(self).wf(),
        ensures
            final(self).wf(),
            r is Ok,
            final(self).options_spec() == old(self).options_spec(),
            final(self).same_active_table(*old(self)),
            forall|h: u64| #[trigger] final(self).next_seq_of(h) == old(self).next_seq_of(h),
            final(self).files_model().len() == old(self).files_model().len(),
            forall|i: int|
                0 <= i < final(self).files_model().len() ==> {
                    &&& (#[trigger] final(self).files_model()[i]).name
                        == old(self).files_model()[i].name
                    &&& final(self).files_model()[i].data == old(self).files_model()[i].data
                    &&& final(self).files_model()[i].durable_len
                        >= old(self).files_model()[i].durable_len
                },
            final(self).actives_durable(),
            forall|key: Seq<char>|
                #[trigger] final(self).records_for_key(key) == old(self).records_for_key(key),
            keys_model(final(self).files_model()) == keys_model(old(self).files_model()),
            forall|h2: u64, s2: u64, o2: u64|
                (#[trigger] read_back(crashed_files(old(self).files_model()), h2, s2, o2)) is Some
                    ==> read_back(crashed_files(final(self).files_model()), h2, s2, o2)
                    == read_back(crashed_files(old(self).files_model()), h2, s2, o2),
            forall|h2: u64, s2: u64, o2: u64|
                (#[trigger] read_back(old(self).files_model(), h2, s2, o2)) is Some ==> read_back(
                    final(self).files_model(),
                    h2,
                    s2,
                    o2,
                ) == read_back(old(self).files_model(), h2, s2, o2),
    {
        let ghost fs0 = self.files_model();
        let ghost acts0 = self.active@;
        let ghost t0 = self.next_seq@;
        let n = self.active.len();
        let mut i: usize = 0;
        while i < n
            invariant
                0 <= i <= n,
                n == self.active@.len(),
                self.active@ == acts0,
                self.next_seq@ == t0,
                self.options == old(self).options,
                old(self).wf(),
                fs0 == old(self).files_model(),
                acts0 == old(self).active@,
                t0 == old(self).next_seq@,
                self.files_model().len() == fs0.len(),
                forall|k: int|
                    0 <= k < fs0.len() ==> (#[trigger] self.files_model()[k]).name == fs0[k].name
                        && self.files_model()[k].data == fs0[k].data && (
                    self.files_model()[k].durable_len == fs0[k].durable_len
                        || self.files_model()[k].durable_len == fs0[k].data.len()),
                forall|j: int, k: int|
                    0 <= j < i && 0 <= k < fs0.len() && (#[trigger] self.files_model()[k]).name
                        == (#[trigger] acts0[j]).file_name@ ==> self.files_model()[k].durable_len
                        == self.files_model()[k].data.len(),
            decreases n - i,
        {
            let ghost fsc = self.files_model();
            proof {
                assert(active_entry_wf(acts0[i as int], fs0, t0)) by {
                    assert(old(self).wf());
                }
            }
            match crate::storage::find_name_index(
                &self.files,
                self.active[i].file_name.as_slice(),
            ) {
                Some(k) => {
                    let dl = self.files[k].data.len();
                    self.files[k].durable_len = dl;
                    proof {
                        assert(self.files_model() =~= fsc.update(
                            k as int,
                            FileModel {
                                name: fsc[k as int].name,
                                data: fsc[k as int].data,
                                durable_len: fsc[k as int].data.len(),
                            },
                        ));
                    }
                },
                None => {
                    proof {
                        let w = choose|w: int|
                            0 <= w < fs0.len() && (#[trigger] fs0[w]).name == acts0[
                                i as int
                            ].file_name@;
                        assert(self.files_model()[w].name == fs0[w].name);
                        assert(false);
                    }
                },
            }
            i = i + 1;
        }
        proof {
            let fs1 = self.files_model();
            // the invariant survives: names, data, and bounds unchanged
            assert forall|k: int| 0 <= k < fs1.len() implies (#[trigger] fs1[k]).wf() by {
                assert(fs0[k].wf());
            }
            assert forall|a: int, b: int| 0 <= a < b < fs1.len() implies (#[trigger] fs1[a]).name
                != (#[trigger] fs1[b]).name by {
                assert(fs0[a].name != fs0[b].name);
            }
            assert forall|k: int| 0 <= k < fs1.len() implies file_seq_bounded(
                #[trigger] fs1[k],
                t0,
            ) by {
                assert(file_seq_bounded(fs0[k], t0));
                assert(fs1[k].name == fs0[k].name);
            }
            assert forall|j: int| 0 <= j < self.active@.len() implies active_entry_wf(
                #[trigger] self.active@[j],
                fs1,
                t0,
            ) by {
                let a = self.active@[j];
                assert(active_entry_wf(a, fs0, t0));
                let w = choose|w: int| 0 <= w < fs0.len() && (#[trigger] fs0[w]).name == a.file_name@;
                assert(fs1[w].name == a.file_name@);
                assert forall|k: int|
                    0 <= k < fs1.len() && (#[trigger] fs1[k]).name == a.file_name@ implies
                    active_file_ok(a, fs1[k]) by {
                    assert(fs1[k].name == fs0[k].name);
                    assert(active_file_ok(a, fs0[k]));
                    assert(fs1[k].data == fs0[k].data);
                }
                assert forall|k: int|
                    0 <= k < fs1.len() && (#[trigger] fs1[k]).name != a.file_name@ implies
                    older_segment(a, fs1[k]) by {
                    assert(fs1[k].name == fs0[k].name);
                    assert(older_segment(a, fs0[k]));
                }
            }
            assert(self.wf());
            // reads that succeeded still succeed: names and data unchanged
            assert forall|h2: u64, s2: u64, o2: u64|
                (#[trigger] read_back(fs0, h2, s2, o2)) is Some implies read_back(fs1, h2, s2, o2)
                    == read_back(fs0, h2, s2, o2) by {
                assert forall|k: int| 0 <= k < fs0.len() implies (#[trigger] fs0[k]).name == (
                #[trigger] fs1[k]).name by {}
                lemma_find_segment_idx_same_names(fs0, fs1, h2, s2);
                let ix = find_segment_idx(fs0, h2, s2);
                lemma_find_segment_idx(fs0, h2, s2);
                assert(fs1[ix].data == fs0[ix].data);
            }
            assert forall|h2: u64, s2: u64, o2: u64|
                (#[trigger] read_back(crashed_files(fs0), h2, s2, o2)) is Some implies read_back(
                crashed_files(fs1),
                h2,
                s2,
                o2,
            ) == read_back(crashed_files(fs0), h2, s2, o2) by {
                let c0 = crashed_files(fs0);
                let c1 = crashed_files(fs1);
                assert forall|k: int| 0 <= k < c0.len() implies (#[trigger] c0[k]).name == (
                #[trigger] c1[k]).name by {}
                lemma_find_segment_idx_same_names(c0, c1, h2, s2);
                let ix = find_segment_idx(c0, h2, s2);
                lemma_find_segment_idx(c0, h2, s2);
                assert(c0[ix].data.len() <= c1[ix].data.len()) by {
                    assert(fs0[ix].wf());
                }
                assert(c0[ix].data =~= c1[ix].data.take(c0[ix].data.len() as int));
                assert(crate::codec::read_in_segment(c0[ix].data, o2) is Content);
                crate::codec::lemma_read_in_segment_prefix(c0[ix].data, c1[ix].data, o2);
            }
            // every active segment's file is wholly durable
            assert forall|j: int, k: int|
                0 <= j < self.active@.len() && 0 <= k < fs1.len() && (#[trigger] fs1[k]).name == (
                #[trigger] self.active@[j]).file_name@ implies fs1[k].durable_len
                == fs1[k].data.len() by {}
            // the files' names and bytes are untouched, so every key
            // replays the same records and names the same key set
            assert(same_files_content(fs0, fs1));
            assert forall|key: Seq<char>| #[trigger] self.records_for_key(key) == old(
                self,
            ).records_for_key(key) by {
                lemma_enum_same_content(
                    fs0,
                    fs1,
                    sanitized_key(key),
                    fnv1a(vstd::utf8::encode_utf8(key)),
                );
            }
            assert(keys_model(fs1) == keys_model(fs0)) by {
                assert forall|i: int|
                    0 <= i < fs0.len() implies file_key_string(#[trigger] fs0[i])
                    == file_key_string(#[trigger] fs1[i]) by {
                    assert(fs0[i].name == fs1[i].name && fs0[i].data == fs1[i].data);
                }
                lemma_keys_model_pointwise(fs0, fs1);
            }
        }
        Ok(())
    }
}

/// Keeping the current entries of a table with no expired entry keeps
/// the whole table.
proof fn lemma_keep_actives_all_kept(acts: Seq<ActiveSegment>, now: u64)
    requires
        forall|j: int| 0 <= j < acts.len() ==> now <= (#[trigger] acts[j]).expiration_timestamp,
    ensures
        keep_actives(acts, now) == acts,
    decreases acts.len(),
{
    if acts.len() > 0 {
        assert(forall|j: int|
            0 <= j < acts.drop_last().len() ==> now <= (
            #[trigger] acts.drop_last()[j]).expiration_timestamp) by {
            assert(forall|j: int|
                0 <= j < acts.drop_last().len() ==> acts.drop_last()[j] == acts[j]);
        }
        lemma_keep_actives_all_kept(acts.drop_last(), now);
        assert(now <= acts.last().expiration_timestamp) by {
            assert(acts[acts.len() - 1] == acts.last());
        }
        assert(keep_actives(acts, now) =~= acts);
    } else {
        assert(keep_actives(acts, now) =~= acts);
    }
}

} // verus!

verus! {

impl Wal {
    /// Append one record: route it to the key's active segment at the
    /// current wall-clock time, write its frame, and, when `durable`
    /// is set, put the whole segment file on stable storage before
    /// returning.
    pub fn append_entry(
        &mut self,
        key: &str,
        header: Option<Vec<u8>>,
        content: Vec<u8>,
        durable: bool,
    ) -> (r: Result<EntryRef, WalError>)
        requires
            old(self).wf(),
        ensures
            final(self).wf(),
            final(self).options_spec() == old(self).options_spec(),
            ({
                let h = fnv1a(key.spec_bytes());
                &&& (header_view(header).len() > 65535 ==> (r matches Err(e) && e matches
                    WalError::HeaderTooLarge { size, max } && size == header_view(header).len()
                    && max == 65535))
                &&& (r matches Err(e) ==> *final(self) == *old(self) && (e is HeaderTooLarge
                    || e is Io))
                &&& ((header_view(header).len() <= 65535 && key.spec_bytes().len() + 32
                    <= u64::MAX && old(self).next_seq_of(h) != u64::MAX) ==> r is Ok)
                &&& (r matches Ok(er) ==> append_preserves_reads(
                    *old(self),
                    *final(self),
                    key,
                    content@,
                    durable,
                    er,
                ) && append_extends_key(*old(self), *final(self), key, content@, er))
                &&& (r matches Ok(er) ==> appends_one_frame(
                    *old(self),
                    *final(self),
                    header_view(header),
                    content@,
                    durable,
                    er,
                ))
            }),
    {
        let now = now_seconds();
        self.append_entry_at(key, header, content, durable, now)
    }

    /// Append one record with the durability guarantee: the same as
    /// `append_entry` with `durable` set.
    pub fn log_entry(&mut self, key: &str, header: Option<Vec<u8>>, content: Vec<u8>) -> (r:
        Result<EntryRef, WalError>)
        requires
            old(self).wf(),
        ensures
            final(self).wf(),
            final(self).options_spec() == old(self).options_spec(),
            ({
                let h = fnv1a(key.spec_bytes());
                &&& (r matches Err(e) ==> *final(self) == *old(self) && (e is HeaderTooLarge
                    || e is Io))
                &&& ((header_view(header).len() <= 65535 && key.spec_bytes().len() + 32
                    <= u64::MAX && old(self).next_seq_of(h) != u64::MAX) ==> r is Ok)
                &&& (r matches Ok(er) ==> append_preserves_reads(
                    *old(self),
                    *final(self),
                    key,
                    content@,
                    true,
                    er,
                ) && append_extends_key(*old(self), *final(self), key, content@, er))
                &&& (r matches Ok(er) ==> appends_one_frame(
                    *old(self),
                    *final(self),
                    header_view(header),
                    content@,
                    true,
                    er,
                ))
            }),
    {
        self.append_entry(key, header, content, true)
    }

    /// Append a batch of records. Each is written without its own
    /// sync; when the batch is durable, one sync pass at the end puts
    /// every touched segment on stable storage. The first failure
    /// aborts the batch; records already written stay on disk.
    pub fn append_batch<'a>(
        &mut self,
        entries: Vec<(&'a str, Option<Vec<u8>>, Vec<u8>)>,
        durable: bool,
    ) -> (r: Result<Vec<EntryRef>, WalError>)
        requires
            old(self).wf(),
        ensures
            final(self).wf(),
            final(self).options_spec() == old(self).options_spec(),
            r matches Ok(refs) ==> {
                &&& refs@.len() == entries@.len()
                &&& (forall|k: int|
                    0 <= k < entries@.len() ==> read_back(
                        final(self).files_model(),
                        (#[trigger] refs@[k]).key_hash,
                        refs@[k].sequence_number,
                        refs@[k].offset,
                    ) == Some(entries@[k].2@))
                &&& (durable ==> final(self).actives_durable())
            },
            (forall|k: int|
                0 <= k < entries@.len() ==> {
                    &&& header_view((#[trigger] entries@[k]).1).len() <= 65535
                    &&& entries@[k].0.spec_bytes().len() + 32 <= u64::MAX
                    &&& old(self).next_seq_of(fnv1a(entries@[k].0.spec_bytes()))
                        + entries@.len() + 1 <= u64::MAX
                }) ==> r is Ok,
            r matches Err(e) ==> (e is HeaderTooLarge || e is Io),
            (r is Ok && entries@.len() > 0 && (forall|j: int|
                0 <= j < entries@.len() ==> (#[trigger] entries@[j]).0@ == entries@[0].0@)
                && old(self).routing_clean(entries@[0].0@)) ==> final(self).records_for_key(
                entries@[0].0@,
            ) == old(self).records_for_key(entries@[0].0@) + batch_contents(entries@),
    {
        let ghost all = entries@;
        let mut es = entries;
        let mut refs: Vec<EntryRef> = Vec::new();
        while es.len() > 0
            invariant
                self.wf(),
                self.options_spec() == old(self).options_spec(),
                all == entries@,
                refs@.len() + es@.len() == all.len(),
                es@ =~= all.skip(refs@.len() as int),
                forall|k: int|
                    0 <= k < refs@.len() ==> read_back(
                        self.files_model(),
                        (#[trigger] refs@[k]).key_hash,
                        refs@[k].sequence_number,
                        refs@[k].offset,
                    ) == Some(all[k].2@),
                forall|h2: u64|
                    #[trigger] self.next_seq_of(h2) <= old(self).next_seq_of(h2) + refs@.len()
                        + 1,
                (all.len() > 0 && (forall|j: int|
                    0 <= j < all.len() ==> (#[trigger] all[j]).0@ == all[0].0@) && old(
                    self,
                ).routing_clean(all[0].0@)) ==> {
                    &&& self.records_for_key(all[0].0@) == old(self).records_for_key(all[0].0@)
                        + batch_contents(all.take(refs@.len() as int))
                    &&& self.routing_clean(all[0].0@)
                },
            decreases es@.len(),
        {
            let ghost done = refs@.len() as int;
            let (key, header, content) = es.remove(0);
            proof {
                assert(all.skip(done)[0] == all[done]);
                assert(es@ =~= all.skip(done).skip(1));
                assert(all.skip(done).skip(1) =~= all.skip(done + 1));
                assert(key == all[done].0 && header == all[done].1 && content == all[done].2);
            }
            let ghost cv = content@;
            let ghost pre = *self;
            let ghost hk = fnv1a(key.spec_bytes());
            match self.append_entry(key, header, content, false) {
                Ok(er) => {
                    refs.push(er);
                    proof {
                        assert forall|h2: u64| #[trigger] self.next_seq_of(h2)
                            <= old(self).next_seq_of(h2) + refs@.len() + 1 by {
                            if h2 == hk {
                                assert(self.next_seq_of(hk) == pre.next_seq_of(hk)
                                    || self.next_seq_of(hk) == alloc_seq(pre.next_seq_of(hk))
                                    + 1);
                            } else {
                                assert(self.next_seq_of(h2) == pre.next_seq_of(h2));
                            }
                        }
                        if all.len() > 0 && (forall|j: int|
                            0 <= j < all.len() ==> (#[trigger] all[j]).0@ == all[0].0@) && old(
                            self,
                        ).routing_clean(all[0].0@) {
                            assert(key@ == all[0].0@);
                            assert(pre.routing_clean(key@));
                            assert(self.records_for_key(key@) == pre.records_for_key(key@).push(
                                cv,
                            ));
                            assert(batch_contents(all.take(done + 1)) =~= batch_contents(
                                all.take(done),
                            ).push(all[done].2@));
                            assert(self.records_for_key(key@) =~= old(self).records_for_key(key@)
                                + batch_contents(all.take(done + 1)));
                        }
                    }
                },
                Err(e) => {
                    proof {
                        if (forall|k: int|
                            0 <= k < all.len() ==> {
                                &&& header_view((#[trigger] all[k]).1).len() <= 65535
                                &&& all[k].0.spec_bytes().len() + 32 <= u64::MAX
                                &&& old(self).next_seq_of(fnv1a(all[k].0.spec_bytes()))
                                    + all.len() + 1 <= u64::MAX
                            }) {
                            assert(header_view(all[done].1).len() <= 65535);
                            assert(all[done].0.spec_bytes().len() + 32 <= u64::MAX);
                            assert(pre.next_seq_of(hk) <= old(self).next_seq_of(hk) + done + 1);
                            assert(old(self).next_seq_of(hk) + all.len() + 1 <= u64::MAX);
                            assert(pre.next_seq_of(hk) != u64::MAX);
                            assert(false);
                        }
                    }
                    return Err(e);
                },
            }
        }
        if durable {
            match self.sync() {
                Ok(()) => {},
                Err(e) => {
                    return Err(e);
                },
            }
        }
        proof {
            assert(refs@.len() == all.len());
            assert(all.take(all.len() as int) =~= all);
        }
        Ok(refs)
    }

    /// Delete every segment file that has expired at the current
    /// wall-clock time.
    pub fn compact(&mut self) -> (r: Result<(), WalError>)
        requires
            old(self).wf(),
        ensures
            final(self).wf(),
            r is Ok,
            final(self).options_spec() == old(self).options_spec(),
            forall|h: u64| #[trigger] final(self).next_seq_of(h) == old(self).next_seq_of(h),
            exists|t: u64|
                {
                    &&& final(self).files_model() == compact_model(
                        old(self).files_model(),
                        t,
                    )
                    &&& final(self).actives_current(t)
                    &&& (forall|i: int|
                        0 <= i < final(self).files_model().len() ==> !file_expired(
                            #[trigger] final(self).files_model()[i],
                            t,
                        ))
                },
    {
        let now = now_seconds();
        let r = self.compact_at(now);
        proof {
            assert({
                &&& self.files_model() == compact_model(old(self).files_model(), now)
                &&& self.actives_current(now)
                &&& (forall|i: int|
                    0 <= i < self.files_model().len() ==> !file_expired(
                        #[trigger] self.files_model()[i],
                        now,
                    ))
            });
        }
        r
    }
}

/// The current wall clock, in whole seconds since the Unix epoch.
fn now_seconds() -> u64 {
    unix_now_seconds()
}

/// Every sequence number parsed from a segment file name lies strictly
/// below the next sequence number the log would assign for its hash,
/// up to saturation of the counter. With the counters never moving
/// backwards, a sequence number is never assigned twice for one key
/// within a process's lifetime.
pub proof fn lemma_sequence_numbers_bounded(w: Wal, i: int)
    requires
        w.wf(),
        0 <= i < w.files_model().len(),
    ensures
        match parse_filename(w.files_model()[i].name) {
            Some(p) => p.1 < w.next_seq_of(p.0) || w.next_seq_of(p.0) == u64::MAX,
            None => true,
        },
{
    assert(file_seq_bounded(w.files_model()[i], w.next_seq@));
}

/// What a key's enumeration yields is determined by the directory
/// alone: two logs over the same files replay the same records. With
/// `into_directory` and `new` preserving the files, a close and reopen
/// preserves every key's records.
pub proof fn lemma_reopen_preserves_records(w1: Wal, w2: Wal, key: Seq<char>)
    requires
        w1.files_model() == w2.files_model(),
    ensures
        w1.records_for_key(key) == w2.records_for_key(key),
{
}

/// Run back to back at one time, the second compaction is a no-op: it
/// deletes no file and drops no active segment.
pub proof fn lemma_compact_twice_no_op(w0: Wal, w1: Wal, w2: Wal, t: u64)
    requires
        w1.files_model() == compact_model(w0.files_model(), t),
        w1.actives_current(t),
        w2.files_model() == compact_model(w1.files_model(), t),
        w1.actives_current(t) ==> w2.same_active_table(w1),
    ensures
        w2.files_model() == w1.files_model(),
        w2.same_active_table(w1),
{
    lemma_compact_idempotent(w0.files_model(), t);
}

/// A log over an empty directory holds no records for any key and
/// names no key: the base case from which the append law builds every
/// enumeration.
pub proof fn lemma_empty_directory_no_records(w: Wal, key: Seq<char>)
    requires
        w.files_model().len() == 0,
    ensures
        w.records_for_key(key) == Seq::<Seq<u8>>::empty(),
        keys_model(w.files_model()) == Seq::<Seq<char>>::empty(),
{
    let san = sanitized_key(key);
    let h = fnv1a(vstd::utf8::encode_utf8(key));
    assert(matching_pairs(w.files_model(), san, h) == Seq::<(u64, FileModel)>::empty());
    assert(sort_pairs(Seq::<(u64, FileModel)>::empty()) == Seq::<(u64, FileModel)>::empty());
    assert(records_concat(Seq::<(u64, FileModel)>::empty()) == Seq::<Seq<u8>>::empty());
}

/// A log with no files and no active segment routes every key cleanly,
/// so the first appends after `Wal::new` on an empty directory extend
/// each key's records by exactly what was appended.
pub proof fn lemma_fresh_log_routing_clean(w: Wal, key: Seq<char>)
    requires
        w.files_model().len() == 0,
        w.active_count() == 0,
    ensures
        w.routing_clean(key),
{
}

} // verus!


verus! {

/// The first append after opening an empty directory: the record gets
/// segment sequence number one at offset zero, the key's enumeration
/// is exactly the appended content, and the key set is exactly the
/// key. The hypotheses are the ensures of `Wal::new` on an empty
/// directory and of a successful `append_entry`.
pub proof fn lemma_first_append_on_empty_directory(
    w0: Wal,
    w1: Wal,
    key: &str,
    c: Seq<u8>,
    durable: bool,
    er: EntryRef,
)
    requires
        w0.files_model().len() == 0,
        w0.active_count() == 0,
        forall|h2: u64| #[trigger] w0.next_seq_of(h2) == scan_next(w0.files_model(), h2),
        append_preserves_reads(w0, w1, key, c, durable, er),
        append_extends_key(w0, w1, key, c, er),
    ensures
        er.sequence_number == 1,
        er.offset == 0,
        w1.records_for_key(key@) == seq![c],
        keys_model(w1.files_model()) == seq![key@],
        read_back(w1.files_model(), er.key_hash, er.sequence_number, er.offset) == Some(c),
{
    let h = fnv1a(key.spec_bytes());
    lemma_fresh_log_routing_clean(w0, key@);
    lemma_empty_directory_no_records(w0, key@);
    assert(scan_next(w0.files_model(), h) == 0);
    assert(er.sequence_number == alloc_seq(0u64) && er.offset == 0) by {
        assert(!w0.has_active(h)) by {
            lemma_active_find(w0.active@, h);
        }
    }
    assert(w1.records_for_key(key@) =~= seq![c]);
    assert(!keys_model(w0.files_model()).contains(key@));
    assert(keys_model(w1.files_model()) =~= seq![key@]);
}

} // verus!
