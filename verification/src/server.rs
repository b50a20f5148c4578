//! The coordinator: owner of the file queue, the two bucket stores and
//! the termination flags.
//!
//! The surrounding binary walks the directory tree, reads file contents
//! and drives the stages; every decision the pipeline takes lives here and
//! in `processor`, as steps on this state.  `inv` is the state's
//! well-formedness: buckets non-empty and keyed correctly, no path held
//! twice, every digest-store entry marked processed and backed by some
//! content of the recorded length that digests to its key, and the path
//! width counter at least the grapheme count of every recorded path.

use vstd::prelude::*;

use crate::digest::digest_of;
use crate::fileinfo::{FileInfo, FileRec, FileState};
use crate::params::Params;
use crate::processor::{grapheme_count, State};
use crate::store::{
    digest_map_get, digest_map_keys, digest_map_len, digest_map_new, digest_map_of, digest_map_put,
    recs_of,
    size_map_get, size_map_len, size_map_new, size_map_of, size_map_put, DigestMap, SizeMap,
};

verus! {

/// A message the driving loop passes between the interface and the
/// pipeline: another directory to scan, nothing, or the end of the run.
#[derive(Debug, Clone)]
pub enum Message {
    AddScanDirectory(String),
    Idle,
    Exit,
}

/// The pipeline's shared state.
pub struct Server {
    /// Files the walker has pushed and the size stage has not yet taken.
    pub filequeue: Vec<FileInfo>,
    /// Byte length to the files of that length.
    pub sw_duplicate_set: SizeMap,
    /// Digest to the files with that digest.
    pub hw_duplicate_set: DigestMap,
    /// Set once the walker has pushed its last file.
    pub scanner_finished: bool,
    /// Set once the size stage has drained the queue after the walker
    /// finished.
    pub sw_sort_finished: bool,
    /// Largest grapheme count of any path the digest stage recorded.
    pub max_file_path_len: u64,
    /// The run's configuration.
    pub app_args: Params,
    /// The per-run digest seed.
    pub seed: i64,
    /// Which stage has completed last.
    pub stage: State,
}

/// A size map after one file is filed under its byte length: appended to
/// its bucket, or opening a fresh one.
pub open spec fn bucket_insert(sw: Map<u64, Seq<FileRec>>, f: FileRec) -> Map<u64, Seq<FileRec>> {
    if sw.dom().contains(f.size) {
        sw.insert(f.size, sw[f.size].push(f))
    } else {
        sw.insert(f.size, seq![f])
    }
}

/// A size map after a queue is drained into it front to back, the order
/// the size stage pops in: the queue is a FIFO, so a bucket holds its
/// files in arrival order.
pub open spec fn drain(sw: Map<u64, Seq<FileRec>>, q: Seq<FileRec>) -> Map<u64, Seq<FileRec>>
    decreases q.len(),
{
    if q.len() == 0 {
        sw
    } else {
        drain(bucket_insert(sw, q.first()), q.drop_first())
    }
}

/// Whether position `j` of bucket `k` holds a still-unprocessed member
/// of a candidate bucket (two or more files of one byte length).
pub open spec fn sized_member(sw: Map<u64, Seq<FileRec>>, k: u64, j: int) -> bool {
    &&& sw.dom().contains(k)
    &&& 0 <= j < sw[k].len()
    &&& sw[k].len() >= 2
    &&& sw[k][j].state == FileState::Unprocessed
}

/// A bucket with every member's flag set.
pub open spec fn marked(b: Seq<FileRec>) -> Seq<FileRec> {
    b.map_values(|f: FileRec| FileRec { state: FileState::SwProcessed, ..f })
}

/// A size map after the digest stage has taken every candidate bucket:
/// buckets of two or more are fully marked, the rest stand as they were.
pub open spec fn mark_candidates(sw: Map<u64, Seq<FileRec>>) -> Map<u64, Seq<FileRec>> {
    Map::new(
        |k: u64| sw.dom().contains(k),
        |k: u64|
            if sw[k].len() >= 2 {
                marked(sw[k])
            } else {
                sw[k]
            },
    )
}

/// A digest map after one file is filed under its digest: appended to its
/// bucket, or opening a fresh one.
pub open spec fn hw_bucket_insert(hw: Map<u128, Seq<FileRec>>, d: u128, f: FileRec) -> Map<
    u128,
    Seq<FileRec>,
> {
    if hw.dom().contains(d) {
        hw.insert(d, hw[d].push(f))
    } else {
        hw.insert(d, seq![f])
    }
}

impl Server {
    /// The size map's abstract value.
    pub open spec fn sw(self) -> Map<u64, Seq<FileRec>> {
        size_map_of(self.sw_duplicate_set)
    }

    /// The digest map's abstract value.
    pub open spec fn hw(self) -> Map<u128, Seq<FileRec>> {
        digest_map_of(self.hw_duplicate_set)
    }

    /// The queue's abstract value.
    pub open spec fn queue(self) -> Seq<FileRec> {
        recs_of(self.filequeue@)
    }

    /// Whether the size map holds an entry at bucket `k`, position `i`.
    pub open spec fn sw_at(self, k: u64, i: int) -> bool {
        self.sw().dom().contains(k) && 0 <= i < self.sw()[k].len()
    }

    /// Whether the digest map holds an entry at bucket `d`, position `i`.
    pub open spec fn hw_at(self, d: u128, i: int) -> bool {
        self.hw().dom().contains(d) && 0 <= i < self.hw()[d].len()
    }

    /// Whether some size bucket holds a file with this path.
    pub open spec fn sw_contains_path(self, p: Seq<char>) -> bool {
        exists|k: u64, i: int| self.sw_at(k, i) && self.sw()[k][i].path == p
    }

    /// Whether the queue holds a file with this path.
    pub open spec fn queue_contains_path(self, p: Seq<char>) -> bool {
        exists|i: int| 0 <= i < self.queue().len() && self.queue()[i].path == p
    }

    /// Whether the digest bucket `d` holds a file with this path.
    pub open spec fn hw_has(self, d: u128, p: Seq<char>) -> bool {
        exists|i: int| self.hw_at(d, i) && self.hw()[d][i].path == p
    }

    /// Well-formedness of the pipeline state.
    pub open spec fn inv(self) -> bool {
        &&& self.sw().dom().finite()
        &&& self.hw().dom().finite()
        // Size buckets are non-empty and keyed by their files' byte length.
        &&& forall|k: u64|
            #[trigger] self.sw().dom().contains(k) ==> self.sw()[k].len() > 0
        &&& forall|k: u64, i: int|
            #[trigger] self.sw_at(k, i) ==> self.sw()[k][i].size == k
        // Queued files are still unprocessed.
        &&& forall|i: int|
            0 <= i < self.queue().len() ==> #[trigger] self.queue()[i].state
                == FileState::Unprocessed
        // No path is held twice: within the queue,
        &&& forall|i: int, j: int|
            0 <= i < j < self.queue().len() ==> #[trigger] self.queue()[i].path != #[trigger] self
                .queue()[j].path
        // across the size buckets,
        &&& forall|k1: u64, i1: int, k2: u64, i2: int|
            #[trigger] self.sw_at(k1, i1) && #[trigger] self.sw_at(k2, i2) && !(k1 == k2 && i1
                == i2) ==> self.sw()[k1][i1].path != self.sw()[k2][i2].path
        // and never both queued and already size-bucketed.
        &&& forall|i: int, k: u64, j: int|
            0 <= i < self.queue().len() && #[trigger] self.sw_at(k, j) ==> #[trigger] self.queue()[
                i
            ].path != self.sw()[k][j].path
        // Digest entries are marked processed, carry the length of the
        // content that was digested, and answer to a marked size entry.
        &&& forall|d: u128, i: int|
            #[trigger] self.hw_at(d, i) ==> {
                &&& self.hw()[d][i].state == FileState::SwProcessed
                &&& exists|c: Seq<u8>|
                    c.len() == self.hw()[d][i].size && digest_of(
                        c,
                        self.app_args.strict,
                        self.seed,
                    ) == d
                &&& exists|k: u64, j: int|
                    self.sw_at(k, j) && self.sw()[k][j].path == self.hw()[d][i].path && self.sw()[
                        k
                    ][j].state == FileState::SwProcessed
            }
        // No path sits in two digest-store positions.
        &&& forall|d1: u128, i1: int, d2: u128, i2: int|
            #[trigger] self.hw_at(d1, i1) && #[trigger] self.hw_at(d2, i2) && !(d1 == d2 && i1
                == i2) ==> self.hw()[d1][i1].path != self.hw()[d2][i2].path
        // Digest buckets are never empty.
        &&& forall|d: u128|
            #[trigger] self.hw().dom().contains(d) ==> self.hw()[d].len() > 0
        // The path-width counter covers every recorded path.
        &&& forall|d: u128, i: int|
            #[trigger] self.hw_at(d, i) ==> grapheme_count(self.hw()[d][i].path)
                <= self.max_file_path_len
        // The size stage finishes only after the walker, with the queue
        // drained.
        &&& (self.sw_sort_finished ==> self.scanner_finished && self.queue().len() == 0)
    }

    /// A fresh pipeline: nothing scanned, nothing grouped, the given
    /// configuration and per-run seed.
    pub fn new(opts: Params, seed: i64) -> (r: Server)
        ensures
            r.inv(),
            r.queue().len() == 0,
            r.sw() =~= Map::empty(),
            r.hw() =~= Map::empty(),
            !r.scanner_finished,
            !r.sw_sort_finished,
            r.max_file_path_len == 0,
            r.app_args == opts,
            r.seed == seed,
            r.stage == State::Initial,
    {
        Server {
            filequeue: Vec::new(),
            sw_duplicate_set: size_map_new(),
            hw_duplicate_set: digest_map_new(),
            scanner_finished: false,
            sw_sort_finished: false,
            max_file_path_len: 0,
            app_args: opts,
            seed,
            stage: State::Initial,
        }
    }

    /// The walker hands over one accepted file.  Each path is seen at
    /// most once per run, and the walker only pushes before it reports
    /// itself finished.
    pub fn push_file(&mut self, f: FileInfo)
        requires
            old(self).inv(),
            !old(self).scanner_finished,
            f@.state == FileState::Unprocessed,
            !old(self).queue_contains_path(f@.path),
            !old(self).sw_contains_path(f@.path),
        ensures
            final(self).inv(),
            final(self).queue() == old(self).queue().push(f@),
            final(self).sw() == old(self).sw(),
            final(self).hw() == old(self).hw(),
            final(self).scanner_finished == old(self).scanner_finished,
            final(self).sw_sort_finished == old(self).sw_sort_finished,
            final(self).app_args == old(self).app_args,
            final(self).seed == old(self).seed,
            final(self).max_file_path_len == old(self).max_file_path_len,
            final(self).stage == old(self).stage,
    {
        proof {
            assert(recs_of(self.filequeue@.push(f)) =~= self.queue().push(f@));
        }
        self.filequeue.push(f);
        proof {
            lemma_push_preserves_inv(*old(self), *self, f@);
        }
    }

    /// The walker reports that no further file will be pushed.
    pub fn set_scanner_finished(&mut self)
        requires
            old(self).inv(),
        ensures
            final(self).inv(),
            final(self).scanner_finished,
            final(self).queue() == old(self).queue(),
            final(self).sw() == old(self).sw(),
            final(self).hw() == old(self).hw(),
            final(self).sw_sort_finished == old(self).sw_sort_finished,
            final(self).app_args == old(self).app_args,
            final(self).seed == old(self).seed,
            final(self).max_file_path_len == old(self).max_file_path_len,
            final(self).stage == old(self).stage,
    {
        self.scanner_finished = true;
        proof {
            lemma_inv_transfer(*old(self), *self);
        }
    }

    /// One step of the size stage: takes the oldest queued file and files
    /// it under its byte length; with the queue empty it instead checks
    /// the walker's flag and, once the walker is done, reports the size
    /// stage finished.  Returns whether a file was taken.
    pub fn size_step(&mut self) -> (progressed: bool)
        requires
            old(self).inv(),
        ensures
            final(self).inv(),
            progressed == (old(self).queue().len() > 0),
            old(self).queue().len() > 0 ==> {
                &&& final(self).queue() == old(self).queue().drop_first()
                &&& final(self).sw() == bucket_insert(old(self).sw(), old(self).queue().first())
                &&& final(self).sw_sort_finished == old(self).sw_sort_finished
            },
            old(self).queue().len() == 0 ==> {
                &&& final(self).queue() == old(self).queue()
                &&& final(self).sw() == old(self).sw()
                &&& final(self).sw_sort_finished == (old(self).sw_sort_finished || old(
                    self,
                ).scanner_finished)
            },
            final(self).hw() == old(self).hw(),
            final(self).scanner_finished == old(self).scanner_finished,
            final(self).app_args == old(self).app_args,
            final(self).seed == old(self).seed,
            final(self).max_file_path_len == old(self).max_file_path_len,
            final(self).stage == old(self).stage,
    {
        if self.filequeue.len() == 0 {
            if self.scanner_finished {
                self.sw_sort_finished = true;
            }
            proof {
                lemma_inv_transfer(*old(self), *self);
            }
            false
        } else {
            proof {
                assert(recs_of(self.filequeue@.remove(0)) =~= self.queue().drop_first());
            }
            let f = self.filequeue.remove(0);
            let ghost fr = f@;
            let size = f.size;
            let bucket = size_map_get(&self.sw_duplicate_set, size);
            match bucket {
                Some(mut v) => {
                    proof {
                        assert(recs_of(v@.push(f)) =~= recs_of(v@).push(fr));
                    }
                    v.push(f);
                    size_map_put(&mut self.sw_duplicate_set, size, v);
                },
                None => {
                    let mut v: Vec<FileInfo> = Vec::new();
                    v.push(f);
                    proof {
                        assert(recs_of(v@) =~= seq![fr]);
                    }
                    size_map_put(&mut self.sw_duplicate_set, size, v);
                },
            }
            proof {
                assert(fr == old(self).queue().first());
                assert(self.sw() == bucket_insert(old(self).sw(), fr));
                lemma_size_insert_preserves_inv(*old(self), *self);
            }
            true
        }
    }

    /// Records which stage completed last.
    pub fn set_stage(&mut self, st: State)
        requires
            old(self).inv(),
        ensures
            final(self).inv(),
            final(self).stage == st,
            final(self).queue() == old(self).queue(),
            final(self).sw() == old(self).sw(),
            final(self).hw() == old(self).hw(),
            final(self).scanner_finished == old(self).scanner_finished,
            final(self).sw_sort_finished == old(self).sw_sort_finished,
            final(self).app_args == old(self).app_args,
            final(self).seed == old(self).seed,
            final(self).max_file_path_len == old(self).max_file_path_len,
    {
        self.stage = st;
        proof {
            lemma_inv_transfer(*old(self), *self);
        }
    }

    /// Sets the flag of every member of size bucket `k`: the digest stage
    /// takes a whole bucket at once, and the write is idempotent.
    pub fn mark_bucket(&mut self, k: u64)
        requires
            old(self).inv(),
            old(self).sw().dom().contains(k),
        ensures
            final(self).inv(),
            final(self).sw() == old(self).sw().insert(k, marked(old(self).sw()[k])),
            final(self).queue() == old(self).queue(),
            final(self).hw() == old(self).hw(),
            final(self).scanner_finished == old(self).scanner_finished,
            final(self).sw_sort_finished == old(self).sw_sort_finished,
            final(self).app_args == old(self).app_args,
            final(self).seed == old(self).seed,
            final(self).max_file_path_len == old(self).max_file_path_len,
            final(self).stage == old(self).stage,
    {
        let bucket = size_map_get(&self.sw_duplicate_set, k);
        match bucket {
            Some(v) => {
                let ghost oldrecs = recs_of(v@);
                let mut out: Vec<FileInfo> = Vec::new();
                let mut i: usize = 0;
                while i < v.len()
                    invariant
                        0 <= i <= v.len(),
                        oldrecs == recs_of(v@),
                        recs_of(out@) =~= marked(oldrecs).take(i as int),
                    decreases v.len() - i,
                {
                    let mut fi = v[i].duplicate();
                    proof {
                        assert(fi@ == oldrecs[i as int]);
                    }
                    fi.sw_processed();
                    let ghost prev = out@;
                    let ghost fir = fi@;
                    out.push(fi);
                    proof {
                        assert(fir == (FileRec {
                            state: FileState::SwProcessed,
                            ..oldrecs[i as int]
                        }));
                        assert(marked(oldrecs)[i as int] == fir);
                        assert(recs_of(prev.push(fi)) =~= recs_of(prev).push(fir));
                        assert(recs_of(out@) == marked(oldrecs).take(i as int).push(fir));
                        assert(marked(oldrecs).take(i as int).push(fir) =~= marked(
                            oldrecs,
                        ).take(i + 1));
                    }
                    i = i + 1;
                }
                proof {
                    assert(recs_of(out@) =~= marked(oldrecs));
                }
                size_map_put(&mut self.sw_duplicate_set, k, out);
                proof {
                    lemma_mark_preserves_inv(*old(self), *self, k);
                }
            },
            None => {
                proof {
                    assert(false);
                }
            },
        }
    }

    /// Files one marked file under its digest.  The caller hands over the
    /// content it digested, the digest, and the file's marked standing in
    /// the size map; a path enters the digest store at most once.
    pub(crate) fn record_digest(
        &mut self,
        d: u128,
        f: FileInfo,
        plen: u64,
        Ghost(c): Ghost<Seq<u8>>,
    )
        requires
            old(self).inv(),
            f@.state == FileState::SwProcessed,
            c.len() == f@.size,
            digest_of(c, old(self).app_args.strict, old(self).seed) == d,
            exists|k: u64, j: int|
                old(self).sw_at(k, j) && old(self).sw()[k][j].path == f@.path && old(self).sw()[k][
                    j
                ].state == FileState::SwProcessed,
            forall|d2: u128, i2: int|
                #[trigger] old(self).hw_at(d2, i2) ==> old(self).hw()[d2][i2].path != f@.path,
            plen == grapheme_count(f@.path) as u64,
        ensures
            final(self).inv(),
            final(self).hw() == hw_bucket_insert(old(self).hw(), d, f@),
            final(self).hw_has(d, f@.path),
            final(self).queue() == old(self).queue(),
            final(self).sw() == old(self).sw(),
            final(self).scanner_finished == old(self).scanner_finished,
            final(self).sw_sort_finished == old(self).sw_sort_finished,
            final(self).app_args == old(self).app_args,
            final(self).seed == old(self).seed,
            final(self).max_file_path_len == (if old(self).max_file_path_len < plen {
                plen
            } else {
                old(self).max_file_path_len
            }),
            final(self).stage == old(self).stage,
    {
        let ghost fr = f@;
        let ghost blen: int = if old(self).hw().dom().contains(d) {
            old(self).hw()[d].len() as int
        } else {
            0
        };
        // The counter is raised first, so that it covers the new path the
        // moment the path is recorded.
        if self.max_file_path_len < plen {
            self.max_file_path_len = plen;
        }
        proof {
            lemma_inv_transfer(*old(self), *self);
        }
        let ghost mid = *self;
        proof {
            let (k0, j0): (u64, int) = choose|k: u64, j: int|
                old(self).sw_at(k, j) && old(self).sw()[k][j].path == fr.path && old(self).sw()[k][
                    j
                ].state == FileState::SwProcessed;
            assert(mid.sw_at(k0, j0) && mid.sw()[k0][j0].path == fr.path && mid.sw()[k0][j0].state
                == FileState::SwProcessed);
            assert forall|d2: u128, i2: int| #[trigger] mid.hw_at(d2, i2) implies mid.hw()[d2][
                i2
            ].path != fr.path by {
                assert(old(self).hw_at(d2, i2));
            }
        }
        let bucket = digest_map_get(&self.hw_duplicate_set, d);
        match bucket {
            Some(mut v) => {
                proof {
                    assert(recs_of(v@.push(f)) =~= recs_of(v@).push(fr));
                }
                v.push(f);
                digest_map_put(&mut self.hw_duplicate_set, d, v);
            },
            None => {
                let mut v: Vec<FileInfo> = Vec::new();
                v.push(f);
                proof {
                    assert(recs_of(v@) =~= seq![fr]);
                }
                digest_map_put(&mut self.hw_duplicate_set, d, v);
            },
        }
        proof {
            lemma_record_preserves_inv(mid, *self, d, fr, c);
            assert(self.hw_at(d, blen) && self.hw()[d][blen].path == fr.path);
        }
    }

    /// Runs the two grouping stages to completion over what the walker
    /// delivered: every queued file is filed by size, every candidate
    /// bucket is digested from the contents in `table`, and the digest
    /// map is final.
    pub fn start(&mut self, table: &crate::processor::ContentTable)
        requires
            old(self).inv(),
            old(self).scanner_finished,
        ensures
            final(self).inv(),
            final(self).scanner_finished,
            final(self).sw_sort_finished,
            final(self).queue().len() == 0,
            final(self).sw() == mark_candidates(drain(old(self).sw(), old(self).queue())),
            forall|k: u64, j: int|
                #[trigger] final(self).sw_at(k, j) && final(self).sw()[k].len() >= 2
                    ==> final(self).sw()[k][j].state == FileState::SwProcessed,
            forall|d: u128, i: int|
                #[trigger] old(self).hw_at(d, i) ==> final(self).hw_at(d, i)
                    && final(self).hw()[d][i] == old(self).hw()[d][i],
            forall|d: u128, i: int|
                #[trigger] final(self).hw_at(d, i) && !old(self).hw_at(d, i) ==> exists|
                    k: u64,
                    j: int,
                |
                    sized_member(drain(old(self).sw(), old(self).queue()), k, j) && drain(
                        old(self).sw(),
                        old(self).queue(),
                    )[k][j].path == final(self).hw()[d][i].path,
            forall|k: u64, j: int|
                sized_member(drain(old(self).sw(), old(self).queue()), k, j)
                    ==> crate::processor::recorded_outcome(
                    *final(self),
                    table@,
                    drain(old(self).sw(), old(self).queue())[k][j],
                ),
            final(self).app_args == old(self).app_args,
            final(self).seed == old(self).seed,
            final(self).max_file_path_len >= old(self).max_file_path_len,
            final(self).stage == State::HashWise,
    {
        crate::processor::Processor::sizewise(self);
        let ghost s1 = *self;
        crate::processor::Processor::hashwise(self, table);
        proof {
            let m = drain(old(self).sw(), old(self).queue());
            assert forall|k: u64, j: int| sized_member(m, k, j) implies
                crate::processor::recorded_outcome(*self, table@, m[k][j]) by {
                assert(s1.sw_at(k, j));
            }
            assert forall|d: u128, i: int| #[trigger] old(self).hw_at(d, i) implies self.hw_at(
                d,
                i,
            ) && self.hw()[d][i] == old(self).hw()[d][i] by {
                assert(s1.hw_at(d, i));
            }
            assert forall|d: u128, i: int|
                #[trigger] self.hw_at(d, i) && !old(self).hw_at(d, i) implies exists|
                k: u64,
                j: int,
            |
                sized_member(m, k, j) && m[k][j].path == self.hw()[d][i].path by {
                assert(!s1.hw_at(d, i));
                let (k, j) = choose|k: u64, j: int|
                    s1.sw_at(k, j) && s1.sw()[k].len() >= 2 && s1.sw()[k][j].state
                        == FileState::Unprocessed && s1.sw()[k][j].path == self.hw()[d][i].path;
                assert(sized_member(m, k, j) && m[k][j].path == self.hw()[d][i].path);
            }
        }
    }

    /// How many size buckets exist.
    pub fn sw_bucket_count(&self) -> (r: usize)
        ensures
            r == self.sw().dom().len(),
    {
        size_map_len(&self.sw_duplicate_set)
    }

    /// How many digest buckets exist.
    pub fn hw_bucket_count(&self) -> (r: usize)
        ensures
            r == self.hw().dom().len(),
    {
        digest_map_len(&self.hw_duplicate_set)
    }

    /// The duplicate sets: every digest bucket of two or more files, each
    /// handed out as it stands, and no bucket listed twice.  Buckets of
    /// one are debris and filtered out; the order of the groups is not
    /// specified.
    #[verifier::rlimit(50)]
    #[verifier::spinoff_prover]
    pub fn duplicate_groups(&self) -> (r: Vec<Vec<FileInfo>>)
        requires
            self.inv(),
        ensures
            forall|g: int|
                #![trigger r@[g]]
                0 <= g < r@.len() ==> r@[g]@.len() >= 2 && is_hw_bucket(*self, recs_of(r@[g]@)),
            forall|d: u128|
                #[trigger] self.hw().dom().contains(d) && self.hw()[d].len() >= 2 ==> exists|g: int|
                    0 <= g < r@.len() && recs_of(r@[g]@) == self.hw()[d],
            forall|g1: int, g2: int|
                0 <= g1 < g2 < r@.len() ==> recs_of(r@[g1]@) != recs_of(r@[g2]@),
    {
        let keys = digest_map_keys(&self.hw_duplicate_set);
        let m = keys.len();
        let mut r: Vec<Vec<FileInfo>> = Vec::new();
        let mut i: usize = 0;
        while i < m
            invariant
                0 <= i <= m,
                m == keys.len(),
                self.inv(),
                keys@.to_set() == self.hw().dom(),
                keys@.no_duplicates(),
                forall|g: int|
                    #![trigger r@[g]]
                    0 <= g < r@.len() ==> r@[g]@.len() >= 2 && (exists|jj: int|
                        0 <= jj < i && self.hw().dom().contains(#[trigger] keys@[jj]) && recs_of(
                            r@[g]@,
                        ) == self.hw()[keys@[jj]]),
                forall|jj: int|
                    0 <= jj < i && self.hw().dom().contains(#[trigger] keys@[jj]) && self.hw()[
                        keys@[jj]
                    ].len() >= 2 ==> exists|g: int|
                        0 <= g < r@.len() && recs_of(r@[g]@) == self.hw()[keys@[jj]],
                forall|g1: int, g2: int|
                    0 <= g1 < g2 < r@.len() ==> recs_of(r@[g1]@) != recs_of(r@[g2]@),
            decreases m - i,
        {
            let d = keys[i];
            proof {
                assert(keys@.to_set().contains(d));
            }
            let bucket = digest_map_get(&self.hw_duplicate_set, d);
            match bucket {
                None => {
                    proof {
                        assert(false);
                    }
                },
                Some(b) => {
                    let ghost rprev = r@;
                    proof {
                        assert(recs_of(b@).len() == b@.len());
                    }
                    if b.len() >= 2 {
                        let ghost bv = b;
                        r.push(b);
                        proof {
                            lemma_groups_push_step(*self, keys@, i as int, rprev, r@, bv);
                        }
                    } else {
                        proof {
                            assert forall|jj: int|
                                0 <= jj < i + 1 && self.hw().dom().contains(#[trigger] keys@[jj])
                                    && self.hw()[keys@[jj]].len() >= 2 implies exists|g: int|
                                0 <= g < r@.len() && recs_of(r@[g]@) == self.hw()[keys@[jj]] by {
                                if jj == i {
                                    assert(self.hw()[d].len() < 2);
                                    assert(false);
                                }
                            }
                        }
                    }
                },
            }
            i = i + 1;
        }
        proof {
            assert forall|g: int| #![trigger r@[g]] 0 <= g < r@.len() implies r@[g]@.len() >= 2
                && is_hw_bucket(*self, recs_of(r@[g]@)) by {
                let jj = choose|jj: int|
                    0 <= jj < i && self.hw().dom().contains(#[trigger] keys@[jj]) && recs_of(
                        r@[g]@,
                    ) == self.hw()[keys@[jj]];
                assert(self.hw().dom().contains(keys@[jj]) && self.hw()[keys@[jj]] == recs_of(
                    r@[g]@,
                ));
            }
            assert forall|d: u128|
                #[trigger] self.hw().dom().contains(d) && self.hw()[d].len() >= 2 implies exists|
                g: int,
            |
                0 <= g < r@.len() && recs_of(r@[g]@) == self.hw()[d] by {
                assert(keys@.to_set().contains(d));
                let jj = choose|jj: int| 0 <= jj < keys@.len() && keys@[jj] == d;
                assert(self.hw().dom().contains(keys@[jj]));
            }
        }
        r
    }
}


/// Pushing the bucket of one more key keeps the group list's standing:
/// every group is a qualifying bucket of an earlier key, every earlier
/// qualifying bucket has its group, and no two groups are the same
/// bucket, since equal buckets would put one path at two digest-store
/// positions.
#[verifier::rlimit(50)]
#[verifier::spinoff_prover]
proof fn lemma_groups_push_step(
    s: Server,
    keys: Seq<u128>,
    i: int,
    rprev: Seq<Vec<FileInfo>>,
    rcur: Seq<Vec<FileInfo>>,
    b: Vec<FileInfo>,
)
    requires
        s.inv(),
        keys.to_set() == s.hw().dom(),
        keys.no_duplicates(),
        0 <= i < keys.len(),
        s.hw().dom().contains(keys[i]),
        recs_of(b@) == s.hw()[keys[i]],
        b@.len() >= 2,
        rcur == rprev.push(b),
        forall|g: int|
            #![trigger rprev[g]]
            0 <= g < rprev.len() ==> rprev[g]@.len() >= 2 && (exists|jj: int|
                0 <= jj < i && s.hw().dom().contains(#[trigger] keys[jj]) && recs_of(rprev[g]@)
                    == s.hw()[keys[jj]]),
        forall|jj: int|
            0 <= jj < i && s.hw().dom().contains(#[trigger] keys[jj]) && s.hw()[keys[jj]].len()
                >= 2 ==> exists|g: int|
                0 <= g < rprev.len() && recs_of(rprev[g]@) == s.hw()[keys[jj]],
        forall|g1: int, g2: int|
            0 <= g1 < g2 < rprev.len() ==> recs_of(rprev[g1]@) != recs_of(rprev[g2]@),
    ensures
        forall|g: int|
            #![trigger rcur[g]]
            0 <= g < rcur.len() ==> rcur[g]@.len() >= 2 && (exists|jj: int|
                0 <= jj < i + 1 && s.hw().dom().contains(#[trigger] keys[jj]) && recs_of(rcur[g]@)
                    == s.hw()[keys[jj]]),
        forall|jj: int|
            0 <= jj < i + 1 && s.hw().dom().contains(#[trigger] keys[jj]) && s.hw()[keys[jj]].len()
                >= 2 ==> exists|g: int|
                0 <= g < rcur.len() && recs_of(rcur[g]@) == s.hw()[keys[jj]],
        forall|g1: int, g2: int|
            0 <= g1 < g2 < rcur.len() ==> recs_of(rcur[g1]@) != recs_of(rcur[g2]@),
{
    let d = keys[i];
    assert forall|g: int|
        #![trigger rcur[g]]
        0 <= g < rcur.len() implies rcur[g]@.len() >= 2 && (exists|jj: int|
        0 <= jj < i + 1 && s.hw().dom().contains(#[trigger] keys[jj]) && recs_of(rcur[g]@)
            == s.hw()[keys[jj]]) by {
        if g < rprev.len() {
            assert(rprev[g]@.len() >= 2);
            let jj = choose|jj: int|
                0 <= jj < i && s.hw().dom().contains(#[trigger] keys[jj]) && recs_of(rprev[g]@)
                    == s.hw()[keys[jj]];
            assert(rcur[g] == rprev[g]);
            assert(0 <= jj < i + 1 && s.hw().dom().contains(keys[jj]) && recs_of(rcur[g]@)
                == s.hw()[keys[jj]]);
        } else {
            assert(rcur[g] == b);
            assert(0 <= i < i + 1 && s.hw().dom().contains(keys[i]) && recs_of(rcur[g]@)
                == s.hw()[keys[i]]);
        }
    }
    assert forall|jj: int|
        0 <= jj < i + 1 && s.hw().dom().contains(#[trigger] keys[jj]) && s.hw()[keys[jj]].len()
            >= 2 implies exists|g: int|
        0 <= g < rcur.len() && recs_of(rcur[g]@) == s.hw()[keys[jj]] by {
        if jj < i {
            let g = choose|g: int|
                0 <= g < rprev.len() && recs_of(rprev[g]@) == s.hw()[keys[jj]];
            assert(rcur[g] == rprev[g]);
            assert(0 <= g < rcur.len() && recs_of(rcur[g]@) == s.hw()[keys[jj]]);
        } else {
            let g = rprev.len() as int;
            assert(rcur[g] == b);
            assert(0 <= g < rcur.len() && recs_of(rcur[g]@) == s.hw()[keys[jj]]);
        }
    }
    assert forall|g1: int, g2: int|
        0 <= g1 < g2 < rcur.len() implies recs_of(rcur[g1]@) != recs_of(rcur[g2]@) by {
        if g2 < rprev.len() {
            assert(rcur[g1] == rprev[g1]);
            assert(rcur[g2] == rprev[g2]);
            assert(recs_of(rprev[g1]@) != recs_of(rprev[g2]@));
        } else {
            assert(rcur[g1] == rprev[g1]);
            assert(rcur[g2] == b);
            let jj = choose|jj: int|
                0 <= jj < i && s.hw().dom().contains(#[trigger] keys[jj]) && recs_of(rprev[g1]@)
                    == s.hw()[keys[jj]];
            if recs_of(rcur[g1]@) == recs_of(rcur[g2]@) {
                assert(s.hw()[keys[jj]] == s.hw()[d]);
                assert(s.hw()[keys[jj]].len() >= 2);
                assert(s.hw_at(keys[jj], 0));
                assert(s.hw_at(d, 0));
                assert(s.hw()[keys[jj]][0] == s.hw()[d][0]);
                assert(s.hw()[keys[jj]][0].path == s.hw()[d][0].path);
                assert(keys[jj] == d);
                assert(false);
            }
        }
    }
}

/// Whether a record sequence is exactly one of the digest store's
/// buckets.
pub open spec fn is_hw_bucket(s: Server, b: Seq<FileRec>) -> bool {
    exists|d: u128| s.hw().dom().contains(d) && #[trigger] s.hw()[d] == b
}

/// Every file the digest stage filed was marked processed, and its
/// recorded byte length is the length of a content that digests to its
/// bucket's key under the run's mode and seed.
pub proof fn lemma_digest_entry_processed(s: Server, d: u128, i: int)
    requires
        s.inv(),
        s.hw_at(d, i),
    ensures
        s.hw()[d][i].state == FileState::SwProcessed,
        exists|c: Seq<u8>|
            c.len() == s.hw()[d][i].size && digest_of(c, s.app_args.strict, s.seed) == d,
{
}

/// Two files of one digest bucket answer to contents of their recorded
/// byte lengths that digest to the same key: equal up to the digest, in
/// whichever mode the run used.
pub proof fn lemma_bucket_members_share_digest(s: Server, d: u128, i1: int, i2: int)
    requires
        s.inv(),
        s.hw_at(d, i1),
        s.hw_at(d, i2),
    ensures
        exists|c1: Seq<u8>, c2: Seq<u8>|
            c1.len() == s.hw()[d][i1].size && c2.len() == s.hw()[d][i2].size && digest_of(
                c1,
                s.app_args.strict,
                s.seed,
            ) == d && digest_of(c2, s.app_args.strict, s.seed) == d,
{
    let c1 = choose|c: Seq<u8>|
        c.len() == s.hw()[d][i1].size && digest_of(c, s.app_args.strict, s.seed) == d;
    let c2 = choose|c: Seq<u8>|
        c.len() == s.hw()[d][i2].size && digest_of(c, s.app_args.strict, s.seed) == d;
    assert(c1.len() == s.hw()[d][i1].size && c2.len() == s.hw()[d][i2].size && digest_of(
        c1,
        s.app_args.strict,
        s.seed,
    ) == d && digest_of(c2, s.app_args.strict, s.seed) == d);
}

/// A path sits in at most one position of the digest store: no file is
/// reported twice, neither within a group nor across groups.
pub proof fn lemma_path_in_one_position(s: Server, d1: u128, i1: int, d2: u128, i2: int)
    requires
        s.inv(),
        s.hw_at(d1, i1),
        s.hw_at(d2, i2),
        s.hw()[d1][i1].path == s.hw()[d2][i2].path,
    ensures
        d1 == d2,
        i1 == i2,
{
}

/// Whether a run's digest store holds these two paths in one bucket.
pub open spec fn grouped(s: Server, p1: Seq<char>, p2: Seq<char>) -> bool {
    exists|d: u128| s.hw_has(d, p1) && s.hw_has(d, p2)
}

/// A recorded path names its bucket: it sits under one key only.
proof fn lemma_hw_has_unique(s: Server, d1: u128, d2: u128, p: Seq<char>)
    requires
        s.inv(),
        s.hw_has(d1, p),
        s.hw_has(d2, p),
    ensures
        d1 == d2,
{
    let i1 = choose|i: int| s.hw_at(d1, i) && s.hw()[d1][i].path == p;
    let i2 = choose|i: int| s.hw_at(d2, i) && s.hw()[d2][i].path == p;
    assert(s.hw_at(d1, i1));
    assert(s.hw_at(d2, i2));
}

/// Two complete runs over an unchanging tree group the same paths
/// together: when each of two files answers to the same content in both
/// runs — as it does when the tree did not change — the two files share a
/// digest bucket in one run exactly when they do in the other, whatever
/// the two runs' seeds.  Digest keys may differ across seeds; the
/// partition does not.  In strict mode an empty content is pinned to
/// digest 0 under every seed, so the statement asks the contents to be
/// non-empty there; in fast mode it holds of every content.
pub proof fn lemma_two_runs_group_alike(
    r1: Server,
    r2: Server,
    p1: Seq<char>,
    p2: Seq<char>,
    c1: Seq<u8>,
    c2: Seq<u8>,
)
    requires
        r1.inv(),
        r2.inv(),
        r1.app_args.strict == r2.app_args.strict,
        r1.hw_has(digest_of(c1, r1.app_args.strict, r1.seed), p1),
        r1.hw_has(digest_of(c2, r1.app_args.strict, r1.seed), p2),
        r2.hw_has(digest_of(c1, r2.app_args.strict, r2.seed), p1),
        r2.hw_has(digest_of(c2, r2.app_args.strict, r2.seed), p2),
        r1.app_args.strict ==> c1.len() > 0 && c2.len() > 0,
    ensures
        grouped(r1, p1, p2) <==> grouped(r2, p1, p2),
{
    let strict = r1.app_args.strict;
    let d11 = digest_of(c1, strict, r1.seed);
    let d12 = digest_of(c2, strict, r1.seed);
    let d21 = digest_of(c1, strict, r2.seed);
    let d22 = digest_of(c2, strict, r2.seed);
    // Whether the two contents share a digest does not depend on the seed.
    if strict {
        crate::digest::lemma_strict_partition_seed_independent(c1, c2, r1.seed, r2.seed);
    } else {
        crate::digest::lemma_fast_partition_seed_independent(c1, c2, r1.seed, r2.seed);
    }
    // Being grouped in a run is the same as that run's digests agreeing:
    // each path sits under its content's digest and under no other key.
    if grouped(r1, p1, p2) {
        let d = choose|d: u128| r1.hw_has(d, p1) && r1.hw_has(d, p2);
        lemma_hw_has_unique(r1, d, d11, p1);
        lemma_hw_has_unique(r1, d, d12, p2);
        assert(d21 == d22);
        assert(r2.hw_has(d21, p1) && r2.hw_has(d21, p2));
    }
    if grouped(r2, p1, p2) {
        let d = choose|d: u128| r2.hw_has(d, p1) && r2.hw_has(d, p2);
        lemma_hw_has_unique(r2, d, d21, p1);
        lemma_hw_has_unique(r2, d, d22, p2);
        assert(d11 == d12);
        assert(r1.hw_has(d11, p1) && r1.hw_has(d11, p2));
    }
}

/// Well-formedness reads only the maps, the queue, the digest mode, the
/// seed and the finish flags: any two states that agree on those are
/// well-formed together.
proof fn lemma_inv_transfer(s1: Server, s2: Server)
    requires
        s1.inv(),
        s2.sw() == s1.sw(),
        s2.hw() == s1.hw(),
        s2.queue() == s1.queue(),
        s2.app_args.strict == s1.app_args.strict,
        s2.seed == s1.seed,
        s2.max_file_path_len >= s1.max_file_path_len,
        s2.sw_sort_finished ==> s2.scanner_finished && s2.queue().len() == 0,
    ensures
        s2.inv(),
{
    assert forall|d: u128| #[trigger] s2.hw().dom().contains(d) implies s2.hw()[d].len() > 0 by {
        assert(s1.hw().dom().contains(d));
    }
    assert forall|d: u128, i: int| #[trigger] s2.hw_at(d, i) implies grapheme_count(
        s2.hw()[d][i].path,
    ) <= s2.max_file_path_len by {
        assert(s1.hw_at(d, i));
    }
    assert forall|k: u64| #[trigger] s2.sw().dom().contains(k) implies s2.sw()[k].len() > 0 by {
        assert(s1.sw().dom().contains(k));
    }
    assert forall|k: u64, i: int| #[trigger] s2.sw_at(k, i) implies s2.sw()[k][i].size == k by {
        assert(s1.sw_at(k, i));
    }
    assert forall|i: int| 0 <= i < s2.queue().len() implies #[trigger] s2.queue()[i].state
        == FileState::Unprocessed by {
        assert(s1.queue()[i].state == FileState::Unprocessed);
    }
    assert forall|i: int, j: int| 0 <= i < j < s2.queue().len() implies #[trigger] s2.queue()[
        i
    ].path != #[trigger] s2.queue()[j].path by {
        assert(s1.queue()[i].path != s1.queue()[j].path);
    }
    assert forall|k1: u64, i1: int, k2: u64, i2: int|
        #[trigger] s2.sw_at(k1, i1) && #[trigger] s2.sw_at(k2, i2) && !(k1 == k2 && i1
            == i2) implies s2.sw()[k1][i1].path != s2.sw()[k2][i2].path by {
        assert(s1.sw_at(k1, i1));
        assert(s1.sw_at(k2, i2));
    }
    assert forall|i: int, k: u64, j: int|
        0 <= i < s2.queue().len() && #[trigger] s2.sw_at(k, j) implies #[trigger] s2.queue()[
            i
        ].path != s2.sw()[k][j].path by {
        assert(s1.sw_at(k, j));
        assert(s1.queue()[i].path != s1.sw()[k][j].path);
    }
    assert forall|d: u128, i: int| #[trigger] s2.hw_at(d, i) implies {
        &&& s2.hw()[d][i].state == FileState::SwProcessed
        &&& exists|c: Seq<u8>|
            c.len() == s2.hw()[d][i].size && digest_of(c, s2.app_args.strict, s2.seed) == d
        &&& exists|k: u64, j: int|
            s2.sw_at(k, j) && s2.sw()[k][j].path == s2.hw()[d][i].path && s2.sw()[k][j].state
                == FileState::SwProcessed
    } by {
        assert(s1.hw_at(d, i));
        let c0 = choose|c: Seq<u8>|
            c.len() == s1.hw()[d][i].size && digest_of(c, s1.app_args.strict, s1.seed) == d;
        assert(c0.len() == s2.hw()[d][i].size && digest_of(c0, s2.app_args.strict, s2.seed) == d);
        let (k0, j0): (u64, int) = choose|k: u64, j: int|
            s1.sw_at(k, j) && s1.sw()[k][j].path == s1.hw()[d][i].path && s1.sw()[k][j].state
                == FileState::SwProcessed;
        assert(s1.sw_at(k0, j0));
        assert(s2.sw_at(k0, j0) && s2.sw()[k0][j0].path == s2.hw()[d][i].path && s2.sw()[k0][
            j0
        ].state == FileState::SwProcessed);
    }
    assert forall|d1: u128, i1: int, d2: u128, i2: int|
        #[trigger] s2.hw_at(d1, i1) && #[trigger] s2.hw_at(d2, i2) && !(d1 == d2 && i1
            == i2) implies s2.hw()[d1][i1].path != s2.hw()[d2][i2].path by {
        assert(s1.hw_at(d1, i1));
        assert(s1.hw_at(d2, i2));
    }
}

/// Pushing a fresh, nowhere-held, unprocessed file onto the queue keeps
/// the pipeline state well-formed.
proof fn lemma_push_preserves_inv(pre: Server, cur: Server, fr: FileRec)
    requires
        pre.inv(),
        !pre.scanner_finished,
        fr.state == FileState::Unprocessed,
        !pre.queue_contains_path(fr.path),
        !pre.sw_contains_path(fr.path),
        cur.queue() == pre.queue().push(fr),
        cur.sw() == pre.sw(),
        cur.hw() == pre.hw(),
        cur.scanner_finished == pre.scanner_finished,
        cur.sw_sort_finished == pre.sw_sort_finished,
        cur.app_args == pre.app_args,
        cur.seed == pre.seed,
        cur.max_file_path_len == pre.max_file_path_len,
    ensures
        cur.inv(),
{
    let n = pre.queue().len() as int;
    assert forall|d: u128| #[trigger] cur.hw().dom().contains(d) implies cur.hw()[d].len() > 0 by {
        assert(pre.hw().dom().contains(d));
    }
    assert forall|d: u128, i: int| #[trigger] cur.hw_at(d, i) implies grapheme_count(
        cur.hw()[d][i].path,
    ) <= cur.max_file_path_len by {
        assert(pre.hw_at(d, i));
    }
    assert forall|k: u64| #[trigger] cur.sw().dom().contains(k) implies cur.sw()[k].len() > 0 by {
        assert(pre.sw().dom().contains(k));
    }
    assert forall|k: u64, i: int| #[trigger] cur.sw_at(k, i) implies cur.sw()[k][i].size == k by {
        assert(pre.sw_at(k, i));
    }
    assert forall|i: int| 0 <= i < cur.queue().len() implies #[trigger] cur.queue()[i].state
        == FileState::Unprocessed by {
        if i < n {
            assert(pre.queue()[i].state == FileState::Unprocessed);
        }
    }
    assert forall|i: int, j: int| 0 <= i < j < cur.queue().len() implies #[trigger] cur.queue()[
        i
    ].path != #[trigger] cur.queue()[j].path by {
        if j < n {
            assert(pre.queue()[i].path != pre.queue()[j].path);
        } else {
            assert(!(0 <= i < pre.queue().len() && pre.queue()[i].path == fr.path));
        }
    }
    assert forall|k1: u64, i1: int, k2: u64, i2: int|
        #[trigger] cur.sw_at(k1, i1) && #[trigger] cur.sw_at(k2, i2) && !(k1 == k2 && i1
            == i2) implies cur.sw()[k1][i1].path != cur.sw()[k2][i2].path by {
        assert(pre.sw_at(k1, i1));
        assert(pre.sw_at(k2, i2));
    }
    assert forall|i: int, k: u64, j: int|
        0 <= i < cur.queue().len() && #[trigger] cur.sw_at(k, j) implies #[trigger] cur.queue()[
            i
        ].path != cur.sw()[k][j].path by {
        assert(pre.sw_at(k, j));
        if i < n {
            assert(pre.queue()[i].path != pre.sw()[k][j].path);
        } else {
            assert(!(pre.sw_at(k, j) && pre.sw()[k][j].path == fr.path));
        }
    }
    assert forall|d: u128, i: int| #[trigger] cur.hw_at(d, i) implies {
        &&& cur.hw()[d][i].state == FileState::SwProcessed
        &&& exists|c: Seq<u8>|
            c.len() == cur.hw()[d][i].size && digest_of(c, cur.app_args.strict, cur.seed) == d
        &&& exists|k: u64, j: int|
            cur.sw_at(k, j) && cur.sw()[k][j].path == cur.hw()[d][i].path && cur.sw()[k][j].state
                == FileState::SwProcessed
    } by {
        assert(pre.hw_at(d, i));
        let c0 = choose|c: Seq<u8>|
            c.len() == pre.hw()[d][i].size && digest_of(c, pre.app_args.strict, pre.seed) == d;
        assert(c0.len() == cur.hw()[d][i].size && digest_of(c0, cur.app_args.strict, cur.seed)
            == d);
        let (k0, j0): (u64, int) = choose|k: u64, j: int|
            pre.sw_at(k, j) && pre.sw()[k][j].path == pre.hw()[d][i].path && pre.sw()[k][j].state
                == FileState::SwProcessed;
        assert(pre.sw_at(k0, j0));
        assert(cur.sw_at(k0, j0) && cur.sw()[k0][j0].path == cur.hw()[d][i].path && cur.sw()[k0][
            j0
        ].state == FileState::SwProcessed);
    }
    assert forall|d1: u128, i1: int, d2: u128, i2: int|
        #[trigger] cur.hw_at(d1, i1) && #[trigger] cur.hw_at(d2, i2) && !(d1 == d2 && i1
            == i2) implies cur.hw()[d1][i1].path != cur.hw()[d2][i2].path by {
        assert(pre.hw_at(d1, i1));
        assert(pre.hw_at(d2, i2));
    }
}

/// Taking the oldest queued file and filing it under its byte length
/// keeps the pipeline state well-formed.
proof fn lemma_size_insert_preserves_inv(pre: Server, cur: Server)
    requires
        pre.inv(),
        pre.queue().len() > 0,
        cur.queue() == pre.queue().drop_first(),
        cur.sw() == bucket_insert(pre.sw(), pre.queue().first()),
        cur.hw() == pre.hw(),
        cur.scanner_finished == pre.scanner_finished,
        cur.sw_sort_finished == pre.sw_sort_finished,
        cur.app_args == pre.app_args,
        cur.seed == pre.seed,
        cur.max_file_path_len == pre.max_file_path_len,
    ensures
        cur.inv(),
{
    assert forall|d: u128| #[trigger] cur.hw().dom().contains(d) implies cur.hw()[d].len() > 0 by {
        assert(pre.hw().dom().contains(d));
    }
    assert forall|d: u128, i: int| #[trigger] cur.hw_at(d, i) implies grapheme_count(
        cur.hw()[d][i].path,
    ) <= cur.max_file_path_len by {
        assert(pre.hw_at(d, i));
    }
    let f = pre.queue().first();
    let s = f.size;
    let psw = pre.sw();
    let csw = cur.sw();
    let blen: int = if psw.dom().contains(s) {
        psw[s].len() as int
    } else {
        0
    };
    assert(csw.dom() =~= psw.dom().insert(s));
    vstd::set_lib::lemma_set_insert_finite_iff(psw.dom(), s);

    // Every entry of the new size map is an old entry in place, or the
    // newly filed file at the end of its bucket.
    assert forall|k: u64, i: int| #[trigger] cur.sw_at(k, i) implies (k == s && i == blen && csw[k][i]
        == f) || (pre.sw_at(k, i) && csw[k][i] == psw[k][i]) by {
        if k == s {
            if psw.dom().contains(s) {
                assert(csw[s] == psw[s].push(f));
            } else {
                assert(csw[s] == seq![f]);
            }
        }
    }
    assert forall|k: u64, i: int| #[trigger] pre.sw_at(k, i) implies cur.sw_at(k, i) && csw[k][i]
        == psw[k][i] by {
        if k == s && psw.dom().contains(s) {
            assert(csw[s] == psw[s].push(f));
        }
    }
    assert(cur.sw_at(s, blen) && csw[s][blen] == f);

    // The filed file's path is new to the size map: it was still queued.
    assert forall|k: u64, i: int| #[trigger] pre.sw_at(k, i) implies psw[k][i].path != f.path by {
        assert(pre.queue()[0].path != psw[k][i].path);
    }

    // Remaining queue entries keep their standing, one position earlier.
    assert(forall|i: int|
        0 <= i < cur.queue().len() ==> #[trigger] cur.queue()[i] == pre.queue()[i + 1]);

    // Digest entries still answer to a marked size entry.
    assert forall|d: u128, i: int| #[trigger] cur.hw_at(d, i) implies {
        &&& cur.hw()[d][i].state == FileState::SwProcessed
        &&& exists|c: Seq<u8>|
            c.len() == cur.hw()[d][i].size && digest_of(c, cur.app_args.strict, cur.seed) == d
        &&& exists|k: u64, j: int|
            cur.sw_at(k, j) && cur.sw()[k][j].path == cur.hw()[d][i].path && cur.sw()[k][j].state
                == FileState::SwProcessed
    } by {
        assert(pre.hw_at(d, i));
        let c0 = choose|c: Seq<u8>|
            c.len() == pre.hw()[d][i].size && digest_of(c, pre.app_args.strict, pre.seed) == d;
        assert(c0.len() == cur.hw()[d][i].size && digest_of(c0, cur.app_args.strict, cur.seed)
            == d);
        let (k0, j0): (u64, int) = choose|k: u64, j: int|
            pre.sw_at(k, j) && pre.sw()[k][j].path == pre.hw()[d][i].path && pre.sw()[k][j].state
                == FileState::SwProcessed;
        assert(pre.sw_at(k0, j0));
        assert(cur.sw_at(k0, j0) && csw[k0][j0] == psw[k0][j0]);
        assert(cur.sw_at(k0, j0) && cur.sw()[k0][j0].path == cur.hw()[d][i].path && cur.sw()[k0][
            j0
        ].state == FileState::SwProcessed);
    }

    // Buckets stay non-empty and keyed by byte length.
    assert forall|k: u64| #[trigger] cur.sw().dom().contains(k) implies cur.sw()[k].len() > 0 by {
        if k != s {
            assert(psw.dom().contains(k));
        } else {
            assert(cur.sw_at(s, blen));
        }
    }
    assert forall|k: u64, i: int| #[trigger] cur.sw_at(k, i) implies cur.sw()[k][i].size == k by {
        if !(k == s && i == blen) {
            assert(pre.sw_at(k, i));
        }
    }

    // The shortened queue keeps its members' standing.
    assert forall|i: int| 0 <= i < cur.queue().len() implies #[trigger] cur.queue()[i].state
        == FileState::Unprocessed by {
        assert(pre.queue()[i + 1].state == FileState::Unprocessed);
    }
    assert forall|i: int, j: int| 0 <= i < j < cur.queue().len() implies #[trigger] cur.queue()[
        i
    ].path != #[trigger] cur.queue()[j].path by {
        assert(pre.queue()[i + 1].path != pre.queue()[j + 1].path);
    }

    // Distinct paths across the grown size map.
    assert forall|k1: u64, i1: int, k2: u64, i2: int|
        #[trigger] cur.sw_at(k1, i1) && #[trigger] cur.sw_at(k2, i2) && !(k1 == k2 && i1
            == i2) implies cur.sw()[k1][i1].path != cur.sw()[k2][i2].path by {
        if k1 == s && i1 == blen {
            assert(pre.sw_at(k2, i2));
            assert(psw[k2][i2].path != f.path);
        } else if k2 == s && i2 == blen {
            assert(pre.sw_at(k1, i1));
            assert(psw[k1][i1].path != f.path);
        } else {
            assert(pre.sw_at(k1, i1));
            assert(pre.sw_at(k2, i2));
        }
    }

    // Queued paths still differ from every size-bucketed path.
    assert forall|i: int, k: u64, j: int|
        0 <= i < cur.queue().len() && #[trigger] cur.sw_at(k, j) implies #[trigger] cur.queue()[
            i
        ].path != cur.sw()[k][j].path by {
        if k == s && j == blen {
            assert(pre.queue()[0].path != pre.queue()[i + 1].path);
        } else {
            assert(pre.sw_at(k, j));
            assert(pre.queue()[i + 1].path != psw[k][j].path);
        }
    }

    // The digest store is untouched.
    assert forall|d1: u128, i1: int, d2: u128, i2: int|
        #[trigger] cur.hw_at(d1, i1) && #[trigger] cur.hw_at(d2, i2) && !(d1 == d2 && i1
            == i2) implies cur.hw()[d1][i1].path != cur.hw()[d2][i2].path by {
        assert(pre.hw_at(d1, i1));
        assert(pre.hw_at(d2, i2));
    }
}


/// Marking every member of one size bucket keeps the pipeline state
/// well-formed: paths and sizes stand, flags only strengthen.
proof fn lemma_mark_preserves_inv(pre: Server, cur: Server, k: u64)
    requires
        pre.inv(),
        pre.sw().dom().contains(k),
        cur.sw() == pre.sw().insert(k, marked(pre.sw()[k])),
        cur.queue() == pre.queue(),
        cur.hw() == pre.hw(),
        cur.scanner_finished == pre.scanner_finished,
        cur.sw_sort_finished == pre.sw_sort_finished,
        cur.app_args == pre.app_args,
        cur.seed == pre.seed,
        cur.max_file_path_len == pre.max_file_path_len,
    ensures
        cur.inv(),
{
    assert forall|d: u128| #[trigger] cur.hw().dom().contains(d) implies cur.hw()[d].len() > 0 by {
        assert(pre.hw().dom().contains(d));
    }
    assert forall|d: u128, i: int| #[trigger] cur.hw_at(d, i) implies grapheme_count(
        cur.hw()[d][i].path,
    ) <= cur.max_file_path_len by {
        assert(pre.hw_at(d, i));
    }
    let psw = pre.sw();
    let csw = cur.sw();
    assert(csw.dom() =~= psw.dom());

    // Every entry keeps its place, path and size; only flags change.
    assert forall|k2: u64, i: int| #[trigger] cur.sw_at(k2, i) implies pre.sw_at(k2, i) && csw[k2][
        i
    ].path == psw[k2][i].path && csw[k2][i].size == psw[k2][i].size by {
        if k2 == k {
            assert(csw[k] == marked(psw[k]));
        }
    }
    assert forall|k2: u64, i: int| #[trigger] pre.sw_at(k2, i) implies cur.sw_at(k2, i) by {
        if k2 == k {
            assert(csw[k] == marked(psw[k]));
        }
    }
    // Every marked entry stays marked.
    assert forall|k2: u64, i: int|
        #[trigger] pre.sw_at(k2, i) && psw[k2][i].state == FileState::SwProcessed implies csw[k2][
        i
    ].state == FileState::SwProcessed by {
        if k2 == k {
            assert(csw[k] == marked(psw[k]));
        }
    }

    assert forall|k2: u64| #[trigger] cur.sw().dom().contains(k2) implies cur.sw()[k2].len()
        > 0 by {
        assert(pre.sw().dom().contains(k2));
        if k2 == k {
            assert(csw[k] == marked(psw[k]));
        }
    }
    assert forall|k2: u64, i: int| #[trigger] cur.sw_at(k2, i) implies cur.sw()[k2][i].size
        == k2 by {
        assert(pre.sw_at(k2, i));
    }
    assert forall|i: int| 0 <= i < cur.queue().len() implies #[trigger] cur.queue()[i].state
        == FileState::Unprocessed by {
        assert(pre.queue()[i].state == FileState::Unprocessed);
    }
    assert forall|i: int, j: int| 0 <= i < j < cur.queue().len() implies #[trigger] cur.queue()[
        i
    ].path != #[trigger] cur.queue()[j].path by {
        assert(pre.queue()[i].path != pre.queue()[j].path);
    }
    assert forall|k1: u64, i1: int, k2: u64, i2: int|
        #[trigger] cur.sw_at(k1, i1) && #[trigger] cur.sw_at(k2, i2) && !(k1 == k2 && i1
            == i2) implies cur.sw()[k1][i1].path != cur.sw()[k2][i2].path by {
        assert(pre.sw_at(k1, i1));
        assert(pre.sw_at(k2, i2));
        assert(psw[k1][i1].path != psw[k2][i2].path);
    }
    assert forall|i: int, k2: u64, j: int|
        0 <= i < cur.queue().len() && #[trigger] cur.sw_at(k2, j) implies #[trigger] cur.queue()[
            i
        ].path != cur.sw()[k2][j].path by {
        assert(pre.sw_at(k2, j));
        assert(pre.queue()[i].path != psw[k2][j].path);
    }
    assert forall|d: u128, i: int| #[trigger] cur.hw_at(d, i) implies {
        &&& cur.hw()[d][i].state == FileState::SwProcessed
        &&& exists|c: Seq<u8>|
            c.len() == cur.hw()[d][i].size && digest_of(c, cur.app_args.strict, cur.seed) == d
        &&& exists|k2: u64, j: int|
            cur.sw_at(k2, j) && cur.sw()[k2][j].path == cur.hw()[d][i].path && cur.sw()[k2][
                j
            ].state == FileState::SwProcessed
    } by {
        assert(pre.hw_at(d, i));
        let c0 = choose|c: Seq<u8>|
            c.len() == pre.hw()[d][i].size && digest_of(c, pre.app_args.strict, pre.seed) == d;
        assert(c0.len() == cur.hw()[d][i].size && digest_of(c0, cur.app_args.strict, cur.seed)
            == d);
        let (k0, j0): (u64, int) = choose|k2: u64, j: int|
            pre.sw_at(k2, j) && pre.sw()[k2][j].path == pre.hw()[d][i].path && pre.sw()[k2][
                j
            ].state == FileState::SwProcessed;
        assert(pre.sw_at(k0, j0));
        assert(cur.sw_at(k0, j0) && cur.sw()[k0][j0].path == cur.hw()[d][i].path && cur.sw()[k0][
            j0
        ].state == FileState::SwProcessed);
    }
    assert forall|d1: u128, i1: int, d2: u128, i2: int|
        #[trigger] cur.hw_at(d1, i1) && #[trigger] cur.hw_at(d2, i2) && !(d1 == d2 && i1
            == i2) implies cur.hw()[d1][i1].path != cur.hw()[d2][i2].path by {
        assert(pre.hw_at(d1, i1));
        assert(pre.hw_at(d2, i2));
    }
}

/// Filing a marked, content-backed, not-yet-digested file under its
/// digest keeps the pipeline state well-formed.
proof fn lemma_record_preserves_inv(pre: Server, cur: Server, d: u128, fr: FileRec, c: Seq<u8>)
    requires
        pre.inv(),
        fr.state == FileState::SwProcessed,
        c.len() == fr.size,
        digest_of(c, pre.app_args.strict, pre.seed) == d,
        exists|k: u64, j: int|
            pre.sw_at(k, j) && pre.sw()[k][j].path == fr.path && pre.sw()[k][j].state
                == FileState::SwProcessed,
        forall|d2: u128, i2: int|
            #[trigger] pre.hw_at(d2, i2) ==> pre.hw()[d2][i2].path != fr.path,
        grapheme_count(fr.path) <= pre.max_file_path_len,
        cur.hw() == hw_bucket_insert(pre.hw(), d, fr),
        cur.queue() == pre.queue(),
        cur.sw() == pre.sw(),
        cur.scanner_finished == pre.scanner_finished,
        cur.sw_sort_finished == pre.sw_sort_finished,
        cur.app_args == pre.app_args,
        cur.seed == pre.seed,
        cur.max_file_path_len == pre.max_file_path_len,
    ensures
        cur.inv(),
{
    let phw = pre.hw();
    let chw = cur.hw();
    let blen: int = if phw.dom().contains(d) {
        phw[d].len() as int
    } else {
        0
    };
    assert(chw.dom() =~= phw.dom().insert(d));
    vstd::set_lib::lemma_set_insert_finite_iff(phw.dom(), d);

    // Every entry of the grown digest map is an old entry in place, or
    // the newly filed file at the end of its bucket.
    assert forall|d2: u128, i: int| #[trigger] cur.hw_at(d2, i) implies (d2 == d && i == blen
        && chw[d2][i] == fr) || (pre.hw_at(d2, i) && chw[d2][i] == phw[d2][i]) by {
        if d2 == d {
            if phw.dom().contains(d) {
                assert(chw[d] == phw[d].push(fr));
            } else {
                assert(chw[d] == seq![fr]);
            }
        }
    }
    // Every bucket of the grown digest store is non-empty, and the
    // width counter still covers every recorded path.
    assert forall|d2: u128| #[trigger] cur.hw().dom().contains(d2) implies cur.hw()[d2].len()
        > 0 by {
        if d2 != d {
            assert(pre.hw().dom().contains(d2));
        } else {
            assert(cur.hw_at(d, blen));
        }
    }
    assert forall|d2: u128, i: int| #[trigger] cur.hw_at(d2, i) implies grapheme_count(
        cur.hw()[d2][i].path,
    ) <= cur.max_file_path_len by {
        if !(d2 == d && i == blen) {
            assert(pre.hw_at(d2, i));
        }
    }

    assert forall|k2: u64| #[trigger] cur.sw().dom().contains(k2) implies cur.sw()[k2].len()
        > 0 by {
        assert(pre.sw().dom().contains(k2));
    }
    assert forall|k2: u64, i: int| #[trigger] cur.sw_at(k2, i) implies cur.sw()[k2][i].size
        == k2 by {
        assert(pre.sw_at(k2, i));
    }
    assert forall|i: int| 0 <= i < cur.queue().len() implies #[trigger] cur.queue()[i].state
        == FileState::Unprocessed by {
        assert(pre.queue()[i].state == FileState::Unprocessed);
    }
    assert forall|i: int, j: int| 0 <= i < j < cur.queue().len() implies #[trigger] cur.queue()[
        i
    ].path != #[trigger] cur.queue()[j].path by {
        assert(pre.queue()[i].path != pre.queue()[j].path);
    }
    assert forall|k1: u64, i1: int, k2: u64, i2: int|
        #[trigger] cur.sw_at(k1, i1) && #[trigger] cur.sw_at(k2, i2) && !(k1 == k2 && i1
            == i2) implies cur.sw()[k1][i1].path != cur.sw()[k2][i2].path by {
        assert(pre.sw_at(k1, i1));
        assert(pre.sw_at(k2, i2));
    }
    assert forall|i: int, k2: u64, j: int|
        0 <= i < cur.queue().len() && #[trigger] cur.sw_at(k2, j) implies #[trigger] cur.queue()[
            i
        ].path != cur.sw()[k2][j].path by {
        assert(pre.sw_at(k2, j));
        assert(pre.queue()[i].path != pre.sw()[k2][j].path);
    }
    assert forall|d2: u128, i: int| #[trigger] cur.hw_at(d2, i) implies {
        &&& cur.hw()[d2][i].state == FileState::SwProcessed
        &&& exists|cc: Seq<u8>|
            cc.len() == cur.hw()[d2][i].size && digest_of(cc, cur.app_args.strict, cur.seed) == d2
        &&& exists|k2: u64, j: int|
            cur.sw_at(k2, j) && cur.sw()[k2][j].path == cur.hw()[d2][i].path && cur.sw()[k2][
                j
            ].state == FileState::SwProcessed
    } by {
        if d2 == d && i == blen {
            assert(chw[d2][i] == fr);
            assert(c.len() == cur.hw()[d2][i].size && digest_of(c, cur.app_args.strict, cur.seed)
                == d2);
            let (k0, j0): (u64, int) = choose|k2: u64, j: int|
                pre.sw_at(k2, j) && pre.sw()[k2][j].path == fr.path && pre.sw()[k2][j].state
                    == FileState::SwProcessed;
            assert(pre.sw_at(k0, j0));
            assert(cur.sw_at(k0, j0) && cur.sw()[k0][j0].path == cur.hw()[d2][i].path && cur.sw()[
                k0
            ][j0].state == FileState::SwProcessed);
        } else {
            assert(pre.hw_at(d2, i) && chw[d2][i] == phw[d2][i]);
            let c0 = choose|cc: Seq<u8>|
                cc.len() == phw[d2][i].size && digest_of(cc, pre.app_args.strict, pre.seed) == d2;
            assert(c0.len() == cur.hw()[d2][i].size && digest_of(
                c0,
                cur.app_args.strict,
                cur.seed,
            ) == d2);
            let (k0, j0): (u64, int) = choose|k2: u64, j: int|
                pre.sw_at(k2, j) && pre.sw()[k2][j].path == phw[d2][i].path && pre.sw()[k2][
                    j
                ].state == FileState::SwProcessed;
            assert(pre.sw_at(k0, j0));
            assert(cur.sw_at(k0, j0) && cur.sw()[k0][j0].path == cur.hw()[d2][i].path && cur.sw()[
                k0
            ][j0].state == FileState::SwProcessed);
        }
    }
    assert forall|d1: u128, i1: int, d2: u128, i2: int|
        #[trigger] cur.hw_at(d1, i1) && #[trigger] cur.hw_at(d2, i2) && !(d1 == d2 && i1
            == i2) implies cur.hw()[d1][i1].path != cur.hw()[d2][i2].path by {
        if d1 == d && i1 == blen {
            assert(pre.hw_at(d2, i2) && chw[d2][i2] == phw[d2][i2]);
            assert(phw[d2][i2].path != fr.path);
        } else if d2 == d && i2 == blen {
            assert(pre.hw_at(d1, i1) && chw[d1][i1] == phw[d1][i1]);
            assert(phw[d1][i1].path != fr.path);
        } else {
            assert(pre.hw_at(d1, i1) && chw[d1][i1] == phw[d1][i1]);
            assert(pre.hw_at(d2, i2) && chw[d2][i2] == phw[d2][i2]);
        }
    }
}


} // verus!
