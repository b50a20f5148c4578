//! The two grouping stages, as sequential drivers over the coordinator's
//! state.
//!
//! `sizewise` drains the file queue into the size map.  `hashwise` takes
//! every candidate bucket (two or more files of one byte length), marks
//! its members, digests each member's content from the table the caller
//! read, and files it in the digest map; a file whose content cannot be
//! read back at its recorded length is silently dropped, and no file is
//! digested twice.

use vstd::prelude::*;

use unicode_segmentation::UnicodeSegmentation;

use crate::digest::{compute_digest, digest_of};
use crate::fileinfo::{FileInfo, FileRec, FileState};
use crate::server::{drain, mark_candidates, marked, Server};
use crate::store::{recs_of, size_map_get, size_map_keys};

verus! {

/// How far a batch of files has been taken through the pipeline.
#[derive(Debug, Clone, Copy, PartialEq, Eq, Structural)]
pub enum State {
    Initial,
    SizeWise,
    HashWise,
}

/// The contents the digest stage works from: what the caller read from
/// disk for each candidate path, in read order.
pub struct ContentTable {
    pub entries: Vec<(String, Vec<u8>)>,
}

/// The abstract value of a content table.
pub open spec fn table_view(t: Seq<(String, Vec<u8>)>) -> Seq<(Seq<char>, Seq<u8>)> {
    t.map_values(|e: (String, Vec<u8>)| (e.0@, e.1@))
}

impl View for ContentTable {
    type V = Seq<(Seq<char>, Seq<u8>)>;

    open spec fn view(&self) -> Seq<(Seq<char>, Seq<u8>)> {
        table_view(self.entries@)
    }
}

/// The first content recorded under a path, if any.
pub open spec fn spec_lookup(t: Seq<(Seq<char>, Seq<u8>)>, p: Seq<char>) -> Option<Seq<u8>>
    decreases t.len(),
{
    if t.len() == 0 {
        None
    } else if t[0].0 == p {
        Some(t[0].1)
    } else {
        spec_lookup(t.skip(1), p)
    }
}

impl ContentTable {
    /// An empty table.
    pub fn new() -> (r: Self)
        ensures
            r@ =~= Seq::empty(),
    {
        ContentTable { entries: Vec::new() }
    }

    /// Appends one read result.
    pub fn add(&mut self, path: String, data: Vec<u8>)
        ensures
            final(self)@ == old(self)@.push((path@, data@)),
    {
        let ghost pv = path@;
        let ghost dv = data@;
        self.entries.push((path, data));
        proof {
            assert(final(self)@ =~= old(self)@.push((pv, dv)));
        }
    }

    /// Looks a path up: the first content recorded under it.
    pub fn find(&self, p: &String) -> (r: Option<&Vec<u8>>)
        ensures
            match r {
                Some(v) => spec_lookup(self@, p@) == Some(v@),
                None => spec_lookup(self@, p@) is None,
            },
    {
        let n = self.entries.len();
        let mut i: usize = 0;
        proof {
            assert(self@.skip(0) =~= self@);
        }
        while i < n
            invariant
                0 <= i <= n,
                n == self.entries.len(),
                spec_lookup(self@, p@) == spec_lookup(self@.skip(i as int), p@),
            decreases n - i,
        {
            proof {
                assert(self@[i as int] == (self.entries@[i as int].0@, self.entries@[
                    i as int
                ].1@));
                assert(self@.skip(i as int)[0] == self@[i as int]);
            }
            if self.entries[i].0 == *p {
                return Some(&self.entries[i].1);
            }
            proof {
                assert(self@.skip(i as int).skip(1) =~= self@.skip(i + 1));
            }
            i = i + 1;
        }
        proof {
            assert(self@.skip(n as int) =~= Seq::empty());
        }
        None
    }
}

/// The grapheme count of a text: what the path-width counter measures.
/// A pure function of the characters.
pub uninterp spec fn grapheme_count(s: Seq<char>) -> usize;

/// Relies on unicode-segmentation's graphemes: the extended grapheme
/// clusters of the text depend on its characters alone.
#[verifier::external_body]
fn grapheme_len(s: &str) -> (r: usize)
    ensures
        r == grapheme_count(s@),
{
    s.graphemes(true).count()
}

/// No digest bucket holds this path.
pub open spec fn path_absent(s: Server, p: Seq<char>) -> bool {
    forall|d: u128, i: int| #[trigger] s.hw_at(d, i) ==> s.hw()[d][i].path != p
}

/// What became of one file the digest stage selected: either its content
/// came back at the recorded length and the file sits in the digest
/// bucket of that content, or the read failed or the length had changed
/// and the file is in no digest bucket.
pub open spec fn recorded_outcome(s: Server, t: Seq<(Seq<char>, Seq<u8>)>, f: FileRec) -> bool {
    match spec_lookup(t, f.path) {
        Some(c) => {
            if c.len() == f.size {
                s.hw_has(digest_of(c, s.app_args.strict, s.seed), f.path)
            } else {
                path_absent(s, f.path)
            }
        },
        None => path_absent(s, f.path),
    }
}

/// The grouping stages.  Each associated function drives one stage over
/// the coordinator's shared state.
pub struct Processor {}

impl Processor {
    /// Raises a running maximum: the counter never decreases, and after
    /// the call it is at least `next`.
    pub fn compare_and_update_max_path_len(current: &mut u64, next: u64)
        ensures
            *final(current) == (if *old(current) < next {
                next
            } else {
                *old(current)
            }),
    {
        if *current < next {
            *current = next;
        }
    }

    /// The size stage, driven to completion: pops every queued file into
    /// its size bucket and reports the stage finished.  In this
    /// sequential drive the walker has already finished.
    pub fn sizewise(server: &mut Server)
        requires
            old(server).inv(),
            old(server).scanner_finished,
        ensures
            final(server).inv(),
            final(server).scanner_finished,
            final(server).sw_sort_finished,
            final(server).queue().len() == 0,
            final(server).sw() == drain(old(server).sw(), old(server).queue()),
            final(server).hw() == old(server).hw(),
            final(server).app_args == old(server).app_args,
            final(server).seed == old(server).seed,
            final(server).max_file_path_len == old(server).max_file_path_len,
            final(server).stage == State::SizeWise,
    {
        let ghost sw0 = old(server).sw();
        let ghost q0 = old(server).queue();
        loop
            invariant
                server.inv(),
                server.scanner_finished,
                drain(sw0, q0) == drain(server.sw(), server.queue()),
                server.hw() == old(server).hw(),
                server.app_args == old(server).app_args,
                server.seed == old(server).seed,
                server.max_file_path_len == old(server).max_file_path_len,
                server.stage == old(server).stage,
            ensures
                server.inv(),
                server.scanner_finished,
                server.sw_sort_finished,
                server.queue().len() == 0,
                server.sw() == drain(sw0, q0),
                server.hw() == old(server).hw(),
                server.app_args == old(server).app_args,
                server.seed == old(server).seed,
                server.max_file_path_len == old(server).max_file_path_len,
                server.stage == old(server).stage,
            decreases server.queue().len(),
        {
            let progressed = server.size_step();
            if !progressed {
                break;
            }
        }
        server.set_stage(State::SizeWise);
    }

    /// Takes one candidate size bucket: marks every member, and for each
    /// member that had not been taken before, digests the content the
    /// table holds for its path and files the member under that digest.
    /// A member whose content is missing or no longer of the recorded
    /// length is dropped silently.  The size stage may still be running:
    /// a bucket can be taken as soon as it holds two files, and members
    /// that join later are picked up by a later pass.
    pub fn hash_bucket(server: &mut Server, k: u64, table: &ContentTable)
        requires
            old(server).inv(),
            old(server).sw().dom().contains(k),
            old(server).sw()[k].len() >= 2,
        ensures
            final(server).inv(),
            final(server).sw() == old(server).sw().insert(k, marked(old(server).sw()[k])),
            forall|d: u128, i: int|
                #[trigger] old(server).hw_at(d, i) ==> final(server).hw_at(d, i)
                    && final(server).hw()[d][i] == old(server).hw()[d][i],
            forall|d: u128, i: int|
                #[trigger] final(server).hw_at(d, i) && !old(server).hw_at(d, i) ==> exists|j: int|
                    0 <= j < old(server).sw()[k].len() && old(server).sw()[k][j].state
                        == FileState::Unprocessed && old(server).sw()[k][j].path
                        == final(server).hw()[d][i].path,
            forall|j: int|
                0 <= j < old(server).sw()[k].len() && old(server).sw()[k][j].state
                    == FileState::Unprocessed ==> recorded_outcome(
                    *final(server),
                    table@,
                    old(server).sw()[k][j],
                ),
            final(server).queue() == old(server).queue(),
            final(server).scanner_finished == old(server).scanner_finished,
            final(server).sw_sort_finished == old(server).sw_sort_finished,
            final(server).app_args == old(server).app_args,
            final(server).seed == old(server).seed,
            final(server).max_file_path_len >= old(server).max_file_path_len,
            final(server).stage == old(server).stage,
    {
        let ghost pre = *old(server);
        let ghost prebucket = pre.sw()[k];
        let ghost n = prebucket.len() as int;

        // A file still unprocessed sits in no digest bucket: every digest
        // entry answers to a marked size entry, and only one size entry
        // bears any path.
        proof {
            assert forall|j2: int, d: u128, i: int|
                #![trigger prebucket[j2], pre.hw_at(d, i)]
                0 <= j2 < n && prebucket[j2].state == FileState::Unprocessed && pre.hw_at(
                    d,
                    i,
                ) implies pre.hw()[d][i].path != prebucket[j2].path by {
                let (k0, j0): (u64, int) = choose|k0: u64, j0: int|
                    pre.sw_at(k0, j0) && pre.sw()[k0][j0].path == pre.hw()[d][i].path && pre.sw()[
                        k0
                    ][j0].state == FileState::SwProcessed;
                assert(pre.sw_at(k0, j0));
                assert(pre.sw_at(k, j2));
                if pre.hw()[d][i].path == prebucket[j2].path {
                    assert(pre.sw()[k0][j0].path == pre.sw()[k][j2].path);
                    assert(k0 == k && j0 == j2);
                    assert(false);
                }
            }
        }

        let bucket0 = size_map_get(&server.sw_duplicate_set, k);
        match bucket0 {
            None => {
                proof {
                    assert(false);
                }
            },
            Some(bucket0) => {
                let ghost brecs = recs_of(bucket0@);
                server.mark_bucket(k);
                let nn = bucket0.len();
                let mut j: usize = 0;
                proof {
                    assert forall|j2: int|
                        0 <= j2 < n && prebucket[j2].state
                            == FileState::Unprocessed implies path_absent(
                        *server,
                        prebucket[j2].path,
                    ) by {
                        assert forall|d: u128, i: int| #[trigger] server.hw_at(d, i) implies server
                            .hw()[d][i].path != prebucket[j2].path by {
                            assert(pre.hw_at(d, i));
                        }
                    }
                }
                while j < nn
                    invariant
                        server.inv(),
                        nn == bucket0.len(),
                        brecs == recs_of(bucket0@),
                        brecs == prebucket,
                        n == prebucket.len() as int,
                        nn as int == n,
                        pre.inv(),
                        pre.sw().dom().contains(k),
                        prebucket == pre.sw()[k],
                        n >= 2,
                        0 <= j <= nn,
                        server.sw() == pre.sw().insert(k, marked(prebucket)),
                        forall|d: u128, i: int|
                            #[trigger] pre.hw_at(d, i) ==> server.hw_at(d, i) && server.hw()[d][i]
                                == pre.hw()[d][i],
                        forall|d: u128, i: int|
                            #[trigger] server.hw_at(d, i) && !pre.hw_at(d, i) ==> exists|j2: int|
                                0 <= j2 < j && prebucket[j2].state == FileState::Unprocessed
                                    && prebucket[j2].path == server.hw()[d][i].path,
                        forall|j2: int|
                            0 <= j2 < j && prebucket[j2].state == FileState::Unprocessed
                                ==> recorded_outcome(*server, table@, prebucket[j2]),
                        forall|j2: int|
                            j <= j2 < n && prebucket[j2].state == FileState::Unprocessed
                                ==> path_absent(*server, prebucket[j2].path),
                        server.queue() == pre.queue(),
                        server.scanner_finished == pre.scanner_finished,
                        server.sw_sort_finished == pre.sw_sort_finished,
                        server.app_args == pre.app_args,
                        server.seed == pre.seed,
                        server.max_file_path_len >= pre.max_file_path_len,
                        server.stage == pre.stage,
                    decreases nn - j,
                {
                    let ghost sj = *server;
                    if !bucket0[j].is_sw_processed() {
                        let mut fi = bucket0[j].duplicate();
                        proof {
                            assert(fi@ == prebucket[j as int]);
                        }
                        fi.sw_processed();
                        let ghost fr = fi@;
                        proof {
                            assert(fr == (FileRec {
                                state: FileState::SwProcessed,
                                ..prebucket[j as int]
                            }));
                            assert(server.sw_at(k, j as int));
                            assert(server.sw()[k] == marked(prebucket));
                            assert(server.sw()[k][j as int] == fr);
                        }
                        match table.find(&fi.path) {
                            Some(data) => {
                                if data.len() as u64 == fi.size {
                                    let d = compute_digest(
                                        data.as_slice(),
                                        server.app_args.strict,
                                        server.seed,
                                    );
                                    let plen64 = grapheme_len(fi.path.as_str()) as u64;
                                    proof {
                                        assert(path_absent(*server, fr.path));
                                    }
                                    let ghost dv = data@;
                                    server.record_digest(d, fi, plen64, Ghost(dv));
                                    proof {
                                        lemma_bucket_step(
                                            pre,
                                            sj,
                                            *server,
                                            table@,
                                            prebucket,
                                            k,
                                            j as int,
                                            d,
                                            fr,
                                        );
                                    }
                                } else {
                                    proof {
                                        assert(spec_lookup(table@, fr.path) == Some(data@));
                                        assert(data@.len() != fr.size);
                                        assert(recorded_outcome(*server, table@, prebucket[
                                            j as int
                                        ]));
                                    }
                                }
                            },
                            None => {
                                proof {
                                    assert(spec_lookup(table@, fr.path) is None);
                                    assert(recorded_outcome(*server, table@, prebucket[j as int]));
                                }
                            },
                        }
                    }
                    j = j + 1;
                }
            },
        }
    }
}

impl Processor {
    /// The digest stage, driven to completion: takes every candidate size
    /// bucket, marks its members, and files each not-yet-taken member
    /// under the digest of the content the table holds for it.  Files
    /// whose content cannot be read back at the recorded length are
    /// dropped silently; no file is filed twice.  In this sequential
    /// drive the size stage has already finished.
    pub fn hashwise(server: &mut Server, table: &ContentTable)
        requires
            old(server).inv(),
            old(server).sw_sort_finished,
        ensures
            final(server).inv(),
            final(server).scanner_finished,
            final(server).sw_sort_finished,
            final(server).queue().len() == 0,
            final(server).sw() == mark_candidates(old(server).sw()),
            forall|k: u64, j: int|
                #[trigger] final(server).sw_at(k, j) && final(server).sw()[k].len() >= 2
                    ==> final(server).sw()[k][j].state == FileState::SwProcessed,
            forall|d: u128, i: int|
                #[trigger] old(server).hw_at(d, i) ==> final(server).hw_at(d, i)
                    && final(server).hw()[d][i] == old(server).hw()[d][i],
            forall|d: u128, i: int|
                #[trigger] final(server).hw_at(d, i) && !old(server).hw_at(d, i) ==> exists|
                    k: u64,
                    j: int,
                |
                    old(server).sw_at(k, j) && old(server).sw()[k].len() >= 2 && old(server).sw()[
                        k
                    ][j].state == FileState::Unprocessed && old(server).sw()[k][j].path
                        == final(server).hw()[d][i].path,
            forall|k: u64, j: int|
                #[trigger] old(server).sw_at(k, j) && old(server).sw()[k].len() >= 2 && old(
                    server,
                ).sw()[k][j].state == FileState::Unprocessed ==> recorded_outcome(
                    *final(server),
                    table@,
                    old(server).sw()[k][j],
                ),
            final(server).app_args == old(server).app_args,
            final(server).seed == old(server).seed,
            final(server).max_file_path_len >= old(server).max_file_path_len,
            final(server).stage == State::HashWise,
    {
        let ghost pre = *old(server);
        server.set_stage(State::HashWise);
        let keys = size_map_keys(&server.sw_duplicate_set);
        let m = keys.len();
        let mut i: usize = 0;
        while i < m
            invariant
                server.inv(),
                pre.inv(),
                pre.sw_sort_finished,
                m == keys.len(),
                0 <= i <= m,
                keys@.to_set() == pre.sw().dom(),
                keys@.no_duplicates(),
                server.sw().dom() == pre.sw().dom(),
                forall|k: u64|
                    #[trigger] pre.sw().dom().contains(k) ==> server.sw()[k] == (if keys@.take(
                        i as int,
                    ).contains(k) && pre.sw()[k].len() >= 2 {
                        marked(pre.sw()[k])
                    } else {
                        pre.sw()[k]
                    }),
                forall|d: u128, i2: int|
                    #[trigger] pre.hw_at(d, i2) ==> server.hw_at(d, i2) && server.hw()[d][i2]
                        == pre.hw()[d][i2],
                forall|d: u128, i2: int|
                    #[trigger] server.hw_at(d, i2) && !pre.hw_at(d, i2) ==> exists|k: u64, j: int|
                        keys@.take(i as int).contains(k) && pre.sw_at(k, j) && pre.sw()[k].len()
                            >= 2 && pre.sw()[k][j].state == FileState::Unprocessed && pre.sw()[k][
                            j
                        ].path == server.hw()[d][i2].path,
                forall|k: u64, j: int|
                    #[trigger] pre.sw_at(k, j) && keys@.take(i as int).contains(k) && pre.sw()[
                        k
                    ].len() >= 2 && pre.sw()[k][j].state == FileState::Unprocessed
                        ==> recorded_outcome(*server, table@, pre.sw()[k][j]),
                server.scanner_finished == pre.scanner_finished,
                server.sw_sort_finished == pre.sw_sort_finished,
                server.queue() == pre.queue(),
                server.app_args == pre.app_args,
                server.seed == pre.seed,
                server.max_file_path_len >= pre.max_file_path_len,
                server.stage == State::HashWise,
            decreases m - i,
        {
            let k = keys[i];
            proof {
                assert(keys@.to_set().contains(k));
                assert(pre.sw().dom().contains(k));
                // This key was not taken before: the key list repeats none.
                if keys@.take(i as int).contains(k) {
                    let j0 = choose|j0: int|
                        0 <= j0 < i && keys@.take(i as int)[j0] == k;
                    assert(keys@[j0] == keys@[i as int]);
                    assert(false);
                }
                assert(keys@.take(i + 1) =~= keys@.take(i as int).push(k));
            }
            let ghost done = keys@.take(i as int);
            let ghost sjb = *server;
            let bopt = size_map_get(&server.sw_duplicate_set, k);
            match bopt {
                None => {
                    proof {
                        assert(false);
                    }
                },
                Some(bucket) => {
                    proof {
                        assert(recs_of(bucket@) == server.sw()[k]);
                        assert(server.sw()[k] == pre.sw()[k]);
                    }
                    if bucket.len() >= 2 {
                        Self::hash_bucket(server, k, table);
                        proof {
                            lemma_driver_step(pre, sjb, *server, table@, k, done);
                            assert forall|k2: u64| #[trigger] pre.sw().dom().contains(
                                k2,
                            ) implies server.sw()[k2] == (if keys@.take(i + 1).contains(k2)
                                && pre.sw()[k2].len() >= 2 {
                                marked(pre.sw()[k2])
                            } else {
                                pre.sw()[k2]
                            }) by {
                                if k2 == k {
                                    assert(keys@.take(i + 1)[i as int] == k);
                                    assert(keys@.take(i + 1).contains(k));
                                } else {
                                    assert(server.sw()[k2] == sjb.sw()[k2]);
                                    assert(done.contains(k2) == keys@.take(i + 1).contains(k2));
                                }
                            }
                        }
                    } else {
                        proof {
                            assert forall|k2: u64| #[trigger] pre.sw().dom().contains(
                                k2,
                            ) implies server.sw()[k2] == (if keys@.take(i + 1).contains(k2)
                                && pre.sw()[k2].len() >= 2 {
                                marked(pre.sw()[k2])
                            } else {
                                pre.sw()[k2]
                            }) by {
                                if k2 == k {
                                    assert(pre.sw()[k].len() < 2);
                                } else {
                                    assert(done.contains(k2) == keys@.take(i + 1).contains(k2));
                                }
                            }
                            assert forall|k2: u64, j: int|
                                #[trigger] pre.sw_at(k2, j) && keys@.take(i + 1).contains(k2)
                                    && pre.sw()[k2].len() >= 2 && pre.sw()[k2][j].state
                                    == FileState::Unprocessed implies recorded_outcome(
                                *server,
                                table@,
                                pre.sw()[k2][j],
                            ) by {
                                assert(k2 != k);
                                assert(done.contains(k2));
                            }
                            assert forall|d: u128, i2: int|
                                #[trigger] server.hw_at(d, i2) && !pre.hw_at(
                                    d,
                                    i2,
                                ) implies exists|k2: u64, j: int|
                                keys@.take(i + 1).contains(k2) && pre.sw_at(k2, j) && pre.sw()[
                                    k2
                                ].len() >= 2 && pre.sw()[k2][j].state == FileState::Unprocessed
                                    && pre.sw()[k2][j].path == server.hw()[d][i2].path by {
                                let (k2, j) = choose|k2: u64, j: int|
                                    done.contains(k2) && pre.sw_at(k2, j) && pre.sw()[k2].len()
                                        >= 2 && pre.sw()[k2][j].state == FileState::Unprocessed
                                        && pre.sw()[k2][j].path == server.hw()[d][i2].path;
                                assert(keys@.take(i + 1).contains(k2) && pre.sw_at(k2, j)
                                    && pre.sw()[k2].len() >= 2 && pre.sw()[k2][j].state
                                    == FileState::Unprocessed && pre.sw()[k2][j].path
                                    == server.hw()[d][i2].path);
                            }
                        }
                    }
                },
            }
            i = i + 1;
        }
        proof {
            // New digest entries answer to a candidate that was still
            // unprocessed when the stage began.
            assert forall|d: u128, i2: int|
                #[trigger] server.hw_at(d, i2) && !pre.hw_at(d, i2) implies exists|k: u64, j: int|
                pre.sw_at(k, j) && pre.sw()[k].len() >= 2 && pre.sw()[k][j].state
                    == FileState::Unprocessed && pre.sw()[k][j].path == server.hw()[d][
                    i2
                ].path by {
                let (k, j) = choose|k: u64, j: int|
                    keys@.take(i as int).contains(k) && pre.sw_at(k, j) && pre.sw()[k].len() >= 2
                        && pre.sw()[k][j].state == FileState::Unprocessed && pre.sw()[k][j].path
                        == server.hw()[d][i2].path;
                assert(pre.sw_at(k, j) && pre.sw()[k].len() >= 2 && pre.sw()[k][j].state
                    == FileState::Unprocessed && pre.sw()[k][j].path == server.hw()[d][i2].path);
            }
            // Every key was taken: the size map is the candidate-marked one.
            assert(keys@.take(m as int) =~= keys@);
            assert forall|k: u64| #[trigger] pre.sw().dom().contains(k) implies keys@.contains(
                k,
            ) by {
                assert(keys@.to_set().contains(k));
            }
            assert(server.sw() =~= mark_candidates(pre.sw()));
            assert forall|k: u64, j: int|
                #[trigger] server.sw_at(k, j) && server.sw()[k].len() >= 2 implies server.sw()[k][
                j
            ].state == FileState::SwProcessed by {
                assert(pre.sw().dom().contains(k));
                assert(server.sw()[k] == marked(pre.sw()[k]));
                assert(server.sw()[k][j] == (FileRec {
                    state: FileState::SwProcessed,
                    ..pre.sw()[k][j]
                }));
            }
        }
    }
}

/// One bucket of the digest stage preserves the driver's book-keeping:
/// what was recorded for earlier keys survives, because the new entries
/// bear paths of this bucket's members only, and no path sits in two
/// size buckets.
proof fn lemma_driver_step(
    pre: Server,
    sjb: Server,
    cur: Server,
    t: Seq<(Seq<char>, Seq<u8>)>,
    k: u64,
    done: Seq<u64>,
)
    requires
        pre.inv(),
        pre.sw().dom().contains(k),
        pre.sw()[k].len() >= 2,
        !done.contains(k),
        sjb.app_args == pre.app_args,
        sjb.seed == pre.seed,
        cur.app_args == pre.app_args,
        cur.seed == pre.seed,
        // book-keeping before this bucket
        forall|d: u128, i2: int|
            #[trigger] pre.hw_at(d, i2) ==> sjb.hw_at(d, i2) && sjb.hw()[d][i2] == pre.hw()[d][i2],
        forall|d: u128, i2: int|
            #[trigger] sjb.hw_at(d, i2) && !pre.hw_at(d, i2) ==> exists|k2: u64, j: int|
                done.contains(k2) && pre.sw_at(k2, j) && pre.sw()[k2].len() >= 2 && pre.sw()[k2][
                    j
                ].state == FileState::Unprocessed && pre.sw()[k2][j].path == sjb.hw()[d][i2].path,
        forall|k2: u64, j: int|
            #[trigger] pre.sw_at(k2, j) && done.contains(k2) && pre.sw()[k2].len() >= 2 && pre.sw()[
                k2
            ][j].state == FileState::Unprocessed ==> recorded_outcome(sjb, t, pre.sw()[k2][j]),
        // what this bucket did
        forall|d: u128, i2: int|
            #[trigger] sjb.hw_at(d, i2) ==> cur.hw_at(d, i2) && cur.hw()[d][i2] == sjb.hw()[d][i2],
        forall|d: u128, i2: int|
            #[trigger] cur.hw_at(d, i2) && !sjb.hw_at(d, i2) ==> exists|j: int|
                0 <= j < pre.sw()[k].len() && pre.sw()[k][j].state == FileState::Unprocessed
                    && pre.sw()[k][j].path == cur.hw()[d][i2].path,
        forall|j: int|
            0 <= j < pre.sw()[k].len() && pre.sw()[k][j].state == FileState::Unprocessed
                ==> recorded_outcome(cur, t, pre.sw()[k][j]),
    ensures
        forall|d: u128, i2: int|
            #[trigger] pre.hw_at(d, i2) ==> cur.hw_at(d, i2) && cur.hw()[d][i2] == pre.hw()[d][i2],
        forall|d: u128, i2: int|
            #[trigger] cur.hw_at(d, i2) && !pre.hw_at(d, i2) ==> exists|k2: u64, j: int|
                done.push(k).contains(k2) && pre.sw_at(k2, j) && pre.sw()[k2].len() >= 2
                    && pre.sw()[k2][j].state == FileState::Unprocessed && pre.sw()[k2][j].path
                    == cur.hw()[d][i2].path,
        forall|k2: u64, j: int|
            #[trigger] pre.sw_at(k2, j) && done.push(k).contains(k2) && pre.sw()[k2].len() >= 2
                && pre.sw()[k2][j].state == FileState::Unprocessed ==> recorded_outcome(
                cur,
                t,
                pre.sw()[k2][j],
            ),
{
    assert(done.push(k)[done.len() as int] == k);
    assert(done.push(k).contains(k));
    assert forall|k2: u64| done.contains(k2) implies #[trigger] done.push(k).contains(k2) by {
        let j0 = choose|j0: int| 0 <= j0 < done.len() && done[j0] == k2;
        assert(done.push(k)[j0] == k2);
    }

    assert forall|d: u128, i2: int| #[trigger] pre.hw_at(d, i2) implies cur.hw_at(d, i2)
        && cur.hw()[d][i2] == pre.hw()[d][i2] by {
        assert(sjb.hw_at(d, i2));
    }

    assert forall|d: u128, i2: int|
        #[trigger] cur.hw_at(d, i2) && !pre.hw_at(d, i2) implies exists|k2: u64, j: int|
        done.push(k).contains(k2) && pre.sw_at(k2, j) && pre.sw()[k2].len() >= 2 && pre.sw()[k2][
            j
        ].state == FileState::Unprocessed && pre.sw()[k2][j].path == cur.hw()[d][i2].path by {
        if sjb.hw_at(d, i2) {
            if !pre.hw_at(d, i2) {
                let (k2, j) = choose|k2: u64, j: int|
                    done.contains(k2) && pre.sw_at(k2, j) && pre.sw()[k2].len() >= 2 && pre.sw()[
                        k2
                    ][j].state == FileState::Unprocessed && pre.sw()[k2][j].path == sjb.hw()[d][
                        i2
                    ].path;
                assert(done.push(k).contains(k2) && pre.sw_at(k2, j) && pre.sw()[k2].len() >= 2
                    && pre.sw()[k2][j].state == FileState::Unprocessed && pre.sw()[k2][j].path
                    == cur.hw()[d][i2].path);
            }
        } else {
            let j = choose|j: int|
                0 <= j < pre.sw()[k].len() && pre.sw()[k][j].state == FileState::Unprocessed
                    && pre.sw()[k][j].path == cur.hw()[d][i2].path;
            assert(pre.sw_at(k, j));
            assert(done.push(k).contains(k) && pre.sw_at(k, j) && pre.sw()[k].len() >= 2
                && pre.sw()[k][j].state == FileState::Unprocessed && pre.sw()[k][j].path
                == cur.hw()[d][i2].path);
        }
    }

    assert forall|k2: u64, j: int|
        #[trigger] pre.sw_at(k2, j) && done.push(k).contains(k2) && pre.sw()[k2].len() >= 2
            && pre.sw()[k2][j].state == FileState::Unprocessed implies recorded_outcome(
        cur,
        t,
        pre.sw()[k2][j],
    ) by {
        if k2 == k {
            assert(recorded_outcome(cur, t, pre.sw()[k][j]));
        } else {
            // An earlier key: its outcome transfers across this bucket's
            // insertions, whose paths all sit in bucket `k`.
            assert(done.push(k).contains(k2));
            let j0 = choose|j0: int| 0 <= j0 < done.push(k).len() && done.push(k)[j0] == k2;
            assert(done.contains(k2)) by {
                if j0 < done.len() {
                    assert(done[j0] == k2);
                } else {
                    assert(false);
                }
            }
            assert(recorded_outcome(sjb, t, pre.sw()[k2][j]));
            let f = pre.sw()[k2][j];
            match spec_lookup(t, f.path) {
                Some(c) => {
                    if c.len() == f.size {
                        let dd = digest_of(c, sjb.app_args.strict, sjb.seed);
                        let i0 = choose|i0: int| sjb.hw_at(dd, i0) && sjb.hw()[dd][i0].path == f.path;
                        assert(sjb.hw_at(dd, i0));
                        assert(cur.hw_at(dd, i0) && cur.hw()[dd][i0].path == f.path);
                        assert(cur.hw_has(dd, f.path));
                    } else {
                        lemma_absent_after_bucket(pre, sjb, cur, k, k2, j);
                    }
                },
                None => {
                    lemma_absent_after_bucket(pre, sjb, cur, k, k2, j);
                },
            }
        }
    }
}

/// A path absent from the digest store before one bucket was taken stays
/// absent, when it belongs to a member of another size bucket: the new
/// entries all bear paths of the taken bucket, and no path sits in two
/// size buckets.
proof fn lemma_absent_after_bucket(pre: Server, sjb: Server, cur: Server, k: u64, k2: u64, j: int)
    requires
        pre.inv(),
        pre.sw().dom().contains(k),
        pre.sw_at(k2, j),
        k2 != k,
        path_absent(sjb, pre.sw()[k2][j].path),
        forall|d: u128, i2: int|
            #[trigger] cur.hw_at(d, i2) && !sjb.hw_at(d, i2) ==> exists|j3: int|
                0 <= j3 < pre.sw()[k].len() && pre.sw()[k][j3].state == FileState::Unprocessed
                    && pre.sw()[k][j3].path == cur.hw()[d][i2].path,
        forall|d: u128, i2: int|
            #[trigger] sjb.hw_at(d, i2) ==> cur.hw_at(d, i2) && cur.hw()[d][i2] == sjb.hw()[d][i2],
    ensures
        path_absent(cur, pre.sw()[k2][j].path),
{
    let p = pre.sw()[k2][j].path;
    assert forall|d: u128, i2: int| #[trigger] cur.hw_at(d, i2) implies cur.hw()[d][i2].path
        != p by {
        if sjb.hw_at(d, i2) {
            assert(cur.hw()[d][i2] == sjb.hw()[d][i2]);
        } else {
            let j3 = choose|j3: int|
                0 <= j3 < pre.sw()[k].len() && pre.sw()[k][j3].state == FileState::Unprocessed
                    && pre.sw()[k][j3].path == cur.hw()[d][i2].path;
            assert(pre.sw_at(k, j3));
            assert(pre.sw()[k][j3].path != pre.sw()[k2][j].path);
        }
    }
}


/// One recording step of the digest stage preserves the bucket loop's
/// book-keeping: earlier outcomes and absences survive the insertion
/// because only the just-recorded path was added, and bucket members'
/// paths are pairwise distinct.
proof fn lemma_bucket_step(
    pre: Server,
    sj: Server,
    cur: Server,
    t: Seq<(Seq<char>, Seq<u8>)>,
    prebucket: Seq<FileRec>,
    k: u64,
    j: int,
    d: u128,
    fr: FileRec,
)
    requires
        pre.inv(),
        pre.sw().dom().contains(k),
        prebucket == pre.sw()[k],
        0 <= j < prebucket.len(),
        prebucket[j].state == FileState::Unprocessed,
        fr == (FileRec { state: FileState::SwProcessed, ..prebucket[j] }),
        // book-keeping before the step
        forall|d2: u128, i: int|
            #[trigger] pre.hw_at(d2, i) ==> sj.hw_at(d2, i) && sj.hw()[d2][i] == pre.hw()[d2][i],
        forall|d2: u128, i: int|
            #[trigger] sj.hw_at(d2, i) && !pre.hw_at(d2, i) ==> exists|j2: int|
                0 <= j2 < j && prebucket[j2].state == FileState::Unprocessed && prebucket[j2].path
                    == sj.hw()[d2][i].path,
        forall|j2: int|
            0 <= j2 < j && prebucket[j2].state == FileState::Unprocessed ==> recorded_outcome(
                sj,
                t,
                prebucket[j2],
            ),
        forall|j2: int|
            j <= j2 < prebucket.len() && prebucket[j2].state == FileState::Unprocessed
                ==> path_absent(sj, prebucket[j2].path),
        // what the step did
        cur.hw() == crate::server::hw_bucket_insert(sj.hw(), d, fr),
        cur.hw_has(d, fr.path),
        cur.app_args == sj.app_args,
        cur.seed == sj.seed,
        // what was recorded matches the table
        spec_lookup(t, fr.path) matches Some(c) && c.len() == fr.size && digest_of(
            c,
            cur.app_args.strict,
            cur.seed,
        ) == d,
    ensures
        forall|d2: u128, i: int|
            #[trigger] pre.hw_at(d2, i) ==> cur.hw_at(d2, i) && cur.hw()[d2][i] == pre.hw()[d2][i],
        forall|d2: u128, i: int|
            #[trigger] cur.hw_at(d2, i) && !pre.hw_at(d2, i) ==> exists|j2: int|
                0 <= j2 < j + 1 && prebucket[j2].state == FileState::Unprocessed && prebucket[
                    j2
                ].path == cur.hw()[d2][i].path,
        forall|j2: int|
            0 <= j2 < j + 1 && prebucket[j2].state == FileState::Unprocessed ==> recorded_outcome(
                cur,
                t,
                prebucket[j2],
            ),
        forall|j2: int|
            j + 1 <= j2 < prebucket.len() && prebucket[j2].state == FileState::Unprocessed
                ==> path_absent(cur, prebucket[j2].path),
{
    let phw = sj.hw();
    let chw = cur.hw();
    let blen: int = if phw.dom().contains(d) {
        phw[d].len() as int
    } else {
        0
    };
    // Entry characterization of the insertion.
    assert(chw.dom() =~= phw.dom().insert(d));
    assert forall|d2: u128, i: int| #[trigger] cur.hw_at(d2, i) implies (d2 == d && i == blen
        && chw[d2][i] == fr) || (sj.hw_at(d2, i) && chw[d2][i] == phw[d2][i]) by {
        if d2 == d {
            if phw.dom().contains(d) {
                assert(chw[d] == phw[d].push(fr));
            } else {
                assert(chw[d] == seq![fr]);
            }
        }
    }
    assert forall|d2: u128, i: int| #[trigger] sj.hw_at(d2, i) implies cur.hw_at(d2, i) && chw[d2][
        i
    ] == phw[d2][i] by {
        if d2 == d {
            assert(chw[d] == phw[d].push(fr));
        }
    }
    // Bucket members' paths are pairwise distinct.
    assert forall|j2: int| 0 <= j2 < prebucket.len() && j2 != j implies prebucket[j2].path
        != fr.path by {
        assert(pre.sw_at(k, j2));
        assert(pre.sw_at(k, j));
        assert(pre.sw()[k][j2].path != pre.sw()[k][j].path);
    }

    assert forall|d2: u128, i: int|
        #[trigger] cur.hw_at(d2, i) && !pre.hw_at(d2, i) implies exists|j2: int|
        0 <= j2 < j + 1 && prebucket[j2].state == FileState::Unprocessed && prebucket[j2].path
            == cur.hw()[d2][i].path by {
        if d2 == d && i == blen && chw[d2][i] == fr {
            assert(0 <= j < j + 1 && prebucket[j].state == FileState::Unprocessed && prebucket[
                j
            ].path == cur.hw()[d2][i].path);
        } else {
            assert(sj.hw_at(d2, i) && chw[d2][i] == phw[d2][i]);
            if !pre.hw_at(d2, i) {
                let j2 = choose|j2: int|
                    0 <= j2 < j && prebucket[j2].state == FileState::Unprocessed && prebucket[
                        j2
                    ].path == sj.hw()[d2][i].path;
                assert(0 <= j2 < j + 1 && prebucket[j2].state == FileState::Unprocessed
                    && prebucket[j2].path == cur.hw()[d2][i].path);
            }
        }
    }

    assert forall|j2: int|
        0 <= j2 < j + 1 && prebucket[j2].state == FileState::Unprocessed implies recorded_outcome(
        cur,
        t,
        prebucket[j2],
    ) by {
        if j2 == j {
            assert(prebucket[j2].path == fr.path);
        } else {
            assert(recorded_outcome(sj, t, prebucket[j2]));
            match spec_lookup(t, prebucket[j2].path) {
                Some(c) => {
                    if c.len() == prebucket[j2].size {
                        let dd = digest_of(c, sj.app_args.strict, sj.seed);
                        let i0 = choose|i: int|
                            sj.hw_at(dd, i) && sj.hw()[dd][i].path == prebucket[j2].path;
                        assert(sj.hw_at(dd, i0));
                        assert(cur.hw_at(dd, i0) && chw[dd][i0].path == prebucket[j2].path);
                        assert(cur.hw_has(dd, prebucket[j2].path));
                    } else {
                        assert forall|d2: u128, i: int| #[trigger] cur.hw_at(d2, i) implies cur.hw()[
                            d2
                        ][i].path != prebucket[j2].path by {
                            if !(d2 == d && i == blen && chw[d2][i] == fr) {
                                assert(sj.hw_at(d2, i));
                            }
                        }
                    }
                },
                None => {
                    assert forall|d2: u128, i: int| #[trigger] cur.hw_at(d2, i) implies cur.hw()[
                        d2
                    ][i].path != prebucket[j2].path by {
                        if !(d2 == d && i == blen && chw[d2][i] == fr) {
                            assert(sj.hw_at(d2, i));
                        }
                    }
                },
            }
        }
    }

    assert forall|j2: int|
        j + 1 <= j2 < prebucket.len() && prebucket[j2].state
            == FileState::Unprocessed implies path_absent(cur, prebucket[j2].path) by {
        assert(path_absent(sj, prebucket[j2].path));
        assert forall|d2: u128, i: int| #[trigger] cur.hw_at(d2, i) implies cur.hw()[d2][i].path
            != prebucket[j2].path by {
            if !(d2 == d && i == blen && chw[d2][i] == fr) {
                assert(sj.hw_at(d2, i));
            }
        }
    }
}

} // verus!
