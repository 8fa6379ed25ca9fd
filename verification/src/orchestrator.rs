//! Scan orchestrator: the per-file pipeline (cache check, decode, analyze,
//! store), the quota-bounded depth-first traversal of a library's directory
//! tree, and the whole run over the registry's libraries.
//!
//! The orchestrator works on a value of the world as one run sees it: each
//! file with the bytes a read would produce and with what the fault-isolated
//! analysis call does on its samples, each directory with its entries in
//! enumeration order or marked unreadable. No failure of one file is fatal:
//! every stage failure degrades to "this file is not yet cached" and the
//! scan moves on.

use vstd::prelude::*;
use crate::analyzer::{fingerprint_bytes, fingerprint_to_bytes, AnalyzerBehavior};
use crate::cache::{key_of, derive_key, CacheStore};
use crate::decoder::{decode, decode_model, DecodeError};

verus! {

broadcast use vstd::std_specs::vec::axiom_vec_index_decreases;

/// How the pipeline disposed of one examined file. Every variant but
/// `Stored` leaves the cache without an entry for the file, to be retried
/// on the next scheduled run; none of them aborts the run.
#[derive(Clone, Copy, Debug, PartialEq, Eq, Structural)]
pub enum FileOutcome {
    /// A fingerprint was already cached; the file was skipped undecoded.
    CacheHit,
    /// Decode, analysis and store all succeeded; the cache gained an entry.
    Stored,
    /// The file could not be decoded and was skipped.
    DecodeFailed(DecodeError),
    /// Decoding succeeded with zero samples, a decode-stage anomaly; the
    /// analyzer was not invoked.
    EmptyDecode,
    /// The analysis routine rejected the samples.
    AnalysisRejected,
    /// The analysis routine faulted abruptly; the fault boundary contained
    /// the fault and the run went on.
    AnalysisCrashed,
}

/// One entry of a library's directory tree, as one run sees it: a file with
/// its bytes and the analysis call's behavior on its samples, or a
/// directory with its entries in enumeration order, possibly unreadable.
pub enum FsEntry {
    File { path: String, bytes: Vec<u8>, analyzer: AnalyzerBehavior },
    Dir { readable: bool, entries: Vec<FsEntry> },
}

/// A file as the traversal hands it to the pipeline: path, bytes, and the
/// analysis call's behavior on its samples.
pub type FileView = (Seq<char>, Seq<u8>, AnalyzerBehavior);

/// The per-file pipeline over the cache: presence check first; on a miss,
/// decode; zero samples are rejected before the analyzer is invoked; then
/// the fault-isolated analysis call, and a successful fingerprint is stored
/// under the file's key. The result is the cache afterwards and the
/// outcome.
pub open spec fn file_step(
    path: Seq<char>,
    bytes: Seq<u8>,
    analyzer: AnalyzerBehavior,
    cache: Map<Seq<char>, Seq<u8>>,
) -> (Map<Seq<char>, Seq<u8>>, FileOutcome) {
    let key = key_of(path);
    if cache.contains_key(key) {
        (cache, FileOutcome::CacheHit)
    } else {
        match decode_model(bytes) {
            Err(e) => (cache, FileOutcome::DecodeFailed(e)),
            Ok(samples) => {
                if samples.len() == 0 {
                    (cache, FileOutcome::EmptyDecode)
                } else {
                    match analyzer {
                        AnalyzerBehavior::Yields { fingerprint } => (
                            cache.insert(key, fingerprint_bytes(fingerprint.features@)),
                            FileOutcome::Stored,
                        ),
                        AnalyzerBehavior::Rejects => (cache, FileOutcome::AnalysisRejected),
                        AnalyzerBehavior::Faults => (cache, FileOutcome::AnalysisCrashed),
                    }
                }
            },
        }
    }
}

/// Runs the pipeline on one file against the store.
pub fn process_file(
    path: &String,
    bytes: &Vec<u8>,
    analyzer: &AnalyzerBehavior,
    cache: &mut CacheStore,
) -> (outcome: FileOutcome)
    ensures
        ({
            let (cache_after, model_outcome) = file_step(path@, bytes@, *analyzer, old(cache)@);
            final(cache)@ == cache_after && outcome == model_outcome
        }),
{
    let key = derive_key(path.as_str());
    if cache.contains(&key) {
        return FileOutcome::CacheHit;
    }
    match decode(bytes) {
        Err(e) => FileOutcome::DecodeFailed(e),
        Ok(samples) => {
            if samples.len() == 0 {
                FileOutcome::EmptyDecode
            } else {
                match analyzer {
                    AnalyzerBehavior::Yields { fingerprint } => {
                        let value = fingerprint_to_bytes(fingerprint);
                        cache.put(key, value);
                        FileOutcome::Stored
                    },
                    AnalyzerBehavior::Rejects => FileOutcome::AnalysisRejected,
                    AnalyzerBehavior::Faults => FileOutcome::AnalysisCrashed,
                }
            }
        },
    }
}

/// The files one tree entry contributes to a depth-first traversal, in
/// order: a file contributes itself; a readable directory contributes its
/// subtree's files, an unreadable one is skipped whole while its siblings
/// are still visited.
pub open spec fn entry_files(entry: FsEntry) -> Seq<FileView>
    decreases entry,
{
    match entry {
        FsEntry::File { path, bytes, analyzer } => seq![(path@, bytes@, analyzer)],
        FsEntry::Dir { readable, entries } => if readable {
            forest_files(entries@)
        } else {
            Seq::empty()
        },
    }
}

/// The files a sequence of sibling entries contributes, depth first and in
/// enumeration order.
pub open spec fn forest_files(entries: Seq<FsEntry>) -> Seq<FileView>
    decreases entries,
{
    if entries.len() == 0 {
        Seq::empty()
    } else {
        entry_files(entries.first()) + forest_files(entries.drop_first())
    }
}

/// The scan over a flat file list: files are examined in order, each
/// examined file — cache hit or miss, failure or success — consumes one
/// quota unit, and the scan stops as soon as the list or the quota is
/// exhausted. The result is the cache afterwards and one outcome per
/// examined file.
pub open spec fn scan_files(
    files: Seq<FileView>,
    cache: Map<Seq<char>, Seq<u8>>,
    budget: nat,
) -> (Map<Seq<char>, Seq<u8>>, Seq<FileOutcome>)
    decreases files.len(),
{
    if files.len() == 0 || budget == 0 {
        (cache, Seq::empty())
    } else {
        let (cache1, outcome) = file_step(files.first().0, files.first().1, files.first().2, cache);
        let (cache2, rest) = scan_files(files.drop_first(), cache1, (budget - 1) as nat);
        (cache2, seq![outcome] + rest)
    }
}

/// Run quota, and no file's failure stops the scan: with N files under a
/// quota of K the scan examines exactly the first min(K, N) files, one
/// outcome each, and never reaches the rest.
pub proof fn lemma_scan_examines_min(files: Seq<FileView>, cache: Map<Seq<char>, Seq<u8>>, budget: nat)
    ensures
        scan_files(files, cache, budget).1.len() == if budget <= files.len() {
            budget as int
        } else {
            files.len() as int
        },
    decreases files.len(),
{
    if files.len() != 0 && budget != 0 {
        let (cache1, _) = file_step(files.first().0, files.first().1, files.first().2, cache);
        lemma_scan_examines_min(files.drop_first(), cache1, (budget - 1) as nat);
    }
}

/// Once stored, a fingerprint is never overwritten or recomputed: whatever
/// a scan does, every entry the cache held before is still there afterwards
/// with the very bytes it held.
pub proof fn lemma_scan_never_overwrites(
    files: Seq<FileView>,
    cache: Map<Seq<char>, Seq<u8>>,
    budget: nat,
)
    ensures
        ({
            let cache_after = scan_files(files, cache, budget).0;
            forall|key: Seq<char>| #[trigger]
                cache.contains_key(key) ==> cache_after.contains_key(key) && cache_after[key]
                    == cache[key]
        }),
    decreases files.len(),
{
    if files.len() != 0 && budget != 0 {
        let first = files.first();
        let (cache1, _) = file_step(first.0, first.1, first.2, cache);
        let cache_after = scan_files(files, cache, budget).0;
        lemma_scan_never_overwrites(files.drop_first(), cache1, (budget - 1) as nat);
        assert forall|key: Seq<char>| #[trigger]
            cache.contains_key(key) implies cache_after.contains_key(key) && cache_after[key]
            == cache[key] by {
            assert(cache1.contains_key(key) && cache1[key] == cache[key]);
        }
    }
}

/// Whether a key is the cache key of one of these files.
pub open spec fn key_from_files(key: Seq<char>, files: Seq<FileView>) -> bool {
    exists|j: int| 0 <= j < files.len() && key == key_of(#[trigger] files[j].0)
}

/// A scan adds no key of its own invention: every key present afterwards
/// was present before or is the cache key of one of the scanned files.
pub proof fn lemma_scan_adds_only_file_keys(
    files: Seq<FileView>,
    cache: Map<Seq<char>, Seq<u8>>,
    budget: nat,
)
    ensures
        ({
            let cache_after = scan_files(files, cache, budget).0;
            forall|key: Seq<char>| #[trigger]
                cache_after.contains_key(key) ==> cache.contains_key(key) || key_from_files(
                    key,
                    files,
                )
        }),
    decreases files.len(),
{
    if files.len() != 0 && budget != 0 {
        let first = files.first();
        let rest = files.drop_first();
        let (cache1, _) = file_step(first.0, first.1, first.2, cache);
        let cache_after = scan_files(files, cache, budget).0;
        lemma_scan_adds_only_file_keys(rest, cache1, (budget - 1) as nat);
        assert forall|key: Seq<char>| #[trigger]
            cache_after.contains_key(key) && !cache.contains_key(key) implies key_from_files(
            key,
            files,
        ) by {
            assert(cache_after == scan_files(rest, cache1, (budget - 1) as nat).0);
            if cache1.contains_key(key) {
                assert(key == key_of(files[0].0));
            } else {
                assert(key_from_files(key, rest));
                let jj = choose|j: int| 0 <= j < rest.len() && key == key_of(#[trigger] rest[j].0);
                assert(rest[jj] == files[jj + 1]);
                assert(0 <= jj + 1 < files.len() && key == key_of(files[jj + 1].0));
            }
        }
    }
}

/// Re-running a scan over the same files, on the cache the first run left,
/// does no new decode or analysis work and changes no stored byte: every
/// file the first run stored is now a cache hit, every other outcome simply
/// repeats, and the cache stays exactly as the first run left it. The files
/// carry pairwise distinct paths, as a single traversal visits each path at
/// most once.
pub proof fn lemma_rescan_does_no_new_work(
    files: Seq<FileView>,
    cache: Map<Seq<char>, Seq<u8>>,
    budget: nat,
)
    requires
        forall|i: int, j: int| #![trigger files[i], files[j]]
            0 <= i < j < files.len() ==> files[i].0 != files[j].0,
    ensures
        ({
            let (cache1, outs1) = scan_files(files, cache, budget);
            let (cache2, outs2) = scan_files(files, cache1, budget);
            &&& cache2 == cache1
            &&& outs2.len() == outs1.len()
            &&& forall|j: int|
                0 <= j < outs1.len() ==> #[trigger] outs2[j] == (if outs1[j]
                    == FileOutcome::Stored {
                    FileOutcome::CacheHit
                } else {
                    outs1[j]
                })
        }),
    decreases files.len(),
{
    if files.len() != 0 && budget != 0 {
        let first = files.first();
        let rest = files.drop_first();
        let key = key_of(first.0);
        let (ca, oa) = file_step(first.0, first.1, first.2, cache);
        let (c1, outs1rest) = scan_files(rest, ca, (budget - 1) as nat);
        lemma_scan_never_overwrites(rest, ca, (budget - 1) as nat);
        let (cb, ob) = file_step(first.0, first.1, first.2, c1);
        if oa == FileOutcome::CacheHit || oa == FileOutcome::Stored {
            assert(ca.contains_key(key));
            assert(c1.contains_key(key));
            assert(cb == c1 && ob == FileOutcome::CacheHit);
        } else {
            assert(ca == cache && !cache.contains_key(key));
            lemma_scan_adds_only_file_keys(rest, ca, (budget - 1) as nat);
            assert(!c1.contains_key(key)) by {
                if c1.contains_key(key) {
                    assert(key_from_files(key, rest));
                    let jj = choose|j: int|
                        0 <= j < rest.len() && key == key_of(#[trigger] rest[j].0);
                    crate::cache::lemma_key_injective(first.0, rest[jj].0);
                    assert(rest[jj] == files[jj + 1] && first == files[0]);
                    assert(files[0].0 == files[jj + 1].0);
                    assert(false);
                }
            }
            assert(cb == c1 && ob == oa);
        }
        assert forall|i: int, j: int| #![trigger rest[i], rest[j]]
            0 <= i < j < rest.len() implies rest[i].0 != rest[j].0 by {
            assert(rest[i] == files[i + 1] && rest[j] == files[j + 1]);
        }
        lemma_rescan_does_no_new_work(rest, ca, (budget - 1) as nat);
        let (_, outs2rest) = scan_files(rest, c1, (budget - 1) as nat);
        let outs1all = scan_files(files, cache, budget).1;
        let outs2all = scan_files(files, scan_files(files, cache, budget).0, budget).1;
        assert(outs1all == seq![oa] + outs1rest);
        assert(outs2all == seq![ob] + outs2rest);
        assert forall|j: int| 0 <= j < outs1all.len() implies #[trigger] outs2all[j] == (if
            outs1all[j] == FileOutcome::Stored {
            FileOutcome::CacheHit
        } else {
            outs1all[j]
        }) by {
            if j > 0 {
                assert(outs1all[j] == outs1rest[j - 1] && outs2all[j] == outs2rest[j - 1]);
            }
        }
    }
}

/// The quota bounds what traversal reaches: a scan under a quota of K
/// depends on the first K files alone — the files past the quota are never
/// reached, so they leave no outcome and no cache entry.
pub proof fn lemma_files_beyond_quota_unreached(
    files: Seq<FileView>,
    cache: Map<Seq<char>, Seq<u8>>,
    budget: nat,
)
    requires
        budget <= files.len(),
    ensures
        scan_files(files, cache, budget).0 == scan_files(files.take(budget as int), cache, budget).0,
        scan_files(files, cache, budget).1 == scan_files(files.take(budget as int), cache, budget).1,
    decreases files.len(),
{
    if budget == 0 {
        assert(files.take(0) =~= Seq::<FileView>::empty());
    } else {
        let first = files.first();
        let head = files.take(budget as int);
        assert(head.first() == first);
        assert(head.drop_first() =~= files.drop_first().take(budget as int - 1));
        let (cache1, _) = file_step(first.0, first.1, first.2, cache);
        lemma_files_beyond_quota_unreached(files.drop_first(), cache1, (budget - 1) as nat);
    }
}

/// Scanning a concatenated file list is scanning the first part, then the
/// second with whatever cache and quota the first part left.
pub proof fn lemma_scan_files_concat(
    a: Seq<FileView>,
    b: Seq<FileView>,
    cache: Map<Seq<char>, Seq<u8>>,
    budget: nat,
)
    ensures
        ({
            let (cache1, outs1) = scan_files(a, cache, budget);
            let (cache2, outs2) = scan_files(b, cache1, (budget - outs1.len()) as nat);
            &&& scan_files(a + b, cache, budget).0 == cache2
            &&& scan_files(a + b, cache, budget).1 == outs1 + outs2
        }),
    decreases a.len(),
{
    lemma_scan_examines_min(a, cache, budget);
    if a.len() == 0 {
        assert(a + b =~= b);
        let (cache2, outs2) = scan_files(b, cache, budget);
        assert(Seq::<FileOutcome>::empty() + outs2 =~= outs2);
    } else if budget == 0 {
    } else {
        let first = a.first();
        assert((a + b).first() == first);
        assert((a + b).drop_first() =~= a.drop_first() + b);
        let (cache1, outcome) = file_step(first.0, first.1, first.2, cache);
        lemma_scan_files_concat(a.drop_first(), b, cache1, (budget - 1) as nat);
        let (cachem, outsm) = scan_files(a.drop_first(), cache1, (budget - 1) as nat);
        let (cache2, outs2) = scan_files(b, cachem, ((budget - 1) - outsm.len()) as nat);
        assert((seq![outcome] + outsm) + outs2 =~= seq![outcome] + (outsm + outs2));
    }
}

/// Splitting sibling entries at one entry's boundary.
proof fn lemma_forest_files_step(entries: Seq<FsEntry>, i: int)
    requires
        0 <= i < entries.len(),
    ensures
        forest_files(entries.skip(i)) == entry_files(entries[i]) + forest_files(
            entries.skip(i + 1),
        ),
{
    assert(entries.skip(i).first() == entries[i]);
    assert(entries.skip(i).drop_first() =~= entries.skip(i + 1));
}

/// Depth-first traversal of sibling entries under the run's remaining
/// quota: examines exactly the files that the flat scan over this forest's
/// file list examines, appends their outcomes in order, and charges one
/// quota unit per examined file.
#[verifier::loop_isolation(false)]
pub fn scan_forest(
    entries: &Vec<FsEntry>,
    cache: &mut CacheStore,
    remaining: &mut u64,
    outcomes: &mut Vec<FileOutcome>,
)
    ensures
        ({
            let (cache_after, outs) = scan_files(
                forest_files(entries@),
                old(cache)@,
                *old(remaining) as nat,
            );
            &&& final(cache)@ == cache_after
            &&& final(outcomes)@ == old(outcomes)@ + outs
            &&& *final(remaining) as int == *old(remaining) - outs.len()
        }),
    decreases entries@,
{
    let ghost whole = scan_files(forest_files(entries@), old(cache)@, *old(remaining) as nat);
    proof {
        assert(entries@.skip(0) =~= entries@);
        assert(outcomes@.skip(old(outcomes)@.len() as int) =~= Seq::<FileOutcome>::empty());
        assert(Seq::<FileOutcome>::empty() + whole.1 =~= whole.1);
    }
    let mut i: usize = 0;
    while i < entries.len() && *remaining > 0
        invariant
            i <= entries@.len(),
            ({
                let (cache_here, outs_here) = scan_files(
                    forest_files(entries@.skip(i as int)),
                    cache@,
                    *remaining as nat,
                );
                &&& whole.0 == cache_here
                &&& whole.1 == outcomes@.skip(old(outcomes)@.len() as int) + outs_here
                &&& outcomes@.len() >= old(outcomes)@.len()
                &&& outcomes@.subrange(0, old(outcomes)@.len() as int) == old(outcomes)@
                &&& *remaining as int == *old(remaining) - (outcomes@.len() - old(outcomes)@.len())
            }),
        decreases entries@.len() - i,
    {
        proof {
            lemma_forest_files_step(entries@, i as int);
        }
        let entry = &entries[i];
        match entry {
            FsEntry::File { path, bytes, analyzer } => {
                proof {
                    lemma_scan_singleton_head(
                        (path@, bytes@, *analyzer),
                        forest_files(entries@.skip(i as int + 1)),
                        cache@,
                        *remaining as nat,
                    );
                }
                let ghost produced = outcomes@.skip(old(outcomes)@.len() as int);
                let outcome = process_file(path, bytes, analyzer, cache);
                outcomes.push(outcome);
                *remaining = *remaining - 1;
                proof {
                    assert(outcomes@.skip(old(outcomes)@.len() as int) =~= produced.push(outcome));
                    assert(outcomes@.subrange(0, old(outcomes)@.len() as int) =~= old(outcomes)@);
                    let tail = scan_files(
                        forest_files(entries@.skip(i as int + 1)),
                        cache@,
                        *remaining as nat,
                    ).1;
                    assert(produced + (seq![outcome] + tail) =~= produced.push(outcome) + tail);
                }
            },
            FsEntry::Dir { readable, entries: kids } => {
                proof {
                    assert(decreases_to!(entries@ => entries@[i as int]));
                }
                if *readable {
                    let ghost cache_before = cache@;
                    let ghost remaining_before = *remaining as nat;
                    let ghost produced = outcomes@.skip(old(outcomes)@.len() as int);
                    proof {
                        lemma_scan_examines_min(forest_files(kids@), cache@, *remaining as nat);
                        lemma_scan_files_concat(
                            forest_files(kids@),
                            forest_files(entries@.skip(i as int + 1)),
                            cache@,
                            *remaining as nat,
                        );
                    }
                    scan_forest(kids, cache, remaining, outcomes);
                    proof {
                        let (cache1, outs1) = scan_files(
                            forest_files(kids@),
                            cache_before,
                            remaining_before,
                        );
                        assert(outcomes@.skip(old(outcomes)@.len() as int) =~= produced + outs1);
                        assert(outcomes@.subrange(0, old(outcomes)@.len() as int) =~= old(
                            outcomes,
                        )@);
                        let tail = scan_files(
                            forest_files(entries@.skip(i as int + 1)),
                            cache@,
                            *remaining as nat,
                        ).1;
                        assert(produced + (outs1 + tail) =~= (produced + outs1) + tail);
                    }
                } else {
                    proof {
                        assert(entry_files(entries@[i as int]) =~= Seq::<FileView>::empty());
                        assert(entry_files(entries@[i as int]) + forest_files(
                            entries@.skip(i as int + 1),
                        ) =~= forest_files(entries@.skip(i as int + 1)));
                    }
                }
            },
        }
        i = i + 1;
    }
    proof {
        if i == entries@.len() {
            assert(entries@.skip(i as int) =~= Seq::<FsEntry>::empty());
        }
        let produced = outcomes@.skip(old(outcomes)@.len() as int);
        assert(produced + Seq::<FileOutcome>::empty() =~= produced);
        assert(outcomes@ =~= old(outcomes)@ + produced);
    }
}

/// Unfolds the scan at a file standing first in the list.
proof fn lemma_scan_singleton_head(
    file: FileView,
    rest: Seq<FileView>,
    cache: Map<Seq<char>, Seq<u8>>,
    budget: nat,
)
    requires
        budget > 0,
    ensures
        ({
            let (cache1, outcome) = file_step(file.0, file.1, file.2, cache);
            let (cache2, outs) = scan_files(rest, cache1, (budget - 1) as nat);
            &&& scan_files(seq![file] + rest, cache, budget).0 == cache2
            &&& scan_files(seq![file] + rest, cache, budget).1 == seq![outcome] + outs
        }),
{
    let files = seq![file] + rest;
    assert(files.first() == file);
    assert(files.drop_first() =~= rest);
}

/// A media library as the external registry reports it.
pub struct Library {
    pub id: u64,
    pub name: String,
    pub mount_point: String,
    pub total_songs: u64,
}

/// A registry-reported library together with the directory tree mounted at
/// its mount point, as one run sees it.
pub struct LibraryFs {
    pub library: Library,
    pub root: Vec<FsEntry>,
}

/// A failure reported by the external library registry.
pub struct RegistryError {
    pub detail: String,
}

/// Per-library outcome record of one run.
pub struct LibraryReport {
    pub library_id: u64,
    pub outcomes: Vec<FileOutcome>,
}

/// What one run of the whole pipeline came to.
pub enum RunReport {
    /// The registry could not be read; the run was aborted and the next
    /// scheduled run retries from scratch.
    RegistryFailed(RegistryError),
    /// No libraries are configured: a normal terminal state, not an error.
    NoLibraries,
    /// Every library was visited, one report each, in registry order.
    Completed(Vec<LibraryReport>),
}

/// The files one library contributes to the run: none when its mount point
/// is empty, else its tree's files depth first.
pub open spec fn library_files(lib: LibraryFs) -> Seq<FileView> {
    if lib.library.mount_point@.len() == 0 {
        Seq::empty()
    } else {
        forest_files(lib.root@)
    }
}

/// The whole run over the registry's libraries in order, under one shared
/// run quota: each library's files are scanned with whatever quota the
/// previous libraries left.
pub open spec fn run_model(
    libs: Seq<LibraryFs>,
    cache: Map<Seq<char>, Seq<u8>>,
    budget: nat,
) -> (Map<Seq<char>, Seq<u8>>, Seq<Seq<FileOutcome>>)
    decreases libs.len(),
{
    if libs.len() == 0 {
        (cache, Seq::empty())
    } else {
        let (cache1, outs) = scan_files(library_files(libs.first()), cache, budget);
        let left: nat = if outs.len() <= budget {
            (budget - outs.len()) as nat
        } else {
            0
        };
        let (cache2, rest) = run_model(libs.drop_first(), cache1, left);
        (cache2, seq![outs] + rest)
    }
}

/// A run yields one outcome list per library.
pub proof fn lemma_run_model_len(libs: Seq<LibraryFs>, cache: Map<Seq<char>, Seq<u8>>, budget: nat)
    ensures
        run_model(libs, cache, budget).1.len() == libs.len(),
    decreases libs.len(),
{
    if libs.len() != 0 {
        let (cache1, outs) = scan_files(library_files(libs.first()), cache, budget);
        let left: nat = if outs.len() <= budget {
            (budget - outs.len()) as nat
        } else {
            0
        };
        lemma_run_model_len(libs.drop_first(), cache1, left);
    }
}

/// Once stored, a fingerprint survives whole runs untouched: every entry
/// the cache held before a run is still there afterwards with the very
/// bytes it held, whatever the run's libraries, trees and quota are.
pub proof fn lemma_run_never_overwrites(
    libs: Seq<LibraryFs>,
    cache: Map<Seq<char>, Seq<u8>>,
    budget: nat,
)
    ensures
        ({
            let cache_after = run_model(libs, cache, budget).0;
            forall|key: Seq<char>| #[trigger]
                cache.contains_key(key) ==> cache_after.contains_key(key) && cache_after[key]
                    == cache[key]
        }),
    decreases libs.len(),
{
    if libs.len() != 0 {
        let (cache1, outs) = scan_files(library_files(libs.first()), cache, budget);
        let left: nat = if outs.len() <= budget {
            (budget - outs.len()) as nat
        } else {
            0
        };
        let cache_after = run_model(libs, cache, budget).0;
        lemma_scan_never_overwrites(library_files(libs.first()), cache, budget);
        lemma_run_never_overwrites(libs.drop_first(), cache1, left);
        assert forall|key: Seq<char>| #[trigger]
            cache.contains_key(key) implies cache_after.contains_key(key) && cache_after[key]
            == cache[key] by {
            assert(cache1.contains_key(key) && cache1[key] == cache[key]);
        }
    }
}

/// One run of the scan pipeline: consumes the registry's answer, walks each
/// library's tree under the shared run quota, and reports per-library
/// outcomes. A registry error or an empty registry ends the run at once
/// with the cache untouched; nothing a file does aborts the run.
#[verifier::loop_isolation(false)]
pub fn run_once(
    registry: Result<Vec<LibraryFs>, RegistryError>,
    cache: &mut CacheStore,
    quota: u64,
) -> (report: RunReport)
    ensures
        ({
            match registry {
                Err(e) => (report matches RunReport::RegistryFailed(err) && err.detail@
                    == e.detail@) && final(cache)@ == old(cache)@,
                Ok(libs) => {
                    if libs@.len() == 0 {
                        (report matches RunReport::NoLibraries) && final(cache)@ == old(cache)@
                    } else {
                        let (cache_after, all_outs) = run_model(libs@, old(cache)@, quota as nat);
                        &&& final(cache)@ == cache_after
                        &&& (report matches RunReport::Completed(reports) && reports@.len()
                            == libs@.len() && (forall|j: int|
                            0 <= j < libs@.len() ==> (#[trigger] reports@[j]).library_id
                                == libs@[j].library.id && reports@[j].outcomes@ == all_outs[j]))
                    }
                },
            }
        }),
{
    let libs = match registry {
        Err(e) => {
            return RunReport::RegistryFailed(e);
        },
        Ok(libs) => libs,
    };
    if libs.len() == 0 {
        return RunReport::NoLibraries;
    }
    let ghost whole = run_model(libs@, old(cache)@, quota as nat);
    proof {
        lemma_run_model_len(libs@, old(cache)@, quota as nat);
        assert(libs@.skip(0) =~= libs@);
    }
    let mut reports: Vec<LibraryReport> = Vec::new();
    let mut remaining: u64 = quota;
    let mut i: usize = 0;
    while i < libs.len()
        invariant
            i <= libs@.len(),
            reports@.len() == i,
            whole.1.len() == libs@.len(),
            ({
                let (cache_here, rest) = run_model(libs@.skip(i as int), cache@, remaining as nat);
                &&& whole.0 == cache_here
                &&& rest.len() == libs@.len() - i
                &&& forall|j: int|
                    i <= j < libs@.len() ==> #[trigger] whole.1[j] == rest[j - i]
            }),
            forall|j: int|
                0 <= j < i ==> (#[trigger] reports@[j]).library_id == libs@[j].library.id
                    && reports@[j].outcomes@ == whole.1[j],
        decreases libs@.len() - i,
    {
        let ghost cache_before = cache@;
        let ghost remaining_before = remaining as nat;
        proof {
            lemma_run_model_len(libs@.skip(i as int), cache@, remaining as nat);
            lemma_run_model_len(libs@.skip(i as int + 1), run_model(
                libs@.skip(i as int),
                cache@,
                remaining as nat,
            ).0, 0);
            assert(libs@.skip(i as int).first() == libs@[i as int]);
            assert(libs@.skip(i as int).drop_first() =~= libs@.skip(i as int + 1));
        }
        let lib = &libs[i];
        let mut outs: Vec<FileOutcome> = Vec::new();
        if !lib.library.mount_point.as_str().is_empty() {
            scan_forest(&lib.root, cache, &mut remaining, &mut outs);
            proof {
                let (_, scanned) = scan_files(
                    forest_files(lib.root@),
                    cache_before,
                    remaining_before,
                );
                assert(outs@ =~= Seq::<FileOutcome>::empty() + scanned);
            }
        } else {
            proof {
                assert(library_files(libs@[i as int]) == Seq::<FileView>::empty());
            }
        }
        proof {
            lemma_run_model_len(libs@.skip(i as int + 1), cache@, remaining as nat);
        }
        reports.push(LibraryReport { library_id: lib.library.id, outcomes: outs });
        i = i + 1;
    }
    proof {
        assert(libs@.skip(i as int) =~= Seq::<LibraryFs>::empty());
    }
    RunReport::Completed(reports)
}

/// A confirmed cache hit short-circuits the pipeline: the file is neither
/// decoded nor analyzed, and the cache is unchanged.
pub proof fn lemma_cache_hit_short_circuits(
    path: Seq<char>,
    bytes: Seq<u8>,
    analyzer: AnalyzerBehavior,
    cache: Map<Seq<char>, Seq<u8>>,
)
    requires
        cache.contains_key(key_of(path)),
    ensures
        file_step(path, bytes, analyzer, cache) == (cache, FileOutcome::CacheHit),
{
}

/// Idempotence of the pipeline: once a pass over a path has stored its
/// fingerprint, a second pass over the same path is a cache hit — no decode
/// or analysis work, and the cache stays as it is — whatever bytes or
/// analyzer behavior the second pass would see.
pub proof fn lemma_store_then_hit(
    path: Seq<char>,
    bytes: Seq<u8>,
    analyzer: AnalyzerBehavior,
    cache: Map<Seq<char>, Seq<u8>>,
    bytes2: Seq<u8>,
    analyzer2: AnalyzerBehavior,
)
    requires
        file_step(path, bytes, analyzer, cache).1 == FileOutcome::Stored,
    ensures
        ({
            let cache_after = file_step(path, bytes, analyzer, cache).0;
            file_step(path, bytes2, analyzer2, cache_after) == (cache_after, FileOutcome::CacheHit)
        }),
{
}

/// Containment of every failure: a file's step touches no key but the
/// file's own, and only a successful store adds that one. In particular an
/// abrupt fault of the analysis routine, a decode error, or a rejected
/// input leaves the cache exactly as it was.
pub proof fn lemma_step_touches_only_own_key(
    path: Seq<char>,
    bytes: Seq<u8>,
    analyzer: AnalyzerBehavior,
    cache: Map<Seq<char>, Seq<u8>>,
)
    ensures
        ({
            let (cache_after, outcome) = file_step(path, bytes, analyzer, cache);
            &&& (outcome != FileOutcome::Stored ==> cache_after == cache)
            &&& (outcome == FileOutcome::Stored ==> cache_after == cache.insert(
                key_of(path),
                cache_after[key_of(path)],
            ))
        }),
{
    let (cache_after, outcome) = file_step(path, bytes, analyzer, cache);
    if outcome == FileOutcome::Stored {
        assert(cache_after =~= cache.insert(key_of(path), cache_after[key_of(path)]));
    }
}

/// Fault containment at the file level: when the analysis routine would
/// fault abruptly on a reached file's samples, the outcome records the
/// crash, the cache is unchanged, and nothing aborts.
pub proof fn lemma_analysis_fault_contained(
    path: Seq<char>,
    bytes: Seq<u8>,
    cache: Map<Seq<char>, Seq<u8>>,
)
    requires
        !cache.contains_key(key_of(path)),
        decode_model(bytes) is Ok,
        decode_model(bytes)->Ok_0.len() > 0,
    ensures
        file_step(path, bytes, AnalyzerBehavior::Faults, cache) == (
            cache,
            FileOutcome::AnalysisCrashed,
        ),
{
}

/// A file that cannot be decoded is skipped: the outcome records the decode
/// error and the cache is unchanged.
pub proof fn lemma_decode_error_skips(
    path: Seq<char>,
    bytes: Seq<u8>,
    analyzer: AnalyzerBehavior,
    cache: Map<Seq<char>, Seq<u8>>,
)
    requires
        !cache.contains_key(key_of(path)),
        decode_model(bytes) is Err,
    ensures
        file_step(path, bytes, analyzer, cache) == (
            cache,
            FileOutcome::DecodeFailed(decode_model(bytes)->Err_0),
        ),
{
}

} // verus!
