//! The clean-up of the cache: which files belong to it, and which of them are
//! removed, in which order.
//!
//! Times are nanoseconds since 1970; earlier ones are negative.
use crate::cache;
use crate::formats::TargetFormat;
use crate::query;
use crate::sorting;
use vstd::prelude::*;

verus! {

// --------------------------------------------------------------------- types

/// A file of the cache. Its path is whatever the file can be found by.
#[derive(Debug)]
pub struct CacheFile<P> {
    pub path: P,
    /// The length of the file, in bytes.
    pub len: u64,
    /// When the file was last written.
    pub modified: i128,
}

/// What an entry of a directory is.
#[derive(Debug, Clone, Copy, PartialEq, Eq, Structural)]
pub enum EntryKind {
    Directory,
    /// A file, and when it was last written, if that is known.
    File { len: u64, modified: Option<i128> },
    /// Something else.
    Other,
    /// Nothing can be found out about it.
    Unreadable,
}

/// The search for the files of the cache, one directory after the other.
#[derive(Debug)]
pub struct CacheWalk<P> {
    /// The format whose directory is searched.
    pub format: TargetFormat,
    /// The directories that are still to be read.
    pub pending: Vec<P>,
    /// The files that were found.
    pub files: Vec<CacheFile<P>>,
}

/// The removal of files, one after the other.
#[derive(Debug)]
pub struct CacheCleanup<P> {
    files: Vec<CacheFile<P>>,
    queue: Vec<usize>,
    expired: usize,
    at: usize,
    total_bytes: u128,
    removed_files: u64,
    removed_bytes: u128,
    max_bytes: u64,
}

/// An entry of a directory that was read.
pub struct FoundEntry<P> {
    pub path: P,
    /// Its name, if that is text.
    pub name: Option<Seq<char>>,
    pub kind: EntryKind,
}

/// How far the search has come.
pub struct WalkState<P> {
    /// The directories that are still to be read.
    pub pending: Seq<P>,
    /// The files that were found.
    pub files: Seq<CacheFile<P>>,
    /// The directories that were read.
    pub read: Seq<P>,
}

/// How far the removal of files has come.
pub struct Progress {
    /// So many files of the queue were dealt with.
    pub at: int,
    /// So many bytes the files have that were not removed.
    pub total_bytes: int,
    /// So many files were removed.
    pub removed_files: int,
    /// So many bytes those files had.
    pub removed_bytes: int,
}

// ---------------------------------------------------------------- statements

/// The nanoseconds of a second.
pub const NANOS_PER_SEC: u64 = 1_000_000_000;

/// `now` is later than `modified` by more than `max_age`.
pub open spec fn is_outlived(modified: i128, now: i128, max_age: u128) -> bool {
    now - modified > max_age
}

/// The places of the files that have expired, or of those that have not, in
/// their order.
pub open spec fn places_by_age<P>(
    files: Seq<CacheFile<P>>,
    now: i128,
    max_age: u128,
    expired: bool,
) -> Seq<usize>
    decreases files.len(),
{
    if files.len() == 0 {
        Seq::empty()
    } else {
        let front = places_by_age(files.drop_last(), now, max_age, expired);
        if is_outlived(files.last().modified, now, max_age) == expired {
            front.push((files.len() - 1) as usize)
        } else {
            front
        }
    }
}

/// When the files were last written.
pub open spec fn times<P>(files: Seq<CacheFile<P>>) -> Seq<i128> {
    files.map_values(|file: CacheFile<P>| file.modified)
}

/// The files in the order in which they may be removed: first those that have
/// expired, as they were found; then the others, those before that were written
/// earlier.
pub open spec fn is_queue<P>(
    queue: Seq<usize>,
    expired: int,
    files: Seq<CacheFile<P>>,
    now: i128,
    max_age: u128,
) -> bool {
    &&& 0 <= expired <= queue.len()
    &&& queue.take(expired) == places_by_age(files, now, max_age, true)
    &&& sorting::in_order(times(files), queue.skip(expired))
    &&& sorting::same_places(queue.skip(expired), places_by_age(files, now, max_age, false))
}

/// The bytes that the files have together.
pub open spec fn total_len<P>(files: Seq<CacheFile<P>>) -> int
    decreases files.len(),
{
    if files.len() == 0 {
        0
    } else {
        total_len(files.drop_last()) + files.last().len
    }
}

/// Nothing was removed yet.
pub open spec fn at_start<P>(files: Seq<CacheFile<P>>) -> Progress {
    Progress { at: 0, total_bytes: total_len(files), removed_files: 0, removed_bytes: 0 }
}

/// There is a file to be removed next: one that has expired, or any other while
/// the cache is too large.
pub open spec fn goes_on(p: Progress, queue: Seq<usize>, expired: int, max_bytes: int) -> bool {
    0 <= p.at < queue.len() && (p.at < expired || p.total_bytes > max_bytes)
}

/// How far the removal has come once the next file was removed, or could not
/// be.
pub open spec fn after_attempt(p: Progress, len: int, removed: bool) -> Progress {
    if removed {
        Progress {
            at: p.at + 1,
            total_bytes: p.total_bytes - len,
            removed_files: p.removed_files + 1,
            removed_bytes: p.removed_bytes + len,
        }
    } else {
        Progress { at: p.at + 1, ..p }
    }
}

/// How far the removal has come once so many attempts had these outcomes.
pub open spec fn progress<P>(
    files: Seq<CacheFile<P>>,
    queue: Seq<usize>,
    outcomes: Seq<bool>,
) -> Progress
    decreases outcomes.len(),
{
    if outcomes.len() == 0 {
        at_start(files)
    } else {
        let p = progress(files, queue, outcomes.drop_last());
        after_attempt(p, files[queue[p.at] as int].len as int, outcomes.last())
    }
}

/// Each attempt was made while there was a file to be removed.
pub open spec fn is_run<P>(
    files: Seq<CacheFile<P>>,
    queue: Seq<usize>,
    expired: int,
    max_bytes: int,
    outcomes: Seq<bool>,
) -> bool {
    forall|n: int|
        0 <= n < outcomes.len() ==> goes_on(
            #[trigger] progress(files, queue, outcomes.take(n)),
            queue,
            expired,
            max_bytes,
        )
}

/// An entry is one of the files that the cache looks after.
pub open spec fn is_cache_file<P>(entry: FoundEntry<P>, format: TargetFormat) -> bool {
    entry.kind is File && (entry.name matches Some(name) && cache::is_managed(
        name,
        format.extension_text(),
    ))
}

/// The file that an entry is. One of unknown age was written at time zero.
pub open spec fn cache_file_of<P>(entry: FoundEntry<P>) -> CacheFile<P> {
    CacheFile {
        path: entry.path,
        len: entry.kind->len,
        modified: match entry.kind->modified {
            Some(time) => time,
            None => 0,
        },
    }
}

/// The directories that are still to be read once an entry was found.
pub open spec fn pending_after<P>(pending: Seq<P>, entry: FoundEntry<P>) -> Seq<P> {
    if entry.kind is Directory {
        pending.push(entry.path)
    } else {
        pending
    }
}

/// The files that were found once an entry was found.
pub open spec fn files_after<P>(
    files: Seq<CacheFile<P>>,
    format: TargetFormat,
    entry: FoundEntry<P>,
) -> Seq<CacheFile<P>> {
    if is_cache_file(entry, format) {
        files.push(cache_file_of(entry))
    } else {
        files
    }
}

/// The files that were found once all these entries were found.
pub open spec fn files_among<P>(entries: Seq<FoundEntry<P>>, format: TargetFormat) -> Seq<
    CacheFile<P>,
>
    decreases entries.len(),
{
    if entries.len() == 0 {
        Seq::empty()
    } else {
        files_after(files_among(entries.drop_last(), format), format, entries.last())
    }
}

/// The directories among the entries, as they come.
pub open spec fn subdirectories<P>(entries: Seq<FoundEntry<P>>) -> Seq<P>
    decreases entries.len(),
{
    if entries.len() == 0 {
        Seq::empty()
    } else {
        pending_after(subdirectories(entries.drop_last()), entries.last())
    }
}

/// The directories that are still to be read once all these entries were found.
pub open spec fn pending_after_all<P>(pending: Seq<P>, entries: Seq<FoundEntry<P>>) -> Seq<P>
    decreases entries.len(),
{
    if entries.len() == 0 {
        pending
    } else {
        pending_after(pending_after_all(pending, entries.drop_last()), entries.last())
    }
}

/// The files that were found once all these entries were found as well.
pub open spec fn files_after_all<P>(
    files: Seq<CacheFile<P>>,
    format: TargetFormat,
    entries: Seq<FoundEntry<P>>,
) -> Seq<CacheFile<P>>
    decreases entries.len(),
{
    if entries.len() == 0 {
        files
    } else {
        files_after(
            files_after_all(files, format, entries.drop_last()),
            format,
            entries.last(),
        )
    }
}

/// The directories that are to be read where the search of a format starts.
pub open spec fn pending_at_start<P>(root: P, present: bool) -> Seq<P> {
    if present {
        seq![root]
    } else {
        Seq::empty()
    }
}

/// The entries of a directory. One that cannot be read has none.
pub open spec fn entries_in<P>(listing: Map<P, Seq<FoundEntry<P>>>, dir: P) -> Seq<FoundEntry<P>> {
    if listing.contains_key(dir) {
        listing[dir]
    } else {
        Seq::empty()
    }
}

/// The walk once the next directory was read, if there is one to be read: it is
/// taken from the pending ones, and each of its entries is found.
pub open spec fn walk_on<P>(
    listing: Map<P, Seq<FoundEntry<P>>>,
    format: TargetFormat,
    walk: WalkState<P>,
) -> WalkState<P> {
    if walk.pending.len() == 0 {
        walk
    } else {
        let dir = walk.pending.last();
        WalkState {
            pending: pending_after_all(walk.pending.drop_last(), entries_in(listing, dir)),
            files: files_after_all(walk.files, format, entries_in(listing, dir)),
            read: walk.read.push(dir),
        }
    }
}

/// The walk from a root on, once `n` directories were read.
pub open spec fn walked<P>(
    listing: Map<P, Seq<FoundEntry<P>>>,
    format: TargetFormat,
    root: P,
    files: Seq<CacheFile<P>>,
    n: nat,
) -> WalkState<P>
    decreases n,
{
    if n == 0 {
        WalkState { pending: seq![root], files, read: Seq::empty() }
    } else {
        walk_on(listing, format, walked(listing, format, root, files, (n - 1) as nat))
    }
}

/// The files that the cache looks after in these directories, as they come.
pub open spec fn files_in<P>(
    listing: Map<P, Seq<FoundEntry<P>>>,
    format: TargetFormat,
    dirs: Seq<P>,
) -> Seq<CacheFile<P>>
    decreases dirs.len(),
{
    if dirs.len() == 0 {
        Seq::empty()
    } else {
        files_in(listing, format, dirs.drop_last()) + files_among(
            entries_in(listing, dirs.last()),
            format,
        )
    }
}

/// The directory `dir` stands in the directory `parent`.
pub open spec fn stands_in<P>(listing: Map<P, Seq<FoundEntry<P>>>, parent: P, dir: P) -> bool {
    subdirectories(entries_in(listing, parent)).contains(dir)
}

/// The directory `dir` stands `depth` levels below the root.
pub open spec fn stands_below<P>(
    listing: Map<P, Seq<FoundEntry<P>>>,
    root: P,
    dir: P,
    depth: nat,
) -> bool
    decreases depth,
{
    if depth == 0 {
        dir == root
    } else {
        exists|parent: P|
            stands_below(listing, root, parent, (depth - 1) as nat) && #[trigger] stands_in(
                listing,
                parent,
                dir,
            )
    }
}

/// The directory `dir` is the root or stands somewhere below it.
pub open spec fn is_reached<P>(listing: Map<P, Seq<FoundEntry<P>>>, root: P, dir: P) -> bool {
    exists|depth: nat| #[trigger] stands_below(listing, root, dir, depth)
}

/// The directories are a tree: each stands in one other at most, once, and the
/// root stands in none.
pub open spec fn is_tree<P>(listing: Map<P, Seq<FoundEntry<P>>>, root: P) -> bool {
    &&& forall|parent: P| !#[trigger] stands_in(listing, parent, root)
    &&& forall|a: P, b: P, dir: P| #[trigger]
        stands_in(listing, a, dir) && #[trigger] stands_in(listing, b, dir) ==> a == b
    &&& forall|parent: P| (#[trigger] subdirectories(entries_in(listing, parent))).no_duplicates()
}

impl<P> CacheCleanup<P> {
    /// The files among which is chosen.
    pub closed spec fn files(self) -> Seq<CacheFile<P>> {
        self.files@
    }

    /// The order in which they may be removed.
    pub closed spec fn queue(self) -> Seq<usize> {
        self.queue@
    }

    /// So many at the head of the queue have expired.
    pub closed spec fn expired(self) -> int {
        self.expired as int
    }

    /// The size that the cache is cut down to.
    pub closed spec fn max_bytes(self) -> int {
        self.max_bytes as int
    }

    /// How far the removal has come.
    pub closed spec fn progress(self) -> Progress {
        Progress {
            at: self.at as int,
            total_bytes: self.total_bytes as int,
            removed_files: self.removed_files as int,
            removed_bytes: self.removed_bytes as int,
        }
    }

    /// The queue leads to files, and what was removed and what remains are all
    /// the files together.
    pub closed spec fn wf(self) -> bool {
        &&& sorting::within(self.queue@, self.files@.len())
        &&& forall|k: int, l: int|
            0 <= k < l < self.queue@.len() ==> #[trigger] self.queue@[k]
                != #[trigger] self.queue@[l]
        &&& self.expired <= self.queue@.len()
        &&& self.at <= self.queue@.len()
        &&& self.removed_files <= self.at
        &&& self.total_bytes >= queued_len(self.files@, self.queue@.skip(self.at as int))
        &&& self.total_bytes + self.removed_bytes == total_len(self.files@)
        &&& total_len(self.files@) <= u128::MAX
    }
}

/// The bytes that the files at the given places have together.
pub open spec fn queued_len<P>(files: Seq<CacheFile<P>>, places: Seq<usize>) -> int
    decreases places.len(),
{
    if places.len() == 0 {
        0
    } else {
        files[places[0] as int].len + queued_len(files, places.drop_first())
    }
}

// -------------------------------------------------------------------- lemmas

/// Which places are chosen.
proof fn lemma_places_by_age<P>(
    files: Seq<CacheFile<P>>,
    now: i128,
    max_age: u128,
    expired: bool,
)
    requires
        files.len() <= usize::MAX,
    ensures
        sorting::growing(places_by_age(files, now, max_age, expired)),
        sorting::within(places_by_age(files, now, max_age, expired), files.len()),
        forall|x: usize| #[trigger]
            places_by_age(files, now, max_age, expired).contains(x) <==> x < files.len()
                && is_outlived(files[x as int].modified, now, max_age) == expired,
    decreases files.len(),
{
    let places = places_by_age(files, now, max_age, expired);
    if files.len() > 0 {
        let rest = files.drop_last();
        lemma_places_by_age(rest, now, max_age, expired);
        let front = places_by_age(rest, now, max_age, expired);
        let last = (files.len() - 1) as usize;
        assert forall|x: usize| #[trigger] places.contains(x) <==> x < files.len() && is_outlived(
            files[x as int].modified,
            now,
            max_age,
        ) == expired by {
            if places.contains(x) {
                let k = choose|k: int| 0 <= k < places.len() && places[k] == x;
                if k < front.len() {
                    assert(front.contains(x));
                    assert(rest[x as int] == files[x as int]);
                }
            }
            if x < files.len() && is_outlived(files[x as int].modified, now, max_age) == expired {
                if x < last {
                    assert(rest[x as int] == files[x as int]);
                    assert(front.contains(x));
                    let k = choose|k: int| 0 <= k < front.len() && front[k] == x;
                    assert(places[k] == x);
                } else {
                    assert(places[places.len() - 1] == x);
                }
            }
        }
    }
}

/// The bytes at places among the first files only.
proof fn lemma_queued_len_of_front<P>(files: Seq<CacheFile<P>>, places: Seq<usize>)
    requires
        files.len() > 0,
        sorting::within(places, (files.len() - 1) as nat),
    ensures
        queued_len(files, places) == queued_len(files.drop_last(), places),
    decreases places.len(),
{
    if places.len() > 0 {
        assert(places[0] < files.len() - 1);
        lemma_queued_len_of_front(files, places.drop_first());
    }
}

/// One place taken out.
proof fn lemma_queued_len_without<P>(files: Seq<CacheFile<P>>, places: Seq<usize>, k: int)
    requires
        0 <= k < places.len(),
    ensures
        queued_len(files, places) == files[places[k] as int].len + queued_len(
            files,
            places.remove(k),
        ),
    decreases k,
{
    if k == 0 {
        assert(places.remove(0) == places.drop_first());
    } else {
        lemma_queued_len_without(files, places.drop_first(), k - 1);
        assert(places.drop_first().remove(k - 1) == places.remove(k).drop_first());
        assert(places.remove(k)[0] == places[0]);
    }
}

/// All places, each once, have all the bytes.
proof fn lemma_queued_len_of_all<P>(files: Seq<CacheFile<P>>, places: Seq<usize>)
    requires
        files.len() <= usize::MAX,
        sorting::within(places, files.len()),
        forall|k: int, l: int|
            0 <= k < l < places.len() ==> #[trigger] places[k] != #[trigger] places[l],
        forall|x: usize| x < files.len() ==> #[trigger] places.contains(x),
    ensures
        queued_len(files, places) == total_len(files),
    decreases files.len(),
{
    if files.len() == 0 {
        if places.len() > 0 {
            assert(places[0] < 0);
        }
    } else {
        let last = (files.len() - 1) as usize;
        assert(places.contains(last));
        let k = choose|k: int| 0 <= k < places.len() && places[k] == last;
        let rest = places.remove(k);
        assert forall|j: int| 0 <= j < rest.len() implies #[trigger] rest[j] < files.len() - 1 by {
            let i = if j < k {
                j
            } else {
                j + 1
            };
            assert(rest[j] == places[i]);
            assert(places[i] < files.len());
            if i < k {
                assert(places[i] != places[k]);
            } else {
                assert(places[k] != places[i]);
            }
        }
        assert forall|x: usize| x < files.len() - 1 implies #[trigger] rest.contains(x) by {
            assert(places.contains(x));
            let i = choose|i: int| 0 <= i < places.len() && places[i] == x;
            if i < k {
                assert(rest[i] == x);
            } else {
                assert(rest[i - 1] == x);
            }
        }
        lemma_queued_len_without(files, places, k);
        lemma_queued_len_of_front(files, rest);
        lemma_queued_len_of_all(files.drop_last(), rest);
    }
}

/// The bytes of many files.
proof fn lemma_total_len_bound<P>(files: Seq<CacheFile<P>>)
    ensures
        0 <= total_len(files) <= files.len() * u64::MAX,
    decreases files.len(),
{
    if files.len() > 0 {
        lemma_total_len_bound(files.drop_last());
        assert((files.len() - 1) * u64::MAX + u64::MAX == files.len() * u64::MAX)
            by (nonlinear_arith);
    }
}

/// The bytes of some files.
proof fn lemma_queued_len_is_natural<P>(files: Seq<CacheFile<P>>, places: Seq<usize>)
    ensures
        queued_len(files, places) >= 0,
    decreases places.len(),
{
    if places.len() > 0 {
        lemma_queued_len_is_natural(files, places.drop_first());
    }
}

/// A queue holds every place, and none of them twice.
pub proof fn every_file_is_queued_once<P>(
    queue: Seq<usize>,
    expired: int,
    files: Seq<CacheFile<P>>,
    now: i128,
    max_age: u128,
)
    requires
        files.len() <= usize::MAX,
        is_queue(queue, expired, files, now, max_age),
    ensures
        sorting::within(queue, files.len()),
        forall|k: int, l: int|
            0 <= k < l < queue.len() ==> #[trigger] queue[k] != #[trigger] queue[l],
        forall|x: usize| x < files.len() ==> #[trigger] queue.contains(x),
{
    lemma_places_by_age(files, now, max_age, true);
    lemma_places_by_age(files, now, max_age, false);
    let old_ones = places_by_age(files, now, max_age, true);
    let young_ones = places_by_age(files, now, max_age, false);
    let rest = queue.skip(expired);
    assert forall|k: int| 0 <= k < queue.len() implies #[trigger] queue[k] < files.len() && (
    is_outlived(files[queue[k] as int].modified, now, max_age) == (k < expired)) by {
        if k < expired {
            assert(queue.take(expired)[k] == queue[k]);
            assert(old_ones.contains(queue[k]));
        } else {
            assert(rest[k - expired] == queue[k]);
            assert(rest.contains(queue[k]));
            assert(young_ones.contains(queue[k]));
        }
    }
    assert forall|k: int, l: int| 0 <= k < l < queue.len() implies #[trigger] queue[k]
        != #[trigger] queue[l] by {
        if l < expired {
            assert(old_ones[k] < old_ones[l]);
        } else if k >= expired {
            assert(sorting::before(times(files), rest[k - expired], rest[l - expired]));
        }
    }
    assert forall|x: usize| x < files.len() implies #[trigger] queue.contains(x) by {
        if is_outlived(files[x as int].modified, now, max_age) {
            assert(old_ones.contains(x));
            let k = choose|k: int| 0 <= k < old_ones.len() && old_ones[k] == x;
            assert(queue[k] == queue.take(expired)[k]);
        } else {
            assert(young_ones.contains(x));
            assert(rest.contains(x));
            let k = choose|k: int| 0 <= k < rest.len() && rest[k] == x;
            assert(queue[k + expired] == x);
        }
    }
}

// ---------------------------------------------------------------- operations

/// Whether `now` is later than `modified` by more than `max_age`.
pub fn is_older_than(modified: i128, now: i128, max_age: u128) -> (r: bool)
    ensures
        r == is_outlived(modified, now, max_age),
{
    if now <= modified {
        return false;
    }
    let age: u128 = if modified >= 0 || now < 0 {
        (now - modified) as u128
    } else {
        now as u128 + (-(modified + 1)) as u128 + 1
    };
    assert(age == now - modified);
    age > max_age
}

/// The bytes that the files have together.
fn sum_of_lens<P>(files: &Vec<CacheFile<P>>) -> (total: u128)
    ensures
        total == total_len(files@),
{
    let mut total: u128 = 0;
    let mut i: usize = 0;
    assert(files.len() == files@.len());
    assert(files@.take(0) == Seq::<CacheFile<P>>::empty());
    while i < files.len()
        invariant
            i <= files@.len(),
            files@.len() <= usize::MAX,
            total == total_len(files@.take(i as int)),
        decreases files@.len() - i,
    {
        assert(files@.take(i + 1).drop_last() == files@.take(i as int));
        proof {
            lemma_total_len_bound(files@.take(i + 1));
            assert((i + 1) * u64::MAX <= usize::MAX * u64::MAX) by (nonlinear_arith)
                requires
                    i + 1 <= usize::MAX,
            ;
            assert(usize::MAX * u64::MAX <= u64::MAX * u64::MAX) by (nonlinear_arith)
                requires
                    usize::MAX <= u64::MAX,
            ;
        }
        total = total + files[i].len as u128;
        i = i + 1;
    }
    assert(files@.take(i as int) == files@);
    total
}

/// The places of the files that have expired, or of those that have not.
fn choose_by_age<P>(files: &Vec<CacheFile<P>>, now: i128, max_age: u128, expired: bool) -> (places:
    Vec<usize>)
    ensures
        places@ == places_by_age(files@, now, max_age, expired),
{
    let mut places: Vec<usize> = Vec::new();
    let mut i: usize = 0;
    assert(files@.take(0) == Seq::<CacheFile<P>>::empty());
    while i < files.len()
        invariant
            i <= files@.len(),
            places@ == places_by_age(files@.take(i as int), now, max_age, expired),
        decreases files@.len() - i,
    {
        assert(files@.take(i + 1).drop_last() == files@.take(i as int));
        if is_older_than(files[i].modified, now, max_age) == expired {
            places.push(i);
        }
        i = i + 1;
    }
    assert(files@.take(i as int) == files@);
    places
}

/// When the files were last written.
fn times_of<P>(files: &Vec<CacheFile<P>>) -> (r: Vec<i128>)
    ensures
        r@ == times(files@),
{
    let mut r: Vec<i128> = Vec::new();
    let mut i: usize = 0;
    while i < files.len()
        invariant
            i <= files@.len(),
            r@.len() == i,
            forall|j: int| 0 <= j < i ==> #[trigger] r@[j] == files@[j].modified,
        decreases files@.len() - i,
    {
        r.push(files[i].modified);
        i = i + 1;
    }
    assert(r@ == times(files@));
    r
}

impl<P> CacheCleanup<P> {
    /// Plans the clean-up of a cache with these files, at the time `now`. Files
    /// older than `max_age_secs` seconds have expired.
    pub fn new(files: Vec<CacheFile<P>>, now: i128, max_age_secs: u64, max_bytes: u64) -> (r: Self)
        ensures
            r.wf(),
            r.files() == files@,
            is_queue(
                r.queue(),
                r.expired(),
                files@,
                now,
                (max_age_secs * NANOS_PER_SEC) as u128,
            ),
            r.max_bytes() == max_bytes,
            r.progress() == at_start(files@),
            forall|k: int|
                0 <= k < r.queue().len() ==> (k < r.expired() <==> now - files@[(
                #[trigger] r.queue()[k]) as int].modified > max_age_secs * 1_000_000_000),
    {
        assert(max_age_secs * NANOS_PER_SEC <= u64::MAX * NANOS_PER_SEC) by (nonlinear_arith);
        let max_age: u128 = max_age_secs as u128 * NANOS_PER_SEC as u128;
        let mut queue = choose_by_age(&files, now, max_age, true);
        let expired: usize = queue.len();
        let young_ones = choose_by_age(&files, now, max_age, false);
        let times = times_of(&files);
        let total_bytes: u128 = sum_of_lens(&files);
        proof {
            assert(files.len() == files@.len());
            lemma_places_by_age(files@, now, max_age, false);
        }
        let mut rest = sorting::sorted_places(&times, &young_ones);
        let ghost old_ones = queue@;
        let ghost behind = rest@;
        queue.append(&mut rest);
        proof {
            assert(queue@.take(expired as int) == old_ones);
            assert(queue@.skip(expired as int) == behind);
            every_file_is_queued_once(queue@, expired as int, files@, now, max_age);
            lemma_queued_len_of_all(files@, queue@);
            assert(queue@.skip(0) == queue@);
            assert forall|k: int| 0 <= k < queue@.len() implies (k < expired <==> now - files@[(
            #[trigger] queue@[k]) as int].modified > max_age_secs * 1_000_000_000) by {
                expired_files_come_first(queue@, expired as int, files@, now, max_age, k);
            }
        }
        CacheCleanup {
            files,
            queue,
            expired,
            at: 0,
            total_bytes,
            removed_files: 0,
            removed_bytes: 0,
            max_bytes,
        }
    }

    /// The path of the file to be removed next, if there is one.
    pub fn next(&self) -> (r: Option<&P>)
        requires
            self.wf(),
        ensures
            match r {
                Some(path) => goes_on(
                    self.progress(),
                    self.queue(),
                    self.expired(),
                    self.max_bytes(),
                ) && *path == self.files()[self.queue()[self.progress().at] as int].path,
                None => !goes_on(
                    self.progress(),
                    self.queue(),
                    self.expired(),
                    self.max_bytes(),
                ),
            },
    {
        if self.at < self.queue.len() && (self.at < self.expired || self.total_bytes
            > self.max_bytes as u128) {
            Some(&self.files[self.queue[self.at]].path)
        } else {
            None
        }
    }

    /// Takes note that the file was removed, or could not be. Where there was
    /// none to be removed, nothing changes.
    pub fn report(&mut self, removed: bool)
        requires
            old(self).wf(),
        ensures
            final(self).wf(),
            final(self).files() == old(self).files(),
            final(self).queue() == old(self).queue(),
            final(self).expired() == old(self).expired(),
            final(self).max_bytes() == old(self).max_bytes(),
            final(self).progress() == if goes_on(
                old(self).progress(),
                old(self).queue(),
                old(self).expired(),
                old(self).max_bytes(),
            ) {
                after_attempt(
                    old(self).progress(),
                    old(self).files()[old(self).queue()[old(self).progress().at] as int].len as int,
                    removed,
                )
            } else {
                old(self).progress()
            },
    {
        if self.at < self.queue.len() && (self.at < self.expired || self.total_bytes
            > self.max_bytes as u128) {
            let len: u64 = self.files[self.queue[self.at]].len;
            proof {
                let rest = self.queue@.skip(self.at as int);
                assert(rest[0] == self.queue@[self.at as int]);
                assert(rest.drop_first() == self.queue@.skip(self.at + 1));
                lemma_queued_len_is_natural(self.files@, rest.drop_first());
            }
            if removed {
                self.total_bytes = self.total_bytes - len as u128;
                self.removed_files = self.removed_files + 1;
                self.removed_bytes = self.removed_bytes + len as u128;
            }
            self.at = self.at + 1;
        }
    }

    /// How many files were removed.
    pub fn removed_files(&self) -> (n: u64)
        ensures
            n == self.progress().removed_files,
    {
        self.removed_files
    }

    /// How many bytes the removed files had.
    pub fn removed_bytes(&self) -> (n: u128)
        ensures
            n == self.progress().removed_bytes,
    {
        self.removed_bytes
    }

    /// How many bytes the files have that were not removed.
    pub fn remaining_bytes(&self) -> (n: u128)
        ensures
            n == self.progress().total_bytes,
    {
        self.total_bytes
    }
}

// ------------------------------------------------------------------ the walk

/// The formats in the order in which their directories are searched.
pub open spec fn formats_in_order() -> Seq<TargetFormat> {
    seq![TargetFormat::Avif, TargetFormat::Webp]
}

/// The formats in the order in which their directories are searched.
pub fn cached_formats() -> (r: Vec<TargetFormat>)
    ensures
        r@ == formats_in_order(),
{
    let r: Vec<TargetFormat> = vec![TargetFormat::Avif, TargetFormat::Webp];
    assert(r@ == formats_in_order());
    r
}

impl<P> CacheWalk<P> {
    /// Nothing was searched and nothing was found yet.
    pub fn new() -> (r: Self)
        ensures
            r.pending@ == Seq::<P>::empty(),
            r.files@ == Seq::<CacheFile<P>>::empty(),
    {
        CacheWalk { format: TargetFormat::Avif, pending: Vec::new(), files: Vec::new() }
    }

    /// Starts on the directory of a format, if there is one.
    pub fn enter(&mut self, format: TargetFormat, root: P, present: bool)
        ensures
            final(self).format == format,
            final(self).pending@ == if present {
                seq![root]
            } else {
                Seq::empty()
            },
            final(self).files == old(self).files,
            final(self).pending@ == pending_at_start(root, present),
    {
        self.format = format;
        let mut pending: Vec<P> = Vec::new();
        if present {
            pending.push(root);
        }
        assert(pending@ == if present {
            seq![root]
        } else {
            Seq::empty()
        });
        self.pending = pending;
    }

    /// The directory to be read next: the one that was found last.
    pub fn next_directory(&mut self) -> (r: Option<P>)
        ensures
            final(self).format == old(self).format,
            final(self).files == old(self).files,
            match r {
                Some(dir) => old(self).pending@ == final(self).pending@.push(dir),
                None => old(self).pending@.len() == 0 && final(self).pending@
                    == old(self).pending@,
            },
    {
        let r = self.pending.pop();
        assert(r matches Some(dir) ==> old(self).pending@ == self.pending@.push(dir));
        r
    }

    /// Takes note of an entry of a directory.
    pub fn found(&mut self, path: P, file_name: Option<&str>, kind: EntryKind)
        ensures
            final(self).format == old(self).format,
            final(self).pending@ == pending_after(
                old(self).pending@,
                (FoundEntry { path, name: query::optional_view(file_name), kind }),
            ),
            final(self).files@ == files_after(
                old(self).files@,
                old(self).format,
                (FoundEntry { path, name: query::optional_view(file_name), kind }),
            ),
    {
        match kind {
            EntryKind::Directory => {
                self.pending.push(path);
            },
            EntryKind::File { len, modified } => {
                if cache::is_cache_managed_file(file_name, self.format.extension()) {
                    let modified: i128 = match modified {
                        Some(time) => time,
                        None => 0,
                    };
                    self.files.push(CacheFile { path, len, modified });
                }
            },
            _ => {},
        }
    }
}

/// The search finds the files that the cache looks after, as they come, and
/// nothing else.
pub proof fn search_finds_the_cache_files<P>(entries: Seq<FoundEntry<P>>, format: TargetFormat)
    ensures
        files_among(entries, format) == entries.filter(
            |entry: FoundEntry<P>| is_cache_file(entry, format),
        ).map_values(|entry: FoundEntry<P>| cache_file_of(entry)),
    decreases entries.len(),
{
    reveal(Seq::filter);
    let chosen = |entry: FoundEntry<P>| is_cache_file(entry, format);
    let as_file = |entry: FoundEntry<P>| cache_file_of(entry);
    if entries.len() > 0 {
        let front = entries.drop_last();
        search_finds_the_cache_files(front, format);
        assert(entries.filter(chosen).map_values(as_file) == if chosen(entries.last()) {
            front.filter(chosen).map_values(as_file).push(as_file(entries.last()))
        } else {
            front.filter(chosen).map_values(as_file)
        });
    }
}

/// The entries of a directory, added one by one, are added together.
proof fn lemma_added_together<P>(
    pending: Seq<P>,
    files: Seq<CacheFile<P>>,
    format: TargetFormat,
    entries: Seq<FoundEntry<P>>,
)
    ensures
        pending_after_all(pending, entries) == pending + subdirectories(entries),
        files_after_all(files, format, entries) == files + files_among(entries, format),
    decreases entries.len(),
{
    if entries.len() > 0 {
        let front = entries.drop_last();
        lemma_added_together(pending, files, format, front);
        assert((pending + subdirectories(front)).push(entries.last().path) == pending
            + subdirectories(front).push(entries.last().path));
        assert((files + files_among(front, format)).push(cache_file_of(entries.last())) == files
            + files_among(front, format).push(cache_file_of(entries.last())));
    } else {
        assert(pending + subdirectories(entries) == pending);
        assert(files + files_among(entries, format) == files);
    }
}

/// A directory was read or is still to be read.
spec fn is_known<P>(walk: WalkState<P>, dir: P) -> bool {
    walk.read.contains(dir) || walk.pending.contains(dir)
}

/// What is known once one more directory was read.
proof fn lemma_walk_on<P>(
    listing: Map<P, Seq<FoundEntry<P>>>,
    format: TargetFormat,
    walk: WalkState<P>,
    dir: P,
)
    requires
        walk.pending.len() > 0,
    ensures
        ({
            let next = walk_on(listing, format, walk);
            let last = walk.pending.last();
            let below = subdirectories(entries_in(listing, last));
            &&& next.pending == walk.pending.drop_last() + below
            &&& next.files == walk.files + files_among(entries_in(listing, last), format)
            &&& next.read.contains(dir) <==> walk.read.contains(dir) || dir == last
            &&& next.pending.contains(dir) <==> walk.pending.drop_last().contains(dir)
                || below.contains(dir)
            &&& walk.pending.contains(dir) <==> walk.pending.drop_last().contains(dir) || dir
                == last
        }),
{
    let last = walk.pending.last();
    let front = walk.pending.drop_last();
    let below = subdirectories(entries_in(listing, last));
    let next = walk_on(listing, format, walk);
    lemma_added_together(front, walk.files, format, entries_in(listing, last));
    assert(front.push(last) == walk.pending);
    lemma_contains_pushed(walk.read, last, dir);
    lemma_contains_pushed(front, last, dir);
    lemma_contains_both(front, below, dir);
}

/// What a row holds once something is put behind it.
proof fn lemma_contains_pushed<P>(row: Seq<P>, last: P, item: P)
    ensures
        row.push(last).contains(item) <==> row.contains(item) || item == last,
{
    if row.contains(item) {
        let k = choose|k: int| 0 <= k < row.len() && row[k] == item;
        assert(row.push(last)[k] == item);
    }
    assert(row.push(last)[row.len() as int] == last);
    if row.push(last).contains(item) {
        let k = choose|k: int| 0 <= k < row.push(last).len() && row.push(last)[k] == item;
        if k < row.len() {
            assert(row[k] == item);
        }
    }
}

/// What two rows hold one behind the other.
proof fn lemma_contains_both<P>(a: Seq<P>, b: Seq<P>, item: P)
    ensures
        (a + b).contains(item) <==> a.contains(item) || b.contains(item),
{
    if a.contains(item) {
        let k = choose|k: int| 0 <= k < a.len() && a[k] == item;
        assert((a + b)[k] == item);
    }
    if b.contains(item) {
        let k = choose|k: int| 0 <= k < b.len() && b[k] == item;
        assert((a + b)[a.len() + k] == item);
    }
    if (a + b).contains(item) {
        let k = choose|k: int| 0 <= k < (a + b).len() && (a + b)[k] == item;
        if k < a.len() {
            assert(a[k] == item);
        } else {
            assert(b[k - a.len()] == item);
        }
    }
}

/// What is known is reached, and what stands in a directory that was read is
/// known.
proof fn lemma_known<P>(
    listing: Map<P, Seq<FoundEntry<P>>>,
    format: TargetFormat,
    root: P,
    files: Seq<CacheFile<P>>,
    n: nat,
)
    ensures
        ({
            let walk = walked(listing, format, root, files, n);
            &&& walk.files == files + files_in(listing, format, walk.read)
            &&& is_known(walk, root)
            &&& forall|dir: P| #[trigger] is_known(walk, dir) ==> is_reached(listing, root, dir)
            &&& forall|parent: P, dir: P|
                walk.read.contains(parent) && #[trigger] stands_in(listing, parent, dir)
                    ==> is_known(walk, dir)
            &&& walk.pending.len() > 0 ==> walk.read.len() == n
        }),
    decreases n,
{
    let next = walked(listing, format, root, files, n);
    if n == 0 {
        assert(next.pending[0] == root);
        assert(next.pending.contains(root));
        assert(files + files_in(listing, format, next.read) == files);
        assert forall|dir: P| #[trigger] is_known(next, dir) implies is_reached(
            listing,
            root,
            dir,
        ) by {
            assert(dir == root);
            assert(stands_below(listing, root, dir, 0));
        }
    } else {
        let walk = walked(listing, format, root, files, (n - 1) as nat);
        lemma_known(listing, format, root, files, (n - 1) as nat);
        if walk.pending.len() > 0 {
            let last = walk.pending.last();
            lemma_walk_on(listing, format, walk, root);
            assert(next.read.drop_last() == walk.read);
            assert(next.files == files + files_in(listing, format, next.read));
            assert(walk.pending.contains(last));
            assert(is_known(walk, last));
            assert forall|dir: P| #[trigger] is_known(next, dir) implies is_reached(
                listing,
                root,
                dir,
            ) by {
                lemma_walk_on(listing, format, walk, dir);
                if stands_in(listing, last, dir) {
                    let depth = choose|depth: nat| #[trigger]
                        stands_below(listing, root, last, depth);
                    assert((depth + 1 - 1) as nat == depth);
                    assert(stands_below(listing, root, dir, depth + 1));
                } else {
                    assert(is_known(walk, dir));
                }
            }
            assert forall|parent: P, dir: P|
                next.read.contains(parent) && #[trigger] stands_in(
                    listing,
                    parent,
                    dir,
                ) implies is_known(next, dir) by {
                lemma_walk_on(listing, format, walk, dir);
                lemma_walk_on(listing, format, walk, parent);
                if parent != last {
                    assert(is_known(walk, dir));
                }
            }
        }
    }
}

/// Where nothing is left to be read, all that is reached was read.
proof fn lemma_reached_is_read<P>(
    listing: Map<P, Seq<FoundEntry<P>>>,
    format: TargetFormat,
    root: P,
    files: Seq<CacheFile<P>>,
    n: nat,
    dir: P,
    depth: nat,
)
    requires
        walked(listing, format, root, files, n).pending.len() == 0,
        stands_below(listing, root, dir, depth),
    ensures
        walked(listing, format, root, files, n).read.contains(dir),
    decreases depth,
{
    let walk = walked(listing, format, root, files, n);
    lemma_known(listing, format, root, files, n);
    if depth > 0 {
        let parent = choose|parent: P|
            stands_below(listing, root, parent, (depth - 1) as nat) && #[trigger] stands_in(
                listing,
                parent,
                dir,
            );
        lemma_reached_is_read(listing, format, root, files, n, parent, (depth - 1) as nat);
        assert(is_known(walk, dir));
    }
}

/// No directory of a tree is read twice.
proof fn lemma_read_once<P>(
    listing: Map<P, Seq<FoundEntry<P>>>,
    format: TargetFormat,
    root: P,
    files: Seq<CacheFile<P>>,
    n: nat,
)
    requires
        is_tree(listing, root),
    ensures
        ({
            let walk = walked(listing, format, root, files, n);
            &&& walk.read.no_duplicates()
            &&& walk.pending.no_duplicates()
            &&& forall|dir: P| #[trigger]
                walk.read.contains(dir) ==> !walk.pending.contains(dir)
            &&& forall|dir: P| #[trigger]
                is_known(walk, dir) && dir != root ==> exists|parent: P|
                    walk.read.contains(parent) && #[trigger] stands_in(listing, parent, dir)
        }),
    decreases n,
{
    let next = walked(listing, format, root, files, n);
    if n > 0 {
        let walk = walked(listing, format, root, files, (n - 1) as nat);
        lemma_read_once(listing, format, root, files, (n - 1) as nat);
        if walk.pending.len() > 0 {
            let last = walk.pending.last();
            let front = walk.pending.drop_last();
            let below = subdirectories(entries_in(listing, last));
            lemma_walk_on(listing, format, walk, root);
            assert(walk.pending[walk.pending.len() - 1] == last);
            assert(walk.pending.contains(last));
            assert(is_known(walk, last));
            assert(below.no_duplicates());
            assert forall|dir: P| #[trigger] below.contains(dir) implies !is_known(walk, dir) by {
                assert(stands_in(listing, last, dir));
                if is_known(walk, dir) {
                    assert(dir != root);
                    let parent = choose|parent: P|
                        walk.read.contains(parent) && #[trigger] stands_in(listing, parent, dir);
                    assert(parent == last);
                }
            }
            assert forall|dir: P| #[trigger] front.contains(dir) implies dir != last
                && walk.pending.contains(dir) by {
                let k = choose|k: int| 0 <= k < front.len() && front[k] == dir;
                assert(walk.pending[k] == dir);
            }
            assert(next.pending.no_duplicates()) by {
                assert forall|i: int, j: int|
                    0 <= i < next.pending.len() && 0 <= j < next.pending.len() && i
                        != j implies next.pending[i] != next.pending[j] by {
                    let m = front.len();
                    if i < m && j < m {
                        assert(walk.pending[i] != walk.pending[j]);
                    } else if i < m {
                        assert(below.contains(below[j - m]));
                        assert(front.contains(front[i]));
                    } else if j < m {
                        assert(below.contains(below[i - m]));
                        assert(front.contains(front[j]));
                    }
                }
            }
            assert(next.read.no_duplicates()) by {
                assert forall|i: int, j: int|
                    0 <= i < next.read.len() && 0 <= j < next.read.len() && i
                        != j implies next.read[i] != next.read[j] by {
                    let m = walk.read.len();
                    if i < m {
                        assert(walk.read.contains(walk.read[i]));
                    }
                    if j < m {
                        assert(walk.read.contains(walk.read[j]));
                    }
                }
            }
            assert forall|dir: P| #[trigger] next.read.contains(dir) implies !next.pending.contains(
                dir,
            ) by {
                lemma_walk_on(listing, format, walk, dir);
                if below.contains(dir) {
                    assert(!is_known(walk, dir));
                }
            }
            assert forall|dir: P| #[trigger] is_known(next, dir) && dir != root implies exists|
                parent: P,
            |
                next.read.contains(parent) && #[trigger] stands_in(listing, parent, dir) by {
                lemma_walk_on(listing, format, walk, dir);
                if is_known(walk, dir) {
                    let parent = choose|parent: P|
                        walk.read.contains(parent) && #[trigger] stands_in(listing, parent, dir);
                    lemma_walk_on(listing, format, walk, parent);
                    assert(next.read.contains(parent));
                } else {
                    lemma_walk_on(listing, format, walk, last);
                    assert(stands_in(listing, last, dir));
                    assert(next.read.contains(last));
                }
            }
        }
    } else {
        assert forall|dir: P| #[trigger] is_known(next, dir) implies dir == root by {
            assert(next.read.len() == 0);
            let k = choose|k: int| 0 <= k < next.pending.len() && next.pending[k] == dir;
            assert(k == 0);
        }
        assert forall|dir: P| #[trigger] next.read.contains(dir) implies false by {}
    }
}

/// Once no directory is left to be read, the files are those from before and,
/// behind them, all that the cache looks after in the directories that were
/// read. These are the root and all directories below it, and where they are a
/// tree, each of them once.
pub proof fn walk_finds_every_file_once<P>(
    listing: Map<P, Seq<FoundEntry<P>>>,
    format: TargetFormat,
    root: P,
    files: Seq<CacheFile<P>>,
    n: nat,
)
    requires
        walked(listing, format, root, files, n).pending.len() == 0,
    ensures
        ({
            let walk = walked(listing, format, root, files, n);
            &&& walk.files == files + files_in(listing, format, walk.read)
            &&& forall|dir: P| #[trigger]
                walk.read.contains(dir) <==> is_reached(listing, root, dir)
            &&& is_tree(listing, root) ==> walk.read.no_duplicates()
        }),
{
    let walk = walked(listing, format, root, files, n);
    lemma_known(listing, format, root, files, n);
    assert forall|dir: P| #[trigger] walk.read.contains(dir) <==> is_reached(
        listing,
        root,
        dir,
    ) by {
        if walk.read.contains(dir) {
            assert(is_known(walk, dir));
        }
        if is_reached(listing, root, dir) {
            let depth = choose|depth: nat| #[trigger] stands_below(listing, root, dir, depth);
            lemma_reached_is_read(listing, format, root, files, n, dir, depth);
        }
    }
    if is_tree(listing, root) {
        lemma_read_once(listing, format, root, files, n);
    }
}

/// The walk through a tree ends: no more directories are read than there are.
pub proof fn walk_ends<P>(
    listing: Map<P, Seq<FoundEntry<P>>>,
    format: TargetFormat,
    root: P,
    files: Seq<CacheFile<P>>,
    dirs: Set<P>,
)
    requires
        is_tree(listing, root),
        dirs.finite(),
        forall|dir: P| #[trigger] is_reached(listing, root, dir) ==> dirs.contains(dir),
    ensures
        walked(listing, format, root, files, dirs.len()).pending.len() == 0,
{
    let n = dirs.len();
    let walk = walked(listing, format, root, files, n);
    lemma_known(listing, format, root, files, n);
    lemma_read_once(listing, format, root, files, n);
    if walk.pending.len() > 0 {
        let last = walk.pending.last();
        assert(walk.pending.contains(last));
        assert(is_known(walk, last));
        walk.read.unique_seq_to_set();
        let others = dirs.remove(last);
        assert forall|dir: P| #[trigger] walk.read.to_set().contains(dir) implies others.contains(
            dir,
        ) by {
            assert(walk.read.contains(dir));
            assert(is_known(walk, dir));
        }
        vstd::set_lib::lemma_len_subset(walk.read.to_set(), others);
    }
}

// ---------------------------------------------------------------------- laws

/// There is one order of removal only.
pub proof fn removal_order_is_unique<P>(
    queue_a: Seq<usize>,
    expired_a: int,
    queue_b: Seq<usize>,
    expired_b: int,
    files: Seq<CacheFile<P>>,
    now: i128,
    max_age: u128,
)
    requires
        is_queue(queue_a, expired_a, files, now, max_age),
        is_queue(queue_b, expired_b, files, now, max_age),
    ensures
        queue_a == queue_b,
        expired_a == expired_b,
{
    assert(queue_a.take(expired_a).len() == expired_a);
    assert(queue_b.take(expired_b).len() == expired_b);
    let rest_a = queue_a.skip(expired_a);
    let rest_b = queue_b.skip(expired_b);
    let young_ones = places_by_age(files, now, max_age, false);
    assert forall|x: usize| rest_a.contains(x) <==> rest_b.contains(x) by {
        assert(rest_a.contains(x) <==> young_ones.contains(x));
        assert(rest_b.contains(x) <==> young_ones.contains(x));
    }
    sorting::order_is_unique(times(files), rest_a, rest_b);
    assert(queue_a == queue_a.take(expired_a) + rest_a);
    assert(queue_b == queue_b.take(expired_b) + rest_b);
}

/// Of two files that have not expired, the one that was written earlier comes
/// first.
pub proof fn older_files_go_first<P>(
    queue: Seq<usize>,
    expired: int,
    files: Seq<CacheFile<P>>,
    now: i128,
    max_age: u128,
    k: int,
    l: int,
)
    requires
        files.len() <= usize::MAX,
        is_queue(queue, expired, files, now, max_age),
        expired <= k < l < queue.len(),
    ensures
        files[queue[k] as int].modified <= files[queue[l] as int].modified,
{
    every_file_is_queued_once(queue, expired, files, now, max_age);
    let rest = queue.skip(expired);
    assert(rest[k - expired] == queue[k]);
    assert(rest[l - expired] == queue[l]);
    assert(sorting::before(times(files), rest[k - expired], rest[l - expired]));
    assert(queue[k] < files.len() && queue[l] < files.len());
}

/// The files at the head of the queue have expired, and no others have.
pub proof fn expired_files_come_first<P>(
    queue: Seq<usize>,
    expired: int,
    files: Seq<CacheFile<P>>,
    now: i128,
    max_age: u128,
    k: int,
)
    requires
        files.len() <= usize::MAX,
        is_queue(queue, expired, files, now, max_age),
        0 <= k < queue.len(),
    ensures
        is_outlived(files[queue[k] as int].modified, now, max_age) <==> k < expired,
{
    lemma_places_by_age(files, now, max_age, true);
    lemma_places_by_age(files, now, max_age, false);
    if k < expired {
        assert(queue.take(expired)[k] == queue[k]);
        assert(places_by_age(files, now, max_age, true).contains(queue[k]));
    } else {
        let rest = queue.skip(expired);
        assert(rest[k - expired] == queue[k]);
        assert(rest.contains(queue[k]));
        assert(places_by_age(files, now, max_age, false).contains(queue[k]));
    }
}

/// What was removed and what remains are always all the files together, and
/// every attempt deals with one file.
pub proof fn nothing_is_lost_count_of<P>(
    files: Seq<CacheFile<P>>,
    queue: Seq<usize>,
    outcomes: Seq<bool>,
)
    ensures
        progress(files, queue, outcomes).total_bytes + progress(
            files,
            queue,
            outcomes,
        ).removed_bytes == total_len(files),
        progress(files, queue, outcomes).at == outcomes.len(),
        0 <= progress(files, queue, outcomes).removed_files <= outcomes.len(),
    decreases outcomes.len(),
{
    if outcomes.len() > 0 {
        nothing_is_lost_count_of(files, queue, outcomes.drop_last());
    }
}

/// A file that has not expired is removed only while the cache is too large.
pub proof fn young_files_go_only_for_room<P>(
    files: Seq<CacheFile<P>>,
    queue: Seq<usize>,
    expired: int,
    max_bytes: int,
    outcomes: Seq<bool>,
    n: int,
)
    requires
        is_run(files, queue, expired, max_bytes, outcomes),
        0 <= expired <= n < outcomes.len(),
    ensures
        progress(files, queue, outcomes.take(n)).at == n,
        progress(files, queue, outcomes.take(n)).total_bytes > max_bytes,
{
    nothing_is_lost_count_of(files, queue, outcomes.take(n));
    assert(goes_on(progress(files, queue, outcomes.take(n)), queue, expired, max_bytes));
}

/// The clean-up does not end before every file that has expired had its turn.
pub proof fn every_expired_file_has_its_turn<P>(
    files: Seq<CacheFile<P>>,
    queue: Seq<usize>,
    expired: int,
    max_bytes: int,
    outcomes: Seq<bool>,
)
    requires
        expired <= queue.len(),
        !goes_on(progress(files, queue, outcomes), queue, expired, max_bytes),
    ensures
        outcomes.len() >= expired,
{
    nothing_is_lost_count_of(files, queue, outcomes);
}

/// Where every removal succeeds, what remains is what the rest of the queue has.
proof fn lemma_all_removed<P>(files: Seq<CacheFile<P>>, queue: Seq<usize>, outcomes: Seq<bool>)
    requires
        queued_len(files, queue) == total_len(files),
        outcomes.len() <= queue.len(),
        forall|i: int| 0 <= i < outcomes.len() ==> #[trigger] outcomes[i],
    ensures
        progress(files, queue, outcomes).total_bytes == queued_len(
            files,
            queue.skip(outcomes.len() as int),
        ),
    decreases outcomes.len(),
{
    if outcomes.len() == 0 {
        assert(queue.skip(0) == queue);
    } else {
        let front = outcomes.drop_last();
        assert forall|i: int| 0 <= i < front.len() implies #[trigger] front[i] by {
            assert(outcomes[i]);
        }
        lemma_all_removed(files, queue, front);
        nothing_is_lost_count_of(files, queue, front);
        let rest = queue.skip(front.len() as int);
        assert(rest[0] == queue[front.len() as int]);
        assert(rest.drop_first() == queue.skip(outcomes.len() as int));
        assert(outcomes[outcomes.len() - 1]);
    }
}

/// Where every removal succeeds, the cache is no larger than it may be once the
/// clean-up ends.
pub proof fn cleanup_makes_the_cache_fit<P>(
    files: Seq<CacheFile<P>>,
    queue: Seq<usize>,
    expired: int,
    now: i128,
    max_age: u128,
    max_bytes: int,
    outcomes: Seq<bool>,
)
    requires
        files.len() <= usize::MAX,
        0 <= max_bytes,
        is_queue(queue, expired, files, now, max_age),
        is_run(files, queue, expired, max_bytes, outcomes),
        forall|i: int| 0 <= i < outcomes.len() ==> #[trigger] outcomes[i],
        !goes_on(progress(files, queue, outcomes), queue, expired, max_bytes),
    ensures
        progress(files, queue, outcomes).total_bytes <= max_bytes,
{
    every_file_is_queued_once(queue, expired, files, now, max_age);
    lemma_queued_len_of_all(files, queue);
    nothing_is_lost_count_of(files, queue, outcomes);
    if outcomes.len() > 0 {
        let n = outcomes.len() - 1;
        nothing_is_lost_count_of(files, queue, outcomes.take(n));
        assert(goes_on(progress(files, queue, outcomes.take(n)), queue, expired, max_bytes));
    }
    lemma_all_removed(files, queue, outcomes);
    if outcomes.len() == queue.len() {
        assert(queue.skip(outcomes.len() as int).len() == 0);
    }
}

/// A file lives for as long as it may, and not a moment longer: at the greatest
/// age it has not expired, and one nanosecond later it has, and so ever after.
/// One that was written in the future has not.
pub proof fn files_expire_past_their_age(modified: i128, now: i128, max_age: u128)
    ensures
        now <= modified + max_age ==> !is_outlived(modified, now, max_age),
        now >= modified + max_age + 1 ==> is_outlived(modified, now, max_age),
        now <= modified ==> !is_outlived(modified, now, max_age),
{
}

/// Ages are reckoned in seconds: a file that was written so many seconds ago has
/// expired exactly if these are more than the greatest age.
pub proof fn ages_are_in_seconds(modified: i128, now: i128, secs: u64, max_age_secs: u64)
    requires
        now == modified + secs * 1_000_000_000,
    ensures
        is_outlived(modified, now, (max_age_secs * NANOS_PER_SEC) as u128) <==> secs
            > max_age_secs,
{
    assert(max_age_secs * NANOS_PER_SEC <= u64::MAX * NANOS_PER_SEC) by (nonlinear_arith);
    assert(max_age_secs * NANOS_PER_SEC == max_age_secs * 1_000_000_000);
    assert(secs * 1_000_000_000 > max_age_secs * 1_000_000_000 <==> secs > max_age_secs);
}

/// Files that have expired are removed in the order in which they were found,
/// and of two others that were written at the same time the one that was found
/// first goes first.
pub proof fn files_go_as_they_were_found<P>(
    queue: Seq<usize>,
    expired: int,
    files: Seq<CacheFile<P>>,
    now: i128,
    max_age: u128,
    k: int,
    l: int,
)
    requires
        files.len() <= usize::MAX,
        is_queue(queue, expired, files, now, max_age),
        0 <= k < l < queue.len(),
    ensures
        l < expired ==> queue[k] < queue[l],
        expired <= k && files[queue[k] as int].modified == files[queue[l] as int].modified
            ==> queue[k] < queue[l],
{
    every_file_is_queued_once(queue, expired, files, now, max_age);
    if l < expired {
        lemma_places_by_age(files, now, max_age, true);
        assert(queue.take(expired)[k] == queue[k]);
        assert(queue.take(expired)[l] == queue[l]);
    } else if expired <= k {
        let rest = queue.skip(expired);
        assert(rest[k - expired] == queue[k]);
        assert(rest[l - expired] == queue[l]);
        assert(sorting::before(times(files), rest[k - expired], rest[l - expired]));
        assert(queue[k] < files.len() && queue[l] < files.len());
    }
}

/// The size of the cache is that of its files together.
pub proof fn sizes_add_up<P>(files: Seq<CacheFile<P>>, file: CacheFile<P>)
    ensures
        total_len(Seq::<CacheFile<P>>::empty()) == 0,
        total_len(files.push(file)) == total_len(files) + file.len,
{
    assert(files.push(file).drop_last() == files);
}

/// Removal starts with all the files there, and each attempt counts for the file
/// whose turn it is: one that succeeds takes its bytes away and is counted, and
/// one that fails changes nothing but whose turn it is.
pub proof fn only_removed_files_are_counted<P>(
    files: Seq<CacheFile<P>>,
    queue: Seq<usize>,
    outcomes: Seq<bool>,
)
    ensures
        ({
            let start = progress(files, queue, Seq::<bool>::empty());
            let p = progress(files, queue, outcomes);
            let gone = progress(files, queue, outcomes.push(true));
            let kept = progress(files, queue, outcomes.push(false));
            let len = files[queue[outcomes.len() as int] as int].len;
            &&& start.at == 0 && start.total_bytes == total_len(files) && start.removed_files == 0
                && start.removed_bytes == 0
            &&& gone.at == outcomes.len() + 1 && kept.at == outcomes.len() + 1
            &&& gone.total_bytes == p.total_bytes - len
            &&& gone.removed_files == p.removed_files + 1
            &&& gone.removed_bytes == p.removed_bytes + len
            &&& kept.total_bytes == p.total_bytes
            &&& kept.removed_files == p.removed_files
            &&& kept.removed_bytes == p.removed_bytes
        }),
{
    nothing_is_lost_count_of(files, queue, outcomes);
    assert(outcomes.push(true).drop_last() == outcomes);
    assert(outcomes.push(false).drop_last() == outcomes);
}

/// The clean-up ends only where every file had its turn, or where every file
/// that has expired had it and the cache is no larger than it may be. It goes on
/// while a file that has expired did not have its turn, or any file did not and
/// the cache is too large.
pub proof fn cleanup_goes_on_while_there_is_need<P>(
    files: Seq<CacheFile<P>>,
    queue: Seq<usize>,
    expired: int,
    max_bytes: int,
    outcomes: Seq<bool>,
)
    requires
        0 <= expired <= queue.len(),
    ensures
        goes_on(progress(files, queue, outcomes), queue, expired, max_bytes) <==> outcomes.len()
            < expired || (outcomes.len() < queue.len() && progress(
            files,
            queue,
            outcomes,
        ).total_bytes > max_bytes),
{
    nothing_is_lost_count_of(files, queue, outcomes);
}

/// A file belongs to the cache by its name, which must be text; it is noted with
/// its path, its length and the time when it was last written, or time zero
/// where that is not known. A directory is noted to be searched. Nothing else is
/// noted.
pub proof fn entries_are_noted_for_what_they_are<P>(
    pending: Seq<P>,
    files: Seq<CacheFile<P>>,
    format: TargetFormat,
    path: P,
    name: Seq<char>,
    len: u64,
    modified: i128,
)
    ensures
        ({
            let known = FoundEntry {
                path,
                name: Some(name),
                kind: EntryKind::File { len, modified: Some(modified) },
            };
            let ageless = FoundEntry {
                path,
                name: Some(name),
                kind: EntryKind::File { len, modified: None },
            };
            let nameless = FoundEntry {
                path,
                name: None,
                kind: EntryKind::File { len, modified: Some(modified) },
            };
            let other = FoundEntry { path, name: Some(name), kind: EntryKind::Other };
            let unreadable = FoundEntry { path, name: Some(name), kind: EntryKind::Unreadable };
            let dir = FoundEntry { path, name: Some(name), kind: EntryKind::Directory };
            let dir_without_name = FoundEntry { path, name: None, kind: EntryKind::Directory };
            let is_ours = cache::is_managed(name, format.extension_text());
            &&& is_ours ==> files_after(files, format, known) == files.push(
                CacheFile { path, len, modified },
            ) && files_after(files, format, ageless) == files.push(
                CacheFile { path, len, modified: 0 },
            )
            &&& !is_ours ==> files_after(files, format, known) == files && files_after(
                files,
                format,
                ageless,
            ) == files
            &&& files_after(files, format, nameless) == files
            &&& files_after(files, format, other) == files
            &&& files_after(files, format, unreadable) == files
            &&& files_after(files, format, dir) == files
            &&& pending_after(pending, known) == pending
            &&& pending_after(pending, ageless) == pending
            &&& pending_after(pending, nameless) == pending
            &&& pending_after(pending, other) == pending
            &&& pending_after(pending, unreadable) == pending
            &&& pending_after(pending, dir) == pending.push(path)
            &&& pending_after(pending, dir_without_name) == pending.push(path)
        }),
{
}

/// Every directory among the entries is searched, as they come.
pub proof fn every_directory_is_searched<P>(entries: Seq<FoundEntry<P>>, entry: FoundEntry<P>)
    ensures
        subdirectories(Seq::<FoundEntry<P>>::empty()) == Seq::<P>::empty(),
        subdirectories(entries.push(entry)) == if entry.kind == EntryKind::Directory {
            subdirectories(entries).push(entry.path)
        } else {
            subdirectories(entries)
        },
{
    assert(entries.push(entry).drop_last() == entries);
}

/// A directory is read by taking it from those that are still to be read, the
/// one that was found last first, and by noting all its entries.
pub proof fn walk_reads_what_was_found_last<P>(
    listing: Map<P, Seq<FoundEntry<P>>>,
    format: TargetFormat,
    pending: Seq<P>,
    dir: P,
    files: Seq<CacheFile<P>>,
    read: Seq<P>,
)
    ensures
        ({
            let walk = WalkState { pending: pending.push(dir), files, read };
            let next = walk_on(listing, format, walk);
            &&& next.pending == pending + subdirectories(entries_in(listing, dir))
            &&& next.files == files + files_among(entries_in(listing, dir), format)
            &&& next.read == read.push(dir)
        }),
{
    let walk = WalkState { pending: pending.push(dir), files, read };
    lemma_walk_on(listing, format, walk, dir);
    assert(pending.push(dir).drop_last() == pending);
}

/// The directory of every format is searched, and each once.
pub proof fn every_format_is_searched_once(format: TargetFormat)
    ensures
        formats_in_order().contains(format),
        formats_in_order().len() == 2,
        formats_in_order()[0] == TargetFormat::Avif,
{
    assert(formats_in_order()[0] == TargetFormat::Avif);
    assert(formats_in_order()[1] == TargetFormat::Webp);
}

/// The search of a format starts at its directory, if there is one, and goes on
/// as the walk from there does.
pub proof fn searches_start_at_the_root<P>(
    listing: Map<P, Seq<FoundEntry<P>>>,
    format: TargetFormat,
    root: P,
    files: Seq<CacheFile<P>>,
)
    ensures
        pending_at_start(root, true).len() == 1,
        pending_at_start(root, true)[0] == root,
        pending_at_start(root, false).len() == 0,
        walked(listing, format, root, files, 0).pending == pending_at_start(root, true),
        walked(listing, format, root, files, 0).files == files,
{
}

} // verus!
