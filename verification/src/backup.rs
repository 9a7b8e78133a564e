//! Which Arc backup to read and which of its files are bucket files.
//!
//! Arc backs up to `<arc dir>/Backup/<device-uuid>/`, a `metadata.json` and one directory per
//! record kind. Nothing here touches the disk: the caller lists directories and reads metadata,
//! and hands over what it found.

use vstd::prelude::*;
use vstd::string::*;
use crate::config::{join_path, joined};
use crate::text::{has_suffix, ends_with, owned, same_text, seq_less, order_str, Order};

verus! {

/// Which kind of record a bucket file holds. The name also doubles as the sub-directory.
#[derive(Debug, Clone, Copy, PartialEq, Eq, Structural)]
pub enum BucketKind {
    Places,
    Items,
    Samples,
}

impl BucketKind {
    pub open spec fn dir_name_of(self) -> Seq<char> {
        match self {
            BucketKind::Places => "places"@,
            BucketKind::Items => "items"@,
            BucketKind::Samples => "samples"@,
        }
    }

    pub fn dir_name(self) -> (r: &'static str)
        ensures
            r@ == self.dir_name_of(),
    {
        match self {
            BucketKind::Places => "places",
            BucketKind::Items => "items",
            BucketKind::Samples => "samples",
        }
    }
}

/// The record counts `metadata.json` reports, where it reports them.
#[derive(Debug, Clone, Copy)]
pub struct Stats {
    pub place_count: Option<i64>,
    pub item_count: Option<i64>,
    pub sample_count: Option<i64>,
}

/// One device's backup directory, `<arc dir>/Backup/<device-uuid>/`.
#[derive(Debug, Clone)]
pub struct Backup {
    pub dir: String,
    pub device_id: String,
}

/// A device directory with the time its last backup session finished, or started when it never
/// finished, in nanoseconds; `None` when its metadata has neither.
pub struct Candidate {
    pub session: Option<i128>,
    pub backup: Backup,
}

/// Whether `a` is a better pick than `b`: a later session wins, a dir with no session dates
/// loses to any that has one, and between equals the smaller device id wins.
pub open spec fn preferred(a: Candidate, b: Candidate) -> bool {
    match (a.session, b.session) {
        (Some(x), Some(y)) => x > y || (x == y && seq_less(a.backup.device_id@, b.backup.device_id@)),
        (Some(_), None) => true,
        (None, Some(_)) => false,
        (None, None) => seq_less(a.backup.device_id@, b.backup.device_id@),
    }
}

/// The position of the pick among `candidates`: the first of the best.
pub open spec fn pick(candidates: Seq<Candidate>) -> Option<int>
    decreases candidates.len(),
{
    if candidates.len() == 0 {
        None
    } else {
        match pick(candidates.drop_last()) {
            None => Some(0),
            Some(i) => if preferred(candidates.last(), candidates[i]) {
                Some(candidates.len() - 1)
            } else {
                Some(i)
            },
        }
    }
}

fn is_preferred(a: &Candidate, b: &Candidate) -> (r: bool)
    ensures
        r == preferred(*a, *b),
{
    let earlier_name = order_str(a.backup.device_id.as_str(), b.backup.device_id.as_str()) == Order::Less;
    match (a.session, b.session) {
        (Some(x), Some(y)) => x > y || (x == y && earlier_name),
        (Some(_), None) => true,
        (None, Some(_)) => false,
        (None, None) => earlier_name,
    }
}

/// Picks the device directory whose backup session finished most recently. Arc keeps stale
/// dirs around after a device is replaced, and ingesting one of those would silently serve
/// months-old data. Answers the position of the pick, or `None` when there is nothing to pick.
pub fn choose_backup(candidates: &[Candidate]) -> (r: Option<usize>)
    ensures
        match r {
            Some(i) => pick(candidates@) == Some(i as int),
            None => pick(candidates@) is None,
        },
{
    let mut best: Option<usize> = None;
    let mut i: usize = 0;
    while i < candidates.len()
        invariant
            i <= candidates@.len(),
            match best {
                Some(b) => pick(candidates@.take(i as int)) == Some(b as int) && b < i,
                None => pick(candidates@.take(i as int)) is None && i == 0,
            },
        decreases candidates.len() - i,
    {
        let ghost upto = candidates@.take(i + 1);
        assert(upto.drop_last() =~= candidates@.take(i as int));
        assert(upto.last() == candidates@[i as int]);
        best = match best {
            None => Some(i),
            Some(b) => {
                assert(upto[b as int] == candidates@[b as int]);
                if is_preferred(&candidates[i], &candidates[b]) {
                    Some(i)
                } else {
                    Some(b)
                }
            },
        };
        i = i + 1;
    }
    assert(candidates@.take(candidates@.len() as int) =~= candidates@);
    best
}

/// The pick is preferred over no candidate: nothing else finished later, and of those that
/// finished at the same time none has a smaller device id.
pub proof fn the_pick_is_the_newest(candidates: Seq<Candidate>)
    ensures
        match pick(candidates) {
            Some(i) => 0 <= i < candidates.len() && forall|j: int|
                0 <= j < candidates.len() ==> !preferred(#[trigger] candidates[j], candidates[i]),
            None => candidates.len() == 0,
        },
    decreases candidates.len(),
{
    if candidates.len() > 0 {
        let before = candidates.drop_last();
        the_pick_is_the_newest(before);
        let last = candidates.last();
        match pick(before) {
            None => {
                assert(before.len() == 0);
                assert forall|j: int| 0 <= j < candidates.len() implies !preferred(
                    #[trigger] candidates[j],
                    candidates[0],
                ) by {
                    assert(j == 0);
                    lemma_not_preferred_self(candidates[0]);
                }
            },
            Some(i) => {
                let best = candidates[i];
                assert(before[i] == best);
                if preferred(last, best) {
                    assert forall|j: int| 0 <= j < candidates.len() implies !preferred(
                        #[trigger] candidates[j],
                        last,
                    ) by {
                        if j < candidates.len() - 1 {
                            assert(candidates[j] == before[j]);
                            assert(!preferred(before[j], best));
                            lemma_preferred_order(candidates[j], last, best);
                        } else {
                            lemma_not_preferred_self(last);
                        }
                    }
                } else {
                    assert forall|j: int| 0 <= j < candidates.len() implies !preferred(
                        #[trigger] candidates[j],
                        best,
                    ) by {
                        if j < candidates.len() - 1 {
                            assert(candidates[j] == before[j]);
                        }
                    }
                }
            },
        }
    }
}

proof fn lemma_not_preferred_self(a: Candidate)
    ensures
        !preferred(a, a),
{
    crate::text::lemma_seq_less_irreflexive(a.backup.device_id@);
}

/// If `a` is not preferred over `c` and `b` is preferred over `c`, then `a` is not preferred
/// over `b`.
proof fn lemma_preferred_order(a: Candidate, b: Candidate, c: Candidate)
    requires
        !preferred(a, c),
        preferred(b, c),
    ensures
        !preferred(a, b),
{
    let (x, y, z) = (a.backup.device_id@, b.backup.device_id@, c.backup.device_id@);
    crate::text::lemma_seq_less_total(x, z);
    crate::text::lemma_seq_less_total(x, y);
    if seq_less(x, y) && seq_less(y, z) {
        crate::text::lemma_seq_less_transitive(x, y, z);
    }
    if seq_less(y, z) && x == y {
        assert(seq_less(x, z));
    }
}

/// Whether a directory entry is a bucket file: not hidden, and JSON, gzipped or not.
pub open spec fn is_bucket_name(name: Seq<char>) -> bool {
    !(name.len() > 0 && name[0] == '.') && (has_suffix(name, ".json"@) || has_suffix(
        name,
        ".json.gz"@,
    ))
}

pub fn is_bucket_file(name: &str) -> (r: bool)
    ensures
        r == is_bucket_name(name@),
{
    if starts_with_dot(name) {
        return false;
    }
    ends_with(name, ".json") || ends_with(name, ".json.gz")
}

fn starts_with_dot(name: &str) -> (r: bool)
    ensures
        r == (name@.len() > 0 && name@[0] == '.'),
{
    let chars = crate::text::chars_of(name);
    chars.len() > 0 && chars[0] == '.'
}

/// iCloud replaces an evicted file with `.<name>.icloud`. Skipping it silently would look like
/// the bucket vanished, so such a placeholder is worth a warning.
pub fn is_evicted_placeholder(name: &str) -> (r: bool)
    ensures
        r == (name@.len() > 0 && name@[0] == '.' && has_suffix(name@, ".icloud"@)),
{
    starts_with_dot(name) && ends_with(name, ".icloud")
}

/// How a bucket file is read.
#[derive(Debug, Clone, Copy, PartialEq, Eq, Structural)]
pub enum BucketFormat {
    /// Gzipped JSON, possibly several gzip members one after another.
    Gzip,
    Json,
}

/// How a bucket file is read, by its name: gzip for `.gz`, plain for `.json`, and not at all
/// for anything else.
pub fn bucket_format(name: &str) -> (r: Option<BucketFormat>)
    ensures
        r == if has_suffix(name@, ".gz"@) {
            Some(BucketFormat::Gzip)
        } else if has_suffix(name@, ".json"@) {
            Some(BucketFormat::Json)
        } else {
            None::<BucketFormat>
        },
{
    if ends_with(name, ".gz") {
        Some(BucketFormat::Gzip)
    } else if ends_with(name, ".json") {
        Some(BucketFormat::Json)
    } else {
        None
    }
}

/// One entry of a bucket directory as listed: its name, whether it is a regular file, and for a
/// file its mtime in milliseconds and its length.
#[derive(Debug, Clone)]
pub struct DirEntry {
    pub name: String,
    pub is_file: bool,
    pub mtime: i64,
    pub len: u64,
}

pub struct DirEntryView {
    pub name: Seq<char>,
    pub is_file: bool,
    pub mtime: i64,
    pub len: u64,
}

impl View for DirEntry {
    type V = DirEntryView;

    open spec fn view(&self) -> DirEntryView {
        DirEntryView { name: self.name@, is_file: self.is_file, mtime: self.mtime, len: self.len }
    }
}

pub open spec fn entry_views(entries: Seq<DirEntry>) -> Seq<DirEntryView> {
    entries.map_values(|e: DirEntry| e@)
}

/// A bucket file on disk. `mtime` (milliseconds) and `len` are what ingest uses to skip
/// unchanged buckets.
#[derive(Debug, Clone)]
pub struct BucketFile {
    pub path: String,
    pub kind: BucketKind,
    pub mtime: i64,
    pub len: u64,
}

/// Whether an entry is read as a bucket file: a regular file with a bucket file's name.
pub open spec fn is_listed(e: DirEntryView) -> bool {
    is_bucket_name(e.name) && e.is_file
}

/// `x` placed into a listing sorted by name, after every entry whose name is not after its own.
pub open spec fn placed_by_name(list: Seq<DirEntryView>, x: DirEntryView) -> Seq<DirEntryView>
    decreases list.len(),
{
    if list.len() > 0 && seq_less(x.name, list.last().name) {
        placed_by_name(list.drop_last(), x).push(list.last())
    } else {
        list.push(x)
    }
}

/// The bucket files of a listing, sorted by name, stably.
pub open spec fn listed(entries: Seq<DirEntryView>) -> Seq<DirEntryView>
    decreases entries.len(),
{
    if entries.len() == 0 {
        Seq::empty()
    } else if is_listed(entries.last()) {
        placed_by_name(listed(entries.drop_last()), entries.last())
    } else {
        listed(entries.drop_last())
    }
}

proof fn lemma_placed_by_name_at(list: Seq<DirEntryView>, x: DirEntryView, j: int)
    requires
        0 <= j <= list.len(),
        forall|k: int| j <= k < list.len() ==> seq_less(x.name, #[trigger] list[k].name),
        j == 0 || !seq_less(x.name, list[j - 1].name),
    ensures
        placed_by_name(list, x) == list.insert(j, x),
    decreases list.len() - j,
{
    if j == list.len() {
        assert(list.insert(j, x) =~= list.push(x));
    } else {
        let shorter = list.drop_last();
        lemma_placed_by_name_at(shorter, x, j);
        assert(list.insert(j, x) =~= shorter.insert(j, x).push(list.last()));
    }
}

fn copy_entry(e: &DirEntry) -> (r: DirEntry)
    ensures
        r@ == e@,
{
    DirEntry { name: owned(e.name.as_str()), is_file: e.is_file, mtime: e.mtime, len: e.len }
}

/// The entries of a listing that are bucket files, sorted by name.
pub fn select_bucket_entries(entries: &Vec<DirEntry>) -> (r: Vec<DirEntry>)
    ensures
        entry_views(r@) == listed(entry_views(entries@)),
{
    let ghost all = entry_views(entries@);
    let mut out: Vec<DirEntry> = Vec::new();
    let mut i: usize = 0;
    while i < entries.len()
        invariant
            i <= entries@.len(),
            all == entry_views(entries@),
            entry_views(out@) == listed(all.take(i as int)),
        decreases entries.len() - i,
    {
        let ghost upto = all.take(i + 1);
        assert(upto.drop_last() =~= all.take(i as int));
        assert(upto.last() == entries@[i as int]@);
        let e = &entries[i];
        let wanted = is_bucket_file(e.name.as_str()) && e.is_file;
        if wanted {
            let x = copy_entry(e);
            let mut j: usize = out.len();
            while j > 0 && crate::text::str_less(x.name.as_str(), out[j - 1].name.as_str())
                invariant
                    j <= out@.len(),
                    forall|k: int| j <= k < out@.len() ==> seq_less(x@.name, #[trigger] entry_views(out@)[k].name),
                decreases j,
            {
                j = j - 1;
            }
            proof {
                lemma_placed_by_name_at(entry_views(out@), x@, j as int);
                assert(entry_views(out@.insert(j as int, x)) =~= entry_views(out@).insert(j as int, x@));
            }
            out.insert(j, x);
        }
        i = i + 1;
    }
    assert(all.take(entries@.len() as int) =~= all);
    out
}

impl BucketFile {
    /// The file an entry of the `kind` directory of a backup dir is.
    pub open spec fn of(dir: Seq<char>, kind: BucketKind, e: DirEntryView) -> (BucketKind, Seq<char>, i64, u64) {
        (kind, joined(joined(dir, kind.dir_name_of()), e.name), e.mtime, e.len)
    }

    pub open spec fn parts(self) -> (BucketKind, Seq<char>, i64, u64) {
        (self.kind, self.path@, self.mtime, self.len)
    }
}

impl Backup {
    /// The bucket files of one kind, given the listing of `<dir>/<kind>/`: regular files named
    /// `.json` or `.json.gz` and not hidden, sorted by name. A backup taken before any record of
    /// a kind existed has no directory for it; its listing is empty.
    pub fn bucket_files(&self, kind: BucketKind, listing: &Vec<DirEntry>) -> (r: Vec<BucketFile>)
        ensures
            r@.len() == listed(entry_views(listing@)).len(),
            forall|i: int| 0 <= i < r@.len() ==> (#[trigger] r@[i]).parts() == BucketFile::of(
                self.dir@,
                kind,
                listed(entry_views(listing@))[i],
            ),
    {
        let selected = select_bucket_entries(listing);
        let dir = join_path(self.dir.as_str(), kind.dir_name());
        let mut files: Vec<BucketFile> = Vec::new();
        let mut i: usize = 0;
        while i < selected.len()
            invariant
                i <= selected@.len(),
                dir@ == joined(self.dir@, kind.dir_name_of()),
                files@.len() == i,
                forall|k: int| 0 <= k < i ==> (#[trigger] files@[k]).parts() == BucketFile::of(
                    self.dir@,
                    kind,
                    entry_views(selected@)[k],
                ),
            decreases selected.len() - i,
        {
            let e = &selected[i];
            let path = join_path(dir.as_str(), e.name.as_str());
            files.push(BucketFile { path, kind, mtime: e.mtime, len: e.len });
            i = i + 1;
        }
        files
    }

    pub fn place_files(&self, listing: &Vec<DirEntry>) -> (r: Vec<BucketFile>)
        ensures
            r@.len() == listed(entry_views(listing@)).len(),
            forall|i: int| 0 <= i < r@.len() ==> (#[trigger] r@[i]).parts() == BucketFile::of(
                self.dir@,
                BucketKind::Places,
                listed(entry_views(listing@))[i],
            ),
    {
        self.bucket_files(BucketKind::Places, listing)
    }

    pub fn item_files(&self, listing: &Vec<DirEntry>) -> (r: Vec<BucketFile>)
        ensures
            r@.len() == listed(entry_views(listing@)).len(),
            forall|i: int| 0 <= i < r@.len() ==> (#[trigger] r@[i]).parts() == BucketFile::of(
                self.dir@,
                BucketKind::Items,
                listed(entry_views(listing@))[i],
            ),
    {
        self.bucket_files(BucketKind::Items, listing)
    }

    pub fn sample_files(&self, listing: &Vec<DirEntry>) -> (r: Vec<BucketFile>)
        ensures
            r@.len() == listed(entry_views(listing@)).len(),
            forall|i: int| 0 <= i < r@.len() ==> (#[trigger] r@[i]).parts() == BucketFile::of(
                self.dir@,
                BucketKind::Samples,
                listed(entry_views(listing@))[i],
            ),
    {
        self.bucket_files(BucketKind::Samples, listing)
    }
}

/// No entry of the sequence has a name before that of an entry preceding it.
pub open spec fn sorted_by_name(s: Seq<DirEntryView>) -> bool {
    forall|i: int, j: int| 0 <= i < j < s.len() ==> !seq_less(#[trigger] s[j].name, #[trigger] s[i].name)
}

proof fn lemma_placed_by_name(list: Seq<DirEntryView>, x: DirEntryView)
    requires
        sorted_by_name(list),
    ensures
        sorted_by_name(placed_by_name(list, x)),
        placed_by_name(list, x).to_multiset() == list.to_multiset().insert(x),
    decreases list.len(),
{
    broadcast use vstd::seq_lib::group_to_multiset_ensures;

    if list.len() > 0 && seq_less(x.name, list.last().name) {
        let shorter = list.drop_last();
        let last = list.last();
        assert(sorted_by_name(shorter)) by {
            assert forall|i: int, j: int| 0 <= i < j < shorter.len() implies !seq_less(
                #[trigger] shorter[j].name,
                #[trigger] shorter[i].name,
            ) by {
                assert(shorter[i] == list[i] && shorter[j] == list[j]);
            }
        }
        lemma_placed_by_name(shorter, x);
        let p = placed_by_name(shorter, x);
        assert forall|i: int| 0 <= i < p.len() implies !seq_less(last.name, #[trigger] p[i].name) by {
            assert(p.to_multiset().count(p[i]) > 0);
            assert(shorter.to_multiset().insert(x).count(p[i]) > 0);
            if p[i] == x {
                crate::text::lemma_seq_less_asymmetric(x.name, last.name);
            } else {
                assert(shorter.to_multiset().count(p[i]) > 0);
                assert(shorter.contains(p[i]));
                let k = choose|k: int| 0 <= k < shorter.len() && shorter[k] == p[i];
                assert(list[k] == p[i]);
                assert(!seq_less(list[list.len() - 1].name, list[k].name));
            }
        }
        assert forall|i: int, j: int| 0 <= i < j < p.len() + 1 implies !seq_less(
            #[trigger] p.push(last)[j].name,
            #[trigger] p.push(last)[i].name,
        ) by {
            if j == p.len() {
                assert(p.push(last)[j] == last);
            } else {
                assert(p.push(last)[j] == p[j] && p.push(last)[i] == p[i]);
            }
        }
        assert(list =~= shorter.push(last));
    } else {
        assert forall|i: int, j: int| 0 <= i < j < list.len() + 1 implies !seq_less(
            #[trigger] list.push(x)[j].name,
            #[trigger] list.push(x)[i].name,
        ) by {
            if j == list.len() {
                let e = list[i];
                let last = list.last();
                if i < list.len() - 1 {
                    assert(!seq_less(list[list.len() - 1].name, list[i].name));
                }
                crate::text::lemma_seq_less_total(e.name, last.name);
                if seq_less(x.name, e.name) && seq_less(e.name, last.name) {
                    crate::text::lemma_seq_less_transitive(x.name, e.name, last.name);
                }
            } else {
                assert(list.push(x)[j] == list[j] && list.push(x)[i] == list[i]);
            }
        }
    }
}

/// A bucket listing is sorted by name and holds exactly the entries that are bucket files.
pub proof fn bucket_listing_is_the_sorted_bucket_files(entries: Seq<DirEntryView>)
    ensures
        sorted_by_name(listed(entries)),
        listed(entries).to_multiset() == entries.filter(|e: DirEntryView| is_listed(e)).to_multiset(),
    decreases entries.len(),
{
    broadcast use vstd::seq_lib::group_to_multiset_ensures;

    let pred = |e: DirEntryView| is_listed(e);
    reveal(Seq::filter);
    if entries.len() > 0 {
        let rest = entries.drop_last();
        bucket_listing_is_the_sorted_bucket_files(rest);
        assert(entries.filter(pred) == if pred(entries.last()) {
            rest.filter(pred).push(entries.last())
        } else {
            rest.filter(pred)
        });
        if is_listed(entries.last()) {
            lemma_placed_by_name(listed(rest), entries.last());
        }
    } else {
        assert(listed(entries) =~= Seq::<DirEntryView>::empty());
        assert(entries.filter(pred) =~= Seq::<DirEntryView>::empty());
    }
}

} // verus!
