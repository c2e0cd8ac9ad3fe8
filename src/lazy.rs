//! The lazy store: the index in memory, the record log as a borrowed byte view
//! (normally a read-only memory map), and a hot-entry window in front of it.
//! Opening reads the index blob only; a record is decoded when it is asked for.

use vstd::prelude::*;
use crate::codec::{
    decode_entry, encode_entry, entry_bytes, lemma_entry_round_trip, lemma_entry_unparse,
    parse_entry,
};
use crate::entry::{copy_string, DirEntry, EntryView};
use crate::error::PTreeError;
use crate::index::{loaded_index, CacheIndex, IndexView};
use crate::log::{
    frame, lemma_append_keeps_records, lemma_read_after_append, read_record, record_at, LogWriter,
};
use crate::strmap::{index_of, lemma_index_of_agree, lemma_index_of_bounds, pairs_map, StrMap};
use crate::window::{find_key, lemma_find_key, put, touch, HotWindow};

verus! {

/// What the store holds for one path.
pub enum Stored {
    /// The path is not indexed, or its record is not (yet) in the data.
    Absent,
    /// The record decodes to this entry.
    Found(EntryView),
    /// The record is there but its bytes are not a record.
    Corrupt,
}

pub open spec fn opt_bytes(d: Option<&[u8]>) -> Option<Seq<u8>> {
    match d {
        Some(b) => Some(b@),
        None => None,
    }
}

/// What the index and the data hold for `k`.
pub open spec fn stored(ix: IndexView, data: Option<Seq<u8>>, k: Seq<char>) -> Stored {
    if !ix.offset_map().contains_key(k) {
        Stored::Absent
    } else {
        match data {
            None => Stored::Absent,
            Some(d) => match record_at(d, ix.offset_map()[k] as int) {
                None => Stored::Absent,
                Some(rec) => match parse_entry(rec) {
                    Some(v) => Stored::Found(v),
                    None => Stored::Corrupt,
                },
            },
        }
    }
}

/// The indexed entries that can be read, in index order.
pub open spec fn readable(ix: IndexView, data: Option<Seq<u8>>, n: int) -> Seq<(Seq<char>, EntryView)>
    decreases n,
{
    if n <= 0 {
        Seq::empty()
    } else {
        let k = ix.offsets[n - 1].0;
        match stored(ix, data, k) {
            Stored::Found(v) => readable(ix, data, n - 1).push((k, v)),
            _ => readable(ix, data, n - 1),
        }
    }
}

/// The persistent store, over a borrowed view of the record log.
pub struct LazyCache<'a> {
    index: CacheIndex,
    data: Option<&'a [u8]>,
    window: HotWindow,
    log: LogWriter,
}

/// Number of decoded entries the window keeps by default.
pub const DEFAULT_WINDOW: usize = 1000;

impl<'a> LazyCache<'a> {
    pub closed spec fn index_view(&self) -> IndexView {
        self.index@
    }

    pub closed spec fn data_view(&self) -> Option<Seq<u8>> {
        opt_bytes(self.data)
    }

    pub closed spec fn window_view(&self) -> Seq<(Seq<char>, EntryView)> {
        self.window@
    }

    pub closed spec fn window_cap(&self) -> nat {
        self.window.cap()
    }

    /// Where the next appended record starts.
    pub closed spec fn log_end(&self) -> u64 {
        self.log.spec_end()
    }

    /// The index's maps are well formed and every entry in the window is what
    /// the index and the data hold for its path.
    pub closed spec fn wf(&self) -> bool {
        &&& self.index.offsets.wf()
        &&& self.index.skip_stats.wf()
        &&& self.window.wf()
        &&& forall|i: int|
            0 <= i < self.window@.len() ==> stored(self.index@, opt_bytes(self.data), (
            #[trigger] self.window@[i]).0) == Stored::Found(self.window@[i].1)
    }

    /// Opens the store from the index blob (absent or unreadable: empty index)
    /// and a view of the record log (absent or empty: no data).
    pub fn open(index_blob: Option<&[u8]>, data: Option<&'a [u8]>, window_capacity: usize) -> (r:
        LazyCache<'a>)
        ensures
            r.wf(),
            r.index_view() == loaded_index(opt_bytes(index_blob)),
            r.data_view() == match data {
                Some(d) => if d@.len() > 0 {
                    Some(d@)
                } else {
                    None
                },
                None => None,
            },
            r.window_view().len() == 0,
            r.window_cap() == window_capacity,
            r.log_end() == match data {
                Some(d) => d@.len(),
                None => 0,
            },
    {
        let index = CacheIndex::load(index_blob);
        let data = match data {
            Some(d) => if d.len() > 0 {
                Some(d)
            } else {
                None
            },
            None => None,
        };
        let end = match data {
            Some(d) => d.len() as u64,
            None => 0,
        };
        LazyCache { index, data, window: HotWindow::new(window_capacity), log: LogWriter::new(end) }
    }

    /// The index.
    pub fn index(&self) -> (r: &CacheIndex)
        ensures
            r@ == self.index_view(),
    {
        &self.index
    }

    /// The entry stored for `path`: checked in the window first, then read and
    /// decoded from the data. `None` when the path is not indexed or its record
    /// is not in the data; `CorruptRecord` when the record's bytes are bad.
    #[verifier::rlimit(40)]
    pub fn get_entry(&mut self, path: &String) -> (r: Result<Option<DirEntry>, PTreeError>)
        requires
            old(self).wf(),
        ensures
            final(self).wf(),
            final(self).index_view() == old(self).index_view(),
            final(self).data_view() == old(self).data_view(),
            final(self).window_cap() == old(self).window_cap(),
            find_key(old(self).window_view(), path@) >= 0 ==> final(self).window_view() == touch(
                old(self).window_view(),
                find_key(old(self).window_view(), path@),
            ),
            find_key(old(self).window_view(), path@) < 0 ==> final(self).window_view() == match stored(
                old(self).index_view(),
                old(self).data_view(),
                path@,
            ) {
                Stored::Found(v) => put(old(self).window_view(), old(self).window_cap(), path@, v),
                _ => old(self).window_view(),
            },
            match stored(old(self).index_view(), old(self).data_view(), path@) {
                Stored::Absent => r == Ok::<Option<DirEntry>, PTreeError>(None),
                Stored::Found(v) => r is Ok && r->Ok_0 is Some && r->Ok_0->0@ == v,
                Stored::Corrupt => r == Err::<Option<DirEntry>, PTreeError>(
                    PTreeError::CorruptRecord,
                ),
            },
    {
        let ghost w = self.window@;
        let ghost ix = self.index@;
        let ghost d = opt_bytes(self.data);
        proof {
            lemma_find_key(w, path@);
        }
        match self.window.lookup(path) {
            Some(e) => {
                let ghost f = find_key(w, path@);
                assert(stored(ix, d, w[f].0) == Stored::Found(w[f].1));
                assert forall|i: int| 0 <= i < self.window@.len() implies stored(
                    ix,
                    d,
                    (#[trigger] self.window@[i]).0,
                ) == Stored::Found(self.window@[i].1) by {
                    let o = if i == 0 { f } else if i - 1 < f { i - 1 } else { i };
                    assert(self.window@[i] == w[o]);
                }
                return Ok(Some(e));
            },
            None => {},
        }
        match self.read_stored(path) {
            Ok(Some(e)) => {
                let keep = e.duplicate();
                let key = copy_string(path);
                self.window.store(key, keep);
                proof {
                    let nw = self.window@;
                    let front = seq![(path@, e@)] + (if find_key(w, path@) >= 0 {
                        w.remove(find_key(w, path@))
                    } else {
                        w
                    });
                    assert forall|i: int| 0 <= i < nw.len() implies stored(
                        ix,
                        d,
                        (#[trigger] nw[i]).0,
                    ) == Stored::Found(nw[i].1) by {
                        assert(nw[i] == front[i]);
                        if i > 0 {
                            assert(front[i] == w[i - 1]);
                        }
                    }
                }
                Ok(Some(e))
            },
            other => other,
        }
    }

    /// Reads and decodes the record stored for `path`, without the window.
    fn read_stored(&self, path: &String) -> (r: Result<Option<DirEntry>, PTreeError>)
        requires
            self.wf(),
        ensures
            match stored(self.index@, opt_bytes(self.data), path@) {
                Stored::Absent => r == Ok::<Option<DirEntry>, PTreeError>(None),
                Stored::Found(v) => r is Ok && r->Ok_0 is Some && r->Ok_0->0@ == v,
                Stored::Corrupt => r == Err::<Option<DirEntry>, PTreeError>(
                    PTreeError::CorruptRecord,
                ),
            },
    {
        let off = match self.index.offsets.get(path) {
            Some(o) => o,
            None => return Ok(None),
        };
        let data = match self.data {
            Some(d) => d,
            None => return Ok(None),
        };
        let rec = match read_record(data, off) {
            Ok(p) => p,
            Err(_) => return Ok(None),
        };
        match decode_entry(rec) {
            Ok(e) => {
                proof {
                    lemma_entry_round_trip(e@);
                }
                Ok(Some(e))
            },
            Err(err) => {
                proof {
                    if parse_entry(rec@) is Some {
                        lemma_entry_unparse(rec@);
                    }
                }
                Err(err)
            },
        }
    }

    /// Every indexed entry that can be read, with its path, in index order.
    /// Paths whose record is missing or corrupt are left out, so one bad record
    /// does not hide the rest of the tree.
    pub fn get_all(&mut self) -> (r: Vec<(String, DirEntry)>)
        requires
            old(self).wf(),
        ensures
            final(self).wf(),
            final(self).index_view() == old(self).index_view(),
            final(self).data_view() == old(self).data_view(),
            r@.map_values(|p: (String, DirEntry)| (p.0@, p.1@)) == readable(
                old(self).index_view(),
                old(self).data_view(),
                old(self).index_view().offsets.len() as int,
            ),
    {
        let ghost ix = self.index@;
        let ghost d = opt_bytes(self.data);
        let mut out: Vec<(String, DirEntry)> = Vec::new();
        let n = self.index.offsets.len();
        let mut i: usize = 0;
        while i < n
            invariant
                self.wf(),
                self.index@ == ix,
                opt_bytes(self.data) == d,
                n == ix.offsets.len(),
                i <= n,
                out@.map_values(|p: (String, DirEntry)| (p.0@, p.1@)) == readable(ix, d, i as int),
            decreases n - i,
        {
            let (k, _) = self.index.offsets.pair_at(i);
            let key = copy_string(k);
            let ghost prev = out@;
            match self.get_entry(&key) {
                Ok(Some(e)) => {
                    out.push((key, e));
                    assert(out@.map_values(|p: (String, DirEntry)| (p.0@, p.1@)) =~= prev.map_values(
                        |p: (String, DirEntry)| (p.0@, p.1@),
                    ).push((ix.offsets[i as int].0, e@)));
                },
                _ => {},
            }
            i += 1;
        }
        out
    }

    /// Encodes `entry` as the next record of the log: the offset for the
    /// caller to register in a new offset map, and the bytes to write there.
    /// The index is not changed. `Serialization` when the entry does not fit
    /// the record form; `OutOfRange` when the log would pass 2^64 bytes.
    pub fn append_entry(&mut self, entry: &DirEntry) -> (r: Result<(u64, Vec<u8>), PTreeError>)
        requires
            old(self).wf(),
        ensures
            final(self).wf(),
            final(self).index_view() == old(self).index_view(),
            final(self).data_view() == old(self).data_view(),
            final(self).window_view() == old(self).window_view(),
            match r {
                Ok((offset, bytes)) => {
                    &&& entry@.wf()
                    &&& offset == old(self).log_end()
                    &&& bytes@ == frame(entry_bytes(entry@))
                    &&& final(self).log_end() == old(self).log_end() + bytes@.len()
                },
                Err(e) => {
                    &&& final(self).log_end() == old(self).log_end()
                    &&& (e is Serialization && (!entry@.wf() || entry_bytes(entry@).len() > u32::MAX)
                        || e is OutOfRange && entry@.wf() && entry_bytes(entry@).len() <= u32::MAX
                        && old(self).log_end() + 4 + entry_bytes(entry@).len() > u64::MAX)
                },
            },
    {
        if !entry.fits() {
            return Err(PTreeError::Serialization(String::from_str("entry does not fit a record")));
        }
        let payload = encode_entry(entry);
        self.log.append(payload.as_slice())
    }

    /// Replaces the offsets and the scan metadata wholesale (no merge). The
    /// window is emptied, since the paths now name other records.
    pub fn update_index(&mut self, offsets: StrMap, last_scan: i64, root: String, last_scanned_root: String)
        requires
            old(self).wf(),
            offsets.wf(),
        ensures
            final(self).wf(),
            final(self).index_view() == (IndexView {
                offsets: offsets.pairs(),
                last_scan,
                root: root@,
                last_scanned_root: last_scanned_root@,
                ..old(self).index_view()
            }),
            final(self).data_view() == old(self).data_view(),
            final(self).window_view().len() == 0,
    {
        self.index.offsets = offsets;
        self.index.last_scan = last_scan;
        self.index.root = root;
        self.index.last_scanned_root = last_scanned_root;
        self.window.clear();
    }

    /// Appends `entry` as `append_entry` does and, when it succeeds, records
    /// its offset under the entry's own path in `scanned`, the offsets of the
    /// scan in progress.
    pub fn record_entry(&mut self, entry: &DirEntry, scanned: &mut StrMap) -> (r: Result<
        (u64, Vec<u8>),
        PTreeError,
    >)
        requires
            old(self).wf(),
            old(scanned).wf(),
        ensures
            final(self).wf(),
            final(scanned).wf(),
            final(self).index_view() == old(self).index_view(),
            final(self).data_view() == old(self).data_view(),
            final(self).window_view() == old(self).window_view(),
            match r {
                Ok((offset, bytes)) => {
                    &&& entry@.wf()
                    &&& offset == old(self).log_end()
                    &&& bytes@ == frame(entry_bytes(entry@))
                    &&& final(self).log_end() == old(self).log_end() + bytes@.len()
                    &&& final(scanned)@ == old(scanned)@.insert(entry@.path, offset)
                },
                Err(e) => {
                    &&& final(self).log_end() == old(self).log_end()
                    &&& final(scanned)@ == old(scanned)@
                    &&& (e is Serialization && (!entry@.wf() || entry_bytes(entry@).len() > u32::MAX)
                        || e is OutOfRange && entry@.wf() && entry_bytes(entry@).len() <= u32::MAX
                        && old(self).log_end() + 4 + entry_bytes(entry@).len() > u64::MAX)
                },
            },
    {
        let r = self.append_entry(entry);
        match &r {
            Ok((offset, _)) => {
                scanned.insert(copy_string(&entry.path), *offset);
            },
            Err(_) => {},
        }
        r
    }

    /// Stitches a scan of `scan_root` into the index: a full scan replaces the
    /// offsets and makes `scan_root` the root; a partial one keeps every other
    /// path and the root, and takes the scanned paths' new offsets. Either way
    /// the scan time is replaced and `scan_root` is the last scanned root.
    pub fn finish_scan(&mut self, full: bool, scanned: StrMap, last_scan: i64, scan_root: String)
        requires
            old(self).wf(),
            scanned.wf(),
        ensures
            final(self).wf(),
            full ==> final(self).index_view().offset_map() == scanned@,
            !full ==> final(self).index_view().offset_map() == old(self).index_view().offset_map().union_prefer_right(
                scanned@,
            ),
            final(self).index_view().last_scan == last_scan,
            full ==> final(self).index_view().root == scan_root@,
            !full ==> final(self).index_view().root == old(self).index_view().root,
            final(self).index_view().last_scanned_root == scan_root@,
            final(self).data_view() == old(self).data_view(),
    {
        if full {
            let root = copy_string(&scan_root);
            self.update_index(scanned, last_scan, root, scan_root);
        } else {
            let merged = merge_offsets(&self.index.offsets, &scanned);
            let root = copy_string(&self.index.root);
            self.update_index(merged, last_scan, root, scan_root);
        }
    }

    /// Replaces the skip statistics.
    pub fn set_skip_stats(&mut self, skip_stats: StrMap)
        requires
            old(self).wf(),
            skip_stats.wf(),
        ensures
            final(self).wf(),
            final(self).index_view() == (IndexView {
                skip_stats: skip_stats.pairs(),
                ..old(self).index_view()
            }),
            final(self).data_view() == old(self).data_view(),
            final(self).window_view() == old(self).window_view(),
    {
        self.index.skip_stats = skip_stats;
        assert forall|i: int| 0 <= i < self.window@.len() implies stored(
            self.index@,
            opt_bytes(self.data),
            (#[trigger] self.window@[i]).0,
        ) == Stored::Found(self.window@[i].1) by {
            assert(self.index@.offsets == old(self).index@.offsets);
        }
    }

    /// Replaces the change provider's cursor.
    pub fn set_change_cursor(&mut self, cursor: Vec<u8>)
        requires
            old(self).wf(),
        ensures
            final(self).wf(),
            final(self).index_view() == (IndexView {
                change_cursor: cursor@,
                ..old(self).index_view()
            }),
            final(self).data_view() == old(self).data_view(),
            final(self).window_view() == old(self).window_view(),
    {
        self.index.change_cursor = cursor;
        assert forall|i: int| 0 <= i < self.window@.len() implies stored(
            self.index@,
            opt_bytes(self.data),
            (#[trigger] self.window@[i]).0,
        ) == Stored::Found(self.window@[i].1) by {
            assert(self.index@.offsets == old(self).index@.offsets);
        }
    }

    /// Points the store at a new view of the record log, taken after appends.
    /// The window is emptied.
    pub fn remap(&mut self, data: &'a [u8])
        requires
            old(self).wf(),
        ensures
            final(self).wf(),
            final(self).index_view() == old(self).index_view(),
            final(self).data_view() == Some(data@),
            final(self).window_view().len() == 0,
    {
        self.data = Some(data);
        self.window.clear();
    }

    /// The number of indexed paths.
    pub fn entry_count(&self) -> (r: usize)
        ensures
            r == self.index_view().offsets.len(),
    {
        self.index.offsets.len()
    }

    /// Whether no path is indexed.
    pub fn is_empty(&self) -> (r: bool)
        ensures
            r == (self.index_view().offsets.len() == 0),
    {
        self.index.offsets.len() == 0
    }

    /// When the last complete scan ended.
    pub fn last_scan(&self) -> (r: i64)
        ensures
            r == self.index_view().last_scan,
    {
        self.index.last_scan
    }

    /// The root of the stored tree.
    pub fn root(&self) -> (r: &String)
        ensures
            r@ == self.index_view().root,
    {
        &self.index.root
    }

    /// How many directories each skip rule excluded.
    pub fn skip_stats(&self) -> (r: &StrMap)
        ensures
            r.pairs() == self.index_view().skip_stats,
    {
        &self.index.skip_stats
    }

    /// The change provider's cursor.
    pub fn change_cursor(&self) -> (r: &Vec<u8>)
        ensures
            r@ == self.index_view().change_cursor,
    {
        &self.index.change_cursor
    }
}

/// `base` with every pair of `newer` set over it.
fn merge_offsets(base: &StrMap, newer: &StrMap) -> (r: StrMap)
    requires
        base.wf(),
        newer.wf(),
    ensures
        r.wf(),
        r@ == base@.union_prefer_right(newer@),
{
    let mut r = StrMap::new();
    let n = base.len();
    let mut i: usize = 0;
    while i < n
        invariant
            n == base.pairs().len(),
            base.wf(),
            i <= n,
            r.wf(),
            r@ == pairs_map(base.pairs().take(i as int)),
        decreases n - i,
    {
        let (k, v) = base.pair_at(i);
        r.insert(copy_string(k), v);
        proof {
            lemma_pairs_map_snoc(base.pairs(), i as int);
        }
        i += 1;
    }
    assert(base.pairs().take(n as int) =~= base.pairs());
    let ghost mid = r@;
    let m = newer.len();
    let mut j: usize = 0;
    while j < m
        invariant
            m == newer.pairs().len(),
            newer.wf(),
            j <= m,
            r.wf(),
            r@ == mid.union_prefer_right(pairs_map(newer.pairs().take(j as int))),
        decreases m - j,
    {
        let (k, v) = newer.pair_at(j);
        r.insert(copy_string(k), v);
        proof {
            lemma_pairs_map_snoc(newer.pairs(), j as int);
            assert(r@ =~= mid.union_prefer_right(pairs_map(newer.pairs().take(j + 1))));
        }
        j += 1;
    }
    assert(newer.pairs().take(m as int) =~= newer.pairs());
    r
}

/// The map of one more pair is the map of the shorter prefix with that pair set.
proof fn lemma_pairs_map_snoc(s: Seq<(Seq<char>, u64)>, i: int)
    requires
        0 <= i < s.len(),
    ensures
        pairs_map(s.take(i + 1)) == pairs_map(s.take(i)).insert(s[i].0, s[i].1),
{
    let a = s.take(i);
    let b = s.take(i + 1);
    assert(b =~= a.push(s[i]));
    assert forall|q: Seq<char>| q != s[i].0 implies #[trigger] index_of(b, q, b.len() as int)
        == index_of(a, q, a.len() as int) by {
        lemma_index_of_agree(a, b, q, a.len() as int);
    }
    assert forall|q: Seq<char>| q != s[i].0 && index_of(a, q, a.len() as int) >= 0 implies b[index_of(
        a,
        q,
        a.len() as int,
    )] == #[trigger] a[index_of(a, q, a.len() as int)] by {
        lemma_index_of_bounds(a, q, a.len() as int);
    }
    assert(pairs_map(b) =~= pairs_map(a).insert(s[i].0, s[i].1));
}

/// A path indexed at the offset where its entry's record was appended is
/// found with that entry, whatever was appended after it.
pub proof fn lemma_indexed_record_found(
    ix: IndexView,
    d0: Seq<u8>,
    e: EntryView,
    more: Seq<u8>,
    k: Seq<char>,
)
    requires
        e.wf(),
        entry_bytes(e).len() <= u32::MAX,
        ix.offset_map().contains_key(k),
        ix.offset_map()[k] == d0.len(),
    ensures
        stored(ix, Some(d0 + frame(entry_bytes(e)) + more), k) == Stored::Found(e),
{
    let payload = entry_bytes(e);
    lemma_read_after_append(d0, payload);
    lemma_append_keeps_records(d0 + frame(payload), more, d0.len() as int);
    lemma_entry_round_trip(e);
}

} // verus!
