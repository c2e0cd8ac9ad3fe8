//! The cache index: where each path's record starts in the record log, plus
//! the scan metadata. It is stored as one small blob:
//! the last scan time as eight little-endian bytes, the root and the last
//! scanned root as string fields, the offsets and the skip statistics each as
//! a four-byte count followed by (string field, eight-byte value) pairs, and
//! the change cursor as a four-byte length followed by its bytes.

use vstd::prelude::*;
use crate::bytes::{
    fits_field, le_u32, le_u64, lemma_str_field_parses, lemma_str_field_unparses, lemma_u32_bytes,
    lemma_u32_round_trip, lemma_u64_bytes, lemma_u64_round_trip, parse_str_field, push_str_field,
    push_u32, push_u64, read_str_field, read_u32, read_u64, str_field, u32_of_le, u64_of_le,
};
use crate::strmap::{keys_unique, pair_view, pairs_map, StrMap};
use crate::entry::str_fits;

verus! {

pub type Pairs = Seq<(Seq<char>, u64)>;

/// The mathematical value of a `CacheIndex`.
pub struct IndexView {
    pub offsets: Pairs,
    pub last_scan: i64,
    pub root: Seq<char>,
    pub last_scanned_root: Seq<char>,
    pub skip_stats: Pairs,
    pub change_cursor: Seq<u8>,
}

pub open spec fn pairs_fit(ps: Pairs) -> bool {
    &&& ps.len() <= u32::MAX
    &&& keys_unique(ps)
    &&& forall|i: int| 0 <= i < ps.len() ==> fits_field((#[trigger] ps[i]).0)
}

impl IndexView {
    pub open spec fn wf(self) -> bool {
        &&& pairs_fit(self.offsets)
        &&& pairs_fit(self.skip_stats)
        &&& fits_field(self.root)
        &&& fits_field(self.last_scanned_root)
        &&& self.change_cursor.len() <= u32::MAX
    }

    /// The offsets as a map from path to offset.
    pub open spec fn offset_map(self) -> Map<Seq<char>, u64> {
        pairs_map(self.offsets)
    }
}

/// The index that a stored blob gives: what it holds when it reads back,
/// else the empty index.
pub open spec fn loaded_index(blob: Option<Seq<u8>>) -> IndexView {
    match blob {
        Some(b) => match parse_index(b) {
            Some(v) => v,
            None => empty_index(),
        },
        None => empty_index(),
    }
}

/// An index with nothing in it.
pub open spec fn empty_index() -> IndexView {
    IndexView {
        offsets: Seq::empty(),
        last_scan: 0,
        root: Seq::empty(),
        last_scanned_root: Seq::empty(),
        skip_stats: Seq::empty(),
        change_cursor: Seq::empty(),
    }
}

pub open spec fn pair_field(p: (Seq<char>, u64)) -> Seq<u8> {
    str_field(p.0) + le_u64(p.1)
}

pub open spec fn pairs_field(ps: Pairs) -> Seq<u8>
    decreases ps.len(),
{
    if ps.len() == 0 {
        Seq::empty()
    } else {
        pairs_field(ps.drop_last()) + pair_field(ps.last())
    }
}

pub open spec fn parse_pair(b: Seq<u8>) -> Option<((Seq<char>, u64), Seq<u8>)> {
    match parse_str_field(b) {
        Some((k, r)) => if r.len() >= 8 {
            Some(((k, u64_of_le(r)), r.skip(8)))
        } else {
            None
        },
        None => None,
    }
}

pub open spec fn parse_pairs(b: Seq<u8>, n: nat) -> Option<(Pairs, Seq<u8>)>
    decreases n,
{
    if n == 0 {
        Some((Seq::empty(), b))
    } else {
        match parse_pairs(b, (n - 1) as nat) {
            Some((ps, r)) => match parse_pair(r) {
                Some((p, r2)) => Some((ps.push(p), r2)),
                None => None,
            },
            None => None,
        }
    }
}

/// A counted list of pairs.
#[verifier::opaque]
pub open spec fn table_field(ps: Pairs) -> Seq<u8> {
    le_u32(ps.len() as u32) + pairs_field(ps)
}

/// Reads a counted list of pairs; repeated keys are refused.
pub open spec fn parse_table(b: Seq<u8>) -> Option<(Pairs, Seq<u8>)> {
    if b.len() < 4 {
        None
    } else {
        match parse_pairs(b.skip(4), u32_of_le(b) as nat) {
            Some((ps, r)) => if keys_unique(ps) {
                Some((ps, r))
            } else {
                None
            },
            None => None,
        }
    }
}

/// The blob that stores an index.
pub open spec fn index_bytes(v: IndexView) -> Seq<u8> {
    le_u64(v.last_scan as u64) + (str_field(v.root) + (str_field(v.last_scanned_root) + (
    table_field(v.offsets) + (table_field(v.skip_stats) + (le_u32(v.change_cursor.len() as u32)
        + v.change_cursor)))))
}

/// Reads an index blob that fills `b` exactly.
pub open spec fn parse_index(b: Seq<u8>) -> Option<IndexView> {
    if b.len() < 8 {
        None
    } else {
        match parse_str_field(b.skip(8)) {
            None => None,
            Some((root, b1)) => match parse_str_field(b1) {
                None => None,
                Some((lsr, b2)) => match parse_table(b2) {
                    None => None,
                    Some((offsets, b3)) => match parse_table(b3) {
                        None => None,
                        Some((stats, b4)) => if b4.len() >= 4 && b4.len() == 4 + u32_of_le(
                            b4,
                        ) {
                            Some(
                                IndexView {
                                    offsets,
                                    last_scan: u64_of_le(b) as i64,
                                    root,
                                    last_scanned_root: lsr,
                                    skip_stats: stats,
                                    change_cursor: b4.skip(4),
                                },
                            )
                        } else {
                            None
                        },
                    },
                },
            },
        }
    }
}

proof fn lemma_pair_parses(p: (Seq<char>, u64), rest: Seq<u8>)
    requires
        fits_field(p.0),
    ensures
        parse_pair(pair_field(p) + rest) == Some((p, rest)),
{
    let r = le_u64(p.1) + rest;
    assert(pair_field(p) + rest =~= str_field(p.0) + r);
    lemma_str_field_parses(p.0, r);
    lemma_u64_round_trip(p.1);
    assert(r.take(8) =~= le_u64(p.1));
    assert(u64_of_le(r) == u64_of_le(r.take(8)));
    assert(r.skip(8) =~= rest);
}

proof fn lemma_pair_unparses(b: Seq<u8>)
    requires
        parse_pair(b) is Some,
    ensures
        ({
            let (p, rest) = parse_pair(b)->0;
            fits_field(p.0) && b == pair_field(p) + rest
        }),
{
    lemma_str_field_unparses(b);
    let (k, r) = parse_str_field(b)->0;
    lemma_u64_bytes(r.take(8));
    assert(u64_of_le(r.take(8)) == u64_of_le(r));
    assert(r =~= le_u64(u64_of_le(r)) + r.skip(8));
    assert(b =~= pair_field((k, u64_of_le(r))) + r.skip(8));
}

proof fn lemma_pairs_parse(ps: Pairs, rest: Seq<u8>)
    requires
        forall|i: int| 0 <= i < ps.len() ==> fits_field((#[trigger] ps[i]).0),
    ensures
        parse_pairs(pairs_field(ps) + rest, ps.len()) == Some((ps, rest)),
    decreases ps.len(),
{
    if ps.len() > 0 {
        let init = ps.drop_last();
        let last = ps.last();
        assert(pairs_field(ps) + rest =~= pairs_field(init) + (pair_field(last) + rest));
        assert forall|i: int| 0 <= i < init.len() implies fits_field((#[trigger] init[i]).0) by {
            assert(init[i] == ps[i]);
        }
        lemma_pairs_parse(init, pair_field(last) + rest);
        assert(fits_field(ps[ps.len() - 1].0));
        lemma_pair_parses(last, rest);
        assert(init.push(last) =~= ps);
    } else {
        assert(pairs_field(ps) + rest =~= rest);
        assert(ps =~= Pairs::empty());
    }
}

proof fn lemma_pairs_unparse(b: Seq<u8>, n: nat)
    requires
        parse_pairs(b, n) is Some,
    ensures
        ({
            let (ps, rest) = parse_pairs(b, n)->0;
            &&& ps.len() == n
            &&& forall|i: int| 0 <= i < ps.len() ==> fits_field((#[trigger] ps[i]).0)
            &&& b == pairs_field(ps) + rest
        }),
    decreases n,
{
    if n == 0 {
        assert(b =~= pairs_field(Pairs::empty()) + b);
    } else {
        let (ys, r1) = parse_pairs(b, (n - 1) as nat)->0;
        lemma_pairs_unparse(b, (n - 1) as nat);
        lemma_pair_unparses(r1);
        let (x, r) = parse_pair(r1)->0;
        let ps = ys.push(x);
        assert(ps.drop_last() =~= ys);
        assert(b =~= pairs_field(ps) + r);
        assert forall|i: int| 0 <= i < ps.len() implies fits_field((#[trigger] ps[i]).0) by {
            if i < ys.len() {
                assert(ps[i] == ys[i]);
            }
        }
    }
}

proof fn lemma_table_parses(ps: Pairs, rest: Seq<u8>)
    requires
        pairs_fit(ps),
    ensures
        parse_table(table_field(ps) + rest) == Some((ps, rest)),
{
    reveal(table_field);
    let b = table_field(ps) + rest;
    lemma_u32_round_trip(ps.len() as u32);
    assert(b.take(4) =~= le_u32(ps.len() as u32));
    assert(u32_of_le(b) == u32_of_le(b.take(4)));
    assert(b.skip(4) =~= pairs_field(ps) + rest);
    lemma_pairs_parse(ps, rest);
}

proof fn lemma_table_unparses(b: Seq<u8>)
    requires
        parse_table(b) is Some,
    ensures
        ({
            let (ps, rest) = parse_table(b)->0;
            pairs_fit(ps) && b == table_field(ps) + rest
        }),
{
    reveal(table_field);
    lemma_pairs_unparse(b.skip(4), u32_of_le(b) as nat);
    let (ps, rest) = parse_table(b)->0;
    lemma_u32_bytes(b.take(4));
    assert(u32_of_le(b.take(4)) == u32_of_le(b));
    assert(ps.len() as u32 == u32_of_le(b));
    assert(b.take(4) == le_u32(ps.len() as u32));
    assert(b =~= b.take(4) + b.skip(4));
    assert(b =~= le_u32(ps.len() as u32) + pairs_field(ps) + rest);
}

/// Reading back the blob of a well-formed index gives the index.
pub proof fn lemma_index_round_trip(v: IndexView)
    requires
        v.wf(),
    ensures
        parse_index(index_bytes(v)) == Some(v),
{
    let c = le_u32(v.change_cursor.len() as u32) + v.change_cursor;
    let b4 = table_field(v.skip_stats) + c;
    let b3 = table_field(v.offsets) + b4;
    let b2 = str_field(v.last_scanned_root) + b3;
    let b1 = str_field(v.root) + b2;
    let b = index_bytes(v);
    lemma_u64_round_trip(v.last_scan as u64);
    assert(b.take(8) =~= le_u64(v.last_scan as u64));
    assert(u64_of_le(b) == u64_of_le(b.take(8)));
    assert(b.skip(8) =~= b1);
    lemma_str_field_parses(v.root, b2);
    lemma_str_field_parses(v.last_scanned_root, b3);
    lemma_table_parses(v.offsets, b4);
    lemma_table_parses(v.skip_stats, c);
    lemma_u32_round_trip(v.change_cursor.len() as u32);
    assert(c.take(4) =~= le_u32(v.change_cursor.len() as u32));
    assert(u32_of_le(c) == u32_of_le(c.take(4)));
    assert(c.skip(4) =~= v.change_cursor);
    let x = v.last_scan;
    assert((x as u64) as i64 == x) by (bit_vector);
}

/// A blob that reads back as an index is exactly that index's blob.
#[verifier::rlimit(40)]
pub proof fn lemma_index_unparse(b: Seq<u8>)
    requires
        parse_index(b) is Some,
    ensures
        parse_index(b)->0.wf(),
        index_bytes(parse_index(b)->0) == b,
{
    let v = parse_index(b)->0;
    lemma_u64_bytes(b.take(8));
    assert(u64_of_le(b.take(8)) == u64_of_le(b));
    let m = u64_of_le(b);
    assert((m as i64) as u64 == m) by (bit_vector);
    lemma_str_field_unparses(b.skip(8));
    let (root, b1) = parse_str_field(b.skip(8))->0;
    lemma_str_field_unparses(b1);
    let (lsr, b2) = parse_str_field(b1)->0;
    lemma_table_unparses(b2);
    let (offsets, b3) = parse_table(b2)->0;
    lemma_table_unparses(b3);
    let (stats, b4) = parse_table(b3)->0;
    lemma_u32_bytes(b4.take(4));
    assert(u32_of_le(b4.take(4)) == u32_of_le(b4));
    assert(v.offsets == offsets && v.skip_stats == stats && v.root == root
        && v.last_scanned_root == lsr && v.change_cursor == b4.skip(4));
    assert(b4 =~= le_u32(v.change_cursor.len() as u32) + v.change_cursor);
    assert(b3 == table_field(stats) + b4);
    assert(b2 == table_field(offsets) + b3);
    assert(b1 == str_field(lsr) + b2);
    assert(b.skip(8) == str_field(root) + b1);
    assert(b.take(8) == le_u64(v.last_scan as u64));
    assert(b =~= b.take(8) + b.skip(8));
}

/// Where each path's record starts in the record log, and the scan metadata.
pub struct CacheIndex {
    /// Offset of each path's record in the record log.
    pub offsets: StrMap,
    /// When the last complete scan ended, in milliseconds since the Unix epoch.
    pub last_scan: i64,
    /// The root of the tree the store describes.
    pub root: String,
    /// The most specific directory the last scan covered.
    pub last_scanned_root: String,
    /// How many directories each skip rule excluded.
    pub skip_stats: StrMap,
    /// The change provider's position token, kept as it was handed over.
    pub change_cursor: Vec<u8>,
}

impl View for CacheIndex {
    type V = IndexView;

    open spec fn view(&self) -> IndexView {
        IndexView {
            offsets: self.offsets.pairs(),
            last_scan: self.last_scan,
            root: self.root@,
            last_scanned_root: self.last_scanned_root@,
            skip_stats: self.skip_stats.pairs(),
            change_cursor: self.change_cursor@,
        }
    }
}

fn table_fits(m: &StrMap) -> (r: bool)
    requires
        m.wf(),
    ensures
        r == pairs_fit(m.pairs()),
{
    let n = m.len();
    if n > 0xffff_ffff {
        return false;
    }
    let mut i: usize = 0;
    while i < n
        invariant
            n == m.pairs().len(),
            i <= n,
            forall|j: int| 0 <= j < i ==> fits_field((#[trigger] m.pairs()[j]).0),
        decreases n - i,
    {
        let (k, _) = m.pair_at(i);
        if !str_fits(k) {
            return false;
        }
        i += 1;
    }
    true
}

fn push_table(out: &mut Vec<u8>, m: &StrMap)
    requires
        pairs_fit(m.pairs()),
    ensures
        final(out)@ == old(out)@ + table_field(m.pairs()),
{
    let ghost ps = m.pairs();
    let ghost start = out@;
    push_u32(out, m.len() as u32);
    let ghost head = out@;
    let mut i: usize = 0;
    while i < m.len()
        invariant
            ps == m.pairs(),
            pairs_fit(ps),
            i <= ps.len(),
            head == start + le_u32(ps.len() as u32),
            out@ == head + pairs_field(ps.take(i as int)),
        decreases ps.len() - i,
    {
        let (k, v) = m.pair_at(i);
        assert(fits_field(ps[i as int].0));
        push_str_field(out, k.as_str());
        push_u64(out, v);
        let ghost next = ps.take(i + 1);
        assert(next.drop_last() =~= ps.take(i as int));
        i += 1;
        assert(out@ =~= head + pairs_field(ps.take(i as int)));
    }
    assert(ps.take(i as int) =~= ps);
    proof {
        reveal(table_field);
    }
    assert(out@ =~= start + table_field(ps));
}

fn read_table(buf: &[u8], pos: usize) -> (r: Option<(StrMap, usize)>)
    requires
        pos <= buf@.len(),
    ensures
        match r {
            Some((m, next)) => next <= buf@.len() && m.wf() && parse_table(buf@.skip(pos as int))
                == Some((m.pairs(), buf@.skip(next as int))),
            None => parse_table(buf@.skip(pos as int)) is None,
        },
{
    let ghost b = buf@.skip(pos as int);
    if buf.len() - pos < 4 {
        return None;
    }
    let count = read_u32(buf, pos);
    let mut at = pos + 4;
    assert(b.skip(4) =~= buf@.skip(at as int));
    let ghost b0 = b.skip(4);
    let mut pairs: Vec<(String, u64)> = Vec::new();
    let mut i: u32 = 0;
    while i < count
        invariant
            at <= buf@.len(),
            i <= count,
            b0 == b.skip(4),
            b == buf@.skip(pos as int),
            count == u32_of_le(b),
            parse_pairs(b0, i as nat) == Some(
                (pairs@.map_values(|p: (String, u64)| pair_view(p)), buf@.skip(at as int)),
            ),
        decreases count - i,
    {
        let ghost r = buf@.skip(at as int);
        match read_str_field(buf, at) {
            Some((k, next)) => {
                if buf.len() - next < 8 {
                    assert(parse_pair(r) is None);
                    proof {
                        lemma_pairs_none_grows(b0, (i + 1) as nat, count as nat);
                    }
                    return None;
                }
                let v = read_u64(buf, next);
                let ghost prev = pairs@;
                pairs.push((k, v));
                assert(pairs@.map_values(|p: (String, u64)| pair_view(p)) =~= prev.map_values(
                    |p: (String, u64)| pair_view(p),
                ).push((k@, v)));
                assert(buf@.skip(next as int).skip(8) =~= buf@.skip(next + 8));
                at = next + 8;
                i += 1;
            },
            None => {
                assert(parse_pair(r) is None);
                proof {
                    lemma_pairs_none_grows(b0, (i + 1) as nat, count as nat);
                }
                return None;
            },
        }
    }
    match StrMap::from_pairs(&pairs) {
        Some(m) => Some((m, at)),
        None => None,
    }
}

proof fn lemma_pairs_none_grows(b: Seq<u8>, m: nat, n: nat)
    requires
        m <= n,
        parse_pairs(b, m) is None,
    ensures
        parse_pairs(b, n) is None,
    decreases n - m,
{
    if m < n {
        lemma_pairs_none_grows(b, m, (n - 1) as nat);
    }
}

impl CacheIndex {
    /// An index with no paths, no statistics and an empty cursor.
    pub fn new() -> (r: CacheIndex)
        ensures
            r@ == empty_index(),
            r.offsets.wf(),
            r.skip_stats.wf(),
    {
        CacheIndex {
            offsets: StrMap::new(),
            last_scan: 0,
            root: String::new(),
            last_scanned_root: String::new(),
            skip_stats: StrMap::new(),
            change_cursor: Vec::new(),
        }
    }

    /// The blob that stores this index.
    pub fn to_bytes(&self) -> (r: Vec<u8>)
        requires
            self@.wf(),
        ensures
            r@ == index_bytes(self@),
    {
        let ghost v = self@;
        let mut out: Vec<u8> = Vec::new();
        push_u64(&mut out, self.last_scan as u64);
        let ghost s1 = out@;
        push_str_field(&mut out, self.root.as_str());
        let ghost s2 = out@;
        push_str_field(&mut out, self.last_scanned_root.as_str());
        let ghost s3 = out@;
        push_table(&mut out, &self.offsets);
        let ghost s4 = out@;
        push_table(&mut out, &self.skip_stats);
        let ghost s5 = out@;
        push_u32(&mut out, self.change_cursor.len() as u32);
        let mut i: usize = 0;
        let ghost s6 = out@;
        while i < self.change_cursor.len()
            invariant
                i <= self.change_cursor@.len(),
                out@ == s6 + self.change_cursor@.take(i as int),
            decreases self.change_cursor@.len() - i,
        {
            out.push(self.change_cursor[i]);
            i += 1;
            assert(out@ =~= s6 + self.change_cursor@.take(i as int));
        }
        assert(self.change_cursor@.take(i as int) =~= self.change_cursor@);
        assert(out@ =~= index_bytes(v));
        out
    }

    /// The blob that stores this index; `None` when a string or a table is too
    /// long for the blob's four-byte lengths.
    pub fn encode(&self) -> (r: Option<Vec<u8>>)
        requires
            self.offsets.wf(),
            self.skip_stats.wf(),
        ensures
            match r {
                Some(b) => self@.wf() && b@ == index_bytes(self@),
                None => !self@.wf(),
            },
    {
        if !str_fits(&self.root) || !str_fits(&self.last_scanned_root)
            || self.change_cursor.len() > 0xffff_ffff || !table_fits(&self.offsets)
            || !table_fits(&self.skip_stats) {
            return None;
        }
        Some(self.to_bytes())
    }

    /// Reads an index blob; `None` when `buf` is not exactly the blob of an index.
    pub fn from_bytes(buf: &[u8]) -> (r: Option<CacheIndex>)
        ensures
            match r {
                Some(ix) => ix@.wf() && index_bytes(ix@) == buf@ && ix.offsets.wf()
                    && ix.skip_stats.wf(),
                None => forall|v: IndexView| v.wf() ==> index_bytes(v) != buf@,
            },
    {
        match Self::parse_parts(buf) {
            Some(ix) => {
                proof {
                    lemma_index_unparse(buf@);
                }
                Some(ix)
            },
            None => {
                assert forall|v: IndexView| v.wf() implies index_bytes(v) != buf@ by {
                    lemma_index_round_trip(v);
                }
                None
            },
        }
    }

    fn parse_parts(buf: &[u8]) -> (r: Option<CacheIndex>)
        ensures
            match r {
                Some(ix) => parse_index(buf@) == Some(ix@) && ix.offsets.wf() && ix.skip_stats.wf(),
                None => parse_index(buf@) is None,
            },
    {
        if buf.len() < 8 {
            return None;
        }
        let last_scan = read_u64(buf, 0) as i64;
        assert(buf@.skip(0) =~= buf@);
        let (root, pos1) = match read_str_field(buf, 8) {
            Some(x) => x,
            None => return None,
        };
        let (last_scanned_root, pos2) = match read_str_field(buf, pos1) {
            Some(x) => x,
            None => return None,
        };
        let (offsets, pos3) = match read_table(buf, pos2) {
            Some(x) => x,
            None => return None,
        };
        let (skip_stats, pos4) = match read_table(buf, pos3) {
            Some(x) => x,
            None => return None,
        };
        if buf.len() - pos4 < 4 {
            return None;
        }
        let n = read_u32(buf, pos4);
        if buf.len() - pos4 - 4 != n as usize {
            return None;
        }
        let mut change_cursor: Vec<u8> = Vec::new();
        let mut i: usize = pos4 + 4;
        while i < buf.len()
            invariant
                pos4 + 4 <= i <= buf@.len(),
                change_cursor@ == buf@.subrange(pos4 + 4, i as int),
            decreases buf@.len() - i,
        {
            change_cursor.push(buf[i]);
            i += 1;
            assert(change_cursor@ =~= buf@.subrange(pos4 + 4, i as int));
        }
        assert(buf@.skip(pos4 as int).skip(4) =~= change_cursor@);
        Some(CacheIndex { offsets, last_scan, root, last_scanned_root, skip_stats, change_cursor })
    }

    /// Reads the stored index; an absent or unreadable blob gives the empty index.
    pub fn load(buf: Option<&[u8]>) -> (r: CacheIndex)
        ensures
            r.offsets.wf(),
            r.skip_stats.wf(),
            r@ == loaded_index(match buf {
                Some(b) => Some(b@),
                None => None,
            }),
    {
        match buf {
            Some(b) => match Self::parse_parts(b) {
                Some(ix) => ix,
                None => Self::new(),
            },
            None => Self::new(),
        }
    }
}

} // verus!
