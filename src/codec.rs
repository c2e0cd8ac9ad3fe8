//! The byte form of one directory record.
//!
//! A record is, in order: the path and the name as string fields, the
//! observation time and the content hash as eight little-endian bytes each,
//! the child count as four bytes followed by one string field per child, the
//! link target as a tag byte (0 absent, 1 present) followed by a string field
//! when present, and the two flags as one byte each (0 or 1).

use vstd::prelude::*;
use crate::bytes::{
    fits_field, le_u32, le_u64, lemma_str_field_parses, lemma_str_field_unparses, lemma_u32_bytes,
    lemma_u32_round_trip, lemma_u64_bytes, lemma_u64_round_trip, parse_str_field, push_str_field,
    push_u32, push_u64, read_str_field, read_u32, read_u64, str_field, u32_of_le, u64_of_le,
};
use crate::entry::{DirEntry, EntryView};
use crate::error::PTreeError;

verus! {

/// The string fields of `cs`, in order.
pub open spec fn names_field(cs: Seq<Seq<char>>) -> Seq<u8>
    decreases cs.len(),
{
    if cs.len() == 0 {
        Seq::empty()
    } else {
        names_field(cs.drop_last()) + str_field(cs.last())
    }
}

/// Reads `n` string fields from the front of `b`.
pub open spec fn parse_names(b: Seq<u8>, n: nat) -> Option<(Seq<Seq<char>>, Seq<u8>)>
    decreases n,
{
    if n == 0 {
        Some((Seq::empty(), b))
    } else {
        match parse_names(b, (n - 1) as nat) {
            Some((cs, r)) => match parse_str_field(r) {
                Some((c, r2)) => Some((cs.push(c), r2)),
                None => None,
            },
            None => None,
        }
    }
}

/// The bytes of an optional string.
#[verifier::opaque]
pub open spec fn opt_field(o: Option<Seq<char>>) -> Seq<u8> {
    match o {
        Some(s) => seq![1u8] + str_field(s),
        None => seq![0u8],
    }
}

pub open spec fn parse_opt_field(b: Seq<u8>) -> Option<(Option<Seq<char>>, Seq<u8>)> {
    if b.len() < 1 {
        None
    } else if b[0] == 0 {
        Some((None, b.skip(1)))
    } else if b[0] == 1 {
        match parse_str_field(b.skip(1)) {
            Some((s, r)) => Some((Some(s), r)),
            None => None,
        }
    } else {
        None
    }
}

pub open spec fn opt_fits(o: Option<Seq<char>>) -> bool {
    match o {
        Some(t) => fits_field(t),
        None => true,
    }
}

proof fn lemma_opt_parses(o: Option<Seq<char>>, rest: Seq<u8>)
    requires
        opt_fits(o),
    ensures
        parse_opt_field(opt_field(o) + rest) == Some((o, rest)),
{
    reveal(opt_field);
    let b = opt_field(o) + rest;
    match o {
        Some(t) => {
            assert(b.skip(1) =~= str_field(t) + rest);
            lemma_str_field_parses(t, rest);
        },
        None => {
            assert(b.skip(1) =~= rest);
        },
    }
}

proof fn lemma_opt_unparses(b: Seq<u8>)
    requires
        parse_opt_field(b) is Some,
    ensures
        ({
            let (o, rest) = parse_opt_field(b)->0;
            opt_fits(o) && b == opt_field(o) + rest
        }),
{
    reveal(opt_field);
    if b[0] == 1 {
        lemma_str_field_unparses(b.skip(1));
        let (t, rest) = parse_str_field(b.skip(1))->0;
        assert(b.skip(1) == str_field(t) + rest);
        assert(b =~= seq![1u8] + b.skip(1));
        assert(b =~= (seq![1u8] + str_field(t)) + rest);
    } else {
        assert(b =~= seq![0u8] + b.skip(1));
    }
}

/// The fixed-width middle of a record: time, hash and child count.
#[verifier::opaque]
pub open spec fn header_bytes(modified: u64, hash: u64, count: u32) -> Seq<u8> {
    le_u64(modified) + (le_u64(hash) + le_u32(count))
}

proof fn lemma_header_parses(modified: u64, hash: u64, count: u32, rest: Seq<u8>)
    ensures
        ({
            let b = header_bytes(modified, hash, count) + rest;
            &&& b.len() >= 20
            &&& u64_of_le(b) == modified
            &&& u64_of_le(b.skip(8)) == hash
            &&& u32_of_le(b.skip(16)) == count
            &&& b.skip(20) == rest
        }),
{
    reveal(header_bytes);
    let b = header_bytes(modified, hash, count) + rest;
    lemma_u64_round_trip(modified);
    lemma_u64_round_trip(hash);
    lemma_u32_round_trip(count);
    assert(b.take(8) =~= le_u64(modified));
    assert(u64_of_le(b) == u64_of_le(b.take(8)));
    assert(b.skip(8).take(8) =~= le_u64(hash));
    assert(u64_of_le(b.skip(8)) == u64_of_le(b.skip(8).take(8)));
    assert(b.skip(16).take(4) =~= le_u32(count));
    assert(u32_of_le(b.skip(16)) == u32_of_le(b.skip(16).take(4)));
    assert(b.skip(20) =~= rest);
}

proof fn lemma_header_unparses(b: Seq<u8>)
    requires
        b.len() >= 20,
    ensures
        b == header_bytes(u64_of_le(b), u64_of_le(b.skip(8)), u32_of_le(b.skip(16))) + b.skip(20),
{
    reveal(header_bytes);
    lemma_u64_bytes(b.take(8));
    lemma_u64_bytes(b.skip(8).take(8));
    lemma_u32_bytes(b.skip(16).take(4));
    assert(u64_of_le(b.take(8)) == u64_of_le(b));
    assert(u64_of_le(b.skip(8).take(8)) == u64_of_le(b.skip(8)));
    assert(u32_of_le(b.skip(16).take(4)) == u32_of_le(b.skip(16)));
    assert(b =~= header_bytes(u64_of_le(b), u64_of_le(b.skip(8)), u32_of_le(b.skip(16)))
        + b.skip(20));
}

pub open spec fn flag_byte(f: bool) -> u8 {
    if f {
        1
    } else {
        0
    }
}

/// The bytes of a record.
pub open spec fn entry_bytes(e: EntryView) -> Seq<u8> {
    str_field(e.path) + (str_field(e.name) + (header_bytes(
        e.modified as u64,
        e.content_hash,
        e.children.len() as u32,
    ) + (names_field(e.children) + (opt_field(e.symlink_target) + seq![
        flag_byte(e.is_hidden),
        flag_byte(e.is_dir),
    ]))))
}

/// Reads what follows the two strings of a record, to the end of `b`.
pub open spec fn parse_body(path: Seq<char>, name: Seq<char>, b2: Seq<u8>) -> Option<EntryView> {
    if b2.len() < 20 {
        None
    } else {
        let count = u32_of_le(b2.skip(16));
        match parse_names(b2.skip(20), count as nat) {
            None => None,
            Some((children, b3)) => match parse_opt_field(b3) {
                None => None,
                Some((link, b4)) => if b4.len() == 2 && b4[0] <= 1 && b4[1] <= 1 {
                    Some(
                        EntryView {
                            path,
                            name,
                            modified: u64_of_le(b2) as i64,
                            content_hash: u64_of_le(b2.skip(8)),
                            children,
                            symlink_target: link,
                            is_hidden: b4[0] == 1,
                            is_dir: b4[1] == 1,
                        },
                    )
                } else {
                    None
                },
            },
        }
    }
}

/// Reads a record that fills `b` exactly.
pub open spec fn parse_entry(b: Seq<u8>) -> Option<EntryView> {
    match parse_str_field(b) {
        None => None,
        Some((path, b1)) => match parse_str_field(b1) {
            None => None,
            Some((name, b2)) => parse_body(path, name, b2),
        },
    }
}

/// What follows the two strings of a record.
pub open spec fn body_bytes(e: EntryView) -> Seq<u8> {
    header_bytes(e.modified as u64, e.content_hash, e.children.len() as u32) + (names_field(
        e.children,
    ) + (opt_field(e.symlink_target) + seq![flag_byte(e.is_hidden), flag_byte(e.is_dir)]))
}

proof fn lemma_body_round_trip(e: EntryView)
    requires
        e.wf(),
    ensures
        parse_body(e.path, e.name, body_bytes(e)) == Some(e),
{
    let t = seq![flag_byte(e.is_hidden), flag_byte(e.is_dir)];
    let b4 = opt_field(e.symlink_target) + t;
    let b3 = names_field(e.children) + b4;
    let m = e.modified as u64;
    let n = e.children.len() as u32;
    let b2 = body_bytes(e);
    lemma_header_parses(m, e.content_hash, n, b3);
    assert(n as nat == e.children.len());
    lemma_names_parse(e.children, b4);
    assert(parse_names(b2.skip(20), n as nat) == Some((e.children, b4)));
    lemma_opt_parses(e.symlink_target, t);
    let x = e.modified;
    assert((x as u64) as i64 == x) by (bit_vector);
    assert(u64_of_le(b2) as i64 == e.modified);
}

proof fn lemma_body_unparse(path: Seq<char>, name: Seq<char>, b2: Seq<u8>)
    requires
        parse_body(path, name, b2) is Some,
    ensures
        parse_body(path, name, b2)->0.path == path,
        parse_body(path, name, b2)->0.name == name,
        parse_body(path, name, b2)->0.children.len() <= u32::MAX,
        forall|i: int|
            0 <= i < parse_body(path, name, b2)->0.children.len() ==> fits_field(
                #[trigger] parse_body(path, name, b2)->0.children[i],
            ),
        opt_fits(parse_body(path, name, b2)->0.symlink_target),
        body_bytes(parse_body(path, name, b2)->0) == b2,
{
    let e = parse_body(path, name, b2)->0;
    lemma_header_unparses(b2);
    let count = u32_of_le(b2.skip(16));
    let (children, b3) = parse_names(b2.skip(20), count as nat)->0;
    lemma_names_unparse(b2.skip(20), count as nat);
    lemma_opt_unparses(b3);
    let (link, b4) = parse_opt_field(b3)->0;
    let m = u64_of_le(b2);
    assert((m as i64) as u64 == m) by (bit_vector);
    assert(b4 =~= seq![flag_byte(e.is_hidden), flag_byte(e.is_dir)]);
    assert(children.len() as u32 == count);
}

proof fn lemma_names_parse(cs: Seq<Seq<char>>, rest: Seq<u8>)
    requires
        forall|i: int| 0 <= i < cs.len() ==> fits_field(#[trigger] cs[i]),
    ensures
        parse_names(names_field(cs) + rest, cs.len()) == Some((cs, rest)),
    decreases cs.len(),
{
    if cs.len() > 0 {
        let init = cs.drop_last();
        let last = cs.last();
        assert(names_field(cs) + rest =~= names_field(init) + (str_field(last) + rest));
        assert forall|i: int| 0 <= i < init.len() implies fits_field(#[trigger] init[i]) by {
            assert(init[i] == cs[i]);
        }
        lemma_names_parse(init, str_field(last) + rest);
        assert(fits_field(cs[cs.len() - 1]));
        lemma_str_field_parses(last, rest);
        assert(init.push(last) =~= cs);
    } else {
        assert(names_field(cs) + rest =~= rest);
        assert(cs =~= Seq::<Seq<char>>::empty());
    }
}

proof fn lemma_names_unparse(b: Seq<u8>, n: nat)
    requires
        parse_names(b, n) is Some,
    ensures
        ({
            let (cs, rest) = parse_names(b, n)->0;
            &&& cs.len() == n
            &&& forall|i: int| 0 <= i < cs.len() ==> fits_field(#[trigger] cs[i])
            &&& b == names_field(cs) + rest
        }),
    decreases n,
{
    if n == 0 {
        assert(b =~= names_field(Seq::<Seq<char>>::empty()) + b);
    } else {
        let (ys, r1) = parse_names(b, (n - 1) as nat)->0;
        lemma_names_unparse(b, (n - 1) as nat);
        lemma_str_field_unparses(r1);
        let (x, r) = parse_str_field(r1)->0;
        let cs = ys.push(x);
        assert(cs.drop_last() =~= ys);
        assert(b =~= names_field(cs) + r);
        assert forall|i: int| 0 <= i < cs.len() implies fits_field(#[trigger] cs[i]) by {
            if i < ys.len() {
                assert(cs[i] == ys[i]);
            }
        }
    }
}

/// Decoding the bytes of a well-formed record gives the record back.
pub proof fn lemma_entry_round_trip(e: EntryView)
    requires
        e.wf(),
    ensures
        parse_entry(entry_bytes(e)) == Some(e),
{
    let b2 = body_bytes(e);
    let b1 = str_field(e.name) + b2;
    assert(entry_bytes(e) == str_field(e.path) + b1);
    lemma_str_field_parses(e.path, b1);
    lemma_str_field_parses(e.name, b2);
    lemma_body_round_trip(e);
}

/// Bytes that decode to a record are exactly that record's bytes.
pub proof fn lemma_entry_unparse(b: Seq<u8>)
    requires
        parse_entry(b) is Some,
    ensures
        parse_entry(b)->0.wf(),
        entry_bytes(parse_entry(b)->0) == b,
{
    let (path, b1) = parse_str_field(b)->0;
    lemma_str_field_unparses(b);
    let (name, b2) = parse_str_field(b1)->0;
    lemma_str_field_unparses(b1);
    lemma_body_unparse(path, name, b2);
    let e = parse_entry(b)->0;
    assert(e == parse_body(path, name, b2)->0);
    assert(entry_bytes(e) == str_field(path) + (str_field(name) + body_bytes(e)));
}

/// Decoding what encoding produced gives the entry back. `encode_entry(e)`
/// returns `entry_bytes(e@)`; on those bytes `decode_entry` cannot fail, as
/// `e@` is a well-formed entry with exactly those bytes, and whatever entry it
/// returns has the same bytes, so it is `e@`.
pub proof fn lemma_decode_after_encode(e: EntryView, decoded: EntryView)
    requires
        e.wf(),
        decoded.wf(),
        entry_bytes(decoded) == entry_bytes(e),
    ensures
        decoded == e,
{
    lemma_entry_round_trip(e);
    lemma_entry_round_trip(decoded);
}

proof fn lemma_nest(a: Seq<u8>, b: Seq<u8>, c: Seq<u8>, d: Seq<u8>, e: Seq<u8>, f: Seq<u8>)
    ensures
        ((((a + b) + c) + d) + e) + f == a + (b + (c + (d + (e + f)))),
{
    assert(((((a + b) + c) + d) + e) + f =~= a + (b + (c + (d + (e + f)))));
}

/// Appends the string fields of `names`.
fn push_names(out: &mut Vec<u8>, names: &Vec<String>)
    requires
        forall|i: int| 0 <= i < names@.len() ==> fits_field(#[trigger] names@[i]@),
    ensures
        final(out)@ == old(out)@ + names_field(names@.map_values(|c: String| c@)),
{
    let ghost cs = names@.map_values(|c: String| c@);
    let ghost start = out@;
    let mut i: usize = 0;
    while i < names.len()
        invariant
            cs == names@.map_values(|c: String| c@),
            forall|i: int| 0 <= i < names@.len() ==> fits_field(#[trigger] names@[i]@),
            i <= names@.len(),
            out@ == start + names_field(cs.take(i as int)),
        decreases names@.len() - i,
    {
        assert(fits_field(names@[i as int]@));
        push_str_field(out, names[i].as_str());
        let ghost next = cs.take(i + 1);
        assert(next.drop_last() =~= cs.take(i as int));
        assert(next.last() == names@[i as int]@);
        i += 1;
        assert(out@ =~= start + names_field(cs.take(i as int)));
    }
    assert(cs.take(i as int) =~= cs);
}

/// Encodes one record.
pub fn encode_entry(e: &DirEntry) -> (r: Vec<u8>)
    requires
        e@.wf(),
    ensures
        r@ == entry_bytes(e@),
{
    let ghost v = e@;
    let mut out: Vec<u8> = Vec::new();
    push_str_field(&mut out, e.path.as_str());
    let ghost s1 = out@;
    assert(s1 =~= str_field(v.path));
    push_str_field(&mut out, e.name.as_str());
    let ghost s2 = out@;
    push_u64(&mut out, e.modified as u64);
    push_u64(&mut out, e.content_hash);
    push_u32(&mut out, e.children.len() as u32);
    proof {
        reveal(header_bytes);
        assert(out@ =~= s2 + header_bytes(
            e.modified as u64,
            e.content_hash,
            e.children.len() as u32,
        ));
    }
    let ghost s3 = out@;
    assert forall|i: int| 0 <= i < e.children@.len() implies fits_field(
        #[trigger] e.children@[i]@,
    ) by {
        assert(v.children[i] == e.children@[i]@);
    }
    push_names(&mut out, &e.children);
    let ghost s4 = out@;
    match &e.symlink_target {
        Some(t) => {
            out.push(1u8);
            push_str_field(&mut out, t.as_str());
        },
        None => {
            out.push(0u8);
        },
    }
    proof {
        reveal(opt_field);
        assert(out@ =~= s4 + opt_field(v.symlink_target));
    }
    let ghost s5 = out@;
    out.push(if e.is_hidden {
        1u8
    } else {
        0u8
    });
    out.push(if e.is_dir {
        1u8
    } else {
        0u8
    });
    let ghost flags = seq![flag_byte(v.is_hidden), flag_byte(v.is_dir)];
    assert(out@ =~= s5 + flags);
    proof {
        lemma_nest(
            str_field(v.path),
            str_field(v.name),
            header_bytes(v.modified as u64, v.content_hash, v.children.len() as u32),
            names_field(v.children),
            opt_field(v.symlink_target),
            flags,
        );
    }
    out
}

/// Reads the child names that start at `pos`.
fn read_names(buf: &[u8], pos: usize, count: u32) -> (r: Option<(Vec<String>, usize)>)
    requires
        pos <= buf@.len(),
    ensures
        match r {
            Some((cs, next)) => next <= buf@.len() && parse_names(buf@.skip(pos as int), count as nat)
                == Some((cs@.map_values(|c: String| c@), buf@.skip(next as int))),
            None => parse_names(buf@.skip(pos as int), count as nat) is None,
        },
{
    let ghost b = buf@.skip(pos as int);
    let mut names: Vec<String> = Vec::new();
    let mut at = pos;
    let mut i: u32 = 0;
    while i < count
        invariant
            at <= buf@.len(),
            i <= count,
            b == buf@.skip(pos as int),
            parse_names(b, i as nat) == Some((names@.map_values(|c: String| c@), buf@.skip(at as int))),
        decreases count - i,
    {
        match read_str_field(buf, at) {
            Some((s, next)) => {
                let ghost prev = names@;
                names.push(s);
                assert(names@.map_values(|c: String| c@) =~= prev.map_values(|c: String| c@).push(s@));
                at = next;
                i += 1;
            },
            None => {
                assert(parse_names(b, (i + 1) as nat) is None);
                proof { lemma_names_none_grows(b, (i + 1) as nat, count as nat); }
                return None;
            },
        }
    }
    Some((names, at))
}

proof fn lemma_names_none_grows(b: Seq<u8>, m: nat, n: nat)
    requires
        m <= n,
        parse_names(b, m) is None,
    ensures
        parse_names(b, n) is None,
    decreases n - m,
{
    if m < n {
        lemma_names_none_grows(b, m, (n - 1) as nat);
    }
}

/// Decodes one record; fails with `CorruptRecord` on bytes that are not
/// exactly the bytes of a record.
pub fn decode_entry(buf: &[u8]) -> (r: Result<DirEntry, PTreeError>)
    ensures
        match r {
            Ok(e) => e@.wf() && entry_bytes(e@) == buf@,
            Err(err) => err == PTreeError::CorruptRecord && forall|v: EntryView|
                v.wf() ==> entry_bytes(v) != buf@,
        },
{
    let res = decode_parts(buf);
    match res {
        Some(e) => {
            proof { lemma_entry_unparse(buf@); }
            Ok(e)
        },
        None => {
            assert forall|v: EntryView| v.wf() implies entry_bytes(v) != buf@ by {
                lemma_entry_round_trip(v);
            }
            Err(PTreeError::CorruptRecord)
        },
    }
}

#[verifier::rlimit(40)]
fn decode_parts(buf: &[u8]) -> (r: Option<DirEntry>)
    ensures
        match r {
            Some(e) => parse_entry(buf@) == Some(e@),
            None => parse_entry(buf@) is None,
        },
{
    assert(buf@.skip(0) =~= buf@);
    let (path, pos1) = match read_str_field(buf, 0) {
        Some(x) => x,
        None => return None,
    };
    let (name, pos2) = match read_str_field(buf, pos1) {
        Some(x) => x,
        None => return None,
    };
    if buf.len() - pos2 < 20 {
        return None;
    }
    let ghost b2 = buf@.skip(pos2 as int);
    let modified = read_u64(buf, pos2) as i64;
    let content_hash = read_u64(buf, pos2 + 8);
    let count = read_u32(buf, pos2 + 16);
    assert(b2.skip(8) =~= buf@.skip(pos2 + 8));
    assert(b2.skip(16) =~= buf@.skip(pos2 + 16));
    assert(b2.skip(20) =~= buf@.skip(pos2 + 20));
    let (children, pos3) = match read_names(buf, pos2 + 20, count) {
        Some(x) => x,
        None => return None,
    };
    if pos3 >= buf.len() {
        return None;
    }
    let ghost b3 = buf@.skip(pos3 as int);
    let tag = buf[pos3];
    let (symlink_target, pos4) = if tag == 0 {
        assert(b3.skip(1) =~= buf@.skip(pos3 + 1));
        (None, pos3 + 1)
    } else if tag == 1 {
        assert(b3.skip(1) =~= buf@.skip(pos3 + 1));
        match read_str_field(buf, pos3 + 1) {
            Some((t, p)) => (Some(t), p),
            None => return None,
        }
    } else {
        return None;
    };
    if buf.len() - pos4 != 2 {
        return None;
    }
    let h = buf[pos4];
    let d = buf[pos4 + 1];
    if h > 1 || d > 1 {
        return None;
    }
    let e = DirEntry {
        path,
        name,
        modified,
        content_hash,
        children,
        symlink_target,
        is_hidden: h == 1,
        is_dir: d == 1,
    };
    assert(e@.children == children@.map_values(|c: String| c@));
    Some(e)
}

} // verus!
