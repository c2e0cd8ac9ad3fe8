//! Small string operations: characters, paths and their order.

use vstd::prelude::*;
use vstd::string::StringExecFns;
use crate::entry::copy_string;

verus! {

/// Relies on String::push: the character is added at the end.
#[verifier::external_body]
pub fn push_char(s: &mut String, c: char)
    ensures
        final(s)@ == old(s)@.push(c),
{
    s.push(c);
}

/// Relies on str::contains with a `char` pattern: whether the character occurs.
#[verifier::external_body]
fn contains_char(s: &str, c: char) -> (r: bool)
    ensures
        r == s@.contains(c),
{
    s.contains(c)
}

/// Relies on str::ends_with with a `char` pattern: whether the last character is `c`.
#[verifier::external_body]
fn ends_with_char(s: &str, c: char) -> (r: bool)
    ensures
        r == (s@.len() > 0 && s@.last() == c),
{
    s.ends_with(c)
}

/// The separator a path uses: a backslash when it holds one, else a slash.
pub open spec fn separator_of(p: Seq<char>) -> char {
    if p.contains('\\') {
        '\\'
    } else {
        '/'
    }
}

/// `name` inside the directory `parent`.
pub open spec fn join_path(parent: Seq<char>, name: Seq<char>) -> Seq<char> {
    if parent.len() == 0 {
        name
    } else if parent.last() == '/' || parent.last() == '\\' {
        parent + name
    } else {
        parent.push(separator_of(parent)) + name
    }
}

/// `name` inside the directory `parent`, joined with the separator that
/// `parent` already uses.
pub fn join(parent: &String, name: &String) -> (r: String)
    ensures
        r@ == join_path(parent@, name@),
{
    let mut r = copy_string(parent);
    if !parent.as_str().is_empty() && !ends_with_char(parent.as_str(), '/') && !ends_with_char(
        parent.as_str(),
        '\\',
    ) {
        let sep = if contains_char(parent.as_str(), '\\') {
            '\\'
        } else {
            '/'
        };
        push_char(&mut r, sep);
    }
    r.append(name.as_str());
    r
}

/// `a` comes before `b` or equals it, comparing characters by code point and
/// a prefix before any longer string.
pub open spec fn name_le(a: Seq<char>, b: Seq<char>) -> bool
    decreases a.len(),
{
    if a.len() == 0 {
        true
    } else if b.len() == 0 {
        false
    } else if (a[0] as int) < (b[0] as int) {
        true
    } else if (a[0] as int) > (b[0] as int) {
        false
    } else {
        name_le(a.drop_first(), b.drop_first())
    }
}

/// Names in ascending order.
pub open spec fn names_sorted(s: Seq<Seq<char>>) -> bool {
    forall|i: int, j: int| 0 <= i < j < s.len() ==> name_le(#[trigger] s[i], #[trigger] s[j])
}

pub open spec fn names_view(v: Seq<String>) -> Seq<Seq<char>> {
    v.map_values(|s: String| s@)
}

/// `cs` in ascending order: the sorted sequence with the same names.
pub open spec fn sorted_names_of(cs: Seq<Seq<char>>) -> Seq<Seq<char>> {
    choose|t: Seq<Seq<char>>| names_sorted(t) && t.to_multiset() == cs.to_multiset()
}

proof fn lemma_name_le_antisymmetric(a: Seq<char>, b: Seq<char>)
    requires
        name_le(a, b),
        name_le(b, a),
    ensures
        a == b,
    decreases a.len(),
{
    if a.len() > 0 {
        assert(b.len() > 0);
        assert(a[0] as int == b[0] as int);
        assert(a[0] == b[0]);
        lemma_name_le_antisymmetric(a.drop_first(), b.drop_first());
        assert(a =~= seq![a[0]] + a.drop_first());
        assert(b =~= seq![b[0]] + b.drop_first());
    } else {
        assert(b.len() == 0);
        assert(a =~= b);
    }
}

/// Two sorted sequences with the same names are the same sequence.
proof fn lemma_sorted_unique(s: Seq<Seq<char>>, t: Seq<Seq<char>>)
    requires
        names_sorted(s),
        names_sorted(t),
        s.to_multiset() == t.to_multiset(),
    ensures
        s == t,
    decreases s.len(),
{
    broadcast use vstd::seq_lib::group_to_multiset_ensures;

    s.to_multiset_ensures();
    t.to_multiset_ensures();
    if s.len() == 0 {
        assert(t.len() == 0);
        assert(s =~= t);
    } else {
        s.to_multiset_ensures();
        t.to_multiset_ensures();
        assert(t.len() == s.len());
        assert(s.contains(s[0]));
        assert(t.to_multiset().count(s[0]) > 0);
        assert(t.contains(s[0]));
        let k = choose|k: int| 0 <= k < t.len() && t[k] == s[0];
        if k > 0 {
            assert(name_le(t[0], t[k]));
        } else {
            lemma_name_le_refl(t[0]);
        }
        assert(t.contains(t[0]));
        assert(s.to_multiset().count(t[0]) > 0);
        assert(s.contains(t[0]));
        let j = choose|j: int| 0 <= j < s.len() && s[j] == t[0];
        if j > 0 {
            assert(name_le(s[0], s[j]));
        } else {
            lemma_name_le_refl(s[0]);
        }
        lemma_name_le_antisymmetric(s[0], t[0]);
        let s1 = s.drop_first();
        let t1 = t.drop_first();
        assert(s1 =~= s.remove(0));
        assert(t1 =~= t.remove(0));
        assert(s1.to_multiset() =~= t1.to_multiset());
        assert forall|a: int, b: int| 0 <= a < b < s1.len() implies name_le(#[trigger] s1[a], #[trigger] s1[b]) by {
            assert(s1[a] == s[a + 1] && s1[b] == s[b + 1]);
        }
        assert forall|a: int, b: int| 0 <= a < b < t1.len() implies name_le(#[trigger] t1[a], #[trigger] t1[b]) by {
            assert(t1[a] == t[a + 1] && t1[b] == t[b + 1]);
        }
        lemma_sorted_unique(s1, t1);
        assert(s =~= seq![s[0]] + s1);
        assert(t =~= seq![t[0]] + t1);
    }
}

proof fn lemma_name_le_refl(a: Seq<char>)
    ensures
        name_le(a, a),
    decreases a.len(),
{
    if a.len() > 0 {
        lemma_name_le_refl(a.drop_first());
    }
}

/// Relies on slice::sort: it sorts ascending by `Ord`, which orders strings
/// lexicographically by code point, and keeps the same elements.
#[verifier::external_body]
fn sort_in_place(v: &mut Vec<String>)
    ensures
        names_sorted(names_view(final(v)@)),
        names_view(final(v)@).to_multiset() == names_view(old(v)@).to_multiset(),
{
    v.sort();
}

/// Relies on rayon's ParallelSliceMut::par_sort: it sorts ascending by `Ord`,
/// as slice::sort does, on several threads, and keeps the same elements.
#[verifier::external_body]
fn par_sort_in_place(v: &mut Vec<String>)
    ensures
        names_sorted(names_view(final(v)@)),
        names_view(final(v)@).to_multiset() == names_view(old(v)@).to_multiset(),
{
    rayon::slice::ParallelSliceMut::par_sort(v.as_mut_slice());
}

/// Above this many names, sorting runs in parallel.
pub const PARALLEL_SORT_MIN: usize = 100;

/// Sorts names ascending; in parallel when there are more than
/// `PARALLEL_SORT_MIN` of them.
pub fn sort_names(v: &mut Vec<String>)
    ensures
        names_sorted(names_view(final(v)@)),
        names_view(final(v)@).to_multiset() == names_view(old(v)@).to_multiset(),
        names_view(final(v)@) == sorted_names_of(names_view(old(v)@)),
{
    if v.len() > PARALLEL_SORT_MIN {
        par_sort_in_place(v);
    } else {
        sort_in_place(v);
    }
    proof {
        let r = names_view(v@);
        let c = names_view(old(v)@);
        let t = sorted_names_of(c);
        assert(names_sorted(t) && t.to_multiset() == c.to_multiset());
        lemma_sorted_unique(r, t);
    }
}

/// The decimal digits of `n`, most significant first.
pub open spec fn decimal_digits(n: nat) -> Seq<char>
    decreases n,
{
    if n < 10 {
        seq![digit_char(n)]
    } else {
        decimal_digits(n / 10).push(digit_char(n % 10))
    }
}

pub open spec fn digit_char(d: nat) -> char {
    ((48 + d) as u32) as char
}

/// What precedes digit `i` of a `len`-digit number: a comma where the digits
/// to its right form whole groups of three.
pub open spec fn group_mark(len: int, i: int) -> Seq<char> {
    if i > 0 && (len - i) % 3 == 0 {
        seq![',']
    } else {
        Seq::empty()
    }
}

/// The first `k` digits of `ds`, with their group commas.
pub open spec fn grouped(ds: Seq<char>, k: int) -> Seq<char>
    decreases k,
{
    if k <= 0 {
        Seq::empty()
    } else {
        grouped(ds, k - 1) + group_mark(ds.len() as int, k - 1) + seq![ds[k - 1]]
    }
}

fn digit(d: usize) -> (c: char)
    requires
        d < 10,
    ensures
        c == digit_char(d as nat),
{
    if d == 0 { '0' } else if d == 1 { '1' } else if d == 2 { '2' } else if d == 3 { '3' }
    else if d == 4 { '4' } else if d == 5 { '5' } else if d == 6 { '6' } else if d == 7 { '7' }
    else if d == 8 { '8' } else { '9' }
}

/// `n` in decimal with a comma between each group of three digits.
pub fn format_number(n: usize) -> (r: String)
    ensures
        r@ == grouped(decimal_digits(n as nat), decimal_digits(n as nat).len() as int),
{
    let mut digits: Vec<char> = Vec::new();
    let mut m = n;
    while m >= 10
        invariant
            decimal_digits(n as nat) == decimal_digits(m as nat) + digits@,
        decreases m,
    {
        let ghost before = digits@;
        digits.insert(0, digit(m % 10));
        assert(decimal_digits(m as nat) == decimal_digits((m / 10) as nat).push(digit_char((m % 10) as nat)));
        m = m / 10;
        assert(decimal_digits(n as nat) =~= decimal_digits(m as nat) + digits@);
    }
    digits.insert(0, digit(m));
    assert(decimal_digits(n as nat) =~= digits@);
    let ghost ds = digits@;
    let len = digits.len();
    let mut out = String::new();
    let mut i: usize = 0;
    while i < len
        invariant
            ds == digits@,
            len == ds.len(),
            i <= len,
            out@ == grouped(ds, i as int),
        decreases len - i,
    {
        if i > 0 && (len - i) % 3 == 0 {
            push_char(&mut out, ',');
        }
        push_char(&mut out, digits[i]);
        i += 1;
        assert(out@ =~= grouped(ds, i as int));
    }
    out
}

} // verus!
