//! Skip rules: directory names left out of a scan, compared without regard to
//! ASCII case.

use vstd::prelude::*;

verus! {

/// The character with ASCII upper-case letters mapped to lower case.
pub open spec fn ascii_fold(c: char) -> u32 {
    if 65 <= c as u32 <= 90 {
        (c as u32 + 32) as u32
    } else {
        c as u32
    }
}

/// Equal after mapping ASCII 'A'..='Z' to 'a'..='z'.
pub open spec fn ascii_case_eq(a: Seq<char>, b: Seq<char>) -> bool {
    a.len() == b.len() && forall|i: int| 0 <= i < a.len() ==> ascii_fold(#[trigger] a[i]) == ascii_fold(
        b[i],
    )
}

/// Relies on str::eq_ignore_ascii_case: two strings match when they are equal
/// after ASCII upper-case letters are mapped to lower case; other characters
/// must be equal as they are.
#[verifier::external_body]
fn eq_ignore_ascii_case(a: &str, b: &str) -> (r: bool)
    ensures
        r == ascii_case_eq(a@, b@),
{
    a.eq_ignore_ascii_case(b)
}

/// A set of directory names to leave out of a scan.
pub struct SkipRules {
    names: Vec<String>,
}

impl View for SkipRules {
    type V = Set<Seq<char>>;

    closed spec fn view(&self) -> Set<Seq<char>> {
        self.names@.map_values(|s: String| s@).to_set()
    }
}

impl SkipRules {
    /// No rules.
    pub fn new() -> (r: SkipRules)
        ensures
            r@ == Set::<Seq<char>>::empty(),
    {
        let r = SkipRules { names: Vec::new() };
        proof {
            assert(r.names@.map_values(|s: String| s@) =~= Seq::<Seq<char>>::empty());
            assert(r@ =~= Set::<Seq<char>>::empty());
        }
        r
    }

    /// Adds a rule; a name already present is not added twice.
    pub fn insert(&mut self, name: String)
        ensures
            final(self)@ == old(self)@.insert(name@),
    {
        let ghost before = self.names@.map_values(|s: String| s@);
        let mut i: usize = 0;
        while i < self.names.len()
            invariant
                i <= self.names@.len(),
                before == self.names@.map_values(|s: String| s@),
                forall|j: int| 0 <= j < i ==> (#[trigger] self.names@[j])@ != name@,
            decreases self.names@.len() - i,
        {
            if self.names[i] == name {
                proof {
                    assert(before[i as int] == name@);
                    assert(before.to_set().contains(name@));
                    assert(old(self)@.insert(name@) =~= old(self)@);
                }
                return;
            }
            i += 1;
        }
        self.names.push(name);
        proof {
            let after = self.names@.map_values(|s: String| s@);
            assert(after =~= before.push(name@));
            assert(after.to_set() =~= before.to_set().insert(name@)) by {
                assert forall|x: Seq<char>| after.to_set().contains(x) implies before.to_set().insert(
                    x,
                ).contains(x) by {}
                assert forall|x: Seq<char>| #[trigger] before.to_set().insert(name@).contains(
                    x,
                ) implies after.to_set().contains(x) by {
                    if x == name@ {
                        assert(after[after.len() - 1] == x);
                    } else {
                        let j = choose|j: int| 0 <= j < before.len() && before[j] == x;
                        assert(after[j] == x);
                    }
                }
            }
        }
    }

    /// The first rule, in insertion order, that matches `name` ignoring ASCII
    /// case; `None` when no rule matches.
    pub fn matching_rule(&self, name: &str) -> (r: Option<String>)
        ensures
            r is None <==> !(exists|rule: Seq<char>| self@.contains(rule) && ascii_case_eq(name@, rule)),
            r is Some ==> self@.contains(r->0@) && ascii_case_eq(name@, r->0@),
    {
        let ghost names = self.names@.map_values(|s: String| s@);
        let mut i: usize = 0;
        while i < self.names.len()
            invariant
                i <= self.names@.len(),
                names == self.names@.map_values(|s: String| s@),
                forall|j: int| 0 <= j < i ==> !ascii_case_eq(name@, #[trigger] names[j]),
            decreases self.names@.len() - i,
        {
            if eq_ignore_ascii_case(name, self.names[i].as_str()) {
                assert(self@.contains(names[i as int]));
                return Some(self.names[i].clone());
            }
            i += 1;
        }
        assert forall|rule: Seq<char>| self@.contains(rule) implies !ascii_case_eq(name@, rule) by {
            let j = choose|j: int| 0 <= j < names.len() && names[j] == rule;
        }
        None
    }

    /// Whether `name` matches a rule, ignoring ASCII case.
    pub fn matches(&self, name: &str) -> (r: bool)
        ensures
            r == exists|rule: Seq<char>| self@.contains(rule) && ascii_case_eq(name@, rule),
    {
        let ghost names = self.names@.map_values(|s: String| s@);
        let mut i: usize = 0;
        while i < self.names.len()
            invariant
                i <= self.names@.len(),
                names == self.names@.map_values(|s: String| s@),
                forall|j: int| 0 <= j < i ==> !ascii_case_eq(name@, #[trigger] names[j]),
            decreases self.names@.len() - i,
        {
            if eq_ignore_ascii_case(name, self.names[i].as_str()) {
                assert(self@.contains(names[i as int]));
                return true;
            }
            i += 1;
        }
        assert forall|rule: Seq<char>| self@.contains(rule) implies !ascii_case_eq(name@, rule) by {
            let j = choose|j: int| 0 <= j < names.len() && names[j] == rule;
        }
        false
    }
}

/// Whether the directory `name` is left out by `skip_dirs`, ignoring ASCII case.
pub fn should_skip(name: &str, skip_dirs: &SkipRules) -> (r: bool)
    ensures
        r == exists|rule: Seq<char>| skip_dirs@.contains(rule) && ascii_case_eq(name@, rule),
{
    skip_dirs.matches(name)
}

} // verus!
