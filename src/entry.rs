//! One scanned directory.

use vstd::prelude::*;
use crate::bytes::fits_field;

verus! {

/// One scanned directory, as stored in the record log.
#[derive(Debug)]
pub struct DirEntry {
    /// Full path of the directory; the key it is stored under.
    pub path: String,
    /// Last component of the path.
    pub name: String,
    /// When the directory was observed, in milliseconds since the Unix epoch.
    pub modified: i64,
    /// Fingerprint of the directory's content; 0 when unknown.
    pub content_hash: u64,
    /// Names of the immediate children, sorted.
    pub children: Vec<String>,
    /// Where the path points, when it is itself a symbolic link.
    pub symlink_target: Option<String>,
    pub is_hidden: bool,
    pub is_dir: bool,
}

/// The mathematical value of a `DirEntry`.
pub struct EntryView {
    pub path: Seq<char>,
    pub name: Seq<char>,
    pub modified: i64,
    pub content_hash: u64,
    pub children: Seq<Seq<char>>,
    pub symlink_target: Option<Seq<char>>,
    pub is_hidden: bool,
    pub is_dir: bool,
}

pub open spec fn opt_str_view(o: Option<String>) -> Option<Seq<char>> {
    match o {
        Some(s) => Some(s@),
        None => None,
    }
}

impl View for DirEntry {
    type V = EntryView;

    open spec fn view(&self) -> EntryView {
        EntryView {
            path: self.path@,
            name: self.name@,
            modified: self.modified,
            content_hash: self.content_hash,
            children: self.children@.map_values(|c: String| c@),
            symlink_target: opt_str_view(self.symlink_target),
            is_hidden: self.is_hidden,
            is_dir: self.is_dir,
        }
    }
}

impl EntryView {
    /// Every string fits a string field and the child count fits four bytes.
    pub open spec fn wf(self) -> bool {
        &&& fits_field(self.path)
        &&& fits_field(self.name)
        &&& self.children.len() <= u32::MAX
        &&& forall|i: int| 0 <= i < self.children.len() ==> fits_field(#[trigger] self.children[i])
        &&& match self.symlink_target {
            Some(t) => fits_field(t),
            None => true,
        }
    }
}

/// Whether `s` fits a string field.
pub fn str_fits(s: &String) -> (r: bool)
    ensures
        r == fits_field(s@),
{
    s.as_str().as_bytes().len() <= 0xffff_ffff
}

/// A copy of `s` with the same characters.
pub fn copy_string(s: &String) -> (r: String)
    ensures
        r@ == s@,
{
    s.clone()
}

/// A copy of a list of names.
pub fn copy_names(v: &Vec<String>) -> (r: Vec<String>)
    ensures
        r@.map_values(|c: String| c@) == v@.map_values(|c: String| c@),
{
    let mut r: Vec<String> = Vec::new();
    let mut i: usize = 0;
    while i < v.len()
        invariant
            i <= v@.len(),
            r@.len() == i,
            forall|j: int| 0 <= j < i ==> (#[trigger] r@[j])@ == v@[j]@,
        decreases v@.len() - i,
    {
        r.push(copy_string(&v[i]));
        i += 1;
    }
    assert(r@.map_values(|c: String| c@) =~= v@.map_values(|c: String| c@));
    r
}

impl DirEntry {
    /// A copy of the entry with the same value.
    pub fn duplicate(&self) -> (r: DirEntry)
        ensures
            r@ == self@,
    {
        let symlink_target = match &self.symlink_target {
            Some(t) => Some(copy_string(t)),
            None => None,
        };
        DirEntry {
            path: copy_string(&self.path),
            name: copy_string(&self.name),
            modified: self.modified,
            content_hash: self.content_hash,
            children: copy_names(&self.children),
            symlink_target,
            is_hidden: self.is_hidden,
            is_dir: self.is_dir,
        }
    }

    /// Whether every string fits a string field and the child count fits four bytes.
    pub fn fits(&self) -> (r: bool)
        ensures
            r == self@.wf(),
    {
        if !str_fits(&self.path) || !str_fits(&self.name) || self.children.len() > 0xffff_ffff {
            return false;
        }
        match &self.symlink_target {
            Some(t) => if !str_fits(t) {
                return false;
            },
            None => {},
        }
        let mut i: usize = 0;
        while i < self.children.len()
            invariant
                i <= self.children@.len(),
                forall|j: int| 0 <= j < i ==> fits_field(#[trigger] self.children@[j]@),
            decreases self.children@.len() - i,
        {
            if !str_fits(&self.children[i]) {
                assert(!fits_field(self@.children[i as int]));
                return false;
            }
            i += 1;
        }
        assert forall|j: int| 0 <= j < self@.children.len() implies fits_field(
            #[trigger] self@.children[j],
        ) by {
            assert(self@.children[j] == self.children@[j]@);
        }
        true
    }
}

} // verus!
