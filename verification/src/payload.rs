//! The payload tree: the directory layout that becomes the compressed
//! body of an artifact.  An entry is a directory or a file with contents
//! and an executable flag; paths are relative, slash-separated and clean.

use vstd::prelude::*;
use vstd::utf8::encode_utf8;

verus! {

pub enum PayloadEntry {
    Dir { path: String },
    File { path: String, data: Vec<u8>, executable: bool },
}

/// The mathematical value of an entry: its path, and `None` for a
/// directory or the contents and executable flag for a file.
pub type EntryV = (Seq<char>, Option<(Seq<u8>, bool)>);

impl View for PayloadEntry {
    type V = EntryV;

    open spec fn view(&self) -> EntryV {
        match self {
            PayloadEntry::Dir { path } => (path@, Option::None),
            PayloadEntry::File { path, data, executable } => (
                path@,
                Option::Some((data@, *executable)),
            ),
        }
    }
}

pub open spec fn tree_view(s: Seq<PayloadEntry>) -> Seq<EntryV> {
    s.map_values(|e: PayloadEntry| e@)
}

/// Position `i` starts a path component.
pub open spec fn comp_start(p: Seq<char>, i: int) -> bool {
    i == 0 || p[i - 1] == '/'
}

/// A lone-dot component begins at `i`.
pub open spec fn dot1_at(p: Seq<char>, i: int) -> bool {
    0 <= i < p.len() && comp_start(p, i) && p[i] == '.' && (i + 1 == p.len() || p[i + 1] == '/')
}

/// A dot-dot component begins at `i`.
pub open spec fn dot2_at(p: Seq<char>, i: int) -> bool {
    0 <= i && i + 2 <= p.len() && comp_start(p, i) && p[i] == '.' && p[i + 1] == '.' && (i + 2
        == p.len() || p[i + 2] == '/')
}

/// A clean relative path: nonempty, no NUL or backslash, not absolute,
/// no trailing or doubled separator, and no `.` or `..` components.
/// Archivers store such a path verbatim.
pub open spec fn clean_path(p: Seq<char>) -> bool {
    &&& 1 <= p.len()
    &&& forall|i: int| 0 <= i < p.len() ==> p[i] != '\0' && p[i] != '\\'
    &&& p[0] != '/'
    &&& p[p.len() - 1] != '/'
    &&& forall|i: int| 0 <= i < p.len() - 1 ==> !((#[trigger] p[i]) == '/' && p[i + 1] == '/')
    &&& forall|i: int| !dot1_at(p, i) && !dot2_at(p, i)
}

/// Check a path for cleanliness.
pub fn is_clean_path(p: &str) -> (r: bool)
    ensures
        r == clean_path(p@),
{
    let cs = crate::chartext::chars_of(p);
    let n = cs.len();
    if n == 0 {
        return false;
    }
    if cs[0] == '/' || cs[n - 1] == '/' {
        return false;
    }
    let mut i: usize = 0;
    while i < n
        invariant
            n == cs@.len(),
            cs@ == p@,
            1 <= n,
            0 <= i <= n,
            forall|j: int| 0 <= j < i ==> p@[j] != '\0' && p@[j] != '\\',
            forall|j: int| 0 <= j < i && j < n - 1 ==> !((#[trigger] p@[j]) == '/' && p@[j + 1] == '/'),
            forall|j: int| 0 <= j < i ==> !dot1_at(p@, j) && !dot2_at(p@, j),
        decreases n - i,
    {
        let c = cs[i];
        if c == '\0' || c == '\\' {
            return false;
        }
        if i + 1 < n && c == '/' && cs[i + 1] == '/' {
            return false;
        }
        if (i == 0 || cs[i - 1] == '/') && c == '.' {
            if i + 1 == n || cs[i + 1] == '/' {
                assert(dot1_at(p@, i as int));
                return false;
            }
            if cs[i + 1] == '.' && (i + 2 == n || cs[i + 2] == '/') {
                assert(dot2_at(p@, i as int));
                return false;
            }
        }
        i = i + 1;
    }
    assert(forall|j: int| !dot1_at(p@, j) && !dot2_at(p@, j));
    true
}

/// A tree an archive encoding is promised to accept: clean, unique paths
/// of bounded byte length, and file contents that fit the plain zip
/// form's size field even after a worst-case (incompressible) deflate.
pub open spec fn valid_tree(tv: Seq<EntryV>) -> bool {
    &&& forall|i: int|
        0 <= i < tv.len() ==> clean_path((#[trigger] tv[i]).0) && encode_utf8(tv[i].0).len() + 1
            < 0xFFFF
    &&& forall|i: int|
        0 <= i < tv.len() ==> ((#[trigger] tv[i]).1 matches Option::Some(fd) ==> fd.0.len()
            < 0xF000_0000)
    &&& forall|i: int, j: int|
        0 <= i < tv.len() && 0 <= j < tv.len() && i != j ==> (#[trigger] tv[i]).0 != (
        #[trigger] tv[j]).0
}

/// Check a whole tree for validity.
pub fn validate_tree(tree: &Vec<PayloadEntry>) -> (r: bool)
    ensures
        r == valid_tree(tree_view(tree@)),
{
    let ghost tv = tree_view(tree@);
    let n = tree.len();
    let mut i: usize = 0;
    while i < n
        invariant
            n == tree@.len(),
            tv == tree_view(tree@),
            0 <= i <= n,
            forall|k: int|
                0 <= k < i ==> clean_path((#[trigger] tv[k]).0) && encode_utf8(tv[k].0).len() + 1
                    < 0xFFFF,
            forall|k: int|
                0 <= k < i ==> ((#[trigger] tv[k]).1 matches Option::Some(fd) ==> fd.0.len()
                    < 0xF000_0000),
            forall|k: int, j: int|
                0 <= k < i && 0 <= j < i && k != j ==> (#[trigger] tv[k]).0 != (#[trigger] tv[j]).0,
        decreases n - i,
    {
        assert(tv[i as int] == tree@[i as int]@);
        let e = &tree[i];
        let p = match e {
            PayloadEntry::Dir { path } => path,
            PayloadEntry::File { path, .. } => path,
        };
        assert(p@ == tv[i as int].0);
        if !is_clean_path(p.as_str()) {
            assert(!valid_tree(tv)) by {
                if valid_tree(tv) {
                    assert(clean_path(tv[i as int].0));
                }
            }
            return false;
        }
        let bl = p.as_str().as_bytes_vec().len();
        if bl >= 0xFFFE {
            assert(!valid_tree(tv)) by {
                if valid_tree(tv) {
                    assert(encode_utf8(tv[i as int].0).len() + 1 < 0xFFFF);
                }
            }
            return false;
        }
        let data_ok = match e {
            PayloadEntry::Dir { .. } => true,
            PayloadEntry::File { data, .. } => (data.len() as u64) < 0xF000_0000u64,
        };
        if !data_ok {
            assert(!valid_tree(tv)) by {
                if valid_tree(tv) {
                    assert((tv[i as int].1 matches Option::Some(fd) ==> fd.0.len() < 0xF000_0000));
                }
            }
            return false;
        }
        let mut j: usize = 0;
        while j < i
            invariant
                n == tree@.len(),
                tv == tree_view(tree@),
                0 <= j <= i < n,
                forall|k: int| 0 <= k < j ==> (#[trigger] tv[k]).0 != tv[i as int].0,
            decreases i - j,
        {
            assert(tv[j as int] == tree@[j as int]@);
            let pi = match &tree[i] {
                PayloadEntry::Dir { path } => path,
                PayloadEntry::File { path, .. } => path,
            };
            let pj = match &tree[j] {
                PayloadEntry::Dir { path } => path,
                PayloadEntry::File { path, .. } => path,
            };
            if crate::chartext::str_eq(pi.as_str(), pj.as_str()) {
                assert(!valid_tree(tv)) by {
                    if valid_tree(tv) {
                        assert(tv[i as int].0 != tv[j as int].0);
                    }
                }
                return false;
            }
            j = j + 1;
        }
        i = i + 1;
    }
    assert(valid_tree(tv));
    true
}

} // verus!
