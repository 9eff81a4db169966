//! File-system paths as sequences of components, and the questions a batch
//! asks of them: a file's name and extension, and which folders it lies in.
//!
//! A path is held as the components that `std::path::Path::components`
//! yields; each name keeps its platform-encoded bytes.

use vstd::prelude::*;
use vstd::utf8::encode_utf8;
use crate::text::{bytes_eq_ignore_ascii_case, eq_ignore_ascii_case};

verus! {

/// One component of a path.
#[derive(Debug, Clone, PartialEq, Eq)]
pub enum PathPart {
    /// A Windows prefix such as `C:`.
    Prefix(Vec<u8>),
    /// The root directory.
    Root,
    /// `.` at the start of a relative path.
    Current,
    /// `..`.
    Parent,
    /// A file or folder name.
    Name(Vec<u8>),
}

/// The mathematical value of a [`PathPart`].
pub enum PartView {
    /// A Windows prefix, as its bytes.
    Prefix(Seq<u8>),
    /// The root directory.
    Root,
    /// `.` at the start of a relative path.
    Current,
    /// `..`.
    Parent,
    /// A name, as its bytes.
    Name(Seq<u8>),
}

impl View for PathPart {
    type V = PartView;

    open spec fn view(&self) -> PartView {
        match self {
            PathPart::Prefix(b) => PartView::Prefix(b@),
            PathPart::Root => PartView::Root,
            PathPart::Current => PartView::Current,
            PathPart::Parent => PartView::Parent,
            PathPart::Name(b) => PartView::Name(b@),
        }
    }
}

/// A path, as its components in order.
#[derive(Debug, Clone, PartialEq, Eq)]
pub struct FsPath {
    pub parts: Vec<PathPart>,
}

impl View for FsPath {
    type V = Seq<PartView>;

    open spec fn view(&self) -> Seq<PartView> {
        self.parts@.map_values(|p: PathPart| p@)
    }
}

impl FsPath {
    /// The path with the given components.
    pub fn from_parts(parts: Vec<PathPart>) -> (p: FsPath)
        ensures
            p.parts == parts,
    {
        FsPath { parts }
    }
}

/// The last component when it is a name (`Path::file_name`).
pub open spec fn file_name(p: Seq<PartView>) -> Option<Seq<u8>> {
    if p.len() > 0 && p.last() is Name {
        Some(p.last()->Name_0)
    } else {
        None
    }
}

/// Index of the last `.` in `name`, if any.
pub open spec fn last_dot(name: Seq<u8>) -> Option<int>
    decreases name.len(),
{
    if name.len() == 0 {
        None
    } else if name.last() == 0x2E {
        Some(name.len() - 1)
    } else {
        last_dot(name.drop_last())
    }
}

/// The extension of a file name (`Path::extension`): what follows the last
/// `.`, unless that dot is the first byte or there is none.
pub open spec fn name_extension(name: Seq<u8>) -> Option<Seq<u8>> {
    match last_dot(name) {
        Some(d) => if d > 0 && name != seq![0x2Eu8, 0x2Eu8] {
            Some(name.skip(d + 1))
        } else {
            None
        },
        None => None,
    }
}

/// The extension of the path's file name.
pub open spec fn extension(p: Seq<PartView>) -> Option<Seq<u8>> {
    match file_name(p) {
        Some(name) => name_extension(name),
        None => None,
    }
}

/// `p` without the leading components `base` (`Path::strip_prefix`).
pub open spec fn strip_prefix(base: Seq<PartView>, p: Seq<PartView>) -> Option<Seq<PartView>> {
    if base.len() <= p.len() && p.take(base.len() as int) == base {
        Some(p.skip(base.len() as int))
    } else {
        None
    }
}

pub open spec fn events_bytes() -> Seq<u8> {
    seq![0x65u8, 0x76u8, 0x65u8, 0x6Eu8, 0x74u8, 0x73u8]
}

pub open spec fn decisions_bytes() -> Seq<u8> {
    seq![0x64u8, 0x65u8, 0x63u8, 0x69u8, 0x73u8, 0x69u8, 0x6Fu8, 0x6Eu8, 0x73u8]
}

/// A folder named `events` or `decisions`, in any ASCII case: the folders
/// whose scripts carry display text.
pub open spec fn is_script_dir_name(name: Seq<u8>) -> bool {
    eq_ignore_ascii_case(name, events_bytes()) || eq_ignore_ascii_case(name, decisions_bytes())
}

/// A component that is a folder named `events` or `decisions`.
pub open spec fn is_script_part(p: PartView) -> bool {
    p matches PartView::Name(n) && is_script_dir_name(n)
}

/// `path` lies in an `events` or `decisions` folder below `input_dir`, or
/// `input_dir` itself is such a folder. The path's own last component (the
/// file's name) does not count.
pub open spec fn in_script_dir(input_dir: Seq<PartView>, path: Seq<PartView>) -> bool {
    let own = match file_name(input_dir) {
        Some(n) => is_script_dir_name(n),
        None => false,
    };
    own || exists|i: int|
        0 <= i < relative_parts(input_dir, path).len() - 1 && is_script_part(
            #[trigger] relative_parts(input_dir, path)[i],
        )
}

/// The components of `path` after `input_dir`, or the whole path when
/// `input_dir` does not lead it (`strip_prefix(..).unwrap_or(path)`).
pub open spec fn relative_parts(input_dir: Seq<PartView>, path: Seq<PartView>) -> Seq<PartView> {
    match strip_prefix(input_dir, path) {
        Some(r) => r,
        None => path,
    }
}

/// Is `name` an `events` or `decisions` folder name?
pub fn is_script_dir(name: &[u8]) -> (r: bool)
    ensures
        r == is_script_dir_name(name@),
{
    let events: [u8; 6] = [0x65, 0x76, 0x65, 0x6E, 0x74, 0x73];
    let decisions: [u8; 9] = [0x64, 0x65, 0x63, 0x69, 0x73, 0x69, 0x6F, 0x6E, 0x73];
    assert(events@ =~= events_bytes());
    assert(decisions@ =~= decisions_bytes());
    bytes_eq_ignore_ascii_case(name, events.as_slice()) || bytes_eq_ignore_ascii_case(
        name,
        decisions.as_slice(),
    )
}

/// The path's file name, if its last component is a name.
pub fn path_file_name(p: &FsPath) -> (r: Option<&Vec<u8>>)
    ensures
        match r {
            Some(n) => file_name(p@) == Some(n@),
            None => file_name(p@) is None,
        },
{
    let n = p.parts.len();
    if n == 0 {
        return None;
    }
    assert(p@.last() == p.parts@[n - 1]@);
    match &p.parts[n - 1] {
        PathPart::Name(b) => Some(b),
        _ => None,
    }
}

/// The extension of the path's file name (`Path::extension`).
pub fn path_extension(p: &FsPath) -> (r: Option<Vec<u8>>)
    ensures
        match r {
            Some(e) => extension(p@) == Some(e@),
            None => extension(p@) is None,
        },
{
    match path_file_name(p) {
        None => None,
        Some(name) => {
            let n = name.len();
            let mut j = n;
            assert(name@.take(n as int) =~= name@);
            while j > 0 && name[j - 1] != 0x2E
                invariant
                    j <= n == name@.len(),
                    last_dot(name@) == last_dot(name@.take(j as int)),
                decreases j,
            {
                assert(name@.take(j as int).drop_last() =~= name@.take(j - 1));
                j -= 1;
            }
            proof {
                assert(name@.take(n as int) =~= name@);
                if j > 0 {
                    assert(name@.take(j as int).last() == name@[j - 1]);
                } else {
                    assert(name@.take(0) =~= Seq::<u8>::empty());
                }
            }
            if j <= 1 {
                return None;
            }
            if n == 2 && name[0] == 0x2E && name[1] == 0x2E {
                assert(name@ =~= seq![0x2Eu8, 0x2Eu8]);
                return None;
            }
            assert(name@ != seq![0x2Eu8, 0x2Eu8]) by {
                if name@ == seq![0x2Eu8, 0x2Eu8] {
                    assert(name@[0] == 0x2E && name@[1] == 0x2E);
                }
            }
            let mut ext: Vec<u8> = Vec::new();
            let mut k = j;
            while k < n
                invariant
                    j <= k <= n == name@.len(),
                    ext@ == name@.subrange(j as int, k as int),
                decreases n - k,
            {
                ext.push(name[k]);
                k += 1;
                assert(ext@ =~= name@.subrange(j as int, k as int));
            }
            assert(name@.skip(j as int) =~= name@.subrange(j as int, n as int));
            Some(ext)
        },
    }
}

/// Does the path's file name have the extension `target`, in any ASCII
/// case?
pub fn has_ext(path: &FsPath, target: &str) -> (r: bool)
    ensures
        r == (extension(path@) matches Some(e) && eq_ignore_ascii_case(e, encode_utf8(target@))),
{
    match path_extension(path) {
        Some(e) => bytes_eq_ignore_ascii_case(e.as_slice(), target.as_bytes()),
        None => false,
    }
}

/// Do two components agree?
fn same_part(a: &PathPart, b: &PathPart) -> (r: bool)
    ensures
        r == (a@ == b@),
{
    match (a, b) {
        (PathPart::Prefix(x), PathPart::Prefix(y)) => same_bytes(x.as_slice(), y.as_slice()),
        (PathPart::Root, PathPart::Root) => true,
        (PathPart::Current, PathPart::Current) => true,
        (PathPart::Parent, PathPart::Parent) => true,
        (PathPart::Name(x), PathPart::Name(y)) => same_bytes(x.as_slice(), y.as_slice()),
        _ => false,
    }
}

/// Do two byte strings agree?
fn same_bytes(a: &[u8], b: &[u8]) -> (r: bool)
    ensures
        r == (a@ == b@),
{
    if a.len() != b.len() {
        return false;
    }
    let mut i: usize = 0;
    while i < a.len()
        invariant
            a@.len() == b@.len(),
            i <= a@.len(),
            forall|m: int| 0 <= m < i ==> a@[m] == b@[m],
        decreases a.len() - i,
    {
        if a[i] != b[i] {
            return false;
        }
        i += 1;
    }
    assert(a@ =~= b@);
    true
}

/// Where the components of `path` after `input_dir` start: the length of
/// `input_dir` when it leads `path`, else 0 (the whole path).
fn relative_start(input_dir: &FsPath, path: &FsPath) -> (start: usize)
    ensures
        start <= path@.len(),
        path@.skip(start as int) == (match strip_prefix(input_dir@, path@) {
            Some(r) => r,
            None => path@,
        }),
{
    let b = input_dir.parts.len();
    let n = path.parts.len();
    assert(path@.skip(0) =~= path@);
    if b > n {
        return 0;
    }
    let mut i: usize = 0;
    while i < b
        invariant
            b == input_dir@.len(),
            n == path@.len(),
            b <= n,
            i <= b,
            forall|m: int| 0 <= m < i ==> path@[m] == input_dir@[m],
        decreases b - i,
    {
        if !same_part(&input_dir.parts[i], &path.parts[i]) {
            assert(path@.take(b as int)[i as int] == path@[i as int]);
            assert(path@.take(b as int) != input_dir@);
            return 0;
        }
        i += 1;
    }
    assert(path@.take(b as int) =~= input_dir@);
    b
}

/// Is `path` inside an `events`/`decisions` folder below `input_dir`?
/// `input_dir`'s own last name counts, so pointing straight at an `events`
/// folder works too.
pub fn under_script_dir(input_dir: &FsPath, path: &FsPath) -> (r: bool)
    ensures
        r == in_script_dir(input_dir@, path@),
{
    match path_file_name(input_dir) {
        Some(n) => {
            if is_script_dir(n.as_slice()) {
                return true;
            }
        },
        None => {},
    }
    let start = relative_start(input_dir, path);
    let ghost rel = path@.skip(start as int);
    let n = path.parts.len();
    if n - start < 2 {
        return false;
    }
    // every component after `start` but the last
    let mut i = start;
    while i < n - 1
        invariant
            start <= i <= n - 1,
            n == path@.len(),
            rel == path@.skip(start as int),
            rel.len() == n - start,
            rel == relative_parts(input_dir@, path@),
            forall|m: int| 0 <= m < i - start ==> !is_script_part(#[trigger] rel[m]),
        decreases n - 1 - i,
    {
        assert(rel[i - start] == path@[i as int]);
        assert(path.parts@[i as int]@ == path@[i as int]);
        match &path.parts[i] {
            PathPart::Name(b) => {
                if is_script_dir(b.as_slice()) {
                    assert(is_script_part(relative_parts(input_dir@, path@)[i - start]));
                    return true;
                }
            },
            _ => {},
        }
        i += 1;
    }
    false
}

} // verus!
