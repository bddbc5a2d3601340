//! One filesystem object found under the traversal root, with the
//! mathematical view that the contracts of the library speak about.
use vstd::prelude::*;

verus! {

/// The type of a filesystem object.
#[derive(Clone, Copy, Debug, PartialEq, Eq, Structural)]
pub enum EntryKind {
    Dir,
    File,
    Symlink,
}

/// One object found by the traversal.
///
/// `path` holds the components of the object's path as raw bytes (the last
/// one is the object's own name); `display` is the path as it is shown to a
/// user. Metadata that could not be read is `None`.
pub struct Entry {
    pub path: Vec<Vec<u8>>,
    pub display: String,
    pub depth: usize,
    pub kind: EntryKind,
    pub size: Option<u64>,
    /// Modification time, in nanoseconds since the Unix epoch.
    pub modified: Option<u64>,
    /// Permission bits.
    pub mode: Option<u32>,
}

/// The mathematical content of an [`Entry`].
pub ghost struct EntryView {
    pub path: Seq<Seq<u8>>,
    pub display: Seq<char>,
    pub depth: nat,
    pub kind: EntryKind,
    pub size: Option<u64>,
    pub modified: Option<u64>,
    pub mode: Option<u32>,
}

impl View for Entry {
    type V = EntryView;

    open spec fn view(&self) -> EntryView {
        EntryView {
            path: comps(self.path@),
            display: self.display@,
            depth: self.depth as nat,
            kind: self.kind,
            size: self.size,
            modified: self.modified,
            mode: self.mode,
        }
    }
}

/// The components of a path, as byte sequences.
pub open spec fn comps(p: Seq<Vec<u8>>) -> Seq<Seq<u8>> {
    p.map_values(|c: Vec<u8>| c@)
}

/// The views of a sequence of entries.
pub open spec fn views(es: Seq<Entry>) -> Seq<EntryView> {
    es.map_values(|e: Entry| e@)
}

impl EntryView {
    pub open spec fn is_dir(self) -> bool {
        self.kind == EntryKind::Dir
    }

    /// The object's own name: the last component of its path.
    pub open spec fn name(self) -> Seq<u8> {
        if self.path.len() > 0 {
            self.path.last()
        } else {
            Seq::empty()
        }
    }

    /// The path of the directory that holds the object.
    pub open spec fn parent(self) -> Seq<Seq<u8>> {
        self.path.drop_last()
    }

    pub open spec fn has_parent(self) -> bool {
        self.path.len() > 0
    }
}

/// Whether two byte sequences are equal.
pub fn bytes_equal(a: &Vec<u8>, b: &Vec<u8>) -> (r: bool)
    ensures
        r == (a@ == b@),
{
    if a.len() != b.len() {
        return false;
    }
    let mut i: usize = 0;
    while i < a.len()
        invariant
            a.len() == b.len(),
            i <= a.len(),
            forall|k: int| 0 <= k < i ==> a@[k] == b@[k],
        decreases a.len() - i,
    {
        if a[i] != b[i] {
            return false;
        }
        i = i + 1;
    }
    assert(a@ =~= b@);
    true
}

/// Whether the first `n` components of `a` are the path `b`.
pub fn path_prefix_equal(a: &Vec<Vec<u8>>, n: usize, b: &Vec<Vec<u8>>) -> (r: bool)
    requires
        n <= a.len(),
    ensures
        r == (comps(a@).take(n as int) == comps(b@)),
{
    let ghost av = comps(a@);
    let ghost bv = comps(b@);
    if n != b.len() {
        assert(av.take(n as int).len() != bv.len());
        return false;
    }
    let mut i: usize = 0;
    while i < n
        invariant
            n == b.len(),
            n <= a.len(),
            i <= n,
            av == comps(a@),
            bv == comps(b@),
            forall|k: int| 0 <= k < i ==> av[k] == bv[k],
        decreases n - i,
    {
        if !bytes_equal(&a[i], &b[i]) {
            assert(av.take(n as int)[i as int] != bv[i as int]);
            return false;
        }
        i = i + 1;
    }
    assert(av.take(n as int) =~= bv);
    true
}

/// Whether the first `n` components of `a` and of `b` are equal.
pub fn prefixes_equal(a: &Vec<Vec<u8>>, b: &Vec<Vec<u8>>, n: usize) -> (r: bool)
    requires
        n <= a.len(),
        n <= b.len(),
    ensures
        r == (comps(a@).take(n as int) == comps(b@).take(n as int)),
{
    let ghost av = comps(a@);
    let ghost bv = comps(b@);
    let mut i: usize = 0;
    while i < n
        invariant
            n <= a.len(),
            n <= b.len(),
            i <= n,
            av == comps(a@),
            bv == comps(b@),
            forall|k: int| 0 <= k < i ==> av[k] == bv[k],
        decreases n - i,
    {
        if !bytes_equal(&a[i], &b[i]) {
            assert(av.take(n as int)[i as int] != bv.take(n as int)[i as int]);
            return false;
        }
        i = i + 1;
    }
    assert(av.take(n as int) =~= bv.take(n as int));
    true
}

/// The parents of two non-empty paths are equal.
pub fn same_parent(a: &Vec<Vec<u8>>, b: &Vec<Vec<u8>>) -> (r: bool)
    requires
        a.len() > 0,
        b.len() > 0,
    ensures
        r == (comps(a@).drop_last() == comps(b@).drop_last()),
{
    if a.len() != b.len() {
        assert(comps(a@).drop_last().len() != comps(b@).drop_last().len());
        return false;
    }
    let n = a.len() - 1;
    assert(comps(b@).drop_last() =~= comps(b@).take(n as int));
    assert(comps(a@).drop_last() =~= comps(a@).take(n as int));
    prefixes_equal(a, b, n)
}

/// The parent of the non-empty path `a` is `p`.
pub fn same_parent_of(a: &Vec<Vec<u8>>, p: &Vec<Vec<u8>>) -> (r: bool)
    requires
        a.len() > 0,
    ensures
        r == (comps(a@).drop_last() == comps(p@)),
{
    let n = a.len() - 1;
    assert(comps(a@).drop_last() =~= comps(a@).take(n as int));
    path_prefix_equal(a, n, p)
}

/// Two paths are equal.
pub fn same_path(a: &Vec<Vec<u8>>, b: &Vec<Vec<u8>>) -> (r: bool)
    ensures
        r == (comps(a@) == comps(b@)),
{
    if a.len() != b.len() {
        assert(comps(a@).len() != comps(b@).len());
        return false;
    }
    assert(comps(a@).take(a.len() as int) =~= comps(a@));
    assert(comps(b@).take(a.len() as int) =~= comps(b@));
    prefixes_equal(a, b, a.len())
}

/// A copy of a byte sequence.
pub fn copy_bytes(a: &Vec<u8>) -> (r: Vec<u8>)
    ensures
        r@ == a@,
{
    let mut r: Vec<u8> = Vec::new();
    let mut i: usize = 0;
    while i < a.len()
        invariant
            i <= a.len(),
            r@ == a@.take(i as int),
        decreases a.len() - i,
    {
        r.push(a[i]);
        i = i + 1;
        assert(r@ =~= a@.take(i as int));
    }
    assert(a@.take(a.len() as int) =~= a@);
    r
}

impl Entry {
    /// A copy of this entry.
    pub fn copy(&self) -> (r: Entry)
        ensures
            r@ == self@,
    {
        let mut path: Vec<Vec<u8>> = Vec::new();
        let mut i: usize = 0;
        while i < self.path.len()
            invariant
                i <= self.path.len(),
                path.len() == i,
                forall|k: int| 0 <= k < i ==> path@[k]@ == self.path@[k]@,
            decreases self.path.len() - i,
        {
            path.push(copy_bytes(&self.path[i]));
            i = i + 1;
        }
        assert(comps(path@) =~= comps(self.path@));
        Entry {
            path,
            display: self.display.clone(),
            depth: self.depth,
            kind: self.kind,
            size: self.size,
            modified: self.modified,
            mode: self.mode,
        }
    }
}

} // verus!
