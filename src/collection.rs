//! The result of a walk: the directories found and the number of entries seen.
use vstd::prelude::*;

verus! {

/// A path relative to the root of the walk, as its sequence of component names.
pub type PathView = Seq<Seq<char>>;

/// The text view of a path held as component strings.
pub open spec fn path_view(p: Seq<String>) -> PathView {
    p.map_values(|s: String| s@)
}

/// A `.venv` directory found by a walk.
#[derive(Debug)]
pub struct VenvDir {
    /// The directory's path relative to the root, one string per component.
    pub path: Vec<String>,
}

impl VenvDir {
    pub open spec fn view_path(&self) -> PathView {
        path_view(self.path@)
    }
}

/// The directories found by a walk, in the order of discovery, and the count
/// of directory entries that the walk examined.
#[derive(Debug)]
pub struct VenvCollection {
    pub checked_files: usize,
    pub data: Vec<VenvDir>,
}

/// Sum of the known sizes; an unknown size counts as zero.
pub open spec fn total_of(sizes: Seq<Option<u64>>) -> nat
    decreases sizes.len(),
{
    if sizes.len() == 0 {
        0
    } else {
        total_of(sizes.drop_last()) + match sizes.last() {
            Some(v) => v as nat,
            None => 0,
        }
    }
}

/// `n`, or `u64::MAX` where `n` does not fit.
pub open spec fn clamp_u64(n: nat) -> u64 {
    if n > u64::MAX {
        u64::MAX
    } else {
        n as u64
    }
}

/// A byte count in whole mebibytes, rounded down.
pub fn megabytes(bytes: u64) -> (r: u64)
    ensures
        r as nat == bytes as nat / 1048576,
{
    bytes / 1024 / 1024
}

impl VenvCollection {
    /// The paths found, in the order of discovery.
    pub open spec fn found(&self) -> Seq<PathView> {
        self.data@.map_values(|d: VenvDir| d.view_path())
    }

    pub fn new() -> (r: Self)
        ensures
            r.checked_files == 0,
            r.data@.len() == 0,
    {
        Self { checked_files: 0, data: Vec::new() }
    }

    /// Total size in bytes, where `sizes[i]` is the measured size of the `i`-th
    /// directory found, or `None` where it could not be measured (that
    /// directory then counts as zero). The sum saturates at `u64::MAX`.
    pub fn get_total_size(&self, sizes: &Vec<Option<u64>>) -> (r: u64)
        requires
            sizes@.len() == self.data@.len(),
        ensures
            r == clamp_u64(total_of(sizes@)),
    {
        let mut acc: u64 = 0;
        let mut i: usize = 0;
        while i < sizes.len()
            invariant
                i <= sizes@.len(),
                acc == clamp_u64(total_of(sizes@.take(i as int))),
            decreases sizes@.len() - i,
        {
            let v: u64 = match sizes[i] {
                Some(v) => v,
                None => 0,
            };
            assert(sizes@.take(i as int + 1).drop_last() =~= sizes@.take(i as int));
            acc = acc.saturating_add(v);
            i = i + 1;
        }
        assert(sizes@.take(i as int) =~= sizes@);
        acc
    }

    pub fn push(&mut self, item: Vec<String>)
        ensures
            final(self).checked_files == old(self).checked_files,
            final(self).data@ == old(self).data@.push(VenvDir { path: item }),
    {
        self.data.push(VenvDir { path: item })
    }

    pub fn len(&mut self) -> (r: usize)
        ensures
            r == old(self).data@.len(),
            *final(self) == *old(self),
    {
        self.data.len()
    }

    pub fn is_empty(&mut self) -> (r: bool)
        ensures
            r == (old(self).data@.len() == 0),
            *final(self) == *old(self),
    {
        self.data.len() == 0
    }
}

impl Default for VenvCollection {
    fn default() -> (r: Self)
        ensures
            r.checked_files == 0,
            r.data@.len() == 0,
    {
        Self::new()
    }
}

} // verus!
