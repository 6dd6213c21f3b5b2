//! What is kept on the device from run to run: pipelines, packed weights, constants.
//!
//! Nothing is ever taken out, so that a number handed out once stays valid.

use crate::plan::{Kernel, PackedKey};
use crate::text;
use vstd::prelude::*;

verus! {

/// What a table can be looked up by.
pub trait Key: View + Sized {
    /// Whether two keys are the same.
    fn is(&self, other: &Self) -> (r: bool)
        ensures
            r == (self@ == other@),
    ;
}

impl View for Kernel {
    type V = Kernel;

    open spec fn view(&self) -> Kernel {
        *self
    }
}

impl Key for Kernel {
    fn is(&self, other: &Self) -> (r: bool) {
        *self == *other
    }
}

impl Key for PackedKey {
    fn is(&self, other: &Self) -> (r: bool) {
        let r = self.rows == other.rows && self.cols == other.cols && text::same(
            self.name.as_str(),
            other.name.as_str(),
        );
        r
    }
}

/// The name of a constant on the device. Type and length belong to it, since two graphs may use
/// one name for different constants.
#[derive(Debug, Clone, PartialEq, Eq)]
pub struct UploadKey {
    pub name: String,
    pub dtype: i32,
    pub bytes: usize,
}

#[verifier::ext_equal]
pub struct UploadKeyView {
    pub name: Seq<char>,
    pub dtype: i32,
    pub bytes: int,
}

impl View for UploadKey {
    type V = UploadKeyView;

    open spec fn view(&self) -> UploadKeyView {
        UploadKeyView { name: self.name@, dtype: self.dtype, bytes: self.bytes as int }
    }
}

impl Key for UploadKey {
    fn is(&self, other: &Self) -> (r: bool) {
        let r = self.dtype == other.dtype && self.bytes == other.bytes && text::same(
            self.name.as_str(),
            other.name.as_str(),
        );
        r
    }
}

/// Handles by key; entries are added and never taken out.
#[derive(Debug)]
pub struct Table<K> {
    pub entries: Vec<(K, u64)>,
}

impl<K: Key> Table<K> {
    /// Whether no key occurs twice.
    pub open spec fn wf(&self) -> bool {
        forall|i: int, j: int|
            0 <= i < j < self.entries@.len() ==> (#[trigger] self.entries@[i]).0@ != (
            #[trigger] self.entries@[j]).0@
    }

    /// Whether an entry belongs to `key`.
    pub open spec fn at(&self, key: K::V, handle: u64) -> bool {
        exists|i: int|
            0 <= i < self.entries@.len() && (#[trigger] self.entries@[i]).0@ == key
                && self.entries@[i].1 == handle
    }

    /// Whether there is an entry for `key`.
    pub open spec fn has(&self, key: K::V) -> bool {
        exists|i: int| 0 <= i < self.entries@.len() && (#[trigger] self.entries@[i]).0@ == key
    }

    pub fn new() -> (r: Self)
        ensures
            r.wf(),
            r.entries@.len() == 0,
            forall|k: K::V| !#[trigger] r.has(k),
    {
        Table { entries: Vec::new() }
    }

    /// What is kept under `key`.
    pub fn get(&self, key: &K) -> (r: Option<u64>)
        ensures
            match r {
                Some(h) => self.has(key@) && self.at(key@, h),
                None => !self.has(key@),
            },
    {
        let n: usize = self.entries.len();
        let mut i: usize = 0;
        while i < n
            invariant
                i <= n,
                n == self.entries@.len(),
                forall|k: int| 0 <= k < i ==> (#[trigger] self.entries@[k]).0@ != key@,
            decreases n - i,
        {
            if self.entries[i].0.is(key) {
                assert(self.entries@[i as int].0@ == key@);
                return Some(self.entries[i].1);
            }
            i += 1;
        }
        None
    }

    /// Keeps `handle` under `key`. Where another was faster, that one stays and is returned.
    pub fn put(&mut self, key: K, handle: u64) -> (r: Option<u64>)
        requires
            old(self).wf(),
        ensures
            final(self).wf(),
            match r {
                Some(h) => {
                    &&& final(self).entries@ == old(self).entries@
                    &&& old(self).at(key@, h)
                },
                None => {
                    &&& !old(self).has(key@)
                    &&& final(self).entries@ == old(self).entries@.push((key, handle))
                },
            },
    {
        match self.get(&key) {
            Some(h) => Some(h),
            None => {
                let ghost was = self.entries@;
                self.entries.push((key, handle));
                None
            },
        }
    }
}

/// A key has one handle.
pub proof fn law_one_handle<K: Key>(t: Table<K>, key: K::V, a: u64, b: u64)
    requires
        t.wf(),
        t.at(key, a),
        t.at(key, b),
    ensures
        a == b,
{
    let i = choose|i: int|
        0 <= i < t.entries@.len() && (#[trigger] t.entries@[i]).0@ == key && t.entries@[i].1 == a;
    let j = choose|j: int|
        0 <= j < t.entries@.len() && (#[trigger] t.entries@[j]).0@ == key && t.entries@[j].1 == b;
    if i < j {
        assert(t.entries@[i].0@ != t.entries@[j].0@);
    } else if j < i {
        assert(t.entries@[j].0@ != t.entries@[i].0@);
    }
}

/// What is kept stays: putting something in changes nothing that is there.
pub proof fn law_kept_stays<K: Key>(before: Table<K>, after: Table<K>, k: K, h: u64, key: K::V, handle: u64)
    requires
        after.entries@ == before.entries@ || after.entries@ == before.entries@.push((k, h)),
        before.at(key, handle),
    ensures
        after.at(key, handle),
{
    let i = choose|i: int|
        0 <= i < before.entries@.len() && (#[trigger] before.entries@[i]).0@ == key
            && before.entries@[i].1 == handle;
    assert(after.entries@[i] == before.entries@[i]);
}

/// What is kept on the device from run to run.
#[derive(Debug)]
pub struct KernelCache {
    pub pipelines: Table<Kernel>,
    pub packed: Table<PackedKey>,
    pub constants: Table<UploadKey>,
    pub zero: Option<u64>,
    pub pipeline_builds: usize,
    pub packed_builds: usize,
    pub upload_builds: usize,
}

impl KernelCache {
    pub open spec fn wf(&self) -> bool {
        self.pipelines.wf() && self.packed.wf() && self.constants.wf()
    }

    pub fn new() -> (r: Self)
        ensures
            r.wf(),
            r.pipelines.entries@.len() == 0,
            r.packed.entries@.len() == 0,
            r.constants.entries@.len() == 0,
            r.zero is None,
            r.pipeline_builds == 0,
            r.packed_builds == 0,
            r.upload_builds == 0,
    {
        KernelCache {
            pipelines: Table::new(),
            packed: Table::new(),
            constants: Table::new(),
            zero: None,
            pipeline_builds: 0,
            packed_builds: 0,
            upload_builds: 0,
        }
    }

    /// How many pipelines have been compiled and weights packed: on a warm session these
    /// numbers stop growing.
    pub fn builds(&self) -> (r: (usize, usize))
        ensures
            r == (self.pipeline_builds, self.packed_builds),
    {
        (self.pipeline_builds, self.packed_builds)
    }

    /// How many constants have been brought to the device.
    pub fn uploads(&self) -> (r: usize)
        ensures
            r == self.upload_builds,
    {
        self.upload_builds
    }

    /// The pipeline of a kernel, if it is there.
    pub fn pipeline(&self, kernel: Kernel) -> (r: Option<u64>)
        ensures
            match r {
                Some(h) => self.pipelines.at(kernel, h),
                None => !self.pipelines.has(kernel),
            },
    {
        self.pipelines.get(&kernel)
    }

    /// Counts a compilation that is about to begin.
    pub fn count_pipeline(&mut self)
        ensures
            *final(self) == (KernelCache {
                pipeline_builds: counted(old(self).pipeline_builds),
                ..*old(self)
            }),
    {
        self.pipeline_builds = count(self.pipeline_builds);
    }

    /// Keeps a compiled pipeline. Where another was faster, that one is returned, and the new
    /// one is to be destroyed.
    pub fn keep_pipeline(&mut self, kernel: Kernel, handle: u64) -> (r: Option<u64>)
        requires
            old(self).wf(),
        ensures
            final(self).wf(),
            match r {
                Some(h) => {
                    &&& final(self).pipelines.entries@ == old(self).pipelines.entries@
                    &&& old(self).pipelines.at(kernel, h)
                },
                None => {
                    &&& !old(self).pipelines.has(kernel)
                    &&& final(self).pipelines.entries@ == old(self).pipelines.entries@.push(
                        (kernel, handle),
                    )
                },
            },
            final(self).packed == old(self).packed,
            final(self).constants == old(self).constants,
            final(self).zero == old(self).zero,
            final(self).pipeline_builds == old(self).pipeline_builds,
            final(self).packed_builds == old(self).packed_builds,
            final(self).upload_builds == old(self).upload_builds,
    {
        self.pipelines.put(kernel, handle)
    }

    /// A packed weight, if it is there.
    pub fn packed_weight_cached(&self, key: &PackedKey) -> (r: Option<u64>)
        ensures
            match r {
                Some(h) => self.packed.at(key@, h),
                None => !self.packed.has(key@),
            },
    {
        self.packed.get(key)
    }

    /// Counts a packing that is about to begin.
    pub fn count_packed(&mut self)
        ensures
            *final(self) == (KernelCache {
                packed_builds: counted(old(self).packed_builds),
                ..*old(self)
            }),
    {
        self.packed_builds = count(self.packed_builds);
    }

    /// Keeps a packed weight. Where another was faster, that one is returned, and the new one
    /// is to be destroyed.
    pub fn keep_packed(&mut self, key: PackedKey, handle: u64) -> (r: Option<u64>)
        requires
            old(self).wf(),
        ensures
            final(self).wf(),
            match r {
                Some(h) => {
                    &&& final(self).packed.entries@ == old(self).packed.entries@
                    &&& old(self).packed.at(key@, h)
                },
                None => {
                    &&& !old(self).packed.has(key@)
                    &&& final(self).packed.entries@ == old(self).packed.entries@.push(
                        (key, handle),
                    )
                },
            },
            final(self).pipelines == old(self).pipelines,
            final(self).constants == old(self).constants,
            final(self).zero == old(self).zero,
            final(self).pipeline_builds == old(self).pipeline_builds,
            final(self).packed_builds == old(self).packed_builds,
            final(self).upload_builds == old(self).upload_builds,
    {
        self.packed.put(key, handle)
    }

    /// A constant that is on the device already.
    pub fn initializer(&self, key: &UploadKey) -> (r: Option<u64>)
        ensures
            match r {
                Some(h) => self.constants.at(key@, h),
                None => !self.constants.has(key@),
            },
    {
        self.constants.get(key)
    }

    /// Counts an upload that is about to begin.
    pub fn count_upload(&mut self)
        ensures
            *final(self) == (KernelCache {
                upload_builds: counted(old(self).upload_builds),
                ..*old(self)
            }),
    {
        self.upload_builds = count(self.upload_builds);
    }

    /// Keeps a constant on the device. Where another was faster, that one is returned, and the
    /// new one is to be destroyed.
    pub fn keep_initializer(&mut self, key: UploadKey, handle: u64) -> (r: Option<u64>)
        requires
            old(self).wf(),
        ensures
            final(self).wf(),
            match r {
                Some(h) => {
                    &&& final(self).constants.entries@ == old(self).constants.entries@
                    &&& old(self).constants.at(key@, h)
                },
                None => {
                    &&& !old(self).constants.has(key@)
                    &&& final(self).constants.entries@ == old(self).constants.entries@.push(
                        (key, handle),
                    )
                },
            },
            final(self).pipelines == old(self).pipelines,
            final(self).packed == old(self).packed,
            final(self).zero == old(self).zero,
            final(self).pipeline_builds == old(self).pipeline_builds,
            final(self).packed_builds == old(self).packed_builds,
            final(self).upload_builds == old(self).upload_builds,
    {
        self.constants.put(key, handle)
    }

    /// The buffer that holds one zero, if it is there.
    pub fn zero_scalar(&self) -> (r: Option<u64>)
        ensures
            r == self.zero,
    {
        self.zero
    }

    /// Keeps the buffer that holds one zero.
    pub fn keep_zero(&mut self, handle: u64)
        requires
            old(self).zero is None,
        ensures
            *final(self) == (KernelCache { zero: Some(handle), ..*old(self) }),
    {
        self.zero = Some(handle);
    }

    /// The pipelines, and the buffers, that go back when the cache is given up.
    pub fn retire(self) -> (r: (Vec<u64>, Vec<u64>))
        ensures
            r.0@ == handles(self.pipelines.entries@),
            r.1@ == handles(self.packed.entries@) + handles(self.constants.entries@) + (
            match self.zero {
                Some(z) => seq![z],
                None => Seq::empty(),
            }),
    {
        let mut pipelines: Vec<u64> = Vec::new();
        push_handles(&mut pipelines, &self.pipelines.entries);
        let mut buffers: Vec<u64> = Vec::new();
        push_handles(&mut buffers, &self.packed.entries);
        push_handles(&mut buffers, &self.constants.entries);
        match self.zero {
            Some(z) => {
                buffers.push(z);
            },
            None => {},
        }
        assert(pipelines@ =~= handles(self.pipelines.entries@));
        assert(buffers@ =~= handles(self.packed.entries@) + handles(self.constants.entries@) + (
        match self.zero {
            Some(z) => seq![z],
            None => Seq::empty(),
        }));
        (pipelines, buffers)
    }
}

/// One more, as far as it can be counted.
pub open spec fn counted(n: usize) -> usize {
    if n == usize::MAX {
        n
    } else {
        (n + 1) as usize
    }
}

fn count(n: usize) -> (r: usize)
    ensures
        r == counted(n),
{
    if n == usize::MAX {
        n
    } else {
        n + 1
    }
}

/// The handles of a table, in the order in which they came.
pub open spec fn handles<K>(entries: Seq<(K, u64)>) -> Seq<u64> {
    entries.map_values(|e: (K, u64)| e.1)
}

fn push_handles<K>(out: &mut Vec<u64>, entries: &Vec<(K, u64)>)
    ensures
        final(out)@ == old(out)@ + handles(entries@),
{
    let ghost was = out@;
    let n: usize = entries.len();
    let mut i: usize = 0;
    assert(was + handles(entries@).take(0) =~= was);
    while i < n
        invariant
            i <= n,
            n == entries@.len(),
            out@ == was + handles(entries@).take(i as int),
        decreases n - i,
    {
        out.push(entries[i].1);
        i += 1;
        assert(out@ =~= was + handles(entries@).take(i as int));
    }
    assert(handles(entries@).take(n as int) =~= handles(entries@));
}

} // verus!
