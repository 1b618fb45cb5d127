//! The data model of a loaded executable image: memory sections with
//! read-only random access, and decoded exception-table records.

use vstd::prelude::*;
use crate::error::MemoryAccessError;

verus! {

/// One contiguous region of the loaded image, as `(base address, bytes)`.
pub struct Section {
    pub address: usize,
    pub data: Vec<u8>,
}

/// The mathematical content of a section.
pub struct SectionModel {
    pub base: int,
    pub bytes: Seq<u8>,
}

impl View for Section {
    type V = SectionModel;

    open spec fn view(&self) -> SectionModel {
        SectionModel { base: self.address as int, bytes: self.data@ }
    }
}

impl SectionModel {
    /// The section fits the machine's address space.
    pub open spec fn wf(self) -> bool {
        self.base + self.bytes.len() <= usize::MAX && self.bytes.len() < usize::MAX
    }

    /// Whether the whole range `va .. va + len` lies inside this section.
    pub open spec fn covers(self, va: int, len: int) -> bool {
        self.base <= va && va + len <= self.base + self.bytes.len()
    }

    /// The `len` bytes this section holds at `va`.
    pub open spec fn bytes_at(self, va: int, len: int) -> Seq<u8> {
        self.bytes.subrange(va - self.base, va - self.base + len)
    }
}

/// Read-only random access to the loaded image's memory sections.
pub struct Memory {
    pub sections: Vec<Section>,
}

/// The index of the first section from `i` on that covers `va .. va + len`.
pub open spec fn find_section_from(secs: Seq<SectionModel>, va: int, len: int, i: int) -> Option<
    int,
>
    decreases secs.len() - i,
{
    if i < 0 || i >= secs.len() {
        None
    } else if secs[i].covers(va, len) {
        Some(i)
    } else {
        find_section_from(secs, va, len, i + 1)
    }
}

/// A found section covers the requested range.
pub proof fn lemma_find_section_covers(secs: Seq<SectionModel>, va: int, len: int, i: int)
    ensures
        find_section_from(secs, va, len, i) matches Some(j) ==> 0 <= j < secs.len()
            && secs[j].covers(va, len),
    decreases secs.len() - i,
{
    if i < 0 || i >= secs.len() {
    } else if secs[i].covers(va, len) {
    } else {
        lemma_find_section_covers(secs, va, len, i + 1);
    }
}

impl Memory {
    /// The sections, each a `(base address, bytes)` region.
    pub open spec fn spec_sections(self) -> Seq<SectionModel> {
        self.sections@.map_values(|s: Section| s@)
    }

    /// Every section fits the address space.
    pub open spec fn wf(self) -> bool {
        forall|i: int| 0 <= i < self.spec_sections().len() ==> self.spec_sections()[i].wf()
    }

    /// The bytes of the image at `va .. va + len`, taken from the first
    /// section covering the whole range, if one does.
    pub open spec fn spec_read(self, va: int, len: int) -> Option<Seq<u8>> {
        match find_section_from(self.spec_sections(), va, len, 0) {
            Some(j) => Some(self.spec_sections()[j].bytes_at(va, len)),
            None => None,
        }
    }

    pub fn sections(&self) -> (r: &Vec<Section>)
        ensures
            r == &self.sections,
    {
        &self.sections
    }

    fn find_section(&self, va: usize, len: usize) -> (r: Option<usize>)
        requires
            va + len <= usize::MAX,
        ensures
            match find_section_from(self.spec_sections(), va as int, len as int, 0) {
                Some(j) => r matches Some(e) && e == j && j < self.sections@.len()
                    && self.spec_sections()[j].covers(va as int, len as int),
                None => r is None,
            },
    {
        let mut i: usize = 0;
        while i < self.sections.len()
            invariant
                va + len <= usize::MAX,
                i <= self.sections@.len(),
                find_section_from(self.spec_sections(), va as int, len as int, 0)
                    == find_section_from(self.spec_sections(), va as int, len as int, i as int),
            decreases self.sections@.len() - i,
        {
            let s = &self.sections[i];
            if s.address <= va && va - s.address <= s.data.len() && len <= s.data.len() - (va
                - s.address) {
                proof {
                    assert(self.spec_sections()[i as int].covers(va as int, len as int));
                }
                return Some(i);
            }
            proof {
                assert(!self.spec_sections()[i as int].covers(va as int, len as int));
            }
            i = i + 1;
        }
        None
    }

    /// Copies the `len` bytes at `va` out of the image, or reports exactly
    /// which access failed.
    pub fn read_bytes(&self, va: usize, len: usize) -> (r: Result<Vec<u8>, MemoryAccessError>)
        requires
            va + len <= usize::MAX,
        ensures
            match self.spec_read(va as int, len as int) {
                Some(bytes) => r matches Ok(v) && v@ == bytes,
                None => r == Err::<Vec<u8>, MemoryAccessError>(
                    MemoryAccessError { start: va, len },
                ),
            },
    {
        match self.find_section(va, len) {
            Some(j) => {
                let s = &self.sections[j];
                proof {
                    assert(self.spec_sections()[j as int] == self.sections@[j as int]@);
                    assert(s@.covers(va as int, len as int));
                }
                let off = va - s.address;
                let dlen = s.data.len();
                let mut out: Vec<u8> = Vec::new();
                let mut k: usize = 0;
                while k < len
                    invariant
                        k <= len,
                        off + len <= dlen,
                        dlen == s.data@.len(),
                        out@ == s@.bytes.subrange(off as int, off + k),
                    decreases len - k,
                {
                    out.push(s.data[off + k]);
                    k = k + 1;
                    proof {
                        assert(out@ =~= s@.bytes.subrange(off as int, off + k));
                    }
                }
                proof {
                    assert(out@ =~= self.spec_sections()[j as int].bytes_at(va as int, len as int));
                }
                Ok(out)
            },
            None => Err(MemoryAccessError { start: va, len }),
        }
    }
}

/// A half-open range of virtual addresses.
#[derive(Debug, Clone, Copy, PartialEq, Eq, Structural)]
pub struct AddressRange {
    pub start: usize,
    pub end: usize,
}

/// One exception-table record: the range of a function body and the start
/// address of the unwind root it belongs to.
#[derive(Debug, Clone, Copy, PartialEq, Eq, Structural)]
pub struct Function {
    pub range: AddressRange,
    pub unwind_root: usize,
}

impl Function {
    /// Whether `va` lies inside this function's body.
    pub open spec fn contains_va(self, va: int) -> bool {
        self.range.start <= va < self.range.end
    }
}

/// The index of the first function record from `i` on whose range holds `va`.
pub open spec fn find_function_from(fns: Seq<Function>, va: int, i: int) -> Option<int>
    decreases fns.len() - i,
{
    if i < 0 || i >= fns.len() {
        None
    } else if fns[i].contains_va(va) {
        Some(i)
    } else {
        find_function_from(fns, va, i + 1)
    }
}

/// The index of the first function record from `i` on that starts at `start`.
pub open spec fn find_function_start_from(fns: Seq<Function>, start: int, i: int) -> Option<int>
    decreases fns.len() - i,
{
    if i < 0 || i >= fns.len() {
        None
    } else if fns[i].range.start == start {
        Some(i)
    } else {
        find_function_start_from(fns, start, i + 1)
    }
}

/// The function records from position `i` on that share the unwind root
/// starting at `root`, in table order.
pub open spec fn children_from(fns: Seq<Function>, root: int, i: int) -> Seq<Function>
    decreases fns.len() - i,
{
    if i < 0 || i >= fns.len() {
        Seq::empty()
    } else if fns[i].unwind_root == root {
        seq![fns[i]] + children_from(fns, root, i + 1)
    } else {
        children_from(fns, root, i + 1)
    }
}

/// A loaded executable image: its memory sections and its decoded
/// exception-table records.
pub struct Image {
    pub memory: Memory,
    pub functions: Vec<Function>,
}

impl Image {
    /// The image's memory fits the address space.
    pub open spec fn wf(self) -> bool {
        self.memory.wf()
    }

    /// The unwind-root record of the function containing `va`: the first
    /// record whose range holds `va` names its root's start address, and the
    /// first record starting there is returned.
    pub open spec fn spec_root_function(self, va: int) -> Option<Function> {
        match find_function_from(self.functions@, va, 0) {
            Some(j) => match find_function_start_from(
                self.functions@,
                self.functions@[j].unwind_root as int,
                0,
            ) {
                Some(k) => Some(self.functions@[k]),
                None => None,
            },
            None => None,
        }
    }

    fn find_containing(&self, va: usize) -> (r: Option<usize>)
        ensures
            match find_function_from(self.functions@, va as int, 0) {
                Some(j) => r matches Some(e) && e == j && j < self.functions@.len(),
                None => r is None,
            },
    {
        let mut i: usize = 0;
        while i < self.functions.len()
            invariant
                i <= self.functions@.len(),
                find_function_from(self.functions@, va as int, 0) == find_function_from(
                    self.functions@,
                    va as int,
                    i as int,
                ),
            decreases self.functions@.len() - i,
        {
            let f = &self.functions[i];
            if f.range.start <= va && va < f.range.end {
                return Some(i);
            }
            i = i + 1;
        }
        None
    }

    fn find_starting(&self, start: usize) -> (r: Option<usize>)
        ensures
            match find_function_start_from(self.functions@, start as int, 0) {
                Some(j) => r matches Some(e) && e == j && j < self.functions@.len(),
                None => r is None,
            },
    {
        let mut i: usize = 0;
        while i < self.functions.len()
            invariant
                i <= self.functions@.len(),
                find_function_start_from(self.functions@, start as int, 0)
                    == find_function_start_from(self.functions@, start as int, i as int),
            decreases self.functions@.len() - i,
        {
            let f = &self.functions[i];
            if f.range.start == start {
                return Some(i);
            }
            i = i + 1;
        }
        None
    }

    /// Looks up the innermost function containing `va` in the exception
    /// table and returns its unwind root's record, if the table has one.
    pub fn get_root_function(&self, va: usize) -> (r: Option<Function>)
        ensures
            r == self.spec_root_function(va as int),
    {
        match self.find_containing(va) {
            Some(j) => {
                let root = self.functions[j].unwind_root;
                match self.find_starting(root) {
                    Some(k) => Some(self.functions[k]),
                    None => None,
                }
            },
            None => None,
        }
    }

    /// All function records sharing the unwind root that starts at `root`,
    /// in exception-table order.
    pub fn get_child_functions(&self, root: usize) -> (r: Vec<Function>)
        ensures
            r@ == children_from(self.functions@, root as int, 0),
    {
        let mut out: Vec<Function> = Vec::new();
        let mut i: usize = 0;
        while i < self.functions.len()
            invariant
                i <= self.functions@.len(),
                children_from(self.functions@, root as int, 0) == out@ + children_from(
                    self.functions@,
                    root as int,
                    i as int,
                ),
            decreases self.functions@.len() - i,
        {
            let f = self.functions[i];
            if f.unwind_root == root {
                out.push(f);
            }
            i = i + 1;
            proof {
                assert(children_from(self.functions@, root as int, 0) =~= out@ + children_from(
                    self.functions@,
                    root as int,
                    i as int,
                ));
            }
        }
        proof {
            assert(children_from(self.functions@, root as int, 0) =~= out@);
        }
        out
    }
}

} // verus!
