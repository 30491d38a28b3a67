//! Memory as plain values: mapped regions, and what a read of them gives.

use vstd::prelude::*;

use crate::va::Va;

verus! {

/// Why memory could not be read.
#[derive(Clone, Copy, Debug, PartialEq, Eq, Structural)]
pub enum SourceError {
    /// No region holds the address.
    Unmapped(Va),
}

/// Anything a pass can fail with.
#[derive(Clone, Debug, PartialEq, Eq)]
pub enum CoreError {
    Source(SourceError),
    Other(String),
}

/// What a pass failed with, by contents.
pub ghost enum CoreFault {
    Source(SourceError),
    Other(Seq<char>),
}

impl CoreError {
    pub open spec fn fault(self) -> CoreFault {
        match self {
            CoreError::Source(e) => CoreFault::Source(e),
            CoreError::Other(s) => CoreFault::Other(s@),
        }
    }
}

/// A run of mapped bytes.
#[derive(Clone, Debug, PartialEq, Eq)]
pub struct Region {
    pub start: Va,
    pub bytes: Vec<u8>,
}

/// A range of executable addresses: its start and its length.
#[derive(Clone, Copy, Debug, PartialEq, Eq, Structural)]
pub struct CodeRange {
    pub start: Va,
    pub size: u64,
}

/// The memory of a program at one moment.
#[derive(Clone, Debug, PartialEq, Eq)]
pub struct Snapshot {
    pub regions: Vec<Region>,
    /// Where executable code lies.
    pub code: Vec<CodeRange>,
}

/// The region holds the address.
pub open spec fn region_holds(r: Region, va: u64) -> bool {
    r.start.0 <= va < r.start.0 + r.bytes@.len()
}

/// The first of the regions from index `k` on that holds the address.
pub open spec fn region_from(rs: Seq<Region>, va: u64, k: int) -> Option<int>
    decreases rs.len() - k,
{
    if k < 0 || k >= rs.len() {
        None
    } else if region_holds(rs[k], va) {
        Some(k)
    } else {
        region_from(rs, va, k + 1)
    }
}

/// `a + n`, or the end of the address space where that is past it.
pub open spec fn sat_add(a: u64, n: u64) -> u64 {
    if a + n > u64::MAX {
        u64::MAX
    } else {
        (a + n) as u64
    }
}

/// An address lies in a range of code.
pub open spec fn in_code_range(c: CodeRange, va: u64) -> bool {
    c.start.0 <= va < sat_add(c.start.0, c.size)
}

impl Snapshot {
    /// No region runs past the end of the address space.
    pub open spec fn wf(&self) -> bool {
        forall|k: int|
            0 <= k < self.regions@.len() ==> (#[trigger] self.regions@[k]).start.0 + self.regions@[k].bytes@.len()
                <= u64::MAX
    }

    /// What a read of `len` bytes at `va` gives: the bytes from there on, up to
    /// the end of the region that holds the address.
    pub open spec fn read_of(&self, va: u64, len: nat) -> Option<Seq<u8>> {
        match region_from(self.regions@, va, 0) {
            Some(k) => {
                let r = self.regions@[k];
                let off = va - r.start.0;
                let end = if off + len <= r.bytes@.len() {
                    off + len
                } else {
                    r.bytes@.len() as int
                };
                Some(r.bytes@.subrange(off, end))
            },
            None => None,
        }
    }

    /// Some region holds the address.
    pub open spec fn mapped(&self, va: u64) -> bool {
        region_from(self.regions@, va, 0) is Some
    }

    /// The address is executable.
    pub open spec fn is_code_at(&self, va: u64) -> bool {
        exists|k: int| 0 <= k < self.code@.len() && in_code_range(#[trigger] self.code@[k], va)
    }

    fn find_region(&self, va: Va) -> (r: Option<usize>)
        ensures
            match (r, region_from(self.regions@, va.0, 0)) {
                (Some(a), Some(b)) => a == b && a < self.regions@.len(),
                (None, None) => true,
                _ => false,
            },
    {
        let mut k: usize = 0;
        while k < self.regions.len()
            invariant
                k <= self.regions@.len(),
                region_from(self.regions@, va.0, 0) == region_from(self.regions@, va.0, k as int),
            decreases self.regions@.len() - k,
        {
            let r = &self.regions[k];
            if r.start.0 <= va.0 && va.0 - r.start.0 < r.bytes.len() as u64 {
                return Some(k);
            }
            k = k + 1;
        }
        None
    }

    /// Reads up to `len` bytes at `va`. A read stops at the end of the region
    /// that holds the address.
    pub fn read(&self, va: Va, len: usize) -> (r: Result<Vec<u8>, SourceError>)
        ensures
            match r {
                Ok(b) => self.read_of(va.0, len as nat) == Some(b@) && b@.len() <= len,
                Err(e) => self.read_of(va.0, len as nat) is None && e == SourceError::Unmapped(va),
            },
    {
        match self.find_region(va) {
            Some(k) => {
                let reg = &self.regions[k];
                proof {
                    lemma_region_found(self.regions@, va.0, 0);
                }
                let off: usize = (va.0 - reg.start.0) as usize;
                let rest: usize = reg.bytes.len() - off;
                let end: usize = if len <= rest {
                    off + len
                } else {
                    reg.bytes.len()
                };
                Ok(vstd::slice::slice_to_vec(vstd::slice::slice_subrange(reg.bytes.as_slice(), off, end)))
            },
            None => Err(SourceError::Unmapped(va)),
        }
    }

    /// Does some region hold the address?
    pub fn contains(&self, va: Va) -> (r: bool)
        ensures
            r == self.mapped(va.0),
    {
        self.find_region(va).is_some()
    }

    /// Is the address executable?
    pub fn is_code(&self, va: u64) -> (r: bool)
        ensures
            r == self.is_code_at(va),
    {
        let mut k: usize = 0;
        while k < self.code.len()
            invariant
                k <= self.code@.len(),
                forall|j: int| 0 <= j < k ==> !in_code_range(#[trigger] self.code@[j], va),
            decreases self.code@.len() - k,
        {
            let c = self.code[k];
            if c.start.0 <= va && va < c.start.0.saturating_add(c.size) {
                assert(in_code_range(self.code@[k as int], va));
                return true;
            }
            k = k + 1;
        }
        false
    }
}

pub proof fn lemma_region_found(rs: Seq<Region>, va: u64, k: int)
    requires
        0 <= k,
    ensures
        region_from(rs, va, k) matches Some(i) ==> k <= i < rs.len() && region_holds(rs[i], va),
    decreases rs.len() - k,
{
    if k < rs.len() && !region_holds(rs[k], va) {
        lemma_region_found(rs, va, k + 1);
    }
}

/// A read never gives more than was asked for, and never runs past the end of
/// the address space.
pub proof fn lemma_read_len(s: &Snapshot, va: u64, len: nat)
    ensures
        s.read_of(va, len) matches Some(b) ==> b.len() <= len && (s.wf() ==> va + b.len() <= u64::MAX),
{
    lemma_region_found(s.regions@, va, 0);
}

/// A read gives the bytes that are mapped from the address on, as many as were asked for
/// or as the region has left; an address that no region holds cannot be read.
pub proof fn reads_give_the_mapped_bytes(s: &Snapshot, va: u64, len: nat, i: int)
    ensures
        s.read_of(va, len) is None <==> forall|k: int|
            0 <= k < s.regions@.len() ==> !((#[trigger] s.regions@[k]).start.0 <= va < s.regions@[k].start.0
                + s.regions@[k].bytes@.len()),
        s.read_of(va, len) matches Some(b) ==> exists|k: int|
            {
                let r = #[trigger] s.regions@[k];
                &&& 0 <= k < s.regions@.len()
                &&& r.start.0 <= va < r.start.0 + r.bytes@.len()
                &&& b.len() <= len
                &&& b.len() == len || va + b.len() == r.start.0 + r.bytes@.len()
                &&& 0 <= i < b.len() ==> b[i] == r.bytes@[va - r.start.0 + i]
            },
{
    lemma_read_place(s.regions@, va, 0);
    match region_from(s.regions@, va, 0) {
        Some(k) => {
            let r = s.regions@[k];
            assert(region_holds(r, va));
        },
        None => {},
    }
}

proof fn lemma_read_place(rs: Seq<Region>, va: u64, k: int)
    requires
        0 <= k,
    ensures
        region_from(rs, va, k) matches Some(i) ==> k <= i < rs.len() && region_holds(rs[i], va),
        region_from(rs, va, k) is None ==> forall|i: int| k <= i < rs.len() ==> !region_holds(#[trigger] rs[i], va),
    decreases rs.len() - k,
{
    if k < rs.len() && !region_holds(rs[k], va) {
        lemma_read_place(rs, va, k + 1);
        if region_from(rs, va, k) is None {
            assert forall|i: int| k <= i < rs.len() implies !region_holds(#[trigger] rs[i], va) by {
                if i > k {
                    assert(!region_holds(rs[i], va));
                }
            }
        }
    }
}

/// Code is what lies in a range of code, from its start to before its end.
pub proof fn code_lies_in_its_ranges(s: &Snapshot, va: u64)
    ensures
        s.is_code_at(va) <==> exists|k: int|
            0 <= k < s.code@.len() && (#[trigger] s.code@[k]).start.0 <= va && va < s.code@[k].start.0 + s.code@[k].size
                && va < u64::MAX,
{
    if s.is_code_at(va) {
        let k = choose|k: int| 0 <= k < s.code@.len() && in_code_range(#[trigger] s.code@[k], va);
        assert(s.code@[k].start.0 <= va);
    }
    if exists|k: int|
        0 <= k < s.code@.len() && (#[trigger] s.code@[k]).start.0 <= va && va < s.code@[k].start.0 + s.code@[k].size && va
            < u64::MAX {
        let k = choose|k: int|
            0 <= k < s.code@.len() && (#[trigger] s.code@[k]).start.0 <= va && va < s.code@[k].start.0 + s.code@[k].size
                && va < u64::MAX;
        assert(in_code_range(s.code@[k], va));
    }
}

} // verus!
