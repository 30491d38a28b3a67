//! Names for addresses, as plain values.

use vstd::prelude::*;
use vstd::string::StringExecFns;

use crate::va::Va;

verus! {

/// What a symbol names.
#[derive(Clone, Copy, Debug, PartialEq, Eq, Structural)]
pub enum SymKind {
    Function,
    Export,
    Import,
    Data,
}

/// A named address.
#[derive(Clone, Debug, PartialEq, Eq)]
pub struct Symbol {
    pub va: Va,
    pub module: String,
    pub name: String,
    pub kind: SymKind,
}

/// A symbol and the number of bytes that it answers for.
#[derive(Clone, Debug, PartialEq, Eq)]
pub struct SymbolSpan {
    pub symbol: Symbol,
    pub covers: u64,
}

/// The symbol of an import slot.
#[derive(Clone, Debug, PartialEq, Eq)]
pub struct SlotSymbol {
    pub slot: Va,
    pub symbol: Symbol,
}

/// A size that the image states for a function.
#[derive(Clone, Copy, Debug, PartialEq, Eq, Structural)]
pub struct StatedSize {
    pub va: Va,
    pub size: u64,
}

/// Everything that is known by name.
#[derive(Clone, Debug, PartialEq, Eq)]
pub struct SymbolTable {
    pub spans: Vec<SymbolSpan>,
    pub slots: Vec<SlotSymbol>,
    pub sizes: Vec<StatedSize>,
}

/// The symbol answers for the address.
pub open spec fn span_covers(s: SymbolSpan, va: Va) -> bool {
    s.symbol.va == va || (s.symbol.va.0 <= va.0 && va.0 - s.symbol.va.0 < s.covers)
}

/// The first of the spans from index `k` on that answers for the address.
pub open spec fn span_from(s: Seq<SymbolSpan>, va: Va, k: int) -> Option<int>
    decreases s.len() - k,
{
    if k < 0 || k >= s.len() {
        None
    } else if span_covers(s[k], va) {
        Some(k)
    } else {
        span_from(s, va, k + 1)
    }
}

/// The first of the slots from index `k` on at the address.
pub open spec fn slot_from(s: Seq<SlotSymbol>, va: Va, k: int) -> Option<int>
    decreases s.len() - k,
{
    if k < 0 || k >= s.len() {
        None
    } else if s[k].slot == va {
        Some(k)
    } else {
        slot_from(s, va, k + 1)
    }
}

/// The size that is stated first for the address, from index `k` on.
pub open spec fn size_from(s: Seq<StatedSize>, va: Va, k: int) -> Option<u64>
    decreases s.len() - k,
{
    if k < 0 || k >= s.len() {
        None
    } else if s[k].va == va {
        Some(s[k].size)
    } else {
        size_from(s, va, k + 1)
    }
}

impl SymbolTable {
    /// The symbol that answers for the address.
    pub open spec fn at(&self, va: Va) -> Option<Symbol> {
        match span_from(self.spans@, va, 0) {
            Some(k) => Some(self.spans@[k].symbol),
            None => None,
        }
    }

    /// The symbol of the import slot at the address.
    pub open spec fn slot(&self, va: Va) -> Option<Symbol> {
        match slot_from(self.slots@, va, 0) {
            Some(k) => Some(self.slots@[k].symbol),
            None => None,
        }
    }

    /// The size that the image states for the function at the address.
    pub open spec fn size(&self, va: Va) -> Option<u64> {
        size_from(self.sizes@, va, 0)
    }

    /// The symbol that answers for the address.
    pub fn symbol_at(&self, va: Va) -> (r: Option<&Symbol>)
        ensures
            match (r, self.at(va)) {
                (Some(a), Some(b)) => *a == b,
                (None, None) => true,
                _ => false,
            },
    {
        let mut k: usize = 0;
        while k < self.spans.len()
            invariant
                k <= self.spans@.len(),
                span_from(self.spans@, va, 0) == span_from(self.spans@, va, k as int),
            decreases self.spans@.len() - k,
        {
            let s = &self.spans[k];
            if s.symbol.va.0 == va.0 || (s.symbol.va.0 <= va.0 && va.0 - s.symbol.va.0 < s.covers) {
                return Some(&s.symbol);
            }
            k = k + 1;
        }
        None
    }

    /// The symbol of the import slot at the address.
    pub fn iat_slot(&self, va: Va) -> (r: Option<&Symbol>)
        ensures
            match (r, self.slot(va)) {
                (Some(a), Some(b)) => *a == b,
                (None, None) => true,
                _ => false,
            },
    {
        let mut k: usize = 0;
        while k < self.slots.len()
            invariant
                k <= self.slots@.len(),
                slot_from(self.slots@, va, 0) == slot_from(self.slots@, va, k as int),
            decreases self.slots@.len() - k,
        {
            let s = &self.slots[k];
            if s.slot.0 == va.0 {
                return Some(&s.symbol);
            }
            k = k + 1;
        }
        None
    }

    /// The size that the image states for the function at the address.
    pub fn symbol_size(&self, va: Va) -> (r: Option<u64>)
        ensures
            r == self.size(va),
    {
        let mut k: usize = 0;
        while k < self.sizes.len()
            invariant
                k <= self.sizes@.len(),
                size_from(self.sizes@, va, 0) == size_from(self.sizes@, va, k as int),
            decreases self.sizes@.len() - k,
        {
            if self.sizes[k].va.0 == va.0 {
                return Some(self.sizes[k].size);
            }
            k = k + 1;
        }
        None
    }
}

/// How a callee is called by name: an import carries its module, everything
/// else is known by its bare name.
pub open spec fn callee_text(s: Symbol) -> Seq<char> {
    match s.kind {
        SymKind::Import => s.module@ + "!"@ + s.name@,
        _ => s.name@,
    }
}

/// How a callee is called by name.
pub fn callee_name(s: &Symbol) -> (r: String)
    ensures
        r@ == callee_text(*s),
{
    match s.kind {
        SymKind::Import => s.module.clone().concat("!").concat(s.name.as_str()),
        _ => s.name.clone(),
    }
}

/// The symbol for an address is the first that stands there or whose bytes hold it.
pub proof fn symbols_answer_for_their_bytes(t: SymbolTable, va: Va, i: int)
    requires
        0 <= i < t.spans@.len(),
        t.spans@[i].symbol.va == va || (t.spans@[i].symbol.va.0 <= va.0 < t.spans@[i].symbol.va.0 + t.spans@[i].covers),
        forall|j: int|
            0 <= j < i ==> (#[trigger] t.spans@[j]).symbol.va != va && !(t.spans@[j].symbol.va.0 <= va.0
                < t.spans@[j].symbol.va.0 + t.spans@[j].covers),
    ensures
        t.at(va) == Some(t.spans@[i].symbol),
{
    lemma_span_found(t.spans@, va, i, 0);
}

proof fn lemma_span_found(s: Seq<SymbolSpan>, va: Va, i: int, k: int)
    requires
        0 <= k <= i < s.len(),
        span_covers(s[i], va),
        forall|j: int| k <= j < i ==> !span_covers(#[trigger] s[j], va),
    ensures
        span_from(s, va, k) == Some(i),
    decreases i - k,
{
    if k < i {
        lemma_span_found(s, va, i, k + 1);
    }
}

/// The symbol that is found for an address stands there or its bytes hold it.
pub proof fn found_symbols_hold_the_address(t: SymbolTable, va: Va)
    ensures
        t.at(va) matches Some(s) ==> exists|i: int|
            0 <= i < t.spans@.len() && (#[trigger] t.spans@[i]).symbol == s && (s.va == va || s.va.0 <= va.0 < s.va.0
                + t.spans@[i].covers),
        t.slot(va) matches Some(s) ==> exists|i: int|
            0 <= i < t.slots@.len() && (#[trigger] t.slots@[i]).symbol == s && t.slots@[i].slot == va,
        t.size(va) matches Some(n) ==> exists|i: int|
            0 <= i < t.sizes@.len() && (#[trigger] t.sizes@[i]).va == va && t.sizes@[i].size == n,
{
    lemma_span_holds(t.spans@, va, 0);
    lemma_slot_holds(t.slots@, va, 0);
    lemma_size_holds(t.sizes@, va, 0);
}

proof fn lemma_span_holds(s: Seq<SymbolSpan>, va: Va, k: int)
    ensures
        span_from(s, va, k) matches Some(i) ==> 0 <= i < s.len() && span_covers(s[i], va),
    decreases s.len() - k,
{
    if 0 <= k < s.len() && !span_covers(s[k], va) {
        lemma_span_holds(s, va, k + 1);
    }
}

proof fn lemma_slot_holds(s: Seq<SlotSymbol>, va: Va, k: int)
    ensures
        slot_from(s, va, k) matches Some(i) ==> 0 <= i < s.len() && s[i].slot == va,
    decreases s.len() - k,
{
    if 0 <= k < s.len() && s[k].slot != va {
        lemma_slot_holds(s, va, k + 1);
    }
}

proof fn lemma_size_holds(s: Seq<StatedSize>, va: Va, k: int)
    ensures
        size_from(s, va, k) matches Some(n) ==> exists|i: int|
            0 <= i < s.len() && (#[trigger] s[i]).va == va && s[i].size == n,
    decreases s.len() - k,
{
    if 0 <= k < s.len() && s[k].va != va {
        lemma_size_holds(s, va, k + 1);
    }
}

/// An import slot and a stated size are found by the exact address, if it has one.
pub proof fn slots_and_sizes_are_found(t: SymbolTable, i: int)
    ensures
        0 <= i < t.slots@.len() ==> t.slot(t.slots@[i].slot) is Some,
        0 <= i < t.sizes@.len() ==> t.size(t.sizes@[i].va) is Some,
        0 <= i < t.spans@.len() ==> t.at(t.spans@[i].symbol.va) is Some,
{
    if 0 <= i < t.slots@.len() {
        lemma_slot_there(t.slots@, i, 0);
    }
    if 0 <= i < t.sizes@.len() {
        lemma_size_there(t.sizes@, i, 0);
    }
    if 0 <= i < t.spans@.len() {
        lemma_span_there(t.spans@, i, 0);
    }
}

proof fn lemma_slot_there(s: Seq<SlotSymbol>, i: int, k: int)
    requires
        0 <= k <= i < s.len(),
    ensures
        slot_from(s, s[i].slot, k) is Some,
    decreases i - k,
{
    if s[k].slot != s[i].slot {
        lemma_slot_there(s, i, k + 1);
    }
}

proof fn lemma_size_there(s: Seq<StatedSize>, i: int, k: int)
    requires
        0 <= k <= i < s.len(),
    ensures
        size_from(s, s[i].va, k) is Some,
    decreases i - k,
{
    if s[k].va != s[i].va {
        lemma_size_there(s, i, k + 1);
    }
}

proof fn lemma_span_there(s: Seq<SymbolSpan>, i: int, k: int)
    requires
        0 <= k <= i < s.len(),
    ensures
        span_from(s, s[i].symbol.va, k) is Some,
    decreases i - k,
{
    if !span_covers(s[k], s[i].symbol.va) {
        lemma_span_there(s, i, k + 1);
    }
}

/// An import is called by its module, an exclamation mark and its name; anything else by
/// its name.
pub proof fn imports_carry_their_module(s: Symbol)
    ensures
        s.kind is Import ==> callee_text(s) == s.module@ + seq!['!'] + s.name@,
        !(s.kind is Import) ==> callee_text(s) == s.name@,
{
    reveal_strlit("!");
    assert("!"@ =~= seq!['!']);
}

} // verus!
