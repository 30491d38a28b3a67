//! What a pass may look at, and nothing else.

use vstd::prelude::*;
use vstd::string::StringExecFns;

use crate::classlayout::LayoutStore;
use crate::eh::EhRegion;
use crate::sorted::{lemma_map_at, NameSet, SortKey, SortedMap, SortedSet};
use crate::source::Snapshot;
use crate::symbols::SymbolTable;
use crate::text::{dec, decimal, decimals_end, decimals_read_back, is_digit};
use crate::va::Va;

verus! {

/// A function that the image declares. An end at or below the start states no
/// length.
#[derive(Clone, Copy, Debug, PartialEq, Eq, Structural)]
pub struct StatedFunction {
    pub start: Va,
    pub end: Va,
}

/// A module that is loaded.
#[derive(Clone, Debug, PartialEq, Eq)]
pub struct Module {
    pub name: String,
    pub base: Va,
    pub size: u64,
}

/// The types that are known for the whole program, as a pass consumes them.
pub trait TypeFlowLookup {
    /// The lookup is well formed.
    spec fn flow_wf(&self) -> bool;

    /// The type of the parameter `index` of the function at `va`.
    spec fn param_of(&self, va: u64, index: usize) -> Option<Seq<char>>;

    /// The type that the function at `va` returns.
    spec fn ret_of(&self, va: u64) -> Option<Seq<char>>;

    /// Which types the lookup gives, as a token.
    spec fn token_of(&self) -> Seq<char>;

    fn param(&self, va: u64, index: usize) -> (r: Option<&str>)
        requires
            self.flow_wf(),
        ensures
            match (r, self.param_of(va, index)) {
                (Some(a), Some(b)) => a@ == b,
                (None, None) => true,
                _ => false,
            },
    ;

    fn ret(&self, va: u64) -> (r: Option<&str>)
        requires
            self.flow_wf(),
        ensures
            match (r, self.ret_of(va)) {
                (Some(a), Some(b)) => a@ == b,
                (None, None) => true,
                _ => false,
            },
    ;

    /// A token for which types the lookup gives, so that what was made with others
    /// can be told apart.
    fn type_flow_fingerprint(&self) -> (r: String)
        requires
            self.flow_wf(),
        ensures
            r@ == self.token_of(),
    ;
}

/// The propagated types of one function.
pub struct FlowTypes {
    /// By parameter index; `None` where nothing is known.
    pub params: Vec<Option<String>>,
    pub ret: Option<String>,
}

/// The propagated types of a program, by function.
pub struct TypeFlow {
    pub functions: SortedMap<u64, FlowTypes>,
}

pub open spec fn text_of(o: Option<String>) -> Option<Seq<char>> {
    match o {
        Some(s) => Some(s@),
        None => None,
    }
}

/// A type in a token, behind its length.
pub open spec fn type_token(o: Option<String>) -> Seq<char> {
    match o {
        Some(s) => dec(s@.len()) + seq![':'] + s@,
        None => seq!['-'],
    }
}

/// The types of the parameters from `k` on in a token.
pub open spec fn params_token(params: Seq<Option<String>>, k: int) -> Seq<char>
    decreases params.len() - k,
{
    if k < 0 || k >= params.len() {
        seq![')']
    } else {
        type_token(params[k]) + params_token(params, k + 1)
    }
}

/// The functions from `k` on in a token.
pub open spec fn functions_token(keys: Seq<u64>, vals: Seq<FlowTypes>, k: int) -> Seq<char>
    decreases keys.len() - k,
{
    if k < 0 || k >= keys.len() {
        Seq::empty()
    } else {
        dec(keys[k] as nat) + seq!['('] + params_token(vals[k].params@, 0) + type_token(vals[k].ret) + functions_token(
            keys,
            vals,
            k + 1,
        )
    }
}

fn add_type(out: &mut String, o: &Option<String>)
    ensures
        final(out)@ == old(out)@ + type_token(*o),
{
    match o {
        Some(s) => {
            out.append(decimal(s.as_str().unicode_len() as u64).as_str());
            out.push(':');
            out.append(s.as_str());
            assert(out@ =~= old(out)@ + type_token(*o));
        },
        None => {
            out.push('-');
            assert(out@ =~= old(out)@ + type_token(*o));
        },
    }
}

fn add_params(out: &mut String, params: &Vec<Option<String>>)
    ensures
        final(out)@ == old(out)@ + params_token(params@, 0),
{
    let mut k: usize = 0;
    while k < params.len()
        invariant
            k <= params@.len(),
            out@ + params_token(params@, k as int) == old(out)@ + params_token(params@, 0),
        decreases params@.len() - k,
    {
        let ghost before = out@;
        add_type(out, &params[k]);
        k = k + 1;
        assert(out@ + params_token(params@, k as int) =~= before + params_token(params@, k - 1));
    }
    out.push(')');
    assert(out@ =~= old(out)@ + params_token(params@, 0));
}

impl TypeFlowLookup for TypeFlow {
    open spec fn flow_wf(&self) -> bool {
        self.functions.wf()
    }

    open spec fn param_of(&self, va: u64, index: usize) -> Option<Seq<char>> {
        if self.functions.map().contains_key(va) && index < self.functions.map()[va].params@.len() {
            text_of(self.functions.map()[va].params@[index as int])
        } else {
            None
        }
    }

    open spec fn ret_of(&self, va: u64) -> Option<Seq<char>> {
        if self.functions.map().contains_key(va) {
            text_of(self.functions.map()[va].ret)
        } else {
            None
        }
    }

    open spec fn token_of(&self) -> Seq<char> {
        functions_token(self.functions.keys@, self.functions.vals@, 0)
    }

    fn param(&self, va: u64, index: usize) -> (r: Option<&str>) {
        match self.functions.get(&va) {
            Some(f) => {
                if index < f.params.len() {
                    match &f.params[index] {
                        Some(s) => Some(s.as_str()),
                        None => None,
                    }
                } else {
                    None
                }
            },
            None => None,
        }
    }

    fn ret(&self, va: u64) -> (r: Option<&str>) {
        match self.functions.get(&va) {
            Some(f) => match &f.ret {
                Some(s) => Some(s.as_str()),
                None => None,
            },
            None => None,
        }
    }

    fn type_flow_fingerprint(&self) -> (r: String) {
        let mut out: String = String::new();
        let mut k: usize = 0;
        let ghost keys = self.functions.keys@;
        let ghost vals = self.functions.vals@;
        assert(out@ + functions_token(keys, vals, 0) =~= functions_token(keys, vals, 0));
        while k < self.functions.keys.len()
            invariant
                k <= keys.len(),
                keys == self.functions.keys@,
                vals == self.functions.vals@,
                keys.len() == vals.len(),
                out@ + functions_token(keys, vals, k as int) == functions_token(keys, vals, 0),
            decreases keys.len() - k,
        {
            let ghost before = out@;
            let f = &self.functions.vals[k];
            out.append(decimal(self.functions.keys[k]).as_str());
            out.push('(');
            add_params(&mut out, &f.params);
            add_type(&mut out, &f.ret);
            k = k + 1;
            assert(out@ + functions_token(keys, vals, k as int) =~= before + functions_token(keys, vals, k - 1));
        }
        assert(out@ + functions_token(keys, vals, k as int) =~= out@);
        out
    }
}

/// Two flows with one token hold the same functions, and the same types for each.
pub proof fn tokens_tell_flows_apart(a: TypeFlow, b: TypeFlow)
    requires
        a.flow_wf(),
        b.flow_wf(),
        a.token_of() == b.token_of(),
    ensures
        a.functions.map().dom() == b.functions.map().dom(),
        forall|va: u64, index: usize| #[trigger] a.param_of(va, index) == b.param_of(va, index),
        forall|va: u64| #[trigger] a.ret_of(va) == b.ret_of(va),
{
    let (ka, va) = (a.functions.keys@, a.functions.vals@);
    let (kb, vb) = (b.functions.keys@, b.functions.vals@);
    lemma_functions_token(ka, va, kb, vb, 0);
    assert(ka =~= kb);
    assert(a.functions.map().dom() =~= b.functions.map().dom());
    assert forall|v: u64| a.functions.map().contains_key(v) implies same_types(a.functions.map()[v], b.functions.map()[v]) by {
        let i = choose|i: int| 0 <= i < ka.len() && (#[trigger] ka[i]).model() == v;
        lemma_map_at(&a.functions, i);
        lemma_map_at(&b.functions, i);
        assert(same_types(va[i], vb[i]));
    }
    assert forall|v: u64, index: usize| #[trigger] a.param_of(v, index) == b.param_of(v, index) by {
        if a.functions.map().contains_key(v) {
            assert(same_types(a.functions.map()[v], b.functions.map()[v]));
        }
    }
    assert forall|v: u64| #[trigger] a.ret_of(v) == b.ret_of(v) by {
        if a.functions.map().contains_key(v) {
            assert(same_types(a.functions.map()[v], b.functions.map()[v]));
        }
    }
}

/// Two functions have the same types.
spec fn same_types(a: FlowTypes, b: FlowTypes) -> bool {
    &&& a.params@.len() == b.params@.len()
    &&& forall|i: int| 0 <= i < a.params@.len() ==> text_of(#[trigger] a.params@[i]) == text_of(b.params@[i])
    &&& text_of(a.ret) == text_of(b.ret)
}

proof fn lemma_functions_token(ka: Seq<u64>, va: Seq<FlowTypes>, kb: Seq<u64>, vb: Seq<FlowTypes>, k: int)
    requires
        ka.len() == va.len(),
        kb.len() == vb.len(),
        0 <= k <= ka.len(),
        k <= kb.len(),
        functions_token(ka, va, k) == functions_token(kb, vb, k),
    ensures
        ka.len() == kb.len(),
        forall|i: int| k <= i < ka.len() ==> #[trigger] ka[i] == kb[i],
        forall|i: int| k <= i < ka.len() ==> same_types(#[trigger] va[i], vb[i]),
    decreases ka.len() - k,
{
    if k < ka.len() {
        decimals_read_back(ka[k] as nat);
    }
    if k < kb.len() {
        decimals_read_back(kb[k] as nat);
    }
    if k < ka.len() && k < kb.len() {
        let xa = params_token(va[k].params@, 0) + (type_token(va[k].ret) + functions_token(ka, va, k + 1));
        let xb = params_token(vb[k].params@, 0) + (type_token(vb[k].ret) + functions_token(kb, vb, k + 1));
        assert(functions_token(ka, va, k) =~= dec(ka[k] as nat) + seq!['('] + xa);
        assert(functions_token(kb, vb, k) =~= dec(kb[k] as nat) + seq!['('] + xb);
        decimals_end(ka[k] as nat, kb[k] as nat, '(', xa, xb);
        lemma_params_token(
            va[k].params@,
            vb[k].params@,
            0,
            type_token(va[k].ret) + functions_token(ka, va, k + 1),
            type_token(vb[k].ret) + functions_token(kb, vb, k + 1),
        );
        lemma_type_token(va[k].ret, vb[k].ret, functions_token(ka, va, k + 1), functions_token(kb, vb, k + 1));
        lemma_functions_token(ka, va, kb, vb, k + 1);
        assert(ka[k] == kb[k]);
        assert(same_types(va[k], vb[k]));
    }
}

proof fn lemma_params_token(pa: Seq<Option<String>>, pb: Seq<Option<String>>, k: int, x: Seq<char>, y: Seq<char>)
    requires
        0 <= k <= pa.len(),
        k <= pb.len(),
        params_token(pa, k) + x == params_token(pb, k) + y,
    ensures
        x == y,
        pa.len() == pb.len(),
        forall|i: int| k <= i < pa.len() ==> text_of(#[trigger] pa[i]) == text_of(pb[i]),
    decreases pa.len() - k,
{
    let ta = params_token(pa, k) + x;
    let tb = params_token(pb, k) + y;
    if k < pa.len() {
        lemma_type_start(pa[k]);
        assert(ta[0] == type_token(pa[k])[0]);
    }
    if k < pb.len() {
        lemma_type_start(pb[k]);
        assert(tb[0] == type_token(pb[k])[0]);
    }
    if k < pa.len() && k < pb.len() {
        assert(ta =~= type_token(pa[k]) + (params_token(pa, k + 1) + x));
        assert(tb =~= type_token(pb[k]) + (params_token(pb, k + 1) + y));
        lemma_type_token(pa[k], pb[k], params_token(pa, k + 1) + x, params_token(pb, k + 1) + y);
        lemma_params_token(pa, pb, k + 1, x, y);
    } else if k >= pa.len() && k >= pb.len() {
        assert(x =~= ta.skip(1));
        assert(y =~= tb.skip(1));
    } else if k >= pa.len() {
        assert(ta[0] == ')');
    } else {
        assert(tb[0] == ')');
    }
}

proof fn lemma_type_start(o: Option<String>)
    ensures
        type_token(o).len() > 0,
        type_token(o)[0] == '-' || is_digit(type_token(o)[0]),
        o is None <==> type_token(o)[0] == '-',
{
    if let Some(s) = o {
        decimals_read_back(s@.len());
        assert(type_token(o)[0] == dec(s@.len())[0]);
    }
}

proof fn lemma_type_token(a: Option<String>, b: Option<String>, x: Seq<char>, y: Seq<char>)
    requires
        type_token(a) + x == type_token(b) + y,
    ensures
        text_of(a) == text_of(b),
        x == y,
{
    lemma_type_start(a);
    lemma_type_start(b);
    let ta = type_token(a) + x;
    let tb = type_token(b) + y;
    assert(ta[0] == type_token(a)[0] && tb[0] == type_token(b)[0]);
    match (a, b) {
        (Some(s), Some(t)) => {
            assert(ta =~= dec(s@.len()) + seq![':'] + (s@ + x));
            assert(tb =~= dec(t@.len()) + seq![':'] + (t@ + y));
            decimals_end(s@.len(), t@.len(), ':', s@ + x, t@ + y);
            assert(s@ =~= (s@ + x).take(s@.len() as int));
            assert(t@ =~= (t@ + y).take(t@.len() as int));
            assert(x =~= (s@ + x).skip(s@.len() as int));
            assert(y =~= (t@ + y).skip(t@.len() as int));
        },
        (None, None) => {
            assert(x =~= ta.skip(1));
            assert(y =~= tb.skip(1));
        },
        _ => {},
    }
}

/// The analysis context: memory, and what is known beside it.
pub struct Ctx<'a> {
    pub source: &'a Snapshot,
    pub symbols: Option<&'a SymbolTable>,
    /// The modules that are loaded.
    pub modules: Option<&'a [Module]>,
    /// The names of functions that are known never to return.
    pub noreturn_names: Option<&'a NameSet>,
    /// The entries of functions that are proven never to return.
    pub noreturn: Option<&'a SortedSet<u64>>,
    /// The class of each table of virtual functions, by its address.
    pub vtables: Option<&'a SortedMap<u64, String>>,
    /// Exception edges of the function under analysis.
    pub eh: Option<&'a [EhRegion]>,
    /// The functions that the image itself declares, in ascending order.
    pub functions: Option<&'a [StatedFunction]>,
    /// The types that are known for the whole program.
    pub type_flow: Option<&'a TypeFlow>,
    /// The fields of each class.
    pub layout: Option<&'a LayoutStore>,
}

impl<'a> Ctx<'a> {
    /// What is attached is well formed.
    pub open spec fn wf(&self) -> bool {
        &&& self.noreturn_names matches Some(s) ==> s.wf()
        &&& self.noreturn matches Some(s) ==> s.wf()
        &&& self.vtables matches Some(s) ==> s.wf()
        &&& self.type_flow matches Some(s) ==> s.flow_wf()
        &&& self.layout matches Some(s) ==> s.classes.wf()
    }

    /// A context with memory alone.
    pub fn new(source: &'a Snapshot) -> (r: Self)
        ensures
            r == (Ctx {
                source,
                symbols: None,
                modules: None,
                noreturn_names: None,
                noreturn: None,
                vtables: None,
                eh: None,
                functions: None,
                type_flow: None,
                layout: None,
            }),
            r.wf(),
    {
        Ctx {
            source,
            symbols: None,
            modules: None,
            noreturn_names: None,
            noreturn: None,
            vtables: None,
            eh: None,
            functions: None,
            type_flow: None,
            layout: None,
        }
    }

    /// Attaches names for addresses.
    pub fn with_symbols(self, symbols: &'a SymbolTable) -> (r: Self)
        requires
            self.wf(),
        ensures
            r == (Ctx { symbols: Some(symbols), ..self }),
            r.wf(),
    {
        let mut r = self;
        r.symbols = Some(symbols);
        r
    }

    /// Attaches the modules that are loaded.
    pub fn with_modules(self, modules: &'a [Module]) -> (r: Self)
        requires
            self.wf(),
        ensures
            r == (Ctx { modules: Some(modules), ..self }),
            r.wf(),
    {
        let mut r = self;
        r.modules = Some(modules);
        r
    }

    /// Attaches the names of functions that are known never to return.
    pub fn with_noreturn_names(self, names: &'a NameSet) -> (r: Self)
        requires
            self.wf(),
            names.wf(),
        ensures
            r == (Ctx { noreturn_names: Some(names), ..self }),
            r.wf(),
    {
        let mut r = self;
        r.noreturn_names = Some(names);
        r
    }

    /// Attaches the entries of functions that are proven never to return.
    pub fn with_noreturn(self, noreturn: &'a SortedSet<u64>) -> (r: Self)
        requires
            self.wf(),
            noreturn.wf(),
        ensures
            r == (Ctx { noreturn: Some(noreturn), ..self }),
            r.wf(),
    {
        let mut r = self;
        r.noreturn = Some(noreturn);
        r
    }

    /// Attaches the class of each table of virtual functions.
    pub fn with_vtables(self, vtables: &'a SortedMap<u64, String>) -> (r: Self)
        requires
            self.wf(),
            vtables.wf(),
        ensures
            r == (Ctx { vtables: Some(vtables), ..self }),
            r.wf(),
    {
        let mut r = self;
        r.vtables = Some(vtables);
        r
    }

    /// Attaches the exception edges of the function under analysis.
    pub fn with_eh(self, eh: &'a [EhRegion]) -> (r: Self)
        requires
            self.wf(),
        ensures
            r == (Ctx { eh: Some(eh), ..self }),
            r.wf(),
    {
        let mut r = self;
        r.eh = Some(eh);
        r
    }

    /// Attaches the functions that the image declares.
    pub fn with_stated_functions(self, functions: &'a [StatedFunction]) -> (r: Self)
        requires
            self.wf(),
        ensures
            r == (Ctx { functions: Some(functions), ..self }),
            r.wf(),
    {
        let mut r = self;
        r.functions = Some(functions);
        r
    }

    /// Attaches the types that are known for the whole program.
    pub fn with_type_flow(self, flow: &'a TypeFlow) -> (r: Self)
        requires
            self.wf(),
            flow.flow_wf(),
        ensures
            r == (Ctx { type_flow: Some(flow), ..self }),
            r.wf(),
    {
        let mut r = self;
        r.type_flow = Some(flow);
        r
    }

    /// Attaches the fields of each class.
    pub fn with_layout(self, layout: &'a LayoutStore) -> (r: Self)
        requires
            self.wf(),
            layout.classes.wf(),
        ensures
            r == (Ctx { layout: Some(layout), ..self }),
            r.wf(),
    {
        let mut r = self;
        r.layout = Some(layout);
        r
    }
}

} // verus!
