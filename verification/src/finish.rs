//! The final output getters: which generic instances the application keeps,
//! the attributes and names they get, the references that make the compiler
//! instantiate them, and the symbols a crate exports for them.
use vstd::prelude::*;

use crate::canonical::{lemma_canonical_order_independent, names_identify, ranks_fix_keys};
use crate::bytes::{bytes_equal, library_crate, library_crate_bytes, output_fn, output_fn_bytes};
use crate::order::{
    Identified, Ranked, dedup_by_same, dedup_same, is_rank_sorted, lemma_dedup_members,
    lemma_dedup_no_adjacent_repeat, lemma_dedup_sorted, lemma_sort_permutation, lemma_sort_sorted,
    lemma_sort_order_independent, ranks_identify, represented_in, sort_by_rank, sort_ranked,
    stands_for,
};

verus! {

/// A definition, named by its crate and its item name.
pub struct DefPath {
    /// The definition.
    pub id: u64,
    /// The name of the crate that defines it.
    pub krate: Vec<u8>,
    /// Its item name, if it has one.
    pub name: Option<Vec<u8>>,
}

/// The definition is this library's generic `output` getter.
pub open spec fn is_output_def(d: DefPath) -> bool {
    &&& d.krate@ == library_crate()
    &&& d.name is Some
    &&& d.name->Some_0@ == output_fn()
}

/// Tells whether a definition is this library's `output` getter.
pub fn is_output(def: &DefPath) -> (r: bool)
    ensures
        r == is_output_def(*def),
{
    let name = library_crate_bytes();
    if !bytes_equal(&def.krate, &name) {
        return false;
    }
    match &def.name {
        Some(item) => {
            let output = output_fn_bytes();
            bytes_equal(item, &output)
        },
        None => false,
    }
}

/// How a function is linked.
#[derive(Clone, Copy, PartialEq, Eq, Structural, Debug)]
pub enum Linkage {
    External,
    AvailableExternally,
    LinkOnceAny,
    LinkOnceODR,
    WeakAny,
    WeakODR,
    Internal,
    ExternalWeak,
    Common,
}

/// The inlining request of a function.
#[derive(Clone, Copy, PartialEq, Eq, Structural, Debug)]
pub enum InlineAttr {
    /// No inlining request.
    Unset,
    Hint,
    Always,
    Never,
    Force,
}

/// The codegen attributes that the driver may change.
#[derive(Clone, Copy, PartialEq, Eq, Structural, Debug)]
pub struct CodegenAttrs {
    pub linkage: Option<Linkage>,
    pub inline: InlineAttr,
}

/// The attributes of a function: in an application (a crate with an entry
/// function) the `output` getter is linked externally and never inlined, so
/// that one definition serves every caller; anything else keeps its
/// attributes.
pub fn output_attributes(attrs: CodegenAttrs, has_entry_fn: bool, def: &DefPath) -> (r:
    CodegenAttrs)
    ensures
        has_entry_fn && is_output_def(*def) ==> r == (CodegenAttrs {
            linkage: Some(Linkage::External),
            inline: InlineAttr::Unset,
        }),
        !(has_entry_fn && is_output_def(*def)) ==> r == attrs,
{
    let mut attrs = attrs;
    if has_entry_fn && is_output(def) {
        attrs.linkage = Some(Linkage::External);
        attrs.inline = InlineAttr::Unset;
    }
    attrs
}

/// Where the symbol name of an instance comes from.
#[derive(Clone, Copy, PartialEq, Eq, Structural, Debug)]
pub enum SymbolSource {
    /// The name mangled for the crate that defines the function, the same
    /// in every crate that refers to it.
    DefiningCrate,
    /// The compiler's own name.
    Default,
}

/// The `output` getter is named as in its defining crate; everything else
/// by the compiler.
pub fn output_symbol(def: &DefPath) -> (r: SymbolSource)
    ensures
        is_output_def(*def) <==> r == SymbolSource::DefiningCrate,
        !is_output_def(*def) <==> r == SymbolSource::Default,
{
    if is_output(def) {
        SymbolSource::DefiningCrate
    } else {
        SymbolSource::Default
    }
}

/// A function instance: a definition with its generic arguments.
pub struct Instance {
    pub def: DefPath,
    /// The generic arguments.
    pub args: u64,
    /// The symbol name of the instance.
    pub symbol: Vec<u8>,
}

impl Ranked for Instance {
    open spec fn rank(&self) -> Seq<u8> {
        self.symbol@
    }

    fn rank_bytes(&self) -> (r: &Vec<u8>) {
        &self.symbol
    }
}

impl Identified for Instance {
    open spec fn same_as(&self, other: &Self) -> bool {
        self.def.id == other.def.id && self.args == other.args
    }

    fn is_same(&self, other: &Self) -> (r: bool) {
        self.def.id == other.def.id && self.args == other.args
    }
}

/// An entry of a dependency's exported generic symbols.
pub enum GenericExport {
    /// A generic function with the arguments it was instantiated with.
    Generic(Instance),
    /// Any other kind of exported symbol.
    Other,
}

/// The `output` instances among one crate's exported generic symbols.
pub open spec fn exported_outputs(s: Seq<GenericExport>) -> Seq<Instance>
    decreases s.len(),
{
    if s.len() == 0 {
        Seq::empty()
    } else {
        match s.last() {
            GenericExport::Generic(i) => if is_output_def(i.def) {
                exported_outputs(s.drop_last()).push(i)
            } else {
                exported_outputs(s.drop_last())
            },
            GenericExport::Other => exported_outputs(s.drop_last()),
        }
    }
}

/// The `output` instances that the dependencies export, crate after crate.
pub open spec fn crates_outputs(cs: Seq<Vec<GenericExport>>) -> Seq<Instance>
    decreases cs.len(),
{
    if cs.len() == 0 {
        Seq::empty()
    } else {
        crates_outputs(cs.drop_last()) + exported_outputs(cs.last()@)
    }
}

/// The final `output` instances: those the dependencies export, ordered by
/// symbol name, each repeat after the first dropped.
pub open spec fn final_outputs(cs: Seq<Vec<GenericExport>>) -> Seq<Instance> {
    dedup_same(sort_ranked(crates_outputs(cs)))
}

/// The `output` instances that the dependencies export, crate after crate.
fn collect_outputs(crates: Vec<Vec<GenericExport>>) -> (r: Vec<Instance>)
    ensures
        r@ == crates_outputs(crates@),
{
    broadcast use vstd::std_specs::vec::axiom_spec_into_iter;

    let ghost crates0 = crates@;
    let mut out: Vec<Instance> = Vec::new();
    assert(crates0.take(0) =~= Seq::<Vec<GenericExport>>::empty());
    for exports in ct: crates.into_iter()
        invariant
            ct.seq() == crates0,
            out@ == crates_outputs(crates0.take(ct.index() as int)),
    {
        let ghost c = ct.index();
        let ghost before = out@;
        let ghost ex0 = exports@;
        assert(ex0.take(0) =~= Seq::<GenericExport>::empty());
        assert(before + exported_outputs(ex0.take(0)) =~= before);
        for e in et: exports.into_iter()
            invariant
                et.seq() == ex0,
                out@ == before + exported_outputs(ex0.take(et.index() as int)),
        {
            let ghost j = et.index();
            assert(ex0.take(j + 1).drop_last() =~= ex0.take(j as int));
            assert(ex0.take(j + 1).last() == e);
            match e {
                GenericExport::Generic(inst) => {
                    if is_output(&inst.def) {
                        out.push(inst);
                        assert(before + exported_outputs(ex0.take(j + 1)) =~= (before
                            + exported_outputs(ex0.take(j as int))).push(inst));
                    }
                },
                GenericExport::Other => {},
            }
        }
        assert(ex0.take(ex0.len() as int) =~= ex0);
        proof {
            let t = crates0.take(c + 1);
            assert(t.drop_last() =~= crates0.take(c as int));
            assert(t.last() == exports);
        }
    }
    assert(crates0.take(crates0.len() as int) =~= crates0);
    out
}

/// The final `output` instances: every `output` instance that a dependency
/// exports, ordered by symbol name, with repeats of the same instance
/// dropped.
pub fn outputs(crates: Vec<Vec<GenericExport>>) -> (r: Vec<Instance>)
    ensures
        r@ == final_outputs(crates@),
        forall|c: int, k: int|
            #[trigger] exports_output_at(crates@, c, k) ==> exists|m: int|
                0 <= m < r@.len() && (#[trigger] r@[m]).def.id == exported_at(crates@, c, k).def.id
                    && r@[m].args == exported_at(crates@, c, k).args,
        forall|m: int| 0 <= m < r@.len() ==> exported_by(crates@, #[trigger] r@[m]),
{
    proof {
        lemma_outputs_cover_exports(crates@);
    }
    let found = collect_outputs(crates);
    let sorted = sort_by_rank(found);
    dedup_by_same(sorted)
}

/// The final `output` instances are ordered by symbol name, no instance
/// follows itself, each is one that a dependency exports, and every
/// exported `output` instance is among them.
pub proof fn lemma_final_outputs(cs: Seq<Vec<GenericExport>>)
    ensures
        is_rank_sorted(final_outputs(cs)),
        forall|k: int|
            0 <= k < final_outputs(cs).len() - 1 ==> !(#[trigger] final_outputs(cs)[k]).same_as(
                &final_outputs(cs)[k + 1],
            ),
        forall|k: int|
            0 <= k < final_outputs(cs).len() ==> crates_outputs(cs).contains(
                #[trigger] final_outputs(cs)[k],
            ),
        forall|j: int|
            0 <= j < crates_outputs(cs).len() ==> represented_in(
                final_outputs(cs),
                #[trigger] crates_outputs(cs)[j],
            ),
{
    broadcast use vstd::seq_lib::to_multiset_contains;

    let s = crates_outputs(cs);
    let sorted = sort_ranked(s);
    lemma_sort_sorted(s);
    lemma_sort_permutation(s);
    lemma_dedup_sorted(sorted);
    lemma_dedup_no_adjacent_repeat(sorted);
    lemma_dedup_members(sorted);
    assert forall|k: int| 0 <= k < final_outputs(cs).len() implies s.contains(
        #[trigger] final_outputs(cs)[k],
    ) by {
        let x = final_outputs(cs)[k];
        assert(sorted.contains(x));
        assert(sorted.to_multiset().count(x) > 0);
        assert(s.to_multiset().count(x) > 0);
    }
    assert forall|j: int| 0 <= j < s.len() implies represented_in(final_outputs(cs), #[trigger] s[j]) by {
        let x = s[j];
        assert(s.to_multiset().count(x) > 0);
        assert(sorted.to_multiset().count(x) > 0);
        assert(sorted.contains(x));
        let i = choose|i: int| 0 <= i < sorted.len() && sorted[i] == x;
        assert(represented_in(dedup_same(sorted), sorted[i]));
    }
}

/// The type of a local variable in the body of `main`.
pub enum LocalDecl {
    /// A local that the body already had.
    Existing(u64),
    /// A function pointer to an instance (definition and arguments).
    FnPointer(u64, u64),
}

/// A statement of the first basic block of `main`.
pub enum Statement {
    /// A statement that the body already had.
    Existing(u64),
    /// Stores a pointer to an instance (definition and arguments) into a
    /// local.
    StoreFnPointer { local: usize, def: u64, args: u64 },
}

/// The parts of a function body that the driver extends.
pub struct Body {
    pub locals: Vec<LocalDecl>,
    /// The statements of the first basic block.
    pub start: Vec<Statement>,
}

/// The locals added for the output instances: one function pointer each.
pub open spec fn pointer_locals(outs: Seq<Instance>) -> Seq<LocalDecl> {
    outs.map_values(|i: Instance| LocalDecl::FnPointer(i.def.id, i.args))
}

/// The statements added for the output instances: each stores a pointer to
/// its instance into the local added for it, counted from `first`.
pub open spec fn pointer_stores(first: nat, outs: Seq<Instance>) -> Seq<Statement> {
    Seq::new(
        outs.len(),
        |k: int|
            Statement::StoreFnPointer {
                local: (first + k) as usize,
                def: outs[k].def.id,
                args: outs[k].args,
            },
    )
}

/// The locals and stores added to `main` refer to every `output` instance
/// that a dependency exports: each has a function pointer to an instance
/// with its definition and arguments, stored by the statement added with it.
proof fn lemma_pointers_for_exports(
    cs: Seq<Vec<GenericExport>>,
    locals0: Seq<LocalDecl>,
    start0: Seq<Statement>,
)
    ensures
        forall|c: int, k: int|
            #[trigger] exports_output_at(cs, c, k) ==> exists|m: int|
                0 <= m < (locals0 + pointer_locals(final_outputs(cs))).len() - locals0.len()
                    && #[trigger] (locals0 + pointer_locals(final_outputs(cs)))[locals0.len() + m]
                    == LocalDecl::FnPointer(exported_at(cs, c, k).def.id, exported_at(cs, c, k).args)
                    && (start0 + pointer_stores(locals0.len(), final_outputs(cs)))[start0.len() + m]
                    == (Statement::StoreFnPointer {
                    local: (locals0.len() + m) as usize,
                    def: exported_at(cs, c, k).def.id,
                    args: exported_at(cs, c, k).args,
                }),
{
    lemma_outputs_cover_exports(cs);
    let outs = final_outputs(cs);
    let l = locals0 + pointer_locals(outs);
    let st = start0 + pointer_stores(locals0.len(), outs);
    assert forall|c: int, k: int| #[trigger] exports_output_at(cs, c, k) implies exists|m: int|
        0 <= m < l.len() - locals0.len() && #[trigger] l[locals0.len() + m] == LocalDecl::FnPointer(
            exported_at(cs, c, k).def.id,
            exported_at(cs, c, k).args,
        ) && st[start0.len() + m] == (Statement::StoreFnPointer {
            local: (locals0.len() + m) as usize,
            def: exported_at(cs, c, k).def.id,
            args: exported_at(cs, c, k).args,
        }) by {
        let m = choose|m: int|
            0 <= m < outs.len() && (#[trigger] outs[m]).def.id == exported_at(cs, c, k).def.id
                && outs[m].args == exported_at(cs, c, k).args;
        lemma_pointer_at(locals0, start0, outs, m);
    }
}

/// The local and the store added for the `m`-th output instance.
proof fn lemma_pointer_at(
    locals0: Seq<LocalDecl>,
    start0: Seq<Statement>,
    outs: Seq<Instance>,
    m: int,
)
    requires
        0 <= m < outs.len(),
    ensures
        (locals0 + pointer_locals(outs)).len() == locals0.len() + outs.len(),
        (locals0 + pointer_locals(outs))[locals0.len() + m] == LocalDecl::FnPointer(
            outs[m].def.id,
            outs[m].args,
        ),
        (start0 + pointer_stores(locals0.len(), outs))[start0.len() + m] == (
        Statement::StoreFnPointer {
            local: (locals0.len() + m) as usize,
            def: outs[m].def.id,
            args: outs[m].args,
        }),
{
    assert((locals0 + pointer_locals(outs))[locals0.len() + m] == pointer_locals(outs)[m]);
    assert((start0 + pointer_stores(locals0.len(), outs))[start0.len() + m] == pointer_stores(
        locals0.len(),
        outs,
    )[m]);
}

/// The body of `main` in the application refers to every final `output`
/// instance through an unused function pointer, which makes the compiler
/// instantiate it; every other body stays as it is.
pub fn root_outputs(is_entry_fn: bool, body: Body, crates: Vec<Vec<GenericExport>>) -> (r: Body)
    ensures
        !is_entry_fn ==> r == body,
        is_entry_fn ==> {
            &&& r.locals@ == body.locals@ + pointer_locals(final_outputs(crates@))
            &&& r.start@ == body.start@ + pointer_stores(
                body.locals@.len(),
                final_outputs(crates@),
            )
        },
        is_entry_fn ==> forall|c: int, k: int|
            #[trigger] exports_output_at(crates@, c, k) ==> exists|m: int|
                0 <= m < r.locals@.len() - body.locals@.len() && #[trigger] r.locals@[body.locals@.len()
                    + m] == LocalDecl::FnPointer(
                    exported_at(crates@, c, k).def.id,
                    exported_at(crates@, c, k).args,
                ) && r.start@[body.start@.len() + m] == (Statement::StoreFnPointer {
                    local: (body.locals@.len() + m) as usize,
                    def: exported_at(crates@, c, k).def.id,
                    args: exported_at(crates@, c, k).args,
                }),
{
    if !is_entry_fn {
        return body;
    }
    let ghost crates0 = crates@;
    let outs = outputs(crates);
    let ghost outs0 = outs@;
    let ghost locals0 = body.locals@;
    let ghost start0 = body.start@;
    let Body { locals, start } = body;
    let mut locals = locals;
    let mut start = start;
    let n = outs.len();
    let mut i: usize = 0;
    while i < n
        invariant
            i <= n,
            n == outs0.len(),
            outs@ == outs0,
            locals@ == locals0 + pointer_locals(outs0.take(i as int)),
            start@ == start0 + pointer_stores(locals0.len(), outs0.take(i as int)),
        decreases n - i,
    {
        let local = locals.len();
        let def = outs[i].def.id;
        let args = outs[i].args;
        locals.push(LocalDecl::FnPointer(def, args));
        start.push(Statement::StoreFnPointer { local, def, args });
        proof {
            assert(pointer_locals(outs0.take(i + 1)) =~= pointer_locals(outs0.take(i as int)).push(
                LocalDecl::FnPointer(def, args),
            ));
            assert(local == locals0.len() + i);
            assert(pointer_stores(locals0.len(), outs0.take(i + 1)) =~= pointer_stores(
                locals0.len(),
                outs0.take(i as int),
            ).push(Statement::StoreFnPointer { local, def, args }));
        }
        i += 1;
    }
    assert(outs0.take(n as int) =~= outs0);
    let r = Body { locals, start };
    proof {
        assert(r.locals@ == locals0 + pointer_locals(final_outputs(crates0)));
        assert(r.start@ == start0 + pointer_stores(locals0.len(), final_outputs(crates0)));
        lemma_pointers_for_exports(crates0, locals0, start0);
    }
    r
}

/// An exported symbol.
pub enum ExportedSymbol {
    /// A non-generic definition.
    NonGeneric(u64),
    /// A generic definition with its arguments.
    Generic(u64, u64),
    /// A symbol known only by its name (the entry's name).
    NoDefId,
    /// Any other symbol (shims and drop glue), by its identity.
    Other(u64),
}

/// Whether a symbol can be linked from other object files.
#[derive(Clone, Copy, PartialEq, Eq, Structural, Debug)]
pub enum ExportLevel {
    C,
    Rust,
}

/// What an exported symbol refers to.
#[derive(Clone, Copy, PartialEq, Eq, Structural, Debug)]
pub enum ExportKind {
    Text,
    Data,
    Tls,
}

/// How a symbol is exported.
#[derive(Clone, Copy, PartialEq, Eq, Structural, Debug)]
pub struct ExportInfo {
    pub level: ExportLevel,
    pub kind: ExportKind,
    pub used: bool,
    pub std_internal: bool,
}

/// An entry of a crate's exported symbols.
pub struct ExportEntry {
    pub symbol: ExportedSymbol,
    /// The symbol's name in this crate; for `NoDefId` the name it stands for.
    pub name: Vec<u8>,
    pub info: ExportInfo,
}

impl Ranked for ExportEntry {
    open spec fn rank(&self) -> Seq<u8> {
        self.name@
    }

    fn rank_bytes(&self) -> (r: &Vec<u8>) {
        &self.name
    }
}

impl Identified for ExportEntry {
    open spec fn same_as(&self, other: &Self) -> bool {
        match (self.symbol, other.symbol) {
            (ExportedSymbol::NonGeneric(a), ExportedSymbol::NonGeneric(b)) => a == b,
            (ExportedSymbol::Generic(a, x), ExportedSymbol::Generic(b, y)) => a == b && x == y,
            (ExportedSymbol::NoDefId, ExportedSymbol::NoDefId) => self.name@ == other.name@,
            (ExportedSymbol::Other(a), ExportedSymbol::Other(b)) => a == b,
            _ => false,
        }
    }

    fn is_same(&self, other: &Self) -> (r: bool) {
        match (&self.symbol, &other.symbol) {
            (ExportedSymbol::NonGeneric(a), ExportedSymbol::NonGeneric(b)) => *a == *b,
            (ExportedSymbol::Generic(a, x), ExportedSymbol::Generic(b, y)) => *a == *b && *x == *y,
            (ExportedSymbol::NoDefId, ExportedSymbol::NoDefId) => bytes_equal(&self.name, &other.name),
            (ExportedSymbol::Other(a), ExportedSymbol::Other(b)) => *a == *b,
            _ => false,
        }
    }
}

/// An item of a codegen unit.
pub enum MonoItem {
    /// A function instance.
    Fn(Instance),
    /// A static or global assembly.
    Other,
}

/// How the driver exports an output getter: a used Rust-level function.
pub open spec fn output_export_info() -> ExportInfo {
    ExportInfo { level: ExportLevel::Rust, kind: ExportKind::Text, used: true, std_internal: false }
}

/// The exports that a library adds: each `output` instance of its codegen
/// units, as a generic symbol, unit after unit.
pub open spec fn unit_outputs(items: Seq<MonoItem>) -> Seq<ExportEntry>
    decreases items.len(),
{
    if items.len() == 0 {
        Seq::empty()
    } else {
        match items.last() {
            MonoItem::Fn(i) => if is_output_def(i.def) {
                unit_outputs(items.drop_last()).push(
                    ExportEntry {
                        symbol: ExportedSymbol::Generic(i.def.id, i.args),
                        name: i.symbol,
                        info: output_export_info(),
                    },
                )
            } else {
                unit_outputs(items.drop_last())
            },
            MonoItem::Other => unit_outputs(items.drop_last()),
        }
    }
}

/// The exports that a library adds, over all its codegen units.
pub open spec fn units_outputs(units: Seq<Vec<MonoItem>>) -> Seq<ExportEntry>
    decreases units.len(),
{
    if units.len() == 0 {
        Seq::empty()
    } else {
        units_outputs(units.drop_last()) + unit_outputs(units.last()@)
    }
}

/// The exports that an application adds: each final `output` instance by
/// its name alone, so that link-time optimisation keeps it.
pub open spec fn named_outputs(outs: Seq<Instance>) -> Seq<ExportEntry> {
    outs.map_values(
        |i: Instance|
            ExportEntry { symbol: ExportedSymbol::NoDefId, name: i.symbol, info: output_export_info() },
    )
}

/// The exported symbols a crate records in its metadata: unchanged when it
/// generates no code; else its own exports and the output exports, ordered
/// by name, each repeat of a symbol after the first dropped.
pub open spec fn final_exports(
    should_codegen: bool,
    has_entry_fn: bool,
    own_exports: Seq<ExportEntry>,
    units: Seq<Vec<MonoItem>>,
    crates: Seq<Vec<GenericExport>>,
) -> Seq<ExportEntry> {
    if !should_codegen {
        own_exports
    } else {
        let added = if has_entry_fn {
            named_outputs(final_outputs(crates))
        } else {
            units_outputs(units)
        };
        dedup_same(sort_ranked(own_exports + added))
    }
}

fn output_info() -> (r: ExportInfo)
    ensures
        r == output_export_info(),
{
    ExportInfo { level: ExportLevel::Rust, kind: ExportKind::Text, used: true, std_internal: false }
}

/// Appends the `output` exports of the codegen units to `out`.
fn push_unit_outputs(out: &mut Vec<ExportEntry>, units: Vec<Vec<MonoItem>>)
    ensures
        final(out)@ == old(out)@ + units_outputs(units@),
{
    broadcast use vstd::std_specs::vec::axiom_spec_into_iter;

    let ghost units0 = units@;
    let ghost base = out@;
    assert(units0.take(0) =~= Seq::<Vec<MonoItem>>::empty());
    assert(base + units_outputs(units0.take(0)) =~= base);
    for items in ut: units.into_iter()
        invariant
            ut.seq() == units0,
            out@ == base + units_outputs(units0.take(ut.index() as int)),
    {
        let ghost c = ut.index();
        let ghost before = out@;
        let ghost items0 = items@;
        assert(items0.take(0) =~= Seq::<MonoItem>::empty());
        assert(before + unit_outputs(items0.take(0)) =~= before);
        for item in jt: items.into_iter()
            invariant
                jt.seq() == items0,
                out@ == before + unit_outputs(items0.take(jt.index() as int)),
        {
            let ghost j = jt.index();
            assert(items0.take(j + 1).drop_last() =~= items0.take(j as int));
            assert(items0.take(j + 1).last() == item);
            match item {
                MonoItem::Fn(inst) => {
                    if is_output(&inst.def) {
                        let Instance { def, args, symbol } = inst;
                        let entry = ExportEntry {
                            symbol: ExportedSymbol::Generic(def.id, args),
                            name: symbol,
                            info: output_info(),
                        };
                        out.push(entry);
                        assert(before + unit_outputs(items0.take(j + 1)) =~= (before
                            + unit_outputs(items0.take(j as int))).push(entry));
                    }
                },
                MonoItem::Other => {},
            }
        }
        assert(items0.take(items0.len() as int) =~= items0);
        proof {
            let t = units0.take(c + 1);
            assert(t.drop_last() =~= units0.take(c as int));
            assert(t.last() == items);
            assert(base + units_outputs(t) =~= base + units_outputs(units0.take(c as int))
                + unit_outputs(items0));
        }
    }
    assert(units0.take(units0.len() as int) =~= units0);
}

/// Appends the final `output` instances to `out`, each by its name alone.
fn push_named_outputs(out: &mut Vec<ExportEntry>, outs: Vec<Instance>)
    ensures
        final(out)@ == old(out)@ + named_outputs(outs@),
{
    broadcast use vstd::std_specs::vec::axiom_spec_into_iter;

    let ghost outs0 = outs@;
    let ghost base = out@;
    assert(base + named_outputs(outs0.take(0)) =~= base);
    for inst in it: outs.into_iter()
        invariant
            it.seq() == outs0,
            out@ == base + named_outputs(outs0.take(it.index() as int)),
    {
        let ghost i = it.index();
        assert(inst == outs0[i as int]);
        let Instance { def: _, args: _, symbol } = inst;
        let entry = ExportEntry { symbol: ExportedSymbol::NoDefId, name: symbol, info: output_info() };
        out.push(entry);
        assert(base + named_outputs(outs0.take(i + 1)) =~= (base + named_outputs(
            outs0.take(i as int),
        )).push(entry));
    }
    assert(outs0.take(outs0.len() as int) =~= outs0);
}

/// The exported symbols a crate records in its metadata. A crate that
/// generates code adds its output getters: a library each `output` instance
/// of its codegen units (which the compiler would leave out of the generic
/// exports), an application each final `output` instance by name (so that
/// link-time optimisation keeps it). The result is ordered by name with
/// repeats of a symbol dropped, so that metadata has a fixed order.
pub fn export_outputs(
    should_codegen: bool,
    has_entry_fn: bool,
    own_exports: Vec<ExportEntry>,
    units: Vec<Vec<MonoItem>>,
    crates: Vec<Vec<GenericExport>>,
) -> (r: Vec<ExportEntry>)
    ensures
        r@ == final_exports(should_codegen, has_entry_fn, own_exports@, units@, crates@),
        should_codegen ==> forall|j: int|
            0 <= j < own_exports@.len() ==> exists|m: int|
                0 <= m < r@.len() && (#[trigger] r@[m]).symbol == (#[trigger] own_exports@[j]).symbol
                    && (own_exports@[j].symbol is NoDefId ==> r@[m].name@ == own_exports@[j].name@),
        should_codegen && !has_entry_fn ==> forall|u: int, k: int|
            #[trigger] unit_output_at(units@, u, k) ==> exists|m: int|
                0 <= m < r@.len() && (#[trigger] r@[m]).symbol == ExportedSymbol::Generic(
                    unit_item_at(units@, u, k).def.id,
                    unit_item_at(units@, u, k).args,
                ),
        should_codegen && has_entry_fn ==> forall|q: int|
            0 <= q < final_outputs(crates@).len() ==> exists|m: int|
                0 <= m < r@.len() && (#[trigger] r@[m]).symbol is NoDefId && r@[m].name@ == (
                #[trigger] final_outputs(crates@)[q]).symbol@,
{
    if !should_codegen {
        return own_exports;
    }
    proof {
        lemma_exports_keep(has_entry_fn, own_exports@, units@, crates@);
    }
    let mut symbols = own_exports;
    if !has_entry_fn {
        push_unit_outputs(&mut symbols, units);
    } else {
        let outs = outputs(crates);
        push_named_outputs(&mut symbols, outs);
    }
    let sorted = sort_by_rank(symbols);
    dedup_by_same(sorted)
}

/// The exports are ordered by name, no symbol follows itself, and every
/// symbol the crate exported before is still exported.
pub proof fn lemma_final_exports(
    should_codegen: bool,
    has_entry_fn: bool,
    own_exports: Seq<ExportEntry>,
    units: Seq<Vec<MonoItem>>,
    crates: Seq<Vec<GenericExport>>,
)
    requires
        should_codegen,
    ensures
        is_rank_sorted(final_exports(should_codegen, has_entry_fn, own_exports, units, crates)),
        forall|k: int|
            0 <= k < final_exports(should_codegen, has_entry_fn, own_exports, units, crates).len() - 1
                ==> !(#[trigger] final_exports(
                should_codegen,
                has_entry_fn,
                own_exports,
                units,
                crates,
            )[k]).same_as(
                &final_exports(should_codegen, has_entry_fn, own_exports, units, crates)[k + 1],
            ),
        forall|j: int|
            0 <= j < own_exports.len() ==> represented_in(
                final_exports(should_codegen, has_entry_fn, own_exports, units, crates),
                #[trigger] own_exports[j],
            ),
{
    broadcast use vstd::seq_lib::to_multiset_contains;

    let added = if has_entry_fn {
        named_outputs(final_outputs(crates))
    } else {
        units_outputs(units)
    };
    let s = own_exports + added;
    let sorted = sort_ranked(s);
    lemma_sort_sorted(s);
    lemma_sort_permutation(s);
    lemma_dedup_sorted(sorted);
    lemma_dedup_no_adjacent_repeat(sorted);
    lemma_dedup_members(sorted);
    assert forall|j: int| 0 <= j < own_exports.len() implies represented_in(
        dedup_same(sorted),
        #[trigger] own_exports[j],
    ) by {
        let x = own_exports[j];
        assert(s[j] == x);
        assert(s.to_multiset().count(x) > 0);
        assert(sorted.to_multiset().count(x) > 0);
        let i = choose|i: int| 0 <= i < sorted.len() && sorted[i] == x;
        assert(represented_in(dedup_same(sorted), sorted[i]));
    }
}

/// Every export that a library adds for its output getters is a generic
/// symbol exported as a used Rust-level function.
proof fn lemma_units_outputs_shape(units: Seq<Vec<MonoItem>>)
    ensures
        forall|k: int|
            0 <= k < units_outputs(units).len() ==> (#[trigger] units_outputs(units)[k]).symbol is Generic
                && units_outputs(units)[k].info == output_export_info(),
    decreases units.len(),
{
    if units.len() > 0 {
        lemma_units_outputs_shape(units.drop_last());
        lemma_unit_outputs_shape(units.last()@);
        let a = units_outputs(units.drop_last());
        let b = unit_outputs(units.last()@);
        assert forall|k: int| 0 <= k < (a + b).len() implies (#[trigger] (a + b)[k]).symbol is Generic
            && (a + b)[k].info == output_export_info() by {
            if k < a.len() {
                assert((a + b)[k] == a[k]);
            } else {
                assert((a + b)[k] == b[k - a.len()]);
            }
        }
    }
}

proof fn lemma_unit_outputs_shape(items: Seq<MonoItem>)
    ensures
        forall|k: int|
            0 <= k < unit_outputs(items).len() ==> (#[trigger] unit_outputs(items)[k]).symbol is Generic
                && unit_outputs(items)[k].info == output_export_info(),
    decreases items.len(),
{
    if items.len() > 0 {
        lemma_unit_outputs_shape(items.drop_last());
        let p = unit_outputs(items.drop_last());
        let t = unit_outputs(items);
        assert forall|k: int| 0 <= k < t.len() implies (#[trigger] t[k]).symbol is Generic
            && t[k].info == output_export_info() by {
            if k < p.len() {
                assert(t[k] == p[k]);
            }
        }
    }
}

/// Codegen units and their items come in no fixed order; the exports that a
/// library records do not depend on it. Where names identify symbols, the
/// same output items, in any order, give the same exports: the same
/// symbols, names and export information, in the same order.
pub proof fn lemma_exports_independent_of_unit_order(
    has_entry_fn: bool,
    own_exports: Seq<ExportEntry>,
    units1: Seq<Vec<MonoItem>>,
    units2: Seq<Vec<MonoItem>>,
    crates: Seq<Vec<GenericExport>>,
)
    requires
        units_outputs(units1).to_multiset() == units_outputs(units2).to_multiset(),
        names_identify(own_exports + units_outputs(units1)),
    ensures
        final_exports(true, has_entry_fn, own_exports, units1, crates).map_values(
            |e: ExportEntry| e@,
        ) == final_exports(true, has_entry_fn, own_exports, units2, crates).map_values(
            |e: ExportEntry| e@,
        ),
{
    if !has_entry_fn {
        let a1 = units_outputs(units1);
        let s = own_exports + a1;
        lemma_units_outputs_shape(units1);
        assert forall|i: int, j: int|
            0 <= i < a1.len() && 0 <= j < a1.len() && (#[trigger] a1[i]).rank() == (
            #[trigger] a1[j]).rank() implies a1[i]@ == a1[j]@ by {
            let n = own_exports.len() as int;
            assert(s[n + i] == a1[i]);
            assert(s[n + j] == a1[j]);
            assert(s[n + i].same_as(&s[n + j]));
        }
        let key = |e: ExportEntry| e@;
        assert(ranks_fix_keys(a1, key));
        lemma_canonical_order_independent(own_exports, a1, units_outputs(units2), key);
        let d1 = final_exports(true, has_entry_fn, own_exports, units1, crates);
        let d2 = final_exports(true, has_entry_fn, own_exports, units2, crates);
        assert(d1.map_values(|e: ExportEntry| e@) =~= d1.map_values(|x: ExportEntry| key(x)));
        assert(d2.map_values(|e: ExportEntry| e@) =~= d2.map_values(|x: ExportEntry| key(x)));
    }
}

impl View for ExportEntry {
    type V = (ExportedSymbol, Seq<u8>, ExportInfo);

    open spec fn view(&self) -> (ExportedSymbol, Seq<u8>, ExportInfo) {
        (self.symbol, self.name@, self.info)
    }
}

/// An instance by what tells it apart: its definition, its arguments and its
/// symbol name.
pub open spec fn instance_key(i: Instance) -> (u64, u64, Seq<u8>) {
    (i.def.id, i.args, i.symbol@)
}

/// The final output instances do not depend on the order in which the
/// compiler lists crates and their exports: where distinct instances have
/// distinct symbol names (and an instance has one name), the same exported
/// instances, in any order, give the same instances in the same order.
pub proof fn lemma_outputs_independent_of_crate_order(
    crates1: Seq<Vec<GenericExport>>,
    crates2: Seq<Vec<GenericExport>>,
)
    requires
        crates_outputs(crates1).to_multiset() == crates_outputs(crates2).to_multiset(),
        names_identify(crates_outputs(crates1)),
    ensures
        final_outputs(crates1).map_values(|i: Instance| instance_key(i)) == final_outputs(
            crates2,
        ).map_values(|i: Instance| instance_key(i)),
{
    let e = Seq::<Instance>::empty();
    let a1 = crates_outputs(crates1);
    let a2 = crates_outputs(crates2);
    assert(e + a1 =~= a1);
    assert(e + a2 =~= a2);
    let key = |i: Instance| instance_key(i);
    assert(ranks_fix_keys(a1, key)) by {
        assert forall|i: int, j: int|
            0 <= i < a1.len() && 0 <= j < a1.len() && (#[trigger] a1[i]).rank() == (
            #[trigger] a1[j]).rank() implies key(a1[i]) == key(a1[j]) by {
            assert(a1[i].same_as(&a1[j]));
        }
    }
    lemma_canonical_order_independent(e, a1, a2, key);
    let d1 = final_outputs(crates1);
    let d2 = final_outputs(crates2);
    assert(d1.map_values(|i: Instance| instance_key(i)) =~= d1.map_values(|x: Instance| key(x)));
    assert(d2.map_values(|i: Instance| instance_key(i)) =~= d2.map_values(|x: Instance| key(x)));
}

/// The export is an instance of this library's `output` getter.
pub open spec fn is_output_export(e: GenericExport) -> bool {
    e matches GenericExport::Generic(i) && is_output_def(i.def)
}

/// The `k`-th generic export of the `c`-th dependency is an `output`
/// instance.
pub open spec fn exports_output_at(cs: Seq<Vec<GenericExport>>, c: int, k: int) -> bool {
    &&& 0 <= c < cs.len()
    &&& 0 <= k < cs[c]@.len()
    &&& is_output_export(cs[c]@[k])
}

/// The instance exported at `k` of the `c`-th dependency.
pub open spec fn exported_at(cs: Seq<Vec<GenericExport>>, c: int, k: int) -> Instance {
    cs[c]@[k]->Generic_0
}

/// `x` is an `output` instance in the list `s`.
pub open spec fn listed_output(s: Seq<GenericExport>, x: Instance) -> bool {
    exists|k: int| 0 <= k < s.len() && #[trigger] is_output_export(s[k]) && s[k]->Generic_0 == x
}

/// `x` is an `output` instance that some dependency exports.
pub open spec fn exported_by(cs: Seq<Vec<GenericExport>>, x: Instance) -> bool {
    exists|c: int, k: int| #[trigger] exports_output_at(cs, c, k) && exported_at(cs, c, k) == x
}

/// Every `output` instance of a crate's list is collected, wherever it
/// stands, and everything collected is one of them.
proof fn lemma_exported_outputs_members(s: Seq<GenericExport>)
    ensures
        forall|k: int|
            0 <= k < s.len() && #[trigger] is_output_export(s[k]) ==> exported_outputs(s).contains(
                s[k]->Generic_0,
            ),
        forall|m: int|
            0 <= m < exported_outputs(s).len() ==> listed_output(s, #[trigger] exported_outputs(s)[m]),
    decreases s.len(),
{
    if s.len() > 0 {
        let p = s.drop_last();
        lemma_exported_outputs_members(p);
        let a = exported_outputs(p);
        let e = exported_outputs(s);
        let n = s.len() - 1;
        assert(is_output_export(s[n]) ==> e == a.push(s[n]->Generic_0));
        assert(!is_output_export(s[n]) ==> e == a);
        assert forall|k: int| 0 <= k < s.len() && #[trigger] is_output_export(s[k]) implies e.contains(
            s[k]->Generic_0,
        ) by {
            if k < n {
                assert(s[k] == p[k]);
                assert(is_output_export(p[k]));
                let q = choose|q: int| 0 <= q < a.len() && a[q] == p[k]->Generic_0;
                assert(e[q] == a[q]);
            } else {
                assert(e[a.len() as int] == s[k]->Generic_0);
            }
        }
        assert forall|m: int| 0 <= m < e.len() implies listed_output(s, #[trigger] e[m]) by {
            if m < a.len() {
                assert(e[m] == a[m]);
                assert(listed_output(p, a[m]));
                let k = choose|k: int|
                    0 <= k < p.len() && #[trigger] is_output_export(p[k]) && p[k]->Generic_0 == a[m];
                assert(s[k] == p[k]);
                assert(is_output_export(s[k]));
            } else {
                assert(is_output_export(s[n]));
                assert(e[m] == s[n]->Generic_0);
                assert(listed_output(s, e[m]));
            }
        }
    }
}

/// Every `output` instance of every dependency is collected, and everything
/// collected is one of them.
proof fn lemma_crates_outputs_members(cs: Seq<Vec<GenericExport>>)
    ensures
        forall|c: int, k: int|
            #[trigger] exports_output_at(cs, c, k) ==> crates_outputs(cs).contains(exported_at(cs, c, k)),
        forall|m: int|
            0 <= m < crates_outputs(cs).len() ==> exported_by(cs, #[trigger] crates_outputs(cs)[m]),
    decreases cs.len(),
{
    if cs.len() > 0 {
        let p = cs.drop_last();
        let n = cs.len() - 1;
        let last = cs[n]@;
        lemma_crates_outputs_members(p);
        lemma_exported_outputs_members(last);
        let a = crates_outputs(p);
        let b = exported_outputs(last);
        let e = crates_outputs(cs);
        assert(e == a + b);
        assert forall|c: int, k: int| #[trigger] exports_output_at(cs, c, k) implies e.contains(
            exported_at(cs, c, k),
        ) by {
            if c < n {
                assert(cs[c] == p[c]);
                assert(exports_output_at(p, c, k));
                let q = choose|q: int| 0 <= q < a.len() && a[q] == exported_at(p, c, k);
                assert(e[q] == a[q]);
            } else {
                assert(is_output_export(last[k]));
                let q = choose|q: int| 0 <= q < b.len() && b[q] == last[k]->Generic_0;
                assert(e[a.len() + q] == b[q]);
            }
        }
        assert forall|m: int| 0 <= m < e.len() implies exported_by(cs, #[trigger] e[m]) by {
            if m < a.len() {
                assert(e[m] == a[m]);
                assert(exported_by(p, a[m]));
                let (c, k) = choose|c: int, k: int|
                    #[trigger] exports_output_at(p, c, k) && exported_at(p, c, k) == a[m];
                assert(cs[c] == p[c]);
                assert(exports_output_at(cs, c, k));
                assert(exported_at(cs, c, k) == e[m]);
            } else {
                assert(e[m] == b[m - a.len()]);
                assert(listed_output(last, b[m - a.len()]));
                let k = choose|k: int|
                    0 <= k < last.len() && #[trigger] is_output_export(last[k]) && last[k]->Generic_0
                        == b[m - a.len()];
                assert(exports_output_at(cs, n, k));
                assert(exported_at(cs, n, k) == e[m]);
            }
        }
    }
}

/// The final outputs are exactly the `output` instances that the
/// dependencies export: each one exported anywhere in any dependency's list
/// has a final output with its definition and arguments, and each final
/// output is exported by some dependency.
pub proof fn lemma_outputs_cover_exports(cs: Seq<Vec<GenericExport>>)
    ensures
        forall|c: int, k: int|
            #[trigger] exports_output_at(cs, c, k) ==> exists|m: int|
                0 <= m < final_outputs(cs).len() && (#[trigger] final_outputs(cs)[m]).def.id
                    == exported_at(cs, c, k).def.id && final_outputs(cs)[m].args == exported_at(
                    cs,
                    c,
                    k,
                ).args,
        forall|m: int|
            0 <= m < final_outputs(cs).len() ==> exported_by(cs, #[trigger] final_outputs(cs)[m]),
{
    lemma_final_outputs(cs);
    lemma_crates_outputs_members(cs);
    let a = crates_outputs(cs);
    let f = final_outputs(cs);
    assert forall|c: int, k: int| #[trigger] exports_output_at(cs, c, k) implies exists|m: int|
        0 <= m < f.len() && (#[trigger] f[m]).def.id == exported_at(cs, c, k).def.id && f[m].args
            == exported_at(cs, c, k).args by {
        let x = exported_at(cs, c, k);
        let j = choose|j: int| 0 <= j < a.len() && a[j] == x;
        assert(represented_in(f, a[j]));
        let m = choose|m: int| 0 <= m < f.len() && stands_for(#[trigger] f[m], a[j]);
        assert(f[m].def.id == x.def.id && f[m].args == x.args);
    }
    assert forall|m: int| 0 <= m < f.len() implies exported_by(cs, #[trigger] f[m]) by {
        assert(a.contains(f[m]));
        let j = choose|j: int| 0 <= j < a.len() && a[j] == f[m];
        assert(0 <= j < a.len());
    }
}

/// Two exports stand for the same thing exactly when they are the same
/// symbol; a symbol known only by its name is the same where the names are.
pub proof fn lemma_same_export_is_same_symbol(a: ExportEntry, b: ExportEntry)
    ensures
        a.same_as(&b) <==> (a.symbol == b.symbol && (a.symbol is NoDefId ==> a.name@ == b.name@)),
{
}

/// The export that a library adds for an `output` instance.
pub open spec fn output_entry(i: Instance) -> ExportEntry {
    ExportEntry {
        symbol: ExportedSymbol::Generic(i.def.id, i.args),
        name: i.symbol,
        info: output_export_info(),
    }
}

/// The item is an instance of this library's `output` getter.
pub open spec fn is_output_item(item: MonoItem) -> bool {
    item matches MonoItem::Fn(i) && is_output_def(i.def)
}

/// The `k`-th item of the `u`-th codegen unit is an `output` instance.
pub open spec fn unit_output_at(units: Seq<Vec<MonoItem>>, u: int, k: int) -> bool {
    &&& 0 <= u < units.len()
    &&& 0 <= k < units[u]@.len()
    &&& is_output_item(units[u]@[k])
}

/// The instance at `k` of the `u`-th codegen unit.
pub open spec fn unit_item_at(units: Seq<Vec<MonoItem>>, u: int, k: int) -> Instance {
    units[u]@[k]->Fn_0
}

/// Every `output` instance of a unit gets its export, wherever it stands.
proof fn lemma_unit_outputs_members(items: Seq<MonoItem>)
    ensures
        forall|k: int|
            0 <= k < items.len() && #[trigger] is_output_item(items[k]) ==> unit_outputs(items).contains(
                output_entry(items[k]->Fn_0),
            ),
    decreases items.len(),
{
    if items.len() > 0 {
        let p = items.drop_last();
        lemma_unit_outputs_members(p);
        let a = unit_outputs(p);
        let e = unit_outputs(items);
        let n = items.len() - 1;
        assert(is_output_item(items[n]) ==> e == a.push(output_entry(items[n]->Fn_0)));
        assert(!is_output_item(items[n]) ==> e == a);
        assert forall|k: int| 0 <= k < items.len() && #[trigger] is_output_item(items[k]) implies e.contains(
            output_entry(items[k]->Fn_0),
        ) by {
            if k < n {
                assert(items[k] == p[k]);
                assert(is_output_item(p[k]));
                let q = choose|q: int| 0 <= q < a.len() && a[q] == output_entry(p[k]->Fn_0);
                assert(e[q] == a[q]);
            } else {
                assert(e[a.len() as int] == output_entry(items[k]->Fn_0));
            }
        }
    }
}

/// Every `output` instance of every codegen unit gets its export.
proof fn lemma_units_outputs_members(units: Seq<Vec<MonoItem>>)
    ensures
        forall|u: int, k: int|
            #[trigger] unit_output_at(units, u, k) ==> units_outputs(units).contains(
                output_entry(unit_item_at(units, u, k)),
            ),
    decreases units.len(),
{
    if units.len() > 0 {
        let p = units.drop_last();
        let n = units.len() - 1;
        let last = units[n]@;
        lemma_units_outputs_members(p);
        lemma_unit_outputs_members(last);
        let a = units_outputs(p);
        let b = unit_outputs(last);
        let e = units_outputs(units);
        assert(e == a + b);
        assert forall|u: int, k: int| #[trigger] unit_output_at(units, u, k) implies e.contains(
            output_entry(unit_item_at(units, u, k)),
        ) by {
            if u < n {
                assert(units[u] == p[u]);
                assert(unit_output_at(p, u, k));
                let q = choose|q: int| 0 <= q < a.len() && a[q] == output_entry(unit_item_at(p, u, k));
                assert(e[q] == a[q]);
            } else {
                assert(is_output_item(last[k]));
                let q = choose|q: int| 0 <= q < b.len() && b[q] == output_entry(last[k]->Fn_0);
                assert(e[a.len() + q] == b[q]);
            }
        }
    }
}

/// An entry of `s` is kept by sorting and removing repeats: some kept
/// export is the same symbol (for a symbol known only by name, under the
/// same name).
proof fn lemma_kept_after_sort_dedup(s: Seq<ExportEntry>, x: ExportEntry)
    requires
        s.contains(x),
    ensures
        exists|m: int|
            0 <= m < dedup_same(sort_ranked(s)).len() && (#[trigger] dedup_same(sort_ranked(s))[m]).symbol
                == x.symbol && (x.symbol is NoDefId ==> dedup_same(sort_ranked(s))[m].name@
                == x.name@),
{
    broadcast use vstd::seq_lib::to_multiset_contains;

    let sorted = sort_ranked(s);
    lemma_sort_permutation(s);
    lemma_dedup_members(sorted);
    assert(s.to_multiset().count(x) > 0);
    assert(sorted.to_multiset().count(x) > 0);
    let i = choose|i: int| 0 <= i < sorted.len() && sorted[i] == x;
    assert(represented_in(dedup_same(sorted), sorted[i]));
    let d = dedup_same(sorted);
    let m = choose|m: int| 0 <= m < d.len() && stands_for(#[trigger] d[m], sorted[i]);
    lemma_same_export_is_same_symbol(d[m], x);
}

/// What the exports keep. A crate that generates code keeps each of its own
/// exports (the same symbol; for a symbol known only by its name, under that
/// name). A library exports, as a generic symbol, every `output` instance
/// of every codegen unit, wherever it stands. An application exports every
/// final `output` instance by its name.
pub proof fn lemma_exports_keep(
    has_entry_fn: bool,
    own_exports: Seq<ExportEntry>,
    units: Seq<Vec<MonoItem>>,
    crates: Seq<Vec<GenericExport>>,
)
    ensures
        forall|j: int|
            0 <= j < own_exports.len() ==> exists|m: int|
                0 <= m < final_exports(true, has_entry_fn, own_exports, units, crates).len() && (
                #[trigger] final_exports(true, has_entry_fn, own_exports, units, crates)[m]).symbol
                    == (#[trigger] own_exports[j]).symbol && (own_exports[j].symbol is NoDefId
                    ==> final_exports(true, has_entry_fn, own_exports, units, crates)[m].name@
                    == own_exports[j].name@),
        !has_entry_fn ==> forall|u: int, k: int|
            #[trigger] unit_output_at(units, u, k) ==> exists|m: int|
                0 <= m < final_exports(true, has_entry_fn, own_exports, units, crates).len() && (
                #[trigger] final_exports(true, has_entry_fn, own_exports, units, crates)[m]).symbol
                    == ExportedSymbol::Generic(
                    unit_item_at(units, u, k).def.id,
                    unit_item_at(units, u, k).args,
                ),
        has_entry_fn ==> forall|q: int|
            0 <= q < final_outputs(crates).len() ==> exists|m: int|
                0 <= m < final_exports(true, has_entry_fn, own_exports, units, crates).len() && (
                #[trigger] final_exports(true, has_entry_fn, own_exports, units, crates)[m]).symbol
                    is NoDefId && final_exports(true, has_entry_fn, own_exports, units, crates)[m].name@
                    == (#[trigger] final_outputs(crates)[q]).symbol@,
{
    let added = if has_entry_fn {
        named_outputs(final_outputs(crates))
    } else {
        units_outputs(units)
    };
    let s = own_exports + added;
    assert(final_exports(true, has_entry_fn, own_exports, units, crates) == dedup_same(sort_ranked(s)));
    assert forall|j: int| 0 <= j < own_exports.len() implies exists|m: int|
        0 <= m < dedup_same(sort_ranked(s)).len() && (#[trigger] dedup_same(sort_ranked(s))[m]).symbol
            == (#[trigger] own_exports[j]).symbol && (own_exports[j].symbol is NoDefId
            ==> dedup_same(sort_ranked(s))[m].name@ == own_exports[j].name@) by {
        assert(s[j] == own_exports[j]);
        lemma_kept_after_sort_dedup(s, own_exports[j]);
    }
    if !has_entry_fn {
        lemma_units_outputs_members(units);
        assert forall|u: int, k: int| #[trigger] unit_output_at(units, u, k) implies exists|m: int|
            0 <= m < dedup_same(sort_ranked(s)).len() && (#[trigger] dedup_same(
                sort_ranked(s),
            )[m]).symbol == ExportedSymbol::Generic(
                unit_item_at(units, u, k).def.id,
                unit_item_at(units, u, k).args,
            ) by {
            let x = output_entry(unit_item_at(units, u, k));
            let q = choose|q: int| 0 <= q < added.len() && added[q] == x;
            assert(s[own_exports.len() + q] == x);
            lemma_kept_after_sort_dedup(s, x);
        }
    } else {
        let f = final_outputs(crates);
        assert forall|q: int| 0 <= q < f.len() implies exists|m: int|
            0 <= m < dedup_same(sort_ranked(s)).len() && (#[trigger] dedup_same(
                sort_ranked(s),
            )[m]).symbol is NoDefId && dedup_same(sort_ranked(s))[m].name@ == (
            #[trigger] f[q]).symbol@ by {
            let x = added[q];
            assert(s[own_exports.len() + q] == x);
            lemma_kept_after_sort_dedup(s, x);
        }
    }
}

} // verus!
