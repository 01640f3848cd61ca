//! Which statics are records, and the ordered slice that `Records::<T>::ITEMS`
//! evaluates to.
use vstd::prelude::*;

use core::marker::PhantomData;

use crate::bytes::{
    append_bytes, bytes_equal, is_prefix, items_const, items_const_bytes, library_crate,
    library_crate_bytes, record_prefix, record_prefix_bytes, starts_with,
};
use crate::register::{lemma_record_symbol_is_registered, record_symbol_of};
use crate::order::{Ranked, is_rank_sorted, lemma_sort_order_independent, ranks_identify, lemma_sort_permutation, lemma_sort_sorted, sort_by_rank, sort_ranked};

verus! {

/// A definition as the record search reads it.
pub struct StaticDef {
    /// The definition; a record's slot in `ITEMS` points at it.
    pub id: u64,
    /// The definition is a `static` item.
    pub is_static: bool,
    /// The type of the definition.
    pub ty: u64,
    /// The symbol name that its codegen attributes give it, if any.
    pub symbol: Option<Vec<u8>>,
}

/// An entry of a dependency's exported non-generic symbols.
pub enum CrateExport {
    /// A symbol that stands for a definition.
    NonGeneric(StaticDef),
    /// Any other kind of exported symbol.
    Other,
}

/// A record: a registered static and its symbol name.
pub struct Record {
    pub id: u64,
    pub symbol: Vec<u8>,
}

impl Ranked for Record {
    open spec fn rank(&self) -> Seq<u8> {
        self.symbol@
    }

    fn rank_bytes(&self) -> (r: &Vec<u8>) {
        &self.symbol
    }
}

/// A definition is a record: a static whose symbol name starts with the
/// record prefix.
pub open spec fn is_registered(d: StaticDef) -> bool {
    d.is_static && d.symbol is Some && is_prefix(record_prefix(), d.symbol->Some_0@)
}

/// The records among `s`, in order.
pub open spec fn registered_in(s: Seq<StaticDef>) -> Seq<StaticDef>
    decreases s.len(),
{
    if s.len() == 0 {
        Seq::empty()
    } else if is_registered(s.last()) {
        registered_in(s.drop_last()).push(s.last())
    } else {
        registered_in(s.drop_last())
    }
}

/// The records among a crate's exported non-generic symbols, in order.
pub open spec fn exported_registered(s: Seq<CrateExport>) -> Seq<StaticDef>
    decreases s.len(),
{
    if s.len() == 0 {
        Seq::empty()
    } else {
        match s.last() {
            CrateExport::NonGeneric(d) => if is_registered(d) {
                exported_registered(s.drop_last()).push(d)
            } else {
                exported_registered(s.drop_last())
            },
            CrateExport::Other => exported_registered(s.drop_last()),
        }
    }
}

/// The records that the dependencies export, crate after crate.
pub open spec fn crates_registered(cs: Seq<Vec<CrateExport>>) -> Seq<StaticDef>
    decreases cs.len(),
{
    if cs.len() == 0 {
        Seq::empty()
    } else {
        crates_registered(cs.drop_last()) + exported_registered(cs.last()@)
    }
}

/// Every record that the compiling crate can see: its own, then those of
/// its dependencies.
pub open spec fn all_registrations(
    local: Seq<StaticDef>,
    crates: Seq<Vec<CrateExport>>,
) -> Seq<StaticDef> {
    registered_in(local) + crates_registered(crates)
}

/// The records of type `ty` among `s`, in order.
pub open spec fn records_of(s: Seq<StaticDef>, ty: u64) -> Seq<Record>
    decreases s.len(),
{
    if s.len() == 0 {
        Seq::empty()
    } else if s.last().ty == ty {
        records_of(s.drop_last(), ty).push(
            Record { id: s.last().id, symbol: s.last().symbol->Some_0 },
        )
    } else {
        records_of(s.drop_last(), ty)
    }
}

/// The statics that the records point at.
pub open spec fn statics_of(s: Seq<Record>) -> Seq<u64> {
    s.map_values(|r: Record| r.id)
}

/// The statics that `ITEMS` of type `ty` holds: the visible records of that
/// type, ordered by symbol name.
pub open spec fn items_for(
    ty: u64,
    local: Seq<StaticDef>,
    crates: Seq<Vec<CrateExport>>,
) -> Seq<u64> {
    statics_of(sort_ranked(records_of(all_registrations(local, crates), ty)))
}

/// Tells whether a definition is a record.
pub fn registered(def: &StaticDef) -> (r: bool)
    ensures
        r == is_registered(*def),
{
    if !def.is_static {
        return false;
    }
    match &def.symbol {
        Some(name) => {
            let prefix = record_prefix_bytes();
            starts_with(name, &prefix)
        },
        None => false,
    }
}

/// The records that the compiling crate can see: its own definitions that
/// are records, then each dependency's exported records, crate after crate.
pub fn registrations(local: Vec<StaticDef>, crates: Vec<Vec<CrateExport>>) -> (r: Vec<StaticDef>)
    ensures
        r@ == all_registrations(local@, crates@),
{
    broadcast use vstd::std_specs::vec::axiom_spec_into_iter;

    let ghost local0 = local@;
    let ghost crates0 = crates@;
    let mut out: Vec<StaticDef> = Vec::new();
    assert(local0.take(0) =~= Seq::<StaticDef>::empty());
    for d in it: local.into_iter()
        invariant
            it.seq() == local0,
            out@ == registered_in(local0.take(it.index() as int)),
    {
        proof {
            let i = it.index();
            assert(local0.take(i + 1).drop_last() =~= local0.take(i as int));
            assert(local0.take(i + 1).last() == d);
        }
        if registered(&d) {
            out.push(d);
        }
    }
    assert(local0.take(local0.len() as int) =~= local0);
    let ghost base = out@;
    assert(crates0.take(0) =~= Seq::<Vec<CrateExport>>::empty());
    assert(base + crates_registered(crates0.take(0)) =~= base);
    for exports in ct: crates.into_iter()
        invariant
            ct.seq() == crates0,
            out@ == base + crates_registered(crates0.take(ct.index() as int)),
    {
        let ghost c = ct.index();
        let ghost before = out@;
        let ghost ex0 = exports@;
        assert(ex0.take(0) =~= Seq::<CrateExport>::empty());
        assert(before + exported_registered(ex0.take(0)) =~= before);
        for e in et: exports.into_iter()
            invariant
                et.seq() == ex0,
                out@ == before + exported_registered(ex0.take(et.index() as int)),
        {
            let ghost j = et.index();
            assert(ex0.take(j + 1).drop_last() =~= ex0.take(j as int));
            assert(ex0.take(j + 1).last() == e);
            match e {
                CrateExport::NonGeneric(d) => {
                    if registered(&d) {
                        out.push(d);
                        assert(before + exported_registered(ex0.take(j + 1)) =~= (before
                            + exported_registered(ex0.take(j as int))).push(d));
                    }
                },
                CrateExport::Other => {},
            }
        }
        assert(ex0.take(ex0.len() as int) =~= ex0);
        proof {
            let t = crates0.take(c + 1);
            assert(t.drop_last() =~= crates0.take(c as int));
            assert(t.last() == exports);
            assert(base + crates_registered(t) =~= base + crates_registered(crates0.take(c as int))
                + exported_registered(ex0));
        }
    }
    assert(crates0.take(crates0.len() as int) =~= crates0);
    out
}

/// The records of type `ty` among `regs`, ordered by symbol name.
fn records_in_order(ty: u64, regs: Vec<StaticDef>) -> (r: Vec<Record>)
    requires
        forall|k: int| 0 <= k < regs@.len() ==> is_registered(#[trigger] regs@[k]),
    ensures
        r@ == sort_ranked(records_of(regs@, ty)),
{
    broadcast use vstd::std_specs::vec::axiom_spec_into_iter;

    let ghost regs0 = regs@;
    let mut found: Vec<Record> = Vec::new();
    assert(regs0.take(0) =~= Seq::<StaticDef>::empty());
    for d in it: regs.into_iter()
        invariant
            it.seq() == regs0,
            found@ == records_of(regs0.take(it.index() as int), ty),
            forall|k: int| 0 <= k < regs0.len() ==> is_registered(#[trigger] regs0[k]),
    {
        proof {
            let i = it.index();
            assert(regs0.take(i + 1).drop_last() =~= regs0.take(i as int));
            assert(regs0.take(i + 1).last() == d);
            assert(is_registered(regs0[i as int]));
        }
        if d.ty == ty {
            let StaticDef { id, is_static: _, ty: _, symbol } = d;
            match symbol {
                Some(name) => {
                    found.push(Record { id, symbol: name });
                },
                None => {},
            }
        }
    }
    assert(regs0.take(regs0.len() as int) =~= regs0);
    sort_by_rank(found)
}

/// The statics that the records point at.
fn statics_in(records: &Vec<Record>) -> (r: Vec<u64>)
    ensures
        r@ == statics_of(records@),
{
    let mut out: Vec<u64> = Vec::new();
    let mut i: usize = 0;
    while i < records.len()
        invariant
            i <= records.len(),
            out@ == statics_of(records@.take(i as int)),
        decreases records.len() - i,
    {
        out.push(records[i].id);
        i += 1;
        assert(statics_of(records@.take(i as int)) =~= statics_of(records@.take(i - 1)).push(
            records@[i - 1].id,
        ));
    }
    assert(records@.take(records.len() as int) =~= records@);
    out
}

/// The records of one type that the compiling crate can see, ordered by
/// symbol name: the statics that `ITEMS` points at, in order.
pub fn collect_statics(ty: u64, local: Vec<StaticDef>, crates: Vec<Vec<CrateExport>>) -> (r: Vec<
    u64,
>)
    ensures
        r@ == items_for(ty, local@, crates@),
{
    let ghost l = local@;
    let ghost c = crates@;
    let regs = registrations(local, crates);
    proof {
        lemma_all_registered(l, c);
    }
    let ordered = records_in_order(ty, regs);
    statics_in(&ordered)
}

proof fn lemma_registered_in(s: Seq<StaticDef>)
    ensures
        forall|k: int| 0 <= k < registered_in(s).len() ==> is_registered(#[trigger] registered_in(s)[k]),
    decreases s.len(),
{
    if s.len() > 0 {
        lemma_registered_in(s.drop_last());
        let p = registered_in(s.drop_last());
        let t = registered_in(s);
        assert forall|k: int| 0 <= k < t.len() implies is_registered(#[trigger] t[k]) by {
            if k < p.len() {
                assert(t[k] == p[k]);
            }
        }
    }
}

proof fn lemma_exported_registered(s: Seq<CrateExport>)
    ensures
        forall|k: int|
            0 <= k < exported_registered(s).len() ==> is_registered(
                #[trigger] exported_registered(s)[k],
            ),
    decreases s.len(),
{
    if s.len() > 0 {
        lemma_exported_registered(s.drop_last());
        let p = exported_registered(s.drop_last());
        let t = exported_registered(s);
        assert forall|k: int| 0 <= k < t.len() implies is_registered(#[trigger] t[k]) by {
            if k < p.len() {
                assert(t[k] == p[k]);
            }
        }
    }
}

proof fn lemma_crates_registered(cs: Seq<Vec<CrateExport>>)
    ensures
        forall|k: int|
            0 <= k < crates_registered(cs).len() ==> is_registered(
                #[trigger] crates_registered(cs)[k],
            ),
    decreases cs.len(),
{
    if cs.len() > 0 {
        lemma_crates_registered(cs.drop_last());
        lemma_exported_registered(cs.last()@);
        let a = crates_registered(cs.drop_last());
        let b = exported_registered(cs.last()@);
        assert forall|k: int| 0 <= k < (a + b).len() implies is_registered(#[trigger] (a + b)[k]) by {
            if k < a.len() {
                assert((a + b)[k] == a[k]);
            } else {
                assert((a + b)[k] == b[k - a.len()]);
            }
        }
    }
}

/// Every definition that the search collects is a record.
pub proof fn lemma_all_registered(local: Seq<StaticDef>, crates: Seq<Vec<CrateExport>>)
    ensures
        forall|k: int|
            0 <= k < all_registrations(local, crates).len() ==> is_registered(
                #[trigger] all_registrations(local, crates)[k],
            ),
{
    lemma_registered_in(local);
    lemma_crates_registered(crates);
    let a = registered_in(local);
    let b = crates_registered(crates);
    assert forall|k: int| 0 <= k < (a + b).len() implies is_registered(#[trigger] (a + b)[k]) by {
        if k < a.len() {
            assert((a + b)[k] == a[k]);
        } else {
            assert((a + b)[k] == b[k - a.len()]);
        }
    }
}

/// The typed view of the records of one type: `Records::<T>::ITEMS`, the
/// registered statics of type `T` that the compiling crate can see.
pub struct Records<T> {
    statics: Vec<u64>,
    marker: PhantomData<T>,
}

impl<T> View for Records<T> {
    type V = Seq<u64>;

    closed spec fn view(&self) -> Seq<u64> {
        self.statics@
    }
}

impl<T> Records<T> {
    /// The records of type `ty` (the identity of `T`) that a crate with
    /// these definitions and dependencies sees.
    pub fn collect(ty: u64, local: Vec<StaticDef>, crates: Vec<Vec<CrateExport>>) -> (r: Self)
        ensures
            r@ == items_for(ty, local@, crates@),
    {
        Records { statics: collect_statics(ty, local, crates), marker: PhantomData }
    }

    /// `ITEMS`: the statics, ordered by symbol name.
    pub fn items(&self) -> (r: &Vec<u64>)
        ensures
            r@ == self@,
    {
        &self.statics
    }

    /// The number of records.
    pub fn len(&self) -> (r: usize)
        ensures
            r == self@.len(),
    {
        self.statics.len()
    }
}

/// A request to evaluate a constant, as far as the driver reads it.
pub struct ConstQuery {
    /// The name of the crate that defines the constant.
    pub krate: Vec<u8>,
    /// The name of the constant, if it has one.
    pub item: Option<Vec<u8>>,
    /// The constant's generic arguments still hold a parameter other than a
    /// lifetime.
    pub has_non_region_param: bool,
    /// The type argument of the constant (`T` of `Records<T>`).
    pub ty: u64,
}

/// The request is for `staticizer::Records::<T>::ITEMS` with a concrete `T`.
pub open spec fn is_items_request(q: ConstQuery) -> bool {
    &&& q.krate@ == library_crate()
    &&& q.item is Some
    &&& q.item->Some_0@ == items_const()
    &&& !q.has_non_region_param
}

/// What the driver answers to a constant evaluation.
pub enum Evaluation {
    /// The compiler's own evaluation answers.
    Delegate,
    /// A slice of pointers to these statics, in this order; its length is
    /// the number of statics.
    Slice(Vec<u64>),
}

/// Tells whether a constant evaluation asks for the records.
pub fn is_records_query(q: &ConstQuery) -> (r: bool)
    ensures
        r == is_items_request(*q),
{
    let name = library_crate_bytes();
    if !bytes_equal(&q.krate, &name) {
        return false;
    }
    match &q.item {
        Some(item) => {
            let items = items_const_bytes();
            bytes_equal(item, &items) && !q.has_non_region_param
        },
        None => false,
    }
}

/// Answers a constant evaluation: the records for `ITEMS`, and the
/// compiler's own evaluation for every other constant.
pub fn evaluate_records(q: &ConstQuery, local: Vec<StaticDef>, crates: Vec<Vec<CrateExport>>) -> (r:
    Evaluation)
    ensures
        !is_items_request(*q) ==> r is Delegate,
        is_items_request(*q) ==> (r matches Evaluation::Slice(s) && s@ == items_for(
            q.ty,
            local@,
            crates@,
        )),
{
    if !is_records_query(q) {
        return Evaluation::Delegate;
    }
    Evaluation::Slice(collect_statics(q.ty, local, crates))
}

/// `ITEMS` is ordered by symbol name.
pub proof fn lemma_items_sorted(ty: u64, local: Seq<StaticDef>, crates: Seq<Vec<CrateExport>>)
    ensures
        is_rank_sorted(sort_ranked(records_of(all_registrations(local, crates), ty))),
{
    lemma_sort_sorted(records_of(all_registrations(local, crates), ty));
}

/// `ITEMS` holds each visible record of its type exactly as often as the
/// compiler reports it: sorting neither drops nor repeats a record.
pub proof fn lemma_items_permutation(ty: u64, local: Seq<StaticDef>, crates: Seq<Vec<CrateExport>>)
    ensures
        sort_ranked(records_of(all_registrations(local, crates), ty)).to_multiset()
            == records_of(all_registrations(local, crates), ty).to_multiset(),
        items_for(ty, local, crates).len() == records_of(all_registrations(local, crates), ty).len(),
{
    let s = records_of(all_registrations(local, crates), ty);
    lemma_sort_permutation(s);
    lemma_sort_sorted(s);
}

proof fn lemma_registered_in_contains(s: Seq<StaticDef>, k: int)
    requires
        0 <= k < s.len(),
        is_registered(s[k]),
    ensures
        registered_in(s).contains(s[k]),
    decreases s.len(),
{
    if k < s.len() - 1 {
        lemma_registered_in_contains(s.drop_last(), k);
        let p = registered_in(s.drop_last());
        let i = choose|i: int| 0 <= i < p.len() && p[i] == s[k];
        assert(registered_in(s)[i] == p[i]);
    } else {
        let t = registered_in(s);
        assert(t[t.len() - 1] == s[k]);
    }
}

proof fn lemma_exported_contains(s: Seq<CrateExport>, k: int, d: StaticDef)
    requires
        0 <= k < s.len(),
        s[k] == CrateExport::NonGeneric(d),
        is_registered(d),
    ensures
        exported_registered(s).contains(d),
    decreases s.len(),
{
    if k < s.len() - 1 {
        lemma_exported_contains(s.drop_last(), k, d);
        let p = exported_registered(s.drop_last());
        let i = choose|i: int| 0 <= i < p.len() && p[i] == d;
        let t = exported_registered(s);
        match s.last() {
            CrateExport::NonGeneric(e) => if is_registered(e) {
                assert(t[i] == p[i]);
            } else {
                assert(t[i] == p[i]);
            },
            CrateExport::Other => {
                assert(t[i] == p[i]);
            },
        }
    } else {
        let t = exported_registered(s);
        assert(t[t.len() - 1] == d);
    }
}

proof fn lemma_crates_contains(cs: Seq<Vec<CrateExport>>, c: int, k: int, d: StaticDef)
    requires
        0 <= c < cs.len(),
        0 <= k < cs[c]@.len(),
        cs[c]@[k] == CrateExport::NonGeneric(d),
        is_registered(d),
    ensures
        crates_registered(cs).contains(d),
    decreases cs.len(),
{
    let a = crates_registered(cs.drop_last());
    let b = exported_registered(cs.last()@);
    if c < cs.len() - 1 {
        lemma_crates_contains(cs.drop_last(), c, k, d);
        let i = choose|i: int| 0 <= i < a.len() && a[i] == d;
        assert((a + b)[i] == a[i]);
    } else {
        lemma_exported_contains(cs.last()@, k, d);
        let i = choose|i: int| 0 <= i < b.len() && b[i] == d;
        assert((a + b)[a.len() + i] == b[i]);
    }
}

proof fn lemma_records_of_contains(s: Seq<StaticDef>, k: int, ty: u64)
    requires
        0 <= k < s.len(),
        s[k].ty == ty,
    ensures
        records_of(s, ty).contains(Record { id: s[k].id, symbol: s[k].symbol->Some_0 }),
    decreases s.len(),
{
    let r = Record { id: s[k].id, symbol: s[k].symbol->Some_0 };
    if k < s.len() - 1 {
        lemma_records_of_contains(s.drop_last(), k, ty);
        let p = records_of(s.drop_last(), ty);
        let i = choose|i: int| 0 <= i < p.len() && p[i] == r;
        assert(records_of(s, ty)[i] == p[i]);
    } else {
        let t = records_of(s, ty);
        assert(t[t.len() - 1] == r);
    }
}

/// A record of type `ty` that the compiler reports is in `ITEMS` of that type.
proof fn lemma_collected(ty: u64, local: Seq<StaticDef>, crates: Seq<Vec<CrateExport>>, d: StaticDef)
    requires
        all_registrations(local, crates).contains(d),
        d.ty == ty,
    ensures
        items_for(ty, local, crates).contains(d.id),
{
    broadcast use vstd::seq_lib::to_multiset_contains;

    let regs = all_registrations(local, crates);
    let k = choose|k: int| 0 <= k < regs.len() && regs[k] == d;
    lemma_records_of_contains(regs, k, ty);
    let recs = records_of(regs, ty);
    let r = Record { id: d.id, symbol: d.symbol->Some_0 };
    lemma_sort_permutation(recs);
    let sorted = sort_ranked(recs);
    assert(recs.to_multiset().count(r) > 0);
    assert(sorted.contains(r));
    let i = choose|i: int| 0 <= i < sorted.len() && sorted[i] == r;
    assert(statics_of(sorted)[i] == d.id);
}

/// A static of type `ty` that the crate itself registers, under the export
/// name that registration gives it, is in `ITEMS` of type `ty`.
pub proof fn lemma_local_record_collected(
    ty: u64,
    local: Seq<StaticDef>,
    crates: Seq<Vec<CrateExport>>,
    k: int,
    group: Option<Seq<u8>>,
    mod_path: Seq<u8>,
    name: Seq<u8>,
)
    requires
        0 <= k < local.len(),
        local[k].is_static,
        local[k].ty == ty,
        local[k].symbol is Some,
        local[k].symbol->Some_0@ == record_symbol_of(group, mod_path, name),
    ensures
        items_for(ty, local, crates).contains(local[k].id),
{
    lemma_record_symbol_is_registered(group, mod_path, name);
    lemma_registered_in_contains(local, k);
    let a = registered_in(local);
    let i = choose|i: int| 0 <= i < a.len() && a[i] == local[k];
    assert(all_registrations(local, crates)[i] == a[i]);
    lemma_collected(ty, local, crates, local[k]);
}

/// A static of type `ty` that a dependency registers and exports, under the
/// export name that registration gives it, is in `ITEMS` of type `ty`.
pub proof fn lemma_dependency_record_collected(
    ty: u64,
    local: Seq<StaticDef>,
    crates: Seq<Vec<CrateExport>>,
    c: int,
    k: int,
    d: StaticDef,
    group: Option<Seq<u8>>,
    mod_path: Seq<u8>,
    name: Seq<u8>,
)
    requires
        0 <= c < crates.len(),
        0 <= k < crates[c]@.len(),
        crates[c]@[k] == CrateExport::NonGeneric(d),
        d.is_static,
        d.ty == ty,
        d.symbol is Some,
        d.symbol->Some_0@ == record_symbol_of(group, mod_path, name),
    ensures
        items_for(ty, local, crates).contains(d.id),
{
    lemma_record_symbol_is_registered(group, mod_path, name);
    lemma_crates_contains(crates, c, k, d);
    let a = registered_in(local);
    let b = crates_registered(crates);
    let i = choose|i: int| 0 <= i < b.len() && b[i] == d;
    assert(all_registrations(local, crates)[a.len() + i] == b[i]);
    lemma_collected(ty, local, crates, d);
}

/// Some record of type `ty` among `regs` is the static `id`.
pub open spec fn has_record(regs: Seq<StaticDef>, ty: u64, id: u64) -> bool {
    exists|k: int| 0 <= k < regs.len() && (#[trigger] regs[k]).ty == ty && regs[k].id == id
}

proof fn lemma_records_of_members(s: Seq<StaticDef>, ty: u64)
    ensures
        forall|i: int|
            0 <= i < records_of(s, ty).len() ==> has_record(s, ty, (#[trigger] records_of(s, ty)[i]).id),
    decreases s.len(),
{
    if s.len() > 0 {
        let p = s.drop_last();
        lemma_records_of_members(p, ty);
        let t = records_of(s, ty);
        let q = records_of(p, ty);
        assert forall|i: int| 0 <= i < t.len() implies has_record(s, ty, (#[trigger] t[i]).id) by {
            if i < q.len() {
                assert(t[i] == q[i]);
                let k = choose|k: int| 0 <= k < p.len() && (#[trigger] p[k]).ty == ty && p[k].id == q[i].id;
                assert(s[k] == p[k]);
            } else {
                assert(s[s.len() - 1].id == t[i].id);
            }
        }
    }
}

/// Every static in `ITEMS` of type `ty` is a record of that type that the
/// compiling crate can see.
pub proof fn lemma_items_sound(ty: u64, local: Seq<StaticDef>, crates: Seq<Vec<CrateExport>>)
    ensures
        forall|i: int|
            0 <= i < items_for(ty, local, crates).len() ==> has_record(
                all_registrations(local, crates),
                ty,
                #[trigger] items_for(ty, local, crates)[i],
            ),
        forall|k: int|
            0 <= k < all_registrations(local, crates).len() ==> is_registered(
                #[trigger] all_registrations(local, crates)[k],
            ),
{
    broadcast use vstd::seq_lib::to_multiset_contains;

    lemma_all_registered(local, crates);
    let regs = all_registrations(local, crates);
    let recs = records_of(regs, ty);
    lemma_records_of_members(regs, ty);
    lemma_sort_permutation(recs);
    let sorted = sort_ranked(recs);
    assert forall|i: int| 0 <= i < items_for(ty, local, crates).len() implies has_record(
        regs,
        ty,
        #[trigger] items_for(ty, local, crates)[i],
    ) by {
        let r = sorted[i];
        assert(sorted.to_multiset().count(r) > 0);
        assert(recs.contains(r));
        let j = choose|j: int| 0 <= j < recs.len() && recs[j] == r;
        assert(has_record(regs, ty, recs[j].id));
    }
}

/// `ITEMS` does not depend on the order in which the compiler lists
/// definitions and crates: the same records, found in any order, give the
/// same slice (where no two different records share a symbol name).
pub proof fn lemma_items_independent_of_discovery_order(
    ty: u64,
    local1: Seq<StaticDef>,
    crates1: Seq<Vec<CrateExport>>,
    local2: Seq<StaticDef>,
    crates2: Seq<Vec<CrateExport>>,
)
    requires
        records_of(all_registrations(local1, crates1), ty).to_multiset() == records_of(
            all_registrations(local2, crates2),
            ty,
        ).to_multiset(),
        ranks_identify(records_of(all_registrations(local1, crates1), ty)),
    ensures
        items_for(ty, local1, crates1) == items_for(ty, local2, crates2),
{
    lemma_sort_order_independent(
        records_of(all_registrations(local1, crates1), ty),
        records_of(all_registrations(local2, crates2), ty),
    );
}

proof fn lemma_records_of_concat(a: Seq<StaticDef>, b: Seq<StaticDef>, ty: u64)
    ensures
        records_of(a + b, ty) == records_of(a, ty) + records_of(b, ty),
    decreases b.len(),
{
    if b.len() == 0 {
        assert(a + b =~= a);
        assert(records_of(a, ty) + records_of(b, ty) =~= records_of(a, ty));
    } else {
        lemma_records_of_concat(a, b.drop_last(), ty);
        assert((a + b).drop_last() =~= a + b.drop_last());
        assert((a + b).last() == b.last());
        if b.last().ty == ty {
            assert(records_of(a, ty) + records_of(b, ty) =~= (records_of(a, ty) + records_of(
                b.drop_last(),
                ty,
            )).push(Record { id: b.last().id, symbol: b.last().symbol->Some_0 }));
        }
    }
}

proof fn lemma_crates_registered_concat(a: Seq<Vec<CrateExport>>, b: Seq<Vec<CrateExport>>)
    ensures
        crates_registered(a + b) == crates_registered(a) + crates_registered(b),
    decreases b.len(),
{
    if b.len() == 0 {
        assert(a + b =~= a);
        assert(crates_registered(a) + crates_registered(b) =~= crates_registered(a));
    } else {
        lemma_crates_registered_concat(a, b.drop_last());
        assert((a + b).drop_last() =~= a + b.drop_last());
        assert((a + b).last() == b.last());
        assert(crates_registered(a) + crates_registered(b) =~= crates_registered(a)
            + crates_registered(b.drop_last()) + exported_registered(b.last()@));
    }
}

/// Loading one more crate, wherever the compiler lists it, only adds
/// records: the records seen before stay, the new crate's records of the
/// type come on top, and every static in `ITEMS` before is in it after.
pub proof fn lemma_more_crates_more_records(
    ty: u64,
    local: Seq<StaticDef>,
    crates: Seq<Vec<CrateExport>>,
    at: int,
    krate: Vec<CrateExport>,
)
    requires
        0 <= at <= crates.len(),
    ensures
        records_of(all_registrations(local, crates.insert(at, krate)), ty).to_multiset()
            == records_of(all_registrations(local, crates), ty).to_multiset().add(
            records_of(exported_registered(krate@), ty).to_multiset(),
        ),
        forall|i: int|
            0 <= i < items_for(ty, local, crates).len() ==> items_for(
                ty,
                local,
                crates.insert(at, krate),
            ).contains(#[trigger] items_for(ty, local, crates)[i]),
{
    broadcast use vstd::seq_lib::to_multiset_contains;

    let more = crates.insert(at, krate);
    let front = crates.take(at);
    let back = crates.skip(at);
    assert(crates =~= front + back);
    assert(more =~= front.push(krate) + back);
    assert(front.push(krate).drop_last() =~= front);
    assert(front.push(krate).last() == krate);
    lemma_crates_registered_concat(front, back);
    lemma_crates_registered_concat(front.push(krate), back);
    let own = registered_in(local);
    let x = own + crates_registered(front);
    let e = exported_registered(krate@);
    let y = crates_registered(back);
    assert(all_registrations(local, crates) =~= x + y);
    assert(all_registrations(local, more) =~= x + e + y);
    lemma_records_of_concat(x, y, ty);
    lemma_records_of_concat(x + e, y, ty);
    lemma_records_of_concat(x, e, ty);
    let rx = records_of(x, ty);
    let re = records_of(e, ty);
    let ry = records_of(y, ty);
    let r1 = rx + ry;
    let r2 = rx + re + ry;
    assert(records_of(all_registrations(local, crates), ty) == r1);
    assert(records_of(all_registrations(local, more), ty) == r2);
    vstd::seq_lib::lemma_multiset_commutative(rx, ry);
    vstd::seq_lib::lemma_multiset_commutative(rx + re, ry);
    vstd::seq_lib::lemma_multiset_commutative(rx, re);
    assert(r2.to_multiset() =~= r1.to_multiset().add(re.to_multiset())) by {
        broadcast use vstd::multiset::group_multiset_axioms;

    }
    lemma_sort_permutation(r1);
    lemma_sort_permutation(r2);
    let s1 = sort_ranked(r1);
    let s2 = sort_ranked(r2);
    assert forall|i: int| 0 <= i < items_for(ty, local, crates).len() implies items_for(
        ty,
        local,
        more,
    ).contains(#[trigger] items_for(ty, local, crates)[i]) by {
        let v = s1[i];
        assert(s1.to_multiset().count(v) > 0);
        assert(r1.to_multiset().count(v) > 0);
        assert(r2.to_multiset().count(v) > 0) by {
            broadcast use vstd::multiset::group_multiset_axioms;

        }
        assert(s2.to_multiset().count(v) > 0);
        assert(s2.contains(v));
        let k = choose|k: int| 0 <= k < s2.len() && s2[k] == v;
        assert(statics_of(s2)[k] == v.id);
    }
}

/// "0".."9": the decimal digits of `n`.
pub open spec fn decimal(n: nat) -> Seq<u8>
    decreases n,
{
    if n < 10 {
        seq![(48 + n) as u8]
    } else {
        decimal(n / 10).push((48 + n % 10) as u8)
    }
}

fn push_decimal(out: &mut Vec<u8>, n: usize)
    ensures
        final(out)@ == old(out)@ + decimal(n as nat),
    decreases n,
{
    if n >= 10 {
        push_decimal(out, n / 10);
    }
    let digit: u8 = (n % 10) as u8;
    out.push(48u8 + digit);
    proof {
        if n < 10 {
            assert(old(out)@ + decimal(n as nat) =~= old(out)@.push((48 + n) as u8));
        } else {
            assert(old(out)@ + decimal(n as nat) =~= (old(out)@ + decimal((n / 10) as nat)).push(
                (48 + n % 10) as u8,
            ));
        }
    }
}

/// "staticizer: "
pub open spec fn log_head() -> Seq<u8> {
    seq![115u8, 116u8, 97u8, 116u8, 105u8, 99u8, 105u8, 122u8, 101u8, 114u8, 58u8, 32u8]
}

/// ": "
pub open spec fn log_colon() -> Seq<u8> {
    seq![58u8, 32u8]
}

/// " records of "
pub open spec fn log_records_of() -> Seq<u8> {
    seq![32u8, 114u8, 101u8, 99u8, 111u8, 114u8, 100u8, 115u8, 32u8, 111u8, 102u8, 32u8]
}

/// The trace line for one evaluation of `ITEMS`:
/// "staticizer: <crate>: <count> records of <type>".
pub open spec fn log_line(krate: Seq<u8>, ty_text: Seq<u8>, count: nat) -> Seq<u8> {
    log_head() + krate + log_colon() + decimal(count) + log_records_of() + ty_text
}

/// The trace line that names the compiling crate, the number of records
/// found and their type (as the compiler prints it).
pub fn records_log(krate: &Vec<u8>, ty_text: &Vec<u8>, count: usize) -> (r: Vec<u8>)
    ensures
        r@ == log_line(krate@, ty_text@, count as nat),
{
    let mut out: Vec<u8> = vec![
        115u8, 116u8, 97u8, 116u8, 105u8, 99u8, 105u8, 122u8, 101u8, 114u8, 58u8, 32u8,
    ];
    append_bytes(&mut out, krate);
    out.push(58u8);
    out.push(32u8);
    push_decimal(&mut out, count);
    let tail: Vec<u8> = vec![32u8, 114u8, 101u8, 99u8, 111u8, 114u8, 100u8, 115u8, 32u8, 111u8, 102u8, 32u8];
    append_bytes(&mut out, &tail);
    append_bytes(&mut out, ty_text);
    assert(out@ =~= log_line(krate@, ty_text@, count as nat));
    out
}

} // verus!
