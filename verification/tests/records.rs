use staticizer::records::{
    collect_statics, evaluate_records, is_records_query, records_log, registered, registrations,
    ConstQuery, CrateExport, Evaluation, Records, StaticDef,
};
use staticizer::register::{record_symbol, register};

/// The type identity of `base::Amount` in these scenarios.
const AMOUNT: u64 = 7;
/// The type identity of another crate's `Amount`.
const OTHER_AMOUNT: u64 = 8;

fn symbol_for(item: &str, path: &str) -> Vec<u8> {
    let reg = match register("", item) {
        Ok(reg) => reg,
        Err(_) => panic!("registration refused"),
    };
    record_symbol(&reg, &path.as_bytes().to_vec())
}

fn record(id: u64, ty: u64, item: &str, path: &str) -> StaticDef {
    StaticDef { id, is_static: true, ty, symbol: Some(symbol_for(item, path)) }
}

/// The amount that each static of the scenarios holds.
fn amount_of(id: u64) -> u32 {
    match id {
        1 => 100,
        2 => 1000,
        3 => 1,
        4 => 10,
        5 => 20,
        _ => panic!("unknown static"),
    }
}

fn application_local() -> Vec<StaticDef> {
    vec![
        record(1, AMOUNT, "static APPLICATION: Amount = Amount(100);", "application"),
        StaticDef { id: 90, is_static: false, ty: AMOUNT, symbol: None },
        record(2, AMOUNT, "static NESTED: Amount = Amount(1000);", "application::nested"),
        StaticDef {
            id: 91,
            is_static: true,
            ty: AMOUNT,
            symbol: Some(b"_ZN11application5PLAIN".to_vec()),
        },
    ]
}

fn application_crates() -> Vec<Vec<CrateExport>> {
    vec![
        vec![
            CrateExport::Other,
            CrateExport::NonGeneric(record(3, AMOUNT, "static BASE: Amount = Amount(1);", "base")),
        ],
        vec![CrateExport::NonGeneric(record(
            5,
            OTHER_AMOUNT,
            "static BASE: Amount = Amount(20);",
            "library",
        ))],
        vec![CrateExport::NonGeneric(record(4, AMOUNT, "static EXTRA: Amount = Amount(10);", "extra"))],
    ]
}

fn application_records() -> Records<u32> {
    Records::collect(AMOUNT, application_local(), application_crates())
}

#[test]
fn application_sees_every_crate_once() {
    let records = application_records();
    let total: u32 = records.items().iter().map(|id| amount_of(*id)).sum();
    assert_eq!(total, 1 + 10 + 100 + 1000);
    assert_eq!(records.len(), 4);
}

#[test]
fn records_are_ordered_by_module_path() {
    let records = application_records();
    let amounts: Vec<u32> = records.items().iter().map(|id| amount_of(*id)).collect();
    assert_eq!(amounts, [100, 1000, 1, 10]);
}

#[test]
fn base_sees_only_its_own_records() {
    let local = vec![record(3, AMOUNT, "static BASE: Amount = Amount(1);", "base")];
    let records: Records<u32> = Records::collect(AMOUNT, local, Vec::new());
    let total: u32 = records.items().iter().map(|id| amount_of(*id)).sum();
    assert_eq!(total, 1);
}

#[test]
fn library_sees_its_own_type_only() {
    let local = vec![record(5, OTHER_AMOUNT, "static BASE: Amount = Amount(20);", "library")];
    let crates = vec![vec![CrateExport::NonGeneric(record(3, AMOUNT, "static BASE: Amount = Amount(1);", "base"))]];
    let statics = collect_statics(OTHER_AMOUNT, local, crates);
    assert_eq!(statics, vec![5]);
}

#[test]
fn registered_needs_a_static_with_the_record_prefix() {
    let symbol = symbol_for("static A: u32 = 1;", "m");
    assert!(registered(&StaticDef { id: 1, is_static: true, ty: 0, symbol: Some(symbol.clone()) }));
    assert!(!registered(&StaticDef { id: 1, is_static: false, ty: 0, symbol: Some(symbol) }));
    assert!(!registered(&StaticDef { id: 1, is_static: true, ty: 0, symbol: None }));
    assert!(!registered(&StaticDef {
        id: 1,
        is_static: true,
        ty: 0,
        symbol: Some(b"__staticizer_recor".to_vec()),
    }));
    assert!(registered(&StaticDef {
        id: 1,
        is_static: true,
        ty: 0,
        symbol: Some(b"__staticizer_record_".to_vec()),
    }));
}

#[test]
fn registrations_list_own_then_dependencies() {
    let found = registrations(application_local(), application_crates());
    let ids: Vec<u64> = found.iter().map(|d| d.id).collect();
    assert_eq!(ids, vec![1, 2, 3, 5, 4]);
}

fn query(krate: &str, item: Option<&str>, param: bool) -> ConstQuery {
    ConstQuery {
        krate: krate.as_bytes().to_vec(),
        item: item.map(|s| s.as_bytes().to_vec()),
        has_non_region_param: param,
        ty: AMOUNT,
    }
}

#[test]
fn only_items_of_this_library_are_answered() {
    assert!(is_records_query(&query("staticizer", Some("ITEMS"), false)));
    assert!(!is_records_query(&query("staticizer", Some("ITEMS"), true)));
    assert!(!is_records_query(&query("staticizer", Some("OTHER"), false)));
    assert!(!is_records_query(&query("staticizer", None, false)));
    assert!(!is_records_query(&query("other", Some("ITEMS"), false)));
}

#[test]
fn evaluation_answers_items_and_delegates_the_rest() {
    match evaluate_records(&query("staticizer", Some("ITEMS"), false), application_local(), application_crates()) {
        Evaluation::Slice(statics) => assert_eq!(statics, vec![1, 2, 3, 4]),
        Evaluation::Delegate => panic!("ITEMS must be answered"),
    }
    match evaluate_records(&query("totals", Some("TOTAL"), false), application_local(), application_crates()) {
        Evaluation::Delegate => {}
        Evaluation::Slice(_) => panic!("other constants are the compiler's"),
    }
}

#[test]
fn trace_line_names_crate_count_and_type() {
    let line = records_log(&b"application".to_vec(), &b"base::Amount".to_vec(), 4);
    assert_eq!(line, b"staticizer: application: 4 records of base::Amount".to_vec());
    let line = records_log(&b"a".to_vec(), &b"T".to_vec(), 1207);
    assert_eq!(line, b"staticizer: a: 1207 records of T".to_vec());
    let line = records_log(&b"a".to_vec(), &b"T".to_vec(), 0);
    assert_eq!(line, b"staticizer: a: 0 records of T".to_vec());
}

#[test]
fn items_do_not_depend_on_discovery_order() {
    let mut local = application_local();
    local.reverse();
    let mut crates = application_crates();
    crates.reverse();
    let a = collect_statics(AMOUNT, application_local(), application_crates());
    let b = collect_statics(AMOUNT, local, crates);
    assert_eq!(a, b);
    assert_eq!(a, vec![1, 2, 3, 4]);
}

#[test]
fn loading_one_more_crate_only_adds_records() {
    let without = collect_statics(AMOUNT, application_local(), application_crates()[..2].iter().map(|c| c.iter().map(clone_export).collect()).collect());
    let with = collect_statics(AMOUNT, application_local(), application_crates());
    assert_eq!(without, vec![1, 2, 3]);
    assert_eq!(with, vec![1, 2, 3, 4]);
    assert!(without.iter().all(|id| with.contains(id)));
}

fn clone_export(e: &CrateExport) -> CrateExport {
    match e {
        CrateExport::NonGeneric(d) => CrateExport::NonGeneric(StaticDef {
            id: d.id,
            is_static: d.is_static,
            ty: d.ty,
            symbol: d.symbol.clone(),
        }),
        CrateExport::Other => CrateExport::Other,
    }
}
