use staticizer::finish::{
    export_outputs, is_output, output_attributes, output_symbol, outputs, root_outputs, Body,
    CodegenAttrs, DefPath, ExportEntry, ExportInfo, ExportKind, ExportLevel, ExportedSymbol,
    GenericExport, InlineAttr, Instance, Linkage, LocalDecl, MonoItem, Statement, SymbolSource,
};

fn def(id: u64, krate: &str, name: Option<&str>) -> DefPath {
    DefPath { id, krate: krate.as_bytes().to_vec(), name: name.map(|n| n.as_bytes().to_vec()) }
}

fn output_instance(args: u64, symbol: &str) -> Instance {
    Instance { def: def(10, "staticizer", Some("output")), args, symbol: symbol.as_bytes().to_vec() }
}

fn other_instance(args: u64, symbol: &str) -> Instance {
    Instance { def: def(11, "totals", Some("output")), args, symbol: symbol.as_bytes().to_vec() }
}

fn dependency_exports() -> Vec<Vec<GenericExport>> {
    vec![
        vec![
            GenericExport::Generic(output_instance(2, "_out_b")),
            GenericExport::Other,
            GenericExport::Generic(other_instance(9, "_out_0")),
        ],
        vec![
            GenericExport::Generic(output_instance(1, "_out_a")),
            GenericExport::Generic(output_instance(2, "_out_b")),
        ],
    ]
}

fn info(level: ExportLevel) -> ExportInfo {
    ExportInfo { level, kind: ExportKind::Data, used: false, std_internal: false }
}

fn output_info() -> ExportInfo {
    ExportInfo { level: ExportLevel::Rust, kind: ExportKind::Text, used: true, std_internal: false }
}

#[test]
fn output_is_the_library_getter() {
    assert!(is_output(&def(1, "staticizer", Some("output"))));
    assert!(!is_output(&def(1, "staticizer", Some("ITEMS"))));
    assert!(!is_output(&def(1, "staticizer", None)));
    assert!(!is_output(&def(1, "totals", Some("output"))));
}

#[test]
fn output_getter_is_linked_externally_in_an_application() {
    let attrs = CodegenAttrs { linkage: Some(Linkage::Internal), inline: InlineAttr::Always };
    let out = output_attributes(attrs, true, &def(1, "staticizer", Some("output")));
    assert_eq!(out, CodegenAttrs { linkage: Some(Linkage::External), inline: InlineAttr::Unset });
    assert_eq!(output_attributes(attrs, false, &def(1, "staticizer", Some("output"))), attrs);
    assert_eq!(output_attributes(attrs, true, &def(1, "totals", Some("total"))), attrs);
}

#[test]
fn output_getter_keeps_its_defining_crate_name() {
    assert_eq!(output_symbol(&def(1, "staticizer", Some("output"))), SymbolSource::DefiningCrate);
    assert_eq!(output_symbol(&def(1, "staticizer", Some("ITEMS"))), SymbolSource::Default);
}

#[test]
fn outputs_are_sorted_and_deduplicated() {
    let outs = outputs(dependency_exports());
    let keys: Vec<(u64, Vec<u8>)> = outs.iter().map(|i| (i.args, i.symbol.clone())).collect();
    assert_eq!(keys, vec![(1, b"_out_a".to_vec()), (2, b"_out_b".to_vec())]);
}

#[test]
fn main_refers_to_every_output() {
    let body = Body {
        locals: vec![LocalDecl::Existing(0), LocalDecl::Existing(1)],
        start: vec![Statement::Existing(5)],
    };
    let out = root_outputs(true, body, dependency_exports());
    assert_eq!(out.locals.len(), 4);
    assert!(matches!(out.locals[2], LocalDecl::FnPointer(10, 1)));
    assert!(matches!(out.locals[3], LocalDecl::FnPointer(10, 2)));
    assert_eq!(out.start.len(), 3);
    assert!(matches!(out.start[0], Statement::Existing(5)));
    assert!(matches!(out.start[1], Statement::StoreFnPointer { local: 2, def: 10, args: 1 }));
    assert!(matches!(out.start[2], Statement::StoreFnPointer { local: 3, def: 10, args: 2 }));
}

#[test]
fn other_bodies_stay() {
    let body = Body { locals: vec![LocalDecl::Existing(0)], start: vec![] };
    let out = root_outputs(false, body, dependency_exports());
    assert_eq!(out.locals.len(), 1);
    assert!(out.start.is_empty());
}

fn entry(symbol: ExportedSymbol, name: &str, level: ExportLevel) -> ExportEntry {
    ExportEntry { symbol, name: name.as_bytes().to_vec(), info: info(level) }
}

#[test]
fn exports_unchanged_without_codegen() {
    let own_exports = vec![entry(ExportedSymbol::NonGeneric(3), "z", ExportLevel::C), entry(ExportedSymbol::NonGeneric(1), "a", ExportLevel::C)];
    let out = export_outputs(false, true, own_exports, vec![], dependency_exports());
    let names: Vec<Vec<u8>> = out.iter().map(|e| e.name.clone()).collect();
    assert_eq!(names, vec![b"z".to_vec(), b"a".to_vec()]);
}

#[test]
fn library_exports_its_output_instances() {
    let own_exports = vec![
        entry(ExportedSymbol::NonGeneric(3), "z", ExportLevel::C),
        entry(ExportedSymbol::Generic(10, 1), "_out_a", ExportLevel::C),
    ];
    let units = vec![
        vec![MonoItem::Fn(output_instance(1, "_out_a")), MonoItem::Other],
        vec![MonoItem::Fn(other_instance(4, "_t")), MonoItem::Fn(output_instance(2, "_out_b"))],
    ];
    let out = export_outputs(true, false, own_exports, units, vec![]);
    let names: Vec<Vec<u8>> = out.iter().map(|e| e.name.clone()).collect();
    assert_eq!(names, vec![b"_out_a".to_vec(), b"_out_b".to_vec(), b"z".to_vec()]);
    assert!(matches!(out[0].symbol, ExportedSymbol::Generic(10, 1)));
    assert_eq!(out[0].info, info(ExportLevel::C));
    assert!(matches!(out[1].symbol, ExportedSymbol::Generic(10, 2)));
    assert_eq!(out[1].info, output_info());
}

#[test]
fn application_exports_outputs_by_name() {
    let own_exports = vec![
        entry(ExportedSymbol::NoDefId, "_out_b", ExportLevel::C),
        entry(ExportedSymbol::Other(4), "m", ExportLevel::Rust),
    ];
    let out = export_outputs(true, true, own_exports, vec![], dependency_exports());
    let names: Vec<Vec<u8>> = out.iter().map(|e| e.name.clone()).collect();
    assert_eq!(names, vec![b"_out_a".to_vec(), b"_out_b".to_vec(), b"m".to_vec()]);
    assert!(matches!(out[0].symbol, ExportedSymbol::NoDefId));
    assert_eq!(out[0].info, output_info());
    assert_eq!(out[1].info, info(ExportLevel::C));
}

#[test]
fn library_exports_do_not_depend_on_unit_order() {
    let own_exports = || vec![entry(ExportedSymbol::NonGeneric(3), "z", ExportLevel::C)];
    let units1 = vec![
        vec![MonoItem::Fn(output_instance(2, "_out_b")), MonoItem::Other],
        vec![MonoItem::Fn(output_instance(1, "_out_a"))],
    ];
    let units2 = vec![
        vec![MonoItem::Fn(output_instance(1, "_out_a"))],
        vec![MonoItem::Other, MonoItem::Fn(output_instance(2, "_out_b"))],
    ];
    let a = export_outputs(true, false, own_exports(), units1, vec![]);
    let b = export_outputs(true, false, own_exports(), units2, vec![]);
    let names = |v: &Vec<ExportEntry>| v.iter().map(|e| e.name.clone()).collect::<Vec<Vec<u8>>>();
    assert_eq!(names(&a), names(&b));
    assert_eq!(names(&a), vec![b"_out_a".to_vec(), b"_out_b".to_vec(), b"z".to_vec()]);
}

#[test]
fn exports_keep_own_entry_before_added_one_in_any_unit_order() {
    let own = || vec![
        entry(ExportedSymbol::Generic(10, 1), "_out_a", ExportLevel::C),
        entry(ExportedSymbol::NonGeneric(3), "z", ExportLevel::C),
    ];
    let units1 = vec![
        vec![MonoItem::Fn(output_instance(1, "_out_a"))],
        vec![MonoItem::Fn(output_instance(2, "_out_b"))],
    ];
    let units2 = vec![
        vec![MonoItem::Fn(output_instance(2, "_out_b"))],
        vec![MonoItem::Fn(output_instance(1, "_out_a"))],
    ];
    let a = export_outputs(true, false, own(), units1, vec![]);
    let b = export_outputs(true, false, own(), units2, vec![]);
    let view = |v: &Vec<ExportEntry>| v.iter().map(|e| (e.name.clone(), e.info)).collect::<Vec<_>>();
    assert_eq!(view(&a), view(&b));
    assert_eq!(
        view(&a),
        vec![
            (b"_out_a".to_vec(), info(ExportLevel::C)),
            (b"_out_b".to_vec(), output_info()),
            (b"z".to_vec(), info(ExportLevel::C)),
        ]
    );
}

#[test]
fn outputs_do_not_depend_on_crate_order() {
    let mut reversed = dependency_exports();
    reversed.reverse();
    for exports in reversed.iter_mut() {
        exports.reverse();
    }
    let a = outputs(dependency_exports());
    let b = outputs(reversed);
    let keys = |v: &Vec<Instance>| v.iter().map(|i| (i.def.id, i.args, i.symbol.clone())).collect::<Vec<_>>();
    assert_eq!(keys(&a), keys(&b));
}
