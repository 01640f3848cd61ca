use staticizer::register::{
    group_from, mutable_message, record_head, record_symbol, register, registration_from, RegisterError,
};

#[test]
fn register_without_group() {
    let reg = match register("", "static APPLICATION: Amount = Amount(100);") {
        Ok(reg) => reg,
        Err(_) => panic!("a static must be accepted"),
    };
    assert_eq!(reg.group, None);
    assert_eq!(reg.name, b"APPLICATION".to_vec());
    let symbol = record_symbol(&reg, &b"application::nested".to_vec());
    assert_eq!(symbol, b"__staticizer_record_application::nested::APPLICATION".to_vec());
}

#[test]
fn register_with_group() {
    let reg = match register("\"plugins\"", "pub static HOOK: u32 = 3;") {
        Ok(reg) => reg,
        Err(_) => panic!("a static must be accepted"),
    };
    assert_eq!(reg.group, Some(b"plugins".to_vec()));
    assert_eq!(reg.name, b"HOOK".to_vec());
    let symbol = record_symbol(&reg, &b"app".to_vec());
    assert_eq!(symbol, b"__staticizer_record_plugins::app::HOOK".to_vec());
}

#[test]
fn register_refuses_static_mut() {
    assert!(matches!(
        register("", "static mut COUNTER: u32 = 0;"),
        Err(RegisterError::Mutable)
    ));
    assert_eq!(mutable_message(), "registered metadata must be immutable");
}

#[test]
fn register_refuses_other_items() {
    assert!(matches!(register("", "fn f() {}"), Err(RegisterError::Item(_))));
    assert!(matches!(register("", "const C: u32 = 0;"), Err(RegisterError::Item(_))));
}

#[test]
fn register_refuses_a_group_that_is_not_a_string() {
    assert!(matches!(
        register("plugins", "static A: u32 = 0;"),
        Err(RegisterError::Group(_))
    ));
    assert!(matches!(
        register("\"a\", \"b\"", "static A: u32 = 0;"),
        Err(RegisterError::Group(_))
    ));
    assert!(matches!(register("42", "static A: u32 = 0;"), Err(RegisterError::Group(_))));
    assert!(matches!(register("42", "fn f() {}"), Err(RegisterError::Group(_))));
}

#[test]
fn registration_follows_mutability() {
    assert!(matches!(registration_from(None, Ok((b"A".to_vec(), true))), Err(RegisterError::Mutable)));
    let refused = syn::Error::new(proc_macro2::Span::call_site(), "expected `static`");
    match registration_from(None, Err(refused)) {
        Err(RegisterError::Item(e)) => assert_eq!(e.to_string(), "expected `static`"),
        _ => panic!("the parser's error must be passed on"),
    }
    match registration_from(Some(b"g".to_vec()), Ok((b"A".to_vec(), false))) {
        Ok(reg) => {
            assert_eq!(reg.group, Some(b"g".to_vec()));
            assert_eq!(reg.name, b"A".to_vec());
        }
        Err(_) => panic!("an immutable static must be accepted"),
    }
}

#[test]
fn record_head_is_the_start_of_the_export_name() {
    let reg = match register("\"plugins\"", "static HOOK: u32 = 3;") {
        Ok(reg) => reg,
        Err(_) => panic!("a static must be accepted"),
    };
    assert_eq!(record_head(&reg), b"__staticizer_record_plugins::".to_vec());
    let plain = match register("", "static HOOK: u32 = 3;") {
        Ok(reg) => reg,
        Err(_) => panic!("a static must be accepted"),
    };
    assert_eq!(record_head(&plain), b"__staticizer_record_".to_vec());
}

#[test]
fn different_paths_and_names_give_different_export_names() {
    let a = match register("", "static C: u32 = 1;") {
        Ok(reg) => reg,
        Err(_) => panic!("a static must be accepted"),
    };
    let b = match register("", "static b: u32 = 1;") {
        Ok(reg) => reg,
        Err(_) => panic!("a static must be accepted"),
    };
    assert_ne!(record_symbol(&a, &b"m::b".to_vec()), record_symbol(&b, &b"m".to_vec()));
    assert_ne!(record_symbol(&a, &b"m".to_vec()), record_symbol(&a, &b"n".to_vec()));
}

#[test]
fn group_follows_the_parser() {
    match group_from(Ok(b"plugins".to_vec())) {
        Ok(Some(g)) => assert_eq!(g, b"plugins".to_vec()),
        _ => panic!("a string literal names a group"),
    }
    let refused = syn::Error::new(proc_macro2::Span::call_site(), "expected string literal");
    match group_from(Err(refused)) {
        Err(RegisterError::Group(e)) => assert_eq!(e.to_string(), "expected string literal"),
        _ => panic!("the parser's error must be passed on"),
    }
}
