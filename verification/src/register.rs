//! Registration of a static as a record: the checks of the `register`
//! attribute and the export name that makes the static a record.
use vstd::prelude::*;

use crate::bytes::{
    append_bytes, bytes_lt, is_prefix, lemma_lt_common_prefix, path_separator,
    path_separator_bytes, record_prefix, record_prefix_bytes,
};

verus! {

/// The error that `syn` reports for text it cannot parse.
#[verifier::external_type_specification]
#[verifier::external_body]
pub struct ExSynError(syn::Error);

/// Relates a text to what `syn` may make of it as a static item:
/// `Some((name, is_mut))` for a static with that name (as `syn` prints it),
/// declared `static mut` or not, and `None` where the text is refused. It
/// is a relation and not a function of the text, since the parse depends on
/// which lexer `proc_macro2` uses in the process.
pub uninterp spec fn static_item_outcome(text: Seq<char>, outcome: Option<(Seq<u8>, bool)>) -> bool;

/// Relates a text to what `syn` may make of it as one string literal:
/// `Some(value)` for a literal with that value, `None` where the text is
/// refused. A relation for the same reason as `static_item_outcome`.
pub uninterp spec fn string_literal_outcome(text: Seq<char>, outcome: Option<Seq<u8>>) -> bool;

/// Parses `text` as a static item with `syn::parse_str::<syn::ItemStatic>`,
/// giving the item's name as `syn` prints it and whether it is declared
/// `static mut`. The outcome is tied to `text` by `static_item_outcome`;
/// which outcome comes depends on the lexer `proc_macro2` uses in this
/// process (the compiler's inside a procedural macro, its own elsewhere), so
/// of the result itself the contract claims only what holds of every
/// outcome: a name is a non-empty identifier, which holds no ':'.
#[verifier::external_body]
fn parse_static_item(text: &str) -> (r: Result<(Vec<u8>, bool), syn::Error>)
    ensures
        r is Ok ==> static_item_outcome(text@, Some((r->Ok_0.0@, r->Ok_0.1))),
        r is Err ==> static_item_outcome(text@, None),
        r is Ok ==> r->Ok_0.0@.len() > 0 && has_no_colon(r->Ok_0.0@),
{
    match syn::parse_str::<syn::ItemStatic>(text) {
        Ok(item) => Ok((
            item.ident.to_string().into_bytes(),
            matches!(item.mutability, syn::StaticMutability::Mut(_)),
        )),
        Err(e) => Err(e),
    }
}

/// Parses `text` as one string literal with `syn::parse_str::<syn::LitStr>`
/// and takes its value (`LitStr::value`). The outcome is tied to `text` by
/// `string_literal_outcome`; nothing more is stated of the value, since it
/// depends on the lexer `proc_macro2` uses in this process.
#[verifier::external_body]
fn parse_group(text: &str) -> (r: Result<Vec<u8>, syn::Error>)
    ensures
        r is Ok ==> string_literal_outcome(text@, Some(r->Ok_0@)),
        r is Err ==> string_literal_outcome(text@, None),
{
    match syn::parse_str::<syn::LitStr>(text) {
        Ok(lit) => Ok(lit.value().into_bytes()),
        Err(e) => Err(e),
    }
}

/// A static accepted as a record.
pub struct Registration {
    /// The group named in the attribute's argument, if it names one.
    pub group: Option<Vec<u8>>,
    /// The name of the static.
    pub name: Vec<u8>,
}

/// Why a static cannot be registered.
pub enum RegisterError {
    /// The attribute's argument is not one string literal.
    Group(syn::Error),
    /// The item is not a static.
    Item(syn::Error),
    /// The static is `static mut`: registered metadata must be immutable.
    Mutable,
}

/// "registered metadata must be immutable": the message for a `static mut`.
pub fn mutable_message() -> (r: String)
    ensures
        r@ == "registered metadata must be immutable"@,
{
    String::from_str("registered metadata must be immutable")
}

/// The group that a parsed argument gives: its value, or a refusal with
/// the parser's error where it is not one string literal.
pub open spec fn group_outcome(parsed: Result<Vec<u8>, syn::Error>) -> Result<
    Option<Vec<u8>>,
    RegisterError,
> {
    match parsed {
        Ok(value) => Ok(Some(value)),
        Err(e) => Err(RegisterError::Group(e)),
    }
}

/// Decides the group from what the parser made of a non-empty argument: a
/// string literal names the group of its value, anything else is refused
/// with the parser's error.
pub fn group_from(parsed: Result<Vec<u8>, syn::Error>) -> (r: Result<
    Option<Vec<u8>>,
    RegisterError,
>)
    ensures
        r == group_outcome(parsed),
{
    match parsed {
        Ok(value) => Ok(Some(value)),
        Err(e) => Err(RegisterError::Group(e)),
    }
}

/// The registration that a parsed item gives: refused where it is not a
/// static or is `static mut`, else accepted under its name in `group`.
pub open spec fn registration_outcome(
    group: Option<Vec<u8>>,
    item: Result<(Vec<u8>, bool), syn::Error>,
) -> Result<Registration, RegisterError> {
    match item {
        Err(e) => Err(RegisterError::Item(e)),
        Ok(parsed) => if parsed.1 {
            Err(RegisterError::Mutable)
        } else {
            Ok(Registration { group, name: parsed.0 })
        },
    }
}

/// Decides a registration from what the parser made of the item: an item
/// that is not a static is refused with the parser's error, a `static mut`
/// is refused, any other static is accepted under its name.
pub fn registration_from(group: Option<Vec<u8>>, item: Result<(Vec<u8>, bool), syn::Error>) -> (r:
    Result<Registration, RegisterError>)
    ensures
        r == registration_outcome(group, item),
{
    match item {
        Err(e) => Err(RegisterError::Item(e)),
        Ok((name, is_mut)) => {
            if is_mut {
                Err(RegisterError::Mutable)
            } else {
                Ok(Registration { group, name })
            }
        },
    }
}

/// The argument `args` gives `group`: no group for an empty argument, else
/// a group whose value the parser may make of the argument as a string
/// literal.
pub open spec fn group_parsed_as(args: Seq<char>, group: Option<Seq<u8>>) -> bool {
    match group {
        None => args.len() == 0,
        Some(g) => args.len() > 0 && string_literal_outcome(args, Some(g)),
    }
}

/// The argument is accepted: it is empty, or the parser may make a string
/// literal of it.
pub open spec fn group_accepted(args: Seq<char>) -> bool {
    args.len() == 0 || exists|g: Seq<u8>| #[trigger] string_literal_outcome(args, Some(g))
}

/// Checks an item given to the `register` attribute: `args` is the text of
/// the attribute's argument (empty, or one string literal naming a group),
/// `item` the text of the item. A non-empty argument is parsed as a string
/// literal and decided by `group_from`; then the item is parsed and decided
/// by `registration_from`. What the parser makes of a text depends on the
/// process, so the contract ties each outcome to the text it came from:
/// - an argument is refused only where it is not empty and the parser
///   refuses it as a string literal;
/// - an item is refused as no static only where the argument was accepted
///   and the parser refuses the item;
/// - a `static mut` is refused only where the parser reads the item as one;
/// - an accepted static has the name the parser reads in the item (not
///   empty, no ':'), and the group the parser reads in the argument, or
///   none for an empty argument.
pub fn register(args: &str, item: &str) -> (r: Result<Registration, RegisterError>)
    ensures
        r is Err && r->Err_0 is Group ==> args@.len() > 0 && string_literal_outcome(args@, None),
        !(r is Err && r->Err_0 is Group) ==> group_accepted(args@),
        r is Err && r->Err_0 is Item ==> static_item_outcome(item@, None),
        r is Err && r->Err_0 is Mutable ==> exists|n: Seq<u8>|
            #[trigger] static_item_outcome(item@, Some((n, true))),
        r is Ok ==> group_parsed_as(args@, group_view(r->Ok_0.group)),
        r is Ok ==> static_item_outcome(item@, Some((r->Ok_0.name@, false))),
        r is Ok ==> r->Ok_0.name@.len() > 0 && has_no_colon(r->Ok_0.name@),
{
    let group = if args.is_empty() {
        None
    } else {
        match group_from(parse_group(args)) {
            Ok(g) => g,
            Err(e) => {
                return Err(e);
            },
        }
    };
    assert(group_parsed_as(args@, group_view(group)));
    let parsed = parse_static_item(item);
    let ghost seen = parsed;
    let r = registration_from(group, parsed);
    proof {
        if seen is Ok {
            assert(static_item_outcome(item@, Some((seen->Ok_0.0@, seen->Ok_0.1))));
        }
    }
    r
}

/// The bytes of a group, if there is one.
pub open spec fn group_view(group: Option<Vec<u8>>) -> Option<Seq<u8>> {
    match group {
        Some(g) => Some(g@),
        None => None,
    }
}

/// What the export name of a record starts with, before the module path:
/// the record prefix, then the group and "::" if there is a group.
pub open spec fn record_head_of(group: Option<Seq<u8>>) -> Seq<u8> {
    match group {
        Some(g) => record_prefix() + g + path_separator(),
        None => record_prefix(),
    }
}

/// The export name of a record: the record prefix, the group and "::" if
/// there is a group, the module path, "::" and the static's name.
pub open spec fn record_symbol_of(group: Option<Seq<u8>>, mod_path: Seq<u8>, name: Seq<u8>) -> Seq<
    u8,
> {
    record_head_of(group) + (mod_path + path_separator() + name)
}

/// The start of the export name of a registered static, which the
/// attribute writes before the module path that only the compiling crate
/// knows.
pub fn record_head(reg: &Registration) -> (r: Vec<u8>)
    ensures
        r@ == record_head_of(group_view(reg.group)),
{
    let mut out = record_prefix_bytes();
    match &reg.group {
        Some(g) => {
            let sep = path_separator_bytes();
            append_bytes(&mut out, g);
            append_bytes(&mut out, &sep);
        },
        None => {},
    }
    out
}

/// The export name under which a registered static in `mod_path` is
/// found again when the records are collected: its start, then the module
/// path, "::" and the static's name.
pub fn record_symbol(reg: &Registration, mod_path: &Vec<u8>) -> (r: Vec<u8>)
    ensures
        r@ == record_symbol_of(group_view(reg.group), mod_path@, reg.name@),
{
    let mut out = record_head(reg);
    let sep = path_separator_bytes();
    append_bytes(&mut out, mod_path);
    append_bytes(&mut out, &sep);
    append_bytes(&mut out, &reg.name);
    proof {
        assert(out@ =~= record_symbol_of(group_view(reg.group), mod_path@, reg.name@));
    }
    out
}

/// Every export name that registration gives starts with the record prefix,
/// so the collection finds the static again.
pub proof fn lemma_record_symbol_is_registered(
    group: Option<Seq<u8>>,
    mod_path: Seq<u8>,
    name: Seq<u8>,
)
    ensures
        is_prefix(record_prefix(), record_symbol_of(group, mod_path, name)),
{
    let s = record_symbol_of(group, mod_path, name);
    let p = record_prefix();
    assert(s.subrange(0, p.len() as int) =~= p);
}

/// Within one group, records are ordered by module path and then by name:
/// their export names compare as "<module path>::<name>" does.
pub proof fn lemma_records_ordered_by_mod_path(
    group: Option<Seq<u8>>,
    path1: Seq<u8>,
    name1: Seq<u8>,
    path2: Seq<u8>,
    name2: Seq<u8>,
)
    ensures
        bytes_lt(record_symbol_of(group, path1, name1), record_symbol_of(group, path2, name2))
            == bytes_lt(
            path1 + path_separator() + name1,
            path2 + path_separator() + name2,
        ),
{
    let head = record_head_of(group);
    lemma_lt_common_prefix(
        head,
        path1 + path_separator() + name1,
        path2 + path_separator() + name2,
    );
}

/// No byte of `n` is ':' (58): true of every Rust identifier.
pub open spec fn has_no_colon(n: Seq<u8>) -> bool {
    forall|i: int| 0 <= i < n.len() ==> #[trigger] n[i] != 58u8
}

proof fn lemma_path_name_split(p1: Seq<u8>, n1: Seq<u8>, p2: Seq<u8>, n2: Seq<u8>)
    requires
        p1 + path_separator() + n1 == p2 + path_separator() + n2,
        has_no_colon(n2),
    ensures
        n1.len() >= n2.len(),
{
    let u = p1 + path_separator() + n1;
    let w = p2 + path_separator() + n2;
    if n1.len() < n2.len() {
        let i: int = p1.len() as int + 1;
        let ps1 = p1 + path_separator();
        let ps2 = p2 + path_separator();
        assert(ps1.len() == p1.len() + 2);
        assert(ps2.len() == p2.len() + 2);
        assert(u.len() == w.len());
        assert(ps1[i] == 58u8);
        assert(u[i] == ps1[i]);
        assert(i >= ps2.len());
        assert(w[i] == n2[i - ps2.len()]);
        assert(false);
    }
}

/// Within one group, two statics with different (module path, name) pairs
/// get different export names, so two records never share a symbol. Names
/// are identifiers, which hold no ':'.
pub proof fn lemma_record_symbol_injective(
    group: Option<Seq<u8>>,
    path1: Seq<u8>,
    name1: Seq<u8>,
    path2: Seq<u8>,
    name2: Seq<u8>,
)
    requires
        has_no_colon(name1),
        has_no_colon(name2),
        record_symbol_of(group, path1, name1) == record_symbol_of(group, path2, name2),
    ensures
        path1 == path2,
        name1 == name2,
{
    let head = record_head_of(group);
    let u = path1 + path_separator() + name1;
    let w = path2 + path_separator() + name2;
    assert((head + u).skip(head.len() as int) =~= u);
    assert((head + w).skip(head.len() as int) =~= w);
    assert(u == w);
    lemma_path_name_split(path1, name1, path2, name2);
    lemma_path_name_split(path2, name2, path1, name1);
    assert(name1 =~= u.skip(u.len() - name1.len()));
    assert(name2 =~= w.skip(w.len() - name2.len()));
    assert(path1 =~= u.take(path1.len() as int));
    assert(path2 =~= w.take(path2.len() as int));
}

} // verus!
