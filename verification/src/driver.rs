//! The command line with which the driver runs the compiler.
use vstd::prelude::*;

verus! {

/// `s` occurs in `t` as a contiguous run.
pub open spec fn is_infix(s: Seq<char>, t: Seq<char>) -> bool {
    exists|i: int| 0 <= i && i + s.len() <= t.len() && #[trigger] t.subrange(i, i + s.len()) == s
}

/// The part of `p` after its last '/'.
pub open spec fn last_segment(p: Seq<char>) -> Seq<char>
    decreases p.len(),
{
    if p.len() == 0 {
        p
    } else if p.last() == '/' {
        Seq::empty()
    } else {
        last_segment(p.drop_last()).push(p.last())
    }
}

/// The index of the last '.' in `s`, or -1 where there is none.
pub open spec fn last_dot(s: Seq<char>) -> int
    decreases s.len(),
{
    if s.len() == 0 {
        -1
    } else if s.last() == '.' {
        s.len() - 1
    } else {
        last_dot(s.drop_last())
    }
}

/// The stem of a file name: the part before its last '.', or the whole name
/// where it has no '.' or only a leading one.
pub open spec fn name_stem(name: Seq<char>) -> Seq<char> {
    if last_dot(name) <= 0 {
        name
    } else {
        name.take(last_dot(name))
    }
}

/// A path that splits alike on every platform: no '\\' and no ':', no
/// leading "//", and a last '/'-separated segment that is neither empty,
/// "." nor "..". Its file name is that segment.
pub open spec fn is_simple_path(p: Seq<char>) -> bool {
    &&& forall|i: int| 0 <= i < p.len() ==> #[trigger] p[i] != '\\' && p[i] != ':'
    &&& !(p.len() >= 2 && p[0] == '/' && p[1] == '/')
    &&& last_segment(p).len() > 0
    &&& last_segment(p) != seq!['.']
    &&& last_segment(p) != seq!['.', '.']
}

/// The final component of `path` without its extension, as
/// `std::path::Path::file_stem` gives it (made UTF-8). The contract claims
/// what its documentation gives on every platform: the stem is a part of the
/// path; for a simple path it is the stem of the last segment (the part
/// before the last '.', or the whole segment where it has no '.' or only a
/// leading one). How other paths split into components depends on the
/// platform and is not stated.
#[verifier::external_body]
fn file_stem(path: &String) -> (r: Option<String>)
    ensures
        r is Some ==> is_infix(r->Some_0@, path@),
        is_simple_path(path@) ==> (r is Some && r->Some_0@ == name_stem(last_segment(path@))),
{
    match std::path::Path::new(path.as_str()).file_stem() {
        Some(stem) => Some(stem.to_string_lossy().into_owned()),
        None => None,
    }
}

/// The flag that keeps each crate's generic instances to itself, so that the
/// application's final output getters are the ones that are linked.
pub open spec fn share_generics_flag() -> Seq<char> {
    "-Zshare-generics=no"@
}

/// The arguments left when the compiler path is dropped, if it is there.
pub open spec fn kept_args(args: Seq<String>, second_is_compiler: bool) -> Seq<String> {
    if second_is_compiler && args.len() >= 2 {
        args.remove(1)
    } else {
        args
    }
}

/// The compiler's command line: the wrapper's arguments without the
/// compiler path that Cargo puts second (when `second_is_compiler` says it
/// is there), followed by the share-generics flag.
pub fn compiler_args_with(args: Vec<String>, second_is_compiler: bool) -> (r: Vec<String>)
    ensures
        r@.len() == kept_args(args@, second_is_compiler).len() + 1,
        r@.drop_last() == kept_args(args@, second_is_compiler),
        r@.last()@ == share_generics_flag(),
{
    let mut args = args;
    if second_is_compiler && args.len() >= 2 {
        args.remove(1);
    }
    let ghost kept = args@;
    args.push(String::from_str("-Zshare-generics=no"));
    assert(args@.drop_last() =~= kept);
    args
}

/// Tells whether a command-line argument names the compiler: a path whose
/// file stem is "rustc". Only an argument that holds "rustc" can name it,
/// and a simple path names it exactly when the stem of its last segment is
/// "rustc".
fn names_compiler(arg: &String) -> (r: bool)
    ensures
        r ==> is_infix("rustc"@, arg@),
        is_simple_path(arg@) ==> (r <==> name_stem(last_segment(arg@)) == "rustc"@),
{
    match file_stem(arg) {
        Some(stem) => stem == String::from_str("rustc"),
        None => false,
    }
}

/// The compiler's command line for the arguments the wrapper was started
/// with: the second argument, which Cargo sets to the compiler's path, is
/// dropped when it names the compiler (for a simple path: when the stem of
/// its last segment is "rustc"), and the share-generics flag is appended.
pub fn compiler_args(args: Vec<String>) -> (r: Vec<String>)
    ensures
        r@.last()@ == share_generics_flag(),
        r@.drop_last() == args@ || (args@.len() >= 2 && r@.drop_last() == args@.remove(1)
            && is_infix("rustc"@, args@[1]@)),
        args@.len() >= 2 && is_simple_path(args@[1]@) ==> r@.drop_last() == kept_args(
            args@,
            name_stem(last_segment(args@[1]@)) == "rustc"@,
        ),
{
    let second = args.len() >= 2 && names_compiler(&args[1]);
    compiler_args_with(args, second)
}

} // verus!
