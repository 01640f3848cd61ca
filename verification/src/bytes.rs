//! Byte strings: the order in which symbol names are compared, and the
//! fixed names that the record search looks for.
use vstd::prelude::*;

verus! {

/// Lexicographic order on byte strings: the order of `str` comparison on
/// the UTF-8 bytes of two names (a proper prefix comes first).
pub open spec fn bytes_lt(a: Seq<u8>, b: Seq<u8>) -> bool
    decreases a.len(),
{
    if a.len() == 0 {
        b.len() > 0
    } else if b.len() == 0 {
        false
    } else if a[0] != b[0] {
        a[0] < b[0]
    } else {
        bytes_lt(a.drop_first(), b.drop_first())
    }
}

/// `p` is a prefix of `s`.
pub open spec fn is_prefix(p: Seq<u8>, s: Seq<u8>) -> bool {
    p.len() <= s.len() && s.subrange(0, p.len() as int) == p
}

/// No byte string comes before itself.
pub proof fn lemma_lt_irreflexive(a: Seq<u8>)
    ensures
        !bytes_lt(a, a),
    decreases a.len(),
{
    if a.len() > 0 {
        lemma_lt_irreflexive(a.drop_first());
    }
}

/// The order is transitive.
pub proof fn lemma_lt_transitive(a: Seq<u8>, b: Seq<u8>, c: Seq<u8>)
    requires
        bytes_lt(a, b),
        bytes_lt(b, c),
    ensures
        bytes_lt(a, c),
    decreases a.len(),
{
    if a.len() > 0 && b.len() > 0 && c.len() > 0 && a[0] == b[0] && b[0] == c[0] {
        lemma_lt_transitive(a.drop_first(), b.drop_first(), c.drop_first());
    }
}

/// Two different byte strings are ordered one way or the other.
pub proof fn lemma_lt_total(a: Seq<u8>, b: Seq<u8>)
    ensures
        a == b || bytes_lt(a, b) || bytes_lt(b, a),
    decreases a.len(),
{
    if a.len() == 0 && b.len() == 0 {
        assert(a =~= b);
    } else if a.len() > 0 && b.len() > 0 && a[0] == b[0] {
        lemma_lt_total(a.drop_first(), b.drop_first());
        if a.drop_first() == b.drop_first() {
            assert(a =~= seq![a[0]] + a.drop_first());
            assert(b =~= seq![b[0]] + b.drop_first());
        }
    }
}

/// A common prefix does not change how two byte strings are ordered.
pub proof fn lemma_lt_common_prefix(c: Seq<u8>, a: Seq<u8>, b: Seq<u8>)
    ensures
        bytes_lt(c + a, c + b) == bytes_lt(a, b),
    decreases c.len(),
{
    if c.len() > 0 {
        assert((c + a).drop_first() =~= c.drop_first() + a);
        assert((c + b).drop_first() =~= c.drop_first() + b);
        lemma_lt_common_prefix(c.drop_first(), a, b);
    } else {
        assert(c + a =~= a);
        assert(c + b =~= b);
    }
}

/// Compares two byte strings in the order of `bytes_lt`.
pub fn bytes_less(a: &Vec<u8>, b: &Vec<u8>) -> (r: bool)
    ensures
        r == bytes_lt(a@, b@),
{
    let mut i: usize = 0;
    assert(a@.skip(0) =~= a@);
    assert(b@.skip(0) =~= b@);
    while i < a.len() && i < b.len() && a[i] == b[i]
        invariant
            i <= a.len(),
            i <= b.len(),
            bytes_lt(a@, b@) == bytes_lt(a@.skip(i as int), b@.skip(i as int)),
        decreases a.len() - i,
    {
        assert(a@.skip(i as int).drop_first() =~= a@.skip(i + 1));
        assert(b@.skip(i as int).drop_first() =~= b@.skip(i + 1));
        i += 1;
    }
    if i == a.len() {
        i < b.len()
    } else if i == b.len() {
        false
    } else {
        a[i] < b[i]
    }
}

/// Tells whether two byte strings are equal.
pub fn bytes_equal(a: &Vec<u8>, b: &Vec<u8>) -> (r: bool)
    ensures
        r == (a@ == b@),
{
    if a.len() != b.len() {
        return false;
    }
    let mut i: usize = 0;
    while i < a.len()
        invariant
            a.len() == b.len(),
            i <= a.len(),
            forall|j: int| 0 <= j < i ==> a@[j] == b@[j],
        decreases a.len() - i,
    {
        if a[i] != b[i] {
            return false;
        }
        i += 1;
    }
    assert(a@ =~= b@);
    true
}

/// Tells whether `p` is a prefix of `s`.
pub fn starts_with(s: &Vec<u8>, p: &Vec<u8>) -> (r: bool)
    ensures
        r == is_prefix(p@, s@),
{
    if p.len() > s.len() {
        return false;
    }
    let mut i: usize = 0;
    while i < p.len()
        invariant
            p.len() <= s.len(),
            i <= p.len(),
            forall|j: int| 0 <= j < i ==> s@[j] == p@[j],
        decreases p.len() - i,
    {
        if s[i] != p[i] {
            assert(s@.subrange(0, p.len() as int)[i as int] != p@[i as int]);
            return false;
        }
        i += 1;
    }
    assert(s@.subrange(0, p.len() as int) =~= p@);
    true
}

/// Appends the bytes of `b` to `out`.
pub fn append_bytes(out: &mut Vec<u8>, b: &Vec<u8>)
    ensures
        final(out)@ == old(out)@ + b@,
{
    let mut i: usize = 0;
    while i < b.len()
        invariant
            i <= b.len(),
            out@ == old(out)@ + b@.subrange(0, i as int),
        decreases b.len() - i,
    {
        out.push(b[i]);
        i += 1;
        assert(old(out)@ + b@.subrange(0, i as int) =~= (old(out)@ + b@.subrange(0, i - 1)).push(
            b@[i - 1],
        ));
    }
    assert(b@.subrange(0, b.len() as int) =~= b@);
}

/// "__staticizer_record_": the start of the export name of every record.
pub open spec fn record_prefix() -> Seq<u8> {
    seq![
        95u8, 95u8, 115u8, 116u8, 97u8, 116u8, 105u8, 99u8, 105u8, 122u8, 101u8, 114u8, 95u8,
        114u8, 101u8, 99u8, 111u8, 114u8, 100u8, 95u8,
    ]
}

/// The bytes of `record_prefix`.
pub fn record_prefix_bytes() -> (r: Vec<u8>)
    ensures
        r@ == record_prefix(),
{
    vec![
        95u8, 95u8, 115u8, 116u8, 97u8, 116u8, 105u8, 99u8, 105u8, 122u8, 101u8, 114u8, 95u8,
        114u8, 101u8, 99u8, 111u8, 114u8, 100u8, 95u8,
    ]
}

/// "::": the separator of path segments.
pub open spec fn path_separator() -> Seq<u8> {
    seq![58u8, 58u8]
}

/// The bytes of `path_separator`.
pub fn path_separator_bytes() -> (r: Vec<u8>)
    ensures
        r@ == path_separator(),
{
    vec![58u8, 58u8]
}

/// "staticizer": the name of this library's crate.
pub open spec fn library_crate() -> Seq<u8> {
    seq![115u8, 116u8, 97u8, 116u8, 105u8, 99u8, 105u8, 122u8, 101u8, 114u8]
}

/// The bytes of `library_crate`.
pub fn library_crate_bytes() -> (r: Vec<u8>)
    ensures
        r@ == library_crate(),
{
    vec![115u8, 116u8, 97u8, 116u8, 105u8, 99u8, 105u8, 122u8, 101u8, 114u8]
}

/// "ITEMS": the constant through which records are read.
pub open spec fn items_const() -> Seq<u8> {
    seq![73u8, 84u8, 69u8, 77u8, 83u8]
}

/// The bytes of `items_const`.
pub fn items_const_bytes() -> (r: Vec<u8>)
    ensures
        r@ == items_const(),
{
    vec![73u8, 84u8, 69u8, 77u8, 83u8]
}

/// "output": the generic getter whose final instances the application keeps.
pub open spec fn output_fn() -> Seq<u8> {
    seq![111u8, 117u8, 116u8, 112u8, 117u8, 116u8]
}

/// The bytes of `output_fn`.
pub fn output_fn_bytes() -> (r: Vec<u8>)
    ensures
        r@ == output_fn(),
{
    vec![111u8, 117u8, 116u8, 112u8, 117u8, 116u8]
}

} // verus!
