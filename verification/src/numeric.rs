//! Numeric type names: the surface types `Integer` and `Float64` and the
//! backend types `iN` and `fN`.
use vstd::prelude::*;
use crate::fields::chars_of;
use crate::names::str_chars;

verus! {

/// The part of a possibly qualified name after its last `.`.
pub open spec fn last_seg(s: Seq<char>) -> Seq<char>
    decreases s.len(),
{
    if s.len() == 0 {
        s
    } else if s.last() == '.' {
        Seq::empty()
    } else {
        last_seg(s.drop_last()).push(s.last())
    }
}

pub open spec fn is_digit(c: char) -> bool {
    '0' <= c && c <= '9'
}

pub open spec fn digits_value(d: Seq<char>) -> int
    decreases d.len(),
{
    if d.len() == 0 {
        0
    } else {
        digits_value(d.drop_last()) * 10 + (d.last() as int - '0' as int)
    }
}

/// `s` is the decimal text of a `u16`, as `str::parse::<u16>` accepts it: an
/// optional `+`, then at least one digit, with a value of at most 65535.
pub open spec fn is_u16_text(s: Seq<char>) -> bool {
    let d = unsigned_digits(s);
    &&& d.len() > 0
    &&& all_digits(d)
    &&& digits_value(d) <= 65535
}

/// The text after an optional leading `+`.
pub open spec fn unsigned_digits(s: Seq<char>) -> Seq<char> {
    if s.len() > 0 && s[0] == '+' {
        s.drop_first()
    } else {
        s
    }
}

pub open spec fn all_digits(d: Seq<char>) -> bool {
    forall|i: int| 0 <= i < d.len() ==> is_digit(#[trigger] d[i])
}

/// A backend integer type name `iN` (after its qualifier).
pub open spec fn is_int_name(s: Seq<char>) -> bool {
    backend_bits(s, 'i') is Some
}

/// A backend float type name `fN` (after its qualifier).
pub open spec fn is_float_name(s: Seq<char>) -> bool {
    backend_bits(s, 'f') is Some
}

pub open spec fn integer_word() -> Seq<char> {
    seq!['I', 'n', 't', 'e', 'g', 'e', 'r']
}

pub open spec fn float64_word() -> Seq<char> {
    seq!['F', 'l', 'o', 'a', 't', '6', '4']
}

/// Two type constructor names denote compatible numeric types: the surface
/// `Integer` and backend `iN` are mutually compatible, backend integers
/// widen into one another, and `Float64` is compatible with `fN`; two
/// different backend float types are not (float widening is no subtyping).
pub open spec fn numeric_compatible_spec(a: Seq<char>, b: Seq<char>) -> bool {
    let a0 = last_seg(a);
    let b0 = last_seg(b);
    ||| (a0 == integer_word() && is_int_name(b0))
    ||| (b0 == integer_word() && is_int_name(a0))
    ||| (is_int_name(a0) && is_int_name(b0))
    ||| (a0 == float64_word() && is_float_name(b0))
    ||| (b0 == float64_word() && is_float_name(a0))
}

/// The characters after the last `.`.
pub fn last_ty_seg(name: &Vec<char>) -> (r: Vec<char>)
    ensures
        r@ == last_seg(name@),
{
    let mut i: usize = name.len();
    assert(name@.take(i as int) =~= name@);
    assert(name@.skip(i as int) =~= Seq::<char>::empty());
    while i > 0 && name[i - 1] != '.'
        invariant
            i <= name.len(),
            last_seg(name@) == last_seg(name@.take(i as int)) + name@.skip(i as int),
        decreases i,
    {
        assert(name@.take(i as int).drop_last() =~= name@.take(i - 1));
        assert(name@.skip(i - 1) =~= seq![name@[i - 1]] + name@.skip(i as int));
        assert(last_seg(name@.take(i as int)) == last_seg(name@.take(i - 1)).push(name@[i - 1]));
        i -= 1;
    }
    if i > 0 {
        assert(name@.take(i as int).last() == '.');
        assert(last_seg(name@.take(i as int)) == Seq::<char>::empty());
    } else {
        assert(name@.take(0) =~= Seq::<char>::empty());
    }
    let mut out: Vec<char> = Vec::new();
    let mut j: usize = i;
    while j < name.len()
        invariant
            i <= j <= name.len(),
            out@ == name@.subrange(i as int, j as int),
        decreases name.len() - j,
    {
        out.push(name[j]);
        j += 1;
        assert(out@ =~= name@.subrange(i as int, j as int));
    }
    assert(name@.subrange(i as int, name.len() as int) =~= name@.skip(i as int));
    assert(last_seg(name@) =~= out@);
    out
}

/// The value of the text of a `u16`, as `str::parse::<u16>` gives it.
pub open spec fn u16_value(s: Seq<char>) -> Option<u16> {
    if is_u16_text(s) {
        Some(digits_value(unsigned_digits(s)) as u16)
    } else {
        None
    }
}

/// The bit width of a backend type name `cN` (after its qualifier): `N`
/// where it is the text of a `u16`.
pub open spec fn backend_bits(s: Seq<char>, c: char) -> Option<u16> {
    let l = last_seg(s);
    if l.len() > 0 && l[0] == c {
        u16_value(l.drop_first())
    } else {
        None
    }
}

/// Parses the characters of `s` from `from` on as a `u16`.
fn parse_u16(s: &Vec<char>, from: usize) -> (r: Option<u16>)
    requires
        from <= s.len(),
    ensures
        r == u16_value(s@.skip(from as int)),
{
    let ghost t = s@.skip(from as int);
    let mut start = from;
    if start < s.len() && s[start] == '+' {
        start += 1;
    }
    let ghost d = s@.skip(start as int);
    assert(d =~= unsigned_digits(t));
    if start >= s.len() {
        return None;
    }
    let mut value: u32 = 0;
    let mut k: usize = start;
    while k < s.len()
        invariant
            start <= k <= s.len(),
            start < s.len(),
            d == s@.skip(start as int),
            t == s@.skip(from as int),
            d == unsigned_digits(t),
            forall|i: int| start <= i < k ==> is_digit(#[trigger] s@[i]),
            value == digits_value(s@.subrange(start as int, k as int)),
            value <= 65535,
        decreases s.len() - k,
    {
        let c = s[k];
        if !('0' <= c && c <= '9') {
            assert(!is_digit(d[k - start]));
            assert(!all_digits(d));
            return None;
        }
        let digit: u32 = (c as u32) - ('0' as u32);
        assert(s@.subrange(start as int, k + 1).drop_last() =~= s@.subrange(start as int, k as int));
        let nv: u32 = value * 10 + digit;
        k += 1;
        if nv > 65535 {
            proof {
                assert(d.take((k - start) as int) =~= s@.subrange(start as int, k as int));
                if is_u16_text(t) {
                    lemma_digits_value_prefix_bound(d, (k - start) as int);
                }
            }
            return None;
        }
        value = nv;
    }
    assert(d =~= s@.subrange(start as int, s.len() as int));
    Some(value as u16)
}

/// A longer all-digit text never has a smaller value.
proof fn lemma_digits_value_prefix_bound(d: Seq<char>, k: int)
    requires
        0 <= k <= d.len(),
        forall|i: int| 0 <= i < d.len() ==> is_digit(#[trigger] d[i]),
    ensures
        digits_value(d) >= digits_value(d.take(k)),
        digits_value(d.take(k)) >= 0,
    decreases d.len(),
{
    if k == d.len() {
        assert(d.take(k) =~= d);
        lemma_digits_value_nonneg(d);
    } else {
        assert(d.drop_last().take(k) =~= d.take(k));
        lemma_digits_value_prefix_bound(d.drop_last(), k);
        lemma_digits_value_nonneg(d.drop_last());
    }
}

proof fn lemma_digits_value_nonneg(d: Seq<char>)
    requires
        forall|i: int| 0 <= i < d.len() ==> is_digit(#[trigger] d[i]),
    ensures
        digits_value(d) >= 0,
    decreases d.len(),
{
    if d.len() > 0 {
        lemma_digits_value_nonneg(d.drop_last());
        assert(is_digit(d[d.len() - 1]));
    }
}

/// The bit width `N` of a backend type name `cN`, after its qualifier.
fn backend_bits_of(s: &Vec<char>, c: char) -> (r: Option<u16>)
    ensures
        r == backend_bits(s@, c),
{
    let l = last_ty_seg(s);
    if l.len() == 0 || l[0] != c {
        return None;
    }
    assert(l@.skip(1) =~= l@.drop_first());
    parse_u16(&l, 1)
}

/// The bit width of a backend integer type name `iN`.
pub fn backend_int_bits(name: &str) -> (r: Option<u16>)
    ensures
        r == backend_bits(name@, 'i'),
{
    backend_bits_of(&str_chars(name), 'i')
}

/// The bit width of a backend float type name `fN`.
pub fn backend_float_bits(name: &str) -> (r: Option<u16>)
    ensures
        r == backend_bits(name@, 'f'),
{
    backend_bits_of(&str_chars(name), 'f')
}

fn chars_eq(a: &Vec<char>, b: &Vec<char>) -> (r: bool)
    ensures
        r == (a@ == b@),
{
    if a.len() != b.len() {
        return false;
    }
    let mut i: usize = 0;
    while i < a.len()
        invariant
            a.len() == b.len(),
            i <= a.len(),
            a@.take(i as int) == b@.take(i as int),
        decreases a.len() - i,
    {
        if a[i] != b[i] {
            return false;
        }
        i += 1;
        assert(a@.take(i as int) =~= b@.take(i as int));
    }
    assert(a@ =~= a@.take(a.len() as int));
    assert(b@ =~= b@.take(b.len() as int));
    true
}

/// Whether two type constructor names denote compatible numeric types.
pub fn numeric_compatible(a: &String, b: &String) -> (r: bool)
    ensures
        r == numeric_compatible_spec(a@, b@),
{
    let ca = chars_of(a);
    let cb = chars_of(b);
    let a0 = last_ty_seg(&ca);
    let b0 = last_ty_seg(&cb);
    let integer = vec!['I', 'n', 't', 'e', 'g', 'e', 'r'];
    let float64 = vec!['F', 'l', 'o', 'a', 't', '6', '4'];
    assert(integer@ =~= integer_word());
    assert(float64@ =~= float64_word());
    let a_is_integer = chars_eq(&a0, &integer);
    let b_is_integer = chars_eq(&b0, &integer);
    let a_int = backend_bits_of(&a0, 'i').is_some();
    let b_int = backend_bits_of(&b0, 'i').is_some();
    if (a_is_integer && b_int) || (b_is_integer && a_int) || (a_int && b_int) {
        return true;
    }
    let a_is_float = chars_eq(&a0, &float64);
    let b_is_float = chars_eq(&b0, &float64);
    let a_flt = backend_bits_of(&a0, 'f').is_some();
    let b_flt = backend_bits_of(&b0, 'f').is_some();
    (a_is_float && b_flt) || (b_is_float && a_flt)
}

} // verus!
