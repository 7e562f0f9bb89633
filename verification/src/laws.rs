//! Laws on what the operations are for: numeric compatibility in
//! unification, instantiation, rendering, exhaustiveness and exports.
use vstd::prelude::*;
use crate::display::{render, NamesV};
use crate::names::case_primitive_check;
use crate::numeric::{
    all_digits, backend_bits, digits_value, float64_word, integer_word, is_digit, is_float_name, is_int_name, is_u16_text,
    last_seg, numeric_compatible_spec, u16_value, unsigned_digits,
};
use crate::subst::SubstV;
use crate::ty::{ftv, size, TyV};
use crate::scheme::{fresh_map, lemma_replace_fields_v, lemma_replace_seq_v, replace_v};
use crate::unify::{unify_f, unify_v, UnifyError};
use crate::exports::SymbolKind;
use crate::module_exports::{ctor_name_list, data_ctors, export_one, insert_ctors, insert_listed, module_exports_spec};
use crate::syntax::{ExportV, ItemV, TypeV};

verus! {

/// Whether two constructor names are numerically compatible does not
/// depend on which side of the unification each stands.
pub proof fn law_numeric_compatible_symmetric(a: Seq<char>, b: Seq<char>)
    ensures
        numeric_compatible_spec(a, b) == numeric_compatible_spec(b, a),
{
}

proof fn lemma_last_seg_plain(s: Seq<char>)
    requires
        forall|i: int| 0 <= i < s.len() ==> s[i] != '.',
    ensures
        last_seg(s) == s,
    decreases s.len(),
{
    if s.len() > 0 {
        lemma_last_seg_plain(s.drop_last());
        assert(s.drop_last().push(s.last()) =~= s);
    }
}

proof fn lemma_digits_small(d: Seq<char>)
    requires
        all_digits(d),
    ensures
        0 <= digits_value(d) < pow10(d.len()),
    decreases d.len(),
{
    if d.len() > 0 {
        assert(all_digits(d.drop_last())) by {
            assert forall|i: int| 0 <= i < d.drop_last().len() implies is_digit(#[trigger] d.drop_last()[i]) by {
                assert(is_digit(d[i]));
            }
        }
        lemma_digits_small(d.drop_last());
        assert(is_digit(d[d.len() - 1]));
    }
}

pub open spec fn pow10(n: nat) -> int
    decreases n,
{
    if n == 0 {
        1
    } else {
        10 * pow10((n - 1) as nat)
    }
}

/// A unification of constructor names binds nothing, and succeeds exactly
/// when the names are equal or numerically compatible.
pub proof fn law_unify_constructors(x: Seq<char>, y: Seq<char>)
    ensures
        unify_v(Map::empty(), TyV::Con(x), TyV::Con(y)) == if x == y || numeric_compatible_spec(x, y) {
            Some(Ok::<SubstV, UnifyError>(Map::empty()))
        } else {
            Some(Err::<SubstV, UnifyError>(UnifyError::CannotUnify))
        },
{
    crate::sound::lemma_apply_empty(TyV::Con(x));
    crate::sound::lemma_apply_empty(TyV::Con(y));
    assert(unify_f(1, Map::empty(), TyV::Con(x), TyV::Con(y)) is Some);
    crate::unify::lemma_unify_fuel(1, Map::empty(), TyV::Con(x), TyV::Con(y));
}

/// The surface `Float64` unifies with every backend float type `f<N>`
/// (`N` of one to four decimal digits), whichever side each stands on,
/// binding nothing.
pub proof fn law_float64_unifies_with_backend_floats(d: Seq<char>)
    requires
        1 <= d.len() <= 4,
        forall|i: int| 0 <= i < d.len() ==> '0' <= #[trigger] d[i] && d[i] <= '9',
    ensures
        unify_v(Map::empty(), TyV::Con("Float64"@), TyV::Con(seq!['f'] + d)) == Some(Ok::<SubstV, UnifyError>(Map::empty())),
        unify_v(Map::empty(), TyV::Con(seq!['f'] + d), TyV::Con("Float64"@)) == Some(Ok::<SubstV, UnifyError>(Map::empty())),
{
    reveal_strlit("Float64");
    let n = seq!['f'] + d;
    let fl = "Float64"@;
    assert(fl =~= float64_word());
    lemma_last_seg_plain(fl);
    assert forall|i: int| 0 <= i < n.len() implies n[i] != '.' by {
        if i > 0 {
            assert(n[i] == d[i - 1]);
        }
    }
    lemma_last_seg_plain(n);
    assert(n.drop_first() =~= d);
    assert(unsigned_digits(d) == d);
    assert(all_digits(d)) by {
        assert forall|i: int| 0 <= i < d.len() implies is_digit(#[trigger] d[i]) by {}
    }
    lemma_digits_small(d);
    assert(pow10(d.len()) <= 10000) by {
        reveal_with_fuel(pow10, 5);
        assert(pow10(1) == 10);
        assert(pow10(2) == 100);
        assert(pow10(3) == 1000);
        assert(pow10(4) == 10000);
    }
    assert(is_u16_text(d));
    assert(u16_value(d) is Some);
    assert(backend_bits(n, 'f') is Some);
    assert(is_float_name(n));
    assert(numeric_compatible_spec(fl, n));
    assert(numeric_compatible_spec(n, fl));
    law_unify_constructors(fl, n);
    law_unify_constructors(n, fl);
}

/// The surface `Integer` unifies with every backend integer type `i<N>`
/// (`N` of one to four decimal digits), whichever side each stands on, and
/// two backend integer types unify with each other, binding nothing.
pub proof fn law_integer_unifies_with_backend_ints(d: Seq<char>, e: Seq<char>)
    requires
        1 <= d.len() <= 4,
        forall|i: int| 0 <= i < d.len() ==> '0' <= #[trigger] d[i] && d[i] <= '9',
        1 <= e.len() <= 4,
        forall|i: int| 0 <= i < e.len() ==> '0' <= #[trigger] e[i] && e[i] <= '9',
    ensures
        unify_v(Map::empty(), TyV::Con("Integer"@), TyV::Con(seq!['i'] + d)) == Some(Ok::<SubstV, UnifyError>(Map::empty())),
        unify_v(Map::empty(), TyV::Con(seq!['i'] + d), TyV::Con("Integer"@)) == Some(Ok::<SubstV, UnifyError>(Map::empty())),
        unify_v(Map::empty(), TyV::Con(seq!['i'] + d), TyV::Con(seq!['i'] + e)) == Some(Ok::<SubstV, UnifyError>(Map::empty())),
{
    reveal_strlit("Integer");
    let it = "Integer"@;
    assert(it =~= integer_word());
    lemma_last_seg_plain(it);
    lemma_backend_name('i', d);
    lemma_backend_name('i', e);
    assert(numeric_compatible_spec(it, seq!['i'] + d));
    assert(numeric_compatible_spec(seq!['i'] + d, it));
    assert(numeric_compatible_spec(seq!['i'] + d, seq!['i'] + e));
    law_unify_constructors(it, seq!['i'] + d);
    law_unify_constructors(seq!['i'] + d, it);
    law_unify_constructors(seq!['i'] + d, seq!['i'] + e);
}

proof fn lemma_backend_name(c: char, d: Seq<char>)
    requires
        1 <= d.len() <= 4,
        forall|i: int| 0 <= i < d.len() ==> '0' <= #[trigger] d[i] && d[i] <= '9',
        c != '.',
    ensures
        last_seg(seq![c] + d) == seq![c] + d,
        backend_bits(seq![c] + d, c) is Some,
{
    let n = seq![c] + d;
    assert forall|i: int| 0 <= i < n.len() implies n[i] != '.' by {
        if i > 0 {
            assert(n[i] == d[i - 1]);
        }
    }
    lemma_last_seg_plain(n);
    assert(n.drop_first() =~= d);
    assert(unsigned_digits(d) == d);
    assert(all_digits(d)) by {
        assert forall|i: int| 0 <= i < d.len() implies is_digit(#[trigger] d[i]) by {}
    }
    lemma_digits_small(d);
    assert(pow10(d.len()) <= 10000) by {
        reveal_with_fuel(pow10, 5);
    }
    assert(is_u16_text(d));
}

/// A type application in an argument position is enclosed in parentheses.
pub proof fn law_render_application_parenthesised(h: TyV, args: Seq<TyV>, prec: nat, names: NamesV)
    requires
        prec > 1,
    ensures
        render(TyV::App(Box::new(h), args), prec, names) == seq!['('] + render(TyV::App(Box::new(h), args), 0, names) + seq![')'],
{
}

/// A function type in any context tighter than the arrow's own (the left of
/// an arrow, an application, an argument) is enclosed in parentheses.
pub proof fn law_render_function_parenthesised(a: TyV, b: TyV, prec: nat, names: NamesV)
    requires
        prec > 0,
    ensures
        render(TyV::Func(Box::new(a), Box::new(b)), prec, names) == seq!['('] + render(
            TyV::Func(Box::new(a), Box::new(b)),
            0,
            names,
        ) + seq![')'],
{
}

/// A function type given as the argument of a type constructor is shown in
/// parentheses after it.
pub proof fn law_render_function_argument(h: TyV, a: TyV, b: TyV, names: NamesV)
    ensures
        render(TyV::App(Box::new(h), seq![TyV::Func(Box::new(a), Box::new(b))]), 0, names) == render(h, 2, names) + seq![' ', '(']
            + render(TyV::Func(Box::new(a), Box::new(b)), 0, names) + seq![')'],
{
    let f = TyV::Func(Box::new(a), Box::new(b));
    let args = seq![f];
    assert(args.drop_last() =~= Seq::<TyV>::empty());
    assert(crate::display::render_args(Seq::<TyV>::empty(), names) == Seq::<char>::empty());
    assert(args.last() == f);
    assert(crate::display::render_args(args, names) =~= seq![' '] + render(f, 2, names));
    law_render_function_parenthesised(a, b, 2, names);
    assert(render(TyV::App(Box::new(h), args), 0, names) =~= render(h, 2, names) + seq![' ', '('] + render(f, 0, names) + seq![')']);
}

/// A function type on the left of an arrow is shown in parentheses.
pub proof fn law_render_function_domain(a: TyV, b: TyV, c: TyV, names: NamesV)
    ensures
        render(TyV::Func(Box::new(TyV::Func(Box::new(a), Box::new(b))), Box::new(c)), 0, names) == seq!['('] + render(
            TyV::Func(Box::new(a), Box::new(b)),
            0,
            names,
        ) + seq![')', ' ', '-', '>', ' '] + render(c, 0, names),
{
    let f = TyV::Func(Box::new(a), Box::new(b));
    law_render_function_parenthesised(a, b, 1, names);
    assert(render(TyV::Func(Box::new(f), Box::new(c)), 0, names) =~= seq!['('] + render(f, 0, names) + seq![')', ' ', '-', '>', ' ']
        + render(c, 0, names));
}

/// A `case` on a list is exhaustive exactly when it has both an arm for the
/// empty list and one for any non-empty list; otherwise it is reported.
pub proof fn law_list_case_needs_nil_and_cons(elem: TyV, alts: Seq<Seq<char>>)
    ensures
        case_primitive_check(TyV::List(Box::new(elem)), alts) is Some,
        case_primitive_check(TyV::List(Box::new(elem)), alts) == Some(Ok::<(), Seq<char>>(())) <==> (alts.contains(
            "list:nil"@,
        ) && alts.contains("list:cons_all"@)),
{
}

/// A `case` on `Unit` is exhaustive exactly when it has the unit arm.
pub proof fn law_unit_case_needs_unit(alts: Seq<Seq<char>>)
    ensures
        case_primitive_check(TyV::Con("Unit"@), alts) == Some(Ok::<(), Seq<char>>(())) <==> alts.contains("unit"@),
{
    reveal_strlit("Unit");
    reveal_strlit("Bool");
    assert("Unit"@[0] != "Bool"@[0]);
    assert("Unit"@ != "Bool"@);
}

/// A `case` on a `Bool` is exhaustive exactly when both `True` and `False`
/// have an arm.
pub proof fn law_bool_case_needs_both(alts: Seq<Seq<char>>)
    ensures
        case_primitive_check(TyV::Con("Bool"@), alts) == Some(Ok::<(), Seq<char>>(())) <==> (alts.contains("bool:true"@)
            && alts.contains("bool:false"@)),
{
}

/// `x` is a variable that replacing by `m` can leave in `t`: one of `t`'s
/// own that `m` does not replace, or one of the type that `m` puts in place
/// of a variable of `t`.
pub open spec fn may_remain(t: TyV, m: SubstV, x: u32) -> bool {
    ||| (ftv(t).contains(x) && !m.contains_key(x))
    ||| exists|v: u32| #[trigger] ftv(t).contains(v) && m.contains_key(v) && ftv(m[v]).contains(x)
}

/// Every variable of a type after replacement is one of its own that is not
/// replaced, or comes from the type put in place of one of its variables.
pub proof fn law_replace_free_vars(t: TyV, m: SubstV, x: u32)
    requires
        ftv(replace_v(t, m)).contains(x),
    ensures
        may_remain(t, m, x),
    decreases size(t), 1nat,
{
    match t {
        TyV::Var(v) => {
            if m.contains_key(v) {
                assert(ftv(t).contains(v));
            }
        },
        TyV::Con(_) => {},
        TyV::List(a) => {
            law_replace_free_vars(*a, m, x);
            if !(ftv(*a).contains(x) && !m.contains_key(x)) {
                let v = choose|v: u32| #[trigger] ftv(*a).contains(v) && m.contains_key(v) && ftv(m[v]).contains(x);
                assert(ftv(t).contains(v));
            }
        },
        TyV::Func(a, b) => {
            if ftv(replace_v(*a, m)).contains(x) {
                law_replace_free_vars(*a, m, x);
                if !(ftv(*a).contains(x) && !m.contains_key(x)) {
                    let v = choose|v: u32| #[trigger] ftv(*a).contains(v) && m.contains_key(v) && ftv(m[v]).contains(x);
                    assert(ftv(t).contains(v));
                }
            } else {
                law_replace_free_vars(*b, m, x);
                if !(ftv(*b).contains(x) && !m.contains_key(x)) {
                    let v = choose|v: u32| #[trigger] ftv(*b).contains(v) && m.contains_key(v) && ftv(m[v]).contains(x);
                    assert(ftv(t).contains(v));
                }
            }
        },
        TyV::Tuple(ts) => {
            lemma_replace_seq_v(ts, m);
            let rs = crate::scheme::replace_seq_v(ts, m);
            let i = choose|i: int| 0 <= i < rs.len() && ftv(rs[i]).contains(x);
            crate::ty::lemma_sizes_elem(ts, i);
            lemma_elem(t, ts[i], m, x);
        },
        TyV::App(h, args) => {
            lemma_replace_seq_v(args, m);
            let rs = crate::scheme::replace_seq_v(args, m);
            if ftv(replace_v(*h, m)).contains(x) {
                lemma_elem(t, *h, m, x);
            } else {
                let i = choose|i: int| 0 <= i < rs.len() && ftv(rs[i]).contains(x);
                crate::ty::lemma_sizes_elem(args, i);
                lemma_elem(t, args[i], m, x);
            }
        },
        TyV::Record(fs) => {
            lemma_replace_fields_v(fs, m);
            let rs = crate::scheme::replace_fields_v(fs, m);
            let i = choose|i: int| 0 <= i < rs.len() && ftv(rs[i].1).contains(x);
            crate::ty::lemma_field_sizes_elem(fs, i);
            lemma_elem(t, fs[i].1, m, x);
        },
        TyV::RecordOpen(fs, r) => {
            lemma_replace_fields_v(fs, m);
            let rs = crate::scheme::replace_fields_v(fs, m);
            if ftv(replace_v(*r, m)).contains(x) {
                lemma_elem(t, *r, m, x);
            } else {
                let i = choose|i: int| 0 <= i < rs.len() && ftv(rs[i].1).contains(x);
                crate::ty::lemma_field_sizes_elem(fs, i);
                lemma_elem(t, fs[i].1, m, x);
            }
        },
    }
}

/// From a part `u` of `t` whose variables are all `t`'s, what may remain in
/// `u` may remain in `t`.
proof fn lemma_elem(t: TyV, u: TyV, m: SubstV, x: u32)
    requires
        ftv(replace_v(u, m)).contains(x),
        forall|v: u32| ftv(u).contains(v) ==> ftv(t).contains(v),
        size(u) < size(t),
    ensures
        may_remain(t, m, x),
    decreases size(t), 0nat,
{
    law_replace_free_vars(u, m, x);
    if !(ftv(u).contains(x) && !m.contains_key(x)) {
        let v = choose|v: u32| #[trigger] ftv(u).contains(v) && m.contains_key(v) && ftv(m[v]).contains(x);
        assert(ftv(t).contains(v));
    }
}

proof fn lemma_fresh_map(vars: Seq<u32>, n: nat)
    requires
        n + vars.len() <= u32::MAX + 1,
    ensures
        forall|i: int| 0 <= i < vars.len() ==> fresh_map(vars, n).contains_key(#[trigger] vars[i]),
        forall|v: u32| #[trigger] fresh_map(vars, n).contains_key(v) ==> (fresh_map(vars, n)[v] matches TyV::Var(w) && w >= n),
    decreases vars.len(),
{
    if vars.len() > 0 {
        lemma_fresh_map(vars.drop_last(), n);
        assert forall|i: int| 0 <= i < vars.len() implies fresh_map(vars, n).contains_key(#[trigger] vars[i]) by {
            if i < vars.len() - 1 {
                assert(vars.drop_last()[i] == vars[i]);
            }
        }
    }
}

/// Instantiating a scheme with fresh variables numbered from `n` on, above
/// every quantified variable, leaves no quantified variable in the type.
pub proof fn law_instantiate_replaces_quantified(t: TyV, vars: Seq<u32>, n: nat)
    requires
        n + vars.len() <= u32::MAX + 1,
        forall|i: int| 0 <= i < vars.len() ==> (#[trigger] vars[i] as nat) < n,
    ensures
        forall|i: int| 0 <= i < vars.len() ==> !ftv(replace_v(t, fresh_map(vars, n))).contains(#[trigger] vars[i]),
{
    let m = fresh_map(vars, n);
    lemma_fresh_map(vars, n);
    assert forall|i: int| 0 <= i < vars.len() implies !ftv(replace_v(t, m)).contains(#[trigger] vars[i]) by {
        let x = vars[i];
        if ftv(replace_v(t, m)).contains(x) {
            law_replace_free_vars(t, m, x);
            assert(m.contains_key(x));
            let v = choose|v: u32| #[trigger] ftv(t).contains(v) && m.contains_key(v) && ftv(m[v]).contains(x);
            let w = m[v]->Var_0;
            assert(ftv(m[v]) == set![w]);
            assert(w == x);
        }
    }
}

proof fn lemma_first_data(items: Seq<ItemV>, i: int, name: Seq<char>, ps: Seq<Seq<char>>, ctors: Seq<(Seq<char>, Seq<TypeV>)>)
    requires
        0 <= i < items.len(),
        items[i] == ItemV::DataDecl(name, ps, ctors),
        forall|j: int| 0 <= j < i ==> !(#[trigger] items[j] matches ItemV::DataDecl(n, _, _) && n == name),
    ensures
        data_ctors(items, name) == Some(ctor_name_list(ctors)),
    decreases i,
{
    if i > 0 {
        let rest = items.drop_first();
        assert forall|j: int| 0 <= j < i - 1 implies !(#[trigger] rest[j] matches ItemV::DataDecl(n, _, _) && n == name) by {
            assert(rest[j] == items[j + 1]);
        }
        assert(rest[i - 1] == items[i]);
        lemma_first_data(rest, i - 1, name, ps, ctors);
        assert(!(items[0] matches ItemV::DataDecl(n, _, _) && n == name));
    }
}

proof fn lemma_insert_ctors(m: Map<Seq<char>, SymbolKind>, ns: Seq<Seq<char>>)
    ensures
        forall|k: int| 0 <= k < ns.len() ==> insert_ctors(m, ns).contains_key(#[trigger] ns[k]) && insert_ctors(m, ns)[ns[k]]
            == SymbolKind::Ctor,
        forall|x: Seq<char>| #[trigger] m.contains_key(x) ==> insert_ctors(m, ns).contains_key(x),
    decreases ns.len(),
{
    if ns.len() > 0 {
        lemma_insert_ctors(m, ns.drop_last());
        assert forall|k: int| 0 <= k < ns.len() implies insert_ctors(m, ns).contains_key(#[trigger] ns[k])
            && insert_ctors(m, ns)[ns[k]] == SymbolKind::Ctor by {
            if k < ns.len() - 1 {
                assert(ns.drop_last()[k] == ns[k]);
            }
        }
    }
}

/// Exporting `T(..)` for a data type `T` declared in the module exports `T`
/// and every constructor of its first declaration, as constructors, whatever
/// was exported before.
pub proof fn law_export_type_brings_constructors(
    items: Seq<ItemV>,
    imported: Seq<(Seq<char>, Seq<ItemV>)>,
    m: Map<Seq<char>, SymbolKind>,
    i: int,
    name: Seq<char>,
    ps: Seq<Seq<char>>,
    ctors: Seq<(Seq<char>, Seq<TypeV>)>,
)
    requires
        0 <= i < items.len(),
        items[i] == ItemV::DataDecl(name, ps, ctors),
        forall|j: int| 0 <= j < i ==> !(#[trigger] items[j] matches ItemV::DataDecl(n, _, _) && n == name),
    ensures
        export_one(items, imported, m, ExportV::TypeAll(name)) matches Ok(r) && r.contains_key(name) && forall|k: int|
            0 <= k < ctors.len() ==> r.contains_key(#[trigger] ctors[k].0) && r[ctors[k].0] == SymbolKind::Ctor,
{
    lemma_first_data(items, i, name, ps, ctors);
    let m1 = m.insert(name, crate::module_exports::classify_type(items, name));
    let ns = ctor_name_list(ctors);
    lemma_insert_ctors(m1, ns);
    assert(m1.contains_key(name));
    assert(export_one(items, imported, m, ExportV::TypeAll(name)) == Ok::<Map<Seq<char>, SymbolKind>, Seq<char>>(
        insert_ctors(m1, ns),
    ));
    assert forall|k: int| 0 <= k < ctors.len() implies insert_ctors(m1, ns).contains_key(#[trigger] ctors[k].0)
        && insert_ctors(m1, ns)[ctors[k].0] == SymbolKind::Ctor by {
        assert(ns[k] == ctors[k].0);
    }
}

/// A module whose header exports `T(..)` for a data type `T` it declares
/// exports every constructor of `T`.
pub proof fn law_module_exports_type_constructors(
    items: Seq<ItemV>,
    imported: Seq<(Seq<char>, Seq<ItemV>)>,
    i: int,
    name: Seq<char>,
    ps: Seq<Seq<char>>,
    ctors: Seq<(Seq<char>, Seq<TypeV>)>,
)
    requires
        0 <= i < items.len(),
        items[i] == ItemV::DataDecl(name, ps, ctors),
        forall|j: int| 0 <= j < i ==> !(#[trigger] items[j] matches ItemV::DataDecl(n, _, _) && n == name),
    ensures
        module_exports_spec(Some(seq![ExportV::TypeAll(name)]), items, imported) matches Ok(r) && r.contains_key(name)
            && forall|k: int| 0 <= k < ctors.len() ==> r.contains_key(#[trigger] ctors[k].0) && r[ctors[k].0]
            == SymbolKind::Ctor,
{
    let es = seq![ExportV::TypeAll(name)];
    assert(es.drop_last() =~= Seq::<ExportV>::empty());
    law_export_type_brings_constructors(items, imported, Map::empty(), i, name, ps, ctors);
    assert(crate::module_exports::export_all(items, imported, Map::empty(), es.drop_last()) == Ok::<
        Map<Seq<char>, SymbolKind>,
        Seq<char>,
    >(Map::empty()));
    assert(module_exports_spec(Some(es), items, imported) == export_one(items, imported, Map::empty(), ExportV::TypeAll(name)));
}

/// Replacing keeps every variable of `t` that `m` does not replace, and
/// brings in the variables of each type put in place of one of `t`'s.
pub proof fn law_replace_keeps_free_vars(t: TyV, m: SubstV, x: u32)
    requires
        may_remain(t, m, x),
    ensures
        ftv(replace_v(t, m)).contains(x),
    decreases size(t), 1nat,
{
    let v = if ftv(t).contains(x) && !m.contains_key(x) {
        x
    } else {
        choose|v: u32| #[trigger] ftv(t).contains(v) && m.contains_key(v) && ftv(m[v]).contains(x)
    };
    assert(ftv(t).contains(v));
    match t {
        TyV::Var(w) => {
            assert(v == w);
        },
        TyV::Con(_) => {},
        TyV::List(a) => {
            law_replace_keeps_free_vars(*a, m, x);
        },
        TyV::Func(a, b) => {
            if ftv(*a).contains(v) {
                law_replace_keeps_free_vars(*a, m, x);
            } else {
                law_replace_keeps_free_vars(*b, m, x);
            }
        },
        TyV::Tuple(ts) => {
            lemma_replace_seq_v(ts, m);
            let i = choose|i: int| 0 <= i < ts.len() && ftv(ts[i]).contains(v);
            crate::ty::lemma_sizes_elem(ts, i);
            law_replace_keeps_free_vars(ts[i], m, x);
            let rs = crate::scheme::replace_seq_v(ts, m);
            assert(ftv(rs[i]).contains(x));
        },
        TyV::App(h, args) => {
            lemma_replace_seq_v(args, m);
            if ftv(*h).contains(v) {
                law_replace_keeps_free_vars(*h, m, x);
            } else {
                let i = choose|i: int| 0 <= i < args.len() && ftv(args[i]).contains(v);
                crate::ty::lemma_sizes_elem(args, i);
                law_replace_keeps_free_vars(args[i], m, x);
                let rs = crate::scheme::replace_seq_v(args, m);
                assert(ftv(rs[i]).contains(x));
            }
        },
        TyV::Record(fs) => {
            lemma_replace_fields_v(fs, m);
            let i = choose|i: int| 0 <= i < fs.len() && ftv(fs[i].1).contains(v);
            crate::ty::lemma_field_sizes_elem(fs, i);
            law_replace_keeps_free_vars(fs[i].1, m, x);
            let rs = crate::scheme::replace_fields_v(fs, m);
            assert(ftv(rs[i].1).contains(x));
        },
        TyV::RecordOpen(fs, r) => {
            lemma_replace_fields_v(fs, m);
            if ftv(*r).contains(v) {
                law_replace_keeps_free_vars(*r, m, x);
            } else {
                let i = choose|i: int| 0 <= i < fs.len() && ftv(fs[i].1).contains(v);
                crate::ty::lemma_field_sizes_elem(fs, i);
                law_replace_keeps_free_vars(fs[i].1, m, x);
                let rs = crate::scheme::replace_fields_v(fs, m);
                assert(ftv(rs[i].1).contains(x));
            }
        },
    }
}

} // verus!
