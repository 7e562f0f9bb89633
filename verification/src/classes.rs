//! Class declarations of a class environment and the checks made on them
//! once all classes are collected: unambiguous method names, and superclass
//! predicates of the form `C a` over the class parameter and known classes.
use vstd::prelude::*;
use crate::names::{str_eq, string_views};
use crate::qualify::join_comma;
use crate::syntax::{
    binding_views, class_decl_view, expr_view, pred_view, preds_view, type_view, ClassDeclV, ExprV, PatV, PredV, SuperPred,
    SynBinding, SynClassDecl, SynExpr, SynPat, SynType, TypeV,
};

verus! {

/// The class declarations of a class environment; a later entry for a
/// class or method replaces an earlier one.
pub struct ClassEnv {
    /// Each class with the name of its parameter.
    pub class_params: Vec<(String, String)>,
    /// Each class with its superclass predicates.
    pub class_supers: Vec<(String, Vec<SuperPred>)>,
    /// Each method name with the classes that declare it.
    pub method_classes: Vec<(String, Vec<String>)>,
}

pub open spec fn params_view(ps: Seq<(String, String)>) -> Seq<(Seq<char>, Seq<char>)> {
    ps.map_values(|e: (String, String)| (e.0@, e.1@))
}

pub open spec fn supers_view(ss: Seq<(String, Vec<SuperPred>)>) -> Seq<(Seq<char>, Seq<PredV>)> {
    ss.map_values(|e: (String, Vec<SuperPred>)| (e.0@, preds_view(e.1@)))
}

pub open spec fn methods_view(ms: Seq<(String, Vec<String>)>) -> Seq<(Seq<char>, Seq<Seq<char>>)> {
    ms.map_values(|e: (String, Vec<String>)| (e.0@, string_views(e.1@)))
}

/// The parameter of class `c`: that of its last entry.
pub open spec fn param_of(ps: Seq<(Seq<char>, Seq<char>)>, c: Seq<char>) -> Option<Seq<char>>
    decreases ps.len(),
{
    if ps.len() == 0 {
        None
    } else if ps.last().0 == c {
        Some(ps.last().1)
    } else {
        param_of(ps.drop_last(), c)
    }
}

/// The error for a method declared by more than one class, listing them.
pub open spec fn ambiguous_message(m: Seq<char>, cs: Seq<Seq<char>>) -> Seq<char> {
    "ambiguous method name: "@ + m + " (defined in classes: "@ + join_comma(cs) + ")"@
}

/// The first method, in order, that more than one class declares.
pub open spec fn ambiguity_check(ms: Seq<(Seq<char>, Seq<Seq<char>>)>) -> Result<(), Seq<char>>
    decreases ms.len(),
{
    if ms.len() == 0 {
        Ok(())
    } else {
        match ambiguity_check(ms.drop_last()) {
            Err(e) => Err(e),
            Ok(_) => if ms.last().1.len() > 1 {
                Err(ambiguous_message(ms.last().0, ms.last().1))
            } else {
                Ok(())
            },
        }
    }
}

/// Whether a superclass predicate of class `c` with parameter `param` is
/// accepted: a built-in constraint on the parameter, or a known class on
/// the parameter; else the error for it.
pub open spec fn pred_check(ps: Seq<(Seq<char>, Seq<char>)>, c: Seq<char>, param: Seq<char>, p: PredV) -> Result<(), Seq<char>> {
    let shape_error = "MVP: superclass constraints must be of the form `C "@ + param + "`"@;
    match p {
        PredV::Show(t) | PredV::ShowRow(t) | PredV::Eq(t) | PredV::EqRow(t) => if t == TypeV::Var(param) {
            Ok(())
        } else {
            Err(shape_error)
        },
        PredV::Class(sup, t) => if t == TypeV::Var(param) {
            if param_of(ps, sup) is Some {
                Ok(())
            } else {
                Err("unknown superclass `"@ + sup + "` in class `"@ + c + "`"@)
            }
        } else {
            Err(shape_error)
        },
    }
}

/// The first error among the predicates `preds` of class `c`.
pub open spec fn preds_check(ps: Seq<(Seq<char>, Seq<char>)>, c: Seq<char>, param: Seq<char>, preds: Seq<PredV>) -> Result<(), Seq<char>>
    decreases preds.len(),
{
    if preds.len() == 0 {
        Ok(())
    } else {
        match preds_check(ps, c, param, preds.drop_last()) {
            Err(e) => Err(e),
            Ok(_) => pred_check(ps, c, param, preds.last()),
        }
    }
}

/// The first error, class by class in order, among superclass predicates;
/// a class with superclasses but no parameter is an internal error.
pub open spec fn supers_check(ps: Seq<(Seq<char>, Seq<char>)>, ss: Seq<(Seq<char>, Seq<PredV>)>) -> Result<(), Seq<char>>
    decreases ss.len(),
{
    if ss.len() == 0 {
        Ok(())
    } else {
        match supers_check(ps, ss.drop_last()) {
            Err(e) => Err(e),
            Ok(_) => match param_of(ps, ss.last().0) {
                None => Err("internal: missing class param"@),
                Some(param) => preds_check(ps, ss.last().0, param, ss.last().1),
            },
        }
    }
}

/// Whether a spec result and an executable one agree, error text included.
pub open spec fn same_outcome(r: Result<(), String>, m: Result<(), Seq<char>>) -> bool {
    match m {
        Ok(_) => r is Ok,
        Err(e) => r is Err && r->Err_0@ == e,
    }
}

fn lookup_param<'a>(ps: &'a Vec<(String, String)>, c: &str) -> (r: Option<&'a String>)
    ensures
        match param_of(params_view(ps@), c@) {
            Some(p) => r is Some && r->Some_0@ == p,
            None => r is None,
        },
{
    let ghost pv = params_view(ps@);
    let mut i: usize = ps.len();
    assert(pv.take(i as int) =~= pv);
    while i > 0
        invariant
            i <= ps.len(),
            pv == params_view(ps@),
            param_of(pv, c@) == param_of(pv.take(i as int), c@),
        decreases i,
    {
        assert(pv.take(i as int).drop_last() =~= pv.take(i - 1));
        assert(pv.take(i as int).last() == pv[i - 1]);
        if str_eq(ps[i - 1].0.as_str(), c) {
            return Some(&ps[i - 1].1);
        }
        i -= 1;
    }
    assert(pv.take(0) =~= Seq::<(Seq<char>, Seq<char>)>::empty());
    None
}

fn is_var_named(t: &SynType, v: &String) -> (r: bool)
    ensures
        r == (type_view(*t) == TypeV::Var(v@)),
{
    match t {
        SynType::Var(x) => str_eq(x.as_str(), v.as_str()),
        SynType::App(_, _) => false,
    }
}

fn shape_error(param: &String) -> (r: String)
    ensures
        r@ == "MVP: superclass constraints must be of the form `C "@ + param@ + "`"@,
{
    let mut e = String::from_str("MVP: superclass constraints must be of the form `C ");
    e.append(param.as_str());
    e.append("`");
    e
}

fn check_pred(ps: &Vec<(String, String)>, c: &String, param: &String, p: &SuperPred) -> (r: Result<(), String>)
    ensures
        same_outcome(r, pred_check(params_view(ps@), c@, param@, pred_view(*p))),
{
    match p {
        SuperPred::Show(t) | SuperPred::ShowRow(t) | SuperPred::Eq(t) | SuperPred::EqRow(t) => {
            if is_var_named(t, param) {
                Ok(())
            } else {
                Err(shape_error(param))
            }
        },
        SuperPred::Class(sup, t) => {
            if !is_var_named(t, param) {
                return Err(shape_error(param));
            }
            if lookup_param(ps, sup.as_str()).is_some() {
                Ok(())
            } else {
                let mut e = String::from_str("unknown superclass `");
                e.append(sup.as_str());
                e.append("` in class `");
                e.append(c.as_str());
                e.append("`");
                Err(e)
            }
        },
    }
}

/// Checks the superclass predicates of every class, in order: each must be
/// a built-in constraint or a known class applied to the class parameter.
pub fn validate_superclass_preds(env: &ClassEnv) -> (r: Result<(), String>)
    ensures
        same_outcome(r, supers_check(params_view(env.class_params@), supers_view(env.class_supers@))),
{
    let ghost pv = params_view(env.class_params@);
    let ghost sv = supers_view(env.class_supers@);
    let mut i: usize = 0;
    assert(sv.take(0) =~= Seq::<(Seq<char>, Seq<PredV>)>::empty());
    while i < env.class_supers.len()
        invariant
            i <= env.class_supers.len(),
            pv == params_view(env.class_params@),
            sv == supers_view(env.class_supers@),
            supers_check(pv, sv.take(i as int)) is Ok,
        decreases env.class_supers.len() - i,
    {
        assert(sv.take(i + 1).drop_last() =~= sv.take(i as int));
        assert(sv.take(i + 1).last() == sv[i as int]);
        let class = &env.class_supers[i].0;
        let preds = &env.class_supers[i].1;
        let param = match lookup_param(&env.class_params, class.as_str()) {
            None => {
                proof {
                    assert(sv[i as int] == (class@, preds_view(preds@)));
                    lemma_supers_check_prefix(pv, sv, i as int + 1);
                }
                return Err(String::from_str("internal: missing class param"));
            },
            Some(p) => p,
        };
        let ghost qv = preds_view(preds@);
        assert(sv[i as int] == (class@, qv));
        let mut j: usize = 0;
        assert(qv.take(0) =~= Seq::<PredV>::empty());
        while j < preds.len()
            invariant
                j <= preds.len(),
                qv == preds_view(preds@),
                preds_check(pv, class@, param@, qv.take(j as int)) is Ok,
                pv == params_view(env.class_params@),
                i < env.class_supers.len(),
                sv == supers_view(env.class_supers@),
                supers_check(pv, sv.take(i as int)) is Ok,
                sv.take(i + 1).drop_last() == sv.take(i as int),
                sv.take(i + 1).last() == sv[i as int],
                sv[i as int] == (class@, qv),
                param_of(pv, class@) == Some(param@),
            decreases preds.len() - j,
        {
            assert(qv.take(j + 1).drop_last() =~= qv.take(j as int));
            assert(qv.take(j + 1).last() == pred_view(preds@[j as int]));
            let r = check_pred(&env.class_params, class, param, &preds[j]);
            if r.is_err() {
                proof {
                    lemma_preds_check_prefix(pv, class@, param@, qv, j as int + 1);
                    lemma_supers_check_prefix(pv, sv, i as int + 1);
                }
                return r;
            }
            j += 1;
        }
        assert(qv.take(preds.len() as int) =~= qv);
        i += 1;
    }
    assert(sv.take(env.class_supers.len() as int) =~= sv);
    Ok(())
}

proof fn lemma_preds_check_prefix(ps: Seq<(Seq<char>, Seq<char>)>, c: Seq<char>, param: Seq<char>, preds: Seq<PredV>, k: int)
    requires
        0 <= k <= preds.len(),
        preds_check(ps, c, param, preds.take(k)) is Err,
    ensures
        preds_check(ps, c, param, preds) == preds_check(ps, c, param, preds.take(k)),
    decreases preds.len() - k,
{
    if k < preds.len() {
        assert(preds.take(k + 1).drop_last() =~= preds.take(k));
        lemma_preds_check_prefix(ps, c, param, preds, k + 1);
    } else {
        assert(preds.take(k) =~= preds);
    }
}

proof fn lemma_supers_check_prefix(ps: Seq<(Seq<char>, Seq<char>)>, ss: Seq<(Seq<char>, Seq<PredV>)>, k: int)
    requires
        0 <= k <= ss.len(),
        supers_check(ps, ss.take(k)) is Err,
    ensures
        supers_check(ps, ss) == supers_check(ps, ss.take(k)),
    decreases ss.len() - k,
{
    if k < ss.len() {
        assert(ss.take(k + 1).drop_last() =~= ss.take(k));
        lemma_supers_check_prefix(ps, ss, k + 1);
    } else {
        assert(ss.take(k) =~= ss);
    }
}

proof fn lemma_ambiguity_prefix(ms: Seq<(Seq<char>, Seq<Seq<char>>)>, k: int)
    requires
        0 <= k <= ms.len(),
        ambiguity_check(ms.take(k)) is Err,
    ensures
        ambiguity_check(ms) == ambiguity_check(ms.take(k)),
    decreases ms.len() - k,
{
    if k < ms.len() {
        assert(ms.take(k + 1).drop_last() =~= ms.take(k));
        lemma_ambiguity_prefix(ms, k + 1);
    } else {
        assert(ms.take(k) =~= ms);
    }
}

/// Rejects a method name that more than one class declares: the first such
/// name in order, with its classes.
pub fn reject_ambiguous_method_names(env: &ClassEnv) -> (r: Result<(), String>)
    ensures
        same_outcome(r, ambiguity_check(methods_view(env.method_classes@))),
{
    let ghost mv = methods_view(env.method_classes@);
    let mut i: usize = 0;
    assert(mv.take(0) =~= Seq::<(Seq<char>, Seq<Seq<char>>)>::empty());
    while i < env.method_classes.len()
        invariant
            i <= env.method_classes.len(),
            mv == methods_view(env.method_classes@),
            ambiguity_check(mv.take(i as int)) is Ok,
        decreases env.method_classes.len() - i,
    {
        assert(mv.take(i + 1).drop_last() =~= mv.take(i as int));
        assert(mv.take(i + 1).last() == mv[i as int]);
        let m = &env.method_classes[i].0;
        let classes = &env.method_classes[i].1;
        if classes.len() > 1 {
            let ghost cv = string_views(classes@);
            let mut e = String::from_str("ambiguous method name: ");
            e.append(m.as_str());
            e.append(" (defined in classes: ");
            let ghost prefix = e@;
            let mut j: usize = 0;
            assert(cv.take(0) =~= Seq::<Seq<char>>::empty());
            while j < classes.len()
                invariant
                    j <= classes.len(),
                    cv == string_views(classes@),
                    e@ == prefix + join_comma(cv.take(j as int)),
                decreases classes.len() - j,
            {
                assert(cv.take(j + 1).drop_last() =~= cv.take(j as int));
                assert(cv[j as int] == classes@[j as int]@);
                if j > 0 {
                    e.append(", ");
                }
                e.append(classes[j].as_str());
                proof {
                    if j == 0 {
                        assert(cv.take(1) =~= seq![cv[0]]);
                    }
                    assert(e@ =~= prefix + join_comma(cv.take(j + 1)));
                }
                j += 1;
            }
            e.append(")");
            assert(cv.take(classes.len() as int) =~= cv);
            proof {
                assert(mv[i as int] == (m@, cv));
                assert(e@ =~= ambiguous_message(m@, cv));
                lemma_ambiguity_prefix(mv, i as int + 1);
            }
            return Err(e);
        }
        i += 1;
    }
    assert(mv.take(env.method_classes.len() as int) =~= mv);
    Ok(())
}

/// The classes that the predicates name, in order.
pub open spec fn class_targets(ps: Seq<PredV>) -> Seq<Seq<char>>
    decreases ps.len(),
{
    if ps.len() == 0 {
        Seq::empty()
    } else {
        let t = class_targets(ps.drop_last());
        match ps.last() {
            PredV::Class(c, _) => t.push(c),
            _ => t,
        }
    }
}

/// The superclasses of class `c`, by its last entry.
pub open spec fn supers_of(ss: Seq<(Seq<char>, Seq<PredV>)>, c: Seq<char>) -> Seq<Seq<char>>
    decreases ss.len(),
{
    if ss.len() == 0 {
        Seq::empty()
    } else if ss.last().0 == c {
        class_targets(ss.last().1)
    } else {
        supers_of(ss.drop_last(), c)
    }
}

/// The mark of class `c` in the search: `false` while it is being visited,
/// `true` once finished (by its last entry).
pub open spec fn mark_of(ms: Seq<(Seq<char>, bool)>, c: Seq<char>) -> Option<bool>
    decreases ms.len(),
{
    if ms.len() == 0 {
        None
    } else if ms.last().0 == c {
        Some(ms.last().1)
    } else {
        mark_of(ms.drop_last(), c)
    }
}

/// The names joined with `" => "` between them.
pub open spec fn join_arrows(ks: Seq<Seq<char>>) -> Seq<char>
    decreases ks.len(),
{
    if ks.len() == 0 {
        Seq::empty()
    } else if ks.len() == 1 {
        ks[0]
    } else {
        join_arrows(ks.drop_last()) + " => "@ + ks.last()
    }
}

/// The error for a cycle of superclasses met along the path `path`.
pub open spec fn cycle_message(path: Seq<Seq<char>>) -> Seq<char> {
    "cyclic superclass constraints: "@ + join_arrows(path)
}

/// The depth-first search for a cycle from class `n`, with marks `ms` and
/// the path `st` that led to it, at most `f` deep: a finished class is
/// done; a class on the path closes a cycle; any other is visited, then
/// each of its superclasses in order, and it is finished.
pub open spec fn dfs_spec(f: nat, ss: Seq<(Seq<char>, Seq<PredV>)>, n: Seq<char>, ms: Seq<(Seq<char>, bool)>, st: Seq<Seq<char>>) -> Option<
    Result<Seq<(Seq<char>, bool)>, Seq<char>>,
>
    decreases f, 1nat, 0nat,
{
    if f == 0 {
        None
    } else {
        match mark_of(ms, n) {
            Some(true) => Some(Ok(ms)),
            Some(false) => Some(Err(cycle_message(st.push(n)))),
            None => match dfs_list_spec((f - 1) as nat, ss, supers_of(ss, n), ms.push((n, false)), st.push(n)) {
                Some(Ok(m)) => Some(Ok(m.push((n, true)))),
                other => other,
            },
        }
    }
}

/// The search from each of `ts` in turn, stopping at the first cycle.
pub open spec fn dfs_list_spec(f: nat, ss: Seq<(Seq<char>, Seq<PredV>)>, ts: Seq<Seq<char>>, ms: Seq<(Seq<char>, bool)>, st: Seq<Seq<char>>) -> Option<
    Result<Seq<(Seq<char>, bool)>, Seq<char>>,
>
    decreases f, 2nat, ts.len(),
{
    if ts.len() == 0 {
        Some(Ok(ms))
    } else {
        match dfs_list_spec(f, ss, ts.drop_last(), ms, st) {
            Some(Ok(m)) => dfs_spec(f, ss, ts.last(), m, st),
            other => other,
        }
    }
}

/// The search from each declared class in turn, each with an empty path and
/// the marks left by the ones before.
pub open spec fn roots_spec(f: nat, ss: Seq<(Seq<char>, Seq<PredV>)>, roots: Seq<Seq<char>>) -> Option<Result<Seq<(Seq<char>, bool)>, Seq<char>>>
    decreases roots.len(),
{
    if roots.len() == 0 {
        Some(Ok(Seq::empty()))
    } else {
        match roots_spec(f, ss, roots.drop_last()) {
            Some(Ok(m)) => dfs_spec(f, ss, roots.last(), m, Seq::empty()),
            other => other,
        }
    }
}

pub open spec fn marks_view(ms: Seq<(String, bool)>) -> Seq<(Seq<char>, bool)> {
    ms.map_values(|e: (String, bool)| (e.0@, e.1))
}

/// The classes that have a mark.
pub open spec fn marked_set(ms: Seq<(Seq<char>, bool)>) -> Set<Seq<char>> {
    Set::new(|c: Seq<char>| exists|i: int| 0 <= i < ms.len() && ms[i].0 == c)
}

/// The names of the declared classes, in order.
pub open spec fn param_names(ps: Seq<(Seq<char>, Seq<char>)>) -> Seq<Seq<char>> {
    ps.map_values(|e: (Seq<char>, Seq<char>)| e.0)
}

/// Every class named as a superclass, class by class.
pub open spec fn all_targets(ss: Seq<(Seq<char>, Seq<PredV>)>) -> Seq<Seq<char>>
    decreases ss.len(),
{
    if ss.len() == 0 {
        Seq::empty()
    } else {
        all_targets(ss.drop_last()) + class_targets(ss.last().1)
    }
}

/// The classes the search can meet: the declared ones and those named as
/// superclasses.
pub open spec fn class_universe(ps: Seq<(Seq<char>, Seq<char>)>, ss: Seq<(Seq<char>, Seq<PredV>)>) -> Set<Seq<char>> {
    param_names(ps).to_set().union(all_targets(ss).to_set())
}

proof fn lemma_mark_of_none(ms: Seq<(Seq<char>, bool)>, c: Seq<char>)
    ensures
        mark_of(ms, c) is None <==> !marked_set(ms).contains(c),
    decreases ms.len(),
{
    if ms.len() > 0 {
        lemma_mark_of_none(ms.drop_last(), c);
        if marked_set(ms.drop_last()).contains(c) {
            let i = choose|i: int| 0 <= i < ms.drop_last().len() && ms.drop_last()[i].0 == c;
            assert(ms[i].0 == c);
        }
        if marked_set(ms).contains(c) && ms.last().0 != c {
            let i = choose|i: int| 0 <= i < ms.len() && ms[i].0 == c;
            assert(ms.drop_last()[i].0 == c);
        }
        if ms.last().0 == c {
            assert(ms[ms.len() - 1].0 == c);
        }
    }
}

proof fn lemma_marked_push(ms: Seq<(Seq<char>, bool)>, e: (Seq<char>, bool))
    ensures
        marked_set(ms.push(e)) == marked_set(ms).insert(e.0),
{
    assert forall|c: Seq<char>| marked_set(ms.push(e)).contains(c) <==> marked_set(ms).insert(e.0).contains(c) by {
        if marked_set(ms.push(e)).contains(c) {
            let i = choose|i: int| 0 <= i < ms.push(e).len() && ms.push(e)[i].0 == c;
            if i < ms.len() {
                assert(ms[i].0 == c);
            }
        }
        if marked_set(ms).contains(c) {
            let i = choose|i: int| 0 <= i < ms.len() && ms[i].0 == c;
            assert(ms.push(e)[i].0 == c);
        }
        if c == e.0 {
            assert(ms.push(e)[ms.len() as int].0 == c);
        }
    }
    assert(marked_set(ms.push(e)) =~= marked_set(ms).insert(e.0));
}

proof fn lemma_class_targets_prefix(ps: Seq<PredV>, a: int)
    requires
        0 <= a <= ps.len(),
    ensures
        class_targets(ps.take(a)).len() <= class_targets(ps).len(),
        class_targets(ps).take(class_targets(ps.take(a)).len() as int) == class_targets(ps.take(a)),
    decreases ps.len() - a,
{
    if a < ps.len() {
        lemma_class_targets_prefix(ps, a + 1);
        assert(ps.take(a + 1).drop_last() =~= ps.take(a));
        let t = class_targets(ps.take(a));
        let t1 = class_targets(ps.take(a + 1));
        assert(t1.take(t.len() as int) =~= t);
        assert(class_targets(ps).take(t1.len() as int).take(t.len() as int) =~= class_targets(ps).take(t.len() as int));
    } else {
        assert(ps.take(a) =~= ps);
        assert(class_targets(ps).take(class_targets(ps).len() as int) =~= class_targets(ps));
    }
}

proof fn lemma_all_targets(ss: Seq<(Seq<char>, Seq<PredV>)>, k: int, x: Seq<char>)
    requires
        0 <= k < ss.len(),
        class_targets(ss[k].1).contains(x),
    ensures
        all_targets(ss).contains(x),
    decreases ss.len(),
{
    let i = choose|i: int| 0 <= i < class_targets(ss[k].1).len() && class_targets(ss[k].1)[i] == x;
    if k == ss.len() - 1 {
        let a = all_targets(ss.drop_last());
        assert((a + class_targets(ss.last().1))[a.len() + i] == x);
    } else {
        assert(ss.drop_last()[k] == ss[k]);
        lemma_all_targets(ss.drop_last(), k, x);
        let j = choose|j: int| 0 <= j < all_targets(ss.drop_last()).len() && all_targets(ss.drop_last())[j] == x;
        assert(all_targets(ss)[j] == x);
    }
}

proof fn lemma_dfs_list_err(f: nat, ss: Seq<(Seq<char>, Seq<PredV>)>, ts: Seq<Seq<char>>, k: int, ms: Seq<(Seq<char>, bool)>, st: Seq<Seq<char>>)
    requires
        0 <= k <= ts.len(),
        dfs_list_spec(f, ss, ts.take(k), ms, st) matches Some(Err(_)),
    ensures
        dfs_list_spec(f, ss, ts, ms, st) == dfs_list_spec(f, ss, ts.take(k), ms, st),
    decreases ts.len() - k,
{
    if k < ts.len() {
        assert(ts.take(k + 1).drop_last() =~= ts.take(k));
        lemma_dfs_list_err(f, ss, ts, k + 1, ms, st);
    } else {
        assert(ts.take(k) =~= ts);
    }
}

proof fn lemma_roots_err(f: nat, ss: Seq<(Seq<char>, Seq<PredV>)>, rs: Seq<Seq<char>>, k: int)
    requires
        0 <= k <= rs.len(),
        roots_spec(f, ss, rs.take(k)) matches Some(Err(_)),
    ensures
        roots_spec(f, ss, rs) == roots_spec(f, ss, rs.take(k)),
    decreases rs.len() - k,
{
    if k < rs.len() {
        assert(rs.take(k + 1).drop_last() =~= rs.take(k));
        lemma_roots_err(f, ss, rs, k + 1);
    } else {
        assert(rs.take(k) =~= rs);
    }
}

fn lookup_mark(marks: &Vec<(String, bool)>, c: &str) -> (r: Option<bool>)
    ensures
        r == mark_of(marks_view(marks@), c@),
{
    let ghost mv = marks_view(marks@);
    let mut i: usize = marks.len();
    assert(mv.take(i as int) =~= mv);
    while i > 0
        invariant
            i <= marks.len(),
            mv == marks_view(marks@),
            mark_of(mv, c@) == mark_of(mv.take(i as int), c@),
        decreases i,
    {
        assert(mv.take(i as int).drop_last() =~= mv.take(i - 1));
        assert(mv.take(i as int).last() == mv[i - 1]);
        if str_eq(marks[i - 1].0.as_str(), c) {
            return Some(marks[i - 1].1);
        }
        i -= 1;
    }
    assert(mv.take(0) =~= Seq::<(Seq<char>, bool)>::empty());
    None
}

fn lookup_supers(env: &ClassEnv, c: &str) -> (r: Option<usize>)
    ensures
        match r {
            Some(k) => k < env.class_supers.len() && supers_of(supers_view(env.class_supers@), c@) == class_targets(
                supers_view(env.class_supers@)[k as int].1,
            ),
            None => supers_of(supers_view(env.class_supers@), c@) == Seq::<Seq<char>>::empty(),
        },
{
    let ghost sv = supers_view(env.class_supers@);
    let mut i: usize = env.class_supers.len();
    assert(sv.take(i as int) =~= sv);
    while i > 0
        invariant
            i <= env.class_supers.len(),
            sv == supers_view(env.class_supers@),
            supers_of(sv, c@) == supers_of(sv.take(i as int), c@),
        decreases i,
    {
        assert(sv.take(i as int).drop_last() =~= sv.take(i - 1));
        assert(sv.take(i as int).last() == sv[i - 1]);
        if str_eq(env.class_supers[i - 1].0.as_str(), c) {
            return Some(i - 1);
        }
        i -= 1;
    }
    assert(sv.take(0) =~= Seq::<(Seq<char>, Seq<PredV>)>::empty());
    None
}

fn cycle_text(path: &Vec<String>) -> (r: String)
    ensures
        r@ == cycle_message(string_views(path@)),
{
    let ghost pv = string_views(path@);
    let mut e = String::from_str("cyclic superclass constraints: ");
    let ghost prefix = e@;
    let mut j: usize = 0;
    assert(pv.take(0) =~= Seq::<Seq<char>>::empty());
    while j < path.len()
        invariant
            j <= path.len(),
            pv == string_views(path@),
            e@ == prefix + join_arrows(pv.take(j as int)),
        decreases path.len() - j,
    {
        assert(pv.take(j + 1).drop_last() =~= pv.take(j as int));
        assert(pv[j as int] == path@[j as int]@);
        if j > 0 {
            e.append(" => ");
        }
        e.append(path[j].as_str());
        proof {
            if j == 0 {
                assert(pv.take(1) =~= seq![pv[0]]);
            }
            assert(e@ =~= prefix + join_arrows(pv.take(j + 1)));
        }
        j += 1;
    }
    assert(pv.take(path.len() as int) =~= pv);
    e
}

/// Every class named as a superclass of any class lies in `u`.
pub open spec fn targets_within(u: Set<Seq<char>>, ss: Seq<(Seq<char>, Seq<PredV>)>) -> bool {
    forall|k: int, x: Seq<char>| 0 <= k < ss.len() && #[trigger] class_targets(ss[k].1).contains(x) ==> u.contains(x)
}

/// The outcome of a search as the model states it.
pub open spec fn dfs_outcome(r: Result<(), String>, ms: Seq<(String, bool)>) -> Result<Seq<(Seq<char>, bool)>, Seq<char>> {
    match r {
        Ok(_) => Ok(marks_view(ms)),
        Err(e) => Err(e@),
    }
}

proof fn lemma_budget_drop(u: Set<Seq<char>>, a: Set<Seq<char>>, b: Set<Seq<char>>)
    requires
        u.finite(),
        a.subset_of(b),
    ensures
        u.difference(b).len() <= u.difference(a).len(),
{
    vstd::set_lib::lemma_len_subset(u.difference(b), u.difference(a));
}

fn dfs_cycle(
    env: &ClassEnv,
    node: &String,
    marks: &mut Vec<(String, bool)>,
    stack: &mut Vec<String>,
    Ghost(u): Ghost<Set<Seq<char>>>,
    Ghost(budget): Ghost<nat>,
) -> (r: Result<(), String>)
    requires
        u.finite(),
        u.contains(node@),
        targets_within(u, supers_view(env.class_supers@)),
        budget == u.difference(marked_set(marks_view(old(marks)@))).len(),
    ensures
        marked_set(marks_view(old(marks)@)).subset_of(marked_set(marks_view(final(marks)@))),
        r is Ok ==> string_views(final(stack)@) == string_views(old(stack)@),
        forall|f: nat| f > budget ==> #[trigger] dfs_spec(f, supers_view(env.class_supers@), node@, marks_view(old(marks)@), string_views(old(stack)@))
            == Some(dfs_outcome(r, final(marks)@)),
    decreases budget,
{
    let ghost sv = supers_view(env.class_supers@);
    let ghost m0 = marks_view(marks@);
    let ghost st0 = string_views(stack@);
    let ghost n = node@;
    match lookup_mark(marks, node.as_str()) {
        Some(true) => {
            return Ok(());
        },
        Some(false) => {
            stack.push(node.clone());
            assert(string_views(stack@) =~= st0.push(n));
            let e = cycle_text(stack);
            return Err(e);
        },
        None => {},
    }
    proof {
        lemma_mark_of_none(m0, n);
        lemma_marked_push(m0, (n, false));
        assert(u.difference(marked_set(m0)).contains(n));
        assert(u.difference(marked_set(m0).insert(n)) =~= u.difference(marked_set(m0)).remove(n));
    }
    let ghost m1 = m0.push((n, false));
    marks.push((node.clone(), false));
    stack.push(node.clone());
    assert(marks_view(marks@) =~= m1);
    assert(string_views(stack@) =~= st0.push(n));
    let sup_index = lookup_supers(env, node.as_str());
    if let Some(k) = sup_index {
        let preds = &env.class_supers[k].1;
        let ghost pv = preds_view(preds@);
        assert(sv[k as int].1 == pv);
        assert(supers_of(sv, n) == class_targets(pv));
        let mut j: usize = 0;
        assert(pv.take(0) =~= Seq::<PredV>::empty());
        while j < preds.len()
            invariant
                j <= preds.len(),
                k < env.class_supers.len(),
                pv == preds_view(preds@),
                preds@ == env.class_supers@[k as int].1@,
                sv == supers_view(env.class_supers@),
                sv[k as int].1 == pv,
                u.finite(),
                targets_within(u, sv),
                budget >= 1,
                u.difference(marked_set(m1)).len() == budget - 1,
                marked_set(m0).subset_of(marked_set(m1)),
                marked_set(m1).subset_of(marked_set(marks_view(marks@))),
                mark_of(m0, n) is None,
                m1 == m0.push((n, false)),
                m0 == marks_view(old(marks)@),
                st0 == string_views(old(stack)@),
                n == node@,
                supers_of(sv, n) == class_targets(pv),
                string_views(stack@) == st0.push(n),
                forall|f: nat| f >= budget ==> #[trigger] dfs_list_spec(f, sv, class_targets(pv.take(j as int)), m1, st0.push(n))
                    == Some(Ok::<Seq<(Seq<char>, bool)>, Seq<char>>(marks_view(marks@))),
            decreases preds.len() - j,
        {
            assert(pv.take(j + 1).drop_last() =~= pv.take(j as int));
            assert(pv.take(j + 1).last() == pred_view(preds@[j as int]));
            if let SuperPred::Class(sup, _) = &preds[j] {
                let ghost cur = marks_view(marks@);
                let ghost b2 = u.difference(marked_set(cur)).len();
                proof {
                    lemma_budget_drop(u, marked_set(m1), marked_set(cur));
                    lemma_class_targets_prefix(pv, j as int + 1);
                    let t1 = class_targets(pv.take(j + 1));
                    assert(t1.last() == sup@);
                    assert(class_targets(pv)[t1.len() - 1] == sup@);
                    assert(class_targets(sv[k as int].1).contains(sup@));
                }
                let r = dfs_cycle(env, sup, marks, stack, Ghost(u), Ghost(b2));
                proof {
                    let t0 = class_targets(pv.take(j as int));
                    let t1 = class_targets(pv.take(j + 1));
                    assert(t1 == t0.push(sup@));
                    assert(t1.drop_last() =~= t0);
                    assert forall|f: nat| f >= budget implies #[trigger] dfs_list_spec(f, sv, t1, m1, st0.push(n)) == Some(
                        dfs_outcome(r, marks@),
                    ) by {
                        assert(dfs_list_spec(f, sv, t0, m1, st0.push(n)) == Some(Ok::<Seq<(Seq<char>, bool)>, Seq<char>>(cur)));
                        assert(dfs_spec(f, sv, sup@, cur, st0.push(n)) == Some(dfs_outcome(r, marks@)));
                    }
                }
                if r.is_err() {
                    proof {
                        assert(marked_set(m0).subset_of(marked_set(marks_view(marks@)))) by {
                            assert forall|c: Seq<char>| marked_set(m0).contains(c) implies marked_set(marks_view(marks@)).contains(c) by {
                                assert(marked_set(m1).contains(c));
                                assert(marked_set(cur).contains(c));
                            }
                        }
                        lemma_class_targets_prefix(pv, j as int + 1);
                        let t1 = class_targets(pv.take(j + 1));
                        assert(class_targets(pv).take(t1.len() as int) == t1);
                        assert forall|f: nat| f > budget implies #[trigger] dfs_spec(f, sv, n, m0, st0) == Some(dfs_outcome(r, marks@)) by {
                            let g = (f - 1) as nat;
                            assert(dfs_list_spec(g, sv, t1, m1, st0.push(n)) == Some(dfs_outcome(r, marks@)));
                            lemma_dfs_list_err(g, sv, class_targets(pv), t1.len() as int, m1, st0.push(n));
                        }
                    }
                    return r;
                }
            } else {
                assert(class_targets(pv.take(j + 1)) == class_targets(pv.take(j as int)));
            }
            j += 1;
        }
        assert(pv.take(preds.len() as int) =~= pv);
    }
    proof {
        if sup_index is None {
            assert forall|f: nat| f >= budget implies #[trigger] dfs_list_spec(f, sv, supers_of(sv, n), m1, st0.push(n)) == Some(
                Ok::<Seq<(Seq<char>, bool)>, Seq<char>>(marks_view(marks@)),
            ) by {}
        }
    }
    let ghost before = marks_view(marks@);
    let ghost sb = stack@;
    assert(string_views(sb) == st0.push(n));
    stack.pop();
    assert(stack@ =~= sb.drop_last());
    assert(string_views(stack@) =~= string_views(sb).drop_last());
    marks.push((node.clone(), true));
    proof {
        assert(string_views(stack@) =~= st0);
        assert(marks_view(marks@) =~= before.push((n, true)));
        lemma_marked_push(before, (n, true));
        assert forall|f: nat| f > budget implies #[trigger] dfs_spec(f, sv, n, m0, st0) == Some(
            Ok::<Seq<(Seq<char>, bool)>, Seq<char>>(marks_view(marks@)),
        ) by {
            let g = (f - 1) as nat;
            assert(dfs_list_spec(g, sv, supers_of(sv, n), m1, st0.push(n)) == Some(
                Ok::<Seq<(Seq<char>, bool)>, Seq<char>>(before),
            ));
        }
    }
    Ok(())
}

/// The search came to an end with the outcome `r`.
pub open spec fn same_check(r: Result<(), String>, o: Option<Result<(), Seq<char>>>) -> bool {
    match o {
        Some(x) => same_outcome(r, x),
        None => false,
    }
}

/// The outcome of the search from every declared class, at most `f` deep.
pub open spec fn cycle_check(f: nat, ps: Seq<(Seq<char>, Seq<char>)>, ss: Seq<(Seq<char>, Seq<PredV>)>) -> Option<Result<(), Seq<char>>> {
    match roots_spec(f, ss, param_names(ps)) {
        Some(Ok(_)) => Some(Ok(())),
        Some(Err(e)) => Some(Err(e)),
        None => None,
    }
}

/// Searches the superclass graph from each declared class in order, depth
/// first, and fails at the first class met again on the current path, with
/// that path; the search never runs deeper than the number of classes it
/// can meet.
pub fn detect_superclass_cycles(env: &ClassEnv) -> (r: Result<(), String>)
    ensures
        forall|f: nat| f > class_universe(params_view(env.class_params@), supers_view(env.class_supers@)).len() ==> same_check(
            r,
            #[trigger] cycle_check(f, params_view(env.class_params@), supers_view(env.class_supers@)),
        ),
{
    let ghost pv = params_view(env.class_params@);
    let ghost sv = supers_view(env.class_supers@);
    let ghost names = param_names(pv);
    let ghost u = class_universe(pv, sv);
    proof {
        assert(u.finite());
        assert forall|k: int, x: Seq<char>| 0 <= k < sv.len() && #[trigger] class_targets(sv[k].1).contains(x) implies u.contains(x) by {
            lemma_all_targets(sv, k, x);
        }
    }
    let mut marks: Vec<(String, bool)> = Vec::new();
    let mut i: usize = 0;
    assert(names.take(0) =~= Seq::<Seq<char>>::empty());
    assert(marks_view(marks@) =~= Seq::<(Seq<char>, bool)>::empty());
    while i < env.class_params.len()
        invariant
            i <= env.class_params.len(),
            pv == params_view(env.class_params@),
            sv == supers_view(env.class_supers@),
            names == param_names(pv),
            u == class_universe(pv, sv),
            u.finite(),
            targets_within(u, sv),
            forall|f: nat| f > u.len() ==> #[trigger] roots_spec(f, sv, names.take(i as int)) == Some(
                Ok::<Seq<(Seq<char>, bool)>, Seq<char>>(marks_view(marks@)),
            ),
        decreases env.class_params.len() - i,
    {
        let root = &env.class_params[i].0;
        proof {
            assert(names[i as int] == root@);
            assert(names.to_set().contains(root@));
            assert(names.take(i + 1).drop_last() =~= names.take(i as int));
            assert(names.take(i + 1).last() == root@);
        }
        let ghost m = marks_view(marks@);
        let ghost b = u.difference(marked_set(m)).len();
        proof {
            vstd::set_lib::lemma_len_difference(u, marked_set(m));
        }
        let mut stack: Vec<String> = Vec::new();
        assert(string_views(stack@) =~= Seq::<Seq<char>>::empty());
        let r = dfs_cycle(env, root, &mut marks, &mut stack, Ghost(u), Ghost(b));
        proof {
            assert forall|f: nat| f > u.len() implies #[trigger] roots_spec(f, sv, names.take(i + 1)) == Some(dfs_outcome(r, marks@)) by {
                assert(roots_spec(f, sv, names.take(i as int)) == Some(Ok::<Seq<(Seq<char>, bool)>, Seq<char>>(m)));
                assert(dfs_spec(f, sv, root@, m, Seq::<Seq<char>>::empty()) == Some(dfs_outcome(r, marks@)));
            }
        }
        if r.is_err() {
            proof {
                assert forall|f: nat| f > u.len() implies same_check(r, #[trigger] cycle_check(f, pv, sv)) by {
                    lemma_roots_err(f, sv, names, i as int + 1);
                    assert(roots_spec(f, sv, names.take(i + 1)) == Some(dfs_outcome(r, marks@)));
                }
            }
            return r;
        }
        i += 1;
    }
    assert(names.take(env.class_params.len() as int) =~= names);
    assert forall|f: nat| f > u.len() implies same_check(Ok::<(), String>(()), #[trigger] cycle_check(f, pv, sv)) by {
        assert(roots_spec(f, sv, names.take(env.class_params.len() as int)) == Some(
            Ok::<Seq<(Seq<char>, bool)>, Seq<char>>(marks_view(marks@)),
        ));
    }
    Ok(())
}

/// The entries with `v` added to the list of key `k` (its last entry), or a
/// new entry `(k, [v])`.
pub open spec fn push_to(es: Seq<(Seq<char>, Seq<Seq<char>>)>, k: Seq<char>, v: Seq<char>) -> Seq<(Seq<char>, Seq<Seq<char>>)> {
    match last_key(es, k) {
        Some(i) => es.update(i, (k, es[i].1.push(v))),
        None => es.push((k, seq![v])),
    }
}

/// The position of the last entry of key `k`.
pub open spec fn last_key(es: Seq<(Seq<char>, Seq<Seq<char>>)>, k: Seq<char>) -> Option<int>
    decreases es.len(),
{
    if es.len() == 0 {
        None
    } else if es.last().0 == k {
        Some(es.len() - 1)
    } else {
        last_key(es.drop_last(), k)
    }
}

/// What collecting class declarations has gathered so far: the class
/// parameters, superclasses and method classes of the environment, the
/// method names of each class, and the default method of each class and
/// method name.
pub struct CollectV {
    pub params: Seq<(Seq<char>, Seq<char>)>,
    pub supers: Seq<(Seq<char>, Seq<PredV>)>,
    pub method_classes: Seq<(Seq<char>, Seq<Seq<char>>)>,
    pub method_names: Seq<(Seq<char>, Seq<Seq<char>>)>,
    pub defaults: Seq<((Seq<char>, Seq<char>), ExprV)>,
}

/// The name a class is known by: qualified by its defining module where
/// known.
pub open spec fn class_id_of(c: ClassDeclV) -> Seq<char> {
    match c.def_module {
        Some(m) => m + "."@ + c.name,
        None => c.name,
    }
}

/// Records the methods `ms` of class `id`, in order.
pub open spec fn add_methods(st: CollectV, id: Seq<char>, ms: Seq<Seq<char>>) -> CollectV
    decreases ms.len(),
{
    if ms.len() == 0 {
        st
    } else {
        let s1 = add_methods(st, id, ms.drop_last());
        CollectV {
            params: s1.params,
            supers: s1.supers,
            method_classes: push_to(s1.method_classes, ms.last(), id),
            method_names: push_to(s1.method_names, id, ms.last()),
            defaults: s1.defaults,
        }
    }
}

/// Whether a default method is recorded for the class and method name.
pub open spec fn has_default(dm: Seq<((Seq<char>, Seq<char>), ExprV)>, key: (Seq<char>, Seq<char>)) -> bool {
    exists|i: int| 0 <= i < dm.len() && dm[i].0 == key
}

/// Records the default methods `bs` of class `id`, in order; each must bind
/// a plain variable, and once.
pub open spec fn add_defaults(st: CollectV, id: Seq<char>, bs: Seq<(PatV, ExprV)>) -> Result<CollectV, Seq<char>>
    decreases bs.len(),
{
    if bs.len() == 0 {
        Ok(st)
    } else {
        match add_defaults(st, id, bs.drop_last()) {
            Err(e) => Err(e),
            Ok(s1) => match bs.last().0 {
                PatV::Var(m) => if has_default(s1.defaults, (id, m)) {
                    Err("duplicate class default method"@)
                } else {
                    Ok(
                        CollectV {
                            params: s1.params,
                            supers: s1.supers,
                            method_classes: s1.method_classes,
                            method_names: s1.method_names,
                            defaults: s1.defaults.push(((id, m), bs.last().1)),
                        },
                    )
                },
                _ => Err("MVP: class default methods must be simple variable bindings"@),
            },
        }
    }
}

/// Records one class declaration; a class declared twice is an error.
pub open spec fn add_class(st: CollectV, c: ClassDeclV) -> Result<CollectV, Seq<char>> {
    let id = class_id_of(c);
    if param_of(st.params, id) is Some {
        Err("duplicate class"@)
    } else {
        let s1 = CollectV {
            params: st.params.push((id, c.param)),
            supers: st.supers.push((id, c.supers)),
            method_classes: st.method_classes,
            method_names: st.method_names,
            defaults: st.defaults,
        };
        add_defaults(add_methods(s1, id, c.methods), id, c.default_methods)
    }
}

/// Records the class declarations in order, stopping at the first error.
pub open spec fn add_classes(st: CollectV, cs: Seq<ClassDeclV>) -> Result<CollectV, Seq<char>>
    decreases cs.len(),
{
    if cs.len() == 0 {
        Ok(st)
    } else {
        match add_classes(st, cs.drop_last()) {
            Err(e) => Err(e),
            Ok(s1) => add_class(s1, cs.last()),
        }
    }
}

/// Each list of classes of a method, ordered and without repeats.
pub open spec fn normalize_lists(es: Seq<(Seq<char>, Seq<Seq<char>>)>) -> Seq<(Seq<char>, Seq<Seq<char>>)> {
    es.map_values(|e: (Seq<char>, Seq<Seq<char>>)| (e.0, crate::instance::dedup_adj(crate::names::sort_names(e.1))))
}

/// What collecting class declarations hands on besides the environment:
/// the method names of each class, in declaration order, and the default
/// method of each class and method name.
pub struct ClassDeclInfo {
    pub method_names: Vec<(String, Vec<String>)>,
    pub defaults: Vec<((String, String), SynExpr)>,
}

pub open spec fn defaults_view(ds: Seq<((String, String), SynExpr)>) -> Seq<((Seq<char>, Seq<char>), ExprV)> {
    ds.map_values(|d: ((String, String), SynExpr)| ((d.0.0@, d.0.1@), expr_view(d.1)))
}

pub open spec fn collect_view(env: ClassEnv, info: ClassDeclInfo) -> CollectV {
    CollectV {
        params: params_view(env.class_params@),
        supers: supers_view(env.class_supers@),
        method_classes: methods_view(env.method_classes@),
        method_names: methods_view(info.method_names@),
        defaults: defaults_view(info.defaults@),
    }
}

pub open spec fn decls_view(cs: Seq<SynClassDecl>) -> Seq<ClassDeclV> {
    cs.map_values(|c: SynClassDecl| class_decl_view(c))
}

fn last_key_exec(es: &Vec<(String, Vec<String>)>, k: &String) -> (r: Option<usize>)
    ensures
        match last_key(methods_view(es@), k@) {
            Some(i) => r == Some(i as usize),
            None => r is None,
        },
{
    let ghost ev = methods_view(es@);
    let mut i: usize = es.len();
    assert(ev.take(i as int) =~= ev);
    while i > 0
        invariant
            i <= es.len(),
            ev == methods_view(es@),
            last_key(ev, k@) == last_key(ev.take(i as int), k@),
        decreases i,
    {
        assert(ev.take(i as int).drop_last() =~= ev.take(i - 1));
        assert(ev.take(i as int).last() == ev[i - 1]);
        if str_eq(es[i - 1].0.as_str(), k.as_str()) {
            return Some(i - 1);
        }
        i -= 1;
    }
    assert(ev.take(0) =~= Seq::<(Seq<char>, Seq<Seq<char>>)>::empty());
    None
}

proof fn lemma_last_key_range(es: Seq<(Seq<char>, Seq<Seq<char>>)>, k: Seq<char>)
    ensures
        last_key(es, k) matches Some(i) ==> 0 <= i < es.len() && es[i].0 == k,
    decreases es.len(),
{
    if es.len() > 0 {
        lemma_last_key_range(es.drop_last(), k);
    }
}

fn push_to_exec(es: &mut Vec<(String, Vec<String>)>, k: &String, v: &String)
    ensures
        methods_view(final(es)@) == push_to(methods_view(old(es)@), k@, v@),
{
    let ghost ev = methods_view(es@);
    proof {
        lemma_last_key_range(ev, k@);
    }
    match last_key_exec(es, k) {
        Some(i) => {
            let ghost old_es = es@;
            let (_, list) = es.remove(i);
            let mut l2 = list;
            let ghost lv = string_views(l2@);
            l2.push(v.clone());
            assert(string_views(l2@) =~= lv.push(v@));
            let e = (k.clone(), l2);
            es.insert(i, e);
            assert(es@ =~= old_es.update(i as int, e));
            assert(methods_view(es@) =~= ev.update(i as int, (k@, ev[i as int].1.push(v@))));
        },
        None => {
            let ghost old_es = es@;
            let l = vec![v.clone()];
            assert(string_views(l@) =~= seq![v@]);
            es.push((k.clone(), l));
            assert(methods_view(es@) =~= ev.push((k@, seq![v@])));
        },
    }
}

fn has_default_exec(ds: &Vec<((String, String), SynExpr)>, a: &String, b: &String) -> (r: bool)
    ensures
        r == has_default(defaults_view(ds@), (a@, b@)),
{
    let ghost dv = defaults_view(ds@);
    let mut i: usize = 0;
    while i < ds.len()
        invariant
            i <= ds.len(),
            dv == defaults_view(ds@),
            forall|j: int| 0 <= j < i ==> dv[j].0 != (a@, b@),
        decreases ds.len() - i,
    {
        if str_eq(ds[i].0.0.as_str(), a.as_str()) && str_eq(ds[i].0.1.as_str(), b.as_str()) {
            assert(dv[i as int].0 == (a@, b@));
            return true;
        }
        i += 1;
    }
    false
}

proof fn lemma_binding_views(s: Seq<SynBinding>)
    ensures
        binding_views(s).len() == s.len(),
        forall|i: int| 0 <= i < s.len() ==> #[trigger] binding_views(s)[i] == (crate::syntax::pat_view(s[i].pat), expr_view(s[i].expr)),
    decreases s.len(),
{
    if s.len() > 0 {
        lemma_binding_views(s.drop_last());
    }
}

fn add_class_exec(env: &mut ClassEnv, info: &mut ClassDeclInfo, c: SynClassDecl) -> (r: Result<(), String>)
    ensures
        match add_class(collect_view(*old(env), *old(info)), class_decl_view(c)) {
            Ok(st) => r is Ok && collect_view(*final(env), *final(info)) == st,
            Err(e) => r is Err && r->Err_0@ == e,
        },
{
    let ghost cv = class_decl_view(c);
    let ghost st0 = collect_view(*env, *info);
    let SynClassDecl { name, def_module, param, supers, methods, default_methods } = c;
    let id = match &def_module {
        Some(m) => {
            let mut x = m.clone();
            x.append(".");
            x.append(name.as_str());
            x
        },
        None => name.clone(),
    };
    assert(id@ == class_id_of(cv));
    if lookup_param(&env.class_params, id.as_str()).is_some() {
        return Err(String::from_str("duplicate class"));
    }
    let ghost pv0 = env.class_params@;
    let ghost sv0 = env.class_supers@;
    env.class_params.push((id.clone(), param));
    env.class_supers.push((id.clone(), supers));
    assert(params_view(env.class_params@) =~= st0.params.push((id@, cv.param)));
    assert(supers_view(env.class_supers@) =~= st0.supers.push((id@, cv.supers)));
    let ghost s1 = CollectV {
        params: st0.params.push((id@, cv.param)),
        supers: st0.supers.push((id@, cv.supers)),
        method_classes: st0.method_classes,
        method_names: st0.method_names,
        defaults: st0.defaults,
    };
    assert(collect_view(*env, *info) == s1);
    let ghost mv = string_views(methods@);
    let mut j: usize = 0;
    assert(mv.take(0) =~= Seq::<Seq<char>>::empty());
    while j < methods.len()
        invariant
            j <= methods.len(),
            mv == string_views(methods@),
            collect_view(*env, *info) == add_methods(s1, id@, mv.take(j as int)),
        decreases methods.len() - j,
    {
        assert(mv.take(j + 1).drop_last() =~= mv.take(j as int));
        assert(mv.take(j + 1).last() == methods@[j as int]@);
        push_to_exec(&mut env.method_classes, &methods[j], &id);
        push_to_exec(&mut info.method_names, &id, &methods[j]);
        j += 1;
    }
    assert(mv.take(methods.len() as int) =~= mv);
    proof {
        lemma_add_methods_keeps(s1, id@, mv);
    }
    let ghost s2 = collect_view(*env, *info);
    let ghost bv = binding_views(default_methods@);
    assert(mv == cv.methods);
    assert(bv == cv.default_methods);
    proof {
        lemma_binding_views(default_methods@);
    }
    let mut bs = default_methods;
    let total = bs.len();
    assert(bv.len() == total);
    let mut k: usize = 0;
    assert(bv.take(0) =~= Seq::<(PatV, ExprV)>::empty());
    while bs.len() > 0
        invariant
            k + bs.len() == bv.len(),
            bv.len() <= usize::MAX,
            forall|i: int| 0 <= i < bs.len() ==> #[trigger] bv[k + i] == (crate::syntax::pat_view(bs@[i].pat), expr_view(bs@[i].expr)),
            add_defaults(s2, id@, bv.take(k as int)) == Ok::<CollectV, Seq<char>>(collect_view(*env, *info)),
            collect_view(*env, *info).params == s1.params,
            collect_view(*env, *info).supers == s1.supers,
            st0 == collect_view(*old(env), *old(info)),
            cv == class_decl_view(c),
            param_of(st0.params, id@) is None,
            id@ == class_id_of(cv),
            s1 == (CollectV {
                params: st0.params.push((id@, cv.param)),
                supers: st0.supers.push((id@, cv.supers)),
                method_classes: st0.method_classes,
                method_names: st0.method_names,
                defaults: st0.defaults,
            }),
            s2 == add_methods(s1, id@, cv.methods),
            bv == cv.default_methods,
        decreases bs.len(),
    {
        proof {
            lemma_binding_views(bs@);
        }
        let ghost b0 = bs@[0];
        assert(bv[(k as int) + 0] == (crate::syntax::pat_view(b0.pat), expr_view(b0.expr)));
        let b = bs.remove(0);
        let ghost cur = collect_view(*env, *info);
        assert(bv[k as int] == (crate::syntax::pat_view(b.pat), expr_view(b.expr)));
        assert(bv.take(k + 1).drop_last() =~= bv.take(k as int));
        assert(bv.take(k + 1).last() == bv[k as int]);
        let SynBinding { pat, expr } = b;
        match pat {
            SynPat::Var(m) => {
                if has_default_exec(&info.defaults, &id, &m) {
                    proof {
                        lemma_add_defaults_err(s2, id@, bv, k as int + 1);
                    }
                    return Err(String::from_str("duplicate class default method"));
                }
                let ghost dv0 = info.defaults@;
                let ghost ev = expr_view(expr);
                info.defaults.push(((id.clone(), m), expr));
                assert(defaults_view(info.defaults@) =~= defaults_view(dv0).push(((id@, m@), ev)));
            },
            _ => {
                proof {
                    lemma_add_defaults_err(s2, id@, bv, k as int + 1);
                }
                return Err(String::from_str("MVP: class default methods must be simple variable bindings"));
            },
        }
        proof {
            assert forall|i: int| 0 <= i < bs.len() implies #[trigger] bv[(k + 1) + i] == (crate::syntax::pat_view(bs@[i].pat), expr_view(bs@[i].expr)) by {
                assert(bv[k + (i + 1)] == bv[(k + 1) + i]);
            }
        }
        k += 1;
    }
    assert(bv.take(k as int) =~= bv);
    Ok(())
}

proof fn lemma_add_methods_keeps(st: CollectV, id: Seq<char>, ms: Seq<Seq<char>>)
    ensures
        add_methods(st, id, ms).params == st.params,
        add_methods(st, id, ms).supers == st.supers,
        add_methods(st, id, ms).defaults == st.defaults,
    decreases ms.len(),
{
    if ms.len() > 0 {
        lemma_add_methods_keeps(st, id, ms.drop_last());
    }
}

proof fn lemma_add_defaults_err(st: CollectV, id: Seq<char>, bs: Seq<(PatV, ExprV)>, k: int)
    requires
        0 <= k <= bs.len(),
        add_defaults(st, id, bs.take(k)) is Err,
    ensures
        add_defaults(st, id, bs) == add_defaults(st, id, bs.take(k)),
    decreases bs.len() - k,
{
    if k < bs.len() {
        assert(bs.take(k + 1).drop_last() =~= bs.take(k));
        lemma_add_defaults_err(st, id, bs, k + 1);
    } else {
        assert(bs.take(k) =~= bs);
    }
}

proof fn lemma_add_classes_err(st: CollectV, cs: Seq<ClassDeclV>, k: int)
    requires
        0 <= k <= cs.len(),
        add_classes(st, cs.take(k)) is Err,
    ensures
        add_classes(st, cs) == add_classes(st, cs.take(k)),
    decreases cs.len() - k,
{
    if k < cs.len() {
        assert(cs.take(k + 1).drop_last() =~= cs.take(k));
        lemma_add_classes_err(st, cs, k + 1);
    } else {
        assert(cs.take(k) =~= cs);
    }
}

/// The start of collecting: the environment as given, nothing else yet.
pub open spec fn collect_start(env: ClassEnv) -> CollectV {
    CollectV {
        params: params_view(env.class_params@),
        supers: supers_view(env.class_supers@),
        method_classes: methods_view(env.method_classes@),
        method_names: Seq::empty(),
        defaults: Seq::empty(),
    }
}

/// Collects the class declarations of a module into `env`, in order: each
/// class under its qualified name gets its parameter, its superclasses and
/// its methods, and its default methods are kept by class and method name;
/// a class declared twice, a default method that binds anything but a
/// variable, or one given twice, is an error (leaving `env` as far as it was
/// filled). At the end each method's classes are ordered without repeats.
pub fn collect_class_decls(decls: Vec<SynClassDecl>, env: &mut ClassEnv) -> (r: Result<ClassDeclInfo, String>)
    ensures
        match add_classes(collect_start(*old(env)), decls_view(decls@)) {
            Ok(st) => r is Ok && params_view(final(env).class_params@) == st.params && supers_view(final(env).class_supers@)
                == st.supers && methods_view(final(env).method_classes@) == normalize_lists(st.method_classes)
                && methods_view(r->Ok_0.method_names@) == st.method_names && defaults_view(r->Ok_0.defaults@)
                == st.defaults,
            Err(e) => r is Err && r->Err_0@ == e,
        },
{
    let ghost st0 = collect_start(*env);
    let ghost dv = decls_view(decls@);
    let mut info = ClassDeclInfo { method_names: Vec::new(), defaults: Vec::new() };
    assert(methods_view(info.method_names@) =~= Seq::<(Seq<char>, Seq<Seq<char>>)>::empty());
    assert(defaults_view(info.defaults@) =~= Seq::<((Seq<char>, Seq<char>), ExprV)>::empty());
    assert(collect_view(*env, info) == st0);
    let mut ds = decls;
    let total = ds.len();
    let mut k: usize = 0;
    assert(dv.take(0) =~= Seq::<ClassDeclV>::empty());
    while ds.len() > 0
        invariant
            k + ds.len() == dv.len(),
            dv.len() == total,
            forall|i: int| 0 <= i < ds.len() ==> #[trigger] dv[k + i] == class_decl_view(ds@[i]),
            add_classes(st0, dv.take(k as int)) == Ok::<CollectV, Seq<char>>(collect_view(*env, info)),
            st0 == collect_start(*old(env)),
            dv == decls_view(decls@),
        decreases ds.len(),
    {
        let ghost c0 = ds@[0];
        assert(dv[(k as int) + 0] == class_decl_view(c0));
        let c = ds.remove(0);
        assert(dv.take(k + 1).drop_last() =~= dv.take(k as int));
        assert(dv.take(k + 1).last() == class_decl_view(c));
        let r = add_class_exec(env, &mut info, c);
        match r {
            Err(e) => {
                proof {
                    lemma_add_classes_err(st0, dv, k as int + 1);
                }
                return Err(e);
            },
            Ok(_) => {},
        }
        proof {
            assert forall|i: int| 0 <= i < ds.len() implies #[trigger] dv[(k + 1) + i] == class_decl_view(ds@[i]) by {
                assert(dv[k + (i + 1)] == dv[(k + 1) + i]);
            }
        }
        k += 1;
    }
    assert(dv.take(k as int) =~= dv);
    let ghost fin = collect_view(*env, info);
    let ghost orig = methods_view(env.method_classes@);
    let mut i: usize = 0;
    assert(normalize_lists(orig).take(0) + orig.skip(0) =~= orig);
    while i < env.method_classes.len()
        invariant
            i <= env.method_classes.len(),
            env.method_classes@.len() == orig.len(),
            methods_view(env.method_classes@) == normalize_lists(orig).take(i as int) + orig.skip(i as int),
            params_view(env.class_params@) == fin.params,
            supers_view(env.class_supers@) == fin.supers,
        decreases env.method_classes.len() - i,
    {
        let ghost before = env.method_classes@;
        let (m, list) = env.method_classes.remove(i);
        let mut l2 = list;
        crate::names::normalize_string_alts(&mut l2);
        let e = (m, l2);
        env.method_classes.insert(i, e);
        proof {
            assert(env.method_classes@ =~= before.update(i as int, e));
            assert(methods_view(before)[i as int] == orig[i as int]);
            assert(orig[i as int] == (m@, string_views(list@)));
            assert(normalize_lists(orig)[i as int] == (orig[i as int].0, crate::instance::dedup_adj(
                crate::names::sort_names(orig[i as int].1),
            )));
            assert(methods_view(env.method_classes@)[i as int] == normalize_lists(orig)[i as int]);
            let a = methods_view(env.method_classes@);
            let b = normalize_lists(orig).take(i + 1) + orig.skip(i + 1);
            let pre = methods_view(before);
            assert(pre == normalize_lists(orig).take(i as int) + orig.skip(i as int));
            assert(a.len() == b.len());
            assert forall|j: int| 0 <= j < a.len() implies a[j] == b[j] by {
                if j < i {
                    assert(env.method_classes@[j] == before[j]);
                    assert(a[j] == pre[j]);
                    assert(pre[j] == normalize_lists(orig)[j]);
                } else if j > i {
                    assert(env.method_classes@[j] == before[j]);
                    assert(a[j] == pre[j]);
                    assert(pre[j] == orig[j]);
                    assert(b[j] == orig.skip(i + 1)[j - i - 1]);
                }
            }
            assert(a =~= b);
        }
        i += 1;
    }
    assert(normalize_lists(orig).take(orig.len() as int) + orig.skip(orig.len() as int) =~= normalize_lists(orig));
    Ok(info)
}

/// The model of a [`ClassEnv`]: class parameters, superclasses, method
/// classes.
pub struct EnvV {
    pub params: Seq<(Seq<char>, Seq<char>)>,
    pub supers: Seq<(Seq<char>, Seq<PredV>)>,
    pub method_classes: Seq<(Seq<char>, Seq<Seq<char>>)>,
}

pub open spec fn env_view(e: ClassEnv) -> EnvV {
    EnvV {
        params: params_view(e.class_params@),
        supers: supers_view(e.class_supers@),
        method_classes: methods_view(e.method_classes@),
    }
}

/// Merges class parameters: a class already known must have the same
/// parameter, a new one is added.
pub open spec fn merge_params(dst: Seq<(Seq<char>, Seq<char>)>, src: Seq<(Seq<char>, Seq<char>)>) -> Result<
    Seq<(Seq<char>, Seq<char>)>,
    Seq<char>,
>
    decreases src.len(),
{
    if src.len() == 0 {
        Ok(dst)
    } else {
        match merge_params(dst, src.drop_last()) {
            Err(e) => Err(e),
            Ok(d) => match param_of(d, src.last().0) {
                Some(p) => if p == src.last().1 {
                    Ok(d)
                } else {
                    Err("conflicting class param for class "@ + src.last().0)
                },
                None => Ok(d.push(src.last())),
            },
        }
    }
}

/// Whether class `c` has superclasses recorded.
pub open spec fn has_supers(ss: Seq<(Seq<char>, Seq<PredV>)>, c: Seq<char>) -> bool {
    exists|i: int| 0 <= i < ss.len() && ss[i].0 == c
}

/// Merges superclasses: a class keeps those it has, a new one gets its own.
pub open spec fn merge_supers(dst: Seq<(Seq<char>, Seq<PredV>)>, src: Seq<(Seq<char>, Seq<PredV>)>) -> Seq<(Seq<char>, Seq<PredV>)>
    decreases src.len(),
{
    if src.len() == 0 {
        dst
    } else {
        let d = merge_supers(dst, src.drop_last());
        if has_supers(d, src.last().0) {
            d
        } else {
            d.push(src.last())
        }
    }
}

/// Merges method classes: each method's classes are joined with those it
/// has, ordered, without repeats.
pub open spec fn merge_methods(dst: Seq<(Seq<char>, Seq<Seq<char>>)>, src: Seq<(Seq<char>, Seq<Seq<char>>)>) -> Seq<
    (Seq<char>, Seq<Seq<char>>),
>
    decreases src.len(),
{
    if src.len() == 0 {
        dst
    } else {
        let d = merge_methods(dst, src.drop_last());
        let (m, cs) = src.last();
        match last_key(d, m) {
            Some(i) => d.update(i, (m, crate::instance::dedup_adj(crate::names::sort_names(d[i].1 + cs)))),
            None => d.push((m, crate::instance::dedup_adj(crate::names::sort_names(cs)))),
        }
    }
}

/// Merges the class definitions of `src` into `dst`.
pub open spec fn merge_defs(dst: EnvV, src: EnvV) -> Result<EnvV, Seq<char>> {
    match merge_params(dst.params, src.params) {
        Err(e) => Err(e),
        Ok(p) => Ok(
            EnvV {
                params: p,
                supers: merge_supers(dst.supers, src.supers),
                method_classes: merge_methods(dst.method_classes, src.method_classes),
            },
        ),
    }
}

proof fn lemma_merge_params_err(dst: Seq<(Seq<char>, Seq<char>)>, src: Seq<(Seq<char>, Seq<char>)>, k: int)
    requires
        0 <= k <= src.len(),
        merge_params(dst, src.take(k)) is Err,
    ensures
        merge_params(dst, src) == merge_params(dst, src.take(k)),
    decreases src.len() - k,
{
    if k < src.len() {
        assert(src.take(k + 1).drop_last() =~= src.take(k));
        lemma_merge_params_err(dst, src, k + 1);
    } else {
        assert(src.take(k) =~= src);
    }
}

fn has_supers_exec(ss: &Vec<(String, Vec<SuperPred>)>, c: &String) -> (r: bool)
    ensures
        r == has_supers(supers_view(ss@), c@),
{
    let ghost sv = supers_view(ss@);
    let mut i: usize = 0;
    while i < ss.len()
        invariant
            i <= ss.len(),
            sv == supers_view(ss@),
            forall|j: int| 0 <= j < i ==> sv[j].0 != c@,
        decreases ss.len() - i,
    {
        if str_eq(ss[i].0.as_str(), c.as_str()) {
            assert(sv[i as int].0 == c@);
            return true;
        }
        i += 1;
    }
    false
}

/// Merges the class definitions of `src` into `dst`: class parameters must
/// agree, superclasses already recorded stay, and each method's classes are
/// joined, ordered, without repeats. Method signatures and instances are not
/// held by this environment.
pub fn merge_class_definitions_only(dst: &mut ClassEnv, src: &ClassEnv) -> (r: Result<(), String>)
    ensures
        match merge_defs(env_view(*old(dst)), env_view(*src)) {
            Ok(m) => r is Ok && env_view(*final(dst)) == m,
            Err(e) => r is Err && r->Err_0@ == e,
        },
{
    let ghost d0 = env_view(*dst);
    let ghost sv = env_view(*src);
    let mut i: usize = 0;
    assert(sv.params.take(0) =~= Seq::<(Seq<char>, Seq<char>)>::empty());
    while i < src.class_params.len()
        invariant
            i <= src.class_params.len(),
            sv == env_view(*src),
            d0 == env_view(*old(dst)),
            merge_params(d0.params, sv.params.take(i as int)) == Ok::<Seq<(Seq<char>, Seq<char>)>, Seq<char>>(params_view(dst.class_params@)),
            supers_view(dst.class_supers@) == d0.supers,
            methods_view(dst.method_classes@) == d0.method_classes,
        decreases src.class_params.len() - i,
    {
        assert(sv.params.take(i + 1).drop_last() =~= sv.params.take(i as int));
        assert(sv.params.take(i + 1).last() == (src.class_params@[i as int].0@, src.class_params@[i as int].1@));
        let c = &src.class_params[i].0;
        let p = &src.class_params[i].1;
        match lookup_param(&dst.class_params, c.as_str()) {
            Some(q) => {
                if !str_eq(q.as_str(), p.as_str()) {
                    let mut e = String::from_str("conflicting class param for class ");
                    e.append(c.as_str());
                    proof {
                        lemma_merge_params_err(d0.params, sv.params, i as int + 1);
                    }
                    return Err(e);
                }
            },
            None => {
                let ghost before = dst.class_params@;
                dst.class_params.push((c.clone(), p.clone()));
                assert(params_view(dst.class_params@) =~= params_view(before).push((c@, p@)));
            },
        }
        i += 1;
    }
    assert(sv.params.take(src.class_params.len() as int) =~= sv.params);
    let mut j: usize = 0;
    assert(sv.supers.take(0) =~= Seq::<(Seq<char>, Seq<PredV>)>::empty());
    while j < src.class_supers.len()
        invariant
            j <= src.class_supers.len(),
            sv == env_view(*src),
            supers_view(dst.class_supers@) == merge_supers(d0.supers, sv.supers.take(j as int)),
            d0 == env_view(*old(dst)),
            merge_params(d0.params, sv.params) == Ok::<Seq<(Seq<char>, Seq<char>)>, Seq<char>>(params_view(dst.class_params@)),
            methods_view(dst.method_classes@) == d0.method_classes,
        decreases src.class_supers.len() - j,
    {
        assert(sv.supers.take(j + 1).drop_last() =~= sv.supers.take(j as int));
        assert(sv.supers.take(j + 1).last() == sv.supers[j as int]);
        let c = &src.class_supers[j].0;
        if !has_supers_exec(&dst.class_supers, c) {
            let ps = crate::resolve::copy_preds(&src.class_supers[j].1);
            let ghost before = dst.class_supers@;
            dst.class_supers.push((c.clone(), ps));
            assert(supers_view(dst.class_supers@) =~= supers_view(before).push(sv.supers[j as int]));
        }
        j += 1;
    }
    assert(sv.supers.take(src.class_supers.len() as int) =~= sv.supers);
    let mut k: usize = 0;
    assert(sv.method_classes.take(0) =~= Seq::<(Seq<char>, Seq<Seq<char>>)>::empty());
    assert(merge_methods(d0.method_classes, sv.method_classes.take(0)) == d0.method_classes);
    while k < src.method_classes.len()
        invariant
            k <= src.method_classes.len(),
            sv == env_view(*src),
            methods_view(dst.method_classes@) == merge_methods(d0.method_classes, sv.method_classes.take(k as int)),
            d0 == env_view(*old(dst)),
            merge_params(d0.params, sv.params) == Ok::<Seq<(Seq<char>, Seq<char>)>, Seq<char>>(params_view(dst.class_params@)),
            supers_view(dst.class_supers@) == merge_supers(d0.supers, sv.supers),
        decreases src.method_classes.len() - k,
    {
        assert(sv.method_classes.take(k + 1).drop_last() =~= sv.method_classes.take(k as int));
        assert(sv.method_classes.take(k + 1).last() == sv.method_classes[k as int]);
        let m = &src.method_classes[k].0;
        let cs = &src.method_classes[k].1;
        assert(sv.method_classes[k as int] == (m@, string_views(cs@)));
        let ghost dv = methods_view(dst.method_classes@);
        proof {
            lemma_last_key_range(dv, m@);
        }
        let ghost expect = match last_key(dv, m@) {
            Some(i) => dv.update(i, (m@, crate::instance::dedup_adj(crate::names::sort_names(dv[i].1 + string_views(cs@))))),
            None => dv.push((m@, crate::instance::dedup_adj(crate::names::sort_names(string_views(cs@))))),
        };
        match last_key_exec(&dst.method_classes, m) {
            Some(idx) => {
                let n_mc = dst.method_classes.len();
                assert(dv.len() == n_mc);
                assert(0 <= last_key(dv, m@)->Some_0 < dv.len());
                assert(last_key(dv, m@) == Some(idx as int));
                let ghost before = dst.method_classes@;
                let (_, list) = dst.method_classes.remove(idx);
                let mut l2 = list;
                let ghost lv = string_views(l2@);
                assert(dv[idx as int] == methods_view(before)[idx as int]);
                assert(lv == dv[idx as int].1);
                let mut t: usize = 0;
                while t < cs.len()
                    invariant
                        t <= cs.len(),
                        string_views(l2@) == lv + string_views(cs@).take(t as int),
                    decreases cs.len() - t,
                {
                    let ghost b2 = l2@;
                    l2.push(cs[t].clone());
                    assert(string_views(l2@) =~= string_views(b2).push(cs@[t as int]@));
                    assert(string_views(cs@).take(t + 1) =~= string_views(cs@).take(t as int).push(cs@[t as int]@));
                    t += 1;
                }
                assert(string_views(cs@).take(cs.len() as int) =~= string_views(cs@));
                crate::names::normalize_string_alts(&mut l2);
                let e = (m.clone(), l2);
                dst.method_classes.insert(idx, e);
                assert(dst.method_classes@ =~= before.update(idx as int, e));
                assert(methods_view(dst.method_classes@) =~= dv.update(
                    idx as int,
                    (m@, crate::instance::dedup_adj(crate::names::sort_names(dv[idx as int].1 + string_views(cs@)))),
                ));
                assert(last_key(dv, m@) == Some(idx as int));
                assert(methods_view(dst.method_classes@) == expect);
            },
            None => {
                let mut l2 = crate::resolve::copy_strings(cs);
                crate::names::normalize_string_alts(&mut l2);
                let ghost before = dst.method_classes@;
                dst.method_classes.push((m.clone(), l2));
                assert(methods_view(dst.method_classes@) =~= dv.push(
                    (m@, crate::instance::dedup_adj(crate::names::sort_names(string_views(cs@)))),
                ));
                assert(methods_view(dst.method_classes@) == expect);
            },
        }
        proof {
            let t = sv.method_classes.take(k + 1);
            assert(t.drop_last() =~= sv.method_classes.take(k as int));
            assert(t.last() == (m@, string_views(cs@)));
            assert(merge_methods(d0.method_classes, sv.method_classes.take(k as int)) == dv);
            assert(merge_methods(d0.method_classes, t) == expect);
            assert(methods_view(dst.method_classes@) == expect);
        }
        k += 1;
    }
    assert(sv.method_classes.take(src.method_classes.len() as int) =~= sv.method_classes);
    assert(env_view(*dst) == merge_defs(d0, sv)->Ok_0);
    Ok(())
}

/// The empty class environment.
pub open spec fn empty_env() -> EnvV {
    EnvV { params: Seq::empty(), supers: Seq::empty(), method_classes: Seq::empty() }
}

/// Merges the environments in order into `acc`, stopping at the first error.
pub open spec fn merge_all(acc: EnvV, es: Seq<EnvV>) -> Result<EnvV, Seq<char>>
    decreases es.len(),
{
    if es.len() == 0 {
        Ok(acc)
    } else {
        match merge_all(acc, es.drop_last()) {
            Err(e) => Err(e),
            Ok(m) => merge_defs(m, es.last()),
        }
    }
}

pub open spec fn env_views(es: Seq<ClassEnv>) -> Seq<EnvV> {
    es.map_values(|e: ClassEnv| env_view(e))
}

/// A result with its value left out.
pub open spec fn unit_of(r: Result<ClassEnv, String>) -> Result<(), String> {
    match r {
        Ok(_) => Ok(()),
        Err(e) => Err(e),
    }
}

proof fn lemma_merge_all_err(acc: EnvV, es: Seq<EnvV>, k: int)
    requires
        0 <= k <= es.len(),
        merge_all(acc, es.take(k)) is Err,
    ensures
        merge_all(acc, es) == merge_all(acc, es.take(k)),
    decreases es.len() - k,
{
    if k < es.len() {
        assert(es.take(k + 1).drop_last() =~= es.take(k));
        lemma_merge_all_err(acc, es, k + 1);
    } else {
        assert(es.take(k) =~= es);
    }
}

/// Merges the class environments of several modules, in order, then checks
/// the result: no ambiguous method name, superclass predicates well formed,
/// no cycle of superclasses.
pub fn merge_class_envs(envs: Vec<ClassEnv>) -> (r: Result<ClassEnv, String>)
    ensures
        match merge_all(empty_env(), env_views(envs@)) {
            Err(e) => r is Err && r->Err_0@ == e,
            Ok(m) => match ambiguity_check(m.method_classes) {
                Err(e) => r is Err && r->Err_0@ == e,
                Ok(_) => match supers_check(m.params, m.supers) {
                    Err(e) => r is Err && r->Err_0@ == e,
                    Ok(_) => (r is Ok ==> env_view(r->Ok_0) == m) && forall|f: nat|
                        f > class_universe(m.params, m.supers).len() ==> same_check(
                            unit_of(r),
                            #[trigger] cycle_check(f, m.params, m.supers),
                        ),
                },
            },
        },
{
    let ghost ev = env_views(envs@);
    let mut merged = ClassEnv { class_params: Vec::new(), class_supers: Vec::new(), method_classes: Vec::new() };
    assert(env_view(merged) == empty_env()) by {
        assert(params_view(merged.class_params@) =~= Seq::<(Seq<char>, Seq<char>)>::empty());
        assert(supers_view(merged.class_supers@) =~= Seq::<(Seq<char>, Seq<PredV>)>::empty());
        assert(methods_view(merged.method_classes@) =~= Seq::<(Seq<char>, Seq<Seq<char>>)>::empty());
    }
    let mut i: usize = 0;
    assert(ev.take(0) =~= Seq::<EnvV>::empty());
    while i < envs.len()
        invariant
            i <= envs.len(),
            ev == env_views(envs@),
            merge_all(empty_env(), ev.take(i as int)) == Ok::<EnvV, Seq<char>>(env_view(merged)),
        decreases envs.len() - i,
    {
        assert(ev.take(i + 1).drop_last() =~= ev.take(i as int));
        assert(ev.take(i + 1).last() == env_view(envs@[i as int]));
        let r = merge_class_definitions_only(&mut merged, &envs[i]);
        match r {
            Err(e) => {
                proof {
                    lemma_merge_all_err(empty_env(), ev, i as int + 1);
                }
                return Err(e);
            },
            Ok(_) => {},
        }
        i += 1;
    }
    assert(ev.take(envs.len() as int) =~= ev);
    match reject_ambiguous_method_names(&merged) {
        Err(e) => {
            return Err(e);
        },
        Ok(_) => {},
    }
    match validate_superclass_preds(&merged) {
        Err(e) => {
            return Err(e);
        },
        Ok(_) => {},
    }
    match detect_superclass_cycles(&merged) {
        Err(e) => Err(e),
        Ok(_) => Ok(merged),
    }
}

} // verus!
