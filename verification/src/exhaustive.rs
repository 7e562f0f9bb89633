//! Exhaustiveness of a `case` on a value of an algebraic data type.
use vstd::prelude::*;
use crate::names::{adt_head, adt_head_type_name, str_eq, string_views, unqual_name_last_segment};
use crate::numeric::last_seg;
use crate::origins::has_dot;
use crate::qualify::join_comma;
use crate::ty::{Ty, TyV};

verus! {

/// The model of the data declarations in scope: each a type name and the
/// names of its constructors.
pub open spec fn data_views(d: Seq<(String, Vec<String>)>) -> Seq<(Seq<char>, Seq<Seq<char>>)> {
    d.map_values(|e: (String, Vec<String>)| (e.0@, string_views(e.1@)))
}

/// The constructors of the data type `n`: those of its last declaration.
pub open spec fn data_lookup(d: Seq<(Seq<char>, Seq<Seq<char>>)>, n: Seq<char>) -> Option<Seq<Seq<char>>>
    decreases d.len(),
{
    if d.len() == 0 {
        None
    } else if d.last().0 == n {
        Some(d.last().1)
    } else {
        data_lookup(d.drop_last(), n)
    }
}

/// The alternative that a pattern on constructor `c` contributes.
pub open spec fn ctor_alt(c: Seq<char>) -> Seq<char> {
    "ctor:"@ + last_seg(c)
}

/// The constructors, in order, that no alternative covers.
pub open spec fn missing_ctors(cs: Seq<Seq<char>>, alts: Seq<Seq<char>>) -> Seq<Seq<char>>
    decreases cs.len(),
{
    if cs.len() == 0 {
        Seq::empty()
    } else if alts.contains(ctor_alt(cs.last())) {
        missing_ctors(cs.drop_last(), alts)
    } else {
        missing_ctors(cs.drop_last(), alts).push(cs.last())
    }
}

/// What a `case` on a value of type `t` covers among the constructors of
/// its data type: `None` where `t` is not a data type application; no error
/// where the data type is unknown, or where an unqualified name meets
/// qualified constructors (another module's type of the same name);
/// otherwise the constructors no alternative covers, if any.
pub open spec fn case_adt_check(
    d: Seq<(Seq<char>, Seq<Seq<char>>)>,
    t: TyV,
    alts: Seq<Seq<char>>,
) -> Option<Result<(), Seq<char>>> {
    if !(t is App || t is Con) {
        None
    } else {
        match adt_head(t) {
            None => Some(Ok(())),
            Some(n) => match data_lookup(d, n) {
                None => Some(Ok(())),
                Some(cs) => if !n.contains('.') && exists|i: int| 0 <= i < cs.len() && cs[i].contains('.') {
                    Some(Ok(()))
                } else if missing_ctors(cs, alts).len() == 0 {
                    Some(Ok(()))
                } else {
                    Some(
                        Err(
                            "non-exhaustive case on "@ + n + ": missing constructors: "@ + join_comma(
                                missing_ctors(cs, alts),
                            ),
                        ),
                    )
                },
            },
        }
    }
}

fn lookup_data<'a>(d: &'a [(String, Vec<String>)], n: &str) -> (r: Option<&'a Vec<String>>)
    ensures
        match data_lookup(data_views(d@), n@) {
            Some(cs) => r is Some && string_views(r->Some_0@) == cs,
            None => r is None,
        },
{
    let ghost dv = data_views(d@);
    let mut i: usize = d.len();
    assert(dv.take(i as int) =~= dv);
    while i > 0
        invariant
            i <= d.len(),
            dv == data_views(d@),
            data_lookup(dv, n@) == data_lookup(dv.take(i as int), n@),
        decreases i,
    {
        let ghost t = dv.take(i as int);
        assert(t.drop_last() =~= dv.take(i - 1));
        assert(t.last() == dv[i - 1]);
        if str_eq(d[i - 1].0.as_str(), n) {
            return Some(&d[i - 1].1);
        }
        i -= 1;
    }
    assert(dv.take(0) =~= Seq::<(Seq<char>, Seq<Seq<char>>)>::empty());
    None
}

fn contains_text(alts: &[String], a: &String) -> (r: bool)
    ensures
        r == string_views(alts@).contains(a@),
{
    let ghost av = string_views(alts@);
    let mut i: usize = 0;
    while i < alts.len()
        invariant
            i <= alts.len(),
            av == string_views(alts@),
            forall|j: int| 0 <= j < i ==> av[j] != a@,
        decreases alts.len() - i,
    {
        if str_eq(alts[i].as_str(), a.as_str()) {
            assert(av[i as int] == a@);
            return true;
        }
        i += 1;
    }
    false
}

fn any_qualified(cs: &Vec<String>) -> (r: bool)
    ensures
        r == exists|i: int| 0 <= i < cs@.len() && (#[trigger] string_views(cs@)[i]).contains('.'),
{
    let ghost cv = string_views(cs@);
    let mut i: usize = 0;
    while i < cs.len()
        invariant
            i <= cs.len(),
            cv == string_views(cs@),
            forall|j: int| 0 <= j < i ==> !(#[trigger] cv[j]).contains('.'),
        decreases cs.len() - i,
    {
        if has_dot(cs[i].as_str()) {
            assert(cv[i as int].contains('.'));
            return true;
        }
        i += 1;
    }
    false
}

/// Checks a `case` on a value of a data type for exhaustiveness against the
/// data declarations in scope, each a type name with its constructors.
pub fn check_case_adt_exhaustive(
    data_env: &[(String, Vec<String>)],
    scrut_ty: &Ty,
    alts: &[String],
) -> (r: Result<Option<Result<(), String>>, String>)
    ensures
        r is Ok,
        match case_adt_check(data_views(data_env@), scrut_ty@, string_views(alts@)) {
            None => r->Ok_0 is None,
            Some(Ok(_)) => r->Ok_0 == Some(Ok::<(), String>(())),
            Some(Err(m)) => r->Ok_0 is Some && r->Ok_0->Some_0 is Err && r->Ok_0->Some_0->Err_0@ == m,
        },
{
    match scrut_ty {
        Ty::App { .. } => {},
        Ty::Con(_) => {},
        _ => {
            return Ok(None);
        },
    }
    let ty_name = match adt_head_type_name(scrut_ty) {
        None => {
            return Ok(Some(Ok(())));
        },
        Some(n) => n,
    };
    let cs = match lookup_data(data_env, ty_name.as_str()) {
        None => {
            return Ok(Some(Ok(())));
        },
        Some(cs) => cs,
    };
    let ghost cv = string_views(cs@);
    let ghost av = string_views(alts@);
    if !has_dot(ty_name.as_str()) && any_qualified(cs) {
        return Ok(Some(Ok(())));
    }
    let mut missing: Vec<String> = Vec::new();
    let mut i: usize = 0;
    assert(cv.take(0) =~= Seq::<Seq<char>>::empty());
    while i < cs.len()
        invariant
            i <= cs.len(),
            cv == string_views(cs@),
            av == string_views(alts@),
            string_views(missing@) == missing_ctors(cv.take(i as int), av),
        decreases cs.len() - i,
    {
        assert(cv.take(i + 1).drop_last() =~= cv.take(i as int));
        assert(cv.take(i + 1).last() == cs@[i as int]@);
        let mut key = String::from_str("ctor:");
        let seg = unqual_name_last_segment(cs[i].as_str());
        key.append(seg.as_str());
        assert(key@ == ctor_alt(cs@[i as int]@));
        if !contains_text(alts, &key) {
            let ghost before = missing@;
            missing.push(cs[i].clone());
            assert(string_views(missing@) =~= string_views(before).push(cs@[i as int]@));
        }
        i += 1;
    }
    assert(cv.take(cs.len() as int) =~= cv);
    if missing.len() == 0 {
        return Ok(Some(Ok(())));
    }
    let mut m = String::from_str("non-exhaustive case on ");
    m.append(ty_name.as_str());
    m.append(": missing constructors: ");
    let ghost prefix = m@;
    let ghost mv = string_views(missing@);
    let mut j: usize = 0;
    assert(mv.take(0) =~= Seq::<Seq<char>>::empty());
    while j < missing.len()
        invariant
            j <= missing.len(),
            mv == string_views(missing@),
            m@ == prefix + join_comma(mv.take(j as int)),
        decreases missing.len() - j,
    {
        assert(mv.take(j + 1).drop_last() =~= mv.take(j as int));
        assert(mv[j as int] == missing@[j as int]@);
        if j > 0 {
            m.append(", ");
        }
        m.append(missing[j].as_str());
        proof {
            if j == 0 {
                assert(mv.take(1) =~= seq![mv[0]]);
            }
            assert(m@ =~= prefix + join_comma(mv.take(j + 1)));
        }
        j += 1;
    }
    assert(mv.take(missing.len() as int) =~= mv);
    Ok(Some(Err(m)))
}

} // verus!
