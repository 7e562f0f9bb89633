//! Derived `Semigroup` and `Monoid` instances for single-constructor data
//! types, built as syntax: `(<>)` combines two values field by field and
//! `mempty` fills every field with `mempty`.
use vstd::prelude::*;
use crate::display::{decimal, write_decimal};
use crate::names::{str_eq, string_views};
use crate::syntax::{
    arm_view, arm_views, expr_view, expr_views, pat_view, pat_views, type_view, type_views, ExprV, NameV, PatV, SynArm, SynExpr,
    SynName, SynPat, SynType, TypeV, SynCtor, SynDataDecl,
};

verus! {

/// `instance (class p, ...) => class ty where methods`; each method a
/// name and its defining expression.
#[derive(Debug, PartialEq, Eq)]
pub struct SynInstance {
    pub preds: Vec<(String, SynType)>,
    pub class: String,
    pub ty: SynType,
    pub methods: Vec<(String, SynExpr)>,
}

pub struct InstanceV {
    pub preds: Seq<(Seq<char>, TypeV)>,
    pub class: Seq<char>,
    pub ty: TypeV,
    pub methods: Seq<(Seq<char>, ExprV)>,
}

pub open spec fn instance_view(i: SynInstance) -> InstanceV {
    InstanceV {
        preds: pred_views(i.preds@),
        class: i.class@,
        ty: type_view(i.ty),
        methods: method_views(i.methods@),
    }
}

pub open spec fn pred_views(ps: Seq<(String, SynType)>) -> Seq<(Seq<char>, TypeV)> {
    ps.map_values(|p: (String, SynType)| (p.0@, type_view(p.1)))
}

pub open spec fn method_views(ms: Seq<(String, SynExpr)>) -> Seq<(Seq<char>, ExprV)> {
    ms.map_values(|m: (String, SynExpr)| (m.0@, expr_view(m.1)))
}

/// `prefix` followed by the decimal digits of `i`.
pub open spec fn numbered(prefix: Seq<char>, i: nat) -> Seq<char> {
    prefix + decimal(i)
}

/// `ctor x0 .. x(n-1)` as a pattern, with `xi` named `prefix` and `i`.
pub open spec fn fields_pattern(ctor: Seq<char>, prefix: Seq<char>, n: nat) -> PatV {
    PatV::Ctor(NameV::Unresolved(ctor), Seq::new(n, |i: int| PatV::Var(numbered(prefix, i as nat))))
}

/// `((<>) __ai) __bi`.
pub open spec fn combine_field(i: nat) -> ExprV {
    ExprV::Apply(
        Box::new(ExprV::Apply(Box::new(ExprV::Var("<>"@)), seq![ExprV::Var(numbered("__a"@, i))])),
        seq![ExprV::Var(numbered("__b"@, i))],
    )
}

/// `(<>) = \__x __y -> case (__x, __y) of (C __a0 .., C __b0 ..) -> C (__a0 <> __b0) ..`.
pub open spec fn append_method(ctor: Seq<char>, n: nat) -> (Seq<char>, ExprV) {
    (
        "<>"@,
        ExprV::Lambda(
            seq!["__x"@, "__y"@],
            Box::new(
                ExprV::Case(
                    Box::new(ExprV::Tuple(seq![ExprV::Var("__x"@), ExprV::Var("__y"@)])),
                    seq![
                        (
                            PatV::Tuple(seq![fields_pattern(ctor, "__a"@, n), fields_pattern(ctor, "__b"@, n)]),
                            None,
                            ExprV::Apply(Box::new(ExprV::Ctor(NameV::Unresolved(ctor))), Seq::new(n, |i: int| combine_field(i as nat))),
                        ),
                    ],
                ),
            ),
        ),
    )
}

/// `mempty = C mempty .. mempty`.
pub open spec fn mempty_method(ctor: Seq<char>, n: nat) -> (Seq<char>, ExprV) {
    ("mempty"@, ExprV::Apply(Box::new(ExprV::Ctor(NameV::Unresolved(ctor))), Seq::new(n, |i: int| ExprV::Var("mempty"@))))
}

/// The derived instance of `class` for a data type with the given name,
/// parameters, and first constructor `ctor` of `n` fields: each parameter
/// constrained by `class`; the type applied to its parameters; `(<>)` for
/// `Semigroup`, `mempty` and `(<>)` for `Monoid`, no method for another
/// class.
pub open spec fn derived_instance(
    class: Seq<char>,
    name: Seq<char>,
    params: Seq<Seq<char>>,
    ctor: Seq<char>,
    n: nat,
) -> InstanceV {
    InstanceV {
        preds: params.map_values(|p: Seq<char>| (class, TypeV::Var(p))),
        class,
        ty: if params.len() == 0 {
            TypeV::Var(name)
        } else {
            TypeV::App(Box::new(TypeV::Var(name)), params.map_values(|p: Seq<char>| TypeV::Var(p)))
        },
        methods: if class == "Semigroup"@ {
            seq![append_method(ctor, n)]
        } else if class == "Monoid"@ {
            seq![mempty_method(ctor, n), append_method(ctor, n)]
        } else {
            seq![]
        },
    }
}

proof fn lemma_pat_views_push(s: Seq<SynPat>, x: SynPat)
    ensures
        pat_views(s.push(x)) == pat_views(s).push(pat_view(x)),
        pat_views(Seq::<SynPat>::empty()) == Seq::<PatV>::empty(),
{
    assert(s.push(x).drop_last() =~= s);
}

proof fn lemma_expr_views_push(s: Seq<SynExpr>, x: SynExpr)
    ensures
        expr_views(s.push(x)) == expr_views(s).push(expr_view(x)),
        expr_views(Seq::<SynExpr>::empty()) == Seq::<ExprV>::empty(),
{
    assert(s.push(x).drop_last() =~= s);
}

proof fn lemma_arm_views_push(s: Seq<SynArm>, x: SynArm)
    ensures
        arm_views(s.push(x)) == arm_views(s).push(arm_view(x)),
        arm_views(Seq::<SynArm>::empty()) == Seq::<crate::syntax::ArmV>::empty(),
{
    assert(s.push(x).drop_last() =~= s);
}

fn numbered_name(prefix: &str, i: usize) -> (r: String)
    ensures
        r@ == numbered(prefix@, i as nat),
{
    let mut s = prefix.to_owned();
    write_decimal(&mut s, i as u64);
    s
}

fn vars_pattern(ctor: &String, prefix: &str, n: usize) -> (r: SynPat)
    ensures
        pat_view(r) == fields_pattern(ctor@, prefix@, n as nat),
{
    let ghost want = Seq::new(n as nat, |i: int| PatV::Var(numbered(prefix@, i as nat)));
    let mut args: Vec<SynPat> = Vec::new();
    let mut i: usize = 0;
    while i < n
        invariant
            i <= n,
            want == Seq::new(n as nat, |i: int| PatV::Var(numbered(prefix@, i as nat))),
            pat_views(args@) == want.take(i as int),
        decreases n - i,
    {
        let p = SynPat::Var(numbered_name(prefix, i));
        proof {
            lemma_pat_views_push(args@, p);
        }
        args.push(p);
        assert(pat_views(args@) =~= want.take(i + 1));
        i += 1;
    }
    assert(want.take(n as int) =~= want);
    SynPat::Ctor(SynName::Unresolved(ctor.clone()), args)
}

fn combined_fields(n: usize) -> (r: Vec<SynExpr>)
    ensures
        expr_views(r@) == Seq::new(n as nat, |i: int| combine_field(i as nat)),
{
    let ghost want = Seq::new(n as nat, |i: int| combine_field(i as nat));
    let mut out: Vec<SynExpr> = Vec::new();
    let mut i: usize = 0;
    while i < n
        invariant
            i <= n,
            want == Seq::new(n as nat, |i: int| combine_field(i as nat)),
            expr_views(out@) == want.take(i as int),
        decreases n - i,
    {
        let op = SynExpr::Var("<>".to_owned());
        let a = SynExpr::Var(numbered_name("__a", i));
        let b = SynExpr::Var(numbered_name("__b", i));
        let va = vec![a];
        let vb = vec![b];
        proof {
            lemma_expr_views_push(Seq::empty(), a);
            lemma_expr_views_push(Seq::empty(), b);
            assert(va@ =~= Seq::<SynExpr>::empty().push(a));
            assert(vb@ =~= Seq::<SynExpr>::empty().push(b));
            assert(expr_views(va@) =~= seq![ExprV::Var(numbered("__a"@, i as nat))]);
            assert(expr_views(vb@) =~= seq![ExprV::Var(numbered("__b"@, i as nat))]);
        }
        let inner = SynExpr::Apply(Box::new(op), va);
        assert(expr_view(op) == ExprV::Var("<>"@));
        assert(expr_view(inner) == ExprV::Apply(Box::new(ExprV::Var("<>"@)), seq![ExprV::Var(numbered("__a"@, i as nat))]));
        let e = SynExpr::Apply(Box::new(inner), vb);
        assert(expr_view(e) == combine_field(i as nat));
        proof {
            lemma_expr_views_push(out@, e);
        }
        out.push(e);
        assert(expr_views(out@) =~= want.take(i + 1));
        i += 1;
    }
    assert(want.take(n as int) =~= want);
    out
}

fn append_binding(ctor: &String, n: usize) -> (r: (String, SynExpr))
    ensures
        (r.0@, expr_view(r.1)) == append_method(ctor@, n as nat),
{
    let pa = vars_pattern(ctor, "__a", n);
    let pb = vars_pattern(ctor, "__b", n);
    let vp = vec![pa, pb];
    proof {
        lemma_pat_views_push(Seq::empty(), pa);
        lemma_pat_views_push(seq![pa], pb);
        assert(vp@ =~= seq![pa].push(pb));
        assert(seq![pa] =~= Seq::<SynPat>::empty().push(pa));
        assert(pat_views(vp@) =~= seq![fields_pattern(ctor@, "__a"@, n as nat), fields_pattern(ctor@, "__b"@, n as nat)]);
    }
    let pat = SynPat::Tuple(vp);
    let fields = combined_fields(n);
    let c = SynExpr::Ctor(SynName::Unresolved(ctor.clone()));
    assert(expr_view(c) == ExprV::Ctor(NameV::Unresolved(ctor@)));
    let rhs = SynExpr::Apply(Box::new(c), fields);
    assert(expr_view(rhs) == ExprV::Apply(Box::new(ExprV::Ctor(NameV::Unresolved(ctor@))), Seq::new(n as nat, |i: int| combine_field(i as nat))));
    assert(pat_view(SynPat::Tuple(vp)) == PatV::Tuple(seq![fields_pattern(ctor@, "__a"@, n as nat), fields_pattern(ctor@, "__b"@, n as nat)]));
    let x = SynExpr::Var("__x".to_owned());
    let y = SynExpr::Var("__y".to_owned());
    let vxy = vec![x, y];
    proof {
        lemma_expr_views_push(Seq::empty(), x);
        lemma_expr_views_push(seq![x], y);
        assert(vxy@ =~= seq![x].push(y));
        assert(seq![x] =~= Seq::<SynExpr>::empty().push(x));
        assert(expr_views(vxy@) =~= seq![ExprV::Var("__x"@), ExprV::Var("__y"@)]);
    }
    let scrut = SynExpr::Tuple(vxy);
    let arm = SynArm { pat, guard: None, body: rhs };
    let arms = vec![arm];
    proof {
        lemma_arm_views_push(Seq::empty(), arm);
        assert(arms@ =~= Seq::<SynArm>::empty().push(arm));
        assert(arm_view(arm) == (pat_view(pat), None::<ExprV>, expr_view(rhs)));
        assert(arm_views(arms@) =~= seq![(pat_view(pat), None::<ExprV>, expr_view(rhs))]);
    }
    assert(expr_view(scrut) == ExprV::Tuple(seq![ExprV::Var("__x"@), ExprV::Var("__y"@)]));
    let case_expr = SynExpr::Case(Box::new(scrut), arms);
    assert(expr_view(case_expr) == ExprV::Case(Box::new(expr_view(scrut)), seq![(pat_view(pat), None::<ExprV>, expr_view(rhs))]));
    let params = vec!["__x".to_owned(), "__y".to_owned()];
    assert(string_views(params@) =~= seq!["__x"@, "__y"@]);
    let body = SynExpr::Lambda(params, Box::new(case_expr));
    assert(expr_view(body) == append_method(ctor@, n as nat).1);
    let name = "<>".to_owned();
    assert(name@ == "<>"@);
    (name, body)
}

fn mempty_binding(ctor: &String, n: usize) -> (r: (String, SynExpr))
    ensures
        (r.0@, expr_view(r.1)) == mempty_method(ctor@, n as nat),
{
    let ghost want = Seq::new(n as nat, |i: int| ExprV::Var("mempty"@));
    let mut args: Vec<SynExpr> = Vec::new();
    let mut i: usize = 0;
    while i < n
        invariant
            i <= n,
            want == Seq::new(n as nat, |i: int| ExprV::Var("mempty"@)),
            expr_views(args@) == want.take(i as int),
        decreases n - i,
    {
        let e = SynExpr::Var("mempty".to_owned());
        proof {
            lemma_expr_views_push(args@, e);
        }
        args.push(e);
        assert(expr_views(args@) =~= want.take(i + 1));
        i += 1;
    }
    assert(want.take(n as int) =~= want);
    let c = SynExpr::Ctor(SynName::Unresolved(ctor.clone()));
    assert(expr_view(c) == ExprV::Ctor(NameV::Unresolved(ctor@)));
    let body = SynExpr::Apply(Box::new(c), args);
    assert(expr_view(body) == ExprV::Apply(Box::new(ExprV::Ctor(NameV::Unresolved(ctor@))), want));
    let name = "mempty".to_owned();
    assert(name@ == "mempty"@);
    (name, body)
}

proof fn lemma_type_views_push(s: Seq<SynType>, x: SynType)
    ensures
        type_views(s.push(x)) == type_views(s).push(type_view(x)),
        type_views(Seq::<SynType>::empty()) == Seq::<TypeV>::empty(),
{
    assert(s.push(x).drop_last() =~= s);
}

/// The derived `Semigroup` or `Monoid` instance of `d`, built from its
/// first constructor (`d` has one constructor where this is called).
pub fn generate_semigroup_monoid_instance(d: &SynDataDecl, class_name: &str) -> (r: Result<SynInstance, String>)
    requires
        d.ctors.len() >= 1,
    ensures
        r is Ok,
        instance_view(r->Ok_0) == derived_instance(
            class_name@,
            d.name@,
            string_views(d.params@),
            d.ctors@[0].name@,
            d.ctors@[0].args.len() as nat,
        ),
{
    let ctor = &d.ctors[0];
    let n = ctor.args.len();
    let ghost pv = string_views(d.params@);
    let mut preds: Vec<(String, SynType)> = Vec::new();
    let mut targs: Vec<SynType> = Vec::new();
    let mut i: usize = 0;
    while i < d.params.len()
        invariant
            i <= d.params.len(),
            pv == string_views(d.params@),
            pred_views(preds@) == pv.take(i as int).map_values(|p: Seq<char>| (class_name@, TypeV::Var(p))),
            type_views(targs@) == pv.take(i as int).map_values(|p: Seq<char>| TypeV::Var(p)),
        decreases d.params.len() - i,
    {
        let pr = (class_name.to_owned(), SynType::Var(d.params[i].clone()));
        let t = SynType::Var(d.params[i].clone());
        proof {
            lemma_type_views_push(targs@, t);
            assert(pv.take(i + 1) =~= pv.take(i as int).push(d.params@[i as int]@));
        }
        let ghost before = preds@;
        preds.push(pr);
        targs.push(t);
        assert(preds@ == before.push(pr));
        assert(type_view(pr.1) == TypeV::Var(d.params@[i as int]@));
        assert(pred_views(preds@) =~= pred_views(before).push((class_name@, TypeV::Var(d.params@[i as int]@))));
        assert(pred_views(preds@) =~= pv.take(i + 1).map_values(|p: Seq<char>| (class_name@, TypeV::Var(p))));
        assert(type_views(targs@) =~= pv.take(i + 1).map_values(|p: Seq<char>| TypeV::Var(p)));
        i += 1;
    }
    assert(pv.take(d.params.len() as int) =~= pv);
    let ty = if d.params.len() == 0 {
        SynType::Var(d.name.clone())
    } else {
        let head = SynType::Var(d.name.clone());
        assert(type_view(head) == TypeV::Var(d.name@));
        SynType::App(Box::new(head), targs)
    };
    let mut methods: Vec<(String, SynExpr)> = Vec::new();
    if str_eq(class_name, "Semigroup") {
        methods.push(append_binding(&ctor.name, n));
        assert(method_views(methods@) =~= seq![append_method(ctor.name@, n as nat)]);
    } else if str_eq(class_name, "Monoid") {
        methods.push(mempty_binding(&ctor.name, n));
        methods.push(append_binding(&ctor.name, n));
        assert(method_views(methods@) =~= seq![mempty_method(ctor.name@, n as nat), append_method(ctor.name@, n as nat)]);
    } else {
        assert(method_views(methods@) =~= Seq::<(Seq<char>, ExprV)>::empty());
    }
    let inst = SynInstance { preds, class: class_name.to_owned(), ty, methods };
    assert(instance_view(inst) =~= derived_instance(class_name@, d.name@, pv, ctor.name@, n as nat));
    Ok(inst)
}

} // verus!
