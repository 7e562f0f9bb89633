//! Resolving qualified constructor names (`Q.Ctor`) in a module's
//! expressions and patterns to the module that defines them, numbering
//! modules as they are first met.
use vstd::prelude::*;
use crate::names::{str_eq, string_views, QualName};
use crate::origins::parse_qual;
use crate::qualify::{canonical_of, QualEnv};
use crate::syntax::{
    item_view, item_views, opt_view, ItemV, SynTypeAlias, SynDataDecl, SynCtor, SynExportSpec, SynExportCtors, ctor_views,
    export_view, export_views, SynImportSpec, ImportSpecV, ExportV, SynImport, SynItem, SynModule, ClassDeclV, SynClassDecl, SuperPred,
    pred_view, preds_view,
    arm_view, arm_views, binding_views, expr_view, expr_views, field_views, name_view, pat_field_views, pat_view, pat_views,
    stmt_view, stmt_views, ArmV, ExprV, NameV, PatV, StmtV, SynArm, SynBinding, SynExpr, SynName, SynPat, SynStmt,
};

verus! {

/// Module numbers: the module named at position `i` has number `i + 1`.
pub struct ModuleIds {
    names: Vec<String>,
}

/// The position of the first `m` in `ids`.
pub open spec fn first_pos(ids: Seq<Seq<char>>, m: Seq<char>) -> Option<int>
    decreases ids.len(),
{
    if ids.len() == 0 {
        None
    } else {
        match first_pos(ids.drop_last(), m) {
            Some(i) => Some(i),
            None => if ids.last() == m {
                Some(ids.len() - 1)
            } else {
                None
            },
        }
    }
}

/// The number of module `m`, and the numbered modules after it is given
/// one: a module already numbered keeps its number, a new one gets the next.
pub open spec fn intern_spec(ids: Seq<Seq<char>>, m: Seq<char>) -> (nat, Seq<Seq<char>>) {
    match first_pos(ids, m) {
        Some(i) => ((i + 1) as nat, ids),
        None => ((ids.len() + 1) as nat, ids.push(m)),
    }
}

impl ModuleIds {
    /// The modules numbered so far, in order of their numbers.
    pub closed spec fn names(&self) -> Seq<Seq<char>> {
        crate::names::string_views(self.names@)
    }

    /// No module numbered yet: the first one gets number 1.
    pub fn new() -> (r: ModuleIds)
        ensures
            r.names() == Seq::<Seq<char>>::empty(),
    {
        let r = ModuleIds { names: Vec::new() };
        assert(r.names() =~= Seq::<Seq<char>>::empty());
        r
    }

    /// The number of module `m`, numbering it if it is new.
    pub fn intern(&mut self, m: &str) -> (r: usize)
        ensures
            (r as nat, final(self).names()) == intern_spec(old(self).names(), m@),
    {
        let ghost nv = self.names();
        let mut i: usize = 0;
        assert(nv.take(0) =~= Seq::<Seq<char>>::empty());
        while i < self.names.len()
            invariant
                i <= self.names.len(),
                nv == self.names(),
                first_pos(nv.take(i as int), m@) is None,
            decreases self.names.len() - i,
        {
            assert(nv.take(i + 1).drop_last() =~= nv.take(i as int));
            assert(nv.take(i + 1).last() == self.names@[i as int]@);
            if str_eq(self.names[i].as_str(), m) {
                proof {
                    lemma_first_pos_prefix(nv, m@, i + 1);
                }
                return i + 1;
            }
            i += 1;
        }
        assert(nv.take(self.names.len() as int) =~= nv);
        self.names.push(m.to_owned());
        assert(self.names() =~= nv.push(m@));
        self.names.len()
    }
}

proof fn lemma_first_pos_prefix(ids: Seq<Seq<char>>, m: Seq<char>, k: int)
    requires
        0 <= k <= ids.len(),
        first_pos(ids.take(k), m) is Some,
    ensures
        first_pos(ids, m) == first_pos(ids.take(k), m),
    decreases ids.len() - k,
{
    if k < ids.len() {
        assert(ids.take(k + 1).drop_last() =~= ids.take(k));
        lemma_first_pos_prefix(ids, m, k + 1);
    } else {
        assert(ids.take(k) =~= ids);
    }
}

/// A name written `Q.n` whose qualifier `Q` stands for a module becomes
/// resolved to that module's number, keeping `Q` and `n`; any other name is
/// left as it is.
pub open spec fn resolve_name_spec(n: NameV, q: Seq<(Seq<char>, Seq<char>)>, ids: Seq<Seq<char>>) -> (NameV, Seq<Seq<char>>) {
    match n {
        NameV::Unresolved(s) => match parse_qual(s) {
            None => (n, ids),
            Some(qn) => match canonical_of(q, qn.0) {
                None => (n, ids),
                Some(c) => (NameV::Resolved(intern_spec(ids, c).0, qn.0, qn.1), intern_spec(ids, c).1),
            },
        },
        NameV::Resolved(_, _, _) => (n, ids),
    }
}

/// A pattern with its constructor names resolved, left to right.
pub open spec fn res_pat(p: PatV, q: Seq<(Seq<char>, Seq<char>)>, ids: Seq<Seq<char>>) -> (PatV, Seq<Seq<char>>)
    decreases p, 1nat,
{
    match p {
        PatV::Ctor(n, ps) => {
            let (n1, i1) = resolve_name_spec(n, q, ids);
            let (ps1, i2) = res_pats(ps, q, i1);
            (PatV::Ctor(n1, ps1), i2)
        },
        PatV::Tuple(ps) => {
            let (ps1, i1) = res_pats(ps, q, ids);
            (PatV::Tuple(ps1), i1)
        },
        PatV::List(ps) => {
            let (ps1, i1) = res_pats(ps, q, ids);
            (PatV::List(ps1), i1)
        },
        PatV::Record(fs) => {
            let (fs1, i1) = res_pat_fields(fs, q, ids);
            (PatV::Record(fs1), i1)
        },
        PatV::RecordLoose(fs, rest) => {
            let (fs1, i1) = res_pat_fields(fs, q, ids);
            (PatV::RecordLoose(fs1, rest), i1)
        },
        PatV::Cons(a, b) => {
            let (a1, i1) = res_pat(*a, q, ids);
            let (b1, i2) = res_pat(*b, q, i1);
            (PatV::Cons(Box::new(a1), Box::new(b1)), i2)
        },
        PatV::Or(a, b) => {
            let (a1, i1) = res_pat(*a, q, ids);
            let (b1, i2) = res_pat(*b, q, i1);
            (PatV::Or(Box::new(a1), Box::new(b1)), i2)
        },
        PatV::View(a, e) => {
            let (a1, i1) = res_pat(*a, q, ids);
            let (e1, i2) = res_expr(*e, q, i1);
            (PatV::View(Box::new(a1), Box::new(e1)), i2)
        },
        PatV::Lit(e) => {
            let (e1, i1) = res_expr(*e, q, ids);
            (PatV::Lit(Box::new(e1)), i1)
        },
        _ => (p, ids),
    }
}

pub open spec fn res_pats(ps: Seq<PatV>, q: Seq<(Seq<char>, Seq<char>)>, ids: Seq<Seq<char>>) -> (Seq<PatV>, Seq<Seq<char>>)
    decreases ps, 0nat,
{
    if ps.len() == 0 {
        (Seq::empty(), ids)
    } else {
        let (ps1, i1) = res_pats(ps.drop_last(), q, ids);
        let (p1, i2) = res_pat(ps.last(), q, i1);
        (ps1.push(p1), i2)
    }
}

pub open spec fn res_pat_fields(fs: Seq<(Seq<char>, PatV)>, q: Seq<(Seq<char>, Seq<char>)>, ids: Seq<Seq<char>>) -> (
    Seq<(Seq<char>, PatV)>,
    Seq<Seq<char>>,
)
    decreases fs, 0nat,
{
    if fs.len() == 0 {
        (Seq::empty(), ids)
    } else {
        let (fs1, i1) = res_pat_fields(fs.drop_last(), q, ids);
        let (p1, i2) = res_pat(fs.last().1, q, i1);
        (fs1.push((fs.last().0, p1)), i2)
    }
}

/// An expression with its constructor names resolved, left to right.
pub open spec fn res_expr(e: ExprV, q: Seq<(Seq<char>, Seq<char>)>, ids: Seq<Seq<char>>) -> (ExprV, Seq<Seq<char>>)
    decreases e, 1nat,
{
    match e {
        ExprV::Ctor(n) => {
            let (n1, i1) = resolve_name_spec(n, q, ids);
            (ExprV::Ctor(n1), i1)
        },
        ExprV::Lambda(ps, b) => {
            let (b1, i1) = res_expr(*b, q, ids);
            (ExprV::Lambda(ps, Box::new(b1)), i1)
        },
        ExprV::Apply(f, args) => {
            let (f1, i1) = res_expr(*f, q, ids);
            let (a1, i2) = res_exprs(args, q, i1);
            (ExprV::Apply(Box::new(f1), a1), i2)
        },
        ExprV::If(c, t, f) => {
            let (c1, i1) = res_expr(*c, q, ids);
            let (t1, i2) = res_expr(*t, q, i1);
            let (f1, i3) = res_expr(*f, q, i2);
            (ExprV::If(Box::new(c1), Box::new(t1), Box::new(f1)), i3)
        },
        ExprV::Let(bs, b) => {
            let (bs1, i1) = res_bindings(bs, q, ids);
            let (b1, i2) = res_expr(*b, q, i1);
            (ExprV::Let(bs1, Box::new(b1)), i2)
        },
        ExprV::Where(b, bs) => {
            let (b1, i1) = res_expr(*b, q, ids);
            let (bs1, i2) = res_bindings(bs, q, i1);
            (ExprV::Where(Box::new(b1), bs1), i2)
        },
        ExprV::Annot(b, t) => {
            let (b1, i1) = res_expr(*b, q, ids);
            (ExprV::Annot(Box::new(b1), t), i1)
        },
        ExprV::Do(ss) => {
            let (ss1, i1) = res_stmts(ss, q, ids);
            (ExprV::Do(ss1), i1)
        },
        ExprV::Case(s, arms) => {
            let (s1, i1) = res_expr(*s, q, ids);
            let (a1, i2) = res_arms(arms, q, i1);
            (ExprV::Case(Box::new(s1), a1), i2)
        },
        ExprV::Cons(h, t) => {
            let (h1, i1) = res_expr(*h, q, ids);
            let (t1, i2) = res_expr(*t, q, i1);
            (ExprV::Cons(Box::new(h1), Box::new(t1)), i2)
        },
        ExprV::List(es) => {
            let (es1, i1) = res_exprs(es, q, ids);
            (ExprV::List(es1), i1)
        },
        ExprV::Tuple(es) => {
            let (es1, i1) = res_exprs(es, q, ids);
            (ExprV::Tuple(es1), i1)
        },
        ExprV::Record(fs) => {
            let (fs1, i1) = res_fields(fs, q, ids);
            (ExprV::Record(fs1), i1)
        },
        _ => (e, ids),
    }
}

pub open spec fn res_exprs(es: Seq<ExprV>, q: Seq<(Seq<char>, Seq<char>)>, ids: Seq<Seq<char>>) -> (Seq<ExprV>, Seq<Seq<char>>)
    decreases es, 0nat,
{
    if es.len() == 0 {
        (Seq::empty(), ids)
    } else {
        let (es1, i1) = res_exprs(es.drop_last(), q, ids);
        let (e1, i2) = res_expr(es.last(), q, i1);
        (es1.push(e1), i2)
    }
}

pub open spec fn res_fields(fs: Seq<(Seq<char>, ExprV)>, q: Seq<(Seq<char>, Seq<char>)>, ids: Seq<Seq<char>>) -> (
    Seq<(Seq<char>, ExprV)>,
    Seq<Seq<char>>,
)
    decreases fs, 0nat,
{
    if fs.len() == 0 {
        (Seq::empty(), ids)
    } else {
        let (fs1, i1) = res_fields(fs.drop_last(), q, ids);
        let (e1, i2) = res_expr(fs.last().1, q, i1);
        (fs1.push((fs.last().0, e1)), i2)
    }
}

/// A binding with its pattern, then its expression, resolved.
pub open spec fn res_binding(b: (PatV, ExprV), q: Seq<(Seq<char>, Seq<char>)>, ids: Seq<Seq<char>>) -> ((PatV, ExprV), Seq<Seq<char>>)
    decreases b, 1nat,
{
    let (p1, i1) = res_pat(b.0, q, ids);
    let (e1, i2) = res_expr(b.1, q, i1);
    ((p1, e1), i2)
}

pub open spec fn res_bindings(bs: Seq<(PatV, ExprV)>, q: Seq<(Seq<char>, Seq<char>)>, ids: Seq<Seq<char>>) -> (
    Seq<(PatV, ExprV)>,
    Seq<Seq<char>>,
)
    decreases bs, 0nat,
{
    if bs.len() == 0 {
        (Seq::empty(), ids)
    } else {
        let (bs1, i1) = res_bindings(bs.drop_last(), q, ids);
        let (b1, i2) = res_binding(bs.last(), q, i1);
        (bs1.push(b1), i2)
    }
}

pub open spec fn res_stmts(ss: Seq<StmtV>, q: Seq<(Seq<char>, Seq<char>)>, ids: Seq<Seq<char>>) -> (Seq<StmtV>, Seq<Seq<char>>)
    decreases ss, 0nat,
{
    if ss.len() == 0 {
        (Seq::empty(), ids)
    } else {
        let (ss1, i1) = res_stmts(ss.drop_last(), q, ids);
        match ss.last() {
            StmtV::Bind(p, e) => {
                let (p1, i2) = res_pat(p, q, i1);
                let (e1, i3) = res_expr(e, q, i2);
                (ss1.push(StmtV::Bind(p1, e1)), i3)
            },
            StmtV::Expr(e) => {
                let (e1, i2) = res_expr(e, q, i1);
                (ss1.push(StmtV::Expr(e1)), i2)
            },
        }
    }
}

/// A case arm with its pattern, guard and body resolved, in that order.
pub open spec fn res_arm(a: ArmV, q: Seq<(Seq<char>, Seq<char>)>, ids: Seq<Seq<char>>) -> (ArmV, Seq<Seq<char>>)
    decreases a, 1nat,
{
    let (p1, i1) = res_pat(a.0, q, ids);
    let (g1, i2) = match a.1 {
        Some(g) => {
            let (g1, i2) = res_expr(g, q, i1);
            (Some(g1), i2)
        },
        None => (None, i1),
    };
    let (b1, i3) = res_expr(a.2, q, i2);
    ((p1, g1, b1), i3)
}

pub open spec fn res_arms(arms: Seq<ArmV>, q: Seq<(Seq<char>, Seq<char>)>, ids: Seq<Seq<char>>) -> (Seq<ArmV>, Seq<Seq<char>>)
    decreases arms, 0nat,
{
    if arms.len() == 0 {
        (Seq::empty(), ids)
    } else {
        let (as1, i1) = res_arms(arms.drop_last(), q, ids);
        let (a1, i2) = res_arm(arms.last(), q, i1);
        (as1.push(a1), i2)
    }
}

proof fn lemma_pat_views_push(s: Seq<SynPat>, x: SynPat)
    ensures
        pat_views(s.push(x)) == pat_views(s).push(pat_view(x)),
{
    assert(s.push(x).drop_last() =~= s);
}

proof fn lemma_pat_field_views_push(s: Seq<(String, SynPat)>, x: (String, SynPat))
    ensures
        pat_field_views(s.push(x)) == pat_field_views(s).push((x.0@, pat_view(x.1))),
{
    assert(s.push(x).drop_last() =~= s);
}

proof fn lemma_expr_views_push(s: Seq<SynExpr>, x: SynExpr)
    ensures
        expr_views(s.push(x)) == expr_views(s).push(expr_view(x)),
{
    assert(s.push(x).drop_last() =~= s);
}

proof fn lemma_field_views_push(s: Seq<(String, SynExpr)>, x: (String, SynExpr))
    ensures
        field_views(s.push(x)) == field_views(s).push((x.0@, expr_view(x.1))),
{
    assert(s.push(x).drop_last() =~= s);
}

proof fn lemma_binding_views_push(s: Seq<SynBinding>, x: SynBinding)
    ensures
        binding_views(s.push(x)) == binding_views(s).push((pat_view(x.pat), expr_view(x.expr))),
{
    assert(s.push(x).drop_last() =~= s);
}

proof fn lemma_stmt_views_push(s: Seq<SynStmt>, x: SynStmt)
    ensures
        stmt_views(s.push(x)) == stmt_views(s).push(stmt_view(x)),
{
    assert(s.push(x).drop_last() =~= s);
}

proof fn lemma_arm_views_push(s: Seq<SynArm>, x: SynArm)
    ensures
        arm_views(s.push(x)) == arm_views(s).push(arm_view(x)),
{
    assert(s.push(x).drop_last() =~= s);
}

pub(crate) fn copy_strings(v: &Vec<String>) -> (r: Vec<String>)
    ensures
        crate::names::string_views(r@) == crate::names::string_views(v@),
{
    let mut out: Vec<String> = Vec::new();
    let mut i: usize = 0;
    while i < v.len()
        invariant
            i <= v.len(),
            out@.len() == i,
            crate::names::string_views(out@) == crate::names::string_views(v@).take(i as int),
        decreases v.len() - i,
    {
        let c = v[i].clone();
        assert(c@ == v@[i as int]@);
        let ghost before = out@;
        out.push(c);
        assert(out@ == before.push(c));
        proof {
            let a = crate::names::string_views(out@);
            let b = crate::names::string_views(v@).take(i + 1);
            assert(before.len() == i);
            assert(out@.len() == i + 1);
            assert(a.len() == out@.len());
            assert(b.len() == i + 1);
            assert(a.len() == b.len());
            assert forall|j: int| 0 <= j < a.len() implies a[j] == b[j] by {
                if j < i {
                    assert(a[j] == out@[j]@);
                    assert(out@[j] == before[j]);
                    assert(crate::names::string_views(before)[j] == crate::names::string_views(v@).take(i as int)[j]);
                } else {
                    assert(a[j] == c@);
                }
            }
            assert(a =~= b);
        }
        i += 1;
    }
    assert(crate::names::string_views(v@).take(v.len() as int) =~= crate::names::string_views(v@));
    out
}

fn copy_type(t: &crate::syntax::SynType) -> (r: crate::syntax::SynType)
    ensures
        crate::syntax::type_view(r) == crate::syntax::type_view(*t),
    decreases t,
{
    match t {
        crate::syntax::SynType::Var(s) => crate::syntax::SynType::Var(s.clone()),
        crate::syntax::SynType::App(h, args) => {
            let h1 = copy_type(h);
            crate::syntax::SynType::App(Box::new(h1), copy_types(args))
        },
    }
}

fn copy_types(args: &Vec<crate::syntax::SynType>) -> (r: Vec<crate::syntax::SynType>)
    ensures
        crate::syntax::type_views(r@) == crate::syntax::type_views(args@),
    decreases args,
{
    let mut out: Vec<crate::syntax::SynType> = Vec::new();
    let mut i: usize = 0;
    assert(args@.take(0) =~= Seq::<crate::syntax::SynType>::empty());
    while i < args.len()
        invariant
            i <= args.len(),
            crate::syntax::type_views(out@) == crate::syntax::type_views(args@.take(i as int)),
        decreases args.len() - i,
    {
        let x = copy_type(&args[i]);
        proof {
            assert(args@.take(i + 1) =~= args@.take(i as int).push(args@[i as int]));
            assert(args@.take(i + 1).drop_last() =~= args@.take(i as int));
            assert(out@.push(x).drop_last() =~= out@);
        }
        out.push(x);
        i += 1;
    }
    assert(args@.take(args.len() as int) =~= args@);
    out
}

fn copy_pred(p: &SuperPred) -> (r: SuperPred)
    ensures
        pred_view(r) == pred_view(*p),
{
    match p {
        SuperPred::Show(t) => SuperPred::Show(copy_type(t)),
        SuperPred::ShowRow(t) => SuperPred::ShowRow(copy_type(t)),
        SuperPred::Eq(t) => SuperPred::Eq(copy_type(t)),
        SuperPred::EqRow(t) => SuperPred::EqRow(copy_type(t)),
        SuperPred::Class(c, t) => SuperPred::Class(c.clone(), copy_type(t)),
    }
}

pub(crate) fn copy_preds(ps: &Vec<SuperPred>) -> (r: Vec<SuperPred>)
    ensures
        preds_view(r@) == preds_view(ps@),
{
    let mut out: Vec<SuperPred> = Vec::new();
    let mut i: usize = 0;
    while i < ps.len()
        invariant
            i <= ps.len(),
            out@.len() == i,
            preds_view(out@) == preds_view(ps@).take(i as int),
        decreases ps.len() - i,
    {
        let x = copy_pred(&ps[i]);
        let ghost before = out@;
        out.push(x);
        proof {
            let a = preds_view(out@);
            let b = preds_view(ps@).take(i + 1);
            assert forall|j: int| 0 <= j < a.len() implies a[j] == b[j] by {
                if j < i {
                    assert(out@[j] == before[j]);
                    assert(preds_view(before)[j] == preds_view(ps@).take(i as int)[j]);
                }
            }
            assert(a =~= b);
        }
        i += 1;
    }
    assert(preds_view(ps@).take(ps.len() as int) =~= preds_view(ps@));
    out
}

fn resolve_name(n: &SynName, env: &QualEnv, ids: &mut ModuleIds) -> (r: SynName)
    ensures
        (name_view(r), final(ids).names()) == resolve_name_spec(name_view(*n), env.module_map(), old(ids).names()),
{
    match n {
        SynName::Unresolved(s) => match QualName::parse(s.as_str()) {
            None => SynName::Unresolved(s.clone()),
            Some(qn) => match env.canonical_module(qn.module.0.as_str()) {
                None => SynName::Unresolved(s.clone()),
                Some(c) => {
                    let id = ids.intern(c.as_str());
                    SynName::Resolved { module: id, module_name: qn.module.0, name: qn.name.0 }
                },
            },
        },
        SynName::Resolved { module, module_name, name } => SynName::Resolved {
            module: *module,
            module_name: module_name.clone(),
            name: name.clone(),
        },
    }
}

fn go_pat(p: &SynPat, env: &QualEnv, ids: &mut ModuleIds) -> (r: SynPat)
    ensures
        (pat_view(r), final(ids).names()) == res_pat(pat_view(*p), env.module_map(), old(ids).names()),
    decreases p,
{
    match p {
        SynPat::Var(s) => SynPat::Var(s.clone()),
        SynPat::Wildcard => SynPat::Wildcard,
        SynPat::Ctor(n, ps) => {
            let n1 = resolve_name(n, env, ids);
            let ps1 = go_pats(ps, env, ids);
            SynPat::Ctor(n1, ps1)
        },
        SynPat::Tuple(ps) => SynPat::Tuple(go_pats(ps, env, ids)),
        SynPat::List(ps) => SynPat::List(go_pats(ps, env, ids)),
        SynPat::Record(fs) => SynPat::Record(go_pat_fields(fs, env, ids)),
        SynPat::RecordLoose(fs, rest) => {
            let fs1 = go_pat_fields(fs, env, ids);
            let rest1 = match rest {
                Some(x) => Some(x.clone()),
                None => None,
            };
            SynPat::RecordLoose(fs1, rest1)
        },
        SynPat::Cons(a, b) => {
            let a1 = go_pat(a, env, ids);
            let b1 = go_pat(b, env, ids);
            SynPat::Cons(Box::new(a1), Box::new(b1))
        },
        SynPat::Or(a, b) => {
            let a1 = go_pat(a, env, ids);
            let b1 = go_pat(b, env, ids);
            SynPat::Or(Box::new(a1), Box::new(b1))
        },
        SynPat::View(a, e) => {
            let a1 = go_pat(a, env, ids);
            let e1 = go_expr(e, env, ids);
            SynPat::View(Box::new(a1), Box::new(e1))
        },
        SynPat::Lit(e) => SynPat::Lit(Box::new(go_expr(e, env, ids))),
    }
}

fn go_pats(ps: &Vec<SynPat>, env: &QualEnv, ids: &mut ModuleIds) -> (r: Vec<SynPat>)
    ensures
        (pat_views(r@), final(ids).names()) == res_pats(pat_views(ps@), env.module_map(), old(ids).names()),
    decreases ps,
{
    let ghost i0 = ids.names();
    let mut out: Vec<SynPat> = Vec::new();
    let mut i: usize = 0;
    assert(ps@.take(0) =~= Seq::<SynPat>::empty());
    while i < ps.len()
        invariant
            i <= ps.len(),
            (pat_views(out@), ids.names()) == res_pats(pat_views(ps@.take(i as int)), env.module_map(), i0),
        decreases ps.len() - i,
    {
        proof {
            assert(ps@.take(i + 1) =~= ps@.take(i as int).push(ps@[i as int]));
            lemma_pat_views_push(ps@.take(i as int), ps@[i as int]);
            assert(pat_views(ps@.take(i + 1)).drop_last() =~= pat_views(ps@.take(i as int)));
        }
        let x = go_pat(&ps[i], env, ids);
        proof {
            lemma_pat_views_push(out@, x);
        }
        out.push(x);
        i += 1;
    }
    assert(ps@.take(ps.len() as int) =~= ps@);
    out
}

fn go_pat_fields(fs: &Vec<(String, SynPat)>, env: &QualEnv, ids: &mut ModuleIds) -> (r: Vec<(String, SynPat)>)
    ensures
        (pat_field_views(r@), final(ids).names()) == res_pat_fields(pat_field_views(fs@), env.module_map(), old(ids).names()),
    decreases fs,
{
    let ghost i0 = ids.names();
    let mut out: Vec<(String, SynPat)> = Vec::new();
    let mut i: usize = 0;
    assert(fs@.take(0) =~= Seq::<(String, SynPat)>::empty());
    while i < fs.len()
        invariant
            i <= fs.len(),
            (pat_field_views(out@), ids.names()) == res_pat_fields(pat_field_views(fs@.take(i as int)), env.module_map(), i0),
        decreases fs.len() - i,
    {
        proof {
            assert(fs@.take(i + 1) =~= fs@.take(i as int).push(fs@[i as int]));
            lemma_pat_field_views_push(fs@.take(i as int), fs@[i as int]);
            assert(pat_field_views(fs@.take(i + 1)).drop_last() =~= pat_field_views(fs@.take(i as int)));
        }
        let x = go_pat(&fs[i].1, env, ids);
        let e = (fs[i].0.clone(), x);
        proof {
            lemma_pat_field_views_push(out@, e);
        }
        out.push(e);
        i += 1;
    }
    assert(fs@.take(fs.len() as int) =~= fs@);
    out
}

fn go_expr(e: &SynExpr, env: &QualEnv, ids: &mut ModuleIds) -> (r: SynExpr)
    ensures
        (expr_view(r), final(ids).names()) == res_expr(expr_view(*e), env.module_map(), old(ids).names()),
    decreases e,
{
    match e {
        SynExpr::Var(s) => SynExpr::Var(s.clone()),
        SynExpr::Lit(s) => SynExpr::Lit(s.clone()),
        SynExpr::Ctor(n) => SynExpr::Ctor(resolve_name(n, env, ids)),
        SynExpr::Apply(f, args) => {
            let f1 = go_expr(f, env, ids);
            let a1 = go_exprs(args, env, ids);
            SynExpr::Apply(Box::new(f1), a1)
        },
        SynExpr::Lambda(ps, b) => {
            let ps1 = copy_strings(ps);
            let b1 = go_expr(b, env, ids);
            SynExpr::Lambda(ps1, Box::new(b1))
        },
        SynExpr::If(c, t, f) => {
            let c1 = go_expr(c, env, ids);
            let t1 = go_expr(t, env, ids);
            let f1 = go_expr(f, env, ids);
            SynExpr::If(Box::new(c1), Box::new(t1), Box::new(f1))
        },
        SynExpr::Let(bs, b) => {
            let bs1 = go_bindings(bs, env, ids);
            let b1 = go_expr(b, env, ids);
            SynExpr::Let(bs1, Box::new(b1))
        },
        SynExpr::Where(b, bs) => {
            let b1 = go_expr(b, env, ids);
            let bs1 = go_bindings(bs, env, ids);
            SynExpr::Where(Box::new(b1), bs1)
        },
        SynExpr::Annot(b, t) => {
            let b1 = go_expr(b, env, ids);
            SynExpr::Annot(Box::new(b1), copy_type(t))
        },
        SynExpr::Do(ss) => SynExpr::Do(go_stmts(ss, env, ids)),
        SynExpr::Case(s, arms) => {
            let s1 = go_expr(s, env, ids);
            let a1 = go_arms(arms, env, ids);
            SynExpr::Case(Box::new(s1), a1)
        },
        SynExpr::Cons(h, t) => {
            let h1 = go_expr(h, env, ids);
            let t1 = go_expr(t, env, ids);
            SynExpr::Cons(Box::new(h1), Box::new(t1))
        },
        SynExpr::List(es) => SynExpr::List(go_exprs(es, env, ids)),
        SynExpr::Tuple(es) => SynExpr::Tuple(go_exprs(es, env, ids)),
        SynExpr::Record(fs) => SynExpr::Record(go_fields(fs, env, ids)),
    }
}

fn go_exprs(es: &Vec<SynExpr>, env: &QualEnv, ids: &mut ModuleIds) -> (r: Vec<SynExpr>)
    ensures
        (expr_views(r@), final(ids).names()) == res_exprs(expr_views(es@), env.module_map(), old(ids).names()),
    decreases es,
{
    let ghost i0 = ids.names();
    let mut out: Vec<SynExpr> = Vec::new();
    let mut i: usize = 0;
    assert(es@.take(0) =~= Seq::<SynExpr>::empty());
    while i < es.len()
        invariant
            i <= es.len(),
            (expr_views(out@), ids.names()) == res_exprs(expr_views(es@.take(i as int)), env.module_map(), i0),
        decreases es.len() - i,
    {
        proof {
            assert(es@.take(i + 1) =~= es@.take(i as int).push(es@[i as int]));
            lemma_expr_views_push(es@.take(i as int), es@[i as int]);
            assert(expr_views(es@.take(i + 1)).drop_last() =~= expr_views(es@.take(i as int)));
        }
        let x = go_expr(&es[i], env, ids);
        proof {
            lemma_expr_views_push(out@, x);
        }
        out.push(x);
        i += 1;
    }
    assert(es@.take(es.len() as int) =~= es@);
    out
}

fn go_fields(fs: &Vec<(String, SynExpr)>, env: &QualEnv, ids: &mut ModuleIds) -> (r: Vec<(String, SynExpr)>)
    ensures
        (field_views(r@), final(ids).names()) == res_fields(field_views(fs@), env.module_map(), old(ids).names()),
    decreases fs,
{
    let ghost i0 = ids.names();
    let mut out: Vec<(String, SynExpr)> = Vec::new();
    let mut i: usize = 0;
    assert(fs@.take(0) =~= Seq::<(String, SynExpr)>::empty());
    while i < fs.len()
        invariant
            i <= fs.len(),
            (field_views(out@), ids.names()) == res_fields(field_views(fs@.take(i as int)), env.module_map(), i0),
        decreases fs.len() - i,
    {
        proof {
            assert(fs@.take(i + 1) =~= fs@.take(i as int).push(fs@[i as int]));
            lemma_field_views_push(fs@.take(i as int), fs@[i as int]);
            assert(field_views(fs@.take(i + 1)).drop_last() =~= field_views(fs@.take(i as int)));
        }
        let x = go_expr(&fs[i].1, env, ids);
        let e = (fs[i].0.clone(), x);
        proof {
            lemma_field_views_push(out@, e);
        }
        out.push(e);
        i += 1;
    }
    assert(fs@.take(fs.len() as int) =~= fs@);
    out
}

fn go_binding(b: &SynBinding, env: &QualEnv, ids: &mut ModuleIds) -> (r: SynBinding)
    ensures
        ((pat_view(r.pat), expr_view(r.expr)), final(ids).names()) == res_binding(
            (pat_view(b.pat), expr_view(b.expr)),
            env.module_map(),
            old(ids).names(),
        ),
    decreases b,
{
    let p1 = go_pat(&b.pat, env, ids);
    let e1 = go_expr(&b.expr, env, ids);
    SynBinding { pat: p1, expr: e1 }
}

fn go_bindings(bs: &Vec<SynBinding>, env: &QualEnv, ids: &mut ModuleIds) -> (r: Vec<SynBinding>)
    ensures
        (binding_views(r@), final(ids).names()) == res_bindings(binding_views(bs@), env.module_map(), old(ids).names()),
    decreases bs,
{
    let ghost i0 = ids.names();
    let mut out: Vec<SynBinding> = Vec::new();
    let mut i: usize = 0;
    assert(bs@.take(0) =~= Seq::<SynBinding>::empty());
    while i < bs.len()
        invariant
            i <= bs.len(),
            (binding_views(out@), ids.names()) == res_bindings(binding_views(bs@.take(i as int)), env.module_map(), i0),
        decreases bs.len() - i,
    {
        proof {
            assert(bs@.take(i + 1) =~= bs@.take(i as int).push(bs@[i as int]));
            lemma_binding_views_push(bs@.take(i as int), bs@[i as int]);
            assert(binding_views(bs@.take(i + 1)).drop_last() =~= binding_views(bs@.take(i as int)));
        }
        let x = go_binding(&bs[i], env, ids);
        proof {
            lemma_binding_views_push(out@, x);
        }
        out.push(x);
        i += 1;
    }
    assert(bs@.take(bs.len() as int) =~= bs@);
    out
}

fn go_stmts(ss: &Vec<SynStmt>, env: &QualEnv, ids: &mut ModuleIds) -> (r: Vec<SynStmt>)
    ensures
        (stmt_views(r@), final(ids).names()) == res_stmts(stmt_views(ss@), env.module_map(), old(ids).names()),
    decreases ss,
{
    let ghost i0 = ids.names();
    let mut out: Vec<SynStmt> = Vec::new();
    let mut i: usize = 0;
    assert(ss@.take(0) =~= Seq::<SynStmt>::empty());
    while i < ss.len()
        invariant
            i <= ss.len(),
            (stmt_views(out@), ids.names()) == res_stmts(stmt_views(ss@.take(i as int)), env.module_map(), i0),
        decreases ss.len() - i,
    {
        proof {
            assert(ss@.take(i + 1) =~= ss@.take(i as int).push(ss@[i as int]));
            lemma_stmt_views_push(ss@.take(i as int), ss@[i as int]);
            assert(stmt_views(ss@.take(i + 1)).drop_last() =~= stmt_views(ss@.take(i as int)));
        }
        let x = match &ss[i] {
            SynStmt::Bind(p, e) => {
                let p1 = go_pat(p, env, ids);
                let e1 = go_expr(e, env, ids);
                SynStmt::Bind(p1, e1)
            },
            SynStmt::Expr(e) => SynStmt::Expr(go_expr(e, env, ids)),
        };
        proof {
            lemma_stmt_views_push(out@, x);
        }
        out.push(x);
        i += 1;
    }
    assert(ss@.take(ss.len() as int) =~= ss@);
    out
}

fn go_arm(a: &SynArm, env: &QualEnv, ids: &mut ModuleIds) -> (r: SynArm)
    ensures
        (arm_view(r), final(ids).names()) == res_arm(arm_view(*a), env.module_map(), old(ids).names()),
    decreases a,
{
    let p1 = go_pat(&a.pat, env, ids);
    let g1 = match &a.guard {
        Some(g) => Some(go_expr(g, env, ids)),
        None => None,
    };
    let b1 = go_expr(&a.body, env, ids);
    SynArm { pat: p1, guard: g1, body: b1 }
}

fn go_arms(arms: &Vec<SynArm>, env: &QualEnv, ids: &mut ModuleIds) -> (r: Vec<SynArm>)
    ensures
        (arm_views(r@), final(ids).names()) == res_arms(arm_views(arms@), env.module_map(), old(ids).names()),
    decreases arms,
{
    let ghost i0 = ids.names();
    let mut out: Vec<SynArm> = Vec::new();
    let mut i: usize = 0;
    assert(arms@.take(0) =~= Seq::<SynArm>::empty());
    while i < arms.len()
        invariant
            i <= arms.len(),
            (arm_views(out@), ids.names()) == res_arms(arm_views(arms@.take(i as int)), env.module_map(), i0),
        decreases arms.len() - i,
    {
        proof {
            assert(arms@.take(i + 1) =~= arms@.take(i as int).push(arms@[i as int]));
            lemma_arm_views_push(arms@.take(i as int), arms@[i as int]);
            assert(arm_views(arms@.take(i + 1)).drop_last() =~= arm_views(arms@.take(i as int)));
        }
        let x = go_arm(&arms[i], env, ids);
        proof {
            lemma_arm_views_push(out@, x);
        }
        out.push(x);
        i += 1;
    }
    assert(arms@.take(arms.len() as int) =~= arms@);
    out
}

/// The qualifier mappings that a module's imports make, in order: the local
/// name of each import (its `as` name, else the module's name) to the
/// module, and for a qualified import also the module's own name.
pub open spec fn import_map(its: Seq<ItemV>) -> Seq<(Seq<char>, Seq<char>)>
    decreases its.len(),
{
    if its.len() == 0 {
        Seq::empty()
    } else {
        let m = import_map(its.drop_last());
        match its.last() {
            ItemV::Import(module, as_name, qualified, _) => {
                let local = match as_name {
                    Some(a) => a,
                    None => module,
                };
                if qualified {
                    m.push((local, module)).push((module, module))
                } else {
                    m.push((local, module))
                }
            },
            _ => m,
        }
    }
}

/// The qualifier mappings of a module: its own name to itself, then those of
/// its imports.
pub open spec fn module_map_spec(name: Option<Seq<char>>, its: Seq<ItemV>) -> Seq<(Seq<char>, Seq<char>)> {
    match name {
        Some(n) => seq![(n, n)] + import_map(its),
        None => import_map(its),
    }
}

/// The qualifiers that mappings give a meaning to.
pub open spec fn map_keys(m: Seq<(Seq<char>, Seq<char>)>) -> Set<Seq<char>> {
    Set::new(|q: Seq<char>| exists|i: int| 0 <= i < m.len() && m[i].0 == q)
}

proof fn lemma_map_keys_push(m: Seq<(Seq<char>, Seq<char>)>, e: (Seq<char>, Seq<char>))
    ensures
        map_keys(m.push(e)) == map_keys(m).insert(e.0),
{
    assert forall|q: Seq<char>| map_keys(m.push(e)).contains(q) <==> map_keys(m).insert(e.0).contains(q) by {
        if map_keys(m.push(e)).contains(q) {
            let i = choose|i: int| 0 <= i < m.push(e).len() && m.push(e)[i].0 == q;
            if i < m.len() {
                assert(m[i].0 == q);
            }
        }
        if map_keys(m).contains(q) {
            let i = choose|i: int| 0 <= i < m.len() && m[i].0 == q;
            assert(m.push(e)[i].0 == q);
        }
        if q == e.0 {
            assert(m.push(e)[m.len() as int].0 == q);
        }
    }
    assert(map_keys(m.push(e)) =~= map_keys(m).insert(e.0));
}

fn copy_opt(o: &Option<String>) -> (r: Option<String>)
    ensures
        opt_view(r) == opt_view(*o),
{
    match o {
        Some(x) => Some(x.clone()),
        None => None,
    }
}

fn allow_and_map(env: &mut QualEnv, local: &String, module: &String)
    ensures
        final(env).module_map() == old(env).module_map().push((local@, module@)),
        final(env).qualifiers().to_set() == old(env).qualifiers().to_set().insert(local@),
{
    env.allow(local.clone());
    env.map_qualifier(local.clone(), module.clone());
}

/// The qualifiers a module may use and the module each stands for: its own
/// name, and the local names of its imports (for a qualified import, the
/// imported module's own name too).
pub fn module_qual_env(module: &SynModule) -> (r: QualEnv)
    ensures
        r.module_map() == module_map_spec(opt_view(module.name), item_views(module.items@)),
        r.qualifiers().to_set() == map_keys(r.module_map()),
{
    let mut env = QualEnv::new();
    assert(env.qualifiers().to_set() =~= Set::<Seq<char>>::empty());
    assert(map_keys(env.module_map()) =~= Set::<Seq<char>>::empty());
    let ghost base: Seq<(Seq<char>, Seq<char>)> = match opt_view(module.name) {
        Some(n) => seq![(n, n)],
        None => Seq::empty(),
    };
    if let Some(n) = &module.name {
        proof {
            lemma_map_keys_push(env.module_map(), (n@, n@));
        }
        allow_and_map(&mut env, n, n);
        assert(env.module_map() =~= base);
    }
    let ghost iv = item_views(module.items@);
    let mut i: usize = 0;
    assert(module.items@.take(0) =~= Seq::<SynItem>::empty());
    assert(base + import_map(Seq::<ItemV>::empty()) =~= base);
    while i < module.items.len()
        invariant
            i <= module.items.len(),
            base == (match opt_view(module.name) {
                Some(n) => seq![(n, n)],
                None => Seq::<(Seq<char>, Seq<char>)>::empty(),
            }),
            env.module_map() == base + import_map(item_views(module.items@.take(i as int))),
            env.qualifiers().to_set() == map_keys(env.module_map()),
        decreases module.items.len() - i,
    {
        let ghost pre = item_views(module.items@.take(i as int));
        proof {
            assert(module.items@.take(i + 1) =~= module.items@.take(i as int).push(module.items@[i as int]));
            assert(module.items@.take(i + 1).drop_last() =~= module.items@.take(i as int));
        }
        let ghost next = item_views(module.items@.take(i + 1));
        assert(next.drop_last() =~= pre);
        assert(next.last() == item_view(module.items@[i as int]));
        if let SynItem::Import(id) = &module.items[i] {
            let local = match &id.as_name {
                Some(a) => a.clone(),
                None => id.module.clone(),
            };
            proof {
                lemma_map_keys_push(env.module_map(), (local@, id.module@));
            }
            allow_and_map(&mut env, &local, &id.module);
            if id.qualified {
                proof {
                    lemma_map_keys_push(env.module_map(), (id.module@, id.module@));
                }
                allow_and_map(&mut env, &id.module, &id.module);
                assert(env.module_map() =~= base + import_map(next));
            } else {
                assert(env.module_map() =~= base + import_map(next));
            }
        } else {
            assert(import_map(next) == import_map(pre));
        }
        i += 1;
    }
    assert(module.items@.take(module.items.len() as int) =~= module.items@);
    proof {
        if opt_view(module.name) is None {
            assert(base + import_map(iv) =~= import_map(iv));
        }
    }
    env
}

/// An item with the constructor names of its bindings resolved: a binding,
/// the default methods of a class, the methods of an instance.
pub open spec fn res_item(it: ItemV, q: Seq<(Seq<char>, Seq<char>)>, ids: Seq<Seq<char>>) -> (ItemV, Seq<Seq<char>>) {
    match it {
        ItemV::Binding(b) => (ItemV::Binding(res_binding(b, q, ids).0), res_binding(b, q, ids).1),
        ItemV::ClassDecl(c) => (
            ItemV::ClassDecl(
                ClassDeclV {
                    name: c.name,
                    def_module: c.def_module,
                    param: c.param,
                    supers: c.supers,
                    methods: c.methods,
                    default_methods: res_bindings(c.default_methods, q, ids).0,
                },
            ),
            res_bindings(c.default_methods, q, ids).1,
        ),
        ItemV::InstanceDecl(c, bs) => (ItemV::InstanceDecl(c, res_bindings(bs, q, ids).0), res_bindings(bs, q, ids).1),
        _ => (it, ids),
    }
}

pub open spec fn res_items(its: Seq<ItemV>, q: Seq<(Seq<char>, Seq<char>)>, ids: Seq<Seq<char>>) -> (Seq<ItemV>, Seq<Seq<char>>)
    decreases its.len(),
{
    if its.len() == 0 {
        (Seq::empty(), ids)
    } else {
        let (its1, i1) = res_items(its.drop_last(), q, ids);
        let (it1, i2) = res_item(its.last(), q, i1);
        (its1.push(it1), i2)
    }
}

proof fn lemma_item_views_push(s: Seq<SynItem>, x: SynItem)
    ensures
        item_views(s.push(x)) == item_views(s).push(item_view(x)),
{
    assert(s.push(x).drop_last() =~= s);
}

fn go_item(it: &SynItem, env: &QualEnv, ids: &mut ModuleIds) -> (r: SynItem)
    ensures
        (item_view(r), final(ids).names()) == res_item(item_view(*it), env.module_map(), old(ids).names()),
{
    match it {
        SynItem::Binding(b) => SynItem::Binding(go_binding(b, env, ids)),
        SynItem::ClassDecl(c) => {
            let dm = go_bindings(&c.default_methods, env, ids);
            SynItem::ClassDecl(
                SynClassDecl {
                    name: c.name.clone(),
                    def_module: copy_opt(&c.def_module),
                    param: c.param.clone(),
                    supers: copy_preds(&c.supers),
                    methods: copy_strings(&c.methods),
                    default_methods: dm,
                },
            )
        },
        SynItem::InstanceDecl { class, methods } => SynItem::InstanceDecl {
            class: class.clone(),
            methods: go_bindings(methods, env, ids),
        },
        SynItem::Import(i) => SynItem::Import(
            SynImport {
                module: i.module.clone(),
                as_name: copy_opt(&i.as_name),
                qualified: i.qualified,
                import_spec: match &i.import_spec {
                    Some(SynImportSpec::Only(es)) => Some(SynImportSpec::Only(copy_exports(es))),
                    Some(SynImportSpec::Hiding(es)) => Some(SynImportSpec::Hiding(copy_exports(es))),
                    None => None,
                },
            },
        ),
        SynItem::TypeAlias(t) => SynItem::TypeAlias(
            SynTypeAlias { name: t.name.clone(), params: copy_strings(&t.params), ty: copy_type(&t.ty) },
        ),
        SynItem::DataDecl(d) => SynItem::DataDecl(copy_data_decl(d)),
        SynItem::Export(es) => SynItem::Export(copy_exports(es)),
        SynItem::Other => SynItem::Other,
    }
}

fn copy_data_decl(d: &SynDataDecl) -> (r: SynDataDecl)
    ensures
        r.name@ == d.name@,
        string_views(r.params@) == string_views(d.params@),
        ctor_views(r.ctors@) == ctor_views(d.ctors@),
{
    let mut cs: Vec<SynCtor> = Vec::new();
    let mut i: usize = 0;
    while i < d.ctors.len()
        invariant
            i <= d.ctors.len(),
            cs@.len() == i,
            forall|j: int| 0 <= j < i ==> (#[trigger] cs@[j]).name@ == d.ctors@[j].name@ && crate::syntax::type_views(cs@[j].args@)
                == crate::syntax::type_views(d.ctors@[j].args@),
        decreases d.ctors.len() - i,
    {
        let c = SynCtor { name: d.ctors[i].name.clone(), args: copy_types(&d.ctors[i].args) };
        cs.push(c);
        i += 1;
    }
    assert(ctor_views(cs@) =~= ctor_views(d.ctors@));
    SynDataDecl { name: d.name.clone(), params: copy_strings(&d.params), ctors: cs }
}

fn copy_export(e: &SynExportSpec) -> (r: SynExportSpec)
    ensures
        export_view(r) == export_view(*e),
{
    match e {
        SynExportSpec::Name(n) => SynExportSpec::Name(n.clone()),
        SynExportSpec::Type { name, ctors } => SynExportSpec::Type {
            name: name.clone(),
            ctors: match ctors {
                SynExportCtors::All => SynExportCtors::All,
                SynExportCtors::Listed(cs) => SynExportCtors::Listed(copy_strings(cs)),
            },
        },
    }
}

pub(crate) fn copy_exports(es: &Vec<SynExportSpec>) -> (r: Vec<SynExportSpec>)
    ensures
        export_views(r@) == export_views(es@),
{
    let mut out: Vec<SynExportSpec> = Vec::new();
    let mut i: usize = 0;
    while i < es.len()
        invariant
            i <= es.len(),
            out@.len() == i,
            forall|j: int| 0 <= j < i ==> export_view(#[trigger] out@[j]) == export_view(es@[j]),
        decreases es.len() - i,
    {
        out.push(copy_export(&es[i]));
        i += 1;
    }
    assert(export_views(out@) =~= export_views(es@));
    out
}

/// Resolves the qualified constructor names in the bindings of `module`
/// (top-level bindings, class default methods, instance methods) against the
/// module's own qualifiers, numbering modules in `ids` as they are first
/// met; expressions and patterns are walked left to right.
pub fn resolve_ctor_names_to_module_ids(module: &mut SynModule, ids: &mut ModuleIds) -> (r: Result<(), String>)
    ensures
        r is Ok,
        final(module).name == old(module).name,
        (item_views(final(module).items@), final(ids).names()) == res_items(
            item_views(old(module).items@),
            module_map_spec(opt_view(old(module).name), item_views(old(module).items@)),
            old(ids).names(),
        ),
{
    let env = module_qual_env(module);
    let ghost i0 = ids.names();
    let mut out: Vec<SynItem> = Vec::new();
    let mut i: usize = 0;
    assert(module.items@.take(0) =~= Seq::<SynItem>::empty());
    while i < module.items.len()
        invariant
            i <= module.items.len(),
            (item_views(out@), ids.names()) == res_items(item_views(module.items@.take(i as int)), env.module_map(), i0),
        decreases module.items.len() - i,
    {
        proof {
            assert(module.items@.take(i + 1) =~= module.items@.take(i as int).push(module.items@[i as int]));
            lemma_item_views_push(module.items@.take(i as int), module.items@[i as int]);
            assert(item_views(module.items@.take(i + 1)).drop_last() =~= item_views(module.items@.take(i as int)));
        }
        let x = go_item(&module.items[i], &env, ids);
        proof {
            lemma_item_views_push(out@, x);
        }
        out.push(x);
        i += 1;
    }
    assert(module.items@.take(module.items.len() as int) =~= module.items@);
    module.items = out;
    Ok(())
}

/// Whether the items hold an import.
pub open spec fn has_import(its: Seq<ItemV>) -> bool {
    exists|i: int| 0 <= i < its.len() && its[i] is Import
}

/// Type checking a module on its own cannot satisfy imports: a module with
/// imports needs the environments of the modules it imports.
pub fn check_imports_supplied(module: &SynModule, imported_given: bool) -> (r: Result<(), String>)
    ensures
        r is Err <==> (!imported_given && has_import(item_views(module.items@))),
        r matches Err(e) ==> e@ == "imports require typecheck_file"@,
{
    let ghost iv = item_views(module.items@);
    proof {
        lemma_item_views_index(module.items@);
    }
    if imported_given {
        return Ok(());
    }
    let mut i: usize = 0;
    while i < module.items.len()
        invariant
            i <= module.items.len(),
            iv == item_views(module.items@),
            iv.len() == module.items@.len(),
            forall|j: int| 0 <= j < module.items@.len() ==> #[trigger] iv[j] == item_view(module.items@[j]),
            forall|j: int| 0 <= j < i ==> !(iv[j] is Import),
            !imported_given,
        decreases module.items.len() - i,
    {
        if let SynItem::Import(_) = &module.items[i] {
            assert(iv[i as int] is Import);
            return Err(String::from_str("imports require typecheck_file"));
        }
        i += 1;
    }
    Ok(())
}

pub(crate) proof fn lemma_item_views_index(s: Seq<SynItem>)
    ensures
        item_views(s).len() == s.len(),
        forall|j: int| 0 <= j < s.len() ==> #[trigger] item_views(s)[j] == item_view(s[j]),
    decreases s.len(),
{
    if s.len() > 0 {
        lemma_item_views_index(s.drop_last());
    }
}

/// The module imports `Prelude`, qualified or not.
pub open spec fn imports_prelude(its: Seq<ItemV>) -> bool {
    exists|i: int| 0 <= i < its.len() && (#[trigger] its[i] matches ItemV::Import(m, _, _, _) && m == "Prelude"@)
}

/// The implicit import of `Prelude`: hiding the constructors of `Maybe` and
/// `Either` where the module imports anything else.
pub open spec fn implicit_prelude_import(hiding: bool) -> ItemV {
    ItemV::Import(
        "Prelude"@,
        None,
        false,
        if hiding {
            Some(ImportSpecV::Hiding(seq![ExportV::TypeAll("Maybe"@), ExportV::TypeAll("Either"@)]))
        } else {
            None
        },
    )
}

/// A module other than `Prelude` that does not import it gets an import of
/// it in front of its items; where it has other imports, that import hides
/// the constructors of `Maybe` and `Either`.
pub fn ensure_implicit_prelude_import(module: SynModule) -> (r: SynModule)
    ensures
        opt_view(r.name) == opt_view(module.name),
        r.export_specs == module.export_specs,
        item_views(r.items@) == (if opt_view(module.name) == Some("Prelude"@) || imports_prelude(item_views(module.items@)) {
            item_views(module.items@)
        } else {
            seq![implicit_prelude_import(has_import(item_views(module.items@)))] + item_views(module.items@)
        }),
{
    let mut module = module;
    let ghost iv = item_views(module.items@);
    if let Some(n) = &module.name {
        if str_eq(n.as_str(), "Prelude") {
            return module;
        }
    }
    proof {
        lemma_item_views_index(module.items@);
    }
    let mut has_prelude = false;
    let mut has_any = false;
    let mut i: usize = 0;
    while i < module.items.len()
        invariant
            i <= module.items.len(),
            iv == item_views(module.items@),
            iv.len() == module.items@.len(),
            forall|j: int| 0 <= j < module.items@.len() ==> #[trigger] iv[j] == item_view(module.items@[j]),
            has_prelude == exists|j: int| 0 <= j < i && (#[trigger] iv[j] matches ItemV::Import(m, _, _, _) && m == "Prelude"@),
            has_any == exists|j: int| 0 <= j < i && #[trigger] iv[j] is Import,
        decreases module.items.len() - i,
    {
        if let SynItem::Import(id) = &module.items[i] {
            assert(iv[i as int] is Import);
            has_any = true;
            if str_eq(id.module.as_str(), "Prelude") {
                assert(iv[i as int] matches ItemV::Import(m, _, _, _) && m == "Prelude"@);
                has_prelude = true;
            }
        }
        i += 1;
    }
    assert(has_prelude == imports_prelude(iv));
    assert(has_any == has_import(iv));
    if has_prelude {
        return module;
    }
    let spec = if has_any {
        let hidden = vec![
            SynExportSpec::Type { name: "Maybe".to_owned(), ctors: SynExportCtors::All },
            SynExportSpec::Type { name: "Either".to_owned(), ctors: SynExportCtors::All },
        ];
        assert(export_views(hidden@) =~= seq![ExportV::TypeAll("Maybe"@), ExportV::TypeAll("Either"@)]);
        Some(SynImportSpec::Hiding(hidden))
    } else {
        None
    };
    let imp = SynItem::Import(SynImport { module: "Prelude".to_owned(), as_name: None, qualified: false, import_spec: spec });
    assert(item_view(imp) == implicit_prelude_import(has_any));
    let ghost before = module.items@;
    module.items.insert(0, imp);
    proof {
        assert(module.items@ =~= seq![imp] + before);
        lemma_item_views_index(module.items@);
        lemma_item_views_index(before);
        assert(item_views(module.items@) =~= seq![item_view(imp)] + item_views(before));
    }
    module
}

} // verus!
