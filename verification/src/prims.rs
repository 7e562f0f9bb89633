//! The built-in primitives every module's environment starts with.
use vstd::prelude::*;
use crate::generalize::constraint_views;
use crate::scheme::{ConstraintV, InferCtx, Scheme};
use crate::ty::{Ty, TyV};

verus! {

/// An environment entry: a name and its scheme's variables, constraints and
/// type.
pub type EnvEntryV = (Seq<char>, Seq<u32>, Seq<ConstraintV>, TyV);

/// The model of a list of environment entries; a later entry for a name
/// replaces an earlier one.
pub open spec fn env_views(env: Seq<(String, Scheme)>) -> Seq<EnvEntryV> {
    env.map_values(|e: (String, Scheme)| (e.0@, e.1.vars@, constraint_views(e.1.constraints@), e.1.ty@))
}

pub open spec fn con_v(n: Seq<char>) -> TyV {
    TyV::Con(n)
}

/// `[Char]`.
pub open spec fn char_list_v() -> TyV {
    TyV::List(Box::new(con_v("Char"@)))
}

/// `IO t`.
pub open spec fn io_v(t: TyV) -> TyV {
    TyV::App(Box::new(con_v("IO"@)), seq![t])
}

pub open spec fn fn_v(a: TyV, b: TyV) -> TyV {
    TyV::Func(Box::new(a), Box::new(b))
}

/// A monomorphic entry.
pub open spec fn mono_entry(n: Seq<char>, t: TyV) -> EnvEntryV {
    (n, Seq::empty(), Seq::empty(), t)
}

/// The basic IO primitives and their types, in the order they are added.
pub open spec fn io_primitive_table() -> Seq<EnvEntryV> {
    let unit = con_v("Unit"@);
    seq![
        mono_entry("stdoutWrite"@, fn_v(char_list_v(), io_v(unit))),
        mono_entry("stdinReadLine"@, io_v(char_list_v())),
        mono_entry("readLine"@, io_v(char_list_v())),
        mono_entry("print"@, fn_v(char_list_v(), io_v(unit))),
        mono_entry("putStrLn"@, fn_v(char_list_v(), io_v(unit))),
        mono_entry("getArgs"@, io_v(TyV::List(Box::new(char_list_v())))),
        mono_entry("readFile"@, fn_v(char_list_v(), io_v(char_list_v()))),
        mono_entry("writeFile"@, fn_v(char_list_v(), fn_v(char_list_v(), io_v(unit)))),
    ]
}

fn con(n: &str) -> (r: Ty)
    ensures
        r@ == con_v(n@),
{
    Ty::Con(String::from_str(n))
}

fn char_list() -> (r: Ty)
    ensures
        r@ == char_list_v(),
{
    Ty::List(Box::new(con("Char")))
}

fn io(t: Ty) -> (r: Ty)
    ensures
        r@ == io_v(t@),
{
    let args = vec![t];
    proof {
        crate::ty::lemma_view_seq(args@);
        assert(crate::ty::view_seq(args@) =~= seq![args@[0]@]);
    }
    Ty::App { head: Box::new(con("IO")), args }
}

fn func(a: Ty, b: Ty) -> (r: Ty)
    ensures
        r@ == fn_v(a@, b@),
{
    Ty::Func(Box::new(a), Box::new(b))
}

fn push_mono(env: &mut Vec<(String, Scheme)>, name: &str, t: Ty)
    ensures
        env_views(final(env)@) == env_views(old(env)@).push(mono_entry(name@, t@)),
{
    let s = Scheme { vars: Vec::new(), constraints: Vec::new(), ty: t };
    env.push((String::from_str(name), s));
    proof {
        assert(constraint_views(Seq::<crate::scheme::Constraint>::empty()) =~= Seq::<ConstraintV>::empty());
        assert(env_views(env@) =~= env_views(old(env)@).push(mono_entry(name@, env@.last().1.ty@)));
    }
}

/// Adds the basic IO primitives to `env`, after the entries it has.
pub fn add_io_basic_primitives(env: &mut Vec<(String, Scheme)>)
    ensures
        env_views(final(env)@) == env_views(old(env)@) + io_primitive_table(),
{
    let ghost e0 = env_views(env@);
    push_mono(env, "stdoutWrite", func(char_list(), io(con("Unit"))));
    push_mono(env, "stdinReadLine", io(char_list()));
    push_mono(env, "readLine", io(char_list()));
    push_mono(env, "print", func(char_list(), io(con("Unit"))));
    push_mono(env, "putStrLn", func(char_list(), io(con("Unit"))));
    push_mono(env, "getArgs", io(Ty::List(Box::new(char_list()))));
    push_mono(env, "readFile", func(char_list(), io(char_list())));
    push_mono(env, "writeFile", func(char_list(), func(char_list(), io(con("Unit")))));
    assert(env_views(env@) =~= e0 + io_primitive_table());
}

/// An entry quantified over the one variable `v`.
pub open spec fn poly_entry(n: Seq<char>, v: u32, t: TyV) -> EnvEntryV {
    (n, seq![v], Seq::empty(), t)
}

/// `a -> a -> r`.
pub open spec fn binop_v(a: TyV, r: TyV) -> TyV {
    fn_v(a, fn_v(a, r))
}

/// The comparison and boolean primitives, with `v` the variable of the
/// structural equality primitive.
pub open spec fn bool_primitive_table(v: u32) -> Seq<EnvEntryV> {
    let integer = con_v("Integer"@);
    let b = con_v("Bool"@);
    seq![
        poly_entry("__primEq"@, v, binop_v(TyV::Var(v), b)),
        mono_entry("<"@, binop_v(integer, b)),
        mono_entry("<="@, binop_v(integer, b)),
        mono_entry(">"@, binop_v(integer, b)),
        mono_entry(">="@, binop_v(integer, b)),
        mono_entry("&&"@, binop_v(b, b)),
        mono_entry("||"@, binop_v(b, b)),
        mono_entry("not"@, fn_v(b, b)),
    ]
}

/// The string primitives, with `v` and `w` the variables of the structural
/// show primitive and of list append.
pub open spec fn string_primitive_table(v: u32, w: u32) -> Seq<EnvEntryV> {
    let list_w = TyV::List(Box::new(TyV::Var(w)));
    seq![
        poly_entry("__primShow"@, v, fn_v(TyV::Var(v), char_list_v())),
        mono_entry("intToString"@, fn_v(con_v("Integer"@), char_list_v())),
        mono_entry("boolToString"@, fn_v(con_v("Bool"@), char_list_v())),
        poly_entry("++"@, w, binop_v(list_w, list_w)),
    ]
}

fn push_poly(env: &mut Vec<(String, Scheme)>, name: &str, v: u32, t: Ty)
    ensures
        env_views(final(env)@) == env_views(old(env)@).push(poly_entry(name@, v, t@)),
{
    let vars = vec![v];
    assert(vars@ =~= seq![v]);
    let s = Scheme { vars, constraints: Vec::new(), ty: t };
    env.push((String::from_str(name), s));
    proof {
        assert(constraint_views(Seq::<crate::scheme::Constraint>::empty()) =~= Seq::<ConstraintV>::empty());
        assert(env_views(env@) =~= env_views(old(env)@).push(poly_entry(name@, v, env@.last().1.ty@)));
    }
}

fn var_number(t: &Ty) -> (r: u32)
    requires
        t@ is Var,
    ensures
        t@ == TyV::Var(r),
{
    match t {
        Ty::Var(v) => *v,
        _ => 0,
    }
}

/// Adds the comparison and boolean primitives to `env`, taking one fresh
/// variable from `cx` for structural equality.
pub fn add_bool_primitives(cx: &mut InferCtx, env: &mut Vec<(String, Scheme)>)
    requires
        old(cx).next() < u32::MAX,
    ensures
        final(cx).next() == old(cx).next() + 1,
        env_views(final(env)@) == env_views(old(env)@) + bool_primitive_table(old(cx).next() as u32),
{
    let ghost e0 = env_views(env@);
    let fresh = cx.fresh();
    let v = var_number(&fresh);
    push_poly(env, "__primEq", v, func(Ty::Var(v), func(Ty::Var(v), con("Bool"))));
    push_mono(env, "<", func(con("Integer"), func(con("Integer"), con("Bool"))));
    push_mono(env, "<=", func(con("Integer"), func(con("Integer"), con("Bool"))));
    push_mono(env, ">", func(con("Integer"), func(con("Integer"), con("Bool"))));
    push_mono(env, ">=", func(con("Integer"), func(con("Integer"), con("Bool"))));
    push_mono(env, "&&", func(con("Bool"), func(con("Bool"), con("Bool"))));
    push_mono(env, "||", func(con("Bool"), func(con("Bool"), con("Bool"))));
    push_mono(env, "not", func(con("Bool"), con("Bool")));
    assert(env_views(env@) =~= e0 + bool_primitive_table(v));
}

/// Adds the string primitives to `env`, taking two fresh variables from
/// `cx`: one for structural show, then one for list append.
pub fn add_string_primitives(cx: &mut InferCtx, env: &mut Vec<(String, Scheme)>)
    requires
        old(cx).next() + 1 < u32::MAX,
    ensures
        final(cx).next() == old(cx).next() + 2,
        env_views(final(env)@) == env_views(old(env)@) + string_primitive_table(
            old(cx).next() as u32,
            (old(cx).next() + 1) as u32,
        ),
{
    let ghost e0 = env_views(env@);
    let f1 = cx.fresh();
    let v = var_number(&f1);
    push_poly(env, "__primShow", v, func(Ty::Var(v), char_list()));
    push_mono(env, "intToString", func(con("Integer"), char_list()));
    push_mono(env, "boolToString", func(con("Bool"), char_list()));
    let f2 = cx.fresh();
    let w = var_number(&f2);
    push_poly(
        env,
        "++",
        w,
        func(Ty::List(Box::new(Ty::Var(w))), func(Ty::List(Box::new(Ty::Var(w))), Ty::List(Box::new(Ty::Var(w))))),
    );
    assert(env_views(env@) =~= e0 + string_primitive_table(v, w));
}

/// The integer arithmetic primitives, each `Integer -> Integer -> Integer`.
pub open spec fn integer_primitive_table() -> Seq<EnvEntryV> {
    let t = binop_v(con_v("Integer"@), con_v("Integer"@));
    seq![
        mono_entry("+"@, t),
        mono_entry("__quotInt"@, t),
        mono_entry("__remInt"@, t),
        mono_entry("__divInt"@, t),
        mono_entry("__modInt"@, t),
        mono_entry("__builtin_Integer_add"@, t),
        mono_entry("__builtin_Integer_mul"@, t),
        mono_entry("-"@, t),
        mono_entry("*"@, t),
        mono_entry("/"@, t),
    ]
}

fn int_binop() -> (r: Ty)
    ensures
        r@ == binop_v(con_v("Integer"@), con_v("Integer"@)),
{
    func(con("Integer"), func(con("Integer"), con("Integer")))
}

/// Adds the integer arithmetic primitives to `env`.
pub fn add_integer_primitives(env: &mut Vec<(String, Scheme)>)
    ensures
        env_views(final(env)@) == env_views(old(env)@) + integer_primitive_table(),
{
    let ghost e0 = env_views(env@);
    push_mono(env, "+", int_binop());
    push_mono(env, "__quotInt", int_binop());
    push_mono(env, "__remInt", int_binop());
    push_mono(env, "__divInt", int_binop());
    push_mono(env, "__modInt", int_binop());
    push_mono(env, "__builtin_Integer_add", int_binop());
    push_mono(env, "__builtin_Integer_mul", int_binop());
    push_mono(env, "-", int_binop());
    push_mono(env, "*", int_binop());
    push_mono(env, "/", int_binop());
    assert(env_views(env@) =~= e0 + integer_primitive_table());
}

/// The exception primitives, each quantified over its own variable, taken
/// from `n` on in the order `throw`, `catch`, `try`, `exitWith`.
pub open spec fn io_exception_primitive_table(n: u32) -> Seq<EnvEntryV> {
    let a = |k: int| TyV::Var((n + k) as u32);
    seq![
        poly_entry("throw"@, (n + 0) as u32, fn_v(char_list_v(), io_v(a(0)))),
        poly_entry("catch"@, (n + 1) as u32, fn_v(io_v(a(1)), fn_v(fn_v(char_list_v(), io_v(a(1))), io_v(a(1))))),
        poly_entry(
            "try"@,
            (n + 2) as u32,
            fn_v(io_v(a(2)), io_v(TyV::App(Box::new(con_v("Either"@)), seq![char_list_v(), a(2)]))),
        ),
        poly_entry("exitWith"@, (n + 3) as u32, fn_v(con_v("Integer"@), io_v(a(3)))),
    ]
}

/// Adds `throw`, `catch`, `try` and `exitWith` to `env`, taking four fresh
/// variables from `cx`.
pub fn add_io_exception_primitives(cx: &mut InferCtx, env: &mut Vec<(String, Scheme)>)
    requires
        old(cx).next() + 3 < u32::MAX,
    ensures
        final(cx).next() == old(cx).next() + 4,
        env_views(final(env)@) == env_views(old(env)@) + io_exception_primitive_table(old(cx).next() as u32),
{
    let ghost e0 = env_views(env@);
    let ghost n = cx.next() as u32;
    let f = cx.fresh();
    let a = var_number(&f);
    push_poly(env, "throw", a, func(char_list(), io(Ty::Var(a))));
    let f = cx.fresh();
    let a = var_number(&f);
    push_poly(env, "catch", a, func(io(Ty::Var(a)), func(func(char_list(), io(Ty::Var(a))), io(Ty::Var(a)))));
    let f = cx.fresh();
    let a = var_number(&f);
    let either_args = vec![char_list(), Ty::Var(a)];
    proof {
        crate::ty::lemma_view_seq(either_args@);
        assert(crate::ty::view_seq(either_args@) =~= seq![char_list_v(), TyV::Var(a)]);
    }
    let either = Ty::App { head: Box::new(con("Either")), args: either_args };
    push_poly(env, "try", a, func(io(Ty::Var(a)), io(either)));
    let f = cx.fresh();
    let a = var_number(&f);
    push_poly(env, "exitWith", a, func(con("Integer"), io(Ty::Var(a))));
    assert(env_views(env@) =~= e0 + io_exception_primitive_table(n));
}

/// An entry quantified over the two variables `a` and `b`.
pub open spec fn poly2_entry(n: Seq<char>, a: u32, b: u32, t: TyV) -> EnvEntryV {
    (n, seq![a, b], Seq::empty(), t)
}

/// `head arg`.
pub open spec fn app1_v(head: Seq<char>, arg: TyV) -> TyV {
    TyV::App(Box::new(con_v(head)), seq![arg])
}

pub open spec fn list_v(t: TyV) -> TyV {
    TyV::List(Box::new(t))
}

/// The variable numbered `n + k`.
pub open spec fn var_at(n: u32, k: int) -> TyV {
    TyV::Var((n + k) as u32)
}

fn push_poly2(env: &mut Vec<(String, Scheme)>, name: &str, a: u32, b: u32, t: Ty)
    ensures
        env_views(final(env)@) == env_views(old(env)@).push(poly2_entry(name@, a, b, t@)),
{
    let vars = vec![a, b];
    assert(vars@ =~= seq![a, b]);
    let s = Scheme { vars, constraints: Vec::new(), ty: t };
    env.push((String::from_str(name), s));
    proof {
        assert(constraint_views(Seq::<crate::scheme::Constraint>::empty()) =~= Seq::<ConstraintV>::empty());
        assert(env_views(env@) =~= env_views(old(env)@).push(poly2_entry(name@, a, b, env@.last().1.ty@)));
    }
}

fn app1(head: &str, arg: Ty) -> (r: Ty)
    ensures
        r@ == app1_v(head@, arg@),
{
    let args = vec![arg];
    proof {
        crate::ty::lemma_view_seq(args@);
        assert(crate::ty::view_seq(args@) =~= seq![args@[0]@]);
    }
    Ty::App { head: Box::new(con(head)), args }
}

fn list_of(t: Ty) -> (r: Ty)
    ensures
        r@ == list_v(t@),
{
    Ty::List(Box::new(t))
}

/// The types every module can use without a prelude: the `IO` constructor,
/// IO sequencing and `concatMap`, over the variables from `n` on.
pub open spec fn minimal_prelude_table(n: u32) -> Seq<EnvEntryV> {
    seq![
        poly_entry("IO"@, n, fn_v(var_at(n, 0), app1_v("IO"@, var_at(n, 0)))),
        poly2_entry(
            "__ioBind"@,
            (n + 1) as u32,
            (n + 2) as u32,
            fn_v(
                app1_v("IO"@, var_at(n, 1)),
                fn_v(fn_v(var_at(n, 1), app1_v("IO"@, var_at(n, 2))), app1_v("IO"@, var_at(n, 2))),
            ),
        ),
        poly2_entry(
            "__ioThen"@,
            (n + 3) as u32,
            (n + 4) as u32,
            fn_v(app1_v("IO"@, var_at(n, 3)), fn_v(app1_v("IO"@, var_at(n, 4)), app1_v("IO"@, var_at(n, 4)))),
        ),
        poly2_entry(
            "concatMap"@,
            (n + 5) as u32,
            (n + 6) as u32,
            fn_v(fn_v(var_at(n, 5), list_v(var_at(n, 6))), fn_v(list_v(var_at(n, 5)), list_v(var_at(n, 6)))),
        ),
    ]
}

/// Adds `IO`, `__ioBind`, `__ioThen` and `concatMap` to `env`, taking seven
/// fresh variables from `cx`.
pub fn add_minimal_prelude_types(cx: &mut InferCtx, env: &mut Vec<(String, Scheme)>)
    requires
        old(cx).next() + 6 < u32::MAX,
    ensures
        final(cx).next() == old(cx).next() + 7,
        env_views(final(env)@) == env_views(old(env)@) + minimal_prelude_table(old(cx).next() as u32),
{
    let ghost e0 = env_views(env@);
    let ghost n = cx.next() as u32;
    let f = cx.fresh();
    let a = var_number(&f);
    push_poly(env, "IO", a, func(Ty::Var(a), app1("IO", Ty::Var(a))));
    let f = cx.fresh();
    let a = var_number(&f);
    let f = cx.fresh();
    let b = var_number(&f);
    push_poly2(
        env,
        "__ioBind",
        a,
        b,
        func(app1("IO", Ty::Var(a)), func(func(Ty::Var(a), app1("IO", Ty::Var(b))), app1("IO", Ty::Var(b)))),
    );
    let f = cx.fresh();
    let a = var_number(&f);
    let f = cx.fresh();
    let b = var_number(&f);
    push_poly2(env, "__ioThen", a, b, func(app1("IO", Ty::Var(a)), func(app1("IO", Ty::Var(b)), app1("IO", Ty::Var(b)))));
    let f = cx.fresh();
    let a = var_number(&f);
    let f = cx.fresh();
    let b = var_number(&f);
    push_poly2(
        env,
        "concatMap",
        a,
        b,
        func(func(Ty::Var(a), list_of(Ty::Var(b))), func(list_of(Ty::Var(a)), list_of(Ty::Var(b)))),
    );
    assert(env_views(env@) =~= e0 + minimal_prelude_table(n));
}

/// `error` and the record projection used for dictionaries, over the
/// variables from `n` on.
pub open spec fn misc_builtin_table(n: u32) -> Seq<EnvEntryV> {
    seq![
        poly_entry("error"@, n, fn_v(char_list_v(), var_at(n, 0))),
        poly2_entry("__recordGet"@, (n + 1) as u32, (n + 2) as u32, fn_v(var_at(n, 1), fn_v(char_list_v(), var_at(n, 2)))),
    ]
}

/// Adds `error` and `__recordGet` to `env`, taking three fresh variables
/// from `cx`.
pub fn add_misc_builtins(cx: &mut InferCtx, env: &mut Vec<(String, Scheme)>)
    requires
        old(cx).next() + 2 < u32::MAX,
    ensures
        final(cx).next() == old(cx).next() + 3,
        env_views(final(env)@) == env_views(old(env)@) + misc_builtin_table(old(cx).next() as u32),
{
    let ghost e0 = env_views(env@);
    let ghost n = cx.next() as u32;
    let f = cx.fresh();
    let a = var_number(&f);
    push_poly(env, "error", a, func(char_list(), Ty::Var(a)));
    let f = cx.fresh();
    let a = var_number(&f);
    let f = cx.fresh();
    let b = var_number(&f);
    push_poly2(env, "__recordGet", a, b, func(Ty::Var(a), func(char_list(), Ty::Var(b))));
    assert(env_views(env@) =~= e0 + misc_builtin_table(n));
}

/// The foreign-call primitives of a default build.
pub open spec fn ffi_primitive_table() -> Seq<EnvEntryV> {
    seq![
        mono_entry("ffiAddI32"@, binop_v(con_v("i32"@), con_v("i32"@))),
        mono_entry("ffiAddF32"@, binop_v(con_v("f32"@), con_v("f32"@))),
    ]
}

/// Adds `ffiAddI32` and `ffiAddF32` to `env` (a build with C calls enabled
/// would also add `ffiPuts`; this library has no such build).
pub fn add_ffi_primitives(env: &mut Vec<(String, Scheme)>)
    ensures
        env_views(final(env)@) == env_views(old(env)@) + ffi_primitive_table(),
{
    let ghost e0 = env_views(env@);
    push_mono(env, "ffiAddI32", func(con("i32"), func(con("i32"), con("i32"))));
    push_mono(env, "ffiAddF32", func(con("f32"), func(con("f32"), con("f32"))));
    assert(env_views(env@) =~= e0 + ffi_primitive_table());
}

/// Adds the basic IO primitives, then the exception primitives.
pub fn add_io_primitives(cx: &mut InferCtx, env: &mut Vec<(String, Scheme)>)
    requires
        old(cx).next() + 3 < u32::MAX,
    ensures
        final(cx).next() == old(cx).next() + 4,
        env_views(final(env)@) == env_views(old(env)@) + io_primitive_table() + io_exception_primitive_table(
            old(cx).next() as u32,
        ),
{
    add_io_basic_primitives(env);
    add_io_exception_primitives(cx, env);
}

/// `Maybe a` and `Either a b`.
pub open spec fn maybe_v(a: TyV) -> TyV {
    TyV::App(Box::new(con_v("Maybe"@)), seq![a])
}

pub open spec fn either_v(a: TyV, b: TyV) -> TyV {
    TyV::App(Box::new(con_v("Either"@)), seq![a, b])
}

/// The prelude's constructors of `Maybe` (over variable `n`) and `Either`
/// (over `n + 1` and `n + 2`): always under their qualified names, and also
/// unqualified where asked.
pub open spec fn prelude_ctor_table(n: u32, maybe_too: bool, either_too: bool) -> Seq<EnvEntryV> {
    let a = var_at(n, 0);
    let nothing = poly_entry("Prelude.Nothing"@, n, maybe_v(a));
    let just = poly_entry("Prelude.Just"@, n, fn_v(a, maybe_v(a)));
    let x = (n + 1) as u32;
    let y = (n + 2) as u32;
    let e = either_v(TyV::Var(x), TyV::Var(y));
    let left = poly2_entry("Prelude.Left"@, x, y, fn_v(TyV::Var(x), e));
    let right = poly2_entry("Prelude.Right"@, x, y, fn_v(TyV::Var(y), e));
    seq![nothing, just] + (if maybe_too {
        seq![poly_entry("Nothing"@, n, maybe_v(a)), poly_entry("Just"@, n, fn_v(a, maybe_v(a)))]
    } else {
        seq![]
    }) + seq![left, right] + (if either_too {
        seq![poly2_entry("Left"@, x, y, fn_v(TyV::Var(x), e)), poly2_entry("Right"@, x, y, fn_v(TyV::Var(y), e))]
    } else {
        seq![]
    })
}

fn maybe_of(a: u32) -> (r: Ty)
    ensures
        r@ == maybe_v(TyV::Var(a)),
{
    app1("Maybe", Ty::Var(a))
}

fn either_of(a: u32, b: u32) -> (r: Ty)
    ensures
        r@ == either_v(TyV::Var(a), TyV::Var(b)),
{
    let args = vec![Ty::Var(a), Ty::Var(b)];
    proof {
        crate::ty::lemma_view_seq(args@);
        assert(crate::ty::view_seq(args@) =~= seq![TyV::Var(a), TyV::Var(b)]);
    }
    Ty::App { head: Box::new(con("Either")), args }
}

/// Adds the constructors of `Maybe` and `Either` to `env`, taking three
/// fresh variables from `cx`.
pub fn add_prelude_data_ctors(
    cx: &mut InferCtx,
    env: &mut Vec<(String, Scheme)>,
    also_unqualified_maybe: bool,
    also_unqualified_either: bool,
)
    requires
        old(cx).next() + 2 < u32::MAX,
    ensures
        final(cx).next() == old(cx).next() + 3,
        env_views(final(env)@) == env_views(old(env)@) + prelude_ctor_table(
            old(cx).next() as u32,
            also_unqualified_maybe,
            also_unqualified_either,
        ),
{
    let ghost e0 = env_views(env@);
    let ghost n = cx.next() as u32;
    let f = cx.fresh();
    let a = var_number(&f);
    push_poly(env, "Prelude.Nothing", a, maybe_of(a));
    push_poly(env, "Prelude.Just", a, func(Ty::Var(a), maybe_of(a)));
    if also_unqualified_maybe {
        push_poly(env, "Nothing", a, maybe_of(a));
        push_poly(env, "Just", a, func(Ty::Var(a), maybe_of(a)));
    }
    let ghost e1 = env_views(env@);
    let f = cx.fresh();
    let x = var_number(&f);
    let f = cx.fresh();
    let y = var_number(&f);
    push_poly2(env, "Prelude.Left", x, y, func(Ty::Var(x), either_of(x, y)));
    push_poly2(env, "Prelude.Right", x, y, func(Ty::Var(y), either_of(x, y)));
    if also_unqualified_either {
        push_poly2(env, "Left", x, y, func(Ty::Var(x), either_of(x, y)));
        push_poly2(env, "Right", x, y, func(Ty::Var(y), either_of(x, y)));
    }
    assert(env_views(env@) =~= e0 + prelude_ctor_table(n, also_unqualified_maybe, also_unqualified_either));
}

} // verus!
