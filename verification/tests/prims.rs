use kscr_types::{
    add_bool_primitives, add_ffi_primitives, add_integer_primitives, add_io_exception_primitives, add_io_primitives,
    add_minimal_prelude_types, add_misc_builtins, add_prelude_data_ctors, add_string_primitives, InferCtx, Scheme,
};

fn names(env: &[(String, Scheme)]) -> Vec<&str> {
    env.iter().map(|(n, _)| n.as_str()).collect()
}

#[test]
fn bool_primitives_take_one_fresh_variable() {
    let mut cx = InferCtx::default();
    let mut env = Vec::new();
    add_bool_primitives(&mut cx, &mut env);
    assert_eq!(names(&env), vec!["__primEq", "<", "<=", ">", ">=", "&&", "||", "not"]);
    assert_eq!(env[0].1.vars, vec![0]);
    assert_eq!(env[0].1.ty.display(), "t0 -> t0 -> Bool");
    assert_eq!(env[1].1.ty.display(), "Integer -> Integer -> Bool");
    assert_eq!(env[5].1.ty.display(), "Bool -> Bool -> Bool");
    assert_eq!(env[7].1.ty.display(), "Bool -> Bool");
    assert_eq!(cx.fresh(), kscr_types::Ty::Var(1));
}

#[test]
fn string_primitives_quantify_show_and_append() {
    let mut cx = InferCtx::default();
    let mut env = Vec::new();
    add_string_primitives(&mut cx, &mut env);
    assert_eq!(names(&env), vec!["__primShow", "intToString", "boolToString", "++"]);
    assert_eq!(env[0].1.vars, vec![0]);
    assert_eq!(env[3].1.vars, vec![1]);
    assert_eq!(env[3].1.ty.display(), "[t1] -> [t1] -> [t1]");
    assert_eq!(env[1].1.ty.display(), "Integer -> [Char]");
}

#[test]
fn integer_and_ffi_primitives() {
    let mut env = Vec::new();
    add_integer_primitives(&mut env);
    assert_eq!(
        names(&env),
        vec!["+", "__quotInt", "__remInt", "__divInt", "__modInt", "__builtin_Integer_add", "__builtin_Integer_mul", "-", "*", "/"]
    );
    assert!(env.iter().all(|(_, s)| s.vars.is_empty() && s.ty.display() == "Integer -> Integer -> Integer"));
    let mut ffi = Vec::new();
    add_ffi_primitives(&mut ffi);
    assert_eq!(names(&ffi), vec!["ffiAddI32", "ffiAddF32"]);
    assert_eq!(ffi[1].1.ty.display(), "f32 -> f32 -> f32");
}

#[test]
fn exception_primitives_each_get_a_variable() {
    let mut cx = InferCtx::default();
    let mut env = Vec::new();
    add_io_exception_primitives(&mut cx, &mut env);
    assert_eq!(names(&env), vec!["throw", "catch", "try", "exitWith"]);
    let vars: Vec<Vec<u32>> = env.iter().map(|(_, s)| s.vars.clone()).collect();
    assert_eq!(vars, vec![vec![0], vec![1], vec![2], vec![3]]);
    assert_eq!(env[1].1.ty.display(), "IO t1 -> ([Char] -> IO t1) -> IO t1");
    assert_eq!(env[2].1.ty.display(), "IO t2 -> IO (Either [Char] t2)");
    let mut cx2 = InferCtx::default();
    let mut all = Vec::new();
    add_io_primitives(&mut cx2, &mut all);
    assert_eq!(all.len(), 12);
    assert_eq!(all[8].0, "throw");
}

#[test]
fn minimal_prelude_and_misc_builtins() {
    let mut cx = InferCtx::default();
    let mut env = Vec::new();
    add_minimal_prelude_types(&mut cx, &mut env);
    assert_eq!(names(&env), vec!["IO", "__ioBind", "__ioThen", "concatMap"]);
    assert_eq!(env[1].1.vars, vec![1, 2]);
    assert_eq!(env[1].1.ty.display(), "IO t1 -> (t1 -> IO t2) -> IO t2");
    assert_eq!(env[3].1.ty.display(), "(t5 -> [t6]) -> [t5] -> [t6]");
    add_misc_builtins(&mut cx, &mut env);
    assert_eq!(env[4].0, "error");
    assert_eq!(env[4].1.vars, vec![7]);
    assert_eq!(env[5].1.vars, vec![8, 9]);
    assert_eq!(env[5].1.ty.display(), "t8 -> [Char] -> t9");
}

#[test]
fn prelude_ctors_unqualified_only_when_asked() {
    let mut cx = InferCtx::default();
    let mut env = Vec::new();
    add_prelude_data_ctors(&mut cx, &mut env, false, true);
    assert_eq!(names(&env), vec!["Prelude.Nothing", "Prelude.Just", "Prelude.Left", "Prelude.Right", "Left", "Right"]);
    assert_eq!(env[1].1.ty.display(), "t0 -> Maybe t0");
    assert_eq!(env[3].1.vars, vec![1, 2]);
    assert_eq!(env[3].1.ty.display(), "t2 -> Either t1 t2");
    let mut env2 = Vec::new();
    add_prelude_data_ctors(&mut cx, &mut env2, true, false);
    assert_eq!(names(&env2), vec!["Prelude.Nothing", "Prelude.Just", "Nothing", "Just", "Prelude.Left", "Prelude.Right"]);
}
