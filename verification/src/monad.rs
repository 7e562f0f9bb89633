//! Recognising the monad of a function's result against a polymorphic
//! pattern `m a`.
use vstd::prelude::*;
use crate::ty::{Ty, TyV, ty_clone};

verus! {

/// The result type of a curried function type: the type at the end of its
/// chain of arrows.
pub open spec fn return_ty(t: TyV) -> TyV
    decreases t,
{
    match t {
        TyV::Func(_, b) => return_ty(*b),
        _ => t,
    }
}

/// `concrete` instantiates the single-argument pattern `poly`, an
/// application `m a` whose head is a type variable: then `concrete`, an
/// application of one argument too, is the whole monadic type.
pub open spec fn monad_instance(poly: TyV, concrete: TyV) -> Option<TyV> {
    match (poly, concrete) {
        (TyV::App(ph, pa), TyV::App(_, ca)) => {
            if pa.len() == ca.len() && (*ph is Var) && pa.len() == 1 {
                Some(concrete)
            } else {
                None
            }
        },
        _ => None,
    }
}

fn return_type(ty: &Ty) -> (r: &Ty)
    ensures
        r@ == return_ty(ty@),
    decreases ty,
{
    match ty {
        Ty::Func(_, b) => return_type(b),
        _ => ty,
    }
}

/// The monadic type that the result of `func_ty` gives to the pattern
/// `poly_ty` (such as `IO Unit` for `m ()`), if it matches.
pub fn extract_return_monad_type(func_ty: &Ty, poly_ty: &Ty) -> (r: Option<Ty>)
    ensures
        match r {
            Some(t) => monad_instance(poly_ty@, return_ty(func_ty@)) == Some(t@),
            None => monad_instance(poly_ty@, return_ty(func_ty@)) is None,
        },
{
    let ret = return_type(func_ty);
    let ghost rv = ret@;
    assert(rv == return_ty(func_ty@));
    match poly_ty {
        Ty::App { head: poly_head, args: poly_args } => {
            assert(poly_ty@ == TyV::App(Box::new((**poly_head)@), crate::ty::view_seq(poly_args@)));
            proof {
                crate::ty::lemma_view_seq(poly_args@);
            }
            match ret {
                Ty::App { head: conc_head, args: conc_args } => {
                    assert(rv == TyV::App(Box::new((**conc_head)@), crate::ty::view_seq(conc_args@)));
                    proof {
                        crate::ty::lemma_view_seq(conc_args@);
                    }
                    let is_var = match &**poly_head {
                        Ty::Var(_) => true,
                        _ => false,
                    };
                    assert(is_var == ((**poly_head)@ is Var));
                    if poly_args.len() == conc_args.len() && is_var && poly_args.len() == 1 {
                        let t = ty_clone(ret);
                        return Some(t);
                    }
                    None
                },
                _ => {
                    assert(!(rv is App));
                    None
                },
            }
        },
        _ => {
            assert(!(poly_ty@ is App));
            None
        },
    }
}

} // verus!
