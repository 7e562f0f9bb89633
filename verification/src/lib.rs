//! Types, substitutions and unification for a small functional language:
//! monotypes and schemes, applying and composing substitutions, unification
//! with an occurs check and row-polymorphic records, their rendering, and the
//! dependency analysis around inference (strongly connected components and
//! their order), the hints that diagnostics give on where names come from,
//! derived `Semigroup`/`Monoid` instances, and where a module's imports are
//! searched from.
pub mod ty;
pub mod subst;
pub mod fields;
pub mod numeric;
pub mod unify;
pub mod agree;
pub mod sound;
pub mod exports;
pub mod policy;
pub mod scheme;
pub mod display;
pub mod digest;
pub mod instance;
pub mod names;
pub mod hints;
pub mod graph;
pub mod monad;
pub mod qualify;
pub mod scc;
pub mod rename;
pub mod generalize;
pub mod prims;
pub mod roots;
pub mod origins;
pub mod syntax;
pub mod derive;
pub mod resolve;
pub mod classes;
pub mod exhaustive;
pub mod location;
pub mod aliases;
pub mod evidence;
pub mod module_exports;
pub mod laws;

pub use digest::{hex_lower, sha256_hex};
pub use display::{assign_ty_var_names, fmt_ty_prec, pretty_ty_pair};
pub use exports::{ExportTable, SymbolKind};
pub use numeric::{backend_float_bits, backend_int_bits, numeric_compatible};
pub use graph::topo_order_sccs;
pub use scc::tarjan_scc;
pub use rename::merge_build_rename_map;
pub use prims::{
    add_bool_primitives, add_ffi_primitives, add_integer_primitives, add_io_basic_primitives, add_io_exception_primitives,
    add_io_primitives, add_minimal_prelude_types, add_misc_builtins, add_prelude_data_ctors, add_string_primitives,
};
pub use roots::{module_search_root_from_entry, PathPart};
pub use exhaustive::check_case_adt_exhaustive;
pub use location::def_loc;
pub use aliases::{local_alias_notes, string_alias_chain_note, string_alias_def_line};
pub use evidence::{unify_dbg, DefEvidence};
pub use module_exports::{classify_exported_name, classify_type_export, module_exported_names};
pub use derive::{generate_semigroup_monoid_instance, SynInstance};
pub use resolve::{
    check_imports_supplied, ensure_implicit_prelude_import, module_qual_env, resolve_ctor_names_to_module_ids, ModuleIds,
};
pub use classes::{
    collect_class_decls, detect_superclass_cycles, merge_class_definitions_only, merge_class_envs, reject_ambiguous_method_names,
    validate_superclass_preds, ClassDeclInfo, ClassEnv,
};
pub use syntax::{
    SuperPred, SynArm, SynBinding, SynClassDecl, SynCtor, SynDataDecl, SynExportCtors, SynExportSpec, SynExpr, SynImport, SynItem, SynModule,
    SynImportSpec, SynName, SynPat, SynStmt, SynType, SynTypeAlias,
};
pub use origins::{collect_unqualified_name_hints_from_imported, HintItem, HintModule};
pub use generalize::{apply_constraint, apply_constraints, apply_scheme, entails_lacks, ftv_constraint, generalize_qual_with_env_ftv};
pub use monad::extract_return_monad_type;
pub use qualify::{desugar_qualified_ref, QualEnv};
pub use policy::{
    check_dependency_ksif, check_module_name, dep_ksif_candidates, get_ksif_rebuild_policy, ksif_rebuild_after_validation,
    ksif_rebuild_check, ksif_step, law_ksif_walk, module_file_rel, set_ksif_rebuild_policy,
    KsifAction, KsifCheck, KsifEvent, KsifRebuildPolicy, KsifState,
};
pub use scheme::{ftv_scheme, instantiate, instantiate_qual, replace_vars, Constraint, InferCtx, Scheme};
pub use subst::{apply, compose, ftv_env_applied_from_ftv, Subst};
pub use ty::{ftv_ty, Ty};
pub use unify::{unify, unify_in, UnifyError};
pub use hints::{
    collect_unify_def_hints, format_unify_name_hints, unify_def_evidence, format_unknown_ctor_name_hint, unify_goal_message, DefHint,
    DefHintKind, NameHints,
};
pub use instance::{instance_head_key_ty, instance_head_key_ty_for_class, normalize_ty_for_instance_key, unify_instance_head,
    unify_instance_head_ground,
};
pub use names::{
    adt_head_type_name, check_case_primitive_exhaustive, ctx_param_name, dict_param_name, eq_primitives,
    mangle_ident, normalize_string_alts, show_primitives, stdlib_derives_eq, stdlib_derives_show,
    super_field_name, ty_has_list_char, ty_has_unqualified_type_alias, ty_has_unqualified_type_ctor, unqual_name_last_segment, ModuleName,
    QualName, UnqualName,
};
