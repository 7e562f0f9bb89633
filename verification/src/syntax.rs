//! The surface syntax that elaboration reads and writes: types, patterns,
//! expressions and constructor names, with their mathematical model.
use vstd::prelude::*;
use crate::names::string_views;

verus! {

/// The name of a constructor: as written, or resolved to the module that
/// defines it (by its number, keeping the qualifier written for messages).
#[derive(Debug, PartialEq, Eq)]
pub enum SynName {
    Unresolved(String),
    Resolved { module: usize, module_name: String, name: String },
}

/// A type as written in source.
#[derive(Debug, PartialEq, Eq)]
pub enum SynType {
    /// A type name or type variable.
    Var(String),
    /// A type applied to arguments.
    App(Box<SynType>, Vec<SynType>),
}

/// A pattern.
#[derive(Debug, PartialEq, Eq)]
pub enum SynPat {
    Var(String),
    Wildcard,
    /// A constructor applied to argument patterns.
    Ctor(SynName, Vec<SynPat>),
    Tuple(Vec<SynPat>),
    List(Vec<SynPat>),
    Record(Vec<(String, SynPat)>),
    /// A record pattern that allows more fields, naming the rest if given.
    RecordLoose(Vec<(String, SynPat)>, Option<String>),
    Cons(Box<SynPat>, Box<SynPat>),
    Or(Box<SynPat>, Box<SynPat>),
    /// `(e -> p)`: matches where `e` applied to the value matches `p`.
    View(Box<SynPat>, Box<SynExpr>),
    /// A literal, written as an expression.
    Lit(Box<SynExpr>),
}

/// An expression.
#[derive(Debug, PartialEq, Eq)]
pub enum SynExpr {
    Var(String),
    /// A literal, by its source text.
    Lit(String),
    Ctor(SynName),
    /// A function applied to arguments.
    Apply(Box<SynExpr>, Vec<SynExpr>),
    /// `\x y -> e`.
    Lambda(Vec<String>, Box<SynExpr>),
    If(Box<SynExpr>, Box<SynExpr>, Box<SynExpr>),
    Let(Vec<SynBinding>, Box<SynExpr>),
    Where(Box<SynExpr>, Vec<SynBinding>),
    /// `e :: t`.
    Annot(Box<SynExpr>, SynType),
    Do(Vec<SynStmt>),
    Case(Box<SynExpr>, Vec<SynArm>),
    Cons(Box<SynExpr>, Box<SynExpr>),
    List(Vec<SynExpr>),
    Tuple(Vec<SynExpr>),
    Record(Vec<(String, SynExpr)>),
}

/// `pat = expr`.
#[derive(Debug, PartialEq, Eq)]
pub struct SynBinding {
    pub pat: SynPat,
    pub expr: SynExpr,
}

/// A statement of a `do` block.
#[derive(Debug, PartialEq, Eq)]
pub enum SynStmt {
    /// `pat <- expr`.
    Bind(SynPat, SynExpr),
    Expr(SynExpr),
}

/// `pat | guard -> body`.
#[derive(Debug, PartialEq, Eq)]
pub struct SynArm {
    pub pat: SynPat,
    pub guard: Option<SynExpr>,
    pub body: SynExpr,
}

/// `import [qualified] module [as name]`.
#[derive(Debug, PartialEq, Eq)]
pub struct SynImport {
    pub module: String,
    pub as_name: Option<String>,
    pub qualified: bool,
    pub import_spec: Option<SynImportSpec>,
}

/// The names an import brings: only those listed, or all but those listed.
#[derive(Debug, PartialEq, Eq)]
pub enum SynImportSpec {
    Only(Vec<SynExportSpec>),
    Hiding(Vec<SynExportSpec>),
}

/// A superclass predicate as written in a class declaration.
#[derive(Debug, PartialEq, Eq)]
pub enum SuperPred {
    Show(SynType),
    ShowRow(SynType),
    Eq(SynType),
    EqRow(SynType),
    /// A user class applied to a type.
    Class(String, SynType),
}

/// `class (supers) => name param where methods`, with the module that
/// defines it where known, the names of its methods and its default method
/// bindings.
#[derive(Debug, PartialEq, Eq)]
pub struct SynClassDecl {
    pub name: String,
    pub def_module: Option<String>,
    pub param: String,
    pub supers: Vec<SuperPred>,
    pub methods: Vec<String>,
    pub default_methods: Vec<SynBinding>,
}

/// A data constructor: its name and the types of its fields.
#[derive(Debug, PartialEq, Eq)]
pub struct SynCtor {
    pub name: String,
    pub args: Vec<SynType>,
}

/// `data name params = ctors`.
#[derive(Debug, PartialEq, Eq)]
pub struct SynDataDecl {
    pub name: String,
    pub params: Vec<String>,
    pub ctors: Vec<SynCtor>,
}

/// `type name params = ty`.
#[derive(Debug, PartialEq, Eq)]
pub struct SynTypeAlias {
    pub name: String,
    pub params: Vec<String>,
    pub ty: SynType,
}

/// Which constructors an exported type brings along.
#[derive(Debug, PartialEq, Eq)]
pub enum SynExportCtors {
    All,
    Listed(Vec<String>),
}

/// One entry of an export list: a name, or a type with constructors.
#[derive(Debug, PartialEq, Eq)]
pub enum SynExportSpec {
    Name(String),
    Type { name: String, ctors: SynExportCtors },
}

/// A top-level item, with the parts that name resolution reads; other
/// items are carried as they are.
#[derive(Debug, PartialEq, Eq)]
pub enum SynItem {
    Binding(SynBinding),
    ClassDecl(SynClassDecl),
    /// An instance declaration with its method bindings.
    InstanceDecl { class: String, methods: Vec<SynBinding> },
    Import(SynImport),
    TypeAlias(SynTypeAlias),
    DataDecl(SynDataDecl),
    /// An export declaration with its entries.
    Export(Vec<SynExportSpec>),
    Other,
}

/// A module: its declared name, the export list of its header if it has
/// one, and its items.
#[derive(Debug, PartialEq, Eq)]
pub struct SynModule {
    pub name: Option<String>,
    pub export_specs: Option<Vec<SynExportSpec>>,
    pub items: Vec<SynItem>,
}

pub enum PredV {
    Show(TypeV),
    ShowRow(TypeV),
    Eq(TypeV),
    EqRow(TypeV),
    Class(Seq<char>, TypeV),
}

pub open spec fn pred_view(p: SuperPred) -> PredV {
    match p {
        SuperPred::Show(t) => PredV::Show(type_view(t)),
        SuperPred::ShowRow(t) => PredV::ShowRow(type_view(t)),
        SuperPred::Eq(t) => PredV::Eq(type_view(t)),
        SuperPred::EqRow(t) => PredV::EqRow(type_view(t)),
        SuperPred::Class(c, t) => PredV::Class(c@, type_view(t)),
    }
}

pub open spec fn preds_view(ps: Seq<SuperPred>) -> Seq<PredV> {
    ps.map_values(|p: SuperPred| pred_view(p))
}

pub struct ClassDeclV {
    pub name: Seq<char>,
    pub def_module: Option<Seq<char>>,
    pub param: Seq<char>,
    pub supers: Seq<PredV>,
    pub methods: Seq<Seq<char>>,
    pub default_methods: Seq<(PatV, ExprV)>,
}

pub open spec fn class_decl_view(c: SynClassDecl) -> ClassDeclV {
    ClassDeclV {
        name: c.name@,
        def_module: opt_view(c.def_module),
        param: c.param@,
        supers: preds_view(c.supers@),
        methods: string_views(c.methods@),
        default_methods: binding_views(c.default_methods@),
    }
}

pub enum ItemV {
    Binding((PatV, ExprV)),
    ClassDecl(ClassDeclV),
    InstanceDecl(Seq<char>, Seq<(PatV, ExprV)>),
    Import(Seq<char>, Option<Seq<char>>, bool, Option<ImportSpecV>),
    TypeAlias(Seq<char>, Seq<Seq<char>>, TypeV),
    DataDecl(Seq<char>, Seq<Seq<char>>, Seq<(Seq<char>, Seq<TypeV>)>),
    Export(Seq<ExportV>),
    Other,
}

pub enum ImportSpecV {
    Only(Seq<ExportV>),
    Hiding(Seq<ExportV>),
}

pub open spec fn import_spec_view(o: Option<SynImportSpec>) -> Option<ImportSpecV> {
    match o {
        Some(SynImportSpec::Only(es)) => Some(ImportSpecV::Only(export_views(es@))),
        Some(SynImportSpec::Hiding(es)) => Some(ImportSpecV::Hiding(export_views(es@))),
        None => None,
    }
}

pub enum ExportV {
    Name(Seq<char>),
    TypeAll(Seq<char>),
    TypeSome(Seq<char>, Seq<Seq<char>>),
}

pub open spec fn export_view(e: SynExportSpec) -> ExportV {
    match e {
        SynExportSpec::Name(n) => ExportV::Name(n@),
        SynExportSpec::Type { name, ctors } => match ctors {
            SynExportCtors::All => ExportV::TypeAll(name@),
            SynExportCtors::Listed(cs) => ExportV::TypeSome(name@, string_views(cs@)),
        },
    }
}

pub open spec fn export_views(es: Seq<SynExportSpec>) -> Seq<ExportV> {
    es.map_values(|e: SynExportSpec| export_view(e))
}

pub open spec fn ctor_views(cs: Seq<SynCtor>) -> Seq<(Seq<char>, Seq<TypeV>)> {
    cs.map_values(|c: SynCtor| (c.name@, type_views(c.args@)))
}

pub enum NameV {
    Unresolved(Seq<char>),
    Resolved(nat, Seq<char>, Seq<char>),
}

pub enum TypeV {
    Var(Seq<char>),
    App(Box<TypeV>, Seq<TypeV>),
}

pub enum PatV {
    Var(Seq<char>),
    Wildcard,
    Ctor(NameV, Seq<PatV>),
    Tuple(Seq<PatV>),
    List(Seq<PatV>),
    Record(Seq<(Seq<char>, PatV)>),
    RecordLoose(Seq<(Seq<char>, PatV)>, Option<Seq<char>>),
    Cons(Box<PatV>, Box<PatV>),
    Or(Box<PatV>, Box<PatV>),
    View(Box<PatV>, Box<ExprV>),
    Lit(Box<ExprV>),
}

pub enum ExprV {
    Var(Seq<char>),
    Lit(Seq<char>),
    Ctor(NameV),
    Apply(Box<ExprV>, Seq<ExprV>),
    Lambda(Seq<Seq<char>>, Box<ExprV>),
    If(Box<ExprV>, Box<ExprV>, Box<ExprV>),
    Let(Seq<(PatV, ExprV)>, Box<ExprV>),
    Where(Box<ExprV>, Seq<(PatV, ExprV)>),
    Annot(Box<ExprV>, TypeV),
    Do(Seq<StmtV>),
    Case(Box<ExprV>, Seq<ArmV>),
    Cons(Box<ExprV>, Box<ExprV>),
    List(Seq<ExprV>),
    Tuple(Seq<ExprV>),
    Record(Seq<(Seq<char>, ExprV)>),
}

pub enum StmtV {
    Bind(PatV, ExprV),
    Expr(ExprV),
}

/// A case arm: pattern, guard, body.
pub type ArmV = (PatV, Option<ExprV>, ExprV);

pub open spec fn opt_view(o: Option<String>) -> Option<Seq<char>> {
    match o {
        Some(s) => Some(s@),
        None => None,
    }
}

pub open spec fn name_view(n: SynName) -> NameV {
    match n {
        SynName::Unresolved(s) => NameV::Unresolved(s@),
        SynName::Resolved { module, module_name, name } => NameV::Resolved(module as nat, module_name@, name@),
    }
}

pub open spec fn type_view(t: SynType) -> TypeV
    decreases t, 1nat,
{
    match t {
        SynType::Var(s) => TypeV::Var(s@),
        SynType::App(h, args) => TypeV::App(Box::new(type_view(*h)), type_views(args@)),
    }
}

pub open spec fn type_views(ts: Seq<SynType>) -> Seq<TypeV>
    decreases ts, 0nat,
{
    if ts.len() == 0 {
        Seq::empty()
    } else {
        type_views(ts.drop_last()).push(type_view(ts.last()))
    }
}

pub open spec fn pat_view(p: SynPat) -> PatV
    decreases p, 1nat,
{
    match p {
        SynPat::Var(s) => PatV::Var(s@),
        SynPat::Wildcard => PatV::Wildcard,
        SynPat::Ctor(n, ps) => PatV::Ctor(name_view(n), pat_views(ps@)),
        SynPat::Tuple(ps) => PatV::Tuple(pat_views(ps@)),
        SynPat::List(ps) => PatV::List(pat_views(ps@)),
        SynPat::Record(fs) => PatV::Record(pat_field_views(fs@)),
        SynPat::RecordLoose(fs, rest) => PatV::RecordLoose(pat_field_views(fs@), opt_view(rest)),
        SynPat::Cons(a, b) => PatV::Cons(Box::new(pat_view(*a)), Box::new(pat_view(*b))),
        SynPat::Or(a, b) => PatV::Or(Box::new(pat_view(*a)), Box::new(pat_view(*b))),
        SynPat::View(q, e) => PatV::View(Box::new(pat_view(*q)), Box::new(expr_view(*e))),
        SynPat::Lit(e) => PatV::Lit(Box::new(expr_view(*e))),
    }
}

pub open spec fn pat_views(ps: Seq<SynPat>) -> Seq<PatV>
    decreases ps, 0nat,
{
    if ps.len() == 0 {
        Seq::empty()
    } else {
        pat_views(ps.drop_last()).push(pat_view(ps.last()))
    }
}

pub open spec fn pat_field_views(fs: Seq<(String, SynPat)>) -> Seq<(Seq<char>, PatV)>
    decreases fs, 0nat,
{
    if fs.len() == 0 {
        Seq::empty()
    } else {
        pat_field_views(fs.drop_last()).push((fs.last().0@, pat_view(fs.last().1)))
    }
}

pub open spec fn expr_view(e: SynExpr) -> ExprV
    decreases e, 1nat,
{
    match e {
        SynExpr::Var(s) => ExprV::Var(s@),
        SynExpr::Lit(s) => ExprV::Lit(s@),
        SynExpr::Ctor(n) => ExprV::Ctor(name_view(n)),
        SynExpr::Apply(f, args) => ExprV::Apply(Box::new(expr_view(*f)), expr_views(args@)),
        SynExpr::Lambda(ps, b) => ExprV::Lambda(string_views(ps@), Box::new(expr_view(*b))),
        SynExpr::If(c, t, f) => ExprV::If(Box::new(expr_view(*c)), Box::new(expr_view(*t)), Box::new(expr_view(*f))),
        SynExpr::Let(bs, b) => ExprV::Let(binding_views(bs@), Box::new(expr_view(*b))),
        SynExpr::Where(b, bs) => ExprV::Where(Box::new(expr_view(*b)), binding_views(bs@)),
        SynExpr::Annot(b, t) => ExprV::Annot(Box::new(expr_view(*b)), type_view(t)),
        SynExpr::Do(ss) => ExprV::Do(stmt_views(ss@)),
        SynExpr::Case(s, arms) => ExprV::Case(Box::new(expr_view(*s)), arm_views(arms@)),
        SynExpr::Cons(h, t) => ExprV::Cons(Box::new(expr_view(*h)), Box::new(expr_view(*t))),
        SynExpr::List(es) => ExprV::List(expr_views(es@)),
        SynExpr::Tuple(es) => ExprV::Tuple(expr_views(es@)),
        SynExpr::Record(fs) => ExprV::Record(field_views(fs@)),
    }
}

pub open spec fn expr_views(es: Seq<SynExpr>) -> Seq<ExprV>
    decreases es, 0nat,
{
    if es.len() == 0 {
        Seq::empty()
    } else {
        expr_views(es.drop_last()).push(expr_view(es.last()))
    }
}

pub open spec fn field_views(fs: Seq<(String, SynExpr)>) -> Seq<(Seq<char>, ExprV)>
    decreases fs, 0nat,
{
    if fs.len() == 0 {
        Seq::empty()
    } else {
        field_views(fs.drop_last()).push((fs.last().0@, expr_view(fs.last().1)))
    }
}

pub open spec fn binding_views(bs: Seq<SynBinding>) -> Seq<(PatV, ExprV)>
    decreases bs, 0nat,
{
    if bs.len() == 0 {
        Seq::empty()
    } else {
        binding_views(bs.drop_last()).push((pat_view(bs.last().pat), expr_view(bs.last().expr)))
    }
}

pub open spec fn stmt_view(s: SynStmt) -> StmtV
    decreases s, 1nat,
{
    match s {
        SynStmt::Bind(p, e) => StmtV::Bind(pat_view(p), expr_view(e)),
        SynStmt::Expr(e) => StmtV::Expr(expr_view(e)),
    }
}

pub open spec fn stmt_views(ss: Seq<SynStmt>) -> Seq<StmtV>
    decreases ss, 0nat,
{
    if ss.len() == 0 {
        Seq::empty()
    } else {
        stmt_views(ss.drop_last()).push(stmt_view(ss.last()))
    }
}

pub open spec fn arm_view(a: SynArm) -> ArmV
    decreases a, 1nat,
{
    (
        pat_view(a.pat),
        match a.guard {
            Some(g) => Some(expr_view(g)),
            None => None,
        },
        expr_view(a.body),
    )
}

pub open spec fn arm_views(arms: Seq<SynArm>) -> Seq<ArmV>
    decreases arms, 0nat,
{
    if arms.len() == 0 {
        Seq::empty()
    } else {
        arm_views(arms.drop_last()).push(arm_view(arms.last()))
    }
}

pub open spec fn item_view(it: SynItem) -> ItemV {
    match it {
        SynItem::Binding(b) => ItemV::Binding((pat_view(b.pat), expr_view(b.expr))),
        SynItem::ClassDecl(c) => ItemV::ClassDecl(class_decl_view(c)),
        SynItem::InstanceDecl { class, methods } => ItemV::InstanceDecl(class@, binding_views(methods@)),
        SynItem::Import(i) => ItemV::Import(i.module@, opt_view(i.as_name), i.qualified, import_spec_view(i.import_spec)),
        SynItem::TypeAlias(t) => ItemV::TypeAlias(t.name@, string_views(t.params@), type_view(t.ty)),
        SynItem::DataDecl(d) => ItemV::DataDecl(d.name@, string_views(d.params@), ctor_views(d.ctors@)),
        SynItem::Export(es) => ItemV::Export(export_views(es@)),
        SynItem::Other => ItemV::Other,
    }
}

pub open spec fn item_views(its: Seq<SynItem>) -> Seq<ItemV>
    decreases its.len(),
{
    if its.len() == 0 {
        Seq::empty()
    } else {
        item_views(its.drop_last()).push(item_view(its.last()))
    }
}

} // verus!
