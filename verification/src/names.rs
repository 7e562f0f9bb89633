//! Names: qualified names, generated identifiers, and facts about type
//! constructor names that diagnostics and exhaustiveness checks use.
use vstd::prelude::*;
use crate::display::{decimal, push_char, write_decimal};
use crate::ty::{lemma_view_fields, lemma_view_seq, view_fields, view_seq, FieldsV, Ty, TyV};

verus! {

/// The characters of a string slice.
pub fn str_chars(s: &str) -> (r: Vec<char>)
    ensures
        r@ == s@,
{
    let n = s.unicode_len();
    let mut out: Vec<char> = Vec::new();
    let mut i: usize = 0;
    while i < n
        invariant
            n == s@.len(),
            i <= n,
            out@ == s@.take(i as int),
        decreases n - i,
    {
        out.push(s.get_char(i));
        i += 1;
        assert(out@ =~= s@.take(i as int));
    }
    assert(s@.take(n as int) =~= s@);
    out
}

/// Whether two string slices hold the same characters.
pub fn str_eq(a: &str, b: &str) -> (r: bool)
    ensures
        r == (a@ == b@),
{
    let ca = str_chars(a);
    let cb = str_chars(b);
    if ca.len() != cb.len() {
        return false;
    }
    let mut i: usize = 0;
    while i < ca.len()
        invariant
            i <= ca.len(),
            ca.len() == cb.len(),
            ca@ == a@,
            cb@ == b@,
            forall|j: int| 0 <= j < i ==> ca@[j] == cb@[j],
        decreases ca.len() - i,
    {
        if ca[i] != cb[i] {
            return false;
        }
        i += 1;
    }
    assert(ca@ =~= cb@);
    true
}

fn string_of_chars(cs: &Vec<char>) -> (r: String)
    ensures
        r@ == cs@,
{
    let mut out = String::new();
    let mut i: usize = 0;
    while i < cs.len()
        invariant
            i <= cs.len(),
            out@ == cs@.take(i as int),
        decreases cs.len() - i,
    {
        push_char(&mut out, cs[i]);
        i += 1;
        assert(out@ =~= cs@.take(i as int));
    }
    assert(cs@.take(cs.len() as int) =~= cs@);
    out
}

/// A module name.
#[derive(Debug, Clone, PartialEq, Eq, Hash, PartialOrd, Ord)]
pub struct ModuleName(pub String);

/// A name without its module.
#[derive(Debug, Clone, PartialEq, Eq, Hash, PartialOrd, Ord)]
pub struct UnqualName(pub String);

/// A name with its module.
#[derive(Debug, Clone, PartialEq, Eq, Hash, PartialOrd, Ord)]
pub struct QualName {
    pub module: ModuleName,
    pub name: UnqualName,
}

impl UnqualName {
    pub fn as_str(&self) -> (r: &str)
        ensures
            r@ == self.0@,
    {
        self.0.as_str()
    }
}

/// The index of the last `.` of `s`, or `-1`.
pub open spec fn last_dot(s: Seq<char>) -> int
    decreases s.len(),
{
    if s.len() == 0 {
        -1
    } else if s.last() == '.' {
        s.len() - 1
    } else {
        last_dot(s.drop_last())
    }
}

proof fn lemma_last_dot(s: Seq<char>)
    ensures
        -1 <= last_dot(s) < s.len(),
        last_dot(s) >= 0 ==> s[last_dot(s)] == '.',
        forall|i: int| last_dot(s) < i < s.len() ==> s[i] != '.',
    decreases s.len(),
{
    if s.len() > 0 && s.last() != '.' {
        lemma_last_dot(s.drop_last());
        assert forall|i: int| last_dot(s) < i < s.len() implies s[i] != '.' by {
            if i < s.len() - 1 {
                assert(s.drop_last()[i] == s[i]);
            }
        }
    }
}

impl QualName {
    /// Splits `s` at its last `.` into module and name; `None` without a `.`.
    pub fn parse(s: &str) -> (r: Option<QualName>)
        ensures
            last_dot(s@) < 0 ==> r is None,
            last_dot(s@) >= 0 ==> r is Some && r->Some_0.module.0@ == s@.take(last_dot(s@)) && r->Some_0.name.0@
                == s@.skip(last_dot(s@) + 1),
    {
        let cs = str_chars(s);
        proof {
            lemma_last_dot(s@);
        }
        let mut i: usize = cs.len();
        while i > 0 && cs[i - 1] != '.'
            invariant
                i <= cs.len(),
                cs@ == s@,
                forall|j: int| i <= j < cs.len() ==> cs@[j] != '.',
            decreases i,
        {
            i -= 1;
        }
        proof {
            if i > 0 {
                assert(last_dot(s@) >= i - 1) by {
                    if last_dot(s@) < i - 1 {
                        assert(s@[i - 1] != '.');
                    }
                };
                assert(last_dot(s@) == i - 1) by {
                    if last_dot(s@) > i - 1 {
                        assert(s@[last_dot(s@)] == '.');
                    }
                };
            } else {
                assert(last_dot(s@) < 0) by {
                    if last_dot(s@) >= 0 {
                        assert(s@[last_dot(s@)] == '.');
                    }
                };
            }
        }
        if i == 0 {
            return None;
        }
        let mut m: Vec<char> = Vec::new();
        let mut j: usize = 0;
        while j < i - 1
            invariant
                j <= i - 1,
                i <= cs.len(),
                m@ == cs@.take(j as int),
            decreases i - 1 - j,
        {
            m.push(cs[j]);
            j += 1;
            assert(m@ =~= cs@.take(j as int));
        }
        let mut n: Vec<char> = Vec::new();
        let mut k: usize = i;
        while k < cs.len()
            invariant
                i <= k <= cs.len(),
                n@ == cs@.subrange(i as int, k as int),
            decreases cs.len() - k,
        {
            n.push(cs[k]);
            k += 1;
            assert(n@ =~= cs@.subrange(i as int, k as int));
        }
        assert(cs@.subrange(i as int, cs.len() as int) =~= cs@.skip(i as int));
        Some(QualName { module: ModuleName(string_of_chars(&m)), name: UnqualName(string_of_chars(&n)) })
    }

    /// `module.name`.
    pub fn as_key(&self) -> (r: String)
        ensures
            r@ == self.module.0@ + seq!['.'] + self.name.0@,
    {
        let mut out = String::new();
        out.append(self.module.0.as_str());
        push_char(&mut out, '.');
        out.append(self.name.0.as_str());
        assert(out@ =~= self.module.0@ + seq!['.'] + self.name.0@);
        out
    }
}

/// The part of a possibly qualified name after its last `.`.
pub fn unqual_name_last_segment(name: &str) -> (r: String)
    ensures
        r@ == crate::numeric::last_seg(name@),
{
    let cs = str_chars(name);
    let l = crate::numeric::last_ty_seg(&cs);
    string_of_chars(&l)
}

pub open spec fn is_ascii_upper(c: char) -> bool {
    'A' <= c && c <= 'Z'
}

pub open spec fn is_ascii_alnum(c: char) -> bool {
    ('a' <= c && c <= 'z') || ('A' <= c && c <= 'Z') || ('0' <= c && c <= '9')
}

/// An unqualified type constructor name: no `.`, and an upper-case ASCII
/// first letter.
pub open spec fn unqual_ctor_name(n: Seq<char>) -> bool {
    &&& !n.contains('.')
    &&& n.len() > 0
    &&& is_ascii_upper(n[0])
}

/// The first unqualified type constructor name met in `t`, left to right.
pub open spec fn first_unqual_ctor(t: TyV) -> Option<Seq<char>>
    decreases t, 1nat,
{
    match t {
        TyV::Con(n) => if unqual_ctor_name(n) {
            Some(n)
        } else {
            None
        },
        TyV::Var(_) => None,
        TyV::List(a) => first_unqual_ctor(*a),
        TyV::Tuple(ts) => first_unqual_ctor_seq(ts),
        TyV::Record(fs) => first_unqual_ctor_fields(fs),
        TyV::RecordOpen(fs, r) => match first_unqual_ctor_fields(fs) {
            Some(n) => Some(n),
            None => first_unqual_ctor(*r),
        },
        TyV::App(h, args) => match first_unqual_ctor(*h) {
            Some(n) => Some(n),
            None => first_unqual_ctor_seq(args),
        },
        TyV::Func(a, b) => match first_unqual_ctor(*a) {
            Some(n) => Some(n),
            None => first_unqual_ctor(*b),
        },
    }
}

pub open spec fn first_unqual_ctor_seq(ts: Seq<TyV>) -> Option<Seq<char>>
    decreases ts, 0nat,
{
    if ts.len() == 0 {
        None
    } else {
        match first_unqual_ctor_seq(ts.drop_last()) {
            Some(n) => Some(n),
            None => first_unqual_ctor(ts.last()),
        }
    }
}

pub open spec fn first_unqual_ctor_fields(fs: FieldsV) -> Option<Seq<char>>
    decreases fs, 0nat,
{
    if fs.len() == 0 {
        None
    } else {
        match first_unqual_ctor_fields(fs.drop_last()) {
            Some(n) => Some(n),
            None => first_unqual_ctor(fs.last().1),
        }
    }
}

fn is_unqual_ctor_name(n: &String) -> (r: bool)
    ensures
        r == unqual_ctor_name(n@),
{
    let cs = crate::fields::chars_of(n);
    let mut i: usize = 0;
    while i < cs.len()
        invariant
            i <= cs.len(),
            cs@ == n@,
            forall|j: int| 0 <= j < i ==> cs@[j] != '.',
        decreases cs.len() - i,
    {
        if cs[i] == '.' {
            assert(n@.contains('.')) by {
                assert(n@[i as int] == '.');
            }
            return false;
        }
        i += 1;
    }
    assert(!n@.contains('.'));
    cs.len() > 0 && 'A' <= cs[0] && cs[0] <= 'Z'
}

/// The first unqualified type alias named in `t`: types do not record the
/// aliases they were written with, so there is none.
pub fn ty_has_unqualified_type_alias(_t: &Ty) -> (r: Option<&'static str>)
    ensures
        r is None,
{
    None
}

/// The first unqualified type constructor name in `t`, left to right.
pub fn ty_has_unqualified_type_ctor(t: &Ty) -> (r: Option<String>)
    ensures
        match first_unqual_ctor(t@) {
            Some(n) => r is Some && r->Some_0@ == n,
            None => r is None,
        },
    decreases crate::ty::size(t@), 1nat,
{
    match t {
        Ty::Con(name) => {
            if is_unqual_ctor_name(name) {
                Some(name.clone())
            } else {
                None
            }
        },
        Ty::Var(_) => None,
        Ty::List(a) => ty_has_unqualified_type_ctor(a),
        Ty::Tuple(ts) => first_in_vec(ts, Ghost(crate::ty::size(t@))),
        Ty::Record(fs) => first_in_fields(fs, Ghost(crate::ty::size(t@))),
        Ty::RecordOpen(fs, r) => match first_in_fields(fs, Ghost(crate::ty::size(t@))) {
            Some(n) => Some(n),
            None => ty_has_unqualified_type_ctor(r),
        },
        Ty::App { head, args } => match ty_has_unqualified_type_ctor(head) {
            Some(n) => Some(n),
            None => first_in_vec(args, Ghost(crate::ty::size(t@))),
        },
        Ty::Func(a, b) => match ty_has_unqualified_type_ctor(a) {
            Some(n) => Some(n),
            None => ty_has_unqualified_type_ctor(b),
        },
    }
}

proof fn lemma_first_seq_prefix(ts: Seq<TyV>, i: int)
    requires
        0 <= i <= ts.len(),
        first_unqual_ctor_seq(ts.take(i)) is Some,
    ensures
        first_unqual_ctor_seq(ts) == first_unqual_ctor_seq(ts.take(i)),
    decreases ts.len() - i,
{
    if i < ts.len() {
        assert(ts.take(i + 1).drop_last() =~= ts.take(i));
        lemma_first_seq_prefix(ts, i + 1);
    } else {
        assert(ts.take(i) =~= ts);
    }
}

proof fn lemma_first_fields_prefix(fs: FieldsV, i: int)
    requires
        0 <= i <= fs.len(),
        first_unqual_ctor_fields(fs.take(i)) is Some,
    ensures
        first_unqual_ctor_fields(fs) == first_unqual_ctor_fields(fs.take(i)),
    decreases fs.len() - i,
{
    if i < fs.len() {
        assert(fs.take(i + 1).drop_last() =~= fs.take(i));
        lemma_first_fields_prefix(fs, i + 1);
    } else {
        assert(fs.take(i) =~= fs);
    }
}

fn first_in_vec(ts: &Vec<Ty>, Ghost(bound): Ghost<nat>) -> (r: Option<String>)
    requires
        crate::ty::sizes(view_seq(ts@)) < bound,
    ensures
        match first_unqual_ctor_seq(view_seq(ts@)) {
            Some(n) => r is Some && r->Some_0@ == n,
            None => r is None,
        },
    decreases bound, 0nat,
{
    let ghost vs = view_seq(ts@);
    proof {
        lemma_view_seq(ts@);
    }
    let mut i: usize = 0;
    assert(vs.take(0) =~= Seq::<TyV>::empty());
    while i < ts.len()
        invariant
            i <= ts.len(),
            vs == view_seq(ts@),
            vs.len() == ts.len(),
            forall|j: int| 0 <= j < ts.len() ==> #[trigger] vs[j] == ts@[j]@,
            crate::ty::sizes(vs) < bound,
            first_unqual_ctor_seq(vs.take(i as int)) is None,
        decreases ts.len() - i,
    {
        proof {
            crate::ty::lemma_sizes_elem(vs, i as int);
            assert(vs.take(i + 1).drop_last() =~= vs.take(i as int));
            assert(vs.take(i + 1).last() == vs[i as int]);
        }
        let r = ty_has_unqualified_type_ctor(&ts[i]);
        if r.is_some() {
            proof {
                lemma_first_seq_prefix(vs, i + 1);
            }
            return r;
        }
        i += 1;
    }
    assert(vs.take(ts.len() as int) =~= vs);
    None
}

fn first_in_fields(fs: &Vec<(String, Ty)>, Ghost(bound): Ghost<nat>) -> (r: Option<String>)
    requires
        crate::ty::field_sizes(view_fields(fs@)) < bound,
    ensures
        match first_unqual_ctor_fields(view_fields(fs@)) {
            Some(n) => r is Some && r->Some_0@ == n,
            None => r is None,
        },
    decreases bound, 0nat,
{
    let ghost vs = view_fields(fs@);
    proof {
        lemma_view_fields(fs@);
    }
    let mut i: usize = 0;
    assert(vs.take(0) =~= FieldsV::empty());
    while i < fs.len()
        invariant
            i <= fs.len(),
            vs == view_fields(fs@),
            vs.len() == fs.len(),
            forall|j: int| 0 <= j < fs.len() ==> #[trigger] vs[j] == (fs@[j].0@, fs@[j].1@),
            crate::ty::field_sizes(vs) < bound,
            first_unqual_ctor_fields(vs.take(i as int)) is None,
        decreases fs.len() - i,
    {
        proof {
            crate::ty::lemma_field_sizes_elem(vs, i as int);
            assert(vs.take(i + 1).drop_last() =~= vs.take(i as int));
            assert(vs.take(i + 1).last() == vs[i as int]);
        }
        assert(vs[i as int].1 == fs@[i as int].1@);
        let r = ty_has_unqualified_type_ctor(&fs[i].1);
        if r.is_some() {
            proof {
                lemma_first_fields_prefix(vs, i + 1);
            }
            return r;
        }
        i += 1;
    }
    assert(vs.take(fs.len() as int) =~= vs);
    None
}

/// `t` is `[Char]`.
pub fn ty_has_list_char(t: &Ty) -> (r: bool)
    ensures
        r == (t@ == TyV::List(Box::new(TyV::Con("Char"@)))),
{
    match t {
        Ty::List(inner) => match &**inner {
            Ty::Con(c) => {
                let ch = String::from_str("Char");
                assert(ch@ == "Char"@);
                let r = *c == ch;
                assert(r == ((**inner)@ == TyV::Con("Char"@)));
                r
            },
            _ => false,
        },
        _ => false,
    }
}

/// The name of the data type at the head of `t`: a constructor, or the
/// constructor applied.
pub open spec fn adt_head(t: TyV) -> Option<Seq<char>> {
    match t {
        TyV::Con(n) => Some(n),
        TyV::App(h, _) => match *h {
            TyV::Con(n) => Some(n),
            _ => None,
        },
        _ => None,
    }
}

pub fn adt_head_type_name(scrut_ty: &Ty) -> (r: Option<String>)
    ensures
        match adt_head(scrut_ty@) {
            Some(n) => r is Some && r->Some_0@ == n,
            None => r is None,
        },
{
    match scrut_ty {
        Ty::Con(n) => {
            assert(adt_head(scrut_ty@) == Some(n@));
            Some(n.clone())
        },
        Ty::App { head, .. } => match &**head {
            Ty::Con(n) => {
                assert(adt_head(scrut_ty@) == Some(n@));
                Some(n.clone())
            },
            _ => {
                assert(!((**head)@ is Con));
                None
            },
        },
        _ => None,
    }
}

/// Types whose values `show` without an instance.
pub fn show_primitives(name: &str) -> (r: bool)
    ensures
        r == (name@ == "Integer"@ || name@ == "Bool"@ || name@ == "Char"@ || name@ == "Unit"@),
{
    str_eq(name, "Integer") || str_eq(name, "Bool") || str_eq(name, "Char") || str_eq(name, "Unit")
}

/// Types whose values compare without an instance.
pub fn eq_primitives(name: &str) -> (r: bool)
    ensures
        r == (name@ == "Integer"@ || name@ == "Bool"@ || name@ == "Char"@ || name@ == "Unit"@ || name@
            == "Float64"@),
{
    str_eq(name, "Integer") || str_eq(name, "Bool") || str_eq(name, "Char") || str_eq(name, "Unit") || str_eq(
        name,
        "Float64",
    )
}

/// Library types known to derive `Show`.
pub fn stdlib_derives_show(ty_name: &str) -> (r: bool)
    ensures
        r == (ty_name@ == "Rational"@),
{
    str_eq(ty_name, "Rational")
}

/// Library types known to derive `Eq`.
pub fn stdlib_derives_eq(ty_name: &str) -> (r: bool)
    ensures
        r == (ty_name@ == "Rational"@),
{
    str_eq(ty_name, "Rational")
}

/// The name of the dictionary parameter for a class.
pub fn dict_param_name(class: &str) -> (r: String)
    ensures
        r@ == "__dict_"@ + class@,
{
    let mut out = String::from_str("__dict_");
    out.append(class);
    out
}

/// The name of the `i`-th context dictionary parameter.
pub fn ctx_param_name(i: usize) -> (r: String)
    ensures
        r@ == "__ctx_dict_"@ + decimal(i as nat),
{
    let mut out = String::from_str("__ctx_dict_");
    write_decimal(&mut out, i as u64);
    out
}


/// The readable names given to operators.
pub open spec fn special_op_name(s: Seq<char>) -> Option<Seq<char>> {
    if s == "+"@ {
        Some("plus"@)
    } else if s == "-"@ {
        Some("minus"@)
    } else if s == "*"@ {
        Some("times"@)
    } else if s == "/"@ {
        Some("div"@)
    } else if s == "=="@ {
        Some("eq"@)
    } else if s == "/="@ {
        Some("ne"@)
    } else if s == "<"@ {
        Some("lt"@)
    } else if s == "<="@ {
        Some("le"@)
    } else if s == ">"@ {
        Some("gt"@)
    } else if s == ">="@ {
        Some("ge"@)
    } else if s == "&&"@ {
        Some("and"@)
    } else if s == "||"@ {
        Some("or"@)
    } else if s == "++"@ {
        Some("append"@)
    } else if s == ">>"@ {
        Some("then"@)
    } else if s == ">>="@ {
        Some("bind"@)
    } else if s == "<$>"@ {
        Some("fmap"@)
    } else if s == "<*>"@ {
        Some("ap"@)
    } else if s == "<*"@ {
        Some("apLeft"@)
    } else if s == "*>"@ {
        Some("apRight"@)
    } else if s == "."@ {
        Some("compose"@)
    } else if s == "$"@ {
        Some("apply"@)
    } else if s == "<>"@ {
        Some("mappend"@)
    } else if s == "<->"@ {
        Some("diff"@)
    } else if s == "=<<"@ {
        Some("bindFlipped"@)
    } else if s == "+^"@ {
        Some("addOp"@)
    } else if s == "-^"@ {
        Some("subOp"@)
    } else if s == "*^"@ {
        Some("mulOp"@)
    } else if s == "/^"@ {
        Some("divOp"@)
    } else if s == "&"@ {
        Some("ampersand"@)
    } else {
        None
    }
}

fn special_op_name_exec(s: &str) -> (r: Option<String>)
    ensures
        match special_op_name(s@) {
            Some(n) => r is Some && r->Some_0@ == n,
            None => r is None,
        },
{
    if str_eq(s, "+") {
        return Some(String::from_str("plus"));
    }
    if str_eq(s, "-") {
        return Some(String::from_str("minus"));
    }
    if str_eq(s, "*") {
        return Some(String::from_str("times"));
    }
    if str_eq(s, "/") {
        return Some(String::from_str("div"));
    }
    if str_eq(s, "==") {
        return Some(String::from_str("eq"));
    }
    if str_eq(s, "/=") {
        return Some(String::from_str("ne"));
    }
    if str_eq(s, "<") {
        return Some(String::from_str("lt"));
    }
    if str_eq(s, "<=") {
        return Some(String::from_str("le"));
    }
    if str_eq(s, ">") {
        return Some(String::from_str("gt"));
    }
    if str_eq(s, ">=") {
        return Some(String::from_str("ge"));
    }
    if str_eq(s, "&&") {
        return Some(String::from_str("and"));
    }
    if str_eq(s, "||") {
        return Some(String::from_str("or"));
    }
    if str_eq(s, "++") {
        return Some(String::from_str("append"));
    }
    if str_eq(s, ">>") {
        return Some(String::from_str("then"));
    }
    if str_eq(s, ">>=") {
        return Some(String::from_str("bind"));
    }
    if str_eq(s, "<$>") {
        return Some(String::from_str("fmap"));
    }
    if str_eq(s, "<*>") {
        return Some(String::from_str("ap"));
    }
    if str_eq(s, "<*") {
        return Some(String::from_str("apLeft"));
    }
    if str_eq(s, "*>") {
        return Some(String::from_str("apRight"));
    }
    if str_eq(s, ".") {
        return Some(String::from_str("compose"));
    }
    if str_eq(s, "$") {
        return Some(String::from_str("apply"));
    }
    if str_eq(s, "<>") {
        return Some(String::from_str("mappend"));
    }
    if str_eq(s, "<->") {
        return Some(String::from_str("diff"));
    }
    if str_eq(s, "=<<") {
        return Some(String::from_str("bindFlipped"));
    }
    if str_eq(s, "+^") {
        return Some(String::from_str("addOp"));
    }
    if str_eq(s, "-^") {
        return Some(String::from_str("subOp"));
    }
    if str_eq(s, "*^") {
        return Some(String::from_str("mulOp"));
    }
    if str_eq(s, "/^") {
        return Some(String::from_str("divOp"));
    }
    if str_eq(s, "&") {
        return Some(String::from_str("ampersand"));
    }
    None
}

pub open spec fn hex_digit_of(d: nat) -> char {
    if d < 10 {
        (48 + d) as char
    } else {
        (87 + d) as char
    }
}

/// Lowercase hexadecimal digits of `n`, without leading zeros.
pub open spec fn hex_nat(n: nat) -> Seq<char>
    decreases n,
{
    if n < 16 {
        seq![hex_digit_of(n)]
    } else {
        hex_nat(n / 16).push(hex_digit_of(n % 16))
    }
}

/// An ASCII letter or digit stays; any other character becomes `_` and its
/// code in hexadecimal.
pub open spec fn mangle_char(c: char) -> Seq<char> {
    if is_ascii_alnum(c) {
        seq![c]
    } else {
        seq!['_'] + hex_nat((c as u32) as nat)
    }
}

pub open spec fn mangle_chars(s: Seq<char>) -> Seq<char>
    decreases s.len(),
{
    if s.len() == 0 {
        Seq::empty()
    } else {
        mangle_chars(s.drop_last()) + mangle_char(s.last())
    }
}

/// An identifier for a name: the readable name of an operator, or the name
/// with each character mangled.
pub open spec fn mangle_spec(s: Seq<char>) -> Seq<char> {
    match special_op_name(s) {
        Some(n) => n,
        None => mangle_chars(s),
    }
}

fn write_hex(out: &mut String, n: u32)
    ensures
        final(out)@ == old(out)@ + hex_nat(n as nat),
    decreases n,
{
    if n >= 16 {
        write_hex(out, n / 16);
    }
    let d: u8 = (n % 16) as u8;
    let c = if d < 10 {
        (48u8 + d) as char
    } else {
        (87u8 + d) as char
    };
    push_char(out, c);
    assert(out@ =~= old(out)@ + hex_nat(n as nat));
}

/// An identifier for a name.
pub fn mangle_ident(s: &str) -> (r: String)
    ensures
        r@ == mangle_spec(s@),
{
    if let Some(n) = special_op_name_exec(s) {
        return n;
    }
    let cs = str_chars(s);
    let mut out = String::new();
    let mut i: usize = 0;
    assert(cs@.take(0) =~= Seq::<char>::empty());
    while i < cs.len()
        invariant
            i <= cs.len(),
            cs@ == s@,
            out@ == mangle_chars(cs@.take(i as int)),
        decreases cs.len() - i,
    {
        let ch = cs[i];
        if ('a' <= ch && ch <= 'z') || ('A' <= ch && ch <= 'Z') || ('0' <= ch && ch <= '9') {
            push_char(&mut out, ch);
        } else {
            push_char(&mut out, '_');
            write_hex(&mut out, ch as u32);
        }
        proof {
            assert(cs@.take(i + 1).drop_last() =~= cs@.take(i as int));
            assert(cs@.take(i + 1).last() == ch);
            assert(out@ =~= mangle_chars(cs@.take(i + 1)));
        }
        i += 1;
    }
    assert(cs@.take(cs.len() as int) =~= cs@);
    out
}

/// The field holding a superclass dictionary.
pub fn super_field_name(class: &str) -> (r: String)
    ensures
        r@ == "__super_"@ + mangle_spec(class@),
{
    let mut out = String::from_str("__super_");
    let m = mangle_ident(class);
    out.append(m.as_str());
    out
}

/// Whether `alts` holds the text `a`.
fn has_alt(alts: &[String], a: &str) -> (r: bool)
    ensures
        r == alts@.map_values(|x: String| x@).contains(a@),
{
    let ghost av = alts@.map_values(|x: String| x@);
    let mut i: usize = 0;
    while i < alts.len()
        invariant
            i <= alts.len(),
            av == alts@.map_values(|x: String| x@),
            forall|j: int| 0 <= j < i ==> av[j] != a@,
        decreases alts.len() - i,
    {
        if str_eq(alts[i].as_str(), a) {
            assert(av[i as int] == a@);
            return true;
        }
        i += 1;
    }
    false
}

/// What a `case` on a value of a primitive type covers: `None` where the
/// type is not one this check knows; otherwise whether the alternatives are
/// exhaustive, with the error text where not.
pub open spec fn case_primitive_check(t: TyV, alts: Seq<Seq<char>>) -> Option<Result<(), Seq<char>>> {
    match t {
        TyV::Con(n) => if n == "Bool"@ {
            Some(
                if alts.contains("bool:true"@) && alts.contains("bool:false"@) {
                    Ok(())
                } else {
                    Err("non-exhaustive case: missing Bool branch (add `_ -> ...`)"@)
                },
            )
        } else if n == "Unit"@ {
            Some(
                if alts.contains("unit"@) {
                    Ok(())
                } else {
                    Err("non-exhaustive case on Unit (add `_ -> ...`)"@)
                },
            )
        } else if n == "Integer"@ || n == "Float64"@ || n == "Char"@ {
            Some(Err("non-exhaustive case on "@ + n + " (add `_ -> ...`)"@))
        } else {
            None
        },
        TyV::List(_) => Some(
            if alts.contains("list:nil"@) && alts.contains("list:cons_all"@) {
                Ok(())
            } else {
                Err("non-exhaustive case on List: missing `[]` or `(_:_)` (add `_ -> ...`)"@)
            },
        ),
        TyV::Var(_) => Some(Ok(())),
        _ => None,
    }
}

/// Checks a `case` on a value of a primitive type for exhaustiveness.
pub fn check_case_primitive_exhaustive(scrut_ty: &Ty, alts: &[String]) -> (r: Result<Option<Result<(), String>>, String>)
    ensures
        r is Ok,
        match case_primitive_check(scrut_ty@, alts@.map_values(|x: String| x@)) {
            None => r->Ok_0 is None,
            Some(Ok(_)) => r->Ok_0 == Some(Ok::<(), String>(())),
            Some(Err(m)) => r->Ok_0 is Some && r->Ok_0->Some_0 is Err && r->Ok_0->Some_0->Err_0@ == m,
        },
{
    match scrut_ty {
        Ty::Con(name) => {
            if str_eq(name.as_str(), "Bool") {
                let t = has_alt(alts, "bool:true");
                let f = has_alt(alts, "bool:false");
                return Ok(Some(if t && f {
                    Ok(())
                } else {
                    Err(String::from_str("non-exhaustive case: missing Bool branch (add `_ -> ...`)"))
                }));
            }
            if str_eq(name.as_str(), "Unit") {
                return Ok(Some(if has_alt(alts, "unit") {
                    Ok(())
                } else {
                    Err(String::from_str("non-exhaustive case on Unit (add `_ -> ...`)"))
                }));
            }
            if str_eq(name.as_str(), "Integer") || str_eq(name.as_str(), "Float64") || str_eq(name.as_str(), "Char") {
                let mut m = String::from_str("non-exhaustive case on ");
                m.append(name.as_str());
                m.append(" (add `_ -> ...`)");
                return Ok(Some(Err(m)));
            }
            Ok(None)
        },
        Ty::List(_) => {
            let n = has_alt(alts, "list:nil");
            let c = has_alt(alts, "list:cons_all");
            Ok(Some(if n && c {
                Ok(())
            } else {
                Err(String::from_str("non-exhaustive case on List: missing `[]` or `(_:_)` (add `_ -> ...`)"))
            }))
        },
        Ty::Var(_) => Ok(Some(Ok(()))),
        _ => Ok(None),
    }
}


/// Inserts `x` before the first name greater than it.
pub open spec fn insert_name(s: Seq<Seq<char>>, x: Seq<char>) -> Seq<Seq<char>>
    decreases s.len(),
{
    if s.len() == 0 {
        seq![x]
    } else if crate::fields::key_lt(x, s[0]) {
        seq![x] + s
    } else {
        seq![s[0]] + insert_name(s.drop_first(), x)
    }
}

/// The names in increasing order.
pub open spec fn sort_names(s: Seq<Seq<char>>) -> Seq<Seq<char>>
    decreases s.len(),
{
    if s.len() == 0 {
        s
    } else {
        insert_name(sort_names(s.drop_last()), s.last())
    }
}

pub open spec fn string_views(v: Seq<String>) -> Seq<Seq<char>> {
    v.map_values(|x: String| x@)
}

fn insert_name_vec(v: &mut Vec<String>, x: String)
    ensures
        string_views(final(v)@) == insert_name(string_views(old(v)@), x@),
{
    let ghost s = string_views(v@);
    let mut p: usize = 0;
    assert(s.skip(0) =~= s);
    assert(s.take(0) + insert_name(s, x@) =~= insert_name(s, x@));
    let mut done = false;
    while p < v.len() && !done
        invariant
            p <= v.len(),
            s == string_views(v@),
            insert_name(s, x@) == s.take(p as int) + insert_name(s.skip(p as int), x@),
            done ==> p < v.len() && crate::fields::key_lt(x@, s[p as int]),
        decreases v.len() - p, if done { 0int } else { 1int },
    {
        if crate::fields::name_lt(&x, &v[p]) {
            done = true;
        } else {
            let ghost sp = s.skip(p as int);
            assert(sp[0] == s[p as int]);
            assert(sp.drop_first() =~= s.skip(p + 1));
            assert(s.take(p + 1) + insert_name(s.skip(p + 1), x@) =~= s.take(p as int) + (seq![s[p as int]]
                + insert_name(s.skip(p + 1), x@)));
            p += 1;
        }
    }
    proof {
        if p < v.len() {
            assert(s.skip(p as int)[0] == s[p as int]);
        } else {
            assert(s.skip(p as int) =~= Seq::<Seq<char>>::empty());
        }
    }
    let ghost xv = x@;
    v.insert(p, x);
    assert(string_views(v@) =~= s.take(p as int) + insert_name(s.skip(p as int), xv));
}

/// Orders the alternatives and keeps each once.
pub fn normalize_string_alts(alts: &mut Vec<String>)
    ensures
        string_views(final(alts)@) == crate::instance::dedup_adj(sort_names(string_views(old(alts)@))),
{
    let ghost s0 = string_views(alts@);
    let mut sorted: Vec<String> = Vec::new();
    let mut i: usize = 0;
    assert(s0.take(0) =~= Seq::<Seq<char>>::empty());
    assert(string_views(sorted@) =~= Seq::<Seq<char>>::empty());
    while i < alts.len()
        invariant
            i <= alts.len(),
            s0 == string_views(alts@),
            string_views(sorted@) == sort_names(s0.take(i as int)),
        decreases alts.len() - i,
    {
        assert(s0.take(i + 1).drop_last() =~= s0.take(i as int));
        assert(s0[i as int] == alts@[i as int]@);
        insert_name_vec(&mut sorted, alts[i].clone());
        i += 1;
    }
    assert(s0.take(alts.len() as int) =~= s0);
    let ghost ss = string_views(sorted@);
    let mut out: Vec<String> = Vec::new();
    let mut j: usize = 0;
    assert(ss.take(0) =~= Seq::<Seq<char>>::empty());
    assert(string_views(out@) =~= Seq::<Seq<char>>::empty());
    while j < sorted.len()
        invariant
            j <= sorted.len(),
            ss == string_views(sorted@),
            string_views(out@) == crate::instance::dedup_adj(ss.take(j as int)),
        decreases sorted.len() - j,
    {
        let ghost t1 = ss.take(j + 1);
        proof {
            assert(t1.drop_last() =~= ss.take(j as int));
            assert(t1.last() == ss[j as int]);
            if j > 0 {
                assert(t1[j - 1] == ss[j - 1]);
            }
        }
        if j == 0 || sorted[j] != sorted[j - 1] {
            let ghost before = out@;
            out.push(sorted[j].clone());
            proof {
                if j == 0 {
                    assert(crate::instance::dedup_adj(t1) =~= t1);
                }
                assert(string_views(out@) =~= string_views(before).push(ss[j as int]));
            }
        }
        j += 1;
    }
    assert(ss.take(sorted.len() as int) =~= ss);
    *alts = out;
}

} // verus!
