//! Qualified references `Q.name`: the qualifiers a module may use, and the
//! check that a reference uses one of them.
use vstd::prelude::*;
use crate::fields::{key_lt, name_lt};
use crate::names::{str_chars, string_views};
use crate::display::push_char;

verus! {

/// Each name comes before the next in character order.
pub open spec fn strictly_increasing(s: Seq<Seq<char>>) -> bool {
    forall|i: int, j: int| 0 <= i < j < s.len() ==> key_lt(#[trigger] s[i], #[trigger] s[j])
}

pub proof fn lemma_key_lt_irreflexive(a: Seq<char>)
    ensures
        !key_lt(a, a),
    decreases a.len(),
{
    if a.len() > 0 {
        lemma_key_lt_irreflexive(a.drop_first());
    }
}

pub proof fn lemma_key_lt_transitive(a: Seq<char>, b: Seq<char>, c: Seq<char>)
    requires
        key_lt(a, b),
        key_lt(b, c),
    ensures
        key_lt(a, c),
    decreases a.len(),
{
    if a.len() > 0 && b.len() > 0 && c.len() > 0 && a[0] == b[0] && b[0] == c[0] {
        lemma_key_lt_transitive(a.drop_first(), b.drop_first(), c.drop_first());
    }
}

pub proof fn lemma_key_lt_total(a: Seq<char>, b: Seq<char>)
    requires
        a != b,
    ensures
        key_lt(a, b) || key_lt(b, a),
    decreases a.len(),
{
    if a.len() > 0 && b.len() > 0 {
        if a[0] == b[0] {
            if a.drop_first() == b.drop_first() {
                assert(a =~= seq![a[0]] + a.drop_first());
                assert(b =~= seq![b[0]] + b.drop_first());
            }
            lemma_key_lt_total(a.drop_first(), b.drop_first());
        } else {
            assert(a[0] != b[0]);
        }
    } else if a.len() == 0 && b.len() == 0 {
        assert(a =~= b);
    }
}

/// The qualifiers that references in a module may use: the module's own
/// name, its imports and their local names.
pub struct QualEnv {
    allowed: Vec<String>,
    local_to_module: Vec<(String, String)>,
}

/// The module a local qualifier stands for: its last mapping.
pub open spec fn canonical_of(m: Seq<(Seq<char>, Seq<char>)>, q: Seq<char>) -> Option<Seq<char>>
    decreases m.len(),
{
    if m.len() == 0 {
        None
    } else if m.last().0 == q {
        Some(m.last().1)
    } else {
        canonical_of(m.drop_last(), q)
    }
}

pub open spec fn pair_views(m: Seq<(String, String)>) -> Seq<(Seq<char>, Seq<char>)> {
    m.map_values(|e: (String, String)| (e.0@, e.1@))
}

impl QualEnv {
    /// The qualifiers, in increasing order.
    pub closed spec fn qualifiers(&self) -> Seq<Seq<char>> {
        string_views(self.allowed@)
    }

    /// Each local qualifier mapped to the canonical name of its module, in
    /// the order the mappings were made (a later one for the same qualifier
    /// replaces an earlier one).
    pub closed spec fn module_map(&self) -> Seq<(Seq<char>, Seq<char>)> {
        pair_views(self.local_to_module@)
    }

    #[verifier::type_invariant]
    closed spec fn sorted(&self) -> bool {
        strictly_increasing(self.qualifiers())
    }

    /// An environment that allows no qualifier.
    pub fn new() -> (r: QualEnv)
        ensures
            r.qualifiers() == Seq::<Seq<char>>::empty(),
            r.module_map() == Seq::<(Seq<char>, Seq<char>)>::empty(),
            strictly_increasing(r.qualifiers()),
    {
        let r = QualEnv { allowed: Vec::new(), local_to_module: Vec::new() };
        assert(r.qualifiers() =~= Seq::<Seq<char>>::empty());
        assert(r.module_map() =~= Seq::<(Seq<char>, Seq<char>)>::empty());
        r
    }

    /// Maps the local qualifier `local` to the module named `module`.
    pub fn map_qualifier(&mut self, local: String, module: String)
        ensures
            final(self).qualifiers() == old(self).qualifiers(),
            final(self).module_map() == old(self).module_map().push((local@, module@)),
    {
        proof {
            use_type_invariant(&*self);
        }
        let ghost m0 = self.module_map();
        let e = (local, module);
        let mut v: Vec<(String, String)> = Vec::new();
        std::mem::swap(&mut v, &mut self.local_to_module);
        assert(pair_views(v@) == m0);
        v.push(e);
        self.local_to_module = v;
        assert(self.module_map() =~= m0.push((e.0@, e.1@)));
    }

    /// The module that the local qualifier `q` stands for.
    pub fn canonical_module(&self, q: &str) -> (r: Option<&String>)
        ensures
            match canonical_of(self.module_map(), q@) {
                Some(m) => r is Some && r->Some_0@ == m,
                None => r is None,
            },
    {
        let ghost mv = self.module_map();
        let mut i: usize = self.local_to_module.len();
        assert(mv.take(i as int) =~= mv);
        while i > 0
            invariant
                i <= self.local_to_module.len(),
                mv == self.module_map(),
                canonical_of(mv, q@) == canonical_of(mv.take(i as int), q@),
            decreases i,
        {
            assert(mv.take(i as int).drop_last() =~= mv.take(i - 1));
            assert(mv.take(i as int).last() == mv[i - 1]);
            if crate::names::str_eq(self.local_to_module[i - 1].0.as_str(), q) {
                return Some(&self.local_to_module[i - 1].1);
            }
            i -= 1;
        }
        assert(mv.take(0) =~= Seq::<(Seq<char>, Seq<char>)>::empty());
        None
    }

    /// Allows the qualifier `q`.
    pub fn allow(&mut self, q: String)
        ensures
            final(self).qualifiers().to_set() == old(self).qualifiers().to_set().insert(q@),
            strictly_increasing(final(self).qualifiers()),
            final(self).module_map() == old(self).module_map(),
    {
        proof {
            use_type_invariant(&*self);
        }
        let ghost s = self.qualifiers();
        let mut v: Vec<String> = Vec::new();
        std::mem::swap(&mut v, &mut self.allowed);
        assert(string_views(v@) == s);
        let mut p: usize = 0;
        while p < v.len() && name_lt(&v[p], &q)
            invariant
                p <= v.len(),
                string_views(v@) == s,
                strictly_increasing(s),
                forall|i: int| 0 <= i < p ==> key_lt(#[trigger] s[i], q@),
            decreases v.len() - p,
        {
            assert(s[p as int] == v@[p as int]@);
            p += 1;
        }
        if p < v.len() && v[p] == q {
            self.allowed = v;
            proof {
                assert(s[p as int] == q@);
                assert(s.to_set() =~= s.to_set().insert(q@));
            }
            return;
        }
        proof {
            if p < v.len() {
                assert(s[p as int] == v@[p as int]@);
                assert(!key_lt(s[p as int], q@));
                assert(s[p as int] != q@);
                lemma_key_lt_total(s[p as int], q@);
            }
        }
        let ghost qv = q@;
        v.insert(p, q);
        let ghost t = string_views(v@);
        proof {
            assert(t =~= s.take(p as int).push(qv) + s.skip(p as int));
            assert forall|i: int, j: int| 0 <= i < j < t.len() implies key_lt(#[trigger] t[i], #[trigger] t[j]) by {
                if j < p {
                    assert(t[i] == s[i] && t[j] == s[j]);
                } else if j == p {
                    assert(t[i] == s[i] && t[j] == qv);
                } else if i == p {
                    assert(t[j] == s[j - 1]);
                    if j - 1 > p {
                        assert(key_lt(s[p as int], s[j - 1]));
                        lemma_key_lt_transitive(qv, s[p as int], s[j - 1]);
                    }
                } else if i < p {
                    assert(t[i] == s[i] && t[j] == s[j - 1]);
                    lemma_key_lt_transitive(s[i], qv, s[p as int]);
                    if j - 1 > p {
                        lemma_key_lt_transitive(s[i], s[p as int], s[j - 1]);
                    }
                } else {
                    assert(t[i] == s[i - 1] && t[j] == s[j - 1]);
                }
            }
            assert forall|x: Seq<char>| t.to_set().contains(x) <==> s.to_set().insert(qv).contains(x) by {
                if t.to_set().contains(x) {
                    let k = choose|k: int| 0 <= k < t.len() && t[k] == x;
                    if k < p {
                        assert(s[k] == x);
                    } else if k > p {
                        assert(s[k - 1] == x);
                    }
                }
                if s.to_set().contains(x) {
                    let k = choose|k: int| 0 <= k < s.len() && s[k] == x;
                    if k < p {
                        assert(t[k] == x);
                    } else {
                        assert(t[k + 1] == x);
                    }
                }
                if x == qv {
                    assert(t[p as int] == qv);
                }
            }
            assert(t.to_set() =~= s.to_set().insert(qv));
        }
        self.allowed = v;
    }
}

/// The position of the last `.` in `s`.
pub open spec fn last_dot(s: Seq<char>) -> Option<int>
    decreases s.len(),
{
    if s.len() == 0 {
        None
    } else if s.last() == '.' {
        Some(s.len() - 1)
    } else {
        last_dot(s.drop_last())
    }
}

/// The names joined with `", "` between them.
pub open spec fn join_comma(ks: Seq<Seq<char>>) -> Seq<char>
    decreases ks.len(),
{
    if ks.len() == 0 {
        Seq::empty()
    } else if ks.len() == 1 {
        ks[0]
    } else {
        join_comma(ks.drop_last()) + ", "@ + ks.last()
    }
}

/// The error for a reference `name` whose qualifier `q` is not allowed; it
/// lists the allowed qualifiers in order.
pub open spec fn unknown_qualifier_message(q: Seq<char>, name: Seq<char>, quals: Seq<Seq<char>>) -> Seq<char> {
    "unknown qualifier "@ + q + " in "@ + name + " (allowed: "@ + join_comma(quals) + ")"@
}

/// A reference `name` keeps its text; it is refused when the part before
/// its last `.` and the part after are both nonempty and that qualifier is
/// not among `quals`.
pub open spec fn desugar_spec(name: Seq<char>, quals: Seq<Seq<char>>) -> Result<Seq<char>, Seq<char>> {
    match last_dot(name) {
        Some(i) => {
            let q = name.take(i);
            let m = name.skip(i + 1);
            if q.len() > 0 && m.len() > 0 && !quals.contains(q) {
                Err(unknown_qualifier_message(q, name, quals))
            } else {
                Ok(name)
            }
        },
        None => Ok(name),
    }
}

/// A reference that is accepted is kept as it was written.
pub proof fn law_desugar_keeps_name(name: Seq<char>, quals: Seq<Seq<char>>)
    ensures
        desugar_spec(name, quals) is Ok ==> desugar_spec(name, quals) == Ok::<Seq<char>, Seq<char>>(name),
{
}

/// Once its qualifier is allowed, a qualified reference is accepted.
pub proof fn law_allowed_qualifier_accepted(name: Seq<char>, quals: Seq<Seq<char>>, i: int)
    requires
        last_dot(name) == Some(i),
        quals.contains(name.take(i)),
    ensures
        desugar_spec(name, quals) == Ok::<Seq<char>, Seq<char>>(name),
{
}

proof fn lemma_last_dot_range(s: Seq<char>)
    ensures
        last_dot(s) matches Some(i) ==> 0 <= i < s.len() && s[i] == '.',
    decreases s.len(),
{
    if s.len() > 0 {
        lemma_last_dot_range(s.drop_last());
    }
}

/// Checks that a qualified reference uses an allowed qualifier.
pub fn desugar_qualified_ref(name: &str, env: &QualEnv) -> (r: Result<String, String>)
    ensures
        match r {
            Ok(s) => desugar_spec(name@, env.qualifiers()) == Ok::<Seq<char>, Seq<char>>(s@),
            Err(e) => desugar_spec(name@, env.qualifiers()) == Err::<Seq<char>, Seq<char>>(e@),
        },
        strictly_increasing(env.qualifiers()),
{
    proof {
        use_type_invariant(env);
    }
    let chars = str_chars(name);
    let ghost s = name@;
    let mut i: usize = chars.len();
    assert(s.take(i as int) =~= s);
    while i > 0 && chars[i - 1] != '.'
        invariant
            i <= chars.len(),
            chars@ == s,
            last_dot(s) == last_dot(s.take(i as int)),
        decreases i,
    {
        assert(s.take(i as int).drop_last() =~= s.take(i - 1));
        i -= 1;
    }
    if i == 0 {
        assert(s.take(0) =~= Seq::<char>::empty());
        return Ok(String::from_str(name));
    }
    let dot = i - 1;
    assert(last_dot(s) == Some(dot as int));
    if dot == 0 || dot + 1 == chars.len() {
        return Ok(String::from_str(name));
    }
    let mut q = String::new();
    let mut k: usize = 0;
    while k < dot
        invariant
            k <= dot,
            dot < chars.len(),
            chars@ == s,
            q@ == s.take(k as int),
        decreases dot - k,
    {
        push_char(&mut q, chars[k]);
        k += 1;
        assert(q@ =~= s.take(k as int));
    }
    let ghost quals = env.qualifiers();
    let mut j: usize = 0;
    let mut found = false;
    while j < env.allowed.len() && !found
        invariant
            j <= env.allowed.len(),
            quals == string_views(env.allowed@),
            quals == env.qualifiers(),
            found ==> quals.contains(q@),
            !found ==> forall|x: int| 0 <= x < j ==> quals[x] != q@,
        decreases env.allowed.len() - j, if found { 0int } else { 1int },
    {
        if env.allowed[j] == q {
            assert(quals[j as int] == q@);
            found = true;
        } else {
            j += 1;
        }
    }
    if found {
        return Ok(String::from_str(name));
    }
    proof {
        if quals.contains(q@) {
            let x = choose|x: int| 0 <= x < quals.len() && quals[x] == q@;
            assert(quals[x] != q@);
        }
    }
    let mut m = String::from_str("unknown qualifier ");
    m.append(q.as_str());
    m.append(" in ");
    m.append(name);
    m.append(" (allowed: ");
    let ghost prefix = m@;
    let mut j: usize = 0;
    assert(quals.take(0) =~= Seq::<Seq<char>>::empty());
    while j < env.allowed.len()
        invariant
            j <= env.allowed.len(),
            quals == string_views(env.allowed@),
            m@ == prefix + join_comma(quals.take(j as int)),
        decreases env.allowed.len() - j,
    {
        let ghost before = m@;
        assert(quals.take(j + 1).drop_last() =~= quals.take(j as int));
        assert(quals[j as int] == env.allowed@[j as int]@);
        if j > 0 {
            m.append(", ");
        }
        m.append(env.allowed[j].as_str());
        proof {
            if j == 0 {
                assert(quals.take(1) =~= seq![quals[0]]);
            }
            assert(m@ =~= prefix + join_comma(quals.take(j + 1)));
        }
        j += 1;
    }
    m.append(")");
    assert(quals.take(env.allowed.len() as int) =~= quals);
    assert(m@ =~= unknown_qualifier_message(q@, s, quals));
    Err(m)
}

} // verus!
