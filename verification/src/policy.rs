//! The policy for rebuilding cached module interface files.
use vstd::prelude::*;
use crate::names::string_views;

verus! {

/// Configuration for rebuilding cached interface files.
#[derive(Debug, Clone, Copy, PartialEq, Eq, Structural)]
pub struct KsifRebuildPolicy {
    /// Force rebuild all interface files regardless of hash validity.
    pub force_rebuild: bool,
    /// If true, when forcing rebuild, only rebuild the target module, not its dependencies.
    pub suppress_recursive_rebuild: bool,
}

impl Default for KsifRebuildPolicy {
    fn default() -> (r: Self)
        ensures
            !r.force_rebuild,
            !r.suppress_recursive_rebuild,
    {
        KsifRebuildPolicy { force_rebuild: false, suppress_recursive_rebuild: false }
    }
}

/// Sets the rebuild policy held in `slot`.
pub fn set_ksif_rebuild_policy(slot: &mut KsifRebuildPolicy, policy: KsifRebuildPolicy)
    ensures
        *final(slot) == policy,
{
    *slot = policy;
}

/// The rebuild policy held in `slot`.
pub fn get_ksif_rebuild_policy(slot: &KsifRebuildPolicy) -> (r: KsifRebuildPolicy)
    ensures
        r == *slot,
{
    *slot
}


/// What to do with a module's cached interface file.
#[derive(Debug, Clone, Copy, PartialEq, Eq, Structural)]
pub enum KsifCheck {
    /// Build the interface file again.
    Rebuild,
    /// Use the cached file as it is.
    Keep,
    /// Check the hashes of the dependencies recorded in the cached file.
    ValidateDependencies,
}

/// Decides whether a module's cached interface file can be used: a missing
/// file, or one older than its source, is rebuilt; a forced rebuild rebuilds;
/// with recursive rebuilds suppressed the file is trusted; otherwise its
/// dependency hashes decide.
pub fn ksif_rebuild_check(ksif_exists: bool, source_is_newer: bool, policy: KsifRebuildPolicy) -> (r: KsifCheck)
    ensures
        r == (if !ksif_exists || source_is_newer || policy.force_rebuild {
            KsifCheck::Rebuild
        } else if policy.suppress_recursive_rebuild {
            KsifCheck::Keep
        } else {
            KsifCheck::ValidateDependencies
        }),
{
    if !ksif_exists {
        KsifCheck::Rebuild
    } else if source_is_newer {
        KsifCheck::Rebuild
    } else if policy.force_rebuild {
        KsifCheck::Rebuild
    } else if policy.suppress_recursive_rebuild {
        KsifCheck::Keep
    } else {
        KsifCheck::ValidateDependencies
    }
}

/// After the dependency hashes were checked: rebuild unless they all
/// matched; a check that failed counts as a mismatch.
pub fn ksif_rebuild_after_validation(valid: Option<bool>) -> (r: bool)
    ensures
        r == !(valid == Some(true)),
{
    match valid {
        Some(v) => !v,
        None => true,
    }
}


/// The walk over the imports that builds interface files: the modules being
/// visited (on the current import path) and those already finished.
pub struct KsifState {
    visiting: Vec<String>,
    done: Vec<String>,
}

/// What the walk is told.
pub enum KsifEvent {
    /// The interface file of this module is asked for.
    Ensure(String),
    /// This module's interface file is up to date (kept or built).
    Finish(String),
    /// This module counts as finished without being visited.
    MarkDone(String),
}

/// The model of a [`KsifEvent`].
pub enum KsifEventV {
    Ensure(Seq<char>),
    Finish(Seq<char>),
    MarkDone(Seq<char>),
}

pub open spec fn event_view(ev: KsifEvent) -> KsifEventV {
    match ev {
        KsifEvent::Ensure(m) => KsifEventV::Ensure(m@),
        KsifEvent::Finish(m) => KsifEventV::Finish(m@),
        KsifEvent::MarkDone(m) => KsifEventV::MarkDone(m@),
    }
}

/// The modules being visited and those finished after one step of the walk
/// from `visiting` and `done`.
pub open spec fn ksif_next(visiting: Set<Seq<char>>, done: Set<Seq<char>>, ev: KsifEventV) -> (Set<Seq<char>>, Set<Seq<char>>) {
    match ev {
        KsifEventV::Ensure(m) => if done.contains(m) || visiting.contains(m) {
            (visiting, done)
        } else {
            (visiting.insert(m), done)
        },
        KsifEventV::Finish(m) => (visiting.remove(m), done.insert(m)),
        KsifEventV::MarkDone(m) => (visiting, done.insert(m)),
    }
}

/// What the walk asks for next.
#[derive(Debug, PartialEq, Eq)]
pub enum KsifAction {
    /// Nothing is left to do for this event.
    Nothing,
    /// The walk fails with this message.
    Fail(String),
    /// Resolve the module, decide about its cached file and walk its imports.
    Visit(String),
}

impl KsifState {
    /// The modules being visited.
    pub closed spec fn visiting_set(&self) -> Set<Seq<char>> {
        string_views(self.visiting@).to_set()
    }

    /// The modules finished.
    pub closed spec fn done_set(&self) -> Set<Seq<char>> {
        string_views(self.done@).to_set()
    }

    /// The state before any module is visited.
    pub fn new() -> (r: KsifState)
        ensures
            r.visiting_set() == Set::<Seq<char>>::empty(),
            r.done_set() == Set::<Seq<char>>::empty(),
    {
        let r = KsifState { visiting: Vec::new(), done: Vec::new() };
        assert(string_views(r.visiting@) =~= Seq::<Seq<char>>::empty());
        assert(string_views(r.done@) =~= Seq::<Seq<char>>::empty());
        r
    }
}

fn names_contain(v: &Vec<String>, m: &String) -> (r: bool)
    ensures
        r == string_views(v@).to_set().contains(m@),
{
    let mut i: usize = 0;
    while i < v.len()
        invariant
            i <= v.len(),
            forall|j: int| 0 <= j < i ==> v@[j]@ != m@,
        decreases v.len() - i,
    {
        if v[i] == *m {
            assert(string_views(v@)[i as int] == m@);
            return true;
        }
        i += 1;
    }
    proof {
        if string_views(v@).to_set().contains(m@) {
            let j = choose|j: int| 0 <= j < string_views(v@).len() && string_views(v@)[j] == m@;
            assert(v@[j]@ == m@);
        }
    }
    false
}

proof fn lemma_views_push(out: Seq<String>, x: String)
    ensures
        string_views(out.push(x)) == string_views(out).push(x@),
{
    assert(string_views(out.push(x)) =~= string_views(out).push(x@));
}

proof fn lemma_to_set_push(q: Seq<Seq<char>>, x: Seq<char>)
    ensures
        q.push(x).to_set() == q.to_set().insert(x),
{
    assert forall|y: Seq<char>| q.push(x).to_set().contains(y) <==> q.to_set().insert(x).contains(y) by {
        if q.push(x).to_set().contains(y) {
            let k = choose|k: int| 0 <= k < q.push(x).len() && q.push(x)[k] == y;
            if k < q.len() {
                assert(q[k] == y);
            }
        }
        if q.to_set().contains(y) {
            let k = choose|k: int| 0 <= k < q.len() && q[k] == y;
            assert(q.push(x)[k] == y);
        }
        if y == x {
            assert(q.push(x)[q.len() as int] == y);
        }
    }
    assert(q.push(x).to_set() =~= q.to_set().insert(x));
}

/// A copy of `v`, without `m` when `drop`, with `m` added otherwise.
fn names_update(v: &Vec<String>, m: &String, drop: bool) -> (r: Vec<String>)
    ensures
        string_views(r@).to_set() == if drop {
            string_views(v@).to_set().remove(m@)
        } else {
            string_views(v@).to_set().insert(m@)
        },
{
    let ghost sv = string_views(v@);
    let mut out: Vec<String> = Vec::new();
    let mut i: usize = 0;
    assert(sv.take(0).to_set() =~= Set::<Seq<char>>::empty());
    assert(string_views(out@).to_set() =~= Set::<Seq<char>>::empty());
    while i < v.len()
        invariant
            i <= v.len(),
            sv == string_views(v@),
            string_views(out@).to_set() == if drop {
                sv.take(i as int).to_set().remove(m@)
            } else {
                sv.take(i as int).to_set()
            },
        decreases v.len() - i,
    {
        let ghost before = out@;
        assert(sv[i as int] == v@[i as int]@);
        proof {
            assert(sv.take(i + 1) =~= sv.take(i as int).push(sv[i as int]));
            lemma_to_set_push(sv.take(i as int), sv[i as int]);
        }
        if !(drop && v[i] == *m) {
            let c = v[i].clone();
            out.push(c);
            proof {
                lemma_views_push(before, c);
                lemma_to_set_push(string_views(before), c@);
                if drop {
                    assert(string_views(out@).to_set() =~= sv.take(i + 1).to_set().remove(m@));
                }
            }
        } else {
            proof {
                assert(sv.take(i + 1).to_set().remove(m@) =~= sv.take(i as int).to_set().remove(m@));
            }
        }
        i += 1;
    }
    assert(sv.take(v.len() as int) =~= sv);
    if !drop {
        let ghost before = out@;
        let c = m.clone();
        out.push(c);
        proof {
            lemma_views_push(before, c);
            lemma_to_set_push(string_views(before), c@);
        }
    }
    out
}

fn names_copy(v: &Vec<String>) -> (r: Vec<String>)
    ensures
        string_views(r@) == string_views(v@),
{
    let mut out: Vec<String> = Vec::new();
    let mut i: usize = 0;
    assert(string_views(out@) =~= string_views(v@).take(0));
    while i < v.len()
        invariant
            i <= v.len(),
            string_views(out@) == string_views(v@).take(i as int),
        decreases v.len() - i,
    {
        let ghost before = out@;
        let c = v[i].clone();
        out.push(c);
        proof {
            lemma_views_push(before, c);
            assert(string_views(v@).take(i + 1) =~= string_views(v@).take(i as int).push(v@[i as int]@));
        }
        i += 1;
    }
    assert(string_views(v@).take(v.len() as int) =~= string_views(v@));
    out
}

/// One step of the walk over imports that builds interface files: a module
/// asked for again once finished needs nothing; one asked for while it is
/// being visited closes a cycle of imports and fails; any other is marked as
/// being visited and is to be visited. A finished module leaves the visiting
/// modules and joins the finished ones.
pub fn ksif_step(st: &KsifState, ev: KsifEvent) -> (r: (KsifState, KsifAction))
    ensures
        match ev {
            KsifEvent::Ensure(m) => if st.done_set().contains(m@) {
                r.0.visiting_set() == st.visiting_set() && r.0.done_set() == st.done_set() && r.1 == KsifAction::Nothing
            } else if st.visiting_set().contains(m@) {
                r.0.visiting_set() == st.visiting_set() && r.0.done_set() == st.done_set() && (r.1 matches KsifAction::Fail(e)
                    && e@ == "cyclic imports: "@ + m@)
            } else {
                r.0.visiting_set() == st.visiting_set().insert(m@) && r.0.done_set() == st.done_set() && (r.1 matches KsifAction::Visit(x)
                    && x@ == m@)
            },
            KsifEvent::Finish(m) => r.0.visiting_set() == st.visiting_set().remove(m@) && r.0.done_set() == st.done_set().insert(m@)
                && r.1 == KsifAction::Nothing,
            KsifEvent::MarkDone(m) => r.0.visiting_set() == st.visiting_set() && r.0.done_set() == st.done_set().insert(m@)
                && r.1 == KsifAction::Nothing,
        },
        (r.0.visiting_set(), r.0.done_set()) == ksif_next(st.visiting_set(), st.done_set(), event_view(ev)),
{
    match ev {
        KsifEvent::Ensure(m) => {
            if names_contain(&st.done, &m) {
                (KsifState { visiting: names_copy(&st.visiting), done: names_copy(&st.done) }, KsifAction::Nothing)
            } else if names_contain(&st.visiting, &m) {
                let mut e = String::from_str("cyclic imports: ");
                e.append(m.as_str());
                (KsifState { visiting: names_copy(&st.visiting), done: names_copy(&st.done) }, KsifAction::Fail(e))
            } else {
                let visiting = names_update(&st.visiting, &m, false);
                (KsifState { visiting, done: names_copy(&st.done) }, KsifAction::Visit(m))
            }
        },
        KsifEvent::Finish(m) => {
            let visiting = names_update(&st.visiting, &m, true);
            let done = names_update(&st.done, &m, false);
            (KsifState { visiting, done }, KsifAction::Nothing)
        },
        KsifEvent::MarkDone(m) => {
            let done = names_update(&st.done, &m, false);
            (KsifState { visiting: names_copy(&st.visiting), done }, KsifAction::Nothing)
        },
    }
}

/// The walk over one module: a module already finished is left as it is; a
/// module being visited leaves both sets as they are (the step fails); any
/// other is marked as being visited, and once the walks over its imports
/// have left the visiting modules as they found them and only added
/// finished ones, finishing it restores the visiting modules and adds it,
/// with every module finished before.
pub proof fn law_ksif_walk(
    v0: Set<Seq<char>>,
    d0: Set<Seq<char>>,
    m: Seq<char>,
    v2: Set<Seq<char>>,
    d2: Set<Seq<char>>,
)
    ensures
        d0.contains(m) ==> ksif_next(v0, d0, KsifEventV::Ensure(m)) == (v0, d0),
        v0.contains(m) ==> ksif_next(v0, d0, KsifEventV::Ensure(m)) == (v0, d0),
        ({
            let (v1, d1) = ksif_next(v0, d0, KsifEventV::Ensure(m));
            let (v3, d3) = ksif_next(v2, d2, KsifEventV::Finish(m));
            (!d0.contains(m) && !v0.contains(m) && v2 == v1 && d1.subset_of(d2)) ==> (v3 == v0 && d0.subset_of(d3)
                && d3.contains(m))
        }),
{
    if !d0.contains(m) && !v0.contains(m) {
        assert(v0.insert(m).remove(m) =~= v0);
    }
}

/// `s` with every `.` replaced by `/`.
pub open spec fn dots_to_slashes(s: Seq<char>) -> Seq<char> {
    s.map_values(|c: char| if c == '.' { '/' } else { c })
}

/// The file that holds module `m`, relative to a search directory: its
/// dotted name as a path, with the extension `.ks`.
pub open spec fn module_file_spec(m: Seq<char>) -> Seq<char> {
    dots_to_slashes(m) + ".ks"@
}

fn append_dots_to_slashes(out: &mut String, m: &str)
    ensures
        final(out)@ == old(out)@ + dots_to_slashes(m@),
{
    let cs = crate::names::str_chars(m);
    let ghost start = out@;
    let mut i: usize = 0;
    while i < cs.len()
        invariant
            i <= cs.len(),
            cs@ == m@,
            out@ == start + dots_to_slashes(m@).take(i as int),
        decreases cs.len() - i,
    {
        let c = if cs[i] == '.' {
            '/'
        } else {
            cs[i]
        };
        crate::display::push_char(out, c);
        i += 1;
        assert(out@ =~= start + dots_to_slashes(m@).take(i as int));
    }
    assert(dots_to_slashes(m@).take(cs.len() as int) =~= dots_to_slashes(m@));
}

/// The relative path of the source file of module `m`.
pub fn module_file_rel(m: &str) -> (r: String)
    ensures
        r@ == module_file_spec(m@),
{
    let mut out = String::new();
    append_dots_to_slashes(&mut out, m);
    out.append(".ks");
    out
}

/// The file names, in the order they are tried, under which the interface
/// file of dependency `m` may be found: in the artifact directory, then
/// (for older layouts) in the module's own directory as a dotted path, as
/// its name, and with the prefix `ksif_`. Each comes with whether it lies in
/// the artifact directory.
pub open spec fn dep_ksif_candidates_spec(m: Seq<char>) -> Seq<(bool, Seq<char>)> {
    seq![
        (true, m + ".ksif"@),
        (false, dots_to_slashes(m) + ".ksif"@),
        (false, m + ".ksif"@),
        (false, "ksif_"@ + m + ".ksif"@),
    ]
}

pub fn dep_ksif_candidates(m: &str) -> (r: Vec<(bool, String)>)
    ensures
        r@.map_values(|e: (bool, String)| (e.0, e.1@)) == dep_ksif_candidates_spec(m@),
{
    let mut a = String::new();
    a.append(m);
    a.append(".ksif");
    let mut b = String::new();
    append_dots_to_slashes(&mut b, m);
    b.append(".ksif");
    let mut c = String::new();
    c.append(m);
    c.append(".ksif");
    let mut d = String::from_str("ksif_");
    d.append(m);
    d.append(".ksif");
    let r = vec![(true, a), (false, b), (false, c), (false, d)];
    assert(r@.map_values(|e: (bool, String)| (e.0, e.1@)) =~= dep_ksif_candidates_spec(m@));
    r
}

/// The check that a module file declares the module it was imported as.
pub open spec fn module_name_check_spec(requested: Seq<char>, declared: Option<Seq<char>>) -> Result<(), Seq<char>> {
    if declared == Some(requested) {
        Ok(())
    } else {
        Err("module name mismatch: import "@ + requested + " but file declares module "@ + match declared {
            Some(d) => d,
            None => "<missing>"@,
        })
    }
}

pub fn check_module_name(requested: &str, declared: Option<&str>) -> (r: Result<(), String>)
    ensures
        match module_name_check_spec(
            requested@,
            match declared {
                Some(d) => Some(d@),
                None => None,
            },
        ) {
            Ok(_) => r is Ok,
            Err(e) => r is Err && r->Err_0@ == e,
        },
{
    if let Some(d) = declared {
        if crate::names::str_eq(d, requested) {
            return Ok(());
        }
    }
    let mut e = String::from_str("module name mismatch: import ");
    e.append(requested);
    e.append(" but file declares module ");
    match declared {
        Some(d) => e.append(d),
        None => e.append("<missing>"),
    }
    Err(e)
}

/// With rebuilds of dependencies suppressed, a dependency outside the
/// standard library must already have its interface file.
pub open spec fn dependency_check_spec(dep: Seq<char>, ksif_exists: bool, dep_in_stdlib: bool) -> Result<(), Seq<char>> {
    if ksif_exists || dep_in_stdlib {
        Ok(())
    } else {
        Err("missing dependency ksif for import "@ + dep + " (expected "@ + dep
            + ".ksif); build it first or run without --no-ksif-rebuild-deps"@)
    }
}

pub fn check_dependency_ksif(dep: &str, ksif_exists: bool, dep_in_stdlib: bool) -> (r: Result<(), String>)
    ensures
        match dependency_check_spec(dep@, ksif_exists, dep_in_stdlib) {
            Ok(_) => r is Ok,
            Err(e) => r is Err && r->Err_0@ == e,
        },
{
    if ksif_exists || dep_in_stdlib {
        return Ok(());
    }
    let mut e = String::from_str("missing dependency ksif for import ");
    e.append(dep);
    e.append(" (expected ");
    e.append(dep);
    e.append(".ksif); build it first or run without --no-ksif-rebuild-deps");
    Err(e)
}

} // verus!
