//! Renaming maps built from two parallel lists of names.
use vstd::prelude::*;

verus! {

/// The renaming given by the first `k` pairs of `from` and `to`: each name
/// that differs from its partner maps to it, a later pair overriding an
/// earlier one for the same name.
pub open spec fn rename_spec(from: Seq<Seq<char>>, to: Seq<Seq<char>>, k: int) -> Map<Seq<char>, Seq<char>>
    decreases k,
{
    if k <= 0 {
        Map::empty()
    } else if from[k - 1] != to[k - 1] {
        rename_spec(from, to, k - 1).insert(from[k - 1], to[k - 1])
    } else {
        rename_spec(from, to, k - 1)
    }
}

pub open spec fn views(v: Seq<String>) -> Seq<Seq<char>> {
    v.map_values(|s: String| s@)
}

/// `pairs` lists the map `m`: each name once, with its image.
pub open spec fn lists_map(pairs: Seq<(String, String)>, m: Map<Seq<char>, Seq<char>>) -> bool {
    &&& forall|a: int, b: int| 0 <= a < b < pairs.len() ==> #[trigger] pairs[a].0@ != #[trigger] pairs[b].0@
    &&& forall|j: int| 0 <= j < pairs.len() ==> #[trigger] m.contains_key(pairs[j].0@) && m[pairs[j].0@] == pairs[j].1@
    &&& forall|k: Seq<char>| #[trigger] m.contains_key(k) ==> exists|j: int| 0 <= j < pairs.len() && pairs[j].0@ == k
}

/// The renaming that maps each name of `from` to the name at the same
/// position of `to`, where the two differ; the pairs past the shorter list
/// are ignored.
pub fn merge_build_rename_map(from: &[String], to: &[String]) -> (r: Vec<(String, String)>)
    ensures
        lists_map(
            r@,
            rename_spec(
                views(from@),
                views(to@),
                if from.len() < to.len() {
                    from.len() as int
                } else {
                    to.len() as int
                },
            ),
        ),
{
    let ghost f = views(from@);
    let ghost t = views(to@);
    let n = if from.len() < to.len() {
        from.len()
    } else {
        to.len()
    };
    let mut r: Vec<(String, String)> = Vec::new();
    let mut i: usize = 0;
    while i < n
        invariant
            n <= from.len(),
            n <= to.len(),
            i <= n,
            f == views(from@),
            t == views(to@),
            lists_map(r@, rename_spec(f, t, i as int)),
        decreases n - i,
    {
        let ghost m0 = rename_spec(f, t, i as int);
        assert(f[i as int] == from@[i as int]@ && t[i as int] == to@[i as int]@);
        if from[i] != to[i] {
            let mut j: usize = 0;
            let mut found = false;
            while j < r.len() && !found
                invariant
                    i < n,
                    n <= from.len(),
                    n <= to.len(),
                    f == views(from@),
                    f[i as int] == from@[i as int]@,
                    j <= r.len(),
                    lists_map(r@, m0),
                    found ==> j < r.len() && r@[j as int].0@ == f[i as int],
                    !found ==> forall|x: int| 0 <= x < j ==> #[trigger] r@[x].0@ != f[i as int],
                decreases r.len() - j, if found { 0int } else { 1int },
            {
                if r[j].0 == from[i] {
                    found = true;
                } else {
                    j += 1;
                }
            }
            let ghost r0 = r@;
            assert(lists_map(r0, m0));
            let ghost m1 = m0.insert(f[i as int], t[i as int]);
            let a = from[i].clone();
            let b = to[i].clone();
            assert(a@ == f[i as int] && b@ == t[i as int]);
            if found {
                r.set(j, (a, b));
                proof {
                    assert forall|a: int, b: int| 0 <= a < b < r@.len() implies #[trigger] r@[a].0@ != #[trigger] r@[b].0@ by {
                        assert(r0[a].0@ != r0[b].0@);
                    }
                    assert forall|x: int| 0 <= x < r@.len() implies #[trigger] m1.contains_key(r@[x].0@) && m1[r@[x].0@] == r@[x].1@ by {
                        if x != j {
                            assert(r@[x] == r0[x]);
                            assert(r0[x].0@ != r0[j as int].0@);
                            assert(m0.contains_key(r0[x].0@));
                            assert(m0[r0[x].0@] == r0[x].1@);
                            assert(m1[r0[x].0@] == m0[r0[x].0@]);
                        } else {
                            assert(r@[x].0@ == f[i as int] && r@[x].1@ == t[i as int]);
                        }
                    }
                    assert forall|k: Seq<char>| #[trigger] m1.contains_key(k) implies exists|x: int| 0 <= x < r@.len() && r@[x].0@ == k by {
                        if k == f[i as int] {
                            assert(r@[j as int].0@ == k);
                        } else {
                            let x = choose|x: int| 0 <= x < r0.len() && r0[x].0@ == k;
                            assert(r@[x].0@ == k);
                        }
                    }
                }
            } else {
                r.push((a, b));
                proof {
                    assert forall|a: int, b: int| 0 <= a < b < r@.len() implies #[trigger] r@[a].0@ != #[trigger] r@[b].0@ by {
                        if b < r0.len() {
                            assert(r0[a].0@ != r0[b].0@);
                        } else {
                            assert(r0[a].0@ != f[i as int]);
                        }
                    }
                    assert forall|x: int| 0 <= x < r@.len() implies #[trigger] m1.contains_key(r@[x].0@) && m1[r@[x].0@] == r@[x].1@ by {
                        if x < r0.len() {
                            assert(r0[x].0@ != f[i as int]);
                            assert(r@[x] == r0[x]);
                        }
                    }
                    assert forall|k: Seq<char>| #[trigger] m1.contains_key(k) implies exists|x: int| 0 <= x < r@.len() && r@[x].0@ == k by {
                        if k == f[i as int] {
                            assert(r@[r0.len() as int].0@ == k);
                        } else {
                            let x = choose|x: int| 0 <= x < r0.len() && r0[x].0@ == k;
                            assert(r@[x].0@ == k);
                        }
                    }
                }
            }
            assert(rename_spec(f, t, i + 1) == m1);
        } else {
            assert(rename_spec(f, t, i + 1) == m0);
        }
        i += 1;
    }
    r
}


/// A renaming never maps a name to itself.
pub proof fn law_rename_moves_names(from: Seq<Seq<char>>, to: Seq<Seq<char>>, k: int)
    ensures
        forall|x: Seq<char>| #[trigger] rename_spec(from, to, k).contains_key(x) ==> rename_spec(from, to, k)[x] != x,
    decreases k,
{
    if k > 0 {
        law_rename_moves_names(from, to, k - 1);
        let m0 = rename_spec(from, to, k - 1);
        assert forall|x: Seq<char>| #[trigger] rename_spec(from, to, k).contains_key(x) implies rename_spec(from, to, k)[x] != x by {
            if from[k - 1] != to[k - 1] {
                if x != from[k - 1] {
                    assert(m0.contains_key(x));
                }
            } else {
                assert(m0.contains_key(x));
            }
        }
    }
}

} // verus!
