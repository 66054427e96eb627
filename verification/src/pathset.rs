//! Sets of paths kept in a vector sorted in the order of `Path`'s `Ord`, as a
//! `BTreeSet<PathBuf>` keeps them: two texts naming the same path (the same
//! components) count once, and the first one inserted stays.
use vstd::prelude::*;
use crate::path::{Comp, components, path_order, compare_paths, lemma_comps_order_antisym, lemma_comps_order_trans};
use crate::text::Order;

verus! {

/// The texts of a vector of strings.
pub open spec fn strings_view(v: Seq<String>) -> Seq<Seq<char>> {
    v.map_values(|x: String| x@)
}

/// Strictly increasing in path order.
pub open spec fn paths_sorted(s: Seq<Seq<char>>) -> bool {
    forall|i: int, j: int| 0 <= i < j < s.len() ==> path_order(s[i], s[j]) < 0
}

/// The paths held, each as its components.
pub open spec fn path_set(s: Seq<Seq<char>>) -> Set<Seq<Comp>> {
    Set::new(|c: Seq<Comp>| exists|i: int| 0 <= i < s.len() && components(s[i]) == c)
}

/// Inserting at position `k` of a sorted sequence keeps it sorted when the
/// new path lies strictly between its neighbours.
proof fn lemma_insert_sorted(s: Seq<Seq<char>>, p: Seq<char>, k: int)
    requires
        paths_sorted(s),
        0 <= k <= s.len(),
        forall|a: int| 0 <= a < k ==> path_order(#[trigger] s[a], p) < 0,
        k < s.len() ==> path_order(p, s[k]) < 0,
    ensures
        paths_sorted(s.take(k).push(p) + s.skip(k)),
        path_set(s.take(k).push(p) + s.skip(k)) == path_set(s).insert(components(p)),
{
    let t = s.take(k).push(p) + s.skip(k);
    assert(t.len() == s.len() + 1);
    assert forall|i: int, j: int| 0 <= i < j < t.len() implies path_order(t[i], t[j]) < 0 by {
        if j < k {
            assert(t[i] == s[i] && t[j] == s[j]);
        } else if j == k {
            assert(t[i] == s[i] && t[j] == p);
        } else if i < k {
            assert(t[i] == s[i] && t[j] == s[j - 1]);
            lemma_comps_order_trans(components(s[i]), components(p), components(s[k]));
            if j - 1 > k {
                assert(path_order(s[k], s[j - 1]) < 0);
                lemma_comps_order_trans(components(s[i]), components(s[k]), components(s[j - 1]));
            }
        } else if i == k {
            assert(t[i] == p && t[j] == s[j - 1]);
            if j - 1 > k {
                assert(path_order(s[k], s[j - 1]) < 0);
                lemma_comps_order_trans(components(p), components(s[k]), components(s[j - 1]));
            }
        } else {
            assert(t[i] == s[i - 1] && t[j] == s[j - 1]);
        }
    }
    assert forall|c: Seq<Comp>| path_set(t).contains(c) <==> path_set(s).insert(components(p)).contains(c) by {
        if path_set(t).contains(c) {
            let i = choose|i: int| 0 <= i < t.len() && components(t[i]) == c;
            if i < k {
                assert(t[i] == s[i]);
            } else if i > k {
                assert(t[i] == s[i - 1]);
            }
        }
        if path_set(s).contains(c) {
            let i = choose|i: int| 0 <= i < s.len() && components(s[i]) == c;
            if i < k {
                assert(t[i] == s[i]);
            } else {
                assert(t[i + 1] == s[i]);
            }
        }
        if c == components(p) {
            assert(t[k] == p);
        }
    }
    assert(path_set(t) =~= path_set(s).insert(components(p)));
}

/// Adds a path to a sorted set of paths.  Returns whether it was added: a
/// path already there (by its components) leaves the set unchanged.
pub fn path_set_insert(v: &mut Vec<String>, p: String) -> (r: bool)
    requires
        paths_sorted(strings_view(old(v)@)),
    ensures
        paths_sorted(strings_view(final(v)@)),
        path_set(strings_view(final(v)@)) == path_set(strings_view(old(v)@)).insert(components(p@)),
        r == !path_set(strings_view(old(v)@)).contains(components(p@)),
        !r ==> final(v)@ == old(v)@,
        r ==> exists|k: int| 0 <= k <= old(v)@.len() && strings_view(final(v)@) == strings_view(old(v)@).take(k).push(p@)
            + strings_view(old(v)@).skip(k),
{
    let ghost sv = strings_view(v@);
    let ghost pv = p@;
    let mut k: usize = 0;
    while k < v.len() && matches!(compare_paths(&v[k], &p), Order::Less)
        invariant
            k <= v.len(),
            sv == strings_view(v@),
            pv == p@,
            forall|a: int| 0 <= a < k ==> path_order(#[trigger] sv[a], pv) < 0,
        decreases v.len() - k,
    {
        assert(sv[k as int] == v@[k as int]@);
        k = k + 1;
    }
    if k < v.len() {
        assert(sv[k as int] == v@[k as int]@);
        if matches!(compare_paths(&v[k], &p), Order::Equal) {
            proof {
                lemma_comps_order_antisym(components(sv[k as int]), components(pv));
                assert(path_set(sv).contains(components(pv)));
                assert(path_set(sv).insert(components(pv)) =~= path_set(sv));
            }
            return false;
        }
    }
    proof {
        if k < sv.len() {
            lemma_comps_order_antisym(components(sv[k as int]), components(pv));
        }
        assert(!path_set(sv).contains(components(pv))) by {
            if path_set(sv).contains(components(pv)) {
                let i = choose|i: int| 0 <= i < sv.len() && components(sv[i]) == components(pv);
                lemma_comps_order_antisym(components(sv[i]), components(pv));
                if i >= k {
                    if i > k {
                        assert(path_order(sv[k as int], sv[i]) < 0);
                        lemma_comps_order_trans(components(pv), components(sv[k as int]), components(sv[i]));
                    }
                }
            }
        }
        lemma_insert_sorted(sv, pv, k as int);
    }
    v.insert(k, p);
    proof {
        assert(strings_view(v@) =~= sv.take(k as int).push(pv) + sv.skip(k as int));
    }
    true
}

/// Whether a sorted set holds a path (by its components).
pub fn path_set_contains(v: &Vec<String>, p: &str) -> (r: bool)
    ensures
        r == path_set(strings_view(v@)).contains(components(p@)),
{
    let ghost sv = strings_view(v@);
    let mut k: usize = 0;
    while k < v.len()
        invariant
            k <= v.len(),
            sv == strings_view(v@),
            forall|a: int| 0 <= a < k ==> components(#[trigger] sv[a]) != components(p@),
        decreases v.len() - k,
    {
        assert(sv[k as int] == v@[k as int]@);
        if matches!(compare_paths(&v[k], p), Order::Equal) {
            proof {
                lemma_comps_order_antisym(components(sv[k as int]), components(p@));
            }
            return true;
        }
        proof {
            lemma_comps_order_antisym(components(sv[k as int]), components(p@));
        }
        k = k + 1;
    }
    proof {
        if path_set(sv).contains(components(p@)) {
            let i = choose|i: int| 0 <= i < sv.len() && components(sv[i]) == components(p@);
        }
    }
    false
}


/// A copy of a vector of strings.
pub fn clone_strings(v: &Vec<String>) -> (r: Vec<String>)
    ensures
        strings_view(r@) == strings_view(v@),
{
    let mut out: Vec<String> = Vec::new();
    let mut i: usize = 0;
    while i < v.len()
        invariant
            i <= v.len(),
            strings_view(out@) == strings_view(v@).take(i as int),
        decreases v.len() - i,
    {
        let ghost before = strings_view(out@);
        out.push(v[i].clone());
        assert(strings_view(out@) =~= before.push(v@[i as int]@));
        assert(strings_view(v@).take(i + 1) =~= strings_view(v@).take(i as int).push(v@[i as int]@));
        i = i + 1;
    }
    assert(strings_view(v@).take(v.len() as int) =~= strings_view(v@));
    out
}

/// Appending a path adds its components to the set of paths.
pub proof fn lemma_path_set_push(s: Seq<Seq<char>>, p: Seq<char>)
    ensures
        path_set(s.push(p)) == path_set(s).insert(components(p)),
{
    assert forall|c| path_set(s.push(p)).contains(c) <==> path_set(s).insert(components(p)).contains(c) by {
        if path_set(s.push(p)).contains(c) {
            let i = choose|i: int| 0 <= i < s.push(p).len() && components(s.push(p)[i]) == c;
            if i < s.len() {
                assert(s.push(p)[i] == s[i]);
            }
        }
        if path_set(s).contains(c) {
            let i = choose|i: int| 0 <= i < s.len() && components(s[i]) == c;
            assert(s.push(p)[i] == s[i]);
        }
        if c == components(p) {
            assert(s.push(p)[s.len() as int] == p);
        }
    }
    assert(path_set(s.push(p)) =~= path_set(s).insert(components(p)));
}

} // verus!
