//! Maps of environment variables kept as vectors of pairs sorted by name.
use vstd::prelude::*;
use crate::text::{Order, char_seq_order, compare_strings, lemma_char_seq_order_antisym, lemma_char_seq_order_trans};

verus! {

/// The views of a sequence of name-value pairs.
pub open spec fn pairs_view(v: Seq<(String, String)>) -> Seq<(Seq<char>, Seq<char>)> {
    v.map_values(|p: (String, String)| (p.0@, p.1@))
}

/// Names strictly increasing.
pub open spec fn keys_sorted(s: Seq<(Seq<char>, Seq<char>)>) -> bool {
    forall|i: int, j: int| 0 <= i < j < s.len() ==> char_seq_order(s[i].0, s[j].0) < 0
}

/// The map that a sequence of pairs stands for (a later pair wins).
pub open spec fn pairs_map(s: Seq<(Seq<char>, Seq<char>)>) -> Map<Seq<char>, Seq<char>>
    decreases s.len(),
{
    if s.len() == 0 {
        Map::empty()
    } else {
        pairs_map(s.drop_last()).insert(s.last().0, s.last().1)
    }
}

/// For sorted pairs, the map holds exactly the pairs.
pub proof fn lemma_pairs_map(s: Seq<(Seq<char>, Seq<char>)>)
    requires
        keys_sorted(s),
    ensures
        forall|k: Seq<char>| pairs_map(s).contains_key(k) <==> exists|i: int| 0 <= i < s.len() && #[trigger] s[i].0 == k,
        forall|i: int| 0 <= i < s.len() ==> #[trigger] pairs_map(s)[s[i].0] == s[i].1,
    decreases s.len(),
{
    if s.len() > 0 {
        let d = s.drop_last();
        assert(keys_sorted(d));
        lemma_pairs_map(d);
        assert forall|k: Seq<char>| pairs_map(s).contains_key(k) <==> exists|i: int| 0 <= i < s.len() && #[trigger] s[i].0 == k by {
            if pairs_map(d).contains_key(k) {
                let i = choose|i: int| 0 <= i < d.len() && #[trigger] d[i].0 == k;
                assert(s[i].0 == k);
            }
            if exists|i: int| 0 <= i < s.len() && #[trigger] s[i].0 == k {
                let i = choose|i: int| 0 <= i < s.len() && #[trigger] s[i].0 == k;
                if i < s.len() - 1 {
                    assert(d[i].0 == k);
                }
            }
        }
        assert forall|i: int| 0 <= i < s.len() implies #[trigger] pairs_map(s)[s[i].0] == s[i].1 by {
            if i < s.len() - 1 {
                assert(d[i] == s[i]);
                assert(char_seq_order(s[i].0, s[s.len() - 1].0) < 0);
                lemma_char_seq_order_antisym(s[i].0, s[s.len() - 1].0);
                assert(s[i].0 != s.last().0);
                assert(pairs_map(d)[d[i].0] == d[i].1);
                assert(pairs_map(d).contains_key(d[i].0));
                assert(pairs_map(s) == pairs_map(d).insert(s.last().0, s.last().1));
            }
        }
    }
}

/// Sets `key` to `value` in a sorted vector of pairs.  Returns the value it
/// replaced, if the key was there.
pub fn map_insert(v: &mut Vec<(String, String)>, key: String, value: String) -> (r: Option<String>)
    requires
        keys_sorted(pairs_view(old(v)@)),
    ensures
        keys_sorted(pairs_view(final(v)@)),
        pairs_map(pairs_view(final(v)@)) == pairs_map(pairs_view(old(v)@)).insert(key@, value@),
        match r {
            Some(x) => pairs_map(pairs_view(old(v)@)).contains_key(key@) && x@ == pairs_map(pairs_view(old(v)@))[key@],
            None => !pairs_map(pairs_view(old(v)@)).contains_key(key@),
        },
{
    let ghost sv = pairs_view(v@);
    let ghost kv = key@;
    let ghost vv = value@;
    proof {
        lemma_pairs_map(sv);
    }
    let mut k: usize = 0;
    while k < v.len() && matches!(compare_strings(&v[k].0, &key), Order::Less)
        invariant
            k <= v.len(),
            sv == pairs_view(v@),
            kv == key@,
            forall|a: int| 0 <= a < k ==> char_seq_order(#[trigger] sv[a].0, kv) < 0,
        decreases v.len() - k,
    {
        assert(sv[k as int].0 == v@[k as int].0@);
        k = k + 1;
    }
    if k < v.len() {
        assert(sv[k as int].0 == v@[k as int].0@);
        if matches!(compare_strings(&v[k].0, &key), Order::Equal) {
            proof {
                lemma_char_seq_order_antisym(sv[k as int].0, kv);
            }
            let old_value = v[k].1.clone();
            v.set(k, (key, value));
            proof {
                let nv = pairs_view(v@);
                assert(nv =~= sv.update(k as int, (kv, vv)));
                assert(keys_sorted(nv)) by {
                    assert forall|i: int, j: int| 0 <= i < j < nv.len() implies char_seq_order(nv[i].0, nv[j].0) < 0 by {
                        assert(nv[i].0 == sv[i].0);
                        assert(nv[j].0 == sv[j].0);
                    }
                }
                lemma_pairs_map(nv);
                assert forall|x: Seq<char>| pairs_map(nv).contains_key(x) <==> pairs_map(sv).insert(kv, vv).contains_key(x) by {
                    if exists|i: int| 0 <= i < nv.len() && #[trigger] nv[i].0 == x {
                        let i = choose|i: int| 0 <= i < nv.len() && #[trigger] nv[i].0 == x;
                        assert(sv[i].0 == x);
                    }
                    if exists|i: int| 0 <= i < sv.len() && #[trigger] sv[i].0 == x {
                        let i = choose|i: int| 0 <= i < sv.len() && #[trigger] sv[i].0 == x;
                        assert(nv[i].0 == x);
                    }
                }
                assert forall|x: Seq<char>| #[trigger] pairs_map(nv).contains_key(x) implies pairs_map(nv)[x] == pairs_map(sv).insert(kv, vv)[x] by {
                    let i = choose|i: int| 0 <= i < nv.len() && #[trigger] nv[i].0 == x;
                    if i != k {
                        assert(sv[i] == nv[i]);
                    }
                }
                assert(pairs_map(nv) =~= pairs_map(sv).insert(kv, vv));
                assert(pairs_map(sv).contains_key(kv));
            }
            return Some(old_value);
        }
    }
    proof {
        if k < sv.len() {
            lemma_char_seq_order_antisym(sv[k as int].0, kv);
        }
        assert(!pairs_map(sv).contains_key(kv)) by {
            if pairs_map(sv).contains_key(kv) {
                let i = choose|i: int| 0 <= i < sv.len() && #[trigger] sv[i].0 == kv;
                if i > k {
                    lemma_char_seq_order_trans(kv, sv[k as int].0, sv[i].0);
                }
                lemma_char_seq_order_antisym(sv[i].0, kv);
            }
        }
    }
    v.insert(k, (key, value));
    proof {
        let nv = pairs_view(v@);
        assert(nv =~= sv.take(k as int) + seq![(kv, vv)] + sv.skip(k as int));
        assert(keys_sorted(nv)) by {
            assert forall|i: int, j: int| 0 <= i < j < nv.len() implies char_seq_order(nv[i].0, nv[j].0) < 0 by {
                if j < k {
                    assert(nv[i] == sv[i] && nv[j] == sv[j]);
                } else if j == k {
                    assert(nv[i] == sv[i]);
                } else if i < k {
                    assert(nv[i] == sv[i]);
                    assert(nv[j] == sv[j - 1]);
                    lemma_char_seq_order_trans(sv[i].0, kv, sv[k as int].0);
                    if j - 1 > k {
                        lemma_char_seq_order_trans(sv[i].0, sv[k as int].0, sv[j - 1].0);
                    }
                } else if i == k {
                    assert(nv[j] == sv[j - 1]);
                    if j - 1 > k {
                        lemma_char_seq_order_trans(kv, sv[k as int].0, sv[j - 1].0);
                    }
                } else {
                    assert(nv[i] == sv[i - 1]);
                    assert(nv[j] == sv[j - 1]);
                }
            }
        }
        lemma_pairs_map(nv);
        assert forall|x: Seq<char>| pairs_map(nv).contains_key(x) <==> pairs_map(sv).insert(kv, vv).contains_key(x) by {
            if exists|i: int| 0 <= i < nv.len() && #[trigger] nv[i].0 == x {
                let i = choose|i: int| 0 <= i < nv.len() && #[trigger] nv[i].0 == x;
                if i != k {
                    assert(sv[if i < k { i } else { i - 1 }].0 == x);
                }
            }
            if exists|i: int| 0 <= i < sv.len() && #[trigger] sv[i].0 == x {
                let i = choose|i: int| 0 <= i < sv.len() && #[trigger] sv[i].0 == x;
                assert(nv[if i < k { i } else { i + 1 }].0 == x);
            }
            if x == kv {
                assert(nv[k as int].0 == x);
            }
        }
        assert forall|x: Seq<char>| #[trigger] pairs_map(nv).contains_key(x) implies pairs_map(nv)[x] == pairs_map(sv).insert(kv, vv)[x] by {
            let i = choose|i: int| 0 <= i < nv.len() && #[trigger] nv[i].0 == x;
            if i != k {
                let j = if i < k { i } else { i - 1 };
                assert(sv[j] == nv[i]);
            }
        }
        assert(pairs_map(nv) =~= pairs_map(sv).insert(kv, vv));
    }
    None
}

} // verus!
