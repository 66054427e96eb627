//! Activation contexts of a profile and the set that keeps only the broadest
//! of overlapping contexts.
use vstd::prelude::*;
use vstd::std_specs::cmp::PartialEqSpecImpl;
use crate::path::{
    components, path_starts_with, path_order, path_equal, starts_with, compare_paths,
    paths_equal, lemma_comps_order_antisym, lemma_comps_order_trans,
};
use crate::text::{Order, concat_str, path_debug, debug_path};

verus! {

/// A context in which a profile applies: beneath a directory, or anywhere.
#[derive(Debug, Clone)]
pub struct ContextEntry {
    pub when_beneath: Option<String>,
}

impl View for ContextEntry {
    type V = Option<Seq<char>>;

    open spec fn view(&self) -> Option<Seq<char>> {
        match &self.when_beneath {
            Some(p) => Some(p@),
            None => None,
        }
    }
}

/// Two contexts are equal when both are unrestricted or both name the same path.
pub open spec fn entry_equal(a: Option<Seq<char>>, b: Option<Seq<char>>) -> bool {
    match (a, b) {
        (None, None) => true,
        (Some(x), Some(y)) => path_equal(x, y),
        _ => false,
    }
}

impl PartialEq for ContextEntry {
    fn eq(&self, other: &Self) -> (r: bool) {
        match (&self.when_beneath, &other.when_beneath) {
            (None, None) => true,
            (Some(x), Some(y)) => paths_equal(x, y),
            _ => false,
        }
    }
}

impl PartialEqSpecImpl for ContextEntry {
    open spec fn obeys_eq_spec() -> bool {
        true
    }

    open spec fn eq_spec(&self, other: &Self) -> bool {
        entry_equal(self@, other@)
    }
}

impl Eq for ContextEntry {
}

/// Which of two overlapping contexts should be kept.
#[derive(Debug, Clone, Copy, PartialEq, Eq, Structural)]
pub enum Precedence {
    KeepBoth,
    RemoveOne,
    RemoveSelf,
    RemoveOther,
}

/// The precedence of context `s` over context `o`: an unrestricted context is
/// superseded by any directory context, and a directory context supersedes
/// the contexts beneath it.
pub open spec fn precedence_of(s: Option<Seq<char>>, o: Option<Seq<char>>) -> Precedence {
    match (s, o) {
        (None, None) => Precedence::RemoveOne,
        (Some(_), None) => Precedence::RemoveOther,
        (None, Some(_)) => Precedence::RemoveSelf,
        (Some(x), Some(y)) => {
            let a = path_starts_with(x, y);
            let b = path_starts_with(y, x);
            if !a && !b {
                Precedence::KeepBoth
            } else if !a && b {
                Precedence::RemoveOther
            } else if a && !b {
                Precedence::RemoveSelf
            } else {
                Precedence::RemoveOne
            }
        },
    }
}

/// The precedence seen from the other side.
pub open spec fn mirror(p: Precedence) -> Precedence {
    match p {
        Precedence::RemoveSelf => Precedence::RemoveOther,
        Precedence::RemoveOther => Precedence::RemoveSelf,
        _ => p,
    }
}

/// Order of contexts: the unrestricted one first, then by path.
pub open spec fn entry_order(a: Option<Seq<char>>, b: Option<Seq<char>>) -> int {
    match (a, b) {
        (None, None) => 0,
        (None, Some(_)) => -1,
        (Some(_), None) => 1,
        (Some(x), Some(y)) => path_order(x, y),
    }
}

/// Sorted without repetition, and no context overlaps another.
pub open spec fn entries_wf(s: Seq<Option<Seq<char>>>) -> bool {
    &&& forall|i: int, j: int| 0 <= i < j < s.len() ==> entry_order(s[i], s[j]) < 0
    &&& forall|i: int, j: int|
        0 <= i < s.len() && 0 <= j < s.len() && i != j ==> #[trigger] precedence_of(s[i], s[j])
            == Precedence::KeepBoth
}

/// Law: the order of contexts is antisymmetric, and zero exactly on equal contexts.
pub proof fn lemma_entry_order_antisym(a: Option<Seq<char>>, b: Option<Seq<char>>)
    ensures
        entry_order(a, b) == -entry_order(b, a),
        entry_order(a, b) == 0 <==> entry_equal(a, b),
{
    match (a, b) {
        (Some(x), Some(y)) => lemma_comps_order_antisym(components(x), components(y)),
        _ => {},
    }
}

/// Law: the order of contexts is transitive.
pub proof fn lemma_entry_order_trans(a: Option<Seq<char>>, b: Option<Seq<char>>, c: Option<Seq<char>>)
    requires
        entry_order(a, b) < 0,
        entry_order(b, c) < 0,
    ensures
        entry_order(a, c) < 0,
{
    match (a, b, c) {
        (Some(x), Some(y), Some(z)) => lemma_comps_order_trans(components(x), components(y), components(z)),
        _ => {},
    }
}

/// Equal contexts remove one of the two.
pub proof fn lemma_equal_entries_remove_one(a: Option<Seq<char>>, b: Option<Seq<char>>)
    requires
        entry_equal(a, b),
    ensures
        precedence_of(a, b) == Precedence::RemoveOne,
{
    match (a, b) {
        (Some(x), Some(y)) => {
            assert(components(x).is_prefix_of(components(y)));
            assert(components(y).is_prefix_of(components(x)));
        },
        _ => {},
    }
}

/// Law: comparing two contexts in the other order gives the mirrored answer.
pub proof fn lemma_precedence_mirror(a: Option<Seq<char>>, b: Option<Seq<char>>)
    ensures
        precedence_of(b, a) == mirror(precedence_of(a, b)),
{
}

/// Law: a context compared with itself always removes one of the two.
pub proof fn lemma_precedence_self(a: Option<Seq<char>>)
    ensures
        precedence_of(a, a) == Precedence::RemoveOne,
{
    match a {
        Some(x) => {
            assert(components(x).is_prefix_of(components(x)));
        },
        None => {},
    }
}

impl ContextEntry {
    /// A copy of this context.
    pub fn duplicate(&self) -> (r: ContextEntry)
        ensures
            r@ == self@,
    {
        match &self.when_beneath {
            Some(p) => ContextEntry { when_beneath: Some(p.clone()) },
            None => ContextEntry { when_beneath: None },
        }
    }

    /// Compares two context entries to determine which should be kept.
    ///
    /// A context beneath a directory covers every context beneath its
    /// subdirectories, and any directory context covers the unrestricted one.
    pub fn compare_precedence(&self, other: &Self) -> (r: Precedence)
        ensures
            r == precedence_of(self@, other@),
    {
        match (&self.when_beneath, &other.when_beneath) {
            (None, None) => Precedence::RemoveOne,
            (Some(_), None) => Precedence::RemoveOther,
            (None, Some(_)) => Precedence::RemoveSelf,
            (Some(s), Some(o)) => {
                let a = starts_with(s, o);
                let b = starts_with(o, s);
                if !a && !b {
                    Precedence::KeepBoth
                } else if !a && b {
                    Precedence::RemoveOther
                } else if a && !b {
                    Precedence::RemoveSelf
                } else {
                    Precedence::RemoveOne
                }
            },
        }
    }

    /// Compares two contexts in their set order.
    pub fn compare_entries(&self, other: &Self) -> (r: Order)
        ensures
            r.as_int() == entry_order(self@, other@),
    {
        match (&self.when_beneath, &other.when_beneath) {
            (None, None) => Order::Equal,
            (None, Some(_)) => Order::Less,
            (Some(_), None) => Order::Greater,
            (Some(s), Some(o)) => compare_paths(s, o),
        }
    }
}

/// The outcome of inserting a context into a `ContextSet`.
#[derive(Debug, PartialEq, Eq)]
pub enum InsertResult {
    /// The context was inserted; the contexts it covers were removed and are
    /// listed here in set order.
    Swapped(Vec<ContextEntry>),
    /// The context was ignored because an identical one already exists.
    IgnoredEqual(ContextEntry),
    /// The context was ignored because a broader one already exists.
    IgnoredSubset(ContextEntry),
}

/// The `Debug` form of a context entry.
pub open spec fn entry_debug(e: Option<Seq<char>>) -> Seq<char> {
    "ContextEntry { when_beneath: "@ + match e {
        None => "None"@,
        Some(p) => "Some("@ + path_debug(p) + ")"@,
    } + " }"@
}

/// The entries' `Debug` forms separated by `, `.
pub open spec fn entries_debug(es: Seq<Option<Seq<char>>>) -> Seq<char>
    decreases es.len(),
{
    if es.len() == 0 {
        Seq::empty()
    } else if es.len() == 1 {
        entry_debug(es[0])
    } else {
        entries_debug(es.drop_last()) + ", "@ + entry_debug(es.last())
    }
}

/// The warning that an insertion outcome deserves, if any.
pub open spec fn warning_text(r: InsertResult, profile_name: Seq<char>) -> Option<Seq<char>> {
    match r {
        InsertResult::Swapped(contexts) => if contexts@.len() == 0 {
            None
        } else {
            Some(
                "profile \""@ + profile_name
                    + "\" has overlapping contexts: kept the more specific one and removed {"@
                    + entries_debug(entries_view(contexts@)) + "}"@,
            )
        },
        InsertResult::IgnoredEqual(c) => Some(
            "profile \""@ + profile_name + "\" has duplicate contexts: ignoring "@ + entry_debug(
                c@,
            ),
        ),
        InsertResult::IgnoredSubset(c) => Some(
            "profile \""@ + profile_name + "\" has overlapping contexts: ignoring "@ + entry_debug(
                c@,
            ),
        ),
    }
}

impl ContextEntry {
    /// The `Debug` form of this entry.
    pub fn debug_text(&self) -> (r: String)
        ensures
            r@ == entry_debug(self@),
    {
        let inner = match &self.when_beneath {
            None => "None".to_string(),
            Some(p) => {
                let q = debug_path(p);
                let a = concat_str("Some(", &q);
                concat_str(&a, ")")
            },
        };
        let b = concat_str("ContextEntry { when_beneath: ", &inner);
        concat_str(&b, " }")
    }
}

/// The `Debug` forms of a list of entries separated by `, `.
fn entries_debug_text(v: &Vec<ContextEntry>) -> (r: String)
    ensures
        r@ == entries_debug(entries_view(v@)),
{
    let ghost vv = entries_view(v@);
    let mut out = String::new();
    let mut i: usize = 0;
    assert(vv.take(0) =~= Seq::<Option<Seq<char>>>::empty());
    while i < v.len()
        invariant
            i <= v.len(),
            vv == entries_view(v@),
            out@ == entries_debug(vv.take(i as int)),
        decreases v.len() - i,
    {
        let d = v[i].debug_text();
        assert(vv[i as int] == v@[i as int]@);
        assert(vv.take(i + 1).drop_last() =~= vv.take(i as int));
        if i == 0 {
            assert(vv.take(1) =~= seq![vv[0]]);
            out = d;
        } else {
            let a = concat_str(&out, ", ");
            out = concat_str(&a, &d);
        }
        i = i + 1;
    }
    assert(vv.take(v.len() as int) =~= vv);
    out
}

impl InsertResult {
    /// The warning to show for this insertion outcome, if any.
    pub fn warning(&self, profile_name: &str) -> (r: Option<String>)
        ensures
            match r {
                Some(s) => warning_text(*self, profile_name@) == Some(s@),
                None => warning_text(*self, profile_name@) is None,
            },
    {
        match self {
            InsertResult::Swapped(contexts) => {
                if contexts.len() == 0 {
                    None
                } else {
                    let a = concat_str("profile \"", profile_name);
                    let b = concat_str(
                        &a,
                        "\" has overlapping contexts: kept the more specific one and removed {",
                    );
                    let c = entries_debug_text(contexts);
                    let d = concat_str(&b, &c);
                    Some(concat_str(&d, "}"))
                }
            },
            InsertResult::IgnoredEqual(context) => {
                let a = concat_str("profile \"", profile_name);
                let b = concat_str(&a, "\" has duplicate contexts: ignoring ");
                Some(concat_str(&b, &context.debug_text()))
            },
            InsertResult::IgnoredSubset(context) => {
                let a = concat_str("profile \"", profile_name);
                let b = concat_str(&a, "\" has overlapping contexts: ignoring ");
                Some(concat_str(&b, &context.debug_text()))
            },
        }
    }
}

/// A set of contexts that automatically filters out superseded contexts when
/// inserting.
#[derive(Debug, Clone, PartialEq, Eq)]
pub struct ContextSet {
    inner: Vec<ContextEntry>,
}

/// The views of a sequence of contexts.
pub open spec fn entries_view(v: Seq<ContextEntry>) -> Seq<Option<Seq<char>>> {
    v.map_values(|e: ContextEntry| e@)
}

impl View for ContextSet {
    type V = Seq<Option<Seq<char>>>;

    closed spec fn view(&self) -> Seq<Option<Seq<char>>> {
        entries_view(self.inner@)
    }
}

impl Default for ContextSet {
    fn default() -> (r: Self)
        ensures
            r@ == Seq::<Option<Seq<char>>>::empty(),
            r.wf(),
    {
        let r = ContextSet { inner: Vec::new() };
        assert(r@ =~= Seq::<Option<Seq<char>>>::empty());
        r
    }
}

impl ContextSet {
    /// The set is sorted and holds no two overlapping contexts.
    pub open spec fn wf(&self) -> bool {
        entries_wf(self@)
    }

    /// An empty set.
    pub fn new() -> (r: Self)
        ensures
            r@ == Seq::<Option<Seq<char>>>::empty(),
            r.wf(),
    {
        Self::default()
    }

    /// Number of contexts in the set.
    pub fn len(&self) -> (n: usize)
        ensures
            n == self@.len(),
    {
        self.inner.len()
    }

    /// The context at position `i` in set order.
    pub fn get(&self, i: usize) -> (e: &ContextEntry)
        requires
            i < self@.len(),
        ensures
            e@ == self@[i as int],
    {
        &self.inner[i]
    }

    /// The contexts in set order.
    pub fn entries(&self) -> (s: &[ContextEntry])
        ensures
            entries_view(s@) == self@,
    {
        self.inner.as_slice()
    }

    /// Returns an iterator over the context entries in the set.
    pub fn iter(&self) -> (it: std::slice::Iter<'_, ContextEntry>)
        ensures
            entries_view(vstd::std_specs::slice::into_iter_elts(it)) == self@,
    {
        let s = self.inner.as_slice();
        let it = s.iter();
        proof {
            broadcast use vstd::std_specs::slice::axiom_spec_slice_iter;
            assert(vstd::std_specs::slice::into_iter_elts(it) == s@);
        }
        it
    }

    /// The contexts in set order, taking the set.
    pub fn into_entries(self) -> (r: Vec<ContextEntry>)
        ensures
            entries_view(r@) == self@,
    {
        self.inner
    }

    /// Insert a context, automatically removing or ignoring any superseded
    /// contexts.
    ///
    /// Returns detailed information about the insertion result.
    pub fn insert(&mut self, other: ContextEntry) -> (r: InsertResult)
        requires
            old(self).wf(),
        ensures
            final(self).wf(),
            match r {
                InsertResult::IgnoredEqual(e) => {
                    &&& e@ == other@
                    &&& final(self)@ == old(self)@
                    &&& exists|i: int|
                        0 <= i < old(self)@.len() && precedence_of(old(self)@[i], other@)
                            == Precedence::RemoveOne
                },
                InsertResult::IgnoredSubset(e) => {
                    &&& e@ == other@
                    &&& final(self)@ == old(self)@
                    &&& exists|i: int|
                        0 <= i < old(self)@.len() && precedence_of(old(self)@[i], other@)
                            == Precedence::RemoveOther
                },
                InsertResult::Swapped(removed) => {
                    let kept = old(self)@.filter(
                        |e: Option<Seq<char>>| precedence_of(e, other@) == Precedence::KeepBoth,
                    );
                    &&& forall|i: int|
                        0 <= i < old(self)@.len() ==> (precedence_of(old(self)@[i], other@)
                            == Precedence::KeepBoth || precedence_of(old(self)@[i], other@)
                            == Precedence::RemoveSelf)
                    &&& entries_view(removed@) == old(self)@.filter(
                        |e: Option<Seq<char>>| precedence_of(e, other@) == Precedence::RemoveSelf,
                    )
                    &&& exists|k: int|
                        0 <= k <= kept.len() && final(self)@ == kept.take(k) + seq![other@]
                            + kept.skip(k)
                },
            },
            final(self)@ == set_after_insert(old(self)@, other@),
            insert_ignored(final(self)@, other@),
            (r is IgnoredEqual) <==> (exists|i: int| 0 <= i < old(self)@.len() && entry_equal(old(self)@[i], other@)),
            (r is IgnoredSubset) <==> (!(exists|i: int|
                0 <= i < old(self)@.len() && entry_equal(old(self)@[i], other@)) && (exists|i: int|
                0 <= i < old(self)@.len() && covers(old(self)@[i], other@))),
            r matches InsertResult::Swapped(removed) ==> {
                &&& entries_view(removed@).to_set() == old(self)@.to_set().filter(
                    |e: Option<Seq<char>>| covers(other@, e),
                )
                &&& final(self)@.to_set() == old(self)@.to_set().filter(
                    |e: Option<Seq<char>>| !covers(other@, e),
                ).insert(other@)
            },
    {
        let n = self.inner.len();
        let ghost old_view = self@;
        let mut i: usize = 0;
        while i < n
            invariant
                n == self.inner.len(),
                old_view == self@,
                old_view.len() == n,
                entries_wf(old_view),
                i <= n,
                forall|k: int|
                    0 <= k < i ==> (precedence_of(old_view[k], other@) == Precedence::KeepBoth
                        || precedence_of(old_view[k], other@) == Precedence::RemoveSelf),
            decreases n - i,
        {
            let p = self.inner[i].compare_precedence(&other);
            assert(self@[i as int] == self.inner@[i as int]@);
            match p {
                Precedence::RemoveOne => {
                    proof {
                        lemma_insert_law(old_view, other@);
                        assert(precedence_of(old_view[i as int], other@) == Precedence::RemoveOne);
                    }
                    assert(insert_ignored(old_view, other@));
                    return InsertResult::IgnoredEqual(other);
                },
                Precedence::RemoveOther => {
                    proof {
                        lemma_insert_law(old_view, other@);
                        assert(covers(old_view[i as int], other@));
                    }
                    assert(insert_ignored(old_view, other@));
                    return InsertResult::IgnoredSubset(other);
                },
                _ => {},
            }
            i = i + 1;
        }
        let ghost keep_pred = |e: Option<Seq<char>>|
            precedence_of(e, other@) == Precedence::KeepBoth;
        let ghost drop_pred = |e: Option<Seq<char>>|
            precedence_of(e, other@) == Precedence::RemoveSelf;
        let removed = select_by_precedence(&self.inner, &other, Precedence::RemoveSelf);
        let kept = select_by_precedence(&self.inner, &other, Precedence::KeepBoth);
        proof {
            assert(keep_pred == |e: Option<Seq<char>>| precedence_of(e, other@) == Precedence::KeepBoth);
            lemma_filter_wf(old_view, keep_pred);
        }
        let ghost kv = entries_view(kept@);
        // Position of `other`: before the first kept context that follows it.
        let mut k: usize = 0;
        while k < kept.len() && !matches!(other.compare_entries(&kept[k]), Order::Less)
            invariant
                k <= kept.len(),
                kv == entries_view(kept@),
                forall|a: int| 0 <= a < kv.len() ==> keep_pred(#[trigger] kv[a]),
                forall|a: int| 0 <= a < k ==> entry_order(other@, #[trigger] kv[a]) >= 0,
            decreases kept.len() - k,
        {
            k = k + 1;
        }
        let mut fin: Vec<ContextEntry> = Vec::new();
        let mut a: usize = 0;
        while a < k
            invariant
                a <= k <= kept.len(),
                kv == entries_view(kept@),
                entries_view(fin@) == kv.take(a as int),
            decreases k - a,
        {
            let ghost before = fin@;
            let x = kept[a].duplicate();
            assert(kv[a as int] == kept@[a as int]@);
            fin.push(x);
            assert(entries_view(fin@) =~= entries_view(before).push(kv[a as int]));
            assert(kv.take(a + 1) =~= kv.take(a as int).push(kv[a as int]));
            a = a + 1;
            assert(entries_view(fin@) =~= kv.take(a as int));
        }
        let ghost before = fin@;
        fin.push(other);
        assert(entries_view(fin@) =~= entries_view(before).push(other@));
        let ghost mid = entries_view(fin@);
        let mut b: usize = k;
        while b < kept.len()
            invariant
                k <= b <= kept.len(),
                kv == entries_view(kept@),
                entries_view(fin@) == mid + kv.subrange(k as int, b as int),
            decreases kept.len() - b,
        {
            let ghost before = fin@;
            let x = kept[b].duplicate();
            assert(kv[b as int] == kept@[b as int]@);
            fin.push(x);
            assert(entries_view(fin@) =~= entries_view(before).push(kv[b as int]));
            assert(kv.subrange(k as int, b + 1) =~= kv.subrange(k as int, b as int).push(kv[b as int]));
            b = b + 1;
            assert(entries_view(fin@) =~= mid + kv.subrange(k as int, b as int));
        }
        proof {
            assert(mid =~= kv.take(k as int) + seq![other@]);
            assert(kv.subrange(k as int, kv.len() as int) =~= kv.skip(k as int));
            let fv = entries_view(fin@);
            assert(fv =~= kv.take(k as int) + seq![other@] + kv.skip(k as int));
            lemma_place_wf(kv, other@, k as int);
            lemma_insert_sorted_at(kv, other@, k as int);
            assert(!insert_ignored(old_view, other@));
            lemma_precedence_self(other@);
            assert(fv[k as int] == other@);
        }
        self.inner = fin;
        proof {
            lemma_insert_law(old_view, other@);
            assert forall|j: int| 0 <= j < old_view.len() implies !entry_equal(old_view[j], other@) && !covers(
                #[trigger] old_view[j],
                other@,
            ) by {
                assert(precedence_of(old_view[j], other@) == Precedence::KeepBoth || precedence_of(
                    old_view[j],
                    other@,
                ) == Precedence::RemoveSelf);
            }
            let rv = entries_view(removed@);
            assert forall|x: Option<Seq<char>>|
                rv.to_set().contains(x) <==> old_view.to_set().filter(
                    |e: Option<Seq<char>>| covers(other@, e),
                ).contains(x) by {
                lemma_filter_has(old_view, drop_pred, x);
            }
            assert(rv.to_set() =~= old_view.to_set().filter(|e: Option<Seq<char>>| covers(other@, e)));
            assert(self@[k as int] == other@);
            assert(precedence_of(self@[k as int], other@) == Precedence::RemoveOne);
            assert(insert_ignored(self@, other@));
        }
        InsertResult::Swapped(removed)
    }
}

/// The contexts of `v`, in order, whose precedence over `other` is `p`.
fn select_by_precedence(v: &Vec<ContextEntry>, other: &ContextEntry, p: Precedence) -> (r: Vec<
    ContextEntry,
>)
    ensures
        entries_view(r@) == entries_view(v@).filter(
            |e: Option<Seq<char>>| precedence_of(e, other@) == p,
        ),
{
    let ghost pred = |e: Option<Seq<char>>| precedence_of(e, other@) == p;
    let ghost vv = entries_view(v@);
    let mut r: Vec<ContextEntry> = Vec::new();
    let mut j: usize = 0;
    proof {
        reveal(Seq::filter);
        assert(vv.take(0) =~= Seq::<Option<Seq<char>>>::empty());
    }
    while j < v.len()
        invariant
            j <= v.len(),
            vv == entries_view(v@),
            pred == (|e: Option<Seq<char>>| precedence_of(e, other@) == p),
            entries_view(r@) == vv.take(j as int).filter(pred),
        decreases v.len() - j,
    {
        let q = v[j].compare_precedence(other);
        proof {
            reveal(Seq::filter);
            assert(vv.take(j + 1).drop_last() =~= vv.take(j as int));
            assert(vv.take(j + 1).last() == vv[j as int]);
            assert(vv[j as int] == v@[j as int]@);
        }
        let ghost before = r@;
        if q == p {
            let x = v[j].duplicate();
            r.push(x);
            assert(entries_view(r@) =~= entries_view(before).push(vv[j as int]));
        }
        proof {
            reveal(Seq::filter);
            let t = vv.take(j + 1);
            assert(q == precedence_of(v@[j as int]@, other@));
            assert(q == precedence_of(vv[j as int], other@));
            assert(pred(vv[j as int]) == (precedence_of(vv[j as int], other@) == p));
            assert(pred(vv[j as int]) == (q == p));
            assert(t.drop_last() =~= vv.take(j as int));
            assert(t.last() == vv[j as int]);
            assert(t.filter(pred) == (if pred(t.last()) {
                t.drop_last().filter(pred).push(t.last())
            } else {
                t.drop_last().filter(pred)
            }));
        }
        j = j + 1;
    }
    assert(vv.take(v.len() as int) =~= vv);
    r
}

/// A subsequence of a well-formed set of contexts is well formed.
pub proof fn lemma_filter_wf(s: Seq<Option<Seq<char>>>, p: spec_fn(Option<Seq<char>>) -> bool)
    requires
        entries_wf(s),
    ensures
        entries_wf(s.filter(p)),
        forall|i: int| 0 <= i < s.filter(p).len() ==> p(#[trigger] s.filter(p)[i]),
    decreases s.len(),
{
    reveal(Seq::filter);
    if s.len() > 0 {
        let d = s.drop_last();
        assert(entries_wf(d));
        lemma_filter_wf(d, p);
        let f0 = d.filter(p);
        if p(s.last()) {
            let f = f0.push(s.last());
            assert(f == s.filter(p));
            assert forall|i: int| 0 <= i < f0.len() implies entry_order(f0[i], s.last()) < 0
                && precedence_of(f0[i], s.last()) == Precedence::KeepBoth
                && precedence_of(s.last(), f0[i]) == Precedence::KeepBoth by {
                lemma_filter_member(d, p, i);
                let k = choose|k: int| 0 <= k < d.len() && d[k] == f0[i];
                assert(s[k] == f0[i]);
                assert(precedence_of(s[k], s[s.len() - 1]) == Precedence::KeepBoth);
                assert(precedence_of(s[s.len() - 1], s[k]) == Precedence::KeepBoth);
            }
            assert forall|i: int, j: int| 0 <= i < j < f.len() implies entry_order(f[i], f[j]) < 0 by {
                if j < f0.len() {
                    assert(f[i] == f0[i] && f[j] == f0[j]);
                }
            }
            assert forall|i: int, j: int|
                0 <= i < f.len() && 0 <= j < f.len() && i != j implies #[trigger] precedence_of(
                f[i],
                f[j],
            ) == Precedence::KeepBoth by {
                if i < f0.len() && j < f0.len() {
                    assert(f[i] == f0[i] && f[j] == f0[j]);
                }
            }
        }
    }
}

/// Every element of a filtered sequence comes from the unfiltered sequence.
pub proof fn lemma_filter_member(s: Seq<Option<Seq<char>>>, p: spec_fn(Option<Seq<char>>) -> bool, i: int)
    requires
        0 <= i < s.filter(p).len(),
    ensures
        exists|k: int| 0 <= k < s.len() && s[k] == s.filter(p)[i],
    decreases s.len(),
{
    reveal(Seq::filter);
    if s.len() > 0 {
        let d = s.drop_last();
        let f0 = d.filter(p);
        if i < f0.len() {
            lemma_filter_member(d, p, i);
            let k = choose|k: int| 0 <= k < d.len() && d[k] == f0[i];
            assert(s[k] == d[k]);
            if p(s.last()) {
                assert(s.filter(p)[i] == f0[i]);
            }
        } else {
            assert(s[s.len() - 1] == s.filter(p)[i]);
        }
    }
}

/// Inserts a context into a sorted sequence before the first entry that follows it.
pub open spec fn insert_sorted(kv: Seq<Option<Seq<char>>>, o: Option<Seq<char>>) -> Seq<Option<Seq<char>>>
    decreases kv.len(),
{
    if kv.len() == 0 {
        seq![o]
    } else if entry_order(o, kv[0]) < 0 {
        seq![o] + kv
    } else {
        seq![kv[0]] + insert_sorted(kv.drop_first(), o)
    }
}

/// Whether some context of `s` makes inserting `o` a no-op.
pub open spec fn insert_ignored(s: Seq<Option<Seq<char>>>, o: Option<Seq<char>>) -> bool {
    exists|i: int|
        0 <= i < s.len() && (precedence_of(s[i], o) == Precedence::RemoveOne || precedence_of(s[i], o)
            == Precedence::RemoveOther)
}

/// The contexts of a set after inserting `o`.
pub open spec fn set_after_insert(s: Seq<Option<Seq<char>>>, o: Option<Seq<char>>) -> Seq<Option<Seq<char>>> {
    if insert_ignored(s, o) {
        s
    } else {
        insert_sorted(s.filter(|e: Option<Seq<char>>| precedence_of(e, o) == Precedence::KeepBoth), o)
    }
}

/// The placement used by `insert` is the sorted insertion.
pub proof fn lemma_insert_sorted_at(kv: Seq<Option<Seq<char>>>, o: Option<Seq<char>>, k: int)
    requires
        0 <= k <= kv.len(),
        forall|a: int| 0 <= a < k ==> entry_order(o, #[trigger] kv[a]) >= 0,
        k < kv.len() ==> entry_order(o, kv[k]) < 0,
    ensures
        insert_sorted(kv, o) == kv.take(k) + seq![o] + kv.skip(k),
    decreases kv.len(),
{
    if kv.len() == 0 {
        assert(kv.take(k) + seq![o] + kv.skip(k) =~= seq![o]);
    } else if k == 0 {
        assert(kv.take(k) + seq![o] + kv.skip(k) =~= seq![o] + kv);
    } else {
        let d = kv.drop_first();
        assert forall|a: int| 0 <= a < k - 1 implies entry_order(o, #[trigger] d[a]) >= 0 by {
            assert(d[a] == kv[a + 1]);
        }
        if k < kv.len() {
            assert(d[k - 1] == kv[k]);
        }
        lemma_insert_sorted_at(d, o, k - 1);
        assert(kv.take(k) + seq![o] + kv.skip(k) =~= seq![kv[0]] + (d.take(k - 1) + seq![o] + d.skip(k - 1)));
    }
}

/// Facts about a context placed at its sorted position among contexts it does
/// not overlap.
proof fn lemma_place_facts(kv: Seq<Option<Seq<char>>>, o: Option<Seq<char>>, k: int)
    requires
        entries_wf(kv),
        0 <= k <= kv.len(),
        forall|a: int| 0 <= a < kv.len() ==> precedence_of(#[trigger] kv[a], o) == Precedence::KeepBoth,
        forall|a: int| 0 <= a < k ==> entry_order(o, #[trigger] kv[a]) >= 0,
        k < kv.len() ==> entry_order(o, kv[k]) < 0,
    ensures
        forall|a: int| 0 <= a < k ==> entry_order(#[trigger] kv[a], o) < 0,
        forall|a: int| k <= a < kv.len() ==> entry_order(o, #[trigger] kv[a]) < 0,
        forall|a: int| 0 <= a < kv.len() ==> precedence_of(o, #[trigger] kv[a]) == Precedence::KeepBoth,
{
    assert forall|a: int| 0 <= a < k implies entry_order(#[trigger] kv[a], o) < 0 by {
        lemma_entry_order_antisym(kv[a], o);
        if entry_equal(kv[a], o) {
            lemma_equal_entries_remove_one(kv[a], o);
        }
    }
    assert forall|a: int| k <= a < kv.len() implies entry_order(o, #[trigger] kv[a]) < 0 by {
        if a > k {
            lemma_entry_order_trans(o, kv[k], kv[a]);
        }
    }
}

/// Placing a context at its sorted position in a well-formed set of contexts
/// that it does not overlap keeps the set well formed.
pub proof fn lemma_place_wf(kv: Seq<Option<Seq<char>>>, o: Option<Seq<char>>, k: int)
    requires
        entries_wf(kv),
        0 <= k <= kv.len(),
        forall|a: int| 0 <= a < kv.len() ==> precedence_of(#[trigger] kv[a], o) == Precedence::KeepBoth,
        forall|a: int| 0 <= a < k ==> entry_order(o, #[trigger] kv[a]) >= 0,
        k < kv.len() ==> entry_order(o, kv[k]) < 0,
    ensures
        entries_wf(kv.take(k) + seq![o] + kv.skip(k)),
{
    lemma_place_facts(kv, o, k);
    let f = kv.take(k) + seq![o] + kv.skip(k);
    let g = |i: int| if i < k { i } else { i - 1 };
    assert forall|i: int| 0 <= i < f.len() && i != k implies #[trigger] f[i] == kv[g(i)] by {}
    assert(f[k] == o);
    assert forall|i: int, j: int| 0 <= i < j < f.len() implies entry_order(f[i], f[j]) < 0 by {
        if i != k && j != k {
            assert(f[i] == kv[g(i)]);
            assert(f[j] == kv[g(j)]);
            assert(g(i) < g(j));
        } else if i == k {
            assert(f[j] == kv[g(j)]);
        } else {
            assert(f[i] == kv[g(i)]);
        }
    }
    assert forall|i: int, j: int|
        0 <= i < f.len() && 0 <= j < f.len() && i != j implies #[trigger] precedence_of(f[i], f[j])
        == Precedence::KeepBoth by {
        if i != k && j != k {
            assert(f[i] == kv[g(i)]);
            assert(f[j] == kv[g(j)]);
            assert(g(i) != g(j));
        } else if i == k {
            assert(f[j] == kv[g(j)]);
        } else {
            assert(f[i] == kv[g(i)]);
        }
    }
}


/// The inserted context is in the sorted insertion.
proof fn lemma_insert_sorted_contains(kv: Seq<Option<Seq<char>>>, o: Option<Seq<char>>)
    ensures
        insert_sorted(kv, o).contains(o),
    decreases kv.len(),
{
    if kv.len() == 0 {
        assert(insert_sorted(kv, o)[0] == o);
    } else if entry_order(o, kv[0]) < 0 {
        assert(insert_sorted(kv, o)[0] == o);
    } else {
        lemma_insert_sorted_contains(kv.drop_first(), o);
        let t = insert_sorted(kv.drop_first(), o);
        let i = choose|i: int| 0 <= i < t.len() && t[i] == o;
        assert(insert_sorted(kv, o)[i + 1] == o);
    }
}

/// Law: inserting the same context twice is the same as inserting it once;
/// the second insertion is ignored.
pub proof fn lemma_insert_idempotent(s: Seq<Option<Seq<char>>>, o: Option<Seq<char>>)
    ensures
        insert_ignored(set_after_insert(s, o), o),
        set_after_insert(set_after_insert(s, o), o) == set_after_insert(s, o),
{
    if !insert_ignored(s, o) {
        let kept = s.filter(|e: Option<Seq<char>>| precedence_of(e, o) == Precedence::KeepBoth);
        lemma_insert_sorted_contains(kept, o);
        let t = insert_sorted(kept, o);
        let i = choose|i: int| 0 <= i < t.len() && t[i] == o;
        lemma_precedence_self(o);
        assert(precedence_of(t[i], o) == Precedence::RemoveOne);
    }
}

/// Context `a` is broader than context `b`: `b` is unrestricted and `a` is
/// not, or `b` lies strictly beneath `a`.
pub open spec fn covers(a: Option<Seq<char>>, b: Option<Seq<char>>) -> bool {
    precedence_of(a, b) == Precedence::RemoveOther
}

/// Membership in a filtered sequence.
proof fn lemma_filter_has(s: Seq<Option<Seq<char>>>, p: spec_fn(Option<Seq<char>>) -> bool, e: Option<Seq<char>>)
    ensures
        s.filter(p).contains(e) <==> s.contains(e) && p(e),
{
    if s.filter(p).contains(e) {
        s.lemma_filter_contains_rev(p, e);
        let j = choose|j: int| 0 <= j < s.filter(p).len() && s.filter(p)[j] == e;
        s.lemma_filter_pred(p, j);
    }
    if s.contains(e) && p(e) {
        let i = choose|i: int| 0 <= i < s.len() && s[i] == e;
        s.lemma_filter_contains(p, i);
    }
}

/// The sorted insertion holds the context and what the sequence held.
proof fn lemma_insert_sorted_has(kv: Seq<Option<Seq<char>>>, o: Option<Seq<char>>, x: Option<Seq<char>>)
    ensures
        insert_sorted(kv, o).contains(x) <==> (kv.contains(x) || x == o),
    decreases kv.len(),
{
    if kv.len() == 0 {
        assert(seq![o][0] == o);
    } else if entry_order(o, kv[0]) < 0 {
        let t = seq![o] + kv;
        assert(t[0] == o);
        if kv.contains(x) {
            let i = choose|i: int| 0 <= i < kv.len() && kv[i] == x;
            assert(t[i + 1] == x);
        }
        if t.contains(x) && x != o {
            let i = choose|i: int| 0 <= i < t.len() && t[i] == x;
            assert(kv[i - 1] == x);
        }
    } else {
        let r = insert_sorted(kv.drop_first(), o);
        let t = seq![kv[0]] + r;
        lemma_insert_sorted_has(kv.drop_first(), o, x);
        assert(t[0] == kv[0]);
        if kv.contains(x) && x != kv[0] {
            let i = choose|i: int| 0 <= i < kv.len() && kv[i] == x;
            assert(kv.drop_first()[i - 1] == x);
        }
        if r.contains(x) {
            let i = choose|i: int| 0 <= i < r.len() && r[i] == x;
            assert(t[i + 1] == x);
        }
        if t.contains(x) && x != kv[0] {
            let i = choose|i: int| 0 <= i < t.len() && t[i] == x;
            assert(r[i - 1] == x);
        }
        if kv.drop_first().contains(x) {
            let i = choose|i: int| 0 <= i < kv.drop_first().len() && kv.drop_first()[i] == x;
            assert(kv[i + 1] == x);
        }
    }
}

/// Law: inserting a context adds nothing but that context: every context of
/// the set after the insertion was in the set before or is the one inserted.
pub proof fn lemma_set_after_insert_has(s: Seq<Option<Seq<char>>>, o: Option<Seq<char>>, x: Option<Seq<char>>)
    requires
        set_after_insert(s, o).contains(x),
    ensures
        s.contains(x) || x == o,
{
    if !insert_ignored(s, o) {
        let keep = |e: Option<Seq<char>>| precedence_of(e, o) == Precedence::KeepBoth;
        lemma_insert_sorted_has(s.filter(keep), o, x);
        lemma_filter_has(s, keep, x);
    }
}

/// Law: covering passes on: a context broader than `e`, where `e` is equal to
/// or broader than `x`, is broader than `x`.
pub proof fn lemma_covers_trans(o: Option<Seq<char>>, e: Option<Seq<char>>, x: Option<Seq<char>>)
    requires
        precedence_of(e, o) == Precedence::RemoveSelf,
        precedence_of(e, x) == Precedence::RemoveOne || precedence_of(e, x) == Precedence::RemoveOther,
    ensures
        precedence_of(o, x) == Precedence::RemoveOther,
{
    match (o, e, x) {
        (Some(po), Some(pe), Some(px)) => {
            let co = components(po);
            let ce = components(pe);
            let cx = components(px);
            assert(co.is_prefix_of(ce));
            assert(!ce.is_prefix_of(co));
            assert(ce.is_prefix_of(cx));
            assert(co.len() < ce.len()) by {
                if co.len() >= ce.len() {
                    assert(ce =~= co.subrange(0, ce.len() as int));
                }
            }
            assert(co =~= cx.subrange(0, co.len() as int)) by {
                assert forall|k: int| 0 <= k < co.len() implies co[k] == cx[k] by {
                    assert(co[k] == ce.subrange(0, co.len() as int)[k]);
                    assert(ce[k] == cx.subrange(0, ce.len() as int)[k]);
                }
            }
            assert(co.is_prefix_of(cx));
            assert(!cx.is_prefix_of(co));
        },
        _ => {},
    }
}

/// Law: once some context of a set is equal to or broader than `x`, it stays
/// so after any insertion: a context is only removed by a broader one.
pub proof fn lemma_ignored_persists(s: Seq<Option<Seq<char>>>, o: Option<Seq<char>>, x: Option<Seq<char>>)
    requires
        insert_ignored(s, x),
    ensures
        insert_ignored(set_after_insert(s, o), x),
{
    if !insert_ignored(s, o) {
        let i = choose|i: int|
            0 <= i < s.len() && (precedence_of(s[i], x) == Precedence::RemoveOne || precedence_of(s[i], x)
                == Precedence::RemoveOther);
        let e = s[i];
        let keep = |q: Option<Seq<char>>| precedence_of(q, o) == Precedence::KeepBoth;
        let t = insert_sorted(s.filter(keep), o);
        assert(set_after_insert(s, o) == t);
        assert(s.contains(e));
        if precedence_of(e, o) == Precedence::KeepBoth {
            lemma_filter_has(s, keep, e);
            lemma_insert_sorted_has(s.filter(keep), o, e);
            let k = choose|k: int| 0 <= k < t.len() && t[k] == e;
            assert(precedence_of(t[k], x) == precedence_of(e, x));
        } else {
            assert(precedence_of(e, o) != Precedence::RemoveOne);
            assert(precedence_of(e, o) != Precedence::RemoveOther);
            assert(precedence_of(e, o) == Precedence::RemoveSelf);
            lemma_covers_trans(o, e, x);
            lemma_insert_sorted_has(s.filter(keep), o, o);
            let k = choose|k: int| 0 <= k < t.len() && t[k] == o;
            assert(precedence_of(t[k], x) == Precedence::RemoveOther);
        }
    }
}

/// Law: after inserting `o`, some context of the set is equal to or broader
/// than `o`.
pub proof fn lemma_inserted_is_held(s: Seq<Option<Seq<char>>>, o: Option<Seq<char>>)
    ensures
        insert_ignored(set_after_insert(s, o), o),
{
    if !insert_ignored(s, o) {
        let keep = |q: Option<Seq<char>>| precedence_of(q, o) == Precedence::KeepBoth;
        let t = insert_sorted(s.filter(keep), o);
        lemma_insert_sorted_has(s.filter(keep), o, o);
        let k = choose|k: int| 0 <= k < t.len() && t[k] == o;
        lemma_precedence_self(o);
        assert(precedence_of(t[k], o) == Precedence::RemoveOne);
    }
}

/// Law: in a set where no context covers another, a context equal to `o`
/// and one covering `o` never stand together; equality is what makes
/// `RemoveOne`; and where neither stands, inserting `o` removes exactly the
/// contexts that `o` covers and adds `o`.
pub proof fn lemma_insert_law(s: Seq<Option<Seq<char>>>, o: Option<Seq<char>>)
    requires
        entries_wf(s),
    ensures
        (exists|i: int| 0 <= i < s.len() && precedence_of(s[i], o) == Precedence::RemoveOne) <==> (exists|i: int|
            0 <= i < s.len() && entry_equal(s[i], o)),
        (exists|i: int| 0 <= i < s.len() && entry_equal(s[i], o)) ==> !(exists|i: int|
            0 <= i < s.len() && covers(s[i], o)),
        (forall|i: int| 0 <= i < s.len() ==> !entry_equal(s[i], o) && !covers(#[trigger] s[i], o)) ==> {
            &&& forall|i: int|
                0 <= i < s.len() ==> (precedence_of(s[i], o) == Precedence::KeepBoth || precedence_of(s[i], o)
                    == Precedence::RemoveSelf)
            &&& forall|e: Option<Seq<char>>|
                (s.contains(e) && precedence_of(e, o) == Precedence::RemoveSelf) <==> (s.contains(e) && covers(o, e))
            &&& set_after_insert(s, o).to_set() == s.to_set().filter(|e: Option<Seq<char>>| !covers(o, e)).insert(o)
        },
{
    assert forall|i: int| 0 <= i < s.len() implies (precedence_of(s[i], o) == Precedence::RemoveOne <==> entry_equal(s[i], o)) by {
        if entry_equal(s[i], o) {
            lemma_equal_entries_remove_one(s[i], o);
        }
        if precedence_of(s[i], o) == Precedence::RemoveOne {
            match (s[i], o) {
                (Some(x), Some(y)) => {
                    assert(components(x) =~= components(y));
                },
                _ => {},
            }
        }
    }
    if exists|i: int| 0 <= i < s.len() && entry_equal(s[i], o) {
        let i = choose|i: int| 0 <= i < s.len() && entry_equal(s[i], o);
        if exists|j: int| 0 <= j < s.len() && covers(s[j], o) {
            let j = choose|j: int| 0 <= j < s.len() && covers(s[j], o);
            match (s[i], s[j], o) {
                (Some(x), Some(z), Some(y)) => {
                    assert(components(x) == components(y));
                },
                _ => {},
            }
            assert(precedence_of(s[j], s[i]) == Precedence::RemoveOther);
            assert(false);
        }
    }
    if forall|i: int| 0 <= i < s.len() ==> !entry_equal(s[i], o) && !covers(#[trigger] s[i], o) {
        assert forall|e: Option<Seq<char>>|
            (s.contains(e) && precedence_of(e, o) == Precedence::RemoveSelf) <==> (s.contains(e) && covers(o, e)) by {
            lemma_precedence_mirror(e, o);
        }
        assert(!insert_ignored(s, o));
        let keep = |e: Option<Seq<char>>| precedence_of(e, o) == Precedence::KeepBoth;
        let kept = s.filter(keep);
        let t = insert_sorted(kept, o);
        assert forall|x: Option<Seq<char>>|
            t.to_set().contains(x) <==> s.to_set().filter(|e: Option<Seq<char>>| !covers(o, e)).insert(o).contains(x) by {
            lemma_insert_sorted_has(kept, o, x);
            lemma_filter_has(s, keep, x);
            lemma_precedence_mirror(x, o);
            if s.contains(x) {
                let i = choose|i: int| 0 <= i < s.len() && s[i] == x;
                assert(!covers(s[i], o));
            }
        }
        assert(t.to_set() =~= s.to_set().filter(|e: Option<Seq<char>>| !covers(o, e)).insert(o));
    }
}

/// What every warning begins with: the profile's name.
pub open spec fn warning_prefix(profile_name: Seq<char>) -> Seq<char> {
    "profile \""@ + profile_name + "\" has "@
}

/// A text that begins with `a + b`, followed by a literal that begins with
/// `c`, begins with `a + b + c`.
proof fn lemma_begins_with(a: Seq<char>, b: Seq<char>, c: Seq<char>, lit: Seq<char>, rest: Seq<char>)
    requires
        c.len() <= lit.len(),
        lit.take(c.len() as int) == c,
    ensures
        (a + b + lit + rest).take((a + b + c).len() as int) == a + b + c,
{
    assert forall|i: int| 0 <= i < (a + b + c).len() implies (a + b + lit + rest)[i] == (a + b + c)[i] by {
        if i >= a.len() + b.len() {
            assert(lit.take(c.len() as int)[i - a.len() - b.len()] == lit[i - a.len() - b.len()]);
        }
    }
    assert((a + b + lit + rest).take((a + b + c).len() as int) =~= a + b + c);
}

/// Law: an insertion outcome deserves no warning exactly where it swapped
/// nothing out; every warning begins with `profile "<name>" has `.
pub proof fn lemma_warning_names_profile(x: InsertResult, profile_name: Seq<char>)
    ensures
        warning_text(x, profile_name) is None <==> (x matches InsertResult::Swapped(v) && v@.len() == 0),
        warning_text(x, profile_name) matches Some(m) ==> m.len() >= warning_prefix(profile_name).len()
            && m.take(warning_prefix(profile_name).len() as int) == warning_prefix(profile_name),
{
    reveal_strlit("profile \"");
    reveal_strlit("\" has ");
    reveal_strlit("\" has overlapping contexts: kept the more specific one and removed {");
    reveal_strlit("\" has duplicate contexts: ignoring ");
    reveal_strlit("\" has overlapping contexts: ignoring ");
    let a = "profile \""@;
    let c = "\" has "@;
    match x {
        InsertResult::Swapped(contexts) => {
            if contexts@.len() != 0 {
                let lit = "\" has overlapping contexts: kept the more specific one and removed {"@;
                assert(lit.take(c.len() as int) =~= c);
                let rest = entries_debug(entries_view(contexts@)) + "}"@;
                assert(warning_text(x, profile_name) == Some(a + profile_name + lit + rest)) by {
                    assert(a + profile_name + lit + entries_debug(entries_view(contexts@)) + "}"@
                        =~= a + profile_name + lit + rest);
                }
                lemma_begins_with(a, profile_name, c, lit, rest);
            }
        },
        InsertResult::IgnoredEqual(e) => {
            let lit = "\" has duplicate contexts: ignoring "@;
            assert(lit.take(c.len() as int) =~= c);
            lemma_begins_with(a, profile_name, c, lit, entry_debug(e@));
        },
        InsertResult::IgnoredSubset(e) => {
            let lit = "\" has overlapping contexts: ignoring "@;
            assert(lit.take(c.len() as int) =~= c);
            lemma_begins_with(a, profile_name, c, lit, entry_debug(e@));
        },
    }
}

} // verus!
