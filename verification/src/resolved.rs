//! A profile resolved for a run, and the order in which resolved profiles apply.
use vstd::prelude::*;
use vstd::std_specs::cmp::{PartialEqSpecImpl, PartialOrdSpecImpl};
use std::cmp::Ordering;
use crate::config::{Profile, Env, ConfigError};
use crate::context::{ContextEntry, entry_order, lemma_entry_order_antisym, lemma_entry_order_trans, entry_equal};
use crate::path::{components, lemma_comps_order_antisym, lemma_comps_order_trans};
use crate::text::{
    Order, char_seq_order, compare_strings, lemma_char_seq_order_antisym, lemma_char_seq_order_trans,
};

verus! {

/// A profile selected for a run, with the context that selected it (if it was
/// selected by directory) and its loaded configuration.
#[derive(Debug)]
pub struct ResolvedProfile<'a, C> {
    pub name: &'a str,
    pub profile: &'a Profile,
    pub context: Option<&'a ContextEntry>,
    pub config: C,
    pub env_vars: &'a Vec<Env>,
    pub workspace: bool,
}

/// The view of an optional context reference.
pub open spec fn context_view(c: Option<&ContextEntry>) -> Option<Option<Seq<char>>> {
    match c {
        Some(e) => Some(e@),
        None => None,
    }
}

/// Order of optional contexts: no context first, then the contexts' order.
pub open spec fn context_order(a: Option<Option<Seq<char>>>, b: Option<Option<Seq<char>>>) -> int {
    match (a, b) {
        (None, None) => 0,
        (None, Some(_)) => -1,
        (Some(_), None) => 1,
        (Some(x), Some(y)) => entry_order(x, y),
    }
}

/// The order of resolved profiles: the one with the broadest (smallest)
/// context first, then by name.
pub open spec fn resolved_order(
    a: (Option<Option<Seq<char>>>, Seq<char>),
    b: (Option<Option<Seq<char>>>, Seq<char>),
) -> int {
    if context_order(a.0, b.0) != 0 {
        context_order(a.0, b.0)
    } else {
        char_seq_order(a.1, b.1)
    }
}

/// Strictly increasing in the order of resolved profiles.
pub open spec fn resolved_sorted(s: Seq<(Option<Option<Seq<char>>>, Seq<char>)>) -> bool {
    forall|i: int, j: int| 0 <= i < j < s.len() ==> resolved_order(s[i], s[j]) < 0
}

/// The comparison as a standard `Ordering`.
pub open spec fn ordering_of(i: int) -> Ordering {
    if i < 0 {
        Ordering::Less
    } else if i == 0 {
        Ordering::Equal
    } else {
        Ordering::Greater
    }
}

/// The order of optional contexts is antisymmetric.
proof fn lemma_context_order(a: Option<Option<Seq<char>>>, b: Option<Option<Seq<char>>>)
    ensures
        context_order(a, b) == -context_order(b, a),
{
    match (a, b) {
        (Some(x), Some(y)) => lemma_entry_order_antisym(x, y),
        _ => {},
    }
}

/// Law: the order of resolved profiles is antisymmetric.
pub proof fn lemma_resolved_order_antisym(
    a: (Option<Option<Seq<char>>>, Seq<char>),
    b: (Option<Option<Seq<char>>>, Seq<char>),
)
    ensures
        resolved_order(a, b) == -resolved_order(b, a),
{
    lemma_context_order(a.0, b.0);
    lemma_char_seq_order_antisym(a.1, b.1);
}

/// Law: the order of resolved profiles is transitive.
pub proof fn lemma_resolved_order_trans(
    a: (Option<Option<Seq<char>>>, Seq<char>),
    b: (Option<Option<Seq<char>>>, Seq<char>),
    c: (Option<Option<Seq<char>>>, Seq<char>),
)
    requires
        resolved_order(a, b) < 0,
        resolved_order(b, c) < 0,
    ensures
        resolved_order(a, c) < 0,
{
    lemma_context_order(a.0, b.0);
    lemma_context_order(b.0, c.0);
    lemma_context_order(a.0, c.0);
    lemma_char_seq_order_antisym(a.1, b.1);
    lemma_char_seq_order_antisym(b.1, c.1);
    lemma_char_seq_order_antisym(a.1, c.1);
    match (a.0, b.0, c.0) {
        (Some(x), Some(y), Some(z)) => {
            lemma_entry_order_antisym(x, y);
            lemma_entry_order_antisym(y, z);
            lemma_entry_order_antisym(x, z);
            match (x, y, z) {
                (Some(p), Some(q), Some(r)) => {
                    if entry_order(x, y) <= 0 && entry_order(y, z) <= 0 {
                        lemma_comps_order_trans(components(p), components(q), components(r));
                    }
                },
                _ => {},
            }
        },
        _ => {},
    }
    if context_order(a.0, b.0) == 0 && context_order(b.0, c.0) == 0 {
        lemma_char_seq_order_trans(a.1, b.1, c.1);
    }
    if context_order(a.0, b.0) == 0 && context_order(b.0, c.0) != 0 {
        assert(context_order(a.0, c.0) == context_order(b.0, c.0)) by {
            match (a.0, b.0, c.0) {
                (Some(x), Some(y), Some(z)) => {
                    match (x, y, z) {
                        (Some(p), Some(q), Some(r)) => {
                            lemma_comps_order_antisym(components(p), components(q));
                        },
                        _ => {},
                    }
                },
                _ => {},
            }
        }
    }
    if context_order(a.0, b.0) != 0 && context_order(b.0, c.0) == 0 {
        assert(context_order(a.0, c.0) == context_order(a.0, b.0)) by {
            match (a.0, b.0, c.0) {
                (Some(x), Some(y), Some(z)) => {
                    match (x, y, z) {
                        (Some(p), Some(q), Some(r)) => {
                            lemma_comps_order_antisym(components(q), components(r));
                        },
                        _ => {},
                    }
                },
                _ => {},
            }
        }
    }
}

impl<'a, C> ResolvedProfile<'a, C> {
    /// Resolves a profile for a run: its configuration is loaded by
    /// `load_config`, whose failure is returned as it is.
    pub fn new<F>(name: &'a str, profile: &'a Profile, load_config: &F, context: Option<&'a ContextEntry>) -> (r: Result<
        Self,
        ConfigError,
    >) where F: Fn(&str) -> Result<C, ConfigError>
        requires
            call_requires(*load_config, (name,)),
        ensures
            match r {
                Ok(p) => {
                    &&& p.name == name
                    &&& p.profile == profile
                    &&& p.context == context
                    &&& *p.env_vars == profile.env_vars
                    &&& p.workspace == profile.workspace
                    &&& call_ensures(*load_config, (name,), Ok::<C, ConfigError>(p.config))
                },
                Err(e) => call_ensures(*load_config, (name,), Err::<C, ConfigError>(e)),
            },
    {
        match load_config(name) {
            Ok(config) => Ok(ResolvedProfile {
                name,
                profile,
                context,
                config,
                env_vars: &profile.env_vars,
                workspace: profile.workspace,
            }),
            Err(e) => Err(e),
        }
    }

    /// What the order of resolved profiles looks at: the context and the name.
    pub open spec fn key(&self) -> (Option<Option<Seq<char>>>, Seq<char>) {
        (context_view(self.context), self.name@)
    }

    /// Compares two resolved profiles: the greatest has the more tailored
    /// context, otherwise the profile names decide.
    pub fn compare(&self, other: &Self) -> (r: Order)
        ensures
            r.as_int() == resolved_order(self.key(), other.key()),
    {
        let c = match (self.context, other.context) {
            (None, None) => Order::Equal,
            (None, Some(_)) => Order::Less,
            (Some(_), None) => Order::Greater,
            (Some(x), Some(y)) => x.compare_entries(y),
        };
        match c {
            Order::Equal => compare_strings(self.name, other.name),
            o => o,
        }
    }
}

/// The keys of a sequence of resolved profiles.
pub open spec fn resolved_view<'a, C>(v: Seq<ResolvedProfile<'a, C>>) -> Seq<(Option<Option<Seq<char>>>, Seq<char>)> {
    v.map_values(|r: ResolvedProfile<'a, C>| r.key())
}

impl<'a, C> PartialEq for ResolvedProfile<'a, C> {
    fn eq(&self, other: &Self) -> (r: bool) {
        match self.compare(other) {
            Order::Equal => true,
            _ => false,
        }
    }
}

impl<'a, C> PartialEqSpecImpl for ResolvedProfile<'a, C> {
    open spec fn obeys_eq_spec() -> bool {
        true
    }

    open spec fn eq_spec(&self, other: &Self) -> bool {
        resolved_order(self.key(), other.key()) == 0
    }
}

impl<'a, C> Eq for ResolvedProfile<'a, C> {
}

impl<'a, C> PartialOrd for ResolvedProfile<'a, C> {
    fn partial_cmp(&self, other: &Self) -> (r: Option<Ordering>) {
        match self.compare(other) {
            Order::Less => Some(Ordering::Less),
            Order::Equal => Some(Ordering::Equal),
            Order::Greater => Some(Ordering::Greater),
        }
    }
}

impl<'a, C> PartialOrdSpecImpl for ResolvedProfile<'a, C> {
    open spec fn obeys_partial_cmp_spec() -> bool {
        true
    }

    open spec fn partial_cmp_spec(&self, other: &Self) -> Option<Ordering> {
        Some(ordering_of(resolved_order(self.key(), other.key())))
    }
}

} // verus!
