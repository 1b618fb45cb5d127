//! Resolver bodies and the process-wide registry that names them.

use vstd::prelude::*;
use crate::error::ResolveError;
use crate::error::msg_error;
use crate::pattern::Pattern;
use crate::pattern::PatternModel;

verus! {

broadcast use vstd::string::group_string_axioms;

/// What a resolver does once its pattern matches have arrived.
#[derive(Debug, Clone, Copy, PartialEq, Eq, Structural)]
pub enum Post {
    /// Require one unique match and return its address.
    SelfAddress,
    /// Require one unique match and return the start of the function
    /// containing it, via the exception table.
    Function,
    /// Require one unique match and decode the RIP-relative displacement at
    /// it, the payload being the distance to the end of the instruction.
    RipOffset(usize),
    /// Count the matches.
    Count,
}

/// A resolver's body: the pure async computation it runs, as data.
pub enum ResolverBody {
    /// Scan for every pattern of the set, merge the matches in pattern
    /// order, and post-process them.
    Scan { patterns: Vec<Pattern>, post: Post },
    /// Resolve every child; any child error fails the whole record with the
    /// first error.
    TryCollect { children: Vec<u64> },
    /// Resolve every child; keep each child's result as a record field.
    Collect { children: Vec<u64> },
}

/// The mathematical content of a resolver body.
pub enum BodyModel {
    Scan { patterns: Seq<PatternModel>, post: Post },
    TryCollect { children: Seq<u64> },
    Collect { children: Seq<u64> },
}

impl View for ResolverBody {
    type V = BodyModel;

    open spec fn view(&self) -> BodyModel {
        match self {
            ResolverBody::Scan { patterns, post } => BodyModel::Scan {
                patterns: patterns@.map_values(|p: Pattern| p@),
                post: *post,
            },
            ResolverBody::TryCollect { children } => BodyModel::TryCollect {
                children: children@,
            },
            ResolverBody::Collect { children } => BodyModel::Collect { children: children@ },
        }
    }
}

/// A resolver registered for dynamic lookup: its name, its identity, and
/// its body. The output identity `id` plays the role the output type plays
/// for statically-typed resolvers: one resolver per identity.
pub struct NamedResolver {
    pub name: String,
    pub id: u64,
    pub body: ResolverBody,
}

/// The set of registered resolvers, append-only, at most one per identity.
pub struct Registry {
    entries: Vec<NamedResolver>,
}

/// The identity of the entry at `i`.
pub open spec fn entry_id(entries: Seq<NamedResolver>, i: int) -> u64 {
    entries[i].id
}

/// The first entry from `i` on with identity `id`.
pub open spec fn find_entry_from(entries: Seq<NamedResolver>, id: u64, i: int) -> Option<int>
    decreases entries.len() - i,
{
    if i < 0 || i >= entries.len() {
        None
    } else if entries[i].id == id {
        Some(i)
    } else {
        find_entry_from(entries, id, i + 1)
    }
}

impl Registry {
    /// The registered resolvers, in registration order.
    pub closed spec fn spec_entries(self) -> Seq<NamedResolver> {
        self.entries@
    }

    /// No two entries share an identity.
    pub open spec fn wf(self) -> bool {
        forall|i: int, j: int|
            0 <= i < j < self.spec_entries().len() ==> entry_id(self.spec_entries(), i)
                != entry_id(self.spec_entries(), j)
    }

    /// Whether some entry carries the identity `id`.
    pub open spec fn spec_contains(self, id: u64) -> bool {
        exists|i: int| 0 <= i < self.spec_entries().len() && entry_id(self.spec_entries(), i) == id
    }

    /// The body registered under `id`, if any.
    pub open spec fn spec_find(self, id: u64) -> Option<BodyModel> {
        match find_entry_from(self.spec_entries(), id, 0) {
            Some(i) => Some(self.spec_entries()[i].body@),
            None => None,
        }
    }

    /// An empty registry.
    pub fn new() -> (r: Registry)
        ensures
            r.spec_entries() == Seq::<NamedResolver>::empty(),
            r.wf(),
    {
        Registry { entries: Vec::new() }
    }

    /// Submits a resolver. Registration is append-only and refuses a second
    /// resolver with an identity already taken.
    pub fn register(&mut self, resolver: NamedResolver) -> (r: Result<(), ResolveError>)
        requires
            old(self).wf(),
        ensures
            final(self).wf(),
            old(self).spec_contains(resolver.id) ==> (r matches Err(e) && e.is_msg(
                "a resolver with this identity is already registered"@,
            ) && final(self).spec_entries() == old(self).spec_entries()),
            !old(self).spec_contains(resolver.id) ==> (r matches Ok(u) && final(self).spec_entries()
                == old(self).spec_entries().push(resolver)),
    {
        let mut i: usize = 0;
        while i < self.entries.len()
            invariant
                self == old(self),
                old(self).wf(),
                i <= self.entries@.len(),
                forall|k: int| 0 <= k < i ==> entry_id(self.entries@, k) != resolver.id,
            decreases self.entries@.len() - i,
        {
            if self.entries[i].id == resolver.id {
                proof {
                    assert(entry_id(self.spec_entries(), i as int) == resolver.id);
                }
                return Err(msg_error("a resolver with this identity is already registered"));
            }
            i = i + 1;
        }
        proof {
            assert(!old(self).spec_contains(resolver.id)) by {
                if old(self).spec_contains(resolver.id) {
                    let k = choose|k: int|
                        0 <= k < old(self).spec_entries().len() && entry_id(
                            old(self).spec_entries(),
                            k,
                        ) == resolver.id;
                    assert(entry_id(self.entries@, k) != resolver.id);
                }
            }
        }
        self.entries.push(resolver);
        proof {
            let post = self.spec_entries();
            assert forall|a: int, b: int| 0 <= a < b < post.len() implies entry_id(post, a)
                != entry_id(post, b) by {
                if b == post.len() - 1 {
                    assert(entry_id(old(self).spec_entries(), a) != resolver.id);
                } else {
                    assert(entry_id(old(self).spec_entries(), a) != entry_id(
                        old(self).spec_entries(),
                        b,
                    ));
                }
            }
        }
        Ok(())
    }

    /// The registered resolvers, for iteration: every statically declared
    /// resolver stands here exactly once.
    pub fn resolvers(&self) -> (r: &Vec<NamedResolver>)
        ensures
            r@ == self.spec_entries(),
    {
        &self.entries
    }

    /// The body registered under `id`.
    pub fn lookup(&self, id: u64) -> (r: Option<&ResolverBody>)
        ensures
            match self.spec_find(id) {
                Some(b) => r matches Some(body) && body@ == b,
                None => r is None,
            },
    {
        let mut i: usize = 0;
        while i < self.entries.len()
            invariant
                i <= self.entries@.len(),
                find_entry_from(self.entries@, id, 0) == find_entry_from(
                    self.entries@,
                    id,
                    i as int,
                ),
            decreases self.entries@.len() - i,
        {
            if self.entries[i].id == id {
                return Some(&self.entries[i].body);
            }
            i = i + 1;
        }
        None
    }
}

/// A found entry lies in range and carries the identity looked for.
pub proof fn lemma_find_entry_bounds(entries: Seq<NamedResolver>, id: u64, i: int)
    ensures
        find_entry_from(entries, id, i) matches Some(j) ==> i <= j < entries.len()
            && entry_id(entries, j) == id,
    decreases entries.len() - i,
{
    if i < 0 || i >= entries.len() {
    } else if entries[i].id == id {
    } else {
        lemma_find_entry_bounds(entries, id, i + 1);
    }
}

proof fn lemma_find_entry_hits(entries: Seq<NamedResolver>, id: u64, j: int, i: int)
    requires
        0 <= i <= j,
        0 <= j < entries.len(),
        entries[j].id == id,
        forall|k: int| i <= k < j ==> entry_id(entries, k) != id,
    ensures
        find_entry_from(entries, id, i) == Some(j),
    decreases entries.len() - i,
{
    if i == j {
    } else {
        assert(entry_id(entries, i) != id);
        lemma_find_entry_hits(entries, id, j, i + 1);
    }
}

/// In a well-formed registry, looking an entry's identity up yields that
/// entry's body.
pub proof fn lemma_spec_find_unique(reg: Registry, j: int)
    requires
        reg.wf(),
        0 <= j < reg.spec_entries().len(),
    ensures
        reg.spec_find(reg.spec_entries()[j].id) == Some(reg.spec_entries()[j].body@),
{
    let entries = reg.spec_entries();
    assert forall|k: int| 0 <= k < j implies entry_id(entries, k) != entries[j].id by {
        assert(entry_id(entries, k) != entry_id(entries, j));
    }
    lemma_find_entry_hits(entries, entries[j].id, j, 0);
}

/// The registry enumerates every declared resolver exactly once: among the
/// entries that `resolvers` yields, no identity appears at two positions.
pub proof fn lemma_registry_enumerates_each_resolver_once(reg: Registry)
    requires
        reg.wf(),
    ensures
        forall|i: int, j: int|
            (0 <= i < reg.spec_entries().len() && 0 <= j < reg.spec_entries().len() && entry_id(
                reg.spec_entries(),
                i,
            ) == entry_id(reg.spec_entries(), j)) ==> i == j,
{
}

} // verus!
