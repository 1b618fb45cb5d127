//! The resolver runtime: a cooperative executor that drives resolver
//! tasks over one shared context, batches their parked scans into one
//! sweep per memory section at each flush, and memoises every result by
//! resolver identity.

use vstd::prelude::*;
use vstd::std_specs::cmp::PartialEqSpec;
use crate::error::ResolveError;
use crate::error::ResolveErrorModel;
use crate::error::msg_error;
use crate::image::Image;
use crate::pattern::Pattern;
use crate::pattern::PatternModel;
use crate::registry::BodyModel;
use crate::registry::NamedResolver;
use crate::registry::Post;
use crate::registry::entry_id;
use crate::registry::find_entry_from;
use crate::registry::lemma_find_entry_bounds;
use crate::registry::lemma_spec_find_unique;
use crate::registry::Registry;
use crate::registry::ResolverBody;
use crate::resolvers::ResolutionModel;
use crate::resolvers::ResolveStages;
use crate::resolvers::ensure_one;
use crate::resolvers::resolve_rip;
use crate::resolvers::ResolutionType;
use crate::scanner::scan_matches;
use crate::semantics::ResolvedModel;
use crate::semantics::ResolvedValue;
use crate::semantics::all_equal;
use crate::semantics::all_matches;
use crate::semantics::clone_entry;
use crate::semantics::clone_entry_vec;
use crate::semantics::clone_value;
use crate::semantics::fields_model;
use crate::semantics::lemma_fields_model;
use crate::semantics::ensure_one_spec;
use crate::semantics::entry_view;
use crate::semantics::first_error_index;
use crate::semantics::lemma_all_matches_take_step;
use crate::semantics::lemma_empty_memory_scan_body;
use crate::semantics::lemma_first_error_all_ok;
use crate::semantics::lemma_first_error_found;
use crate::semantics::lemma_merged_take_step;
use crate::semantics::merged_matches;
use crate::semantics::scan_body_result;
use crate::semantics::spec_collect;
use crate::semantics::spec_post;
use crate::semantics::spec_try_collect;

verus! {

broadcast use vstd::string::group_string_axioms;

/// A parked scan: the pattern waits in the queue until the next flush, which
/// delivers the merged matches into slot `slot` of task `task`.
pub struct ScanRequest {
    pub pattern: Pattern,
    pub task: usize,
    pub slot: usize,
}

/// How far a resolver task has come.
pub enum TaskState {
    /// Spawned, not yet polled.
    Start,
    /// Parked on the scan queue: one slot per pattern, filled at flush.
    AwaitScans { slots: Vec<Option<Vec<usize>>> },
    /// A collector walking its children, the results gathered so far.
    Collecting { next: usize, acc: Vec<Result<ResolvedValue, ResolveError>> },
    /// Finished running; the cache holds the result under the resolver identity.
    Finished,
}

/// One resolver being driven inside a context.
pub struct Task {
    pub resolver_id: u64,
    pub state: TaskState,
}

/// The per-evaluation state of the resolver runtime: the tasks in flight,
/// the write-once result cache keyed by resolver identity, and the queue of
/// parked scans.
pub struct AsyncContext {
    pub tasks: Vec<Task>,
    pub cache: Vec<(u64, Result<ResolvedValue, ResolveError>)>,
    pub queue: Vec<ScanRequest>,
}

/// The first cache position from `i` on holding identity `id`.
pub open spec fn cache_find_from(
    entries: Seq<(u64, Result<ResolvedValue, ResolveError>)>,
    id: u64,
    i: int,
) -> Option<int>
    decreases entries.len() - i,
{
    if i < 0 || i >= entries.len() {
        None
    } else if entries[i].0 == id {
        Some(i)
    } else {
        cache_find_from(entries, id, i + 1)
    }
}

/// The first task position from `i` on driving identity `id`.
pub open spec fn task_index_of(tasks: Seq<Task>, id: u64, i: int) -> Option<int>
    decreases tasks.len() - i,
{
    if i < 0 || i >= tasks.len() {
        None
    } else if tasks[i].resolver_id == id {
        Some(i)
    } else {
        task_index_of(tasks, id, i + 1)
    }
}

/// The children of a collector body; empty for a scanning body.
pub open spec fn body_children(b: BodyModel) -> Seq<u64> {
    match b {
        BodyModel::TryCollect { children } => children,
        BodyModel::Collect { children } => children,
        BodyModel::Scan { .. } => Seq::empty(),
    }
}

/// The one result a resolver can produce over a given image, computed to a
/// recursion depth: `None` where `fuel` levels do not suffice to resolve the
/// dependency tree. A resolver that reaches itself through its children is
/// undefined at every depth; for any other resolver some depth suffices, and
/// all sufficient depths agree.
pub open spec fn spec_resolver_result(reg: Registry, image: Image, id: u64, fuel: nat) -> Option<
    Result<ResolvedModel, ResolveErrorModel>,
>
    decreases fuel, 0nat,
{
    if fuel == 0 {
        None
    } else {
        match reg.spec_find(id) {
            None => Some(Err(ResolveErrorModel::Msg("unknown resolver"@))),
            Some(BodyModel::Scan { patterns, post }) => Some(
                scan_body_result(patterns, post, image),
            ),
            Some(BodyModel::TryCollect { children }) => match spec_try_from(
                reg,
                image,
                children,
                0,
                (fuel - 1) as nat,
            ) {
                None => None,
                Some(Err(e)) => Some(Err(e)),
                Some(Ok(fields)) => Some(Ok(ResolvedModel::Record(fields))),
            },
            Some(BodyModel::Collect { children }) => match spec_collect_from(
                reg,
                image,
                children,
                0,
                (fuel - 1) as nat,
            ) {
                None => None,
                Some(fields) => Some(Ok(ResolvedModel::Record(fields))),
            },
        }
    }
}

/// What a try-collector makes of its children from position `k` on: the
/// first child error short-circuits the whole walk; otherwise the fields
/// gather in child order.
pub open spec fn spec_try_from(
    reg: Registry,
    image: Image,
    children: Seq<u64>,
    k: int,
    fuel: nat,
) -> Option<Result<Seq<Result<ResolvedModel, ResolveErrorModel>>, ResolveErrorModel>>
    decreases fuel, children.len() - k + 1,
{
    if k < 0 || k >= children.len() {
        Some(Ok(Seq::empty()))
    } else {
        match spec_resolver_result(reg, image, children[k], fuel) {
            None => None,
            Some(Err(e)) => Some(Err(e)),
            Some(Ok(v)) => match spec_try_from(reg, image, children, k + 1, fuel) {
                None => None,
                Some(Err(e)) => Some(Err(e)),
                Some(Ok(rest)) => Some(
                    Ok(seq![Ok::<ResolvedModel, ResolveErrorModel>(v)] + rest),
                ),
            },
        }
    }
}

/// What a plain collector makes of its children from position `k` on: every
/// child's own result becomes a field, errors included.
pub open spec fn spec_collect_from(
    reg: Registry,
    image: Image,
    children: Seq<u64>,
    k: int,
    fuel: nat,
) -> Option<Seq<Result<ResolvedModel, ResolveErrorModel>>>
    decreases fuel, children.len() - k + 1,
{
    if k < 0 || k >= children.len() {
        Some(Seq::empty())
    } else {
        match spec_resolver_result(reg, image, children[k], fuel) {
            None => None,
            Some(r) => match spec_collect_from(reg, image, children, k + 1, fuel) {
                None => None,
                Some(rest) => Some(seq![r] + rest),
            },
        }
    }
}

/// Raising the depth never changes a defined result.
proof fn lemma_result_monotone(reg: Registry, image: Image, id: u64, fuel: nat)
    requires
        spec_resolver_result(reg, image, id, fuel) is Some,
    ensures
        spec_resolver_result(reg, image, id, (fuel + 1) as nat) == spec_resolver_result(
            reg,
            image,
            id,
            fuel,
        ),
    decreases fuel, 0nat,
{
    match reg.spec_find(id) {
        Some(BodyModel::TryCollect { children }) => {
            lemma_try_from_monotone(reg, image, children, 0, (fuel - 1) as nat);
        },
        Some(BodyModel::Collect { children }) => {
            lemma_collect_from_monotone(reg, image, children, 0, (fuel - 1) as nat);
        },
        _ => {},
    }
}

proof fn lemma_try_from_monotone(reg: Registry, image: Image, children: Seq<u64>, k: int, fuel: nat)
    requires
        spec_try_from(reg, image, children, k, fuel) is Some,
    ensures
        spec_try_from(reg, image, children, k, (fuel + 1) as nat) == spec_try_from(
            reg,
            image,
            children,
            k,
            fuel,
        ),
    decreases fuel, children.len() - k + 1,
{
    if k < 0 || k >= children.len() {
    } else {
        lemma_result_monotone(reg, image, children[k], fuel);
        match spec_resolver_result(reg, image, children[k], fuel) {
            Some(Ok(v)) => {
                lemma_try_from_monotone(reg, image, children, k + 1, fuel);
            },
            _ => {},
        }
    }
}

proof fn lemma_collect_from_monotone(
    reg: Registry,
    image: Image,
    children: Seq<u64>,
    k: int,
    fuel: nat,
)
    requires
        spec_collect_from(reg, image, children, k, fuel) is Some,
    ensures
        spec_collect_from(reg, image, children, k, (fuel + 1) as nat) == spec_collect_from(
            reg,
            image,
            children,
            k,
            fuel,
        ),
    decreases fuel, children.len() - k + 1,
{
    if k < 0 || k >= children.len() {
    } else {
        lemma_result_monotone(reg, image, children[k], fuel);
        match spec_resolver_result(reg, image, children[k], fuel) {
            Some(r) => {
                lemma_collect_from_monotone(reg, image, children, k + 1, fuel);
            },
            None => {},
        }
    }
}

/// A defined result stays the same at every greater depth.
pub proof fn lemma_result_stable(reg: Registry, image: Image, id: u64, f1: nat, f2: nat)
    requires
        spec_resolver_result(reg, image, id, f1) is Some,
        f1 <= f2,
    ensures
        spec_resolver_result(reg, image, id, f2) == spec_resolver_result(reg, image, id, f1),
    decreases f2 - f1,
{
    if f1 < f2 {
        lemma_result_monotone(reg, image, id, f1);
        lemma_result_stable(reg, image, id, (f1 + 1) as nat, f2);
    }
}

/// Two defined results for one identity agree, whatever their depths.
pub proof fn lemma_result_unique(reg: Registry, image: Image, id: u64, f1: nat, f2: nat)
    requires
        spec_resolver_result(reg, image, id, f1) is Some,
        spec_resolver_result(reg, image, id, f2) is Some,
    ensures
        spec_resolver_result(reg, image, id, f1) == spec_resolver_result(reg, image, id, f2),
{
    if f1 <= f2 {
        lemma_result_stable(reg, image, id, f1, f2);
    } else {
        lemma_result_stable(reg, image, id, f2, f1);
    }
}

/// When every child from `k` on is defined at this depth, the try-walk is
/// the try-collector semantics of their results.
proof fn lemma_try_from_pointwise(
    reg: Registry,
    image: Image,
    children: Seq<u64>,
    rs: Seq<Result<ResolvedModel, ResolveErrorModel>>,
    k: int,
    fuel: nat,
)
    requires
        rs.len() == children.len(),
        0 <= k <= children.len(),
        forall|i: int|
            k <= i < children.len() ==> spec_resolver_result(reg, image, #[trigger] children[i], fuel)
                == Some(rs[i]),
    ensures
        ({
            let fe = first_error_index(rs, k);
            if fe == rs.len() {
                spec_try_from(reg, image, children, k, fuel) == Some(
                    Ok::<Seq<Result<ResolvedModel, ResolveErrorModel>>, ResolveErrorModel>(
                        rs.subrange(k, rs.len() as int),
                    ),
                )
            } else {
                spec_try_from(reg, image, children, k, fuel) == Some(
                    Err::<Seq<Result<ResolvedModel, ResolveErrorModel>>, ResolveErrorModel>(
                        rs[fe]->Err_0,
                    ),
                )
            }
        }),
    decreases children.len() - k,
{
    if k == children.len() {
        assert(rs.subrange(k, rs.len() as int) =~= Seq::<
            Result<ResolvedModel, ResolveErrorModel>,
        >::empty());
    } else {
        lemma_try_from_pointwise(reg, image, children, rs, k + 1, fuel);
        match rs[k] {
            Err(e) => {},
            Ok(v) => {
                let fe = first_error_index(rs, k);
                assert(fe == first_error_index(rs, k + 1));
                if fe == rs.len() {
                    assert(seq![Ok::<ResolvedModel, ResolveErrorModel>(v)] + rs.subrange(
                        k + 1,
                        rs.len() as int,
                    ) =~= rs.subrange(k, rs.len() as int));
                }
            },
        }
    }
}

/// When every child from `k` on is defined at this depth, the collect-walk
/// gathers exactly their results.
proof fn lemma_collect_from_pointwise(
    reg: Registry,
    image: Image,
    children: Seq<u64>,
    rs: Seq<Result<ResolvedModel, ResolveErrorModel>>,
    k: int,
    fuel: nat,
)
    requires
        rs.len() == children.len(),
        0 <= k <= children.len(),
        forall|i: int|
            k <= i < children.len() ==> spec_resolver_result(reg, image, #[trigger] children[i], fuel)
                == Some(rs[i]),
    ensures
        spec_collect_from(reg, image, children, k, fuel) == Some(rs.subrange(k, rs.len() as int)),
    decreases children.len() - k,
{
    if k == children.len() {
        assert(rs.subrange(k, rs.len() as int) =~= Seq::<
            Result<ResolvedModel, ResolveErrorModel>,
        >::empty());
    } else {
        lemma_collect_from_pointwise(reg, image, children, rs, k + 1, fuel);
        assert(seq![rs[k]] + rs.subrange(k + 1, rs.len() as int) =~= rs.subrange(
            k,
            rs.len() as int,
        ));
    }
}

/// A defined try-walk that has passed only successful children up to `m`
/// has its `m`-th child defined.
proof fn lemma_try_from_reaches(
    reg: Registry,
    image: Image,
    children: Seq<u64>,
    k: int,
    m: int,
    fuel: nat,
)
    requires
        spec_try_from(reg, image, children, k, fuel) is Some,
        0 <= k <= m < children.len(),
        forall|i: int|
            k <= i < m ==> (spec_resolver_result(reg, image, #[trigger] children[i], fuel) matches Some(
                r,
            ) && r is Ok),
    ensures
        spec_resolver_result(reg, image, children[m], fuel) is Some,
    decreases m - k,
{
    if k < m {
        lemma_try_from_reaches(reg, image, children, k + 1, m, fuel);
    }
}

/// A defined collect-walk has every child from `k` on defined.
proof fn lemma_collect_from_reaches(
    reg: Registry,
    image: Image,
    children: Seq<u64>,
    k: int,
    m: int,
    fuel: nat,
)
    requires
        spec_collect_from(reg, image, children, k, fuel) is Some,
        0 <= k <= m < children.len(),
    ensures
        spec_resolver_result(reg, image, children[m], fuel) is Some,
    decreases m - k,
{
    if k < m {
        lemma_collect_from_reaches(reg, image, children, k + 1, m, fuel);
    }
}

/// A try-walk over successful children up to an erring one short-circuits
/// with that error, whatever stands after it.
proof fn lemma_try_from_short(
    reg: Registry,
    image: Image,
    children: Seq<u64>,
    k: int,
    m: int,
    fuel: nat,
    e: ResolveErrorModel,
)
    requires
        0 <= k <= m < children.len(),
        forall|i: int|
            k <= i < m ==> (spec_resolver_result(reg, image, #[trigger] children[i], fuel) matches Some(
                r,
            ) && r is Ok),
        spec_resolver_result(reg, image, children[m], fuel) == Some(
            Err::<ResolvedModel, ResolveErrorModel>(e),
        ),
    ensures
        spec_try_from(reg, image, children, k, fuel) == Some(
            Err::<Seq<Result<ResolvedModel, ResolveErrorModel>>, ResolveErrorModel>(e),
        ),
    decreases m - k,
{
    if k < m {
        lemma_try_from_short(reg, image, children, k + 1, m, fuel, e);
    }
}

/// Whether some recursion depth defines `w` as the resolver's result.
pub open spec fn gathered_value(
    reg: Registry,
    image: Image,
    child: u64,
    w: Result<ResolvedModel, ResolveErrorModel>,
) -> bool {
    exists|f: nat| #[trigger] spec_resolver_result(reg, image, child, f) == Some(w)
}

/// Whether one recursion depth defines the first `n` children's results as
/// the values of `ws`.
pub open spec fn all_gathered_at(
    reg: Registry,
    image: Image,
    children: Seq<u64>,
    ws: Seq<Result<ResolvedModel, ResolveErrorModel>>,
    n: int,
    fc: nat,
) -> bool {
    forall|i: int|
        0 <= i < n ==> #[trigger] spec_resolver_result(reg, image, children[i], fc) == Some(ws[i])
}

/// Results each defined at some depth are all defined at one common depth.
proof fn lemma_common_fuel(
    reg: Registry,
    image: Image,
    children: Seq<u64>,
    ws: Seq<Result<ResolvedModel, ResolveErrorModel>>,
    n: int,
)
    requires
        0 <= n <= children.len(),
        n <= ws.len(),
        forall|i: int|
            0 <= i < n ==> #[trigger] gathered_value(reg, image, children[i], ws[i]),
    ensures
        exists|fc: nat| #[trigger] all_gathered_at(reg, image, children, ws, n, fc),
    decreases n,
{
    if n == 0 {
        let fc: nat = 0;
        assert(all_gathered_at(reg, image, children, ws, n, fc));
    } else {
        lemma_common_fuel(reg, image, children, ws, n - 1);
        let f0 = choose|f0: nat| #[trigger] all_gathered_at(reg, image, children, ws, n - 1, f0);
        assert(gathered_value(reg, image, children[n - 1], ws[n - 1]));
        let fl = choose|fl: nat|
            #[trigger] spec_resolver_result(reg, image, children[n - 1], fl) == Some(ws[n - 1]);
        let fc: nat = if f0 >= fl {
            f0
        } else {
            fl
        };
        assert forall|i: int|
            0 <= i < n implies #[trigger] spec_resolver_result(reg, image, children[i], fc)
            == Some(ws[i]) by {
            if i < n - 1 {
                lemma_result_stable(reg, image, children[i], f0, fc);
            } else {
                lemma_result_stable(reg, image, children[i], fl, fc);
            }
        }
        assert(all_gathered_at(reg, image, children, ws, n, fc));
    }
}

/// Whether some recursion depth shows `e` to be the child's one result.
pub open spec fn child_gathered(
    reg: Registry,
    image: Image,
    child: u64,
    e: Result<ResolvedValue, ResolveError>,
) -> bool {
    exists|fuel: nat| #[trigger] spec_resolver_result(reg, image, child, fuel) == Some(
        entry_view(e),
    )
}

/// What the cache may hold under `id`: a result the depth-indexed resolver
/// semantics defines — the one possible result of that resolver over this
/// image.
pub open spec fn cache_entry_ok(
    reg: Registry,
    image: Image,
    id: u64,
    v: Result<ResolvedModel, ResolveErrorModel>,
) -> bool {
    exists|fuel: nat| #[trigger] spec_resolver_result(reg, image, id, fuel) == Some(v)
}

impl AsyncContext {
    /// A fresh context with nothing in flight.
    pub fn new() -> (r: AsyncContext)
        ensures
            r.tasks@ == Seq::<Task>::empty(),
            r.cache@ == Seq::<(u64, Result<ResolvedValue, ResolveError>)>::empty(),
            r.queue@ == Seq::<ScanRequest>::empty(),
    {
        AsyncContext { tasks: Vec::new(), cache: Vec::new(), queue: Vec::new() }
    }

    /// Whether a result for `id` is memoised.
    pub open spec fn spec_cached(self, id: u64) -> bool {
        cache_find_from(self.cache@, id, 0) is Some
    }

    /// The memoised result for `id`, if one is.
    pub open spec fn spec_cache_lookup(self, id: u64) -> Option<
        Result<ResolvedValue, ResolveError>,
    > {
        match cache_find_from(self.cache@, id, 0) {
            Some(k) => Some(self.cache@[k].1),
            None => None,
        }
    }

    /// No two tasks drive the same resolver: a resolver is invoked at most
    /// once per context.
    pub open spec fn inv_tasks_unique(self) -> bool {
        forall|a: int, b: int|
            0 <= a < b < self.tasks@.len() ==> (#[trigger] self.tasks@[a]).resolver_id != (
            #[trigger] self.tasks@[b]).resolver_id
    }

    /// A finished task's result stands in the cache.
    pub open spec fn inv_finished_cached(self) -> bool {
        forall|t: int|
            0 <= t < self.tasks@.len() && (#[trigger] self.tasks@[t]).state is Finished
                ==> self.spec_cached(self.tasks@[t].resolver_id)
    }

    /// Every cache entry is the one result the depth-indexed resolver
    /// semantics defines for its identity.
    pub open spec fn inv_cache_values(self, reg: Registry, image: Image) -> bool {
        forall|k: int|
            0 <= k < self.cache@.len() ==> cache_entry_ok(
                reg,
                image,
                (#[trigger] self.cache@[k]).0,
                entry_view(self.cache@[k].1),
            )
    }

    /// What a collecting task may look like: its body is a collector, its
    /// progress is in range, and the fields gathered so far are its
    /// children's contributions.
    pub open spec fn inv_collecting(self, reg: Registry, image: Image) -> bool {
        forall|t: int|
            0 <= t < self.tasks@.len() ==> ((#[trigger] self.tasks@[t]).state matches
            TaskState::Collecting { next, acc } ==> {
                let id = self.tasks@[t].resolver_id;
                match reg.spec_find(id) {
                    Some(BodyModel::Scan { .. }) => false,
                    Some(b) => {
                        let children = body_children(b);
                        &&& next <= children.len()
                        &&& acc@.len() == next
                        &&& (b matches BodyModel::TryCollect { .. } ==> forall|i: int|
                            0 <= i < next ==> (#[trigger] acc@[i]) is Ok)
                        &&& (forall|i: int|
                            0 <= i < next ==> child_gathered(
                                reg,
                                image,
                                children[i],
                                #[trigger] acc@[i],
                            ))
                    },
                    None => false,
                }
            })
    }

    /// What a parked task may look like: its body is a scanning resolver,
    /// one slot per pattern, and every delivered slot holds that pattern's
    /// merged matches over the image's sections.
    pub open spec fn inv_await_scans(self, reg: Registry, image: Image) -> bool {
        forall|t: int|
            0 <= t < self.tasks@.len() ==> ((#[trigger] self.tasks@[t]).state matches
            TaskState::AwaitScans { slots } ==> {
                let id = self.tasks@[t].resolver_id;
                match reg.spec_find(id) {
                    Some(BodyModel::Scan { patterns, post }) => {
                        &&& slots@.len() == patterns.len()
                        &&& forall|s: int|
                            0 <= s < slots@.len() ==> ((#[trigger] slots@[s]) matches Some(v)
                                ==> v@ == merged_matches(
                                patterns[s],
                                image.memory.spec_sections(),
                            ))
                    },
                    _ => false,
                }
            })
    }

    /// What a queue entry may look like: it points at an undelivered slot of
    /// a parked task and carries that slot's pattern.
    pub open spec fn inv_queue(self, reg: Registry) -> bool {
        forall|q: int|
            0 <= q < self.queue@.len() ==> {
                let req = #[trigger] self.queue@[q];
                &&& req.task < self.tasks@.len()
                &&& (self.tasks@[req.task as int].state matches TaskState::AwaitScans { slots }
                    && req.slot < slots@.len() && slots@[req.slot as int] is None
                    && (reg.spec_find(self.tasks@[req.task as int].resolver_id) matches Some(
                    BodyModel::Scan { patterns, post },
                ) && req.pattern@ == patterns[req.slot as int]))
            }
    }

    /// Every undelivered slot has its request parked in the queue: no scan
    /// is left behind.
    pub open spec fn inv_queue_covers(self) -> bool {
        forall|t: int|
            0 <= t < self.tasks@.len() ==> ((#[trigger] self.tasks@[t]).state matches
            TaskState::AwaitScans { slots } ==> forall|s: int|
                0 <= s < slots@.len() && (#[trigger] slots@[s]) is None ==> exists|q: int|
                    0 <= q < self.queue@.len() && (#[trigger] self.queue@[q]).task == t
                        && self.queue@[q].slot == s)
    }

    /// Every task drives a registered resolver.
    pub open spec fn inv_tasks_registered(self, reg: Registry) -> bool {
        forall|t: int|
            0 <= t < self.tasks@.len() ==> reg.spec_find(
                (#[trigger] self.tasks@[t]).resolver_id,
            ) is Some
    }

    /// The runtime invariant, relative to the registry and image an
    /// evaluation runs against.
    pub open spec fn inv(self, reg: Registry, image: Image) -> bool {
        &&& self.inv_tasks_unique()
        &&& self.inv_tasks_registered(reg)
        &&& self.inv_finished_cached()
        &&& self.inv_cache_values(reg, image)
        &&& self.inv_collecting(reg, image)
        &&& self.inv_await_scans(reg, image)
        &&& self.inv_queue(reg)
        &&& self.inv_queue_covers()
    }

    fn cache_get(&self, id: u64) -> (r: Option<&Result<ResolvedValue, ResolveError>>)
        ensures
            match self.spec_cache_lookup(id) {
                Some(v) => r matches Some(e) && *e == v,
                None => r is None,
            },
    {
        let mut i: usize = 0;
        while i < self.cache.len()
            invariant
                i <= self.cache@.len(),
                cache_find_from(self.cache@, id, 0) == cache_find_from(
                    self.cache@,
                    id,
                    i as int,
                ),
            decreases self.cache@.len() - i,
        {
            if self.cache[i].0 == id {
                return Some(&self.cache[i].1);
            }
            i = i + 1;
        }
        None
    }

    fn find_task(&self, id: u64) -> (r: Option<usize>)
        ensures
            match task_index_of(self.tasks@, id, 0) {
                Some(t) => r matches Some(e) && e == t && t < self.tasks@.len(),
                None => r is None,
            },
    {
        let mut i: usize = 0;
        while i < self.tasks.len()
            invariant
                i <= self.tasks@.len(),
                task_index_of(self.tasks@, id, 0) == task_index_of(self.tasks@, id, i as int),
            decreases self.tasks@.len() - i,
        {
            if self.tasks[i].resolver_id == id {
                return Some(i);
            }
            i = i + 1;
        }
        None
    }
}

/// How many slots still await delivery.
pub open spec fn count_none(slots: Seq<Option<Vec<usize>>>) -> nat
    decreases slots.len(),
{
    if slots.len() == 0 {
        0
    } else {
        count_none(slots.drop_last()) + if slots.last() is None {
            1nat
        } else {
            0nat
        }
    }
}

/// The work left in a task that has not started.
pub open spec fn body_start_weight(b: BodyModel) -> nat {
    match b {
        BodyModel::Scan { patterns, .. } => patterns.len() + 3,
        BodyModel::TryCollect { children } => 2 * children.len() + 3,
        BodyModel::Collect { children } => 2 * children.len() + 3,
    }
}

/// The work left in a task, by its state.
pub open spec fn task_state_weight(state: TaskState, body: BodyModel) -> nat {
    match state {
        TaskState::Start => body_start_weight(body),
        TaskState::AwaitScans { slots } => 2 + count_none(slots@),
        TaskState::Collecting { next, acc } => {
            let c = body_children(body).len();
            if next <= c {
                (2 + 2 * (c - next)) as nat
            } else {
                2
            }
        },
        TaskState::Finished => 0,
    }
}

/// The work left for one registered identity: spawning plus running its
/// task, or finishing the task it already has.
pub open spec fn id_weight(id: u64, body: BodyModel, tasks: Seq<Task>) -> nat {
    match task_index_of(tasks, id, 0) {
        None => body_start_weight(body) + 1,
        Some(t) => task_state_weight(tasks[t].state, body),
    }
}

/// The work left in a context, summed over the registry's identities: the
/// executor's termination measure.
pub open spec fn measure_from(entries: Seq<NamedResolver>, tasks: Seq<Task>, k: int) -> nat
    decreases entries.len() - k,
{
    if k < 0 || k >= entries.len() {
        0
    } else {
        id_weight(entries[k].id, entries[k].body@, tasks) + measure_from(entries, tasks, k + 1)
    }
}

/// The executor's termination measure.
pub open spec fn measure(ctx: AsyncContext, reg: Registry) -> nat {
    measure_from(reg.spec_entries(), ctx.tasks@, 0)
}

proof fn lemma_task_index_update(tasks: Seq<Task>, i: int, t2: Task, id: u64, j: int)
    requires
        0 <= i < tasks.len(),
        t2.resolver_id == tasks[i].resolver_id,
    ensures
        task_index_of(tasks.update(i, t2), id, j) == task_index_of(tasks, id, j),
    decreases tasks.len() - j,
{
    let u = tasks.update(i, t2);
    if j < 0 || j >= tasks.len() {
    } else {
        assert(u[j].resolver_id == tasks[j].resolver_id);
        if tasks[j].resolver_id == id {
        } else {
            lemma_task_index_update(tasks, i, t2, id, j + 1);
        }
    }
}

proof fn lemma_task_index_push(tasks: Seq<Task>, t: Task, id: u64, j: int)
    requires
        0 <= j <= tasks.len(),
    ensures
        task_index_of(tasks.push(t), id, j) == match task_index_of(tasks, id, j) {
            Some(x) => Some(x),
            None => if t.resolver_id == id {
                Some(tasks.len() as int)
            } else {
                None
            },
        },
    decreases tasks.len() - j,
{
    let u = tasks.push(t);
    if j == tasks.len() {
        assert(u[j] == t);
        if t.resolver_id == id {
        } else {
        }
    } else {
        assert(u[j] == tasks[j]);
        lemma_task_index_push(tasks, t, id, j + 1);
    }
}

/// With pairwise-distinct identities, the task at `i` is the one its
/// identity finds.
proof fn lemma_task_index_unique_from(tasks: Seq<Task>, i: int, j: int)
    requires
        forall|a: int, b: int|
            0 <= a < b < tasks.len() ==> (#[trigger] tasks[a]).resolver_id != (
            #[trigger] tasks[b]).resolver_id,
        0 <= j <= i < tasks.len(),
    ensures
        task_index_of(tasks, tasks[i].resolver_id, j) == Some(i),
    decreases tasks.len() - j,
{
    if j == i {
    } else {
        assert(tasks[j].resolver_id != tasks[i].resolver_id);
        lemma_task_index_unique_from(tasks, i, j + 1);
    }
}

proof fn lemma_measure_pointwise(
    entries: Seq<NamedResolver>,
    t1: Seq<Task>,
    t2: Seq<Task>,
    k: int,
)
    requires
        forall|j: int|
            0 <= j < entries.len() ==> id_weight(
                (#[trigger] entries[j]).id,
                entries[j].body@,
                t2,
            ) <= id_weight(entries[j].id, entries[j].body@, t1),
    ensures
        measure_from(entries, t2, k) <= measure_from(entries, t1, k),
    decreases entries.len() - k,
{
    if k < 0 || k >= entries.len() {
    } else {
        lemma_measure_pointwise(entries, t1, t2, k + 1);
    }
}

proof fn lemma_measure_pointwise_strict(
    entries: Seq<NamedResolver>,
    t1: Seq<Task>,
    t2: Seq<Task>,
    k: int,
    j0: int,
)
    requires
        forall|j: int|
            0 <= j < entries.len() ==> id_weight(
                (#[trigger] entries[j]).id,
                entries[j].body@,
                t2,
            ) <= id_weight(entries[j].id, entries[j].body@, t1),
        0 <= k <= j0 < entries.len(),
        id_weight(entries[j0].id, entries[j0].body@, t2) < id_weight(
            entries[j0].id,
            entries[j0].body@,
            t1,
        ),
    ensures
        measure_from(entries, t2, k) < measure_from(entries, t1, k),
    decreases entries.len() - k,
{
    if k == j0 {
        lemma_measure_pointwise(entries, t1, t2, k + 1);
    } else {
        lemma_measure_pointwise_strict(entries, t1, t2, k + 1, j0);
    }
}

/// Updating one task in place, without changing its identity, moves the
/// measure exactly as that task's weight moves.
proof fn lemma_measure_after_update(
    reg: Registry,
    tasks: Seq<Task>,
    i: int,
    t2: Task,
    body: BodyModel,
)
    requires
        reg.wf(),
        0 <= i < tasks.len(),
        t2.resolver_id == tasks[i].resolver_id,
        forall|a: int, b: int|
            0 <= a < b < tasks.len() ==> (#[trigger] tasks[a]).resolver_id != (
            #[trigger] tasks[b]).resolver_id,
        reg.spec_find(tasks[i].resolver_id) == Some(body),
        task_state_weight(t2.state, body) <= task_state_weight(tasks[i].state, body),
    ensures
        measure_from(reg.spec_entries(), tasks.update(i, t2), 0) <= measure_from(
            reg.spec_entries(),
            tasks,
            0,
        ),
        task_state_weight(t2.state, body) < task_state_weight(tasks[i].state, body)
            ==> measure_from(reg.spec_entries(), tasks.update(i, t2), 0) < measure_from(
            reg.spec_entries(),
            tasks,
            0,
        ),
{
    let entries = reg.spec_entries();
    let u = tasks.update(i, t2);
    let id = tasks[i].resolver_id;
    lemma_find_entry_bounds(entries, id, 0);
    let j0 = find_entry_from(entries, id, 0).unwrap();
    assert(entry_id(entries, j0) == id);
    lemma_spec_find_unique(reg, j0);
    assert(entries[j0].body@ == body);
    assert forall|j: int| 0 <= j < entries.len() implies id_weight(
        (#[trigger] entries[j]).id,
        entries[j].body@,
        u,
    ) <= id_weight(entries[j].id, entries[j].body@, tasks) by {
        lemma_task_index_update(tasks, i, t2, entries[j].id, 0);
        if entries[j].id == id {
            lemma_task_index_unique_from(tasks, i, 0);
            assert(task_index_of(tasks, id, 0) == Some(i));
            assert(u[i] == t2);
            lemma_spec_find_unique(reg, j);
            assert(entries[j].body@ == body);
        } else {
            match task_index_of(tasks, entries[j].id, 0) {
                Some(x) => {
                    lemma_task_index_bounds(tasks, entries[j].id, 0);
                    assert(tasks[x].resolver_id == entries[j].id);
                    assert(x != i);
                    assert(u[x] == tasks[x]);
                },
                None => {},
            }
        }
    }
    lemma_measure_pointwise(entries, tasks, u, 0);
    if task_state_weight(t2.state, body) < task_state_weight(tasks[i].state, body) {
        lemma_task_index_update(tasks, i, t2, id, 0);
        lemma_task_index_unique_from(tasks, i, 0);
        assert(task_index_of(u, id, 0) == Some(i));
        assert(u[i] == t2);
        assert(id_weight(entries[j0].id, entries[j0].body@, u) == task_state_weight(
            t2.state,
            body,
        ));
        assert(id_weight(entries[j0].id, entries[j0].body@, tasks) == task_state_weight(
            tasks[i].state,
            body,
        ));
        lemma_measure_pointwise_strict(entries, tasks, u, 0, j0);
    }
}

proof fn lemma_task_index_bounds(tasks: Seq<Task>, id: u64, j: int)
    ensures
        task_index_of(tasks, id, j) matches Some(x) ==> j <= x < tasks.len()
            && tasks[x].resolver_id == id,
    decreases tasks.len() - j,
{
    if j < 0 || j >= tasks.len() {
    } else if tasks[j].resolver_id == id {
    } else {
        lemma_task_index_bounds(tasks, id, j + 1);
    }
}

/// Spawning a task for a registered identity that had none strictly
/// decreases the measure.
proof fn lemma_measure_after_spawn(reg: Registry, tasks: Seq<Task>, t_new: Task, body: BodyModel)
    requires
        reg.wf(),
        task_index_of(tasks, t_new.resolver_id, 0) is None,
        reg.spec_find(t_new.resolver_id) == Some(body),
        t_new.state is Start,
    ensures
        measure_from(reg.spec_entries(), tasks.push(t_new), 0) < measure_from(
            reg.spec_entries(),
            tasks,
            0,
        ),
{
    let entries = reg.spec_entries();
    let u = tasks.push(t_new);
    let id = t_new.resolver_id;
    lemma_find_entry_bounds(entries, id, 0);
    let j0 = find_entry_from(entries, id, 0).unwrap();
    lemma_spec_find_unique(reg, j0);
    assert forall|j: int| 0 <= j < entries.len() implies id_weight(
        (#[trigger] entries[j]).id,
        entries[j].body@,
        u,
    ) <= id_weight(entries[j].id, entries[j].body@, tasks) by {
        lemma_task_index_push(tasks, t_new, entries[j].id, 0);
        if entries[j].id == id {
            lemma_spec_find_unique(reg, j);
            assert(entries[j].body@ == body);
            assert(task_index_of(u, id, 0) == Some(tasks.len() as int));
            assert(u[tasks.len() as int] == t_new);
        } else {
            match task_index_of(tasks, entries[j].id, 0) {
                Some(x) => {
                    lemma_task_index_bounds(tasks, entries[j].id, 0);
                    assert(u[x] == tasks[x]);
                },
                None => {},
            }
        }
    }
    lemma_measure_pointwise(entries, tasks, u, 0);
    assert(entry_id(entries, j0) == id);
    assert(entries[j0].body@ == body);
    lemma_task_index_push(tasks, t_new, id, 0);
    assert(task_index_of(u, id, 0) == Some(tasks.len() as int));
    assert(u[tasks.len() as int] == t_new);
    assert(id_weight(entries[j0].id, entries[j0].body@, u) == body_start_weight(body));
    assert(id_weight(entries[j0].id, entries[j0].body@, tasks) == body_start_weight(body) + 1);
    lemma_measure_pointwise_strict(entries, tasks, u, 0, j0);
}

/// A slot list holding only undelivered slots weighs its whole length.
proof fn lemma_count_none_all(slots: Seq<Option<Vec<usize>>>)
    requires
        forall|s: int| 0 <= s < slots.len() ==> (#[trigger] slots[s]) is None,
    ensures
        count_none(slots) == slots.len(),
    decreases slots.len(),
{
    if slots.len() == 0 {
    } else {
        lemma_count_none_all(slots.drop_last());
    }
}

/// Delivering into one slot lowers the undelivered count exactly when the
/// slot was empty.
proof fn lemma_count_none_update(slots: Seq<Option<Vec<usize>>>, s: int, v: Vec<usize>)
    requires
        0 <= s < slots.len(),
    ensures
        slots[s] is None ==> count_none(slots.update(s, Some(v))) == count_none(slots) - 1,
        slots[s] is Some ==> count_none(slots.update(s, Some(v))) == count_none(slots),
    decreases slots.len(),
{
    let u = slots.update(s, Some(v));
    if slots.len() == 0 {
    } else if s == slots.len() - 1 {
        assert(u.drop_last() =~= slots.drop_last());
    } else {
        assert(u.drop_last() =~= slots.drop_last().update(s, Some(v)));
        lemma_count_none_update(slots.drop_last(), s, v);
    }
}

/// A slot list fully delivered weighs nothing more.
proof fn lemma_count_none_all_some(slots: Seq<Option<Vec<usize>>>)
    requires
        forall|s: int| 0 <= s < slots.len() ==> (#[trigger] slots[s]) is Some,
    ensures
        count_none(slots) == 0,
    decreases slots.len(),
{
    if slots.len() == 0 {
    } else {
        lemma_count_none_all_some(slots.drop_last());
    }
}

proof fn lemma_cache_find_push(
    entries: Seq<(u64, Result<ResolvedValue, ResolveError>)>,
    e: (u64, Result<ResolvedValue, ResolveError>),
    id: u64,
    j: int,
)
    requires
        0 <= j <= entries.len(),
    ensures
        cache_find_from(entries.push(e), id, j) == match cache_find_from(entries, id, j) {
            Some(x) => Some(x),
            None => if e.0 == id {
                Some(entries.len() as int)
            } else {
                None
            },
        },
    decreases entries.len() - j,
{
    let u = entries.push(e);
    if j == entries.len() {
        assert(u[j] == e);
    } else {
        assert(u[j] == entries[j]);
        lemma_cache_find_push(entries, e, id, j + 1);
    }
}

proof fn lemma_cache_find_bounds(
    entries: Seq<(u64, Result<ResolvedValue, ResolveError>)>,
    id: u64,
    j: int,
)
    ensures
        cache_find_from(entries, id, j) matches Some(x) ==> j <= x < entries.len()
            && entries[x].0 == id,
    decreases entries.len() - j,
{
    if j < 0 || j >= entries.len() {
    } else if entries[j].0 == id {
    } else {
        lemma_cache_find_bounds(entries, id, j + 1);
    }
}

/// Turns a merged match list into a resolution, as the resolver's
/// post-processing step dictates.
fn apply_post(post: Post, matches: Vec<usize>, image: &Image) -> (r: Result<
    ResolvedValue,
    ResolveError,
>)
    requires
        image.wf(),
    ensures
        entry_view(r) == spec_post(post, matches@, *image),
{
    let ghost m = matches@;
    match post {
        Post::Count => {
            let n = matches.len();
            Ok(ResolvedValue::Value(ResolutionType::Count(n)))
        },
        _ => {
            let eo = ensure_one(matches);
            proof {
                assert(<usize as vstd::std_specs::cmp::PartialEqSpec>::obeys_eq_spec());
                match &eo {
                    Ok(va) => {
                        assert(m.len() > 0);
                        assert(all_equal(m)) by {
                            assert forall|i: int| 0 <= i < m.len() implies #[trigger] m[i]
                                == m[0] by {
                                if i >= 1 {
                                    assert(m[i].eq_spec(&m[0]));
                                }
                            }
                        }
                        assert(ensure_one_spec(m) == Ok::<usize, ResolveErrorModel>(*va));
                    },
                    Err(e) => {
                        if m.len() == 0 {
                            assert(ensure_one_spec(m) == Err::<usize, ResolveErrorModel>(e@));
                        } else {
                            assert(!all_equal(m)) by {
                                let i = choose|i: int|
                                    1 <= i < m.len() && !m[i].eq_spec(&m[0]);
                                assert(m[i] != m[0]);
                            }
                            assert(ensure_one_spec(m) == Err::<usize, ResolveErrorModel>(e@));
                        }
                    },
                }
            }
            match eo {
                Err(e) => Err(e),
                Ok(va) => match post {
                    Post::SelfAddress => Ok(ResolvedValue::Value(ResolutionType::Address(va))),
                    Post::Function => match image.get_root_function(va) {
                        Some(f) => Ok(
                            ResolvedValue::Value(ResolutionType::Address(f.range.start)),
                        ),
                        None => Ok(ResolvedValue::Value(ResolutionType::Failed)),
                    },
                    Post::RipOffset(n) => {
                        let mut stages = ResolveStages(Vec::new());
                        match resolve_rip(&image.memory, va, n, &mut stages) {
                            Ok(t) => Ok(ResolvedValue::Value(t)),
                            Err(e) => Err(e),
                        }
                    },
                    Post::Count => vstd::pervasive::unreached(),
                },
            }
        },
    }
}

/// Whether the executor can make no move on task `t` right now: it is done,
/// or parked on scans not yet delivered, or waiting for a child another
/// task is still computing.
pub open spec fn task_blocked(
    tasks: Seq<Task>,
    cache: Seq<(u64, Result<ResolvedValue, ResolveError>)>,
    t: int,
    reg: Registry,
) -> bool {
    match tasks[t].state {
        TaskState::Finished => true,
        TaskState::Start => false,
        TaskState::AwaitScans { slots } => exists|s: int|
            0 <= s < slots@.len() && (#[trigger] slots@[s]) is None,
        TaskState::Collecting { next, acc } => match reg.spec_find(tasks[t].resolver_id) {
            Some(b) => {
                let children = body_children(b);
                &&& next < children.len()
                &&& cache_find_from(cache, children[next as int], 0) is None
                &&& task_index_of(tasks, children[next as int], 0) is Some
            },
            None => false,
        },
    }
}

impl AsyncContext {
    fn step_start(&mut self, i: usize, image: &Image, reg: &Registry)
        requires
            old(self).inv(*reg, *image),
            reg.wf(),
            image.wf(),
            i < old(self).tasks@.len(),
            old(self).tasks@[i as int].state is Start,
        ensures
            final(self).inv(*reg, *image),
            final(self).cache@ == old(self).cache@,
            measure(*final(self), *reg) < measure(*old(self), *reg),
            final(self).tasks@.len() >= old(self).tasks@.len(),
            forall|t: int|
                0 <= t < old(self).tasks@.len() ==> (#[trigger] final(self).tasks@[t]).resolver_id
                    == old(self).tasks@[t].resolver_id,
    {
        let ghost pre = *old(self);
        let id = self.tasks[i].resolver_id;
        let looked = reg.lookup(id);
        if looked.is_none() {
            proof {
                assert(reg.spec_find(pre.tasks@[i as int].resolver_id) is Some);
                assert(false);
            }
            return;
        }
        let body = looked.unwrap();
        let ghost b = reg.spec_find(id).unwrap();
        match body {
            ResolverBody::Scan { patterns, post } => {
                let n = patterns.len();
                let ghost old_queue = pre.queue@;
                let mut slots: Vec<Option<Vec<usize>>> = Vec::new();
                let mut k: usize = 0;
                while k < n
                    invariant
                        k <= n,
                        n == patterns@.len(),
                        slots@.len() == k,
                        forall|s: int| 0 <= s < k ==> (#[trigger] slots@[s]) is None,
                        self.tasks@ == pre.tasks@,
                        self.cache@ == pre.cache@,
                        self.queue@.len() == old_queue.len() + k,
                        forall|q: int|
                            0 <= q < old_queue.len() ==> (#[trigger] self.queue@[q])
                                == old_queue[q],
                        forall|q: int|
                            old_queue.len() <= q < self.queue@.len() ==> {
                                let req = #[trigger] self.queue@[q];
                                &&& req.task == i
                                &&& req.slot == q - old_queue.len()
                                &&& req.pattern@ == patterns@[q - old_queue.len()]@
                            },
                    decreases n - k,
                {
                    slots.push(None);
                    self.queue.push(
                        ScanRequest { pattern: patterns[k].clone(), task: i, slot: k },
                    );
                    k = k + 1;
                }
                let newtask = Task { resolver_id: id, state: TaskState::AwaitScans { slots } };
                proof {
                    lemma_count_none_all(newtask.state->AwaitScans_slots@);
                }
                self.tasks.set(i, newtask);
                proof {
                    let fs = *self;
                    let pmodels = b->Scan_patterns;
                    assert(pmodels =~= patterns@.map_values(|p: Pattern| p@));
                    assert(fs.tasks@ == pre.tasks@.update(i as int, newtask));
                    assert forall|t: int| 0 <= t < fs.tasks@.len() implies (#[trigger] fs.tasks@[t]).resolver_id
                        == pre.tasks@[t].resolver_id by {
                        if t != i {
                            assert(fs.tasks@[t] == pre.tasks@[t]);
                        }
                    }
                    assert(fs.inv_tasks_unique()) by {
                        assert forall|a: int, c: int| 0 <= a < c < fs.tasks@.len() implies (
                        #[trigger] fs.tasks@[a]).resolver_id != (#[trigger] fs.tasks@[c]).resolver_id by {
                            assert(pre.tasks@[a].resolver_id != pre.tasks@[c].resolver_id);
                        }
                    }
                    assert(fs.inv_tasks_registered(*reg)) by {
                        assert forall|t: int| 0 <= t < fs.tasks@.len() implies reg.spec_find(
                            (#[trigger] fs.tasks@[t]).resolver_id,
                        ) is Some by {
                            assert(reg.spec_find(pre.tasks@[t].resolver_id) is Some);
                        }
                    }
                    assert(fs.inv_finished_cached()) by {
                        assert forall|t: int|
                            0 <= t < fs.tasks@.len() && (#[trigger] fs.tasks@[t]).state is Finished implies fs.spec_cached(
                            fs.tasks@[t].resolver_id,
                        ) by {
                            assert(t != i);
                            assert(fs.tasks@[t] == pre.tasks@[t]);
                            assert(pre.spec_cached(pre.tasks@[t].resolver_id));
                            assert(fs.cache@ == pre.cache@);
                        }
                    }
                    assert(fs.inv_cache_values(*reg, *image)) by {
                        assert forall|c: int| 0 <= c < fs.cache@.len() implies fs.cache@[c]
                            == pre.cache@[c] by {}
                    }
                    assert(fs.inv_collecting(*reg, *image)) by {
                        assert forall|t: int|
                            0 <= t < fs.tasks@.len() && !((#[trigger] fs.tasks@[t]).state matches TaskState::Start)
                                && !(fs.tasks@[t].state matches TaskState::AwaitScans {
                                slots,
                            }) && !(fs.tasks@[t].state matches TaskState::Finished) implies t
                            != i && fs.tasks@[t] == pre.tasks@[t] by {}
                    }
                    assert(fs.inv_await_scans(*reg, *image)) by {
                        assert forall|t: int|
                            0 <= t < fs.tasks@.len() implies ((#[trigger] fs.tasks@[t]).state matches TaskState::AwaitScans {
                            slots,
                        } ==> {
                            let tid = fs.tasks@[t].resolver_id;
                            match reg.spec_find(tid) {
                                Some(BodyModel::Scan { patterns: ps, post: po }) => {
                                    &&& slots@.len() == ps.len()
                                    &&& forall|sl: int|
                                        0 <= sl < slots@.len() ==> ((#[trigger] slots@[sl]) matches Some(
                                            v,
                                        ) ==> v@ == merged_matches(
                                            ps[sl],
                                            image.memory.spec_sections(),
                                        ))
                                },
                                _ => false,
                            }
                        }) by {
                            if t != i {
                                assert(fs.tasks@[t] == pre.tasks@[t]);
                            }
                        }
                    }
                    assert(fs.inv_queue(*reg)) by {
                        assert forall|q: int| 0 <= q < fs.queue@.len() implies {
                            let req = #[trigger] fs.queue@[q];
                            &&& req.task < fs.tasks@.len()
                            &&& (fs.tasks@[req.task as int].state matches TaskState::AwaitScans {
                                slots,
                            } && req.slot < slots@.len() && slots@[req.slot as int] is None && (
                            reg.spec_find(fs.tasks@[req.task as int].resolver_id) matches Some(
                                BodyModel::Scan { patterns: ps, post: po },
                            ) && req.pattern@ == ps[req.slot as int]))
                        } by {
                            let req = fs.queue@[q];
                            if q < old_queue.len() {
                                assert(req == old_queue[q]);
                                assert(req.task != i);
                                assert(fs.tasks@[req.task as int] == pre.tasks@[req.task as int]);
                            } else {
                                assert(req.task == i);
                                assert(req.slot == q - old_queue.len());
                                assert(req.pattern@ == patterns@[q - old_queue.len()]@);
                                assert(pmodels[q - old_queue.len()] == patterns@[q
                                    - old_queue.len()]@);
                            }
                        }
                    }
                    assert(fs.inv_queue_covers()) by {
                        assert forall|t: int|
                            0 <= t < fs.tasks@.len() implies ((#[trigger] fs.tasks@[t]).state matches TaskState::AwaitScans {
                            slots,
                        } ==> forall|sl: int|
                            0 <= sl < slots@.len() && (#[trigger] slots@[sl]) is None
                                ==> exists|q: int|
                                0 <= q < fs.queue@.len() && (#[trigger] fs.queue@[q]).task == t
                                    && fs.queue@[q].slot == sl) by {
                            if t == i {
                                match fs.tasks@[t].state {
                                    TaskState::AwaitScans { slots } => {
                                        assert forall|sl: int|
                                            0 <= sl < slots@.len() && (#[trigger] slots@[sl]) is None implies exists|
                                            q: int,
                                        |
                                            0 <= q < fs.queue@.len() && (
                                            #[trigger] fs.queue@[q]).task == t
                                                && fs.queue@[q].slot == sl by {
                                            assert(fs.queue@[old_queue.len() + sl].task == i);
                                            assert(fs.queue@[old_queue.len() + sl].slot == sl);
                                        }
                                    },
                                    _ => {},
                                }
                            } else {
                                match fs.tasks@[t].state {
                                    TaskState::AwaitScans { slots } => {
                                        assert(fs.tasks@[t] == pre.tasks@[t]);
                                        assert forall|sl: int|
                                            0 <= sl < slots@.len() && (#[trigger] slots@[sl]) is None implies exists|
                                            q: int,
                                        |
                                            0 <= q < fs.queue@.len() && (
                                            #[trigger] fs.queue@[q]).task == t
                                                && fs.queue@[q].slot == sl by {
                                            let q0 = choose|q0: int|
                                                0 <= q0 < pre.queue@.len() && (
                                                #[trigger] pre.queue@[q0]).task == t
                                                    && pre.queue@[q0].slot == sl;
                                            assert(fs.queue@[q0] == pre.queue@[q0]);
                                        }
                                    },
                                    _ => {},
                                }
                            }
                        }
                    }
                    lemma_measure_after_update(*reg, pre.tasks@, i as int, newtask, b);
                }
            },
            ResolverBody::TryCollect { .. } | ResolverBody::Collect { .. } => {
                let newtask = Task {
                    resolver_id: id,
                    state: TaskState::Collecting { next: 0, acc: Vec::new() },
                };
                self.tasks.set(i, newtask);
                proof {
                    let fs = *self;
                    assert(fs.tasks@ == pre.tasks@.update(i as int, newtask));
                    assert forall|t: int| 0 <= t < fs.tasks@.len() implies (#[trigger] fs.tasks@[t]).resolver_id
                        == pre.tasks@[t].resolver_id by {
                        if t != i {
                            assert(fs.tasks@[t] == pre.tasks@[t]);
                        }
                    }
                    assert(fs.inv_tasks_unique()) by {
                        assert forall|a: int, c: int| 0 <= a < c < fs.tasks@.len() implies (
                        #[trigger] fs.tasks@[a]).resolver_id != (#[trigger] fs.tasks@[c]).resolver_id by {
                            assert(pre.tasks@[a].resolver_id != pre.tasks@[c].resolver_id);
                        }
                    }
                    assert(fs.inv_tasks_registered(*reg)) by {
                        assert forall|t: int| 0 <= t < fs.tasks@.len() implies reg.spec_find(
                            (#[trigger] fs.tasks@[t]).resolver_id,
                        ) is Some by {
                            assert(reg.spec_find(pre.tasks@[t].resolver_id) is Some);
                        }
                    }
                    assert(fs.inv_finished_cached()) by {
                        assert forall|t: int|
                            0 <= t < fs.tasks@.len() && (#[trigger] fs.tasks@[t]).state is Finished implies fs.spec_cached(
                            fs.tasks@[t].resolver_id,
                        ) by {
                            assert(t != i);
                            assert(fs.tasks@[t] == pre.tasks@[t]);
                            assert(pre.spec_cached(pre.tasks@[t].resolver_id));
                        }
                    }
                    assert(fs.inv_cache_values(*reg, *image)) by {
                        assert forall|c: int| 0 <= c < fs.cache@.len() implies fs.cache@[c]
                            == pre.cache@[c] by {}
                    }
                    assert(fs.inv_collecting(*reg, *image)) by {
                        assert forall|t: int|
                            0 <= t < fs.tasks@.len() implies ((#[trigger] fs.tasks@[t]).state matches TaskState::Collecting {
                            next,
                            acc,
                        } ==> {
                            let tid = fs.tasks@[t].resolver_id;
                            match reg.spec_find(tid) {
                                Some(BodyModel::Scan { .. }) => false,
                                Some(bb) => {
                                    let children = body_children(bb);
                                    &&& next <= children.len()
                                    &&& acc@.len() == next
                                    &&& (bb matches BodyModel::TryCollect { .. } ==> forall|
                                        ii: int,
                                    | 0 <= ii < next ==> (#[trigger] acc@[ii]) is Ok)
                                    &&& (forall|ii: int|
                                        0 <= ii < next ==> child_gathered(
                                            *reg,
                                            *image,
                                            children[ii],
                                            #[trigger] acc@[ii],
                                        ))
                                },
                                None => false,
                            }
                        }) by {
                            if t != i {
                                assert(fs.tasks@[t] == pre.tasks@[t]);
                            } else {
                                assert(reg.spec_find(id) == Some(b));
                            }
                        }
                    }
                    assert(fs.inv_await_scans(*reg, *image)) by {
                        assert forall|t: int|
                            0 <= t < fs.tasks@.len() && ((#[trigger] fs.tasks@[t]).state matches TaskState::AwaitScans {
                            slots,
                        }) implies t != i && fs.tasks@[t] == pre.tasks@[t] by {}
                    }
                    assert(fs.inv_queue(*reg)) by {
                        assert forall|q: int| 0 <= q < fs.queue@.len() implies fs.queue@[q]
                            == pre.queue@[q] && (#[trigger] fs.queue@[q]).task != i by {
                            assert(pre.tasks@[fs.queue@[q].task as int].state matches TaskState::AwaitScans {
                                slots,
                            });
                        }
                        assert forall|q: int| 0 <= q < fs.queue@.len() implies {
                            let req = #[trigger] fs.queue@[q];
                            &&& req.task < fs.tasks@.len()
                            &&& (fs.tasks@[req.task as int].state matches TaskState::AwaitScans {
                                slots,
                            } && req.slot < slots@.len() && slots@[req.slot as int] is None && (
                            reg.spec_find(fs.tasks@[req.task as int].resolver_id) matches Some(
                                BodyModel::Scan { patterns: ps, post: po },
                            ) && req.pattern@ == ps[req.slot as int]))
                        } by {
                            let req = fs.queue@[q];
                            assert(req.task != i);
                            assert(fs.tasks@[req.task as int] == pre.tasks@[req.task as int]);
                        }
                    }
                    assert(fs.inv_queue_covers()) by {
                        assert forall|t: int|
                            0 <= t < fs.tasks@.len() implies ((#[trigger] fs.tasks@[t]).state matches TaskState::AwaitScans {
                            slots,
                        } ==> forall|sl: int|
                            0 <= sl < slots@.len() && (#[trigger] slots@[sl]) is None
                                ==> exists|q: int|
                                0 <= q < fs.queue@.len() && (#[trigger] fs.queue@[q]).task == t
                                    && fs.queue@[q].slot == sl) by {
                            if t != i {
                                match fs.tasks@[t].state {
                                    TaskState::AwaitScans { slots } => {
                                        assert(fs.tasks@[t] == pre.tasks@[t]);
                                        assert forall|sl: int|
                                            0 <= sl < slots@.len() && (#[trigger] slots@[sl]) is None implies exists|
                                            q: int,
                                        |
                                            0 <= q < fs.queue@.len() && (
                                            #[trigger] fs.queue@[q]).task == t
                                                && fs.queue@[q].slot == sl by {
                                            let q0 = choose|q0: int|
                                                0 <= q0 < pre.queue@.len() && (
                                                #[trigger] pre.queue@[q0]).task == t
                                                    && pre.queue@[q0].slot == sl;
                                            assert(fs.queue@[q0] == pre.queue@[q0]);
                                        }
                                    },
                                    _ => {},
                                }
                            }
                        }
                    }
                    lemma_measure_after_update(*reg, pre.tasks@, i as int, newtask, b);
                }
            },
        }
    }
}

impl AsyncContext {
    #[verifier::loop_isolation(false)]
    fn step_await(&mut self, i: usize, image: &Image, reg: &Registry) -> (progressed: bool)
        requires
            old(self).inv(*reg, *image),
            reg.wf(),
            image.wf(),
            i < old(self).tasks@.len(),
            old(self).tasks@[i as int].state matches TaskState::AwaitScans { slots },
        ensures
            final(self).inv(*reg, *image),
            old(self).cache@.is_prefix_of(final(self).cache@),
            progressed ==> measure(*final(self), *reg) < measure(*old(self), *reg),
            !progressed ==> final(self).tasks@ == old(self).tasks@ && final(self).cache@ == old(
                self,
            ).cache@ && final(self).queue@ == old(self).queue@ && task_blocked(
                old(self).tasks@,
                old(self).cache@,
                i as int,
                *reg,
            ),
            final(self).tasks@.len() >= old(self).tasks@.len(),
            forall|t: int|
                0 <= t < old(self).tasks@.len() ==> (#[trigger] final(self).tasks@[t]).resolver_id
                    == old(self).tasks@[t].resolver_id,
    {
        let ghost pre = *old(self);
        let ghost secs = image.memory.spec_sections();
        let id = self.tasks[i].resolver_id;
        let post = match reg.lookup(id) {
            Some(ResolverBody::Scan { post, .. }) => *post,
            _ => {
                proof {
                    assert(false);
                }
                return false;
            },
        };
        let ghost pmodels = reg.spec_find(id).unwrap()->Scan_patterns;
        let merged = match &self.tasks[i].state {
            TaskState::AwaitScans { slots } => {
                let ghost slots0 = slots@;
                let slen = slots.len();
                let mut k: usize = 0;
                while k < slen
                    invariant
                        k <= slen,
                        slen == slots0.len(),
                        slots@ == slots0,
                        forall|s: int| 0 <= s < k ==> (#[trigger] slots0[s]) is Some,
                    decreases slen - k,
                {
                    if slots[k].is_none() {
                        proof {
                            assert(task_blocked(pre.tasks@, pre.cache@, i as int, *reg));
                        }
                        return false;
                    }
                    k = k + 1;
                }
                let mut merged: Vec<usize> = Vec::new();
                let mut k: usize = 0;
                while k < slen
                    invariant
                        k <= slen,
                        slen == slots0.len(),
                        slots@ == slots0,
                        pmodels.len() == slen,
                        forall|s: int| 0 <= s < slen ==> (#[trigger] slots0[s]) is Some,
                        forall|s: int|
                            0 <= s < slen ==> ((#[trigger] slots0[s]) matches Some(v) ==> v@
                                == merged_matches(pmodels[s], secs)),
                        merged@ == all_matches(pmodels.take(k as int), secs),
                    decreases slen - k,
                {
                    match &slots[k] {
                        Some(v) => {
                            let vlen = v.len();
                            let mut x: usize = 0;
                            while x < vlen
                                invariant
                                    x <= vlen,
                                    vlen == v@.len(),
                                    merged@ == all_matches(pmodels.take(k as int), secs)
                                        + v@.subrange(0, x as int),
                                decreases vlen - x,
                            {
                                merged.push(v[x]);
                                x = x + 1;
                                proof {
                                    assert(merged@ =~= all_matches(pmodels.take(k as int), secs)
                                        + v@.subrange(0, x as int));
                                }
                            }
                            proof {
                                lemma_all_matches_take_step(pmodels, secs, k as int);
                                assert(v@.subrange(0, vlen as int) =~= v@);
                                assert(merged@ =~= all_matches(pmodels.take(k as int + 1), secs));
                            }
                        },
                        None => {
                            proof {
                                assert(false);
                            }
                        },
                    }
                    k = k + 1;
                }
                proof {
                    assert(pmodels.take(slen as int) =~= pmodels);
                }
                merged
            },
            _ => {
                proof {
                    assert(false);
                }
                return false;
            },
        };
        let result = apply_post(post, merged, image);
        let ghost ev = entry_view(result);
        self.cache.push((id, result));
        let newtask = Task { resolver_id: id, state: TaskState::Finished };
        self.tasks.set(i, newtask);
        proof {
            let fs = *self;
            assert(fs.cache@ == pre.cache@.push((id, fs.cache@[fs.cache@.len() - 1].1)));
            assert(pre.cache@.is_prefix_of(fs.cache@)) by {
                assert(fs.cache@.subrange(0, pre.cache@.len() as int) =~= pre.cache@);
            }
            assert(fs.tasks@ == pre.tasks@.update(i as int, newtask));
            assert forall|t: int| 0 <= t < fs.tasks@.len() implies (#[trigger] fs.tasks@[t]).resolver_id
                == pre.tasks@[t].resolver_id by {
                if t != i {
                    assert(fs.tasks@[t] == pre.tasks@[t]);
                }
            }
            assert forall|cid: u64| pre.spec_cached(cid) implies fs.spec_cached(cid)
                && fs.spec_cache_lookup(cid) == pre.spec_cache_lookup(cid) by {
                let e = (id, fs.cache@[fs.cache@.len() - 1].1);
                lemma_cache_find_push(pre.cache@, e, cid, 0);
                lemma_cache_find_bounds(pre.cache@, cid, 0);
                match cache_find_from(pre.cache@, cid, 0) {
                    Some(x) => {
                        assert(fs.cache@[x] == pre.cache@[x]);
                    },
                    None => {},
                }
            }
            assert(fs.inv_tasks_unique()) by {
                assert forall|a: int, c: int| 0 <= a < c < fs.tasks@.len() implies (
                #[trigger] fs.tasks@[a]).resolver_id != (#[trigger] fs.tasks@[c]).resolver_id by {
                    assert(pre.tasks@[a].resolver_id != pre.tasks@[c].resolver_id);
                }
            }
            assert(fs.inv_tasks_registered(*reg)) by {
                assert forall|t: int| 0 <= t < fs.tasks@.len() implies reg.spec_find(
                    (#[trigger] fs.tasks@[t]).resolver_id,
                ) is Some by {
                    assert(reg.spec_find(pre.tasks@[t].resolver_id) is Some);
                }
            }
            assert(fs.inv_finished_cached()) by {
                lemma_cache_find_push(pre.cache@, (id, fs.cache@[fs.cache@.len() - 1].1), id, 0);
                assert(fs.spec_cached(id));
                assert forall|t: int|
                    0 <= t < fs.tasks@.len() && (#[trigger] fs.tasks@[t]).state is Finished implies fs.spec_cached(
                    fs.tasks@[t].resolver_id,
                ) by {
                    if t != i {
                        assert(fs.tasks@[t] == pre.tasks@[t]);
                        assert(pre.spec_cached(pre.tasks@[t].resolver_id));
                    }
                }
            }
            assert(fs.inv_cache_values(*reg, *image)) by {
                assert(ev == spec_post(post, all_matches(pmodels, secs), *image));
                assert(ev == scan_body_result(pmodels, post, *image));
                // one level of depth resolves a scanning body
                assert(spec_resolver_result(*reg, *image, id, 1nat) == Some(ev));
                assert forall|c: int| 0 <= c < fs.cache@.len() implies cache_entry_ok(
                    *reg,
                    *image,
                    (#[trigger] fs.cache@[c]).0,
                    entry_view(fs.cache@[c].1),
                ) by {
                    if c < pre.cache@.len() {
                        assert(fs.cache@[c] == pre.cache@[c]);
                    } else {
                        assert(fs.cache@[c].0 == id);
                        assert(entry_view(fs.cache@[c].1) == ev);
                    }
                }
            }
            assert(fs.inv_collecting(*reg, *image)) by {
                assert forall|t: int|
                    0 <= t < fs.tasks@.len() && ((#[trigger] fs.tasks@[t]).state matches TaskState::Collecting {
                    next,
                    acc,
                }) implies t != i && fs.tasks@[t] == pre.tasks@[t] by {}
            }
            assert(fs.inv_await_scans(*reg, *image)) by {
                assert forall|t: int|
                    0 <= t < fs.tasks@.len() && ((#[trigger] fs.tasks@[t]).state matches TaskState::AwaitScans {
                    slots,
                }) implies t != i && fs.tasks@[t] == pre.tasks@[t] by {}
            }
            assert(fs.inv_queue(*reg)) by {
                assert forall|q: int| 0 <= q < fs.queue@.len() implies {
                    let req = #[trigger] fs.queue@[q];
                    &&& req.task < fs.tasks@.len()
                    &&& (fs.tasks@[req.task as int].state matches TaskState::AwaitScans { slots }
                        && req.slot < slots@.len() && slots@[req.slot as int] is None && (
                    reg.spec_find(fs.tasks@[req.task as int].resolver_id) matches Some(
                        BodyModel::Scan { patterns: ps, post: po },
                    ) && req.pattern@ == ps[req.slot as int]))
                } by {
                    let req = fs.queue@[q];
                    assert(req == pre.queue@[q]);
                    if req.task == i {
                        // the finished task had no undelivered slot left
                        assert(pre.tasks@[i as int].state matches TaskState::AwaitScans { slots }
                            && slots@[req.slot as int] is None);
                        assert(false);
                    }
                    assert(fs.tasks@[req.task as int] == pre.tasks@[req.task as int]);
                }
            }
            assert(fs.inv_queue_covers()) by {
                assert forall|t: int|
                    0 <= t < fs.tasks@.len() implies ((#[trigger] fs.tasks@[t]).state matches TaskState::AwaitScans {
                    slots,
                } ==> forall|sl: int|
                    0 <= sl < slots@.len() && (#[trigger] slots@[sl]) is None ==> exists|q: int|
                        0 <= q < fs.queue@.len() && (#[trigger] fs.queue@[q]).task == t
                            && fs.queue@[q].slot == sl) by {
                    if t != i {
                        match fs.tasks@[t].state {
                            TaskState::AwaitScans { slots } => {
                                assert(fs.tasks@[t] == pre.tasks@[t]);
                                assert forall|sl: int|
                                    0 <= sl < slots@.len() && (#[trigger] slots@[sl]) is None implies exists|
                                    q: int,
                                |
                                    0 <= q < fs.queue@.len() && (#[trigger] fs.queue@[q]).task == t
                                        && fs.queue@[q].slot == sl by {
                                    let q0 = choose|q0: int|
                                        0 <= q0 < pre.queue@.len() && (
                                        #[trigger] pre.queue@[q0]).task == t && pre.queue@[q0].slot
                                            == sl;
                                    assert(fs.queue@[q0] == pre.queue@[q0]);
                                }
                            },
                            _ => {},
                        }
                    }
                }
            }
            lemma_count_none_all_some(pre.tasks@[i as int].state->AwaitScans_slots@);
            lemma_measure_after_update(
                *reg,
                pre.tasks@,
                i as int,
                newtask,
                reg.spec_find(id).unwrap(),
            );
        }
        true
    }
}

impl AsyncContext {
    /// Stores a collecting task's result in the cache and retires the task.
    #[verifier::loop_isolation(false)]
    fn finish_task(
        &mut self,
        i: usize,
        result: Result<ResolvedValue, ResolveError>,
        image: &Image,
        reg: &Registry,
    )
        requires
            old(self).inv(*reg, *image),
            reg.wf(),
            image.wf(),
            i < old(self).tasks@.len(),
            old(self).tasks@[i as int].state matches TaskState::Collecting { next, acc },
            cache_entry_ok(
                *reg,
                *image,
                old(self).tasks@[i as int].resolver_id,
                entry_view(result),
            ),
        ensures
            final(self).inv(*reg, *image),
            old(self).cache@.is_prefix_of(final(self).cache@),
            measure(*final(self), *reg) < measure(*old(self), *reg),
            final(self).tasks@.len() == old(self).tasks@.len(),
            forall|t: int|
                0 <= t < old(self).tasks@.len() ==> (#[trigger] final(self).tasks@[t]).resolver_id
                    == old(self).tasks@[t].resolver_id,
    {
        let ghost pre = *old(self);
        let id = self.tasks[i].resolver_id;
        let ghost ev = entry_view(result);
        self.cache.push((id, result));
        let newtask = Task { resolver_id: id, state: TaskState::Finished };
        self.tasks.set(i, newtask);
        proof {
            let fs = *self;
            assert(fs.cache@ == pre.cache@.push((id, fs.cache@[fs.cache@.len() - 1].1)));
            assert(pre.cache@.is_prefix_of(fs.cache@)) by {
                assert(fs.cache@.subrange(0, pre.cache@.len() as int) =~= pre.cache@);
            }
            assert(fs.tasks@ == pre.tasks@.update(i as int, newtask));
            assert forall|t: int| 0 <= t < fs.tasks@.len() implies (#[trigger] fs.tasks@[t]).resolver_id
                == pre.tasks@[t].resolver_id by {
                if t != i {
                    assert(fs.tasks@[t] == pre.tasks@[t]);
                }
            }
            assert(fs.inv_tasks_unique()) by {
                assert forall|a: int, c: int| 0 <= a < c < fs.tasks@.len() implies (
                #[trigger] fs.tasks@[a]).resolver_id != (#[trigger] fs.tasks@[c]).resolver_id by {
                    assert(pre.tasks@[a].resolver_id != pre.tasks@[c].resolver_id);
                }
            }
            assert(fs.inv_tasks_registered(*reg)) by {
                assert forall|t: int| 0 <= t < fs.tasks@.len() implies reg.spec_find(
                    (#[trigger] fs.tasks@[t]).resolver_id,
                ) is Some by {
                    assert(reg.spec_find(pre.tasks@[t].resolver_id) is Some);
                }
            }
            assert(fs.inv_finished_cached()) by {
                lemma_cache_find_push(pre.cache@, (id, fs.cache@[fs.cache@.len() - 1].1), id, 0);
                assert(fs.spec_cached(id));
                assert forall|t: int|
                    0 <= t < fs.tasks@.len() && (#[trigger] fs.tasks@[t]).state is Finished implies fs.spec_cached(
                    fs.tasks@[t].resolver_id,
                ) by {
                    if t != i {
                        assert(fs.tasks@[t] == pre.tasks@[t]);
                        assert(pre.spec_cached(pre.tasks@[t].resolver_id));
                        lemma_cache_find_push(
                            pre.cache@,
                            (id, fs.cache@[fs.cache@.len() - 1].1),
                            fs.tasks@[t].resolver_id,
                            0,
                        );
                    }
                }
            }
            assert(fs.inv_cache_values(*reg, *image)) by {
                assert forall|c: int| 0 <= c < fs.cache@.len() implies cache_entry_ok(
                    *reg,
                    *image,
                    (#[trigger] fs.cache@[c]).0,
                    entry_view(fs.cache@[c].1),
                ) by {
                    if c < pre.cache@.len() {
                        assert(fs.cache@[c] == pre.cache@[c]);
                    } else {
                        assert(fs.cache@[c].0 == id);
                        assert(entry_view(fs.cache@[c].1) == ev);
                    }
                }
            }
            assert(fs.inv_collecting(*reg, *image)) by {
                assert forall|t: int|
                    0 <= t < fs.tasks@.len() && ((#[trigger] fs.tasks@[t]).state matches TaskState::Collecting {
                    next,
                    acc,
                }) implies t != i && fs.tasks@[t] == pre.tasks@[t] by {}
            }
            assert(fs.inv_await_scans(*reg, *image)) by {
                assert forall|t: int|
                    0 <= t < fs.tasks@.len() && ((#[trigger] fs.tasks@[t]).state matches TaskState::AwaitScans {
                    slots,
                }) implies t != i && fs.tasks@[t] == pre.tasks@[t] by {}
            }
            assert(fs.inv_queue(*reg)) by {
                assert forall|q: int| 0 <= q < fs.queue@.len() implies {
                    let req = #[trigger] fs.queue@[q];
                    &&& req.task < fs.tasks@.len()
                    &&& (fs.tasks@[req.task as int].state matches TaskState::AwaitScans { slots }
                        && req.slot < slots@.len() && slots@[req.slot as int] is None && (
                    reg.spec_find(fs.tasks@[req.task as int].resolver_id) matches Some(
                        BodyModel::Scan { patterns: ps, post: po },
                    ) && req.pattern@ == ps[req.slot as int]))
                } by {
                    let req = fs.queue@[q];
                    assert(req == pre.queue@[q]);
                    assert(req.task != i);
                    assert(fs.tasks@[req.task as int] == pre.tasks@[req.task as int]);
                }
            }
            assert(fs.inv_queue_covers()) by {
                assert forall|t: int|
                    0 <= t < fs.tasks@.len() implies ((#[trigger] fs.tasks@[t]).state matches TaskState::AwaitScans {
                    slots,
                } ==> forall|sl: int|
                    0 <= sl < slots@.len() && (#[trigger] slots@[sl]) is None ==> exists|q: int|
                        0 <= q < fs.queue@.len() && (#[trigger] fs.queue@[q]).task == t
                            && fs.queue@[q].slot == sl) by {
                    if t != i {
                        match fs.tasks@[t].state {
                            TaskState::AwaitScans { slots } => {
                                assert(fs.tasks@[t] == pre.tasks@[t]);
                                assert forall|sl: int|
                                    0 <= sl < slots@.len() && (#[trigger] slots@[sl]) is None implies exists|
                                    q: int,
                                |
                                    0 <= q < fs.queue@.len() && (#[trigger] fs.queue@[q]).task == t
                                        && fs.queue@[q].slot == sl by {
                                    let q0 = choose|q0: int|
                                        0 <= q0 < pre.queue@.len() && (
                                        #[trigger] pre.queue@[q0]).task == t && pre.queue@[q0].slot
                                            == sl;
                                    assert(fs.queue@[q0] == pre.queue@[q0]);
                                }
                            },
                            _ => {},
                        }
                    }
                }
            }
            lemma_measure_after_update(
                *reg,
                pre.tasks@,
                i as int,
                newtask,
                reg.spec_find(id).unwrap(),
            );
        }
    }
}

impl AsyncContext {
    /// Appends one resolved child result to a collecting task and advances
    /// it to its next child.
    #[verifier::loop_isolation(false)]
    fn gather_field(
        &mut self,
        i: usize,
        field: Result<ResolvedValue, ResolveError>,
        image: &Image,
        reg: &Registry,
        Ghost(fw): Ghost<nat>,
    )
        requires
            old(self).inv(*reg, *image),
            reg.wf(),
            image.wf(),
            i < old(self).tasks@.len(),
            old(self).tasks@[i as int].state matches TaskState::Collecting { next, acc },
            ({
                let id = old(self).tasks@[i as int].resolver_id;
                let next = old(self).tasks@[i as int].state->Collecting_next;
                match reg.spec_find(id) {
                    Some(b) => next < body_children(b).len() && spec_resolver_result(
                        *reg,
                        *image,
                        body_children(b)[next as int],
                        fw,
                    ) == Some(entry_view(field)) && (b matches BodyModel::TryCollect { .. }
                        ==> field is Ok),
                    None => false,
                }
            }),
            old(self).tasks@[i as int].state->Collecting_next < usize::MAX,
        ensures
            final(self).inv(*reg, *image),
            final(self).cache@ == old(self).cache@,
            measure(*final(self), *reg) < measure(*old(self), *reg),
            final(self).tasks@.len() == old(self).tasks@.len(),
            forall|t: int|
                0 <= t < old(self).tasks@.len() ==> (#[trigger] final(self).tasks@[t]).resolver_id
                    == old(self).tasks@[t].resolver_id,
    {
        let ghost pre = *old(self);
        let id = self.tasks[i].resolver_id;
        let ghost b = reg.spec_find(id).unwrap();
        let ghost acc0 = pre.tasks@[i as int].state->Collecting_acc@;
        let next0 = match &self.tasks[i].state {
            TaskState::Collecting { next, .. } => *next,
            _ => {
                proof {
                    assert(false);
                }
                return ;
            },
        };
        let mut new_acc = match &self.tasks[i].state {
            TaskState::Collecting { acc, .. } => clone_entry_vec(acc),
            _ => {
                proof {
                    assert(false);
                }
                return ;
            },
        };
        new_acc.push(field);
        let newtask = Task {
            resolver_id: id,
            state: TaskState::Collecting { next: next0 + 1, acc: new_acc },
        };
        self.tasks.set(i, newtask);
        proof {
            let fs = *self;
            assert(fs.tasks@ == pre.tasks@.update(i as int, newtask));
            assert forall|t: int| 0 <= t < fs.tasks@.len() implies (#[trigger] fs.tasks@[t]).resolver_id
                == pre.tasks@[t].resolver_id by {
                if t != i {
                    assert(fs.tasks@[t] == pre.tasks@[t]);
                }
            }
            assert(fs.inv_tasks_unique()) by {
                assert forall|a: int, c: int| 0 <= a < c < fs.tasks@.len() implies (
                #[trigger] fs.tasks@[a]).resolver_id != (#[trigger] fs.tasks@[c]).resolver_id by {
                    assert(pre.tasks@[a].resolver_id != pre.tasks@[c].resolver_id);
                }
            }
            assert(fs.inv_tasks_registered(*reg)) by {
                assert forall|t: int| 0 <= t < fs.tasks@.len() implies reg.spec_find(
                    (#[trigger] fs.tasks@[t]).resolver_id,
                ) is Some by {
                    assert(reg.spec_find(pre.tasks@[t].resolver_id) is Some);
                }
            }
            assert(fs.inv_finished_cached()) by {
                assert forall|t: int|
                    0 <= t < fs.tasks@.len() && (#[trigger] fs.tasks@[t]).state is Finished implies fs.spec_cached(
                    fs.tasks@[t].resolver_id,
                ) by {
                    assert(t != i);
                    assert(fs.tasks@[t] == pre.tasks@[t]);
                    assert(pre.spec_cached(pre.tasks@[t].resolver_id));
                }
            }
            assert(fs.inv_cache_values(*reg, *image)) by {
                assert forall|c: int| 0 <= c < fs.cache@.len() implies fs.cache@[c]
                    == pre.cache@[c] by {}
            }
            assert(fs.inv_collecting(*reg, *image)) by {
                assert forall|t: int|
                    0 <= t < fs.tasks@.len() implies ((#[trigger] fs.tasks@[t]).state matches TaskState::Collecting {
                    next,
                    acc,
                } ==> {
                    let tid = fs.tasks@[t].resolver_id;
                    match reg.spec_find(tid) {
                        Some(BodyModel::Scan { .. }) => false,
                        Some(bb) => {
                            let ch = body_children(bb);
                            &&& next <= ch.len()
                            &&& acc@.len() == next
                            &&& (bb matches BodyModel::TryCollect { .. } ==> forall|ii: int|
                                0 <= ii < next ==> (#[trigger] acc@[ii]) is Ok)
                            &&& (forall|ii: int|
                                0 <= ii < next ==> child_gathered(
                                    *reg,
                                    *image,
                                    ch[ii],
                                    #[trigger] acc@[ii],
                                ))
                        },
                        None => false,
                    }
                }) by {
                    if t != i {
                        assert(fs.tasks@[t] == pre.tasks@[t]);
                    } else {
                        let ch = body_children(b);
                        assert(reg.spec_find(id) == Some(b));
                        assert(new_acc@.len() == next0 + 1);
                        assert forall|ii: int|
                            0 <= ii < next0 + 1 implies child_gathered(
                            *reg,
                            *image,
                            ch[ii],
                            #[trigger] new_acc@[ii],
                        ) by {
                            if ii < next0 {
                                assert(entry_view(new_acc@[ii]) == entry_view(acc0[ii]));
                                assert(child_gathered(*reg, *image, ch[ii], acc0[ii]));
                                let f0 = choose|f0: nat|
                                    #[trigger] spec_resolver_result(*reg, *image, ch[ii], f0)
                                        == Some(entry_view(acc0[ii]));
                                assert(spec_resolver_result(*reg, *image, ch[ii], f0) == Some(
                                    entry_view(new_acc@[ii]),
                                ));
                            } else {
                                assert(new_acc@[ii] == field);
                                assert(spec_resolver_result(*reg, *image, ch[ii], fw) == Some(
                                    entry_view(new_acc@[ii]),
                                ));
                            }
                        }
                        if b matches BodyModel::TryCollect { .. } {
                            assert forall|ii: int| 0 <= ii < next0 + 1 implies (
                            #[trigger] new_acc@[ii]) is Ok by {
                                if ii < next0 {
                                    assert(acc0[ii] is Ok);
                                    assert(entry_view(new_acc@[ii]) == entry_view(acc0[ii]));
                                }
                            }
                        }
                    }
                }
            }
            assert(fs.inv_await_scans(*reg, *image)) by {
                assert forall|t: int|
                    0 <= t < fs.tasks@.len() && ((#[trigger] fs.tasks@[t]).state matches TaskState::AwaitScans {
                    slots,
                }) implies t != i && fs.tasks@[t] == pre.tasks@[t] by {}
            }
            assert(fs.inv_queue(*reg)) by {
                assert forall|q: int| 0 <= q < fs.queue@.len() implies {
                    let req = #[trigger] fs.queue@[q];
                    &&& req.task < fs.tasks@.len()
                    &&& (fs.tasks@[req.task as int].state matches TaskState::AwaitScans { slots }
                        && req.slot < slots@.len() && slots@[req.slot as int] is None && (
                    reg.spec_find(fs.tasks@[req.task as int].resolver_id) matches Some(
                        BodyModel::Scan { patterns: ps, post: po },
                    ) && req.pattern@ == ps[req.slot as int]))
                } by {
                    let req = fs.queue@[q];
                    assert(req == pre.queue@[q]);
                    assert(req.task != i);
                    assert(fs.tasks@[req.task as int] == pre.tasks@[req.task as int]);
                }
            }
            assert(fs.inv_queue_covers()) by {
                assert forall|t: int|
                    0 <= t < fs.tasks@.len() implies ((#[trigger] fs.tasks@[t]).state matches TaskState::AwaitScans {
                    slots,
                } ==> forall|sl: int|
                    0 <= sl < slots@.len() && (#[trigger] slots@[sl]) is None ==> exists|q: int|
                        0 <= q < fs.queue@.len() && (#[trigger] fs.queue@[q]).task == t
                            && fs.queue@[q].slot == sl) by {
                    if t != i {
                        match fs.tasks@[t].state {
                            TaskState::AwaitScans { slots } => {
                                assert(fs.tasks@[t] == pre.tasks@[t]);
                                assert forall|sl: int|
                                    0 <= sl < slots@.len() && (#[trigger] slots@[sl]) is None implies exists|
                                    q: int,
                                |
                                    0 <= q < fs.queue@.len() && (#[trigger] fs.queue@[q]).task == t
                                        && fs.queue@[q].slot == sl by {
                                    let q0 = choose|q0: int|
                                        0 <= q0 < pre.queue@.len() && (
                                        #[trigger] pre.queue@[q0]).task == t && pre.queue@[q0].slot
                                            == sl;
                                    assert(fs.queue@[q0] == pre.queue@[q0]);
                                }
                            },
                            _ => {},
                        }
                    }
                }
            }
            lemma_measure_after_update(*reg, pre.tasks@, i as int, newtask, b);
        }
    }

    #[verifier::loop_isolation(false)]
    fn step_collecting(&mut self, i: usize, image: &Image, reg: &Registry) -> (progressed: bool)
        requires
            old(self).inv(*reg, *image),
            reg.wf(),
            image.wf(),
            i < old(self).tasks@.len(),
            old(self).tasks@[i as int].state matches TaskState::Collecting { next, acc },
        ensures
            final(self).inv(*reg, *image),
            old(self).cache@.is_prefix_of(final(self).cache@),
            progressed ==> measure(*final(self), *reg) < measure(*old(self), *reg),
            !progressed ==> final(self).tasks@ == old(self).tasks@ && final(self).cache@ == old(
                self,
            ).cache@ && final(self).queue@ == old(self).queue@ && task_blocked(
                old(self).tasks@,
                old(self).cache@,
                i as int,
                *reg,
            ),
            final(self).tasks@.len() >= old(self).tasks@.len(),
            forall|t: int|
                0 <= t < old(self).tasks@.len() ==> (#[trigger] final(self).tasks@[t]).resolver_id
                    == old(self).tasks@[t].resolver_id,
    {
        let ghost pre = *old(self);
        let id = self.tasks[i].resolver_id;
        let ghost b = reg.spec_find(id).unwrap();
        let ghost cmodel = body_children(b);
        let (children, is_try) = match reg.lookup(id) {
            Some(ResolverBody::TryCollect { children }) => (children, true),
            Some(ResolverBody::Collect { children }) => (children, false),
            _ => {
                proof {
                    assert(false);
                }
                return false;
            },
        };
        proof {
            assert(children@ == cmodel);
        }
        let next0 = match &self.tasks[i].state {
            TaskState::Collecting { next, .. } => *next,
            _ => {
                proof {
                    assert(false);
                }
                return false;
            },
        };
        let ghost acc0 = pre.tasks@[i as int].state->Collecting_acc@;
        if next0 == children.len() {
            // every child is gathered: seal the record
            let acc_clone = match &self.tasks[i].state {
                TaskState::Collecting { acc, .. } => clone_entry_vec(acc),
                _ => {
                    proof {
                        assert(false);
                    }
                    return false;
                },
            };
            let result: Result<ResolvedValue, ResolveError> = Ok(ResolvedValue::Record(acc_clone));
            proof {
                let ws = Seq::new(next0 as nat, |ii: int| entry_view(acc0[ii]));
                assert forall|ii: int| 0 <= ii < next0 implies #[trigger] gathered_value(
                    *reg,
                    *image,
                    cmodel[ii],
                    ws[ii],
                ) by {
                    let f0 = choose|f0: nat|
                        #[trigger] spec_resolver_result(*reg, *image, cmodel[ii], f0) == Some(
                            entry_view(acc0[ii]),
                        );
                    assert(spec_resolver_result(*reg, *image, cmodel[ii], f0) == Some(ws[ii]));
                }
                lemma_common_fuel(*reg, *image, cmodel, ws, next0 as int);
                let fc = choose|fc: nat| #[trigger] all_gathered_at(
                    *reg,
                    *image,
                    cmodel,
                    ws,
                    next0 as int,
                    fc,
                );
                lemma_fields_model(acc_clone@);
                assert forall|ii: int| 0 <= ii < next0 implies fields_model(acc_clone@)[ii] == ws[ii] by {
                    assert(fields_model(acc_clone@)[ii] == entry_view(acc_clone@[ii]));
                    assert(entry_view(acc_clone@[ii]) == entry_view(acc0[ii]));
                }
                assert(fields_model(acc_clone@) =~= ws);
                assert(ws.subrange(0, ws.len() as int) =~= ws);
                if is_try {
                    assert forall|ii: int| 0 <= ii < ws.len() implies (#[trigger] ws[ii]) is Ok by {
                        assert(acc0[ii] is Ok);
                    }
                    lemma_first_error_all_ok(ws, 0);
                    lemma_try_from_pointwise(*reg, *image, cmodel, ws, 0, fc);
                    assert(spec_resolver_result(*reg, *image, id, (fc + 1) as nat) == Some(
                        Ok::<ResolvedModel, ResolveErrorModel>(ResolvedModel::Record(ws)),
                    ));
                } else {
                    lemma_collect_from_pointwise(*reg, *image, cmodel, ws, 0, fc);
                    assert(spec_resolver_result(*reg, *image, id, (fc + 1) as nat) == Some(
                        Ok::<ResolvedModel, ResolveErrorModel>(ResolvedModel::Record(ws)),
                    ));
                }
                assert(entry_view(result) == Ok::<ResolvedModel, ResolveErrorModel>(
                    ResolvedModel::Record(ws),
                ));
                assert(cache_entry_ok(*reg, *image, id, entry_view(result)));
            }
            self.finish_task(i, result, image, reg);
            return true;
        }
        let child = children[next0];
        proof {
            assert(child == cmodel[next0 as int]);
        }
        let cached = self.cache_get(child);
        if cached.is_some() {
            let entry = cached.unwrap();
            let ghost centry = pre.spec_cache_lookup(child).unwrap();
            proof {
                lemma_cache_find_bounds(pre.cache@, child, 0);
                let k0 = cache_find_from(pre.cache@, child, 0).unwrap();
                assert(pre.cache@[k0].0 == child && pre.cache@[k0].1 == centry);
                assert(cache_entry_ok(*reg, *image, child, entry_view(centry)));
            }
            let ghost fchild = choose|f: nat|
                #[trigger] spec_resolver_result(*reg, *image, child, f) == Some(
                    entry_view(centry),
                );
            let decision: Result<Result<ResolvedValue, ResolveError>, ResolveError> = match entry {
                Ok(v) => Ok(Ok(clone_value(v))),
                Err(e) => if is_try {
                    Err(e.clone())
                } else {
                    Ok(Err(e.clone()))
                },
            };
            match decision {
                Ok(field) => {
                    proof {
                        assert(entry_view(field) == entry_view(centry));
                        assert(spec_resolver_result(*reg, *image, cmodel[next0 as int], fchild)
                            == Some(entry_view(field)));
                    }
                    self.gather_field(i, field, image, reg, Ghost(fchild));
                    true
                },
                Err(e) => {
                    proof {
                        // the failing child short-circuits the try-walk
                        let em = centry->Err_0@;
                        assert(e@ == em);
                        let ws = Seq::new(next0 as nat, |ii: int| entry_view(acc0[ii]));
                        assert forall|ii: int| 0 <= ii < next0 implies #[trigger] gathered_value(
                            *reg,
                            *image,
                            cmodel[ii],
                            ws[ii],
                        ) by {
                            let f0 = choose|f0: nat|
                                #[trigger] spec_resolver_result(*reg, *image, cmodel[ii], f0)
                                    == Some(entry_view(acc0[ii]));
                            assert(spec_resolver_result(*reg, *image, cmodel[ii], f0) == Some(
                                ws[ii],
                            ));
                        }
                        lemma_common_fuel(*reg, *image, cmodel, ws, next0 as int);
                        let fc = choose|fc: nat| #[trigger] all_gathered_at(
                            *reg,
                            *image,
                            cmodel,
                            ws,
                            next0 as int,
                            fc,
                        );
                        let fmax: nat = if fc >= fchild {
                            fc
                        } else {
                            fchild
                        };
                        assert forall|ii: int|
                            0 <= ii < next0 implies (spec_resolver_result(
                            *reg,
                            *image,
                            #[trigger] cmodel[ii],
                            fmax,
                        ) matches Some(r) && r is Ok) by {
                            lemma_result_stable(*reg, *image, cmodel[ii], fc, fmax);
                            assert(acc0[ii] is Ok);
                        }
                        lemma_result_stable(*reg, *image, child, fchild, fmax);
                        lemma_try_from_short(*reg, *image, cmodel, 0, next0 as int, fmax, em);
                        assert(spec_resolver_result(*reg, *image, id, (fmax + 1) as nat) == Some(
                            Err::<ResolvedModel, ResolveErrorModel>(em),
                        ));
                        assert(cache_entry_ok(
                            *reg,
                            *image,
                            id,
                            entry_view(Err::<ResolvedValue, ResolveError>(e)),
                        ));
                    }
                    self.finish_task(i, Err(e), image, reg);
                    true
                },
            }
        } else {
            let has = self.find_task(child);
            if has.is_some() {
                proof {
                    assert(task_blocked(pre.tasks@, pre.cache@, i as int, *reg));
                }
                false
            } else {
                match reg.lookup(child) {
                    Some(_) => {
                        let newtask = Task { resolver_id: child, state: TaskState::Start };
                        self.tasks.push(newtask);
                        proof {
                            let fs = *self;
                            assert(fs.tasks@ == pre.tasks@.push(newtask));
                            assert forall|t: int| 0 <= t < pre.tasks@.len() implies (
                            #[trigger] fs.tasks@[t]) == pre.tasks@[t] by {}
                            assert(fs.inv_tasks_unique()) by {
                                lemma_task_index_bounds(pre.tasks@, child, 0);
                                assert forall|a: int, c: int|
                                    0 <= a < c < fs.tasks@.len() implies (
                                #[trigger] fs.tasks@[a]).resolver_id != (
                                #[trigger] fs.tasks@[c]).resolver_id by {
                                    if c == fs.tasks@.len() - 1 {
                                        if pre.tasks@[a].resolver_id == child {
                                            lemma_task_index_unique_from(pre.tasks@, a, 0);
                                        }
                                    } else {
                                        assert(pre.tasks@[a].resolver_id
                                            != pre.tasks@[c].resolver_id);
                                    }
                                }
                            }
                            assert(fs.inv_tasks_registered(*reg)) by {
                                assert forall|t: int|
                                    0 <= t < fs.tasks@.len() implies reg.spec_find(
                                    (#[trigger] fs.tasks@[t]).resolver_id,
                                ) is Some by {
                                    if t < pre.tasks@.len() {
                                        assert(reg.spec_find(pre.tasks@[t].resolver_id) is Some);
                                    }
                                }
                            }
                            assert(fs.inv_finished_cached()) by {
                                assert forall|t: int|
                                    0 <= t < fs.tasks@.len() && (
                                #[trigger] fs.tasks@[t]).state is Finished implies fs.spec_cached(
                                    fs.tasks@[t].resolver_id,
                                ) by {
                                    assert(t < pre.tasks@.len());
                                    assert(pre.spec_cached(pre.tasks@[t].resolver_id));
                                }
                            }
                            assert(fs.inv_cache_values(*reg, *image)) by {
                                assert forall|c: int| 0 <= c < fs.cache@.len() implies fs.cache@[c]
                                    == pre.cache@[c] by {}
                            }
                            assert(fs.inv_collecting(*reg, *image)) by {
                                assert forall|t: int|
                                    0 <= t < fs.tasks@.len() && ((#[trigger] fs.tasks@[t]).state matches TaskState::Collecting {
                                    next,
                                    acc,
                                }) implies t < pre.tasks@.len() && fs.tasks@[t]
                                    == pre.tasks@[t] by {}
                            }
                            assert(fs.inv_await_scans(*reg, *image)) by {
                                assert forall|t: int|
                                    0 <= t < fs.tasks@.len() && ((#[trigger] fs.tasks@[t]).state matches TaskState::AwaitScans {
                                    slots,
                                }) implies t < pre.tasks@.len() && fs.tasks@[t]
                                    == pre.tasks@[t] by {}
                            }
                            assert(fs.inv_queue(*reg)) by {
                                assert forall|q: int| 0 <= q < fs.queue@.len() implies {
                                    let req = #[trigger] fs.queue@[q];
                                    &&& req.task < fs.tasks@.len()
                                    &&& (fs.tasks@[req.task as int].state matches TaskState::AwaitScans {
                                        slots,
                                    } && req.slot < slots@.len() && slots@[req.slot as int] is None
                                        && (reg.spec_find(
                                        fs.tasks@[req.task as int].resolver_id,
                                    ) matches Some(BodyModel::Scan { patterns: ps, post: po })
                                        && req.pattern@ == ps[req.slot as int]))
                                } by {
                                    let req = fs.queue@[q];
                                    assert(req == pre.queue@[q]);
                                    assert(req.task < pre.tasks@.len());
                                    assert(fs.tasks@[req.task as int]
                                        == pre.tasks@[req.task as int]);
                                }
                            }
                            assert(fs.inv_queue_covers()) by {
                                assert forall|t: int|
                                    0 <= t < fs.tasks@.len() implies ((
                                #[trigger] fs.tasks@[t]).state matches TaskState::AwaitScans {
                                    slots,
                                } ==> forall|sl: int|
                                    0 <= sl < slots@.len() && (#[trigger] slots@[sl]) is None
                                        ==> exists|q: int|
                                        0 <= q < fs.queue@.len() && (#[trigger] fs.queue@[q]).task
                                            == t && fs.queue@[q].slot == sl) by {
                                    if t < pre.tasks@.len() {
                                        match fs.tasks@[t].state {
                                            TaskState::AwaitScans { slots } => {
                                                assert(fs.tasks@[t] == pre.tasks@[t]);
                                                assert forall|sl: int|
                                                    0 <= sl < slots@.len() && (
                                                    #[trigger] slots@[sl]) is None implies exists|
                                                    q: int,
                                                |
                                                    0 <= q < fs.queue@.len() && (
                                                    #[trigger] fs.queue@[q]).task == t
                                                        && fs.queue@[q].slot == sl by {
                                                    let q0 = choose|q0: int|
                                                        0 <= q0 < pre.queue@.len() && (
                                                        #[trigger] pre.queue@[q0]).task == t
                                                            && pre.queue@[q0].slot == sl;
                                                    assert(fs.queue@[q0] == pre.queue@[q0]);
                                                }
                                            },
                                            _ => {},
                                        }
                                    }
                                }
                            }
                            lemma_measure_after_spawn(
                                *reg,
                                pre.tasks@,
                                newtask,
                                reg.spec_find(child).unwrap(),
                            );
                        }
                        true
                    },
                    None => {
                        // a child identity nobody registered: its result is
                        // the unknown-resolver error
                        if is_try {
                            let result: Result<ResolvedValue, ResolveError> = Err(
                                msg_error("unknown resolver"),
                            );
                            proof {
                                let em = ResolveErrorModel::Msg("unknown resolver"@);
                                let ws = Seq::new(next0 as nat, |ii: int| entry_view(acc0[ii]));
                                assert forall|ii: int|
                                    0 <= ii < next0 implies #[trigger] gathered_value(
                                    *reg,
                                    *image,
                                    cmodel[ii],
                                    ws[ii],
                                ) by {
                                    let f0 = choose|f0: nat|
                                        #[trigger] spec_resolver_result(
                                            *reg,
                                            *image,
                                            cmodel[ii],
                                            f0,
                                        ) == Some(entry_view(acc0[ii]));
                                    assert(spec_resolver_result(*reg, *image, cmodel[ii], f0)
                                        == Some(ws[ii]));
                                }
                                lemma_common_fuel(*reg, *image, cmodel, ws, next0 as int);
                                let fc = choose|fc: nat| #[trigger] all_gathered_at(
                                    *reg,
                                    *image,
                                    cmodel,
                                    ws,
                                    next0 as int,
                                    fc,
                                );
                                let fmax: nat = fc + 1;
                                assert forall|ii: int|
                                    0 <= ii < next0 implies (spec_resolver_result(
                                    *reg,
                                    *image,
                                    #[trigger] cmodel[ii],
                                    fmax,
                                ) matches Some(r) && r is Ok) by {
                                    lemma_result_stable(*reg, *image, cmodel[ii], fc, fmax);
                                    assert(acc0[ii] is Ok);
                                }
                                assert(spec_resolver_result(*reg, *image, child, fmax) == Some(
                                    Err::<ResolvedModel, ResolveErrorModel>(em),
                                ));
                                lemma_try_from_short(*reg, *image, cmodel, 0, next0 as int, fmax, em);
                                assert(spec_resolver_result(*reg, *image, id, (fmax + 1) as nat)
                                    == Some(Err::<ResolvedModel, ResolveErrorModel>(em)));
                                assert(cache_entry_ok(*reg, *image, id, entry_view(result)));
                            }
                            self.finish_task(i, result, image, reg);
                            true
                        } else {
                            let field: Result<ResolvedValue, ResolveError> = Err(
                                msg_error("unknown resolver"),
                            );
                            proof {
                                assert(spec_resolver_result(*reg, *image, cmodel[next0 as int], 1nat)
                                    == Some(entry_view(field)));
                            }
                            self.gather_field(i, field, image, reg, Ghost(1nat));
                            true
                        }
                    },
                }
            }
        }
    }
}

impl AsyncContext {
    /// The flush phase: takes every parked scan, sweeps each memory section
    /// once for the whole set of parked patterns, and delivers each
    /// pattern's merged matches into the slot of the task that parked it.
    /// However many scans were parked, each section is scanned once per
    /// flush.
    #[verifier::loop_isolation(false)]
    #[verifier::rlimit(60)]
    pub fn flush(&mut self, image: &Image, reg: &Registry)
        requires
            old(self).inv(*reg, *image),
            reg.wf(),
            image.wf(),
        ensures
            final(self).inv(*reg, *image),
            final(self).cache@ == old(self).cache@,
            final(self).queue@.len() == 0,
            final(self).tasks@.len() == old(self).tasks@.len(),
            forall|t: int|
                0 <= t < old(self).tasks@.len() ==> (#[trigger] final(self).tasks@[t]).resolver_id
                    == old(self).tasks@[t].resolver_id,
            old(self).queue@.len() > 0 ==> measure(*final(self), *reg) < measure(
                *old(self),
                *reg,
            ),
            old(self).queue@.len() == 0 ==> (final(self).tasks@ == old(self).tasks@
                && final(self).queue@ == old(self).queue@),
    {
        let ghost pre = *old(self);
        let ghost secs = image.memory.spec_sections();
        if self.queue.len() == 0 {
            return;
        }
        let mut q: Vec<ScanRequest> = Vec::new();
        core::mem::swap(&mut q, &mut self.queue);
        proof {
            assert(q@ == pre.queue@);
        }
        let qlen = q.len();
        // one empty accumulator per parked scan
        let mut merged: Vec<Vec<usize>> = Vec::new();
        let mut k0: usize = 0;
        while k0 < qlen
            invariant
                k0 <= qlen,
                merged@.len() == k0,
                forall|j: int|
                    0 <= j < k0 ==> (#[trigger] merged@[j])@ == merged_matches(
                        q@[j].pattern@,
                        secs.take(0),
                    ),
            decreases qlen - k0,
        {
            let empty: Vec<usize> = Vec::new();
            merged.push(empty);
            k0 = k0 + 1;
            proof {
                assert(merged@[k0 - 1]@ =~= merged_matches(q@[k0 - 1].pattern@, secs.take(0)));
            }
        }
        // one pass per section, scanning all parked patterns together
        let sections = image.memory.sections();
        let mut s: usize = 0;
        while s < sections.len()
            invariant
                s <= secs.len(),
                merged@.len() == qlen,
                forall|j: int|
                    0 <= j < qlen ==> (#[trigger] merged@[j])@ == merged_matches(
                        q@[j].pattern@,
                        secs.take(s as int),
                    ),
            decreases secs.len() - s,
        {
            let sec = &sections[s];
            proof {
                assert(secs[s as int] == sections@[s as int]@);
                assert(secs[s as int].wf());
            }
            let mut refs: Vec<&Pattern> = Vec::new();
            let mut k: usize = 0;
            while k < qlen
                invariant
                    k <= qlen,
                    refs@.len() == k,
                    forall|j: int| 0 <= j < k ==> (#[trigger] refs@[j])@ == q@[j].pattern@,
                decreases qlen - k,
            {
                refs.push(&q[k].pattern);
                k = k + 1;
            }
            let res = crate::scanner::scan_pattern(&refs, sec.address, sec.data.as_slice());
            let mut k: usize = 0;
            while k < qlen
                invariant
                    k <= qlen,
                    merged@.len() == qlen,
                    res@.len() == qlen,
                    forall|j: int|
                        0 <= j < qlen ==> (#[trigger] res@[j])@ == scan_matches(
                            q@[j].pattern@,
                            secs[s as int].base,
                            secs[s as int].bytes,
                        ),
                    forall|j: int|
                        k <= j < qlen ==> (#[trigger] merged@[j])@ == merged_matches(
                            q@[j].pattern@,
                            secs.take(s as int),
                        ),
                    forall|j: int|
                        0 <= j < k ==> (#[trigger] merged@[j])@ == merged_matches(
                            q@[j].pattern@,
                            secs.take(s as int + 1),
                        ),
                decreases qlen - k,
            {
                let mut row: Vec<usize> = Vec::new();
                merged.set_and_swap(k, &mut row);
                let rk = &res[k];
                let rklen = rk.len();
                let mut x: usize = 0;
                while x < rklen
                    invariant
                        x <= rklen,
                        row@ == merged_matches(q@[k as int].pattern@, secs.take(s as int))
                            + rk@.subrange(0, x as int),
                    decreases rklen - x,
                {
                    row.push(rk[x]);
                    x = x + 1;
                    proof {
                        assert(row@ =~= merged_matches(q@[k as int].pattern@, secs.take(s as int))
                            + rk@.subrange(0, x as int));
                    }
                }
                proof {
                    lemma_merged_take_step(q@[k as int].pattern@, secs, s as int);
                    assert(rk@.subrange(0, rklen as int) =~= rk@);
                    assert(row@ =~= merged_matches(q@[k as int].pattern@, secs.take(s as int + 1)));
                }
                merged.set(k, row);
                k = k + 1;
            }
            s = s + 1;
        }
        proof {
            assert(secs.take(secs.len() as int) =~= secs);
        }
        // deliver every merged match list into its parked slot
        let mut k: usize = 0;
        while k < qlen
            invariant
                k <= qlen,
                merged@.len() == qlen - k,
                forall|j: int|
                    0 <= j < qlen - k ==> (#[trigger] merged@[j])@ == merged_matches(
                        q@[j + k].pattern@,
                        secs,
                    ),
                self.cache@ == pre.cache@,
                self.queue@.len() == 0,
                self.tasks@.len() == pre.tasks@.len(),
                forall|t: int|
                    0 <= t < pre.tasks@.len() ==> (#[trigger] self.tasks@[t]).resolver_id
                        == pre.tasks@[t].resolver_id,
                k == 0 ==> self.tasks@ == pre.tasks@,
                self.inv_tasks_unique(),
                self.inv_tasks_registered(*reg),
                self.inv_finished_cached(),
                self.inv_cache_values(*reg, *image),
                self.inv_collecting(*reg, *image),
                self.inv_await_scans(*reg, *image),
                forall|j: int|
                    k <= j < qlen ==> {
                        let req = #[trigger] q@[j];
                        &&& req.task < self.tasks@.len()
                        &&& (self.tasks@[req.task as int].state matches TaskState::AwaitScans {
                            slots,
                        } && req.slot < slots@.len() && (reg.spec_find(
                            self.tasks@[req.task as int].resolver_id,
                        ) matches Some(BodyModel::Scan { patterns: ps, post: po })
                            && req.pattern@ == ps[req.slot as int]))
                    },
                forall|t: int|
                    0 <= t < self.tasks@.len() ==> ((#[trigger] self.tasks@[t]).state matches TaskState::AwaitScans {
                    slots,
                } ==> forall|sl: int|
                    0 <= sl < slots@.len() && (#[trigger] slots@[sl]) is None ==> exists|j: int|
                        k <= j < qlen && (#[trigger] q@[j]).task == t && q@[j].slot == sl),
                measure(*self, *reg) <= measure(pre, *reg),
                k > 0 ==> measure(*self, *reg) < measure(pre, *reg),
            decreases qlen - k,
        {
            let ghost mid = *self;
            let ti = q[k].task;
            let si = q[k].slot;
            let row = merged.remove(0);
            proof {
                assert(row@ == merged_matches(q@[k as int].pattern@, secs));
            }
            let id_t = self.tasks[ti].resolver_id;
            let mut t = Task { resolver_id: id_t, state: TaskState::Finished };
            self.tasks.set_and_swap(ti, &mut t);
            match t.state {
                TaskState::AwaitScans { mut slots } => {
                    let ghost slots_before = slots@;
                    let ghost was_none = slots@[si as int] is None;
                    slots.set(si, Some(row));
                    let newtask = Task { resolver_id: id_t, state: TaskState::AwaitScans { slots } };
                    self.tasks.set(ti, newtask);
                    proof {
                        let fs = *self;
                        assert(fs.tasks@ =~= mid.tasks@.update(ti as int, newtask));
                        assert forall|t2: int| 0 <= t2 < fs.tasks@.len() implies (
                        #[trigger] fs.tasks@[t2]).resolver_id == mid.tasks@[t2].resolver_id by {
                            if t2 != ti {
                                assert(fs.tasks@[t2] == mid.tasks@[t2]);
                            }
                        }
                        assert(fs.inv_tasks_unique()) by {
                            assert forall|a: int, c: int| 0 <= a < c < fs.tasks@.len() implies (
                            #[trigger] fs.tasks@[a]).resolver_id != (#[trigger] fs.tasks@[c]).resolver_id by {
                                assert(mid.tasks@[a].resolver_id != mid.tasks@[c].resolver_id);
                            }
                        }
                        assert(fs.inv_tasks_registered(*reg)) by {
                            assert forall|t2: int| 0 <= t2 < fs.tasks@.len() implies reg.spec_find(
                                (#[trigger] fs.tasks@[t2]).resolver_id,
                            ) is Some by {
                                assert(reg.spec_find(mid.tasks@[t2].resolver_id) is Some);
                            }
                        }
                        assert(fs.inv_finished_cached()) by {
                            assert forall|t2: int|
                                0 <= t2 < fs.tasks@.len() && (#[trigger] fs.tasks@[t2]).state is Finished implies fs.spec_cached(
                                fs.tasks@[t2].resolver_id,
                            ) by {
                                assert(t2 != ti);
                                assert(fs.tasks@[t2] == mid.tasks@[t2]);
                                assert(mid.spec_cached(mid.tasks@[t2].resolver_id));
                            }
                        }
                        assert(fs.inv_cache_values(*reg, *image)) by {
                            assert forall|c: int| 0 <= c < fs.cache@.len() implies fs.cache@[c]
                                == mid.cache@[c] by {}
                        }
                        assert(fs.inv_collecting(*reg, *image)) by {
                            assert forall|t2: int|
                                0 <= t2 < fs.tasks@.len() && ((#[trigger] fs.tasks@[t2]).state matches TaskState::Collecting {
                                next,
                                acc,
                            }) implies t2 != ti && fs.tasks@[t2] == mid.tasks@[t2] by {}
                        }
                        assert(fs.inv_await_scans(*reg, *image)) by {
                            assert forall|t2: int|
                                0 <= t2 < fs.tasks@.len() implies ((#[trigger] fs.tasks@[t2]).state matches TaskState::AwaitScans {
                                slots: sl2,
                            } ==> {
                                let tid = fs.tasks@[t2].resolver_id;
                                match reg.spec_find(tid) {
                                    Some(BodyModel::Scan { patterns: ps, post: po }) => {
                                        &&& sl2@.len() == ps.len()
                                        &&& forall|sl: int|
                                            0 <= sl < sl2@.len() ==> ((#[trigger] sl2@[sl]) matches Some(
                                                v,
                                            ) ==> v@ == merged_matches(
                                                ps[sl],
                                                image.memory.spec_sections(),
                                            ))
                                    },
                                    _ => false,
                                }
                            }) by {
                                if t2 != ti {
                                    assert(fs.tasks@[t2] == mid.tasks@[t2]);
                                } else {
                                    match reg.spec_find(fs.tasks@[t2].resolver_id) {
                                        Some(BodyModel::Scan { patterns: ps, post: po }) => {
                                            assert(slots@ == slots_before.update(
                                                si as int,
                                                Some(row),
                                            ));
                                            assert forall|sl: int|
                                                0 <= sl < slots@.len() implies ((
                                            #[trigger] slots@[sl]) matches Some(v) ==> v@
                                                == merged_matches(
                                                ps[sl],
                                                image.memory.spec_sections(),
                                            )) by {
                                                if sl != si {
                                                    assert(slots@[sl] == slots_before[sl]);
                                                } else {
                                                    assert(q@[k as int].pattern@ == ps[si as int]);
                                                }
                                            }
                                        },
                                        _ => {
                                            assert(false);
                                        },
                                    }
                                }
                            }
                        }
                        // remaining requests stay valid
                        assert forall|j: int| k + 1 <= j < qlen implies {
                            let req = #[trigger] q@[j];
                            &&& req.task < fs.tasks@.len()
                            &&& (fs.tasks@[req.task as int].state matches TaskState::AwaitScans {
                                slots: sl2,
                            } && req.slot < sl2@.len() && (reg.spec_find(
                                fs.tasks@[req.task as int].resolver_id,
                            ) matches Some(BodyModel::Scan { patterns: ps, post: po })
                                && req.pattern@ == ps[req.slot as int]))
                        } by {
                            let req = q@[j];
                            if req.task != ti {
                                assert(fs.tasks@[req.task as int] == mid.tasks@[req.task as int]);
                            }
                        }
                        // undelivered slots keep a pending request
                        assert forall|t2: int|
                            0 <= t2 < fs.tasks@.len() implies ((#[trigger] fs.tasks@[t2]).state matches TaskState::AwaitScans {
                            slots: sl2,
                        } ==> forall|sl: int|
                            0 <= sl < sl2@.len() && (#[trigger] sl2@[sl]) is None ==> exists|
                            j: int,
                        | k + 1 <= j < qlen && (#[trigger] q@[j]).task == t2 && q@[j].slot == sl) by {
                            match fs.tasks@[t2].state {
                                TaskState::AwaitScans { slots: sl2 } => {
                                    assert forall|sl: int|
                                        0 <= sl < sl2@.len() && (#[trigger] sl2@[sl]) is None implies exists|
                                        j: int,
                                    |
                                        k + 1 <= j < qlen && (#[trigger] q@[j]).task == t2
                                            && q@[j].slot == sl by {
                                        if t2 == ti && sl == si {
                                            assert(false);
                                        } else {
                                            let wasnone = if t2 == ti {
                                                slots_before[sl] is None
                                            } else {
                                                true
                                            };
                                            let j0 = choose|j0: int|
                                                k <= j0 < qlen && (#[trigger] q@[j0]).task == t2
                                                    && q@[j0].slot == sl;
                                            assert(j0 != k);
                                        }
                                    }
                                },
                                _ => {},
                            }
                        }
                        // the measure never rises, and the first delivery
                        // fills a slot that was empty
                        lemma_count_none_update(slots_before, si as int, row);
                        lemma_measure_after_update(
                            *reg,
                            mid.tasks@,
                            ti as int,
                            newtask,
                            reg.spec_find(id_t).unwrap(),
                        );
                        if k == 0 {
                            assert(was_none);
                        }
                    }
                },
                _ => {
                    proof {
                        assert(false);
                    }
                },
            }
            k = k + 1;
        }
        proof {
            let fs = *self;
            assert(fs.inv_queue(*reg)) by {
                assert(fs.queue@.len() == 0);
            }
            assert(fs.inv_queue_covers()) by {
                assert forall|t: int|
                    0 <= t < fs.tasks@.len() implies ((#[trigger] fs.tasks@[t]).state matches TaskState::AwaitScans {
                    slots,
                } ==> forall|sl: int|
                    0 <= sl < slots@.len() && (#[trigger] slots@[sl]) is None ==> exists|qq: int|
                        0 <= qq < fs.queue@.len() && (#[trigger] fs.queue@[qq]).task == t
                            && fs.queue@[qq].slot == sl) by {
                    match fs.tasks@[t].state {
                        TaskState::AwaitScans { slots } => {
                            assert forall|sl: int|
                                0 <= sl < slots@.len() && (#[trigger] slots@[sl]) is None implies exists|
                                qq: int,
                            |
                                0 <= qq < fs.queue@.len() && (#[trigger] fs.queue@[qq]).task == t
                                    && fs.queue@[qq].slot == sl by {
                                assert(false);
                            }
                        },
                        _ => {},
                    }
                }
            }
        }
    }
}

proof fn lemma_task_index_preserved(t1: Seq<Task>, t2: Seq<Task>, id: u64, j: int)
    requires
        t2.len() >= t1.len(),
        forall|x: int| 0 <= x < t1.len() ==> (#[trigger] t2[x]).resolver_id == t1[x].resolver_id,
        0 <= j,
        task_index_of(t1, id, j) is Some,
    ensures
        task_index_of(t2, id, j) is Some,
    decreases t1.len() - j,
{
    if j >= t1.len() {
    } else if t1[j].resolver_id == id {
        assert(t2[j].resolver_id == id);
    } else {
        lemma_task_index_preserved(t1, t2, id, j + 1);
        assert(task_index_of(t2, id, j + 1) is Some);
        lemma_task_index_bounds(t2, id, j + 1);
    }
}

/// What an evaluation owes for each root identity: wherever some recursion
/// depth defines the resolver's result, that result; where no depth does —
/// the resolver reaches itself through its children — the executor
/// deadlock, surfaced as an error.
pub open spec fn root_result_ok(
    reg: Registry,
    image: Image,
    id: u64,
    v: Result<ResolvedModel, ResolveErrorModel>,
) -> bool {
    &&& forall|fuel: nat|
        (#[trigger] spec_resolver_result(reg, image, id, fuel)) matches Some(r) ==> v == r
    &&& (forall|fuel: nat| #[trigger] spec_resolver_result(reg, image, id, fuel) is None) ==> v
        == Err::<ResolvedModel, ResolveErrorModel>(
        ResolveErrorModel::Msg("executor deadlock"@),
    )
}

/// When the executor has stalled with an empty queue, every resolver whose
/// result is defined at some depth, and which has a task, is finished and
/// cached.
proof fn lemma_stalled_defined_cached(
    ctx: AsyncContext,
    reg: Registry,
    image: Image,
    id: u64,
    fuel: nat,
)
    requires
        ctx.inv(reg, image),
        ctx.queue@.len() == 0,
        forall|t: int| 0 <= t < ctx.tasks@.len() ==> task_blocked(ctx.tasks@, ctx.cache@, t, reg),
        task_index_of(ctx.tasks@, id, 0) is Some,
        spec_resolver_result(reg, image, id, fuel) is Some,
    ensures
        ctx.spec_cached(id),
    decreases fuel,
{
    lemma_task_index_bounds(ctx.tasks@, id, 0);
    let t = task_index_of(ctx.tasks@, id, 0).unwrap();
    assert(task_blocked(ctx.tasks@, ctx.cache@, t, reg));
    match ctx.tasks@[t].state {
        TaskState::Start => {
            assert(false);
        },
        TaskState::AwaitScans { slots } => {
            let sl = choose|sl: int| 0 <= sl < slots@.len() && (#[trigger] slots@[sl]) is None;
            assert(exists|q: int|
                0 <= q < ctx.queue@.len() && (#[trigger] ctx.queue@[q]).task == t
                    && ctx.queue@[q].slot == sl);
            assert(false);
        },
        TaskState::Collecting { next, acc } => {
            // the task waits for a child another task still computes; the
            // parent's defined result makes that child's defined too, so
            // the child's task cannot be blocked — a contradiction
            let b = reg.spec_find(id).unwrap();
            let children = body_children(b);
            let child = children[next as int];
            let inner = (fuel - 1) as nat;
            match b {
                BodyModel::TryCollect { .. } => {
                    assert(spec_try_from(reg, image, children, 0, inner) is Some) by {
                        if spec_try_from(reg, image, children, 0, inner) is None {
                            assert(spec_resolver_result(reg, image, id, fuel) is None);
                        }
                    }
                    lemma_try_prefix_ok(reg, image, children, next as int, inner, acc@);
                    lemma_try_from_reaches(reg, image, children, 0, next as int, inner);
                },
                BodyModel::Collect { .. } => {
                    assert(spec_collect_from(reg, image, children, 0, inner) is Some) by {
                        if spec_collect_from(reg, image, children, 0, inner) is None {
                            assert(spec_resolver_result(reg, image, id, fuel) is None);
                        }
                    }
                    lemma_collect_from_reaches(reg, image, children, 0, next as int, inner);
                },
                BodyModel::Scan { .. } => {
                    assert(false);
                },
            }
            assert(spec_resolver_result(reg, image, child, inner) is Some);
            lemma_stalled_defined_cached(ctx, reg, image, child, inner);
            assert(false);
        },
        TaskState::Finished => {
            assert(ctx.spec_cached(ctx.tasks@[t].resolver_id));
        },
    }
}

/// The children a try-collector has already gathered successfully are
/// defined, with successful values, at any depth whose try-walk is defined.
proof fn lemma_try_prefix_ok(
    reg: Registry,
    image: Image,
    children: Seq<u64>,
    n: int,
    inner: nat,
    acc: Seq<Result<ResolvedValue, ResolveError>>,
)
    requires
        spec_try_from(reg, image, children, 0, inner) is Some,
        0 <= n <= children.len(),
        n <= acc.len(),
        forall|ii: int| 0 <= ii < n ==> child_gathered(reg, image, children[ii], #[trigger] acc[ii]),
        forall|ii: int| 0 <= ii < n ==> (#[trigger] acc[ii]) is Ok,
    ensures
        forall|ii: int|
            0 <= ii < n ==> (spec_resolver_result(reg, image, #[trigger] children[ii], inner) matches Some(
                r,
            ) && r is Ok),
    decreases n,
{
    if n > 0 {
        lemma_try_prefix_ok(reg, image, children, n - 1, inner, acc);
        lemma_try_from_reaches(reg, image, children, 0, n - 1, inner);
        let f0 = choose|f0: nat|
            #[trigger] spec_resolver_result(reg, image, children[n - 1], f0) == Some(
                entry_view(acc[n - 1]),
            );
        lemma_result_unique(reg, image, children[n - 1], f0, inner);
        assert(spec_resolver_result(reg, image, children[n - 1], inner) == Some(
            entry_view(acc[n - 1]),
        ));
        assert forall|ii: int|
            0 <= ii < n implies (spec_resolver_result(reg, image, #[trigger] children[ii], inner) matches Some(
            r,
        ) && r is Ok) by {
            if ii == n - 1 {
                assert(acc[ii] is Ok);
            }
        }
    }
}

impl AsyncContext {
    /// Drives every task to quiescence: polls all tasks until none can make
    /// progress, flushes the parked scans in one batched sweep per section,
    /// and repeats. Stops when the executor stalls with an empty queue:
    /// every task is then blocked for good, and in particular every
    /// scanning resolver is finished.
    fn run(&mut self, image: &Image, reg: &Registry)
        requires
            old(self).inv(*reg, *image),
            reg.wf(),
            image.wf(),
        ensures
            final(self).inv(*reg, *image),
            old(self).cache@.is_prefix_of(final(self).cache@),
            final(self).queue@.len() == 0,
            forall|t: int|
                0 <= t < final(self).tasks@.len() ==> task_blocked(final(self).tasks@, final(self).cache@, t, *reg),
            final(self).tasks@.len() >= old(self).tasks@.len(),
            forall|t: int|
                0 <= t < old(self).tasks@.len() ==> (#[trigger] final(self).tasks@[t]).resolver_id
                    == old(self).tasks@[t].resolver_id,
    {
        let ghost pre = *old(self);
        loop
            invariant
                reg.wf(),
                image.wf(),
                self.inv(*reg, *image),
                pre.cache@.is_prefix_of(self.cache@),
                self.tasks@.len() >= pre.tasks@.len(),
                forall|t: int|
                    0 <= t < pre.tasks@.len() ==> (#[trigger] self.tasks@[t]).resolver_id
                        == pre.tasks@[t].resolver_id,
            ensures
                self.inv(*reg, *image),
                pre.cache@.is_prefix_of(self.cache@),
                self.queue@.len() == 0,
                forall|t: int| 0 <= t < self.tasks@.len() ==> task_blocked(self.tasks@, self.cache@, t, *reg),
                self.tasks@.len() >= pre.tasks@.len(),
                forall|t: int|
                    0 <= t < pre.tasks@.len() ==> (#[trigger] self.tasks@[t]).resolver_id
                        == pre.tasks@[t].resolver_id,
            decreases measure(*self, *reg),
        {
            let ghost sweep_start = *self;
            let mut progressed = false;
            let mut i: usize = 0;
            while i < self.tasks.len()
                invariant
                    reg.wf(),
                    image.wf(),
                    i <= self.tasks@.len(),
                    self.inv(*reg, *image),
                    sweep_start.cache@.is_prefix_of(self.cache@),
                    self.tasks@.len() >= sweep_start.tasks@.len(),
                    forall|t: int|
                        0 <= t < sweep_start.tasks@.len() ==> (
                        #[trigger] self.tasks@[t]).resolver_id
                            == sweep_start.tasks@[t].resolver_id,
                    measure(*self, *reg) <= measure(sweep_start, *reg),
                    progressed ==> measure(*self, *reg) < measure(sweep_start, *reg),
                    !progressed ==> self.tasks@ == sweep_start.tasks@ && self.cache@
                        == sweep_start.cache@ && self.queue@ == sweep_start.queue@,
                    !progressed ==> forall|j: int| 0 <= j < i ==> task_blocked(self.tasks@, self.cache@, j, *reg),
                decreases measure(*self, *reg), self.tasks@.len() - i,
            {
                let kind: u8 = match &self.tasks[i].state {
                    TaskState::Start => 0,
                    TaskState::AwaitScans { .. } => 1,
                    TaskState::Collecting { .. } => 2,
                    TaskState::Finished => 3,
                };
                if kind == 0 {
                    self.step_start(i, image, reg);
                    progressed = true;
                } else if kind == 1 {
                    let p = self.step_await(i, image, reg);
                    if p {
                        progressed = true;
                    } else {
                        proof {
                            assert(task_blocked(self.tasks@, self.cache@, i as int, *reg));
                        }
                    }
                } else if kind == 2 {
                    let p = self.step_collecting(i, image, reg);
                    if p {
                        progressed = true;
                    } else {
                        proof {
                            assert(task_blocked(self.tasks@, self.cache@, i as int, *reg));
                        }
                    }
                } else {
                    proof {
                        assert(task_blocked(self.tasks@, self.cache@, i as int, *reg));
                    }
                }
                i = i + 1;
            }
            if !progressed {
                if self.queue.len() == 0 {
                    break;
                }
                self.flush(image, reg);
            }
        }
    }
}

/// Whether the registry knows `id`.
pub open spec fn reg_found(reg: Registry, id: u64) -> bool {
    reg.spec_find(id) is Some
}

/// Runs every named resolver to completion over one shared context: spawns
/// one task per registered root, drives them with batched scanning and
/// memoisation, and hands back one result per root, in root order.
pub fn eval(image: &Image, registry: &Registry, roots: &Vec<u64>) -> (r: Vec<
    Result<ResolvedValue, ResolveError>,
>)
    requires
        image.wf(),
        registry.wf(),
    ensures
        r@.len() == roots@.len(),
        forall|k: int|
            0 <= k < roots@.len() ==> root_result_ok(
                *registry,
                *image,
                roots@[k],
                entry_view(#[trigger] r@[k]),
            ),
{
    let mut ctx = AsyncContext::new();
    let mut k: usize = 0;
    while k < roots.len()
        invariant
            k <= roots@.len(),
            ctx.inv(*registry, *image),
            ctx.cache@.len() == 0,
            ctx.queue@.len() == 0,
            forall|j: int|
                0 <= j < k ==> (reg_found(*registry, #[trigger] roots@[j]) ==> task_index_of(
                    ctx.tasks@,
                    roots@[j],
                    0,
                ) is Some),
        decreases roots@.len() - k,
    {
        let root = roots[k];
        if registry.lookup(root).is_some() {
            let has = ctx.find_task(root);
            if has.is_none() {
                let ghost pre = ctx;
                let newtask = Task { resolver_id: root, state: TaskState::Start };
                ctx.tasks.push(newtask);
                proof {
                    let fs = ctx;
                    assert(fs.tasks@ == pre.tasks@.push(newtask));
                    lemma_task_index_push(pre.tasks@, newtask, root, 0);
                    assert(fs.inv_tasks_unique()) by {
                        lemma_task_index_bounds(pre.tasks@, root, 0);
                        assert forall|a: int, c: int| 0 <= a < c < fs.tasks@.len() implies (
                        #[trigger] fs.tasks@[a]).resolver_id != (#[trigger] fs.tasks@[c]).resolver_id by {
                            if c == fs.tasks@.len() - 1 {
                                if pre.tasks@[a].resolver_id == root {
                                    lemma_task_index_unique_from(pre.tasks@, a, 0);
                                }
                            } else {
                                assert(pre.tasks@[a].resolver_id != pre.tasks@[c].resolver_id);
                            }
                        }
                    }
                    assert(fs.inv_tasks_registered(*registry)) by {
                        assert forall|t: int| 0 <= t < fs.tasks@.len() implies registry.spec_find(
                            (#[trigger] fs.tasks@[t]).resolver_id,
                        ) is Some by {
                            if t < pre.tasks@.len() {
                                assert(registry.spec_find(pre.tasks@[t].resolver_id) is Some);
                            }
                        }
                    }
                    assert(fs.inv_finished_cached()) by {
                        assert forall|t: int|
                            0 <= t < fs.tasks@.len() && (#[trigger] fs.tasks@[t]).state is Finished implies fs.spec_cached(
                            fs.tasks@[t].resolver_id,
                        ) by {
                            assert(t < pre.tasks@.len());
                            assert(pre.spec_cached(pre.tasks@[t].resolver_id));
                        }
                    }
                    assert(fs.inv_collecting(*registry, *image)) by {
                        assert forall|t: int|
                            0 <= t < fs.tasks@.len() && ((#[trigger] fs.tasks@[t]).state matches TaskState::Collecting {
                            next,
                            acc,
                        }) implies t < pre.tasks@.len() && fs.tasks@[t] == pre.tasks@[t] by {}
                    }
                    assert(fs.inv_await_scans(*registry, *image)) by {
                        assert forall|t: int|
                            0 <= t < fs.tasks@.len() && ((#[trigger] fs.tasks@[t]).state matches TaskState::AwaitScans {
                            slots,
                        }) implies t < pre.tasks@.len() && fs.tasks@[t] == pre.tasks@[t] by {}
                    }
                    assert forall|j: int|
                        0 <= j < k + 1 && reg_found(*registry, #[trigger] roots@[j]) implies task_index_of(
                        fs.tasks@,
                        roots@[j],
                        0,
                    ) is Some by {
                        lemma_task_index_push(pre.tasks@, newtask, roots@[j], 0);
                    }
                }
            }
        }
        k = k + 1;
        proof {
            assert forall|j: int|
                0 <= j < k && reg_found(*registry, #[trigger] roots@[j]) implies task_index_of(
                ctx.tasks@,
                roots@[j],
                0,
            ) is Some by {}
        }
    }
    let ghost spawned = ctx;
    ctx.run(image, registry);
    proof {
        assert forall|j: int|
            0 <= j < roots@.len() && reg_found(*registry, #[trigger] roots@[j]) implies task_index_of(
            ctx.tasks@,
            roots@[j],
            0,
        ) is Some by {
            lemma_task_index_preserved(spawned.tasks@, ctx.tasks@, roots@[j], 0);
        }
    }
    let mut out: Vec<Result<ResolvedValue, ResolveError>> = Vec::new();
    let mut k: usize = 0;
    while k < roots.len()
        invariant
            k <= roots@.len(),
            out@.len() == k,
            ctx.inv(*registry, *image),
            ctx.queue@.len() == 0,
            forall|t: int| 0 <= t < ctx.tasks@.len() ==> task_blocked(ctx.tasks@, ctx.cache@, t, *registry),
            forall|j: int|
                0 <= j < roots@.len() ==> (reg_found(*registry, #[trigger] roots@[j])
                    ==> task_index_of(ctx.tasks@, roots@[j], 0) is Some),
            forall|j: int|
                0 <= j < k ==> root_result_ok(
                    *registry,
                    *image,
                    roots@[j],
                    entry_view(#[trigger] out@[j]),
                ),
        decreases roots@.len() - k,
    {
        let root = roots[k];
        if registry.lookup(root).is_none() {
            let r: Result<ResolvedValue, ResolveError> = Err(msg_error("unknown resolver"));
            proof {
                // every positive depth resolves an unknown identity to the
                // unknown-resolver error
                assert(spec_resolver_result(*registry, *image, root, 1nat) == Some(
                    entry_view(r),
                ));
                assert forall|fuel: nat|
                    (#[trigger] spec_resolver_result(*registry, *image, root, fuel)) is Some implies spec_resolver_result(
                    *registry,
                    *image,
                    root,
                    fuel,
                ) == Some(entry_view(r)) by {
                    lemma_result_unique(*registry, *image, root, 1nat, fuel);
                }
            }
            out.push(r);
        } else {
            let cached = ctx.cache_get(root);
            match cached {
                Some(entry) => {
                    let c = clone_entry(entry);
                    proof {
                        lemma_cache_find_bounds(ctx.cache@, root, 0);
                        let x = cache_find_from(ctx.cache@, root, 0).unwrap();
                        assert(cache_entry_ok(
                            *registry,
                            *image,
                            ctx.cache@[x].0,
                            entry_view(ctx.cache@[x].1),
                        ));
                        let fw = choose|fw: nat|
                            #[trigger] spec_resolver_result(*registry, *image, root, fw) == Some(
                                entry_view(ctx.cache@[x].1),
                            );
                        // every depth that defines a result agrees with the
                        // cached one
                        assert forall|fuel: nat|
                            (#[trigger] spec_resolver_result(
                                *registry,
                                *image,
                                root,
                                fuel,
                            )) is Some implies spec_resolver_result(*registry, *image, root, fuel)
                            == Some(entry_view(c)) by {
                            lemma_result_unique(*registry, *image, root, fw, fuel);
                        }
                        assert(!(forall|fuel: nat|
                            #[trigger] spec_resolver_result(*registry, *image, root, fuel) is None)) by {
                            assert(spec_resolver_result(*registry, *image, root, fw) is Some);
                        }
                    }
                    out.push(c);
                },
                None => {
                    // no depth defines this root's result: it reaches
                    // itself through its children, and the stall is a
                    // resolver deadlock
                    proof {
                        assert forall|fuel: nat|
                            #[trigger] spec_resolver_result(
                            *registry,
                            *image,
                            root,
                            fuel,
                        ) is None by {
                            if spec_resolver_result(*registry, *image, root, fuel) is Some {
                                lemma_stalled_defined_cached(ctx, *registry, *image, root, fuel);
                            }
                        }
                    }
                    out.push(Err(msg_error("executor deadlock")));
                },
            }
        }
        k = k + 1;
    }
    out
}

/// Runs one resolver over the image, with full caching.
pub fn resolve(image: &Image, registry: &Registry, id: u64) -> (r: Result<
    ResolvedValue,
    ResolveError,
>)
    requires
        image.wf(),
        registry.wf(),
    ensures
        root_result_ok(*registry, *image, id, entry_view(r)),
{
    let mut roots: Vec<u64> = Vec::new();
    roots.push(id);
    let mut rs = eval(image, registry, &roots);
    rs.remove(0)
}

/// Runs many resolvers over one shared context, so that a child two of them
/// depend on runs exactly once.
pub fn resolve_many(image: &Image, registry: &Registry, roots: &Vec<u64>) -> (r: Vec<
    Result<ResolvedValue, ResolveError>,
>)
    requires
        image.wf(),
        registry.wf(),
    ensures
        r@.len() == roots@.len(),
        forall|k: int|
            0 <= k < roots@.len() ==> root_result_ok(
                *registry,
                *image,
                roots@[k],
                entry_view(#[trigger] r@[k]),
            ),
{
    eval(image, registry, roots)
}

/// Resolution is memoised and deterministic: whatever two evaluations (or
/// two calls within one evaluation) hand back for the same identity is the
/// same result — the defined result where one exists, and the surfaced
/// deadlock where none does.
pub proof fn lemma_resolution_deterministic(
    reg: Registry,
    image: Image,
    id: u64,
    v1: Result<ResolvedModel, ResolveErrorModel>,
    v2: Result<ResolvedModel, ResolveErrorModel>,
)
    requires
        root_result_ok(reg, image, id, v1),
        root_result_ok(reg, image, id, v2),
    ensures
        v1 == v2,
{
    if exists|fuel: nat| #[trigger] spec_resolver_result(reg, image, id, fuel) is Some {
        let fuel = choose|fuel: nat|
            #[trigger] spec_resolver_result(reg, image, id, fuel) is Some;
        let r = spec_resolver_result(reg, image, id, fuel)->Some_0;
        assert(v1 == r);
        assert(v2 == r);
    } else {
        assert(forall|fuel: nat|
            #[trigger] spec_resolver_result(reg, image, id, fuel) is None);
    }
}

/// The depth-indexed collector walks agree with the collector semantics:
/// over children whose results one depth defines, a try-collector yields
/// the record of all of them or the first child error with no partial
/// record, and a plain collector always yields the record of their results.
pub proof fn lemma_collector_semantics(
    reg: Registry,
    image: Image,
    children: Seq<u64>,
    ws: Seq<Result<ResolvedModel, ResolveErrorModel>>,
    fuel: nat,
)
    requires
        ws.len() == children.len(),
        all_gathered_at(reg, image, children, ws, children.len() as int, fuel),
    ensures
        spec_try_collect(ws) matches Ok(m) ==> (spec_try_from(reg, image, children, 0, fuel)
            == Some(Ok::<Seq<Result<ResolvedModel, ResolveErrorModel>>, ResolveErrorModel>(ws))
            && m == ResolvedModel::Record(ws)),
        spec_try_collect(ws) matches Err(e) ==> spec_try_from(reg, image, children, 0, fuel)
            == Some(Err::<Seq<Result<ResolvedModel, ResolveErrorModel>>, ResolveErrorModel>(e)),
        spec_collect(ws) == Ok::<ResolvedModel, ResolveErrorModel>(ResolvedModel::Record(ws)),
        spec_collect_from(reg, image, children, 0, fuel) == Some(ws),
{
    lemma_try_from_pointwise(reg, image, children, ws, 0, fuel);
    lemma_collect_from_pointwise(reg, image, children, ws, 0, fuel);
    lemma_first_error_found(ws, 0);
    assert(ws.subrange(0, ws.len() as int) =~= ws);
    let fe = first_error_index(ws, 0);
    if fe < ws.len() {
        assert(ws[fe] is Err);
    }
}

/// Over empty memory, a scanning resolver that requires a match reports
/// exactly the missing value.
pub proof fn lemma_empty_memory_resolution(
    reg: Registry,
    image: Image,
    id: u64,
    v: Result<ResolvedModel, ResolveErrorModel>,
)
    requires
        root_result_ok(reg, image, id, v),
        reg.spec_find(id) matches Some(BodyModel::Scan { patterns, post }) && patterns.len() >= 1
            && post != Post::Count && forall|k: int|
            0 <= k < patterns.len() ==> (#[trigger] patterns[k]).pairs.len() >= 1,
        forall|s: int|
            0 <= s < image.memory.spec_sections().len()
                ==> (#[trigger] image.memory.spec_sections()[s]).bytes.len() == 0,
    ensures
        v matches Err(e) && e == ResolveErrorModel::Msg("expected at least one value"@),
{
    match reg.spec_find(id) {
        Some(BodyModel::Scan { patterns, post }) => {
            lemma_empty_memory_scan_body(patterns, post, image);
            assert(spec_resolver_result(reg, image, id, 1nat) == Some(
                Err::<ResolvedModel, ResolveErrorModel>(
                    ResolveErrorModel::Msg("expected at least one value"@),
                ),
            ));
        },
        _ => {},
    }
}

} // verus!
