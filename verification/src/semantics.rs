//! What resolvers denote: memoised artifact values, the mathematical
//! meaning of scanning and collecting resolver bodies, and the laws that
//! hold of them at section boundaries and over empty memory.

use vstd::prelude::*;
use crate::error::ResolveError;
use crate::error::ResolveErrorModel;
use crate::image::Image;
use crate::image::SectionModel;
use crate::pattern::PatternModel;
use crate::registry::Post;
use crate::resolvers::ResolutionModel;
use crate::resolvers::ResolutionType;
use crate::resolvers::result_view;
use crate::resolvers::spec_rip_resolution;
use crate::scanner::hit_address;
use crate::scanner::hit_reported;
use crate::scanner::lemma_pattern_longer_than_section;
use crate::scanner::lemma_scan_upto_membership;
use crate::scanner::scan_matches;

verus! {

broadcast use
    vstd::string::group_string_axioms,
    vstd::std_specs::vec::axiom_vec_decreases_to_view,
    vstd::seq::axiom_seq_index_decreases,
    vstd::seq::axiom_seq_subrange_decreases;

/// A memoised resolver artifact: a plain resolution, or the record a
/// collector built out of its children's resolutions, which may themselves
/// be records.
#[derive(Debug, PartialEq)]
pub enum ResolvedValue {
    /// A single resolver's typed result.
    Value(ResolutionType),
    /// A collector's record: one field per child, in child order.
    Record(Vec<Result<ResolvedValue, ResolveError>>),
}

/// The mathematical content of a `ResolvedValue`.
pub enum ResolvedModel {
    Value(ResolutionModel),
    Record(Seq<Result<ResolvedModel, ResolveErrorModel>>),
}

/// The mathematical content of a resolver artifact.
pub open spec fn value_model(v: ResolvedValue) -> ResolvedModel
    decreases v,
{
    match v {
        ResolvedValue::Value(t) => ResolvedModel::Value(t@),
        ResolvedValue::Record(fields) => ResolvedModel::Record(fields_model(fields@)),
    }
}

/// The mathematical content of a record's fields, in order.
pub open spec fn fields_model(fields: Seq<Result<ResolvedValue, ResolveError>>) -> Seq<
    Result<ResolvedModel, ResolveErrorModel>,
>
    decreases fields,
{
    if fields.len() == 0 {
        Seq::empty()
    } else {
        fields_model(fields.drop_last()).push(
            match fields.last() {
                Ok(v) => Ok(value_model(v)),
                Err(e) => Err(e@),
            },
        )
    }
}

impl View for ResolvedValue {
    type V = ResolvedModel;

    open spec fn view(&self) -> ResolvedModel {
        value_model(*self)
    }
}

/// The view of a cache entry or an engine result.
pub open spec fn entry_view(r: Result<ResolvedValue, ResolveError>) -> Result<
    ResolvedModel,
    ResolveErrorModel,
> {
    match r {
        Ok(v) => Ok(value_model(v)),
        Err(e) => Err(e@),
    }
}

/// A record's field models are its fields' entry views, in place.
pub proof fn lemma_fields_model(fields: Seq<Result<ResolvedValue, ResolveError>>)
    ensures
        fields_model(fields).len() == fields.len(),
        forall|i: int|
            0 <= i < fields.len() ==> fields_model(fields)[i] == entry_view(#[trigger] fields[i]),
    decreases fields.len(),
{
    if fields.len() > 0 {
        lemma_fields_model(fields.drop_last());
        assert forall|i: int| 0 <= i < fields.len() implies fields_model(fields)[i] == entry_view(
            #[trigger] fields[i],
        ) by {
            if i < fields.len() - 1 {
                assert(fields.drop_last()[i] == fields[i]);
            }
        }
    }
}

pub(crate) fn clone_leaf_result(r: &Result<ResolutionType, ResolveError>) -> (c: Result<
    ResolutionType,
    ResolveError,
>)
    ensures
        result_view(c) == result_view(*r),
{
    match r {
        Ok(v) => Ok(v.clone()),
        Err(e) => Err(e.clone()),
    }
}

pub(crate) fn clone_value(v: &ResolvedValue) -> (c: ResolvedValue)
    ensures
        c@ == v@,
    decreases *v,
{
    match v {
        ResolvedValue::Value(t) => ResolvedValue::Value(t.clone()),
        ResolvedValue::Record(fields) => {
            proof {
                assert(decreases_to!(*v => *fields));
            }
            let out = clone_entry_vec(fields);
            proof {
                lemma_fields_model(out@);
                lemma_fields_model(fields@);
                assert forall|i: int|
                    0 <= i < out@.len() implies fields_model(out@)[i] == fields_model(fields@)[i] by {
                    assert(fields_model(out@)[i] == entry_view(out@[i]));
                    assert(fields_model(fields@)[i] == entry_view(fields@[i]));
                }
                assert(fields_model(out@) =~= fields_model(fields@));
            }
            ResolvedValue::Record(out)
        },
    }
}

pub(crate) fn clone_entry_vec(fields: &Vec<Result<ResolvedValue, ResolveError>>) -> (out: Vec<
    Result<ResolvedValue, ResolveError>,
>)
    ensures
        out@.len() == fields@.len(),
        forall|k: int|
            0 <= k < fields@.len() ==> entry_view(#[trigger] out@[k]) == entry_view(fields@[k]),
    decreases *fields,
{
    let mut out: Vec<Result<ResolvedValue, ResolveError>> = Vec::new();
    let mut i: usize = 0;
    while i < fields.len()
        invariant
            i <= fields@.len(),
            out@.len() == i,
            forall|k: int|
                0 <= k < i ==> entry_view(#[trigger] out@[k]) == entry_view(fields@[k]),
        decreases fields@.len() - i,
    {
        proof {
            assert(decreases_to!(*fields => fields@));
            assert(decreases_to!(fields@ => fields@[i as int]));
        }
        out.push(clone_entry(&fields[i]));
        i = i + 1;
    }
    out
}

pub(crate) fn clone_entry(r: &Result<ResolvedValue, ResolveError>) -> (c: Result<
    ResolvedValue,
    ResolveError,
>)
    ensures
        entry_view(c) == entry_view(*r),
    decreases *r,
{
    match r {
        Ok(v) => Ok(clone_value(v)),
        Err(e) => Err(e.clone()),
    }
}

/// The matches of one pattern over every section, merged in section
/// enumeration order.
pub open spec fn merged_matches(p: PatternModel, secs: Seq<SectionModel>) -> Seq<usize>
    decreases secs.len(),
{
    if secs.len() == 0 {
        Seq::empty()
    } else {
        merged_matches(p, secs.drop_last()) + scan_matches(
            p,
            secs.last().base,
            secs.last().bytes,
        )
    }
}

/// The matches of a pattern set, merged in pattern order.
pub open spec fn all_matches(patterns: Seq<PatternModel>, secs: Seq<SectionModel>) -> Seq<usize>
    decreases patterns.len(),
{
    if patterns.len() == 0 {
        Seq::empty()
    } else {
        all_matches(patterns.drop_last(), secs) + merged_matches(patterns.last(), secs)
    }
}

/// Whether every element of `m` equals its first.
pub open spec fn all_equal(m: Seq<usize>) -> bool {
    forall|i: int| 0 <= i < m.len() ==> #[trigger] m[i] == m[0]
}

/// What requiring one unique value of a match list yields.
pub open spec fn ensure_one_spec(m: Seq<usize>) -> Result<usize, ResolveErrorModel> {
    if m.len() == 0 {
        Err(ResolveErrorModel::Msg("expected at least one value"@))
    } else if !all_equal(m) {
        Err(ResolveErrorModel::Msg("iter returned multiple unique values"@))
    } else {
        Ok(m[0])
    }
}

/// What a post-processing step turns a merged match list into.
pub open spec fn spec_post(post: Post, m: Seq<usize>, image: Image) -> Result<
    ResolvedModel,
    ResolveErrorModel,
> {
    match post {
        Post::Count => Ok(ResolvedModel::Value(ResolutionModel::Count(m.len() as usize))),
        Post::SelfAddress => match ensure_one_spec(m) {
            Ok(va) => Ok(ResolvedModel::Value(ResolutionModel::Address(va))),
            Err(e) => Err(e),
        },
        Post::Function => match ensure_one_spec(m) {
            Ok(va) => match image.spec_root_function(va as int) {
                Some(f) => Ok(ResolvedModel::Value(ResolutionModel::Address(f.range.start))),
                None => Ok(ResolvedModel::Value(ResolutionModel::Failed)),
            },
            Err(e) => Err(e),
        },
        Post::RipOffset(n) => match ensure_one_spec(m) {
            Ok(va) => match spec_rip_resolution(image.memory, va, n) {
                Ok(v) => Ok(ResolvedModel::Value(v)),
                Err(e) => Err(e),
            },
            Err(e) => Err(e),
        },
    }
}

/// The one result a scanning resolver can produce over a given image: its
/// patterns' merged matches, post-processed.
pub open spec fn scan_body_result(
    patterns: Seq<PatternModel>,
    post: Post,
    image: Image,
) -> Result<ResolvedModel, ResolveErrorModel> {
    spec_post(post, all_matches(patterns, image.memory.spec_sections()), image)
}

/// The first position from `i` on whose result is an error; `rs.len()` if
/// none is.
pub open spec fn first_error_index(
    rs: Seq<Result<ResolvedModel, ResolveErrorModel>>,
    i: int,
) -> int
    decreases rs.len() - i,
{
    if i < 0 || i >= rs.len() {
        rs.len() as int
    } else if rs[i] is Err {
        i
    } else {
        first_error_index(rs, i + 1)
    }
}

/// What a try-collector makes of its children's results: the record of all
/// of them if every one succeeded, else the first error, with no partial
/// record.
pub open spec fn spec_try_collect(rs: Seq<Result<ResolvedModel, ResolveErrorModel>>) -> Result<
    ResolvedModel,
    ResolveErrorModel,
> {
    let k = first_error_index(rs, 0);
    if k == rs.len() {
        Ok(ResolvedModel::Record(rs))
    } else {
        match rs[k] {
            Err(e) => Err(e),
            Ok(_) => Ok(ResolvedModel::Record(rs)),
        }
    }
}

/// What a plain collector makes of its children's results: always a record,
/// each field keeping its child's own result.
pub open spec fn spec_collect(rs: Seq<Result<ResolvedModel, ResolveErrorModel>>) -> Result<
    ResolvedModel,
    ResolveErrorModel,
> {
    Ok(ResolvedModel::Record(rs))
}

/// Membership in a per-section match list, with the window position free.
pub proof fn lemma_scan_matches_membership(p: PatternModel, base: int, data: Seq<u8>)
    requires
        p.wf(),
        base + data.len() <= usize::MAX,
    ensures
        forall|va: usize|
            scan_matches(p, base, data).contains(va) <==> exists|i: int|
                hit_reported(p, base, data, i) && va == hit_address(p, base, i),
{
    if p.pairs.len() <= data.len() {
        let n = data.len() - p.pairs.len() + 1;
        lemma_scan_upto_membership(p, base, data, n);
        assert forall|va: usize|
            (exists|i: int|
                hit_reported(p, base, data, i) && va == hit_address(
                    p,
                    base,
                    i,
                )) implies scan_matches(p, base, data).contains(va) by {
            let i = choose|i: int| hit_reported(p, base, data, i) && va == hit_address(p, base, i);
            assert(i + p.pairs.len() <= data.len());
            assert(0 <= i < n);
        }
    } else {
        // no window fits, so neither side holds of any address
        assert forall|va: usize|
            scan_matches(p, base, data).contains(va) <==> (exists|i: int|
                hit_reported(p, base, data, i) && va == hit_address(p, base, i)) by {
            assert(!scan_matches(p, base, data).contains(va));
            if exists|i: int| hit_reported(p, base, data, i) && va == hit_address(p, base, i) {
                let i = choose|i: int|
                    hit_reported(p, base, data, i) && va == hit_address(p, base, i);
                assert(i + p.pairs.len() <= data.len());
                assert(false);
            }
        }
    }
}

/// A merged match list holds exactly the addresses at which some single
/// section matches the whole pattern: sections are scanned independently,
/// so a pattern whose only occurrence straddles a section boundary is
/// reported nowhere.
pub proof fn lemma_merged_matches_membership(p: PatternModel, secs: Seq<SectionModel>)
    requires
        p.wf(),
        forall|s: int| 0 <= s < secs.len() ==> (#[trigger] secs[s]).wf(),
    ensures
        forall|va: usize|
            merged_matches(p, secs).contains(va) <==> exists|s: int, i: int|
                0 <= s < secs.len() && hit_reported(p, secs[s].base, secs[s].bytes, i) && va
                    == hit_address(p, secs[s].base, i),
    decreases secs.len(),
{
    if secs.len() == 0 {
    } else {
        let prefix = secs.drop_last();
        let last = secs.last();
        lemma_merged_matches_membership(p, prefix);
        lemma_scan_matches_membership(p, last.base, last.bytes);
        let whole = merged_matches(p, secs);
        let left = merged_matches(p, prefix);
        let right = scan_matches(p, last.base, last.bytes);
        assert forall|va: usize| whole.contains(va) implies exists|s: int, i: int|
            0 <= s < secs.len() && hit_reported(p, secs[s].base, secs[s].bytes, i) && va
                == hit_address(p, secs[s].base, i) by {
            let j = choose|j: int| 0 <= j < whole.len() && whole[j] == va;
            if j < left.len() {
                assert(left.contains(va));
                let (s, i) = choose|s: int, i: int|
                    0 <= s < prefix.len() && hit_reported(p, prefix[s].base, prefix[s].bytes, i)
                        && va == hit_address(p, prefix[s].base, i);
                assert(secs[s] == prefix[s]);
            } else {
                assert(right[j - left.len()] == va);
                assert(right.contains(va));
                let i = choose|i: int|
                    hit_reported(p, last.base, last.bytes, i) && va == hit_address(p, last.base, i);
                assert(secs[secs.len() - 1] == last);
            }
        }
        assert forall|va: usize|
            (exists|s: int, i: int|
                0 <= s < secs.len() && hit_reported(p, secs[s].base, secs[s].bytes, i) && va
                    == hit_address(p, secs[s].base, i)) implies whole.contains(va) by {
            let (s, i) = choose|s: int, i: int|
                0 <= s < secs.len() && hit_reported(p, secs[s].base, secs[s].bytes, i) && va
                    == hit_address(p, secs[s].base, i);
            if s < secs.len() - 1 {
                assert(prefix[s] == secs[s]);
                assert(left.contains(va));
                let j = choose|j: int| 0 <= j < left.len() && left[j] == va;
                assert(whole[j] == va);
            } else {
                assert(right.contains(va));
                let j = choose|j: int| 0 <= j < right.len() && right[j] == va;
                assert(whole[left.len() + j] == va);
            }
        }
    }
}

/// Over empty memory every match list is empty, for patterns that are at
/// least one byte wide.
pub proof fn lemma_empty_memory_no_matches(p: PatternModel, secs: Seq<SectionModel>)
    requires
        p.pairs.len() >= 1,
        forall|s: int| 0 <= s < secs.len() ==> (#[trigger] secs[s]).bytes.len() == 0,
    ensures
        merged_matches(p, secs) == Seq::<usize>::empty(),
    decreases secs.len(),
{
    if secs.len() == 0 {
    } else {
        lemma_empty_memory_no_matches(p, secs.drop_last());
        lemma_pattern_longer_than_section(p, secs.last().base, secs.last().bytes);
        assert(merged_matches(p, secs) =~= Seq::<usize>::empty());
    }
}

/// Over empty memory a scanning resolver that requires a match reports the
/// missing value: its result is the error `expected at least one value`.
/// A counting resolver reports `Count(0)` instead and is left out here.
pub proof fn lemma_empty_memory_scan_body(patterns: Seq<PatternModel>, post: Post, image: Image)
    requires
        patterns.len() >= 1,
        forall|k: int| 0 <= k < patterns.len() ==> (#[trigger] patterns[k]).pairs.len() >= 1,
        forall|s: int|
            0 <= s < image.memory.spec_sections().len() ==> (#[trigger] image.memory.spec_sections()[s]).bytes.len()
                == 0,
        post != Post::Count,
    ensures
        scan_body_result(patterns, post, image) == Err::<ResolvedModel, ResolveErrorModel>(
            ResolveErrorModel::Msg("expected at least one value"@),
        ),
{
    let secs = image.memory.spec_sections();
    assert(all_matches(patterns, secs) == Seq::<usize>::empty()) by {
        lemma_all_matches_empty(patterns, secs);
    }
}

pub(crate) proof fn lemma_all_matches_empty(patterns: Seq<PatternModel>, secs: Seq<SectionModel>)
    requires
        forall|k: int| 0 <= k < patterns.len() ==> (#[trigger] patterns[k]).pairs.len() >= 1,
        forall|s: int| 0 <= s < secs.len() ==> (#[trigger] secs[s]).bytes.len() == 0,
    ensures
        all_matches(patterns, secs) == Seq::<usize>::empty(),
    decreases patterns.len(),
{
    if patterns.len() == 0 {
    } else {
        lemma_all_matches_empty(patterns.drop_last(), secs);
        lemma_empty_memory_no_matches(patterns.last(), secs);
        assert(all_matches(patterns, secs) =~= Seq::<usize>::empty());
    }
}


pub(crate) proof fn lemma_first_error_all_ok(rs: Seq<Result<ResolvedModel, ResolveErrorModel>>, j: int)
    requires
        0 <= j <= rs.len(),
        forall|i: int| j <= i < rs.len() ==> (#[trigger] rs[i]) is Ok,
    ensures
        first_error_index(rs, j) == rs.len(),
    decreases rs.len() - j,
{
    if j < rs.len() {
        lemma_first_error_all_ok(rs, j + 1);
    }
}

/// Appending one section to the enumeration appends its matches.
pub(crate) proof fn lemma_merged_take_step(p: PatternModel, secs: Seq<SectionModel>, s: int)
    requires
        0 <= s < secs.len(),
    ensures
        merged_matches(p, secs.take(s + 1)) == merged_matches(p, secs.take(s)) + scan_matches(
            p,
            secs[s].base,
            secs[s].bytes,
        ),
{
    let t1 = secs.take(s + 1);
    assert(t1.drop_last() =~= secs.take(s));
    assert(t1.last() == secs[s]);
}

/// Appending one pattern to the set appends its merged matches.
pub(crate) proof fn lemma_all_matches_take_step(
    patterns: Seq<PatternModel>,
    secs: Seq<SectionModel>,
    k: int,
)
    requires
        0 <= k < patterns.len(),
    ensures
        all_matches(patterns.take(k + 1), secs) == all_matches(patterns.take(k), secs)
            + merged_matches(patterns[k], secs),
{
    let t1 = patterns.take(k + 1);
    assert(t1.drop_last() =~= patterns.take(k));
    assert(t1.last() == patterns[k]);
}


/// The first error position is the first error position: everything before
/// it succeeded, and it is an error where it is in range.
pub proof fn lemma_first_error_found(rs: Seq<Result<ResolvedModel, ResolveErrorModel>>, j: int)
    requires
        0 <= j <= rs.len(),
    ensures
        j <= first_error_index(rs, j) <= rs.len(),
        first_error_index(rs, j) < rs.len() ==> rs[first_error_index(rs, j)] is Err,
        forall|i: int| j <= i < first_error_index(rs, j) ==> (#[trigger] rs[i]) is Ok,
    decreases rs.len() - j,
{
    if j < rs.len() && !(rs[j] is Err) {
        lemma_first_error_found(rs, j + 1);
    }
}

/// A successful try-collector yields the full record and owes every child's
/// success; any child error fails the whole collector with the first such
/// error, and no partial record is built.
pub proof fn lemma_try_collector_all_or_nothing(
    rs: Seq<Result<ResolvedModel, ResolveErrorModel>>,
)
    ensures
        spec_try_collect(rs) matches Ok(v) ==> (v == ResolvedModel::Record(rs) && forall|i: int|
            0 <= i < rs.len() ==> (#[trigger] rs[i]) is Ok),
        (exists|i: int| 0 <= i < rs.len() && (#[trigger] rs[i]) is Err) ==> spec_try_collect(rs)
            == Err::<ResolvedModel, ResolveErrorModel>(
            rs[first_error_index(rs, 0)]->Err_0,
        ),
{
    lemma_first_error_found(rs, 0);
    let k = first_error_index(rs, 0);
    if exists|i: int| 0 <= i < rs.len() && (#[trigger] rs[i]) is Err {
        let i = choose|i: int| 0 <= i < rs.len() && (#[trigger] rs[i]) is Err;
        assert(k < rs.len()) by {
            if k == rs.len() {
                assert(rs[i] is Ok);
            }
        }
    }
}
} // verus!
