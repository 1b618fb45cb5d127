//! Resolution primitives: returning the match itself, walking the
//! exception table, decoding RIP-relative displacements, and requiring a
//! unique value of a match list.

use vstd::prelude::*;
use vstd::std_specs::cmp::PartialEqSpec;
use crate::error::MemoryAccessError;
use crate::error::ResolveError;
use crate::error::ResolveErrorModel;
use crate::error::msg_error;
use crate::image::Image;
use crate::image::Memory;
use crate::image::lemma_find_section_covers;

verus! {

broadcast use vstd::string::group_string_axioms;

/// The surface of a resolution: the typed value a resolver produced, or
/// `Failed` for a benign absence.
#[derive(Debug, PartialEq)]
pub enum ResolutionType {
    /// A virtual address inside the image.
    Address(usize),
    /// A textual artifact.
    String(String),
    /// A count of occurrences.
    Count(usize),
    /// The resolver matched nothing it could stand behind.
    Failed,
}

/// The mathematical content of a `ResolutionType`.
pub enum ResolutionModel {
    Address(usize),
    String(Seq<char>),
    Count(usize),
    Failed,
}

impl View for ResolutionType {
    type V = ResolutionModel;

    open spec fn view(&self) -> ResolutionModel {
        match self {
            ResolutionType::Address(va) => ResolutionModel::Address(*va),
            ResolutionType::String(s) => ResolutionModel::String(s@),
            ResolutionType::Count(n) => ResolutionModel::Count(*n),
            ResolutionType::Failed => ResolutionModel::Failed,
        }
    }
}

impl Clone for ResolutionType {
    /// A clone denotes the same resolution.
    fn clone(&self) -> (r: Self)
        ensures
            r@ == self@,
    {
        match self {
            ResolutionType::Address(va) => ResolutionType::Address(*va),
            ResolutionType::String(s) => ResolutionType::String(s.clone()),
            ResolutionType::Count(n) => ResolutionType::Count(*n),
            ResolutionType::Failed => ResolutionType::Failed,
        }
    }
}

/// Access to the single virtual address a resolution stands for, where it
/// stands for one.
pub trait Singleton {
    /// The address this value carries, if it is a single-address artifact.
    spec fn singleton_value(&self) -> Option<usize>;

    /// Returns the single address, or `None` for any other artifact.
    fn get(&self) -> (r: Option<usize>)
        ensures
            r == self.singleton_value(),
    ;
}

impl Singleton for ResolutionType {
    open spec fn singleton_value(&self) -> Option<usize> {
        match self {
            ResolutionType::Address(va) => Some(*va),
            _ => None,
        }
    }

    fn get(&self) -> (r: Option<usize>) {
        match self {
            ResolutionType::Address(va) => Some(*va),
            _ => None,
        }
    }
}

/// A typed resolver artifact.
pub trait Resolution: Singleton {

}

impl Resolution for ResolutionType {

}

/// What a resolution primitive sees: the image under scan and the address
/// of the pattern match being post-processed.
pub struct ResolveContext<'a> {
    pub image: &'a Image,
    pub match_address: usize,
}

/// The chain of intermediate virtual addresses a resolution walked through,
/// kept for diagnostic rendering.
pub struct ResolveStages(pub Vec<usize>);

/// Simply return address of match.
pub fn resolve_self(ctx: ResolveContext<'_>, stages: &mut ResolveStages) -> (r: Result<
    ResolutionType,
    ResolveError,
>)
    ensures
        final(stages).0@ == old(stages).0@,
        r matches Ok(v) && v@ == ResolutionModel::Address(ctx.match_address),
{
    Ok(ResolutionType::Address(ctx.match_address))
}

/// Return containing function via exception table lookup.
pub fn resolve_function(ctx: ResolveContext<'_>, stages: &mut ResolveStages) -> (r: Result<
    ResolutionType,
    ResolveError,
>)
    ensures
        final(stages).0@ == old(stages).0@.push(ctx.match_address),
        r matches Ok(v) && v@ == match ctx.image.spec_root_function(ctx.match_address as int) {
            Some(f) => ResolutionModel::Address(f.range.start),
            None => ResolutionModel::Failed,
        },
{
    stages.0.push(ctx.match_address);
    match ctx.image.get_root_function(ctx.match_address) {
        Some(f) => Ok(ResolutionType::Address(f.range.start)),
        None => Ok(ResolutionType::Failed),
    }
}

/// The little-endian unsigned value of four bytes.
pub open spec fn le_u32(b: Seq<u8>) -> int {
    b[0] + 256 * b[1] + 65536 * b[2] + 16777216 * b[3]
}

/// The little-endian 32-bit sign-extended value of four bytes.
pub open spec fn sext32(b: Seq<u8>) -> int {
    if le_u32(b) >= 0x8000_0000 {
        le_u32(b) - 0x1_0000_0000
    } else {
        le_u32(b)
    }
}

/// What RIP-relative decoding at `va` with displacement-to-instruction-end
/// distance `n` yields: the absolute address `va + sext32(mem[va..va+4]) + n`
/// when the four displacement bytes are readable and the sum stays inside
/// the address space; `Failed` when only the sum escapes it; the failed
/// access when the bytes cannot be read.
pub open spec fn spec_rip_resolution(mem: Memory, va: usize, n: usize) -> Result<
    ResolutionModel,
    ResolveErrorModel,
> {
    match mem.spec_read(va as int, 4) {
        Some(b) => if 0 <= va + sext32(b) && va + sext32(b) + n <= usize::MAX {
            Ok(ResolutionModel::Address(((va + sext32(b) + n) as usize)))
        } else {
            Ok(ResolutionModel::Failed)
        },
        None => Err(
            ResolveErrorModel::MemoryAccessOutOfBounds(MemoryAccessError { start: va, len: 4 }),
        ),
    }
}

/// The view of a primitive's result.
pub open spec fn result_view(r: Result<ResolutionType, ResolveError>) -> Result<
    ResolutionModel,
    ResolveErrorModel,
> {
    match r {
        Ok(v) => Ok(v@),
        Err(e) => Err(e@),
    }
}

/// Decodes the RIP-relative displacement at `match_address`: reads four
/// little-endian signed bytes there and computes
/// `match_address + displacement + next_opcode_offset`.
pub fn resolve_rip(
    memory: &Memory,
    match_address: usize,
    next_opcode_offset: usize,
    stages: &mut ResolveStages,
) -> (r: Result<ResolutionType, ResolveError>)
    requires
        memory.wf(),
    ensures
        final(stages).0@ == old(stages).0@.push(match_address),
        result_view(r) == spec_rip_resolution(*memory, match_address, next_opcode_offset),
{
    stages.0.push(match_address);
    if match_address > usize::MAX - 4 {
        proof {
            lemma_find_section_covers(memory.spec_sections(), match_address as int, 4, 0);
        }
        return Err(
            ResolveError::MemoryAccessOutOfBounds(MemoryAccessError { start: match_address, len: 4 }),
        );
    }
    let bytes = match memory.read_bytes(match_address, 4) {
        Ok(b) => b,
        Err(e) => {
            return Err(ResolveError::from(e));
        },
    };
    proof {
        lemma_find_section_covers(memory.spec_sections(), match_address as int, 4, 0);
        assert(bytes@.len() == 4);
    }
    let u: u32 = (bytes[0] as u32) + 256 * (bytes[1] as u32) + 65536 * (bytes[2] as u32)
        + 16777216 * (bytes[3] as u32);
    proof {
        assert(u == le_u32(bytes@));
    }
    if u >= 0x8000_0000 {
        // negative displacement: subtract its two's-complement magnitude
        let mag: usize = (0xffff_ffffu32 - u + 1) as usize;
        proof {
            assert(mag == 0x1_0000_0000 - le_u32(bytes@));
        }
        if match_address >= mag {
            let t = match_address - mag;
            if next_opcode_offset <= usize::MAX - t {
                Ok(ResolutionType::Address(t + next_opcode_offset))
            } else {
                Ok(ResolutionType::Failed)
            }
        } else {
            Ok(ResolutionType::Failed)
        }
    } else {
        let add = u as usize;
        if add <= usize::MAX - match_address {
            let t = match_address + add;
            if next_opcode_offset <= usize::MAX - t {
                Ok(ResolutionType::Address(t + next_opcode_offset))
            } else {
                Ok(ResolutionType::Failed)
            }
        } else {
            Ok(ResolutionType::Failed)
        }
    }
}

/// Resolve RIP address at match, accounting for `N` bytes to the end of the
/// instruction (usually 4).
pub fn resolve_rip_offset<const N: usize>(ctx: ResolveContext<'_>, stages: &mut ResolveStages) -> (r:
    Result<ResolutionType, ResolveError>)
    requires
        ctx.image.wf(),
    ensures
        final(stages).0@ == old(stages).0@.push(ctx.match_address),
        result_view(r) == spec_rip_resolution(ctx.image.memory, ctx.match_address, N),
{
    resolve_rip(&ctx.image.memory, ctx.match_address, N, stages)
}

/// Given an iterator of values, returns Ok(value) if all values are equal
/// or Err.
pub fn ensure_one<T: PartialEq>(data: Vec<T>) -> (r: Result<T, ResolveError>)
    ensures
        data@.len() == 0 ==> (r matches Err(e) && e.is_msg("expected at least one value"@)),
        T::obeys_eq_spec() && data@.len() > 0 && (forall|i: int|
            1 <= i < data@.len() ==> data@[i].eq_spec(&data@[0])) ==> (r matches Ok(v) && v
            == data@[0]),
        T::obeys_eq_spec() && data@.len() > 0 && (exists|i: int|
            1 <= i < data@.len() && !data@[i].eq_spec(&data@[0])) ==> (r matches Err(e)
            && e.is_msg("iter returned multiple unique values"@)),
{
    if data.len() == 0 {
        return Err(msg_error("expected at least one value"));
    }
    let mut i: usize = 1;
    while i < data.len()
        invariant
            1 <= i <= data@.len(),
            data@.len() > 0,
            T::obeys_eq_spec() ==> forall|j: int| 1 <= j < i ==> data@[j].eq_spec(&data@[0]),
        decreases data@.len() - i,
    {
        if data[i] != data[0] {
            return Err(msg_error("iter returned multiple unique values"));
        }
        i = i + 1;
    }
    let mut data = data;
    let first = data.remove(0);
    Ok(first)
}

/// The first position from `i` on at which the values diverge from `first`:
/// an error, or a value unequal to it. `s.len()` when none does.
pub open spec fn first_divergence<T: PartialEq>(
    s: Seq<Result<T, ResolveError>>,
    first: T,
    i: int,
) -> int
    decreases s.len() - i,
{
    if i < 0 || i >= s.len() {
        s.len() as int
    } else {
        match s[i] {
            Err(_) => i,
            Ok(v) => if v.eq_spec(&first) {
                first_divergence(s, first, i + 1)
            } else {
                i
            },
        }
    }
}

/// Given an iterator of values, returns Ok(value) if all values are equal
/// or Err; the first error short-circuits.
pub fn try_ensure_one<T: PartialEq>(data: Vec<Result<T, ResolveError>>) -> (r: Result<
    T,
    ResolveError,
>)
    ensures
        data@.len() == 0 ==> (r matches Err(e) && e.is_msg("expected at least one value"@)),
        data@.len() > 0 ==> (data@[0] matches Err(e0) ==> (r matches Err(e) && e@ == e0@)),
        (T::obeys_eq_spec() && data@.len() > 0) ==> (data@[0] matches Ok(first) ==> {
            let k = first_divergence(data@, first, 1);
            if k == data@.len() {
                r matches Ok(v) && v == first
            } else {
                match data@[k] {
                    Err(e0) => r matches Err(e) && e@ == e0@,
                    Ok(_) => r matches Err(e) && e.is_msg(
                        "iter returned multiple unique values"@,
                    ),
                }
            }
        }),
{
    if data.len() == 0 {
        return Err(msg_error("expected at least one value"));
    }
    let first = match &data[0] {
        Ok(f) => f,
        Err(e) => {
            return Err(e.clone());
        },
    };
    let mut i: usize = 1;
    while i < data.len()
        invariant
            1 <= i <= data@.len(),
            data@.len() > 0,
            data@[0] matches Ok(f0) && f0 == *first,
            T::obeys_eq_spec() ==> first_divergence(data@, *first, 1) == first_divergence(
                data@,
                *first,
                i as int,
            ),
        decreases data@.len() - i,
    {
        match &data[i] {
            Err(e) => {
                return Err(e.clone());
            },
            Ok(v) => {
                if *v != *first {
                    return Err(msg_error("iter returned multiple unique values"));
                }
            },
        }
        i = i + 1;
    }
    let mut data = data;
    let first = data.remove(0);
    match first {
        Ok(v) => Ok(v),
        Err(_) => vstd::pervasive::unreached(),
    }
}

} // verus!
