use patternsleuth::error::{Context, MemoryAccessError, ResolveError};
use patternsleuth::image::{AddressRange, Function, Image, Memory, Section};
use patternsleuth::resolvers::{
    ensure_one, resolve_function, resolve_rip, resolve_rip_offset, resolve_self, try_ensure_one,
    ResolutionType, ResolveContext, ResolveStages, Singleton,
};

fn image_with(address: usize, data: Vec<u8>) -> Image {
    Image {
        memory: Memory { sections: vec![Section { address, data }] },
        functions: Vec::new(),
    }
}

#[test]
fn ensure_one_accepts_all_equal_values() {
    assert_eq!(ensure_one(vec![7, 7, 7]), Ok(7));
}

#[test]
fn ensure_one_rejects_distinct_values() {
    match ensure_one(vec![7, 8]) {
        Err(ResolveError::Msg(m)) => assert_eq!(m, "iter returned multiple unique values"),
        other => panic!("unexpected result: {:?}", other),
    }
}

#[test]
fn ensure_one_rejects_emptiness() {
    match ensure_one(Vec::<u64>::new()) {
        Err(ResolveError::Msg(m)) => assert_eq!(m, "expected at least one value"),
        other => panic!("unexpected result: {:?}", other),
    }
}

#[test]
fn try_ensure_one_short_circuits_on_the_first_error() {
    let boom = ResolveError::Msg(String::from("boom"));
    let r = try_ensure_one(vec![Ok(1usize), Err(boom.clone()), Ok(2)]);
    assert_eq!(r, Err(boom));
}

#[test]
fn try_ensure_one_accepts_all_equal_values() {
    assert_eq!(try_ensure_one(vec![Ok::<u32, ResolveError>(5), Ok(5)]), Ok(5));
}

#[test]
fn try_ensure_one_rejects_distinct_values() {
    match try_ensure_one(vec![Ok::<u32, ResolveError>(5), Ok(6)]) {
        Err(ResolveError::Msg(m)) => assert_eq!(m, "iter returned multiple unique values"),
        other => panic!("unexpected result: {:?}", other),
    }
}

#[test]
fn context_turns_none_into_a_message() {
    let r: Result<u32, ResolveError> = None.context("missing thing");
    match r {
        Err(ResolveError::Msg(m)) => assert_eq!(m, "missing thing"),
        other => panic!("unexpected result: {:?}", other),
    }
    assert_eq!(Some(3u32).context("missing thing"), Ok(3));
}

#[test]
fn resolve_self_returns_the_match_address() {
    let image = image_with(0x1000, vec![0; 4]);
    let mut stages = ResolveStages(Vec::new());
    let r = resolve_self(ResolveContext { image: &image, match_address: 0x1234 }, &mut stages);
    assert_eq!(r, Ok(ResolutionType::Address(0x1234)));
    assert!(stages.0.is_empty());
}

#[test]
fn resolve_rip_offset_adds_the_displacement() {
    // spec scenario: four bytes 10 00 00 00 at 0x2000, N = 4
    let image = image_with(0x2000, vec![0x10, 0x00, 0x00, 0x00]);
    let mut stages = ResolveStages(Vec::new());
    let r = resolve_rip_offset::<4>(
        ResolveContext { image: &image, match_address: 0x2000 },
        &mut stages,
    );
    assert_eq!(r, Ok(ResolutionType::Address(0x2014)));
    assert_eq!(stages.0, vec![0x2000]);
}

#[test]
fn resolve_rip_handles_negative_displacements() {
    // 0xFFFFFFFC is -4; 0x2000 - 4 + 4 = 0x2000
    let image = image_with(0x2000, vec![0xFC, 0xFF, 0xFF, 0xFF]);
    let mut stages = ResolveStages(Vec::new());
    let r = resolve_rip(&image.memory, 0x2000, 4, &mut stages);
    assert_eq!(r, Ok(ResolutionType::Address(0x2000)));
}

#[test]
fn resolve_rip_out_of_bounds_is_a_memory_access_error() {
    let image = image_with(0x2000, vec![0x10, 0x00]);
    let mut stages = ResolveStages(Vec::new());
    let r = resolve_rip(&image.memory, 0x2001, 4, &mut stages);
    assert_eq!(
        r,
        Err(ResolveError::MemoryAccessOutOfBounds(MemoryAccessError { start: 0x2001, len: 4 }))
    );
}

#[test]
fn resolve_rip_underflow_is_failed() {
    // -4 from address 2 leaves the address space
    let image = image_with(0x0, vec![0xFC, 0xFF, 0xFF, 0xFF]);
    let mut stages = ResolveStages(Vec::new());
    let r = resolve_rip(&image.memory, 0x0, 0, &mut stages);
    assert_eq!(r, Ok(ResolutionType::Failed));
}

#[test]
fn resolve_function_walks_the_exception_table() {
    let mut image = image_with(0x1000, vec![0; 16]);
    image.functions = vec![
        Function { range: AddressRange { start: 0x1000, end: 0x1008 }, unwind_root: 0x1000 },
        Function { range: AddressRange { start: 0x1008, end: 0x1010 }, unwind_root: 0x1000 },
    ];
    let mut stages = ResolveStages(Vec::new());
    let r = resolve_function(ResolveContext { image: &image, match_address: 0x100C }, &mut stages);
    assert_eq!(r, Ok(ResolutionType::Address(0x1000)));
    assert_eq!(stages.0, vec![0x100C]);
}

#[test]
fn resolve_function_without_a_table_entry_is_failed() {
    let image = image_with(0x1000, vec![0; 16]);
    let mut stages = ResolveStages(Vec::new());
    let r = resolve_function(ResolveContext { image: &image, match_address: 0x1004 }, &mut stages);
    assert_eq!(r, Ok(ResolutionType::Failed));
}

#[test]
fn child_functions_share_an_unwind_root() {
    let mut image = image_with(0x1000, vec![0; 32]);
    image.functions = vec![
        Function { range: AddressRange { start: 0x1000, end: 0x1008 }, unwind_root: 0x1000 },
        Function { range: AddressRange { start: 0x1010, end: 0x1018 }, unwind_root: 0x2000 },
        Function { range: AddressRange { start: 0x1008, end: 0x1010 }, unwind_root: 0x1000 },
    ];
    let children = image.get_child_functions(0x1000);
    assert_eq!(children.len(), 2);
    assert_eq!(children[0].range.start, 0x1000);
    assert_eq!(children[1].range.start, 0x1008);
}

#[test]
fn memory_reads_cross_checked_against_sections() {
    let memory = Memory {
        sections: vec![
            Section { address: 0x1000, data: vec![1, 2, 3, 4] },
            Section { address: 0x2000, data: vec![9, 8] },
        ],
    };
    assert_eq!(memory.read_bytes(0x1001, 2), Ok(vec![2, 3]));
    assert_eq!(memory.read_bytes(0x2000, 2), Ok(vec![9, 8]));
    assert_eq!(
        memory.read_bytes(0x1003, 2),
        Err(MemoryAccessError { start: 0x1003, len: 2 })
    );
}

#[test]
fn singleton_exposes_only_addresses() {
    assert_eq!(ResolutionType::Address(7).get(), Some(7));
    assert_eq!(ResolutionType::Count(7).get(), None);
    assert_eq!(ResolutionType::Failed.get(), None);
}

#[test]
fn memory_access_errors_convert_into_resolve_errors() {
    let err = MemoryAccessError { start: 0x10, len: 4 };
    assert_eq!(
        ResolveError::from(err),
        ResolveError::MemoryAccessOutOfBounds(MemoryAccessError { start: 0x10, len: 4 })
    );
}
