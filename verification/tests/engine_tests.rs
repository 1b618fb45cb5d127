use patternsleuth::error::ResolveError;
use patternsleuth::image::{AddressRange, Function, Image, Memory, Section};
use patternsleuth::pattern::Pattern;
use patternsleuth::registry::{NamedResolver, Post, Registry, ResolverBody};
use patternsleuth::resolvers::ResolutionType;
use patternsleuth::runtime::{resolve, resolve_many};
use patternsleuth::semantics::ResolvedValue;

fn image_with(address: usize, data: Vec<u8>) -> Image {
    Image {
        memory: Memory { sections: vec![Section { address, data }] },
        functions: Vec::new(),
    }
}


fn shared_b() -> Result<ResolvedValue, ResolveError> {
    Ok(ResolvedValue::Value(ResolutionType::Address(0x1000)))
}

fn scan_resolver(name: &str, id: u64, pattern: &str, post: Post) -> NamedResolver {
    NamedResolver {
        name: name.to_string(),
        id,
        body: ResolverBody::Scan { patterns: vec![Pattern::new(pattern).unwrap()], post },
    }
}

#[test]
fn a_scan_resolver_finds_its_unique_match() {
    let image = image_with(0x1000, vec![0x48, 0x89, 0x5C, 0x24, 0x08]);
    let mut registry = Registry::new();
    registry.register(scan_resolver("Sig", 1, "48 89 5C 24 08", Post::SelfAddress)).unwrap();
    let r = resolve(&image, &registry, 1);
    assert_eq!(r, Ok(ResolvedValue::Value(ResolutionType::Address(0x1000))));
}

#[test]
fn ambiguous_matches_fail_a_self_address_resolver() {
    let image = image_with(0x1000, vec![0xAA, 0xAA, 0xAA]);
    let mut registry = Registry::new();
    registry.register(scan_resolver("Sig", 1, "AA AA", Post::SelfAddress)).unwrap();
    match resolve(&image, &registry, 1) {
        Err(ResolveError::Msg(m)) => assert_eq!(m, "iter returned multiple unique values"),
        other => panic!("unexpected result: {:?}", other),
    }
}

#[test]
fn empty_memory_reports_the_missing_value() {
    let image = Image { memory: Memory { sections: Vec::new() }, functions: Vec::new() };
    let mut registry = Registry::new();
    registry.register(scan_resolver("Sig", 1, "48 89", Post::SelfAddress)).unwrap();
    match resolve(&image, &registry, 1) {
        Err(ResolveError::Msg(m)) => assert_eq!(m, "expected at least one value"),
        other => panic!("unexpected result: {:?}", other),
    }
}

#[test]
fn a_count_resolver_counts_matches() {
    let image = image_with(0x1000, vec![0xAA, 0xAA, 0xAA]);
    let mut registry = Registry::new();
    registry.register(scan_resolver("HowMany", 1, "AA AA", Post::Count)).unwrap();
    let r = resolve(&image, &registry, 1);
    assert_eq!(r, Ok(ResolvedValue::Value(ResolutionType::Count(2))));
}

#[test]
fn a_match_straddling_a_section_boundary_is_not_found() {
    // the pattern only occurs across the two sections, which are scanned
    // independently
    let image = Image {
        memory: Memory {
            sections: vec![
                Section { address: 0x1000, data: vec![0x48, 0x89] },
                Section { address: 0x1002, data: vec![0x5C] },
            ],
        },
        functions: Vec::new(),
    };
    let mut registry = Registry::new();
    registry.register(scan_resolver("Sig", 1, "48 89 5C", Post::SelfAddress)).unwrap();
    match resolve(&image, &registry, 1) {
        Err(ResolveError::Msg(m)) => assert_eq!(m, "expected at least one value"),
        other => panic!("unexpected result: {:?}", other),
    }
}

#[test]
fn sections_are_merged_in_enumeration_order() {
    let image = Image {
        memory: Memory {
            sections: vec![
                Section { address: 0x2000, data: vec![0xBB] },
                Section { address: 0x1000, data: vec![0xBB] },
            ],
        },
        functions: Vec::new(),
    };
    let mut registry = Registry::new();
    registry.register(scan_resolver("HowMany", 9, "BB", Post::Count)).unwrap();
    assert_eq!(
        resolve(&image, &registry, 9),
        Ok(ResolvedValue::Value(ResolutionType::Count(2)))
    );
}

#[test]
fn rip_offset_resolver_decodes_the_displacement() {
    // the pattern anchors at the displacement bytes 10 00 00 00
    let image = image_with(0x2000, vec![0x8B, 0x05, 0x10, 0x00, 0x00, 0x00]);
    let mut registry = Registry::new();
    registry
        .register(NamedResolver {
            name: "GlobalPtr".to_string(),
            id: 1,
            body: ResolverBody::Scan {
                patterns: vec![Pattern::new("10 00 00 00").unwrap()],
                post: Post::RipOffset(4),
            },
        })
        .unwrap();
    // match at 0x2002; 0x2002 + 0x10 + 4 = 0x2016
    assert_eq!(
        resolve(&image, &registry, 1),
        Ok(ResolvedValue::Value(ResolutionType::Address(0x2016)))
    );
}

#[test]
fn try_collector_builds_a_record_of_all_children() {
    let image = image_with(0x1000, vec![0x48, 0x89, 0x5C]);
    let mut registry = Registry::new();
    registry.register(scan_resolver("A", 1, "48", Post::SelfAddress)).unwrap();
    registry.register(scan_resolver("B", 2, "89", Post::SelfAddress)).unwrap();
    registry
        .register(NamedResolver {
            name: "Both".to_string(),
            id: 3,
            body: ResolverBody::TryCollect { children: vec![1, 2] },
        })
        .unwrap();
    let r = resolve(&image, &registry, 3);
    assert_eq!(
        r,
        Ok(ResolvedValue::Record(vec![
            Ok(ResolvedValue::Value(ResolutionType::Address(0x1000))),
            Ok(ResolvedValue::Value(ResolutionType::Address(0x1001))),
        ]))
    );
}

#[test]
fn try_collector_propagates_the_first_child_error() {
    let image = image_with(0x1000, vec![0x48]);
    let mut registry = Registry::new();
    registry.register(scan_resolver("A", 1, "48", Post::SelfAddress)).unwrap();
    registry.register(scan_resolver("Missing", 2, "FF", Post::SelfAddress)).unwrap();
    registry
        .register(NamedResolver {
            name: "Both".to_string(),
            id: 3,
            body: ResolverBody::TryCollect { children: vec![1, 2] },
        })
        .unwrap();
    match resolve(&image, &registry, 3) {
        Err(ResolveError::Msg(m)) => assert_eq!(m, "expected at least one value"),
        other => panic!("unexpected result: {:?}", other),
    }
}

#[test]
fn plain_collector_keeps_per_field_errors() {
    let image = image_with(0x1000, vec![0x48]);
    let mut registry = Registry::new();
    registry.register(scan_resolver("A", 1, "48", Post::SelfAddress)).unwrap();
    registry.register(scan_resolver("Missing", 2, "FF", Post::SelfAddress)).unwrap();
    registry
        .register(NamedResolver {
            name: "Both".to_string(),
            id: 3,
            body: ResolverBody::Collect { children: vec![1, 2] },
        })
        .unwrap();
    let r = resolve(&image, &registry, 3);
    match r {
        Ok(ResolvedValue::Record(fields)) => {
            assert_eq!(fields.len(), 2);
            assert_eq!(fields[0], Ok(ResolvedValue::Value(ResolutionType::Address(0x1000))));
            match &fields[1] {
                Err(ResolveError::Msg(m)) => assert_eq!(m, "expected at least one value"),
                other => panic!("unexpected field: {:?}", other),
            }
        }
        other => panic!("unexpected result: {:?}", other),
    }
}

#[test]
fn a_shared_child_is_resolved_once_and_observed_equally() {
    // A depends on B twice, C depends on B; drive both A and C
    let image = image_with(0x1000, vec![0x48]);
    let mut registry = Registry::new();
    registry.register(scan_resolver("B", 1, "48", Post::SelfAddress)).unwrap();
    registry
        .register(NamedResolver {
            name: "A".to_string(),
            id: 2,
            body: ResolverBody::TryCollect { children: vec![1, 1] },
        })
        .unwrap();
    registry
        .register(NamedResolver {
            name: "C".to_string(),
            id: 3,
            body: ResolverBody::TryCollect { children: vec![1] },
        })
        .unwrap();
    let results = resolve_many(&image, &registry, &vec![2, 3]);
    assert_eq!(results[0], Ok(ResolvedValue::Record(vec![shared_b(), shared_b()])));
    assert_eq!(results[1], Ok(ResolvedValue::Record(vec![shared_b()])));
}

#[test]
fn an_unknown_root_is_reported() {
    let image = image_with(0x1000, vec![0x48]);
    let registry = Registry::new();
    match resolve(&image, &registry, 42) {
        Err(ResolveError::Msg(m)) => assert_eq!(m, "unknown resolver"),
        other => panic!("unexpected result: {:?}", other),
    }
}

#[test]
fn a_resolver_depending_on_itself_deadlocks() {
    let image = image_with(0x1000, vec![0x48]);
    let mut registry = Registry::new();
    registry
        .register(NamedResolver {
            name: "Ouroboros".to_string(),
            id: 1,
            body: ResolverBody::TryCollect { children: vec![1] },
        })
        .unwrap();
    match resolve(&image, &registry, 1) {
        Err(ResolveError::Msg(m)) => assert_eq!(m, "executor deadlock"),
        other => panic!("unexpected result: {:?}", other),
    }
}

#[test]
fn registration_refuses_a_second_resolver_with_one_identity() {
    let mut registry = Registry::new();
    registry.register(scan_resolver("A", 1, "48", Post::SelfAddress)).unwrap();
    match registry.register(scan_resolver("B", 1, "49", Post::SelfAddress)) {
        Err(ResolveError::Msg(m)) => {
            assert_eq!(m, "a resolver with this identity is already registered")
        }
        other => panic!("unexpected result: {:?}", other),
    }
    assert_eq!(registry.resolvers().len(), 1);
    assert_eq!(registry.resolvers()[0].name, "A");
}

#[test]
fn the_registry_enumerates_each_resolver_once() {
    let mut registry = Registry::new();
    registry.register(scan_resolver("A", 1, "48", Post::SelfAddress)).unwrap();
    registry.register(scan_resolver("B", 2, "49", Post::SelfAddress)).unwrap();
    registry.register(scan_resolver("C", 3, "4A", Post::Count)).unwrap();
    let names: Vec<&str> = registry.resolvers().iter().map(|r| r.name.as_str()).collect();
    assert_eq!(names, vec!["A", "B", "C"]);
    for a in 0..registry.resolvers().len() {
        for b in 0..registry.resolvers().len() {
            if a != b {
                assert_ne!(registry.resolvers()[a].id, registry.resolvers()[b].id);
            }
        }
    }
}

#[test]
fn function_post_resolves_to_the_unwind_root() {
    let image = Image {
        memory: Memory { sections: vec![Section { address: 0x1000, data: vec![0x48] }] },
        functions: vec![Function {
            range: AddressRange { start: 0xF00, end: 0x2000 },
            unwind_root: 0xF00,
        }],
    };
    let mut registry = Registry::new();
    registry.register(scan_resolver("Fn", 1, "48", Post::Function)).unwrap();
    assert_eq!(
        resolve(&image, &registry, 1),
        Ok(ResolvedValue::Value(ResolutionType::Address(0xF00)))
    );
}

#[test]
fn a_multi_pattern_resolver_merges_matches_in_pattern_order() {
    let image = image_with(0x1000, vec![0x48, 0x48]);
    let mut registry = Registry::new();
    registry
        .register(NamedResolver {
            name: "Merged".to_string(),
            id: 1,
            body: ResolverBody::Scan {
                patterns: vec![Pattern::new("48 48").unwrap(), Pattern::new("FF").unwrap()],
                post: Post::Count,
            },
        })
        .unwrap();
    assert_eq!(
        resolve(&image, &registry, 1),
        Ok(ResolvedValue::Value(ResolutionType::Count(1)))
    );
}

#[test]
fn the_same_root_listed_twice_gets_equal_results() {
    let image = image_with(0x1000, vec![0x48]);
    let mut registry = Registry::new();
    registry.register(scan_resolver("Sig", 1, "48", Post::SelfAddress)).unwrap();
    let results = resolve_many(&image, &registry, &vec![1, 1]);
    assert_eq!(results.len(), 2);
    assert_eq!(results[0], Ok(ResolvedValue::Value(ResolutionType::Address(0x1000))));
    assert_eq!(results[0], results[1]);
}

#[test]
fn a_collector_may_collect_another_collector() {
    let image = image_with(0x1000, vec![0x48, 0x89]);
    let mut registry = Registry::new();
    registry.register(scan_resolver("A", 1, "48", Post::SelfAddress)).unwrap();
    registry.register(scan_resolver("B", 2, "89", Post::SelfAddress)).unwrap();
    registry
        .register(NamedResolver {
            name: "Inner".to_string(),
            id: 3,
            body: ResolverBody::TryCollect { children: vec![1, 2] },
        })
        .unwrap();
    registry
        .register(NamedResolver {
            name: "Outer".to_string(),
            id: 4,
            body: ResolverBody::TryCollect { children: vec![3, 1] },
        })
        .unwrap();
    let r = resolve(&image, &registry, 4);
    assert_eq!(
        r,
        Ok(ResolvedValue::Record(vec![
            Ok(ResolvedValue::Record(vec![
                Ok(ResolvedValue::Value(ResolutionType::Address(0x1000))),
                Ok(ResolvedValue::Value(ResolutionType::Address(0x1001))),
            ])),
            Ok(ResolvedValue::Value(ResolutionType::Address(0x1000))),
        ]))
    );
}

#[test]
fn a_nested_child_error_propagates_through_collectors() {
    let image = image_with(0x1000, vec![0x48]);
    let mut registry = Registry::new();
    registry.register(scan_resolver("Missing", 1, "FF", Post::SelfAddress)).unwrap();
    registry
        .register(NamedResolver {
            name: "Inner".to_string(),
            id: 2,
            body: ResolverBody::TryCollect { children: vec![1] },
        })
        .unwrap();
    registry
        .register(NamedResolver {
            name: "Outer".to_string(),
            id: 3,
            body: ResolverBody::TryCollect { children: vec![2] },
        })
        .unwrap();
    match resolve(&image, &registry, 3) {
        Err(ResolveError::Msg(m)) => assert_eq!(m, "expected at least one value"),
        other => panic!("unexpected result: {:?}", other),
    }
}

#[test]
fn a_plain_collector_records_an_unknown_child_as_a_field_error() {
    let image = image_with(0x1000, vec![0x48]);
    let mut registry = Registry::new();
    registry.register(scan_resolver("A", 1, "48", Post::SelfAddress)).unwrap();
    registry
        .register(NamedResolver {
            name: "Both".to_string(),
            id: 3,
            body: ResolverBody::Collect { children: vec![1, 42] },
        })
        .unwrap();
    match resolve(&image, &registry, 3) {
        Ok(ResolvedValue::Record(fields)) => {
            assert_eq!(fields.len(), 2);
            assert_eq!(fields[0], Ok(ResolvedValue::Value(ResolutionType::Address(0x1000))));
            match &fields[1] {
                Err(ResolveError::Msg(m)) => assert_eq!(m, "unknown resolver"),
                other => panic!("unexpected field: {:?}", other),
            }
        }
        other => panic!("unexpected result: {:?}", other),
    }
}

#[test]
fn mutually_dependent_collectors_deadlock() {
    let image = image_with(0x1000, vec![0x48]);
    let mut registry = Registry::new();
    registry
        .register(NamedResolver {
            name: "A".to_string(),
            id: 1,
            body: ResolverBody::TryCollect { children: vec![2] },
        })
        .unwrap();
    registry
        .register(NamedResolver {
            name: "B".to_string(),
            id: 2,
            body: ResolverBody::Collect { children: vec![1] },
        })
        .unwrap();
    let results = resolve_many(&image, &registry, &vec![1, 2]);
    for r in results {
        match r {
            Err(ResolveError::Msg(m)) => assert_eq!(m, "executor deadlock"),
            other => panic!("unexpected result: {:?}", other),
        }
    }
}
