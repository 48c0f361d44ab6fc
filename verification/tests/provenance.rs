//! Where locals come from.

use medal::cfg::provenance::{
    BindingIdentity, BindingSet, CaptureOrigin, DebugLifetime, OriginSet, Provenance,
    RegisterFamily, SourceOrigin,
};
use medal::ast::{Local, Locals, RcLocal};

#[test]
fn reused_register_definitions_keep_disjoint_debug_lifetimes() {
    let family = RegisterFamily::new(
        3,
        2,
        BindingIdentity::local(3, 2),
        vec![
            DebugLifetime::new(b"first".to_vec(), 1, 4),
            DebugLifetime::new(b"second".to_vec(), 7, 11),
        ],
    );

    let first = family.definition_origin(SourceOrigin::new(3, 2, Some(18), "LOADN"));
    let second = family.definition_origin(SourceOrigin::new(3, 8, Some(24), "LOADK"));

    assert_eq!(first.debug_lifetime.unwrap().name, b"first");
    assert_eq!(second.debug_lifetime.unwrap().name, b"second");
    assert_eq!(family.debug_name_at(5), None);
}

#[test]
fn merge_retains_every_contributing_origin_and_binding() {
    let mut locals = Locals::new();
    let first = RcLocal::new(&mut locals, Local::new(Some("first".to_owned())));
    let second = RcLocal::new(&mut locals, Local::new(Some("second".to_owned())));
    let merged = RcLocal::new(&mut locals, Local::new(None));
    let mut provenance = Provenance::default();

    provenance.record_definition(
        first.clone(),
        BindingIdentity::local(0, 1),
        SourceOrigin::new(0, 4, Some(8), "LOADN"),
    );
    provenance.record_definition(
        second.clone(),
        BindingIdentity::local(0, 1),
        SourceOrigin::new(0, 9, Some(12), "LOADK"),
    );
    provenance.merge_locals(
        merged.clone(),
        BindingIdentity::local(0, 1),
        &vec![first, second],
    );

    assert_eq!(provenance.origins(merged).len(), 2);
    assert_eq!(
        provenance.binding(merged),
        Some(&BindingIdentity::local(0, 1))
    );
}

#[test]
fn origins_are_listed_in_ascending_order() {
    let plain = SourceOrigin::new(0, 4, None, "MOVE");
    let mut later = plain.clone();
    later.register_family = Some(2);
    let mut named = plain.clone();
    named.debug_lifetime = Some(DebugLifetime::new(b"x".to_vec(), 1, 9));
    let mut captured = plain.clone();
    captured.capture = Some(CaptureOrigin {
        closure_function_id: 1,
        capture_index: 0,
    });
    let origins = vec![
        SourceOrigin::new(1, 0, None, "MOVE"),
        SourceOrigin::new(0, 4, Some(0), "ADD"),
        SourceOrigin::new(0, 4, None, "MOVEK"),
        plain.clone(),
        later,
        captured,
        named,
        SourceOrigin::new(0, 3, Some(9), "MOVE"),
        plain,
        SourceOrigin::new(0, 4, None, "\u{e9}"),
        SourceOrigin::new(0, 4, None, ""),
    ];
    let mut set = OriginSet::new();
    for origin in &origins {
        set.insert(origin.clone());
    }
    let mut sorted = origins;
    sorted.sort();
    sorted.dedup();

    assert_eq!(set.len(), sorted.len());
    for (index, origin) in sorted.iter().enumerate() {
        assert_eq!(set.get(index), origin);
    }
}

#[test]
fn bindings_are_listed_in_ascending_order() {
    let bindings = vec![
        BindingIdentity::Member(b"a".to_vec()),
        BindingIdentity::Global(b"ab".to_vec()),
        BindingIdentity::Global(b"b".to_vec()),
        BindingIdentity::Global(b"a".to_vec()),
        BindingIdentity::Import(b"a".to_vec()),
        BindingIdentity::Upvalue {
            function_id: 0,
            index: 3,
        },
        BindingIdentity::parameter(2, 1),
        BindingIdentity::parameter(1, 2),
        BindingIdentity::SyntheticLocal {
            function_id: 0,
            sequence: 1,
        },
        BindingIdentity::Local {
            function_id: 0,
            register: 1,
            lifetime: Some((2, 5)),
        },
        BindingIdentity::Local {
            function_id: 0,
            register: 1,
            lifetime: Some((2, 4)),
        },
        BindingIdentity::local(0, 1),
        BindingIdentity::local(0, 1),
    ];
    let mut set = BindingSet::new();
    for binding in &bindings {
        set.insert(binding.clone());
    }
    let mut sorted = bindings;
    sorted.sort();
    sorted.dedup();

    assert_eq!(set.len(), sorted.len());
    for (index, binding) in sorted.iter().enumerate() {
        assert_eq!(set.get(index), binding);
    }
}
