//! The names of the values of a function.

use vstd::prelude::*;

use rustc_hash::FxHashMap;

use crate::ast::local::{is_valid_identifier, text_of, Locals, RcLocal};
use crate::ast::name_locals;
use crate::cfg::ssa::capture_flow::older;
use crate::cfg::ssa::local_map;
use crate::cfg::ssa::local_map::resolve_local_map;
use crate::collections::entry_keys;
use crate::text::same_text;

verus! {

/// The name of a local, where it is an identifier.
pub open spec fn valid_name(names: Seq<Option<Seq<char>>>, id: u64) -> Option<Seq<char>> {
    name_locals::kept(false, Locals::name_in(names, RcLocal { id }))
}

/// The name that a local has, or else that of its older one.
pub open spec fn inherited(
    names: Seq<Option<Seq<char>>>,
    old: Map<u64, u64>,
    id: u64,
) -> Option<Seq<char>> {
    if names[id as int] is None && old.dom().contains(id) {
        valid_name(names, old[id])
    } else {
        names[id as int]
    }
}

/// The names, where locals without one have that of their older one.
pub open spec fn inherited_names(
    names: Seq<Option<Seq<char>>>,
    old: Map<u64, u64>,
) -> Seq<Option<Seq<char>>> {
    Seq::new(names.len(), |i: int| inherited(names, old, i as u64))
}

/// Whether a local that comes to stand for a target has a name.
pub open spec fn brings_name(
    names: Seq<Option<Seq<char>>>,
    map: Map<u64, u64>,
    target: u64,
    id: u64,
    name: Seq<char>,
) -> bool {
    map.dom().contains(id) && local_map::resolved(map, id) == target && valid_name(names, id)
        == Some(name)
}

/// Whether a name is that of a target, or of a local that comes to stand for
/// it.
pub open spec fn is_candidate(
    names: Seq<Option<Seq<char>>>,
    map: Map<u64, u64>,
    target: u64,
    name: Seq<char>,
) -> bool {
    valid_name(names, target) == Some(name) || exists|id: u64|
        brings_name(names, map, target, id, name)
}

/// Whether a name is the only one for a target.
pub open spec fn is_agreed(
    names: Seq<Option<Seq<char>>>,
    map: Map<u64, u64>,
    target: u64,
    name: Seq<char>,
) -> bool {
    &&& is_candidate(names, map, target, name)
    &&& forall|other: Seq<char>| is_candidate(names, map, target, other) ==> other == name
}

/// The only name for a target, where there is one.
pub open spec fn agreed_name(
    names: Seq<Option<Seq<char>>>,
    map: Map<u64, u64>,
    target: u64,
) -> Option<Seq<char>> {
    if exists|name: Seq<char>| is_agreed(names, map, target, name) {
        Some(choose|name: Seq<char>| is_agreed(names, map, target, name))
    } else {
        None
    }
}

/// Whether a local with a name comes to stand for a target.
pub open spec fn gains_name(
    names: Seq<Option<Seq<char>>>,
    map: Map<u64, u64>,
    target: u64,
) -> bool {
    exists|id: u64, name: Seq<char>| brings_name(names, map, target, id, name)
}

/// The names, where the locals that others come to stand for have the name that
/// these agree on.
pub open spec fn coalesced_names(
    names: Seq<Option<Seq<char>>>,
    map: Map<u64, u64>,
) -> Seq<Option<Seq<char>>> {
    Seq::new(
        names.len(),
        |i: int|
            if gains_name(names, map, i as u64) {
                agreed_name(names, map, i as u64)
            } else {
                names[i]
            },
    )
}

/// Maps that rename the same locals to the same ones give the same names.
pub proof fn lemma_names_alike(
    names: Seq<Option<Seq<char>>>,
    a: Map<u64, u64>,
    b: Map<u64, u64>,
)
    requires
        local_map::rename_alike(a, b),
    ensures
        coalesced_names(names, a) == coalesced_names(names, b),
{
    assert forall|target: u64, id: u64, name: Seq<char>| #[trigger]
        brings_name(names, a, target, id, name) == brings_name(names, b, target, id, name) by {
        assert(local_map::resolved(a, id) == local_map::resolved(b, id));
    }
    assert forall|target: u64, name: Seq<char>| #[trigger]
        is_candidate(names, a, target, name) == is_candidate(names, b, target, name) by {
        if exists|id: u64| brings_name(names, a, target, id, name) {
            let id = choose|id: u64| brings_name(names, a, target, id, name);
            assert(brings_name(names, b, target, id, name));
        }
        if exists|id: u64| brings_name(names, b, target, id, name) {
            let id = choose|id: u64| brings_name(names, b, target, id, name);
            assert(brings_name(names, a, target, id, name));
        }
    }
    assert forall|target: u64| #[trigger] agreed_name(names, a, target) == agreed_name(
        names,
        b,
        target,
    ) && gains_name(names, a, target) == gains_name(names, b, target) by {
        lemma_agreed_alike(names, a, b, target);
        lemma_agreed_alike(names, b, a, target);
    }
    assert(coalesced_names(names, a) =~= coalesced_names(names, b));
}

proof fn lemma_agreed_alike(
    names: Seq<Option<Seq<char>>>,
    a: Map<u64, u64>,
    b: Map<u64, u64>,
    target: u64,
)
    requires
        forall|target: u64, name: Seq<char>| #[trigger]
            is_candidate(names, a, target, name) == is_candidate(names, b, target, name),
        forall|target: u64, id: u64, name: Seq<char>| #[trigger]
            brings_name(names, a, target, id, name) == brings_name(names, b, target, id, name),
    ensures
        agreed_name(names, a, target) is Some ==> agreed_name(names, a, target) == agreed_name(
            names,
            b,
            target,
        ),
        gains_name(names, a, target) ==> gains_name(names, b, target),
{
    if exists|name: Seq<char>| is_agreed(names, a, target, name) {
        let name = choose|name: Seq<char>| is_agreed(names, a, target, name);
        assert(is_candidate(names, b, target, name));
        assert forall|other: Seq<char>| is_candidate(names, b, target, other) implies other
            == name by {
            assert(is_candidate(names, a, target, other));
        }
        assert(is_agreed(names, b, target, name));
        let other = choose|name: Seq<char>| is_agreed(names, b, target, name);
        assert(is_agreed(names, b, target, other));
        assert(other == name);
    }
    if gains_name(names, a, target) {
        let (id, name) = choose|id: u64, name: Seq<char>|
            brings_name(names, a, target, id, name);
        assert(brings_name(names, b, target, id, name));
    }
}

fn find_valid_name(locals: &Locals, id: u64) -> (name: Option<String>)
    ensures
        text_of(name) == valid_name(locals@, id),
{
    match locals.name(RcLocal { id }) {
        Some(name) => if is_valid_identifier(name.as_str().as_bytes()) {
            Some(name)
        } else {
            None
        },
        None => None,
    }
}

/// Gives locals without a name that of their older ones.
pub(crate) fn inherit_names(locals: &mut Locals, old_locals: &FxHashMap<u64, u64>)
    requires
        forall|id: u64| #[trigger]
            old_locals@.dom().contains(id) ==> id < old(locals)@.len()
                && !old_locals@.dom().contains(old_locals@[id]),
    ensures
        final(locals)@ == inherited_names(old(locals)@, old_locals@),
{
    let ghost names = locals@;
    let keys = entry_keys(old_locals);
    let mut at: usize = 0;
    while at < keys.len()
        invariant
            at <= keys@.len(),
            keys@.to_set() == old_locals@.dom(),
            keys@.no_duplicates(),
            forall|id: u64| #[trigger]
                old_locals@.dom().contains(id) ==> id < names.len()
                    && !old_locals@.dom().contains(old_locals@[id]),
            locals@.len() == names.len(),
            forall|i: int|
                0 <= i < at ==> locals@[#[trigger] keys@[i] as int] == inherited(
                    names,
                    old_locals@,
                    keys@[i],
                ),
            forall|i: int|
                at <= i < keys@.len() ==> locals@[#[trigger] keys@[i] as int]
                    == names[keys@[i] as int],
            forall|i: int|
                0 <= i < names.len() && !old_locals@.dom().contains(i as u64)
                    ==> #[trigger] locals@[i] == names[i],
        decreases keys.len() - at,
    {
        let key: u64 = keys[at];
        proof {
            assert(keys@.to_set().contains(key));
        }
        let ghost before = locals@;
        let original: u64 = older(old_locals, RcLocal { id: key });
        let name = locals.name(RcLocal { id: key });
        if name.is_none() {
            match find_valid_name(locals, original) {
                Some(name) => {
                    locals.set_name(RcLocal { id: key }, Some(name));
                },
                None => {},
            }
        }
        proof {
            assert(valid_name(before, original) == valid_name(names, original)) by {
                if original < names.len() {
                    assert(before[original as int] == names[original as int]);
                }
            }
            assert forall|i: int| 0 <= i < at + 1 implies locals@[#[trigger] keys@[i] as int]
                == inherited(names, old_locals@, keys@[i]) by {
                assert(keys@.to_set().contains(keys@[i]));
                if i < at {
                    assert(keys@[i] != keys@[at as int]);
                }
            }
            assert forall|i: int|
                at + 1 <= i < keys@.len() implies locals@[#[trigger] keys@[i] as int]
                == names[keys@[i] as int] by {
                assert(keys@.to_set().contains(keys@[i]));
                assert(keys@[i] != keys@[at as int]);
            }
        }
        at += 1;
    }
    let length: usize = locals.len();
    proof {
        assert(length == names.len());
        assert forall|i: int| 0 <= i < names.len() implies locals@[i] == inherited_names(
            names,
            old_locals@,
        )[i] by {
            if old_locals@.dom().contains(i as u64) {
                assert(keys@.to_set().contains(i as u64));
                let j = choose|j: int| 0 <= j < keys@.len() && keys@[j] == i as u64;
                assert(keys@[j] == i as u64);
            }
        }
        assert(locals@ =~= inherited_names(names, old_locals@));
    }
}

/// The names that the first `count` locals bring to a target agree, as far as
/// there are any, and are the one that was found.
spec fn agrees_so_far(
    names: Seq<Option<Seq<char>>>,
    map: Map<u64, u64>,
    keys: Seq<u64>,
    target: u64,
    count: int,
    found: Option<Seq<char>>,
) -> bool {
    &&& forall|name: Seq<char>| #[trigger]
        valid_name(names, target) == Some(name) ==> found == Some(name)
    &&& forall|i: int, name: Seq<char>|
        0 <= i < count && #[trigger] brings_name(names, map, target, keys[i], name) ==> found
            == Some(name)
    &&& found is Some ==> is_candidate(names, map, target, found->0)
}

/// The only name for a target, where there is one.
fn find_agreed_name(
    locals: &Locals,
    map: &FxHashMap<u64, u64>,
    keys: &Vec<u64>,
    target: u64,
) -> (agreed: Option<String>)
    requires
        local_map::ends_everywhere(map@),
        keys@.to_set() == map@.dom(),
    ensures
        text_of(agreed) == agreed_name(locals@, map@, target),
{
    let ghost names = locals@;
    let mut found = find_valid_name(locals, target);
    let mut at: usize = 0;
    while at < keys.len()
        invariant
            at <= keys@.len(),
            names == locals@,
            local_map::ends_everywhere(map@),
            keys@.to_set() == map@.dom(),
            agrees_so_far(names, map@, keys@, target, at as int, text_of(found)),
        decreases keys.len() - at,
    {
        let key: u64 = keys[at];
        proof {
            assert(keys@.to_set().contains(key));
        }
        let resolved = resolve_local_map(map, RcLocal { id: key });
        if resolved.id == target {
            match find_valid_name(locals, key) {
                Some(name) => {
                    proof {
                        assert(brings_name(names, map@, target, key, name@));
                        assert(is_candidate(names, map@, target, name@));
                    }
                    let differs = match &found {
                        Some(other) => !same_text(other, name.as_str()),
                        None => false,
                    };
                    if differs {
                        proof {
                            assert(is_candidate(names, map@, target, found->0@));
                            assert forall|only: Seq<char>| !is_agreed(
                                names,
                                map@,
                                target,
                                only,
                            ) by {
                                if is_agreed(names, map@, target, only) {
                                    assert(name@ == only && found->0@ == only);
                                }
                            }
                        }
                        return None;
                    }
                    found = Some(name);
                },
                None => {},
            }
        }
        at += 1;
    }
    proof {
        match text_of(found) {
            Some(name) => {
                assert forall|other: Seq<char>| is_candidate(
                    names,
                    map@,
                    target,
                    other,
                ) implies other == name by {
                    if valid_name(names, target) != Some(other) {
                        let id = choose|id: u64| brings_name(names, map@, target, id, other);
                        assert(keys@.to_set().contains(id));
                        let i = choose|i: int| 0 <= i < keys@.len() && keys@[i] == id;
                        assert(brings_name(names, map@, target, keys@[i], other));
                    }
                }
                assert(is_agreed(names, map@, target, name));
                let only = choose|only: Seq<char>| is_agreed(names, map@, target, only);
                assert(is_agreed(names, map@, target, only));
                assert(only == name);
            },
            None => {
                assert forall|only: Seq<char>| !is_agreed(names, map@, target, only) by {
                    if is_candidate(names, map@, target, only) {
                        if valid_name(names, target) != Some(only) {
                            let id = choose|id: u64| brings_name(names, map@, target, id, only);
                            assert(keys@.to_set().contains(id));
                            let i = choose|i: int| 0 <= i < keys@.len() && keys@[i] == id;
                            assert(brings_name(names, map@, target, keys@[i], only));
                        }
                    }
                }
            },
        }
    }
    found
}

/// Gives the locals that others come to stand for the name that these agree on.
pub(crate) fn coalesce_names(locals: &mut Locals, map: &FxHashMap<u64, u64>)
    requires
        local_map::ends_everywhere(map@),
        forall|id: u64| #[trigger]
            map@.dom().contains(id) ==> local_map::resolved(map@, id) < old(locals)@.len(),
    ensures
        final(locals)@ == coalesced_names(old(locals)@, map@),
{
    let ghost names = locals@;
    let ghost whole = coalesced_names(names, map@);
    let keys = entry_keys(map);
    let mut given: Vec<(u64, Option<String>)> = Vec::new();
    let mut at: usize = 0;
    while at < keys.len()
        invariant
            at <= keys@.len(),
            names == locals@,
            local_map::ends_everywhere(map@),
            keys@.to_set() == map@.dom(),
            forall|id: u64| #[trigger]
                map@.dom().contains(id) ==> local_map::resolved(map@, id) < names.len(),
            forall|i: int|
                0 <= i < given@.len() ==> (#[trigger] given@[i]).0 < names.len() && gains_name(
                    names,
                    map@,
                    given@[i].0,
                ) && text_of(given@[i].1) == agreed_name(names, map@, given@[i].0),
            forall|i: int, name: Seq<char>|
                0 <= i < at && #[trigger] brings_name(
                    names,
                    map@,
                    local_map::resolved(map@, keys@[i]),
                    keys@[i],
                    name,
                ) ==> exists|g: int|
                    0 <= g < given@.len() && (#[trigger] given@[g]).0 == local_map::resolved(
                        map@,
                        keys@[i],
                    ),
        decreases keys.len() - at,
    {
        let key: u64 = keys[at];
        proof {
            assert(keys@.to_set().contains(key));
        }
        let ghost before = given@;
        let target = resolve_local_map(map, RcLocal { id: key });
        match find_valid_name(locals, key) {
            Some(name) => {
                proof {
                    assert(brings_name(names, map@, target.id, key, name@));
                }
                let agreed = find_agreed_name(locals, map, &keys, target.id);
                given.push((target.id, agreed));
                proof {
                    assert(given@[before.len() as int].0 == target.id);
                }
            },
            None => {},
        }
        proof {
            assert forall|i: int, name: Seq<char>|
                0 <= i < at + 1 && #[trigger] brings_name(
                    names,
                    map@,
                    local_map::resolved(map@, keys@[i]),
                    keys@[i],
                    name,
                ) implies exists|g: int|
                0 <= g < given@.len() && (#[trigger] given@[g]).0 == local_map::resolved(
                    map@,
                    keys@[i],
                ) by {
                if i < at {
                    let g = choose|g: int|
                        0 <= g < before.len() && (#[trigger] before[g]).0 == local_map::resolved(
                            map@,
                            keys@[i],
                        );
                    assert(given@[g] == before[g]);
                }
            }
        }
        at += 1;
    }
    let ghost listed = given@;
    let count: usize = given.len();
    let length: usize = locals.len();
    let mut at: usize = 0;
    while at < count
        invariant
            at <= count == listed.len(),
            given@ == listed.skip(at as int),
            whole == coalesced_names(names, map@),
            locals@.len() == names.len() == length,
            forall|i: int|
                0 <= i < listed.len() ==> (#[trigger] listed[i]).0 < names.len() && gains_name(
                    names,
                    map@,
                    listed[i].0,
                ) && text_of(listed[i].1) == agreed_name(names, map@, listed[i].0),
            forall|i: int| 0 <= i < at ==> locals@[(#[trigger] listed[i]).0 as int]
                == whole[listed[i].0 as int],
            forall|i: int|
                0 <= i < names.len() ==> #[trigger] locals@[i] == names[i] || locals@[i]
                    == whole[i],
        decreases count - at,
    {
        let ghost before = locals@;
        let (target, name) = given.remove(0);
        proof {
            assert(listed[at as int] == (target, name));
            assert(given@ =~= listed.skip(at + 1));
        }
        locals.set_name(RcLocal { id: target }, name);
        at += 1;
    }
    proof {
        assert forall|i: int| 0 <= i < names.len() implies locals@[i] == whole[i] by {
            if gains_name(names, map@, i as u64) {
                let target = i as u64;
                let (id, name) = choose|id: u64, name: Seq<char>|
                    brings_name(names, map@, target, id, name);
                assert(keys@.to_set().contains(id));
                let k = choose|k: int| 0 <= k < keys@.len() && keys@[k] == id;
                assert(brings_name(
                    names,
                    map@,
                    local_map::resolved(map@, keys@[k]),
                    keys@[k],
                    name,
                ));
                let g = choose|g: int|
                    0 <= g < listed.len() && (#[trigger] listed[g]).0 == local_map::resolved(
                        map@,
                        keys@[k],
                    );
                assert(listed[g].0 == i as u64);
            }
        }
        assert(locals@ =~= whole);
    }
}

} // verus!
