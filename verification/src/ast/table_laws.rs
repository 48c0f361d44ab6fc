//! That tables are written with every field that can be seen.

use vstd::prelude::*;

use crate::ast::nodes::RValueView;

verus! {

/// Whether a field can be seen: its key is computed, or computing its value can
/// be observed, or no later field has the same constant key.
pub open spec fn is_seen(fields: Seq<(Option<RValueView>, RValueView)>, i: int) -> bool {
    ||| fields[i].1.has_side_effects()
    ||| match fields[i].0 {
        Some(RValueView::Literal(key)) => forall|j: int|
            i < j < fields.len() ==> match (#[trigger] fields[j]).0 {
                Some(RValueView::Literal(other)) => !other.equals(key),
                _ => true,
            },
        _ => true,
    }
}

proof fn lemma_kept(fields: Seq<(Option<RValueView>, RValueView)>, from: int, i: int) -> (at: int)
    requires
        0 <= from <= i < fields.len(),
        is_seen(fields, i),
    ensures
        0 <= at < RValueView::unshadowed_from(fields, from).len(),
        RValueView::unshadowed_from(fields, from)[at] == fields[i],
    decreases i - from,
{
    let made = RValueView::unshadowed_from(fields, from);
    let rest = RValueView::unshadowed_from(fields, from + 1);
    if from == i {
        assert(!RValueView::is_shadowed(fields, i)) by {
            if let Some(RValueView::Literal(key)) = fields[i].0 {
                if RValueView::is_shadowed(fields, i) {
                    let j = choose|j: int|
                        i < j < fields.len() && RValueView::has_literal_key(
                            #[trigger] fields[j],
                            key,
                        );
                    assert(fields[j].0 is Some);
                }
            }
        }
        assert(made[0] == fields[i]);
        0
    } else {
        let at = lemma_kept(fields, from + 1, i);
        if RValueView::is_shadowed(fields, from) {
            at
        } else {
            assert(made[at + 1] == rest[at]);
            at + 1
        }
    }
}

/// Every field of a table that can be seen is written.
pub proof fn seen_fields_are_written(fields: Seq<(Option<RValueView>, RValueView)>, i: int)
    requires
        0 <= i < fields.len(),
        is_seen(fields, i),
    ensures
        RValueView::unshadowed(fields).contains(fields[i]),
{
    let at = lemma_kept(fields, 0, i);
    assert(RValueView::unshadowed(fields)[at] == fields[i]);
}

/// Where fields stand in a table that are written at other places.
pub open spec fn are_places(
    fields: Seq<(Option<RValueView>, RValueView)>,
    written: Seq<(Option<RValueView>, RValueView)>,
    places: Seq<int>,
    from: int,
) -> bool {
    &&& places.len() == written.len()
    &&& forall|k: int|
        0 <= k < places.len() ==> from <= #[trigger] places[k] < fields.len() && written[k]
            == fields[places[k]]
    &&& forall|k: int, l: int| 0 <= k < l < places.len() ==> places[k] < places[l]
}

proof fn lemma_places(fields: Seq<(Option<RValueView>, RValueView)>, from: int) -> (places: Seq<int>)
    requires
        0 <= from <= fields.len(),
    ensures
        are_places(fields, RValueView::unshadowed_from(fields, from), places, from),
        forall|k: int|
            0 <= k < places.len() ==> !RValueView::is_shadowed(fields, #[trigger] places[k]),
    decreases fields.len() - from,
{
    if from < fields.len() {
        let rest = lemma_places(fields, from + 1);
        if RValueView::is_shadowed(fields, from) {
            rest
        } else {
            let places = seq![from] + rest;
            assert forall|k: int| 0 < k < places.len() implies places[k] == rest[k - 1] by {}
            places
        }
    } else {
        Seq::empty()
    }
}

/// What is written of a table are fields of it, in their order, and none that
/// a later field with the same constant key hides.
pub proof fn written_fields_are_seen(fields: Seq<(Option<RValueView>, RValueView)>) -> (places: Seq<
    int,
>)
    ensures
        are_places(fields, RValueView::unshadowed(fields), places, 0),
        forall|k: int| 0 <= k < places.len() ==> is_seen(fields, #[trigger] places[k]),
{
    let places = lemma_places(fields, 0);
    assert forall|k: int| 0 <= k < places.len() implies is_seen(fields, #[trigger] places[k]) by {
        let i = places[k];
        assert(!RValueView::is_shadowed(fields, i));
        if let Some(RValueView::Literal(key)) = fields[i].0 {
            if !fields[i].1.has_side_effects() {
                assert forall|j: int| i < j < fields.len() implies match (#[trigger] fields[j]).0 {
                    Some(RValueView::Literal(other)) => !other.equals(key),
                    _ => true,
                } by {
                    assert(!RValueView::has_literal_key(fields[j], key));
                }
            }
        }
    }
    places
}

} // verus!
