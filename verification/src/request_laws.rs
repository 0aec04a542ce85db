//! Which files are searched for, and in which order.
use crate::ast::{AnyDirective, DtsFile, NodeItem, NodePayload, Primary, Property, PropertyValue};
use crate::finding_laws::{body_of, named_before_element, named_before_value};
use crate::place_laws::{named_before, payload_at, payload_of, property_at};
use crate::text::texts;
use crate::tree::{
    items_requests, load_requests, primaries_requests, primary_requests, value_requests,
    values_requests,
};
use std::sync::Arc;
use vstd::prelude::*;

verus! {

/// Whether a list stands in another at a place.
pub open spec fn stands_at<T>(whole: Seq<T>, part: Seq<T>, at: int) -> bool {
    &&& 0 <= at
    &&& at + part.len() <= whole.len()
    &&& forall|i: int| 0 <= i < part.len() ==> #[trigger] whole[at + i] == part[i]
}

proof fn lemma_stands_in_part<T>(whole: Seq<T>, middle: Seq<T>, part: Seq<T>, at: int, more: int)
    requires
        stands_at(whole, middle, at),
        stands_at(middle, part, more),
    ensures
        stands_at(whole, part, at + more),
{
    assert forall|i: int| 0 <= i < part.len() implies #[trigger] whole[at + more + i]
        == part[i] by {
        assert(whole[at + (more + i)] == middle[more + i]);
    }
}

proof fn lemma_value_stands(values: Seq<PropertyValue>, j: int)
    requires
        0 <= j < values.len(),
    ensures
        stands_at(
            values_requests(values),
            value_requests(values[j]),
            values_requests(values.take(j)).len() as int,
        ),
    decreases values.len(),
{
    let fewer = values.drop_last();
    if j < fewer.len() {
        lemma_value_stands(fewer, j);
        assert(fewer.take(j) =~= values.take(j));
        lemma_stands_in_part(
            values_requests(values),
            values_requests(fewer),
            value_requests(values[j]),
            0,
            values_requests(values.take(j)).len() as int,
        );
    } else {
        assert(values.take(j) =~= fewer);
    }
}

spec fn item_requests(item: NodeItem) -> Seq<Seq<char>> {
    match item {
        NodeItem::Property(property) => values_requests(property.values@),
        NodeItem::Node(node) => items_requests(node.payload.items@),
        _ => Seq::empty(),
    }
}

proof fn lemma_item_stands(items: Seq<NodeItem>, i: int)
    requires
        0 <= i < items.len(),
    ensures
        stands_at(
            items_requests(items),
            item_requests(items[i]),
            items_requests(items.take(i)).len() as int,
        ),
    decreases items.len(),
{
    let fewer = items.drop_last();
    if i < fewer.len() {
        lemma_item_stands(fewer, i);
        assert(fewer.take(i) =~= items.take(i));
        lemma_stands_in_part(
            items_requests(items),
            items_requests(fewer),
            item_requests(items[i]),
            0,
            items_requests(items.take(i)).len() as int,
        );
    } else {
        assert(items.take(i) =~= fewer);
    }
}

proof fn lemma_primary_stands(primaries: Seq<Primary>, k: int)
    requires
        0 <= k < primaries.len(),
    ensures
        stands_at(
            primaries_requests(primaries),
            primary_requests(primaries[k]),
            primaries_requests(primaries.take(k)).len() as int,
        ),
    decreases primaries.len(),
{
    let fewer = primaries.drop_last();
    if k < fewer.len() {
        lemma_primary_stands(fewer, k);
        assert(fewer.take(k) =~= primaries.take(k));
        lemma_stands_in_part(
            primaries_requests(primaries),
            primaries_requests(fewer),
            primary_requests(primaries[k]),
            0,
            primaries_requests(primaries.take(k)).len() as int,
        );
    } else {
        assert(primaries.take(k) =~= fewer);
    }
}

proof fn lemma_inner_stands(payload: NodePayload, places: Seq<int>, count: int)
    requires
        payload_at(payload, places) is Some,
    ensures
        stands_at(
            items_requests(payload.items@),
            items_requests((payload_at(payload, places)->0).items@),
            named_before(count, payload, places) - count,
        ),
    decreases places.len(),
{
    if places.len() > 0 {
        let at = items_requests(payload.items@.take(places[0])).len() as int;
        if let NodeItem::Node(node) = payload.items@[places[0]] {
            lemma_item_stands(payload.items@, places[0]);
            lemma_inner_stands(payload_of(node), places.skip(1), count + at);
            lemma_stands_in_part(
                items_requests(payload.items@),
                items_requests(node.payload.items@),
                items_requests((payload_at(payload, places)->0).items@),
                at,
                named_before(count + at, payload_of(node), places.skip(1)) - (count + at),
            );
        }
    }
}

/// The file that each inclusion and each value names is searched for, under its name, in the
/// order in which they are written.
pub proof fn lemma_named_is_requested(
    file: &DtsFile,
    r: Vec<String>,
    k: int,
    places: Seq<int>,
    i: int,
    j: int,
)
    requires
        call_ensures(load_requests, (file,), r),
        0 <= k < file.elements@.len(),
    ensures
        file.elements@[k] matches Primary::Directive(AnyDirective::Include(inclusion)) ==> {
            let n = named_before_element(file.elements@, k);
            0 <= n < r@.len() && r@[n]@ == inclusion.file_name.item@
        },
        body_of(file.elements@[k]) matches Some(body) ==> (property_at(
            body,
            places,
            i,
        ) matches Some(property) ==> (0 <= j < property.values@.len() ==> (
        property.values@[j] matches PropertyValue::Incbin(_, inclusion, _) ==> {
            let n = named_before_value(file.elements@, k, places, i, j);
            0 <= n < r@.len() && r@[n]@ == inclusion.file_name.item@
        }))),
{
    let primaries = file.elements@;
    let all = primaries_requests(primaries);
    let at = named_before_element(primaries, k);
    lemma_primary_stands(primaries, k);
    assert forall|n: int| 0 <= n < r@.len() implies (#[trigger] r@[n])@ == all[n] by {
        assert(texts(r@)[n] == r@[n]@);
    }
    assert(r@.len() == all.len()) by {
        assert(texts(r@).len() == r@.len());
    }
    if let Primary::Directive(AnyDirective::Include(inclusion)) = primaries[k] {
        assert(all[at + 0] == primary_requests(primaries[k])[0]);
    }
    if let Some(body) = body_of(primaries[k]) {
        if let Some(property) = property_at(body, places, i) {
            if 0 <= j < property.values@.len() {
                let inner = payload_at(body, places)->0;
                let into = named_before(at, body, places) - at;
                let item_at = items_requests(inner.items@.take(i)).len() as int;
                let value_at = values_requests(property.values@.take(j)).len() as int;
                lemma_inner_stands(body, places, at);
                lemma_stands_in_part(
                    all,
                    items_requests(body.items@),
                    items_requests(inner.items@),
                    at,
                    into,
                );
                lemma_item_stands(inner.items@, i);
                lemma_stands_in_part(
                    all,
                    items_requests(inner.items@),
                    values_requests(property.values@),
                    at + into,
                    item_at,
                );
                lemma_value_stands(property.values@, j);
                lemma_stands_in_part(
                    all,
                    values_requests(property.values@),
                    value_requests(property.values@[j]),
                    at + into + item_at,
                    value_at,
                );
                if let PropertyValue::Incbin(_, inclusion, _) = property.values@[j] {
                    assert(all[at + into + item_at + value_at + 0] == value_requests(
                        property.values@[j],
                    )[0]);
                }
            }
        }
    }
}

/// Whether the name at `n` of those that are searched for is that of the inclusion at `k`.
pub open spec fn is_request_of_element(primaries: Seq<Primary>, n: int, k: int) -> bool {
    &&& 0 <= k < primaries.len()
    &&& primaries[k] is Directive
    &&& primaries[k] matches Primary::Directive(AnyDirective::Include(_))
    &&& n == named_before_element(primaries, k)
}

/// Whether the name at `n` of those that are searched for is that of a value in the element
/// at `k`.
pub open spec fn is_request_of_value(
    primaries: Seq<Primary>,
    n: int,
    k: int,
    places: Seq<int>,
    i: int,
    j: int,
) -> bool {
    &&& 0 <= k < primaries.len()
    &&& body_of(primaries[k]) matches Some(body)
    &&& property_at(body, places, i) matches Some(property)
    &&& 0 <= j < property.values@.len()
    &&& property.values@[j] is Incbin
    &&& n == named_before_value(primaries, k, places, i, j)
}

proof fn lemma_some_value_requests(values: Seq<PropertyValue>, n: int) -> (j: int)
    requires
        0 <= n < values_requests(values).len(),
    ensures
        0 <= j < values.len(),
        values[j] is Incbin,
        n == values_requests(values.take(j)).len(),
    decreases values.len(),
{
    let fewer = values.drop_last();
    if n < values_requests(fewer).len() {
        let j = lemma_some_value_requests(fewer, n);
        assert(fewer.take(j) =~= values.take(j));
        j
    } else {
        assert(values.take(values.len() - 1) =~= fewer);
        values.len() - 1
    }
}

proof fn lemma_some_item_requests(items: Seq<NodeItem>, n: int) -> (i: int)
    requires
        0 <= n < items_requests(items).len(),
    ensures
        0 <= i < items.len(),
        items_requests(items.take(i)).len() <= n < items_requests(items.take(i)).len()
            + item_requests(items[i]).len(),
    decreases items.len(),
{
    let fewer = items.drop_last();
    if n < items_requests(fewer).len() {
        let i = lemma_some_item_requests(fewer, n);
        assert(fewer.take(i) =~= items.take(i));
        i
    } else {
        assert(items.take(items.len() - 1) =~= fewer);
        items.len() - 1
    }
}

proof fn lemma_some_primary_requests(primaries: Seq<Primary>, n: int) -> (k: int)
    requires
        0 <= n < primaries_requests(primaries).len(),
    ensures
        0 <= k < primaries.len(),
        primaries_requests(primaries.take(k)).len() <= n < primaries_requests(
            primaries.take(k),
        ).len() + primary_requests(primaries[k]).len(),
    decreases primaries.len(),
{
    let fewer = primaries.drop_last();
    if n < primaries_requests(fewer).len() {
        let k = lemma_some_primary_requests(fewer, n);
        assert(fewer.take(k) =~= primaries.take(k));
        k
    } else {
        assert(primaries.take(primaries.len() - 1) =~= fewer);
        primaries.len() - 1
    }
}

proof fn lemma_some_inner_requests(payload: NodePayload, count: int, n: int) -> (r: (
    Seq<int>,
    int,
    int,
))
    requires
        count <= n < count + items_requests(payload.items@).len(),
    ensures
        property_at(payload, r.0, r.1) matches Some(property) && 0 <= r.2 < property.values@.len()
            && property.values@[r.2] is Incbin && n == named_before(count, payload, r.0)
            + items_requests((payload_at(payload, r.0)->0).items@.take(r.1)).len()
            + values_requests(property.values@.take(r.2)).len(),
    decreases payload,
{
    let i = lemma_some_item_requests(payload.items@, n - count);
    let here = count + items_requests(payload.items@.take(i)).len();
    match payload.items@[i] {
        NodeItem::Property(property) => {
            let j = lemma_some_value_requests(property.values@, n - here);
            (Seq::empty(), i, j)
        },
        NodeItem::Node(node) => {
            let below = lemma_some_inner_requests(payload_of(node), here, n);
            let places = seq![i] + below.0;
            assert(places.skip(1) =~= below.0);
            (places, below.1, below.2)
        },
        _ => (Seq::empty(), 0, 0),
    }
}

/// Each file that is searched for is named by an inclusion or by a value.
pub proof fn lemma_requested_is_named(file: &DtsFile, r: Vec<String>, n: int)
    requires
        call_ensures(load_requests, (file,), r),
        0 <= n < r@.len(),
    ensures
        (exists|k: int| #[trigger] is_request_of_element(file.elements@, n, k)) || (exists|
            k: int,
            places: Seq<int>,
            i: int,
            j: int,
        | #[trigger]
            is_request_of_value(file.elements@, n, k, places, i, j)),
{
    let primaries = file.elements@;
    assert(texts(r@).len() == r@.len());
    let k = lemma_some_primary_requests(primaries, n);
    match body_of(primaries[k]) {
        Some(body) => {
            let (places, i, j) = lemma_some_inner_requests(
                body,
                named_before_element(primaries, k),
                n,
            );
            assert(is_request_of_value(primaries, n, k, places, i, j));
        },
        None => {
            assert(is_request_of_element(primaries, n, k));
        },
    }
}

} // verus!
