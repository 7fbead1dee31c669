//! Page-level laws of the format, stated and proved over the model in
//! [`crate::format`].

use crate::format::{
    can_insert, encode_tuple, fields_fit, fresh_page, high_water, insert_spec, lemma_fresh_page,
    lemma_insert, lemma_parse_slots_some, page_wf, parse_page, parse_tuple, slot_at, slot_count,
    slot_wf, slots_disjoint, tuple_end, FieldV, MAX_PAGE_BYTES,
};
use vstd::prelude::*;

verus! {

/// The page reached by a run of inserts, applied in order.
pub open spec fn insert_all(b: Seq<u8>, tss: Seq<Seq<FieldV>>) -> Seq<u8>
    decreases tss.len(),
{
    if tss.len() == 0 {
        b
    } else {
        insert_all(insert_spec(b, tss[0]), tss.drop_first())
    }
}

/// Every insert of the run is representable and finds room when its turn
/// comes.
pub open spec fn can_insert_all(b: Seq<u8>, tss: Seq<Seq<FieldV>>) -> bool
    decreases tss.len(),
{
    tss.len() == 0 || {
        &&& fields_fit(tss[0])
        &&& can_insert(b, encode_tuple(tss[0]).len() as int)
        &&& can_insert_all(insert_spec(b, tss[0]), tss.drop_first())
    }
}

/// Round-trip: one tuple written into a page is exactly what parsing the
/// page appends to the rows already there; into a fresh page, it is the
/// single row present.
pub proof fn lemma_round_trip(size: int, fs: Seq<FieldV>)
    requires
        6 <= size <= MAX_PAGE_BYTES,
        fields_fit(fs),
        can_insert(fresh_page(size), encode_tuple(fs).len() as int),
    ensures
        parse_page(insert_spec(fresh_page(size), fs)) == Some(seq![fs]),
{
    lemma_fresh_page(size);
    lemma_insert(fresh_page(size), fs);
    assert(Seq::<Seq<FieldV>>::empty().push(fs) =~= seq![fs]);
}

/// Append-order preservation: a run of successful inserts appends its
/// tuples to the parsed rows in exactly the order they were written, and
/// keeps the page well formed.
pub proof fn lemma_append_order(b: Seq<u8>, tss: Seq<Seq<FieldV>>)
    requires
        page_wf(b),
        can_insert_all(b, tss),
    ensures
        parse_page(b) is Some,
        page_wf(insert_all(b, tss)),
        parse_page(insert_all(b, tss)) == Some(parse_page(b).unwrap() + tss),
    decreases tss.len(),
{
    if tss.len() == 0 {
        assert forall|j: int| 0 <= j < slot_count(b) implies parse_tuple(
            b,
            slot_at(b, j) as int,
        ) is Some by {
            assert(slot_wf(b, j));
        }
        lemma_parse_slots_some(b, slot_count(b));
        assert(parse_page(b).unwrap() + tss =~= parse_page(b).unwrap());
    } else {
        lemma_insert(b, tss[0]);
        lemma_append_order(insert_spec(b, tss[0]), tss.drop_first());
        assert(parse_page(b).unwrap().push(tss[0]) + tss.drop_first() =~= parse_page(b).unwrap()
            + tss);
    }
}

/// Disjointness: in a well-formed page — fresh, or reached by any run of
/// successful inserts — the slot directory never overlaps the tuple data
/// region, and no two tuples' byte extents overlap.
pub proof fn lemma_disjoint(b: Seq<u8>, k1: int, k2: int)
    requires
        page_wf(b),
        0 <= k1 < k2 < slot_count(b),
    ensures
        6 + 2 * slot_count(b) <= high_water(b),
        high_water(b) <= slot_at(b, k1),
        high_water(b) <= slot_at(b, k2),
        tuple_end(b, slot_at(b, k1) as int) <= slot_at(b, k2)
            || tuple_end(b, slot_at(b, k2) as int) <= slot_at(b, k1),
{
    assert(slot_wf(b, k1));
    assert(slot_wf(b, k2));
    assert(slots_disjoint(b, k1, k2));
}

} // verus!
