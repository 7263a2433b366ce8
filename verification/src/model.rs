//! The store as mathematics: a sequence of records in insertion order, and
//! what each operation makes of it.
//!
//! Nothing here assumes that guids are distinct. An update may change the
//! guid of the record it replaces, so the definitions say what happens on
//! every sequence: a lookup and an update act on the first record with the
//! guid, a removal on all of them.

use vstd::prelude::*;

use crate::customer::CustomerView;

verus! {

/// Some record of `records` has the guid `guid`.
pub open spec fn contains(records: Seq<CustomerView>, guid: Seq<char>) -> bool {
    exists|i: int| 0 <= i < records.len() && (#[trigger] records[i]).guid == guid
}

/// The record at `i` has the guid `guid`, and none before it has.
pub open spec fn is_first(records: Seq<CustomerView>, guid: Seq<char>, i: int) -> bool {
    &&& 0 <= i < records.len()
    &&& records[i].guid == guid
    &&& forall|j: int| 0 <= j < i ==> (#[trigger] records[j]).guid != guid
}

/// The record at `i` has the guid `guid`, and no other record has.
pub open spec fn is_only(records: Seq<CustomerView>, guid: Seq<char>, i: int) -> bool {
    &&& 0 <= i < records.len()
    &&& records[i].guid == guid
    &&& forall|j: int| 0 <= j < records.len() && j != i ==> (#[trigger] records[j]).guid != guid
}

/// Where the first record with the guid `guid` stands. Meaningful only
/// when `contains(records, guid)`.
pub open spec fn first_index(records: Seq<CustomerView>, guid: Seq<char>) -> int {
    choose|i: int| is_first(records, guid, i)
}

/// No two records share a guid.
pub open spec fn distinct(records: Seq<CustomerView>) -> bool {
    forall|i: int, j: int|
        0 <= i < j < records.len() ==> (#[trigger] records[i]).guid != (#[trigger] records[j]).guid
}

/// The first record with the guid `guid`, if there is one.
pub open spec fn lookup(records: Seq<CustomerView>, guid: Seq<char>) -> Option<CustomerView> {
    if contains(records, guid) {
        Some(records[first_index(records, guid)])
    } else {
        None
    }
}

/// The records after an attempt to add `customer`: appended at the end,
/// unless its guid is taken, in which case nothing changes.
pub open spec fn inserted(
    records: Seq<CustomerView>,
    customer: CustomerView,
) -> Seq<CustomerView> {
    if contains(records, customer.guid) {
        records
    } else {
        records.push(customer)
    }
}

/// The records after an attempt to replace the record named `guid` by
/// `customer`: the first record with that guid gives way to `customer`, in
/// place; with no such record nothing changes.
pub open spec fn replaced(
    records: Seq<CustomerView>,
    guid: Seq<char>,
    customer: CustomerView,
) -> Seq<CustomerView> {
    if contains(records, guid) {
        records.update(first_index(records, guid), customer)
    } else {
        records
    }
}

/// The records after removing every record with the guid `guid`; the others
/// keep their order.
pub open spec fn removed(records: Seq<CustomerView>, guid: Seq<char>) -> Seq<CustomerView> {
    records.filter(|record: CustomerView| record.guid != guid)
}

/// An update of the record named `guid` by `customer` would go through
/// and leave two records with one guid: `customer` brings a guid other than
/// `guid`, and a record has it already.
pub open spec fn clashes(
    records: Seq<CustomerView>,
    guid: Seq<char>,
    customer: CustomerView,
) -> bool {
    &&& contains(records, guid)
    &&& customer.guid != guid
    &&& contains(records, customer.guid)
}

/// A sequence has one first record with a given guid at most: if `i` is
/// such a position, it is `first_index`.
pub proof fn lemma_first_index_is(records: Seq<CustomerView>, guid: Seq<char>, i: int)
    requires
        is_first(records, guid, i),
    ensures
        contains(records, guid),
        first_index(records, guid) == i,
{
    let k: int = first_index(records, guid);
    assert(is_first(records, guid, k));
    if k < i {
        assert(records[k].guid != guid);
    }
    if i < k {
        assert(records[i].guid != guid);
    }
}

/// Below any record with the guid `guid` there is a first one.
pub proof fn lemma_first_exists(records: Seq<CustomerView>, guid: Seq<char>, i: int)
    requires
        0 <= i < records.len(),
        records[i].guid == guid,
    ensures
        is_first(records, guid, first_index(records, guid)),
        first_index(records, guid) <= i,
    decreases i,
{
    if forall|j: int| 0 <= j < i ==> (#[trigger] records[j]).guid != guid {
        lemma_first_index_is(records, guid, i);
    } else {
        let j: int = choose|j: int| 0 <= j < i && (#[trigger] records[j]).guid == guid;
        lemma_first_exists(records, guid, j);
    }
}

/// What `first_index` is worth: when the guid occurs, it is the position of
/// the first record that has it.
pub proof fn lemma_first_index(records: Seq<CustomerView>, guid: Seq<char>)
    requires
        contains(records, guid),
    ensures
        is_first(records, guid, first_index(records, guid)),
{
    let i: int = choose|i: int| 0 <= i < records.len() && (#[trigger] records[i]).guid == guid;
    lemma_first_exists(records, guid, i);
}

/// Removing goes record by record: one more record at the end stays if its
/// guid differs from `guid` and goes if it is equal.
pub proof fn lemma_removed_push(records: Seq<CustomerView>, last: CustomerView, guid: Seq<char>)
    ensures
        removed(records.push(last), guid) == (if last.guid != guid {
            removed(records, guid).push(last)
        } else {
            removed(records, guid)
        }),
{
    records.lemma_filter_push(last, |record: CustomerView| record.guid != guid);
}

/// A lookup finds a record exactly when the guid occurs, and what it finds
/// is the first record that has the guid.
pub proof fn lemma_lookup(records: Seq<CustomerView>, guid: Seq<char>)
    ensures
        lookup(records, guid) is Some <==> contains(records, guid),
        lookup(records, guid) matches Some(found) ==> ({
            &&& found.guid == guid
            &&& found == records[first_index(records, guid)]
            &&& is_first(records, guid, first_index(records, guid))
        }),
{
    if contains(records, guid) {
        lemma_first_index(records, guid);
    }
}

/// Adding a record never brings a second record with its guid.
pub proof fn lemma_inserted_distinct(records: Seq<CustomerView>, customer: CustomerView)
    requires
        distinct(records),
    ensures
        distinct(inserted(records, customer)),
{
    let after = inserted(records, customer);
    assert forall|i: int, j: int| 0 <= i < j < after.len() implies (#[trigger] after[i]).guid != (
    #[trigger] after[j]).guid by {
        if !contains(records, customer.guid) {
            assert(after[i] == records[i]);
            if j < records.len() {
                assert(after[j] == records[j]);
            }
        }
    }
}

/// A lookup after an attempt to add a record finds the new record if it
/// went in, and the record that stood in its way if it did not.
pub proof fn lemma_lookup_after_inserted(records: Seq<CustomerView>, customer: CustomerView)
    ensures
        !contains(records, customer.guid) ==> lookup(inserted(records, customer), customer.guid)
            == Some(customer),
        contains(records, customer.guid) ==> lookup(inserted(records, customer), customer.guid)
            == lookup(records, customer.guid),
{
    if !contains(records, customer.guid) {
        let after = records.push(customer);
        assert forall|j: int| 0 <= j < records.len() implies (#[trigger] after[j]).guid
            != customer.guid by {
            assert(after[j] == records[j]);
        }
        lemma_first_index_is(after, customer.guid, records.len() as int);
    }
}

/// Adding a record with a guid that has just been added is turned down:
/// the second attempt changes nothing, whatever the first one did.
pub proof fn lemma_inserted_again(
    records: Seq<CustomerView>,
    first: CustomerView,
    second: CustomerView,
)
    requires
        second.guid == first.guid,
    ensures
        contains(inserted(records, first), second.guid),
        inserted(inserted(records, first), second) == inserted(records, first),
{
    let once = inserted(records, first);
    if contains(records, first.guid) {
        lemma_first_index(records, first.guid);
    } else {
        assert(once[records.len() as int].guid == second.guid);
    }
}

/// A lookup and an update go by the same record. Where the guid does not
/// occur, the lookup finds nothing and the update changes nothing; where
/// it occurs, the lookup finds a record of the sequence and the update puts
/// the new record in that record's place.
pub proof fn lemma_lookup_and_replaced_agree(
    records: Seq<CustomerView>,
    guid: Seq<char>,
    customer: CustomerView,
)
    ensures
        !contains(records, guid) ==> lookup(records, guid) is None && replaced(
            records,
            guid,
            customer,
        ) == records,
        contains(records, guid) ==> ({
            let at: int = first_index(records, guid);
            &&& is_first(records, guid, at)
            &&& lookup(records, guid) == Some(records[at])
            &&& replaced(records, guid, customer) == records.update(at, customer)
        }),
{
    if contains(records, guid) {
        lemma_first_index(records, guid);
    }
}

/// After an update that went through, a lookup by the new record's guid
/// finds the new record, unless an earlier record has that guid. None has
/// when the update kept the guid, or changed it to one that no record had.
pub proof fn lemma_lookup_after_replaced(
    records: Seq<CustomerView>,
    guid: Seq<char>,
    customer: CustomerView,
)
    requires
        contains(records, guid),
        forall|j: int|
            0 <= j < first_index(records, guid) ==> (#[trigger] records[j]).guid != customer.guid,
    ensures
        lookup(replaced(records, guid, customer), customer.guid) == Some(customer),
{
    lemma_first_index(records, guid);
    let at: int = first_index(records, guid);
    let after = replaced(records, guid, customer);
    assert forall|j: int| 0 <= j < at implies (#[trigger] after[j]).guid != customer.guid by {
        assert(after[j] == records[j]);
    }
    lemma_first_index_is(after, customer.guid, at);
}

/// Where the guids are distinct, an update keeps them so exactly when it
/// does not clash: it may keep the guid of the record it replaces, or give
/// it one that no record has.
pub proof fn lemma_replaced_distinct(
    records: Seq<CustomerView>,
    guid: Seq<char>,
    customer: CustomerView,
)
    requires
        distinct(records),
    ensures
        distinct(replaced(records, guid, customer)) <==> !clashes(records, guid, customer),
{
    if contains(records, guid) {
        lemma_first_index(records, guid);
        let at: int = first_index(records, guid);
        let after = replaced(records, guid, customer);
        if clashes(records, guid, customer) {
            let other: int = choose|k: int|
                0 <= k < records.len() && (#[trigger] records[k]).guid == customer.guid;
            assert(after[at] == customer);
            assert(after[other] == records[other]);
            if other < at {
                assert(after[other].guid == after[at].guid);
            } else {
                assert(after[at].guid == after[other].guid);
            }
        } else {
            assert forall|i: int, j: int| 0 <= i < j < after.len() implies (
            #[trigger] after[i]).guid != (#[trigger] after[j]).guid by {
                assert(records[i].guid != records[j].guid);
                if i == at {
                    assert(after[j] == records[j]);
                } else if j == at {
                    assert(after[i] == records[i]);
                } else {
                    assert(after[i] == records[i] && after[j] == records[j]);
                }
            }
        }
    }
}

/// After a removal no record has the guid, every record that is left was
/// there before, and every record with another guid is still there.
pub proof fn lemma_removed_members(records: Seq<CustomerView>, guid: Seq<char>)
    ensures
        !contains(removed(records, guid), guid),
        forall|i: int|
            0 <= i < removed(records, guid).len() ==> records.contains(
                #[trigger] removed(records, guid)[i],
            ),
        forall|i: int|
            0 <= i < records.len() && (#[trigger] records[i]).guid != guid ==> removed(
                records,
                guid,
            ).contains(records[i]),
{
    let keep = |record: CustomerView| record.guid != guid;
    let after = removed(records, guid);
    assert forall|i: int| 0 <= i < after.len() implies (#[trigger] after[i]).guid != guid
        && records.contains(after[i]) by {
        records.lemma_filter_pred(keep, i);
        assert(after.contains(after[i]));
        records.lemma_filter_contains_rev(keep, after[i]);
    }
    assert forall|i: int| 0 <= i < records.len() && (#[trigger] records[i]).guid
        != guid implies after.contains(records[i]) by {
        records.lemma_filter_contains(keep, i);
    }
}

/// Removing a guid that does not occur removes nothing.
pub proof fn lemma_removed_absent(records: Seq<CustomerView>, guid: Seq<char>)
    requires
        !contains(records, guid),
    ensures
        removed(records, guid) == records,
    decreases records.len(),
{
    if records.len() == 0 {
        assert(removed(records, guid) =~= records);
    } else {
        let front = records.drop_last();
        let last = records.last();
        assert(records =~= front.push(last));
        assert(last.guid != guid);
        assert(!contains(front, guid)) by {
            if contains(front, guid) {
                let i: int = choose|i: int|
                    0 <= i < front.len() && (#[trigger] front[i]).guid == guid;
                assert(records[i].guid == guid);
            }
        }
        lemma_removed_absent(front, guid);
        lemma_removed_push(front, last, guid);
    }
}

/// Removing a guid that one record has, and no other, takes out exactly
/// that record and leaves the others in their order.
pub proof fn lemma_removed_only(records: Seq<CustomerView>, guid: Seq<char>, at: int)
    requires
        is_only(records, guid, at),
    ensures
        removed(records, guid) == records.remove(at),
        removed(records, guid).len() == records.len() - 1,
    decreases records.len(),
{
    let front = records.drop_last();
    let last = records.last();
    assert(records =~= front.push(last));
    lemma_removed_push(front, last, guid);
    if at == records.len() - 1 {
        assert(!contains(front, guid)) by {
            if contains(front, guid) {
                let i: int = choose|i: int|
                    0 <= i < front.len() && (#[trigger] front[i]).guid == guid;
                assert(records[i].guid != guid);
            }
        }
        lemma_removed_absent(front, guid);
        assert(records.remove(at) =~= front);
    } else {
        assert(records[records.len() - 1].guid != guid);
        assert(is_only(front, guid, at)) by {
            assert(front[at] == records[at]);
            assert forall|j: int| 0 <= j < front.len() && j != at implies (#[trigger] front[j]).guid
                != guid by {
                assert(front[j] == records[j]);
            }
        }
        lemma_removed_only(front, guid, at);
        assert(records.remove(at) =~= front.remove(at).push(last));
    }
}

/// Where the guids are distinct, a guid that occurs is the guid of one
/// record only, the first that has it.
pub proof fn lemma_distinct_only(records: Seq<CustomerView>, guid: Seq<char>)
    requires
        distinct(records),
        contains(records, guid),
    ensures
        is_only(records, guid, first_index(records, guid)),
{
    lemma_first_index(records, guid);
    let at: int = first_index(records, guid);
    assert forall|j: int| 0 <= j < records.len() && j != at implies (#[trigger] records[j]).guid
        != guid by {
        if j < at {
            assert(records[j].guid != records[at].guid);
        } else {
            assert(records[at].guid != records[j].guid);
        }
    }
}

/// A removal keeps the guids distinct.
pub proof fn lemma_removed_distinct(records: Seq<CustomerView>, guid: Seq<char>)
    requires
        distinct(records),
    ensures
        distinct(removed(records, guid)),
{
    if contains(records, guid) {
        lemma_distinct_only(records, guid);
        let at: int = first_index(records, guid);
        lemma_removed_only(records, guid, at);
        let after = records.remove(at);
        assert forall|i: int, j: int| 0 <= i < j < after.len() implies (#[trigger] after[i]).guid
            != (#[trigger] after[j]).guid by {
            let from_i: int = if i < at { i } else { i + 1 };
            let from_j: int = if j < at { j } else { j + 1 };
            assert(after[i] == records[from_i]);
            assert(after[j] == records[from_j]);
            assert(records[from_i].guid != records[from_j].guid);
        }
    } else {
        lemma_removed_absent(records, guid);
    }
}

/// Removing the same guid once more removes nothing.
pub proof fn lemma_removed_again(records: Seq<CustomerView>, guid: Seq<char>)
    ensures
        removed(removed(records, guid), guid) == removed(records, guid),
{
    lemma_removed_members(records, guid);
    lemma_removed_absent(removed(records, guid), guid);
}

} // verus!
