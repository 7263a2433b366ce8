//! The store over time: what a run of operations makes of the records, and
//! what stays true of it however long the run.
//!
//! Beside the records in their order stands the plain reading of a store
//! as a table from guid to record. The laws here say that the two readings
//! agree after every run in which no update gives a record the guid of
//! another one.

use vstd::prelude::*;

use crate::customer::CustomerView;
use crate::model::{
    clashes, contains, distinct, first_index, inserted, is_first, lemma_first_index,
    lemma_first_index_is, lemma_inserted_distinct, lemma_lookup_after_replaced,
    lemma_removed_distinct, lemma_removed_members, lemma_replaced_distinct, removed, replaced,
};

verus! {

/// One change asked of the store.
pub ghost enum Operation {
    /// Add `customer`.
    Create { customer: CustomerView },
    /// Put `customer` in the place of the record named `guid`.
    Update { guid: Seq<char>, customer: CustomerView },
    /// Remove the records named `guid`.
    Delete { guid: Seq<char> },
}

/// The records after one operation, whether it went through or was turned
/// down.
pub open spec fn applied(records: Seq<CustomerView>, operation: Operation) -> Seq<CustomerView> {
    match operation {
        Operation::Create { customer } => inserted(records, customer),
        Operation::Update { guid, customer } => replaced(records, guid, customer),
        Operation::Delete { guid } => removed(records, guid),
    }
}

/// The records after a run of operations, the first of `operations` first.
pub open spec fn replayed(
    records: Seq<CustomerView>,
    operations: Seq<Operation>,
) -> Seq<CustomerView>
    decreases operations.len(),
{
    if operations.len() == 0 {
        records
    } else {
        applied(replayed(records, operations.drop_last()), operations.last())
    }
}

/// The operation is an update that goes through and gives the record a
/// guid that another record of `records` has.
pub open spec fn collides(records: Seq<CustomerView>, operation: Operation) -> bool {
    operation matches Operation::Update { guid, customer } && clashes(records, guid, customer)
}

/// No operation of the run collides with the records that it meets.
pub open spec fn collision_free(records: Seq<CustomerView>, operations: Seq<Operation>) -> bool
    decreases operations.len(),
{
    operations.len() > 0 ==> {
        &&& collision_free(records, operations.drop_last())
        &&& !collides(replayed(records, operations.drop_last()), operations.last())
    }
}

/// Every operation of the run is a `Create`.
pub open spec fn only_creates(operations: Seq<Operation>) -> bool {
    forall|k: int| 0 <= k < operations.len() ==> #[trigger] operations[k] is Create
}

/// The records as a table: each guid that occurs, with the record that a
/// lookup finds for it.
pub open spec fn contents(records: Seq<CustomerView>) -> Map<Seq<char>, CustomerView> {
    Map::new(
        |guid: Seq<char>| contains(records, guid),
        |guid: Seq<char>| records[first_index(records, guid)],
    )
}

/// What one operation means for a table from guid to record: a create
/// adds an entry unless the guid has one, an update moves the entry of
/// `guid` to the new record under the new record's guid, a delete drops the
/// entry.
pub open spec fn applied_by_key(
    table: Map<Seq<char>, CustomerView>,
    operation: Operation,
) -> Map<Seq<char>, CustomerView> {
    match operation {
        Operation::Create { customer } => if table.contains_key(customer.guid) {
            table
        } else {
            table.insert(customer.guid, customer)
        },
        Operation::Update { guid, customer } => if table.contains_key(guid) {
            table.remove(guid).insert(customer.guid, customer)
        } else {
            table
        },
        Operation::Delete { guid } => table.remove(guid),
    }
}

/// The table after a run of operations, the first of `operations` first.
pub open spec fn replayed_by_key(
    table: Map<Seq<char>, CustomerView>,
    operations: Seq<Operation>,
) -> Map<Seq<char>, CustomerView>
    decreases operations.len(),
{
    if operations.len() == 0 {
        table
    } else {
        applied_by_key(replayed_by_key(table, operations.drop_last()), operations.last())
    }
}

/// Where the guids are distinct, each record is the first, and so the only
/// one, with its guid.
pub proof fn lemma_distinct_first(records: Seq<CustomerView>, i: int)
    requires
        distinct(records),
        0 <= i < records.len(),
    ensures
        contains(records, records[i].guid),
        first_index(records, records[i].guid) == i,
{
    assert forall|j: int| 0 <= j < i implies (#[trigger] records[j]).guid != records[i].guid by {
        assert(records[j].guid != records[i].guid);
    }
    lemma_first_index_is(records, records[i].guid, i);
}

/// Where the guids are distinct, one operation keeps them so exactly when
/// it does not collide.
pub proof fn lemma_applied_distinct(records: Seq<CustomerView>, operation: Operation)
    requires
        distinct(records),
    ensures
        distinct(applied(records, operation)) <==> !collides(records, operation),
{
    match operation {
        Operation::Create { customer } => {
            lemma_inserted_distinct(records, customer);
        },
        Operation::Update { guid, customer } => {
            lemma_replaced_distinct(records, guid, customer);
        },
        Operation::Delete { guid } => {
            lemma_removed_distinct(records, guid);
        },
    }
}

/// One operation that does not collide does to the records what it means
/// for the table.
pub proof fn lemma_applied_by_key(records: Seq<CustomerView>, operation: Operation)
    requires
        distinct(records),
        !collides(records, operation),
    ensures
        contents(applied(records, operation)) == applied_by_key(contents(records), operation),
{
    let after = applied(records, operation);
    let table = applied_by_key(contents(records), operation);
    lemma_applied_distinct(records, operation);
    assert forall|key: Seq<char>| #[trigger]
        contents(after).contains_key(key) == table.contains_key(key) && (table.contains_key(key)
            ==> contents(after)[key] == table[key]) by {
        match operation {
            Operation::Create { customer } => {
                lemma_created_key(records, customer, key);
            },
            Operation::Update { guid, customer } => {
                lemma_updated_key(records, guid, customer, key);
            },
            Operation::Delete { guid } => {
                lemma_deleted_key(records, guid, key);
            },
        }
    }
    assert(contents(after) =~= table);
}

/// A record of `after` that stands where a lookup in `records` finds it,
/// and that no earlier record of `after` shadows, is what a lookup in
/// `after` finds.
proof fn lemma_same_entry(
    records: Seq<CustomerView>,
    after: Seq<CustomerView>,
    key: Seq<char>,
    at: int,
)
    requires
        is_first(after, key, at),
        contains(records, key),
        after[at] == records[first_index(records, key)],
    ensures
        contents(after).contains_key(key),
        contents(after)[key] == contents(records)[key],
{
    lemma_first_index_is(after, key, at);
}

/// A create does to the entry of `key` what it means for the table.
proof fn lemma_created_key(records: Seq<CustomerView>, customer: CustomerView, key: Seq<char>)
    requires
        distinct(records),
    ensures
        ({
            let after = contents(inserted(records, customer));
            let table = applied_by_key(contents(records), (Operation::Create { customer }));
            after.contains_key(key) == table.contains_key(key) && (table.contains_key(key)
                ==> after[key] == table[key])
        }),
{
    if !contains(records, customer.guid) {
        let after = records.push(customer);
        if key == customer.guid {
            assert forall|j: int| 0 <= j < records.len() implies (#[trigger] after[j]).guid
                != key by {
                assert(after[j] == records[j]);
            }
            lemma_first_index_is(after, key, records.len() as int);
        } else if contains(records, key) {
            lemma_first_index(records, key);
            let at: int = first_index(records, key);
            assert forall|j: int| 0 <= j < at implies (#[trigger] after[j]).guid != key by {
                assert(after[j] == records[j]);
            }
            lemma_same_entry(records, after, key, at);
        } else if contains(after, key) {
            let i: int = choose|i: int| 0 <= i < after.len() && (#[trigger] after[i]).guid == key;
            assert(after[i] == records[i]);
        }
    }
}

/// An update that does not clash does to the entry of `key` what it means
/// for the table.
proof fn lemma_updated_key(
    records: Seq<CustomerView>,
    guid: Seq<char>,
    customer: CustomerView,
    key: Seq<char>,
)
    requires
        distinct(records),
        !clashes(records, guid, customer),
    ensures
        ({
            let after = contents(replaced(records, guid, customer));
            let table = applied_by_key(
                contents(records),
                (Operation::Update { guid, customer }),
            );
            after.contains_key(key) == table.contains_key(key) && (table.contains_key(key)
                ==> after[key] == table[key])
        }),
{
    if contains(records, guid) {
        lemma_first_index(records, guid);
        let place: int = first_index(records, guid);
        let after = records.update(place, customer);
        if key == customer.guid {
            assert forall|j: int| 0 <= j < place implies (#[trigger] records[j]).guid
                != customer.guid by {}
            lemma_lookup_after_replaced(records, guid, customer);
        } else if contains(records, key) && key != guid {
            lemma_first_index(records, key);
            let at: int = first_index(records, key);
            assert forall|j: int| 0 <= j < at implies (#[trigger] after[j]).guid != key by {
                if j != place {
                    assert(after[j] == records[j]);
                }
            }
            lemma_same_entry(records, after, key, at);
        } else if contains(after, key) {
            let i: int = choose|i: int| 0 <= i < after.len() && (#[trigger] after[i]).guid == key;
            assert(i != place);
            assert(after[i] == records[i]);
            if key == guid {
                lemma_distinct_first(records, i);
            }
        }
    }
}

/// A delete does to the entry of `key` what it means for the table.
proof fn lemma_deleted_key(records: Seq<CustomerView>, guid: Seq<char>, key: Seq<char>)
    requires
        distinct(records),
    ensures
        ({
            let after = contents(removed(records, guid));
            let table = applied_by_key(contents(records), (Operation::Delete { guid }));
            after.contains_key(key) == table.contains_key(key) && (table.contains_key(key)
                ==> after[key] == table[key])
        }),
{
    let after = removed(records, guid);
    lemma_removed_members(records, guid);
    if key != guid {
        if contains(records, key) {
            lemma_first_index(records, key);
            let found = records[first_index(records, key)];
            assert(after.contains(found));
            let k: int = choose|k: int| 0 <= k < after.len() && after[k] == found;
            assert(after[k].guid == key);
        }
        if contains(after, key) {
            lemma_first_index(after, key);
            let left = after[first_index(after, key)];
            assert(records.contains(left));
            let i: int = choose|i: int| 0 <= i < records.len() && records[i] == left;
            lemma_distinct_first(records, i);
        }
    }
}

/// A run without collisions keeps the guids distinct, and the records
/// read as a table are what the run means for the table: every guid that
/// the run has left is there once, with its latest record, and no other.
pub proof fn lemma_replayed(records: Seq<CustomerView>, operations: Seq<Operation>)
    requires
        distinct(records),
        collision_free(records, operations),
    ensures
        distinct(replayed(records, operations)),
        contents(replayed(records, operations)) == replayed_by_key(contents(records), operations),
    decreases operations.len(),
{
    if operations.len() > 0 {
        let earlier = operations.drop_last();
        lemma_replayed(records, earlier);
        lemma_applied_distinct(replayed(records, earlier), operations.last());
        lemma_applied_by_key(replayed(records, earlier), operations.last());
    }
}

/// A run with a collision leaves two records with one guid at some point
/// of it: the runs without collisions are all the runs that keep the guids
/// distinct throughout.
pub proof fn lemma_collision_leaves_duplicates(
    records: Seq<CustomerView>,
    operations: Seq<Operation>,
) -> (n: int)
    requires
        distinct(records),
        !collision_free(records, operations),
    ensures
        0 <= n <= operations.len(),
        !distinct(replayed(records, operations.take(n))),
    decreases operations.len(),
{
    let earlier = operations.drop_last();
    if !collision_free(records, earlier) {
        let n: int = lemma_collision_leaves_duplicates(records, earlier);
        assert(operations.take(n) =~= earlier.take(n));
        n
    } else {
        lemma_replayed(records, earlier);
        lemma_applied_distinct(replayed(records, earlier), operations.last());
        assert(operations.take(operations.len() as int) =~= operations);
        operations.len() as int
    }
}

/// A run of creates never collides.
pub proof fn lemma_creates_collision_free(records: Seq<CustomerView>, operations: Seq<Operation>)
    requires
        only_creates(operations),
    ensures
        collision_free(records, operations),
    decreases operations.len(),
{
    if operations.len() > 0 {
        let earlier = operations.drop_last();
        assert forall|k: int| 0 <= k < earlier.len() implies #[trigger] earlier[k] is Create by {
            assert(operations[k] is Create);
        }
        lemma_creates_collision_free(records, earlier);
        assert(operations[operations.len() - 1] is Create);
    }
}

/// Starting from the empty store, after any run of creates no two records
/// share a guid.
pub proof fn lemma_creates_keep_distinct(operations: Seq<Operation>)
    requires
        only_creates(operations),
    ensures
        distinct(replayed(Seq::<CustomerView>::empty(), operations)),
{
    lemma_creates_collision_free(Seq::<CustomerView>::empty(), operations);
    lemma_replayed(Seq::<CustomerView>::empty(), operations);
}

/// Where the guids are distinct, the records are as many as the guids: the
/// list holds one record for each entry of the table, and each record of
/// the list is the entry of its guid.
pub proof fn lemma_distinct_listing(records: Seq<CustomerView>)
    requires
        distinct(records),
    ensures
        contents(records).dom().finite(),
        contents(records).dom().len() == records.len(),
        forall|i: int|
            0 <= i < records.len() ==> contents(records).contains_key((#[trigger] records[i]).guid)
                && contents(records)[records[i].guid] == records[i],
{
    let guids = records.map_values(|record: CustomerView| record.guid);
    assert(guids.no_duplicates()) by {
        assert forall|i: int, j: int|
            0 <= i < guids.len() && 0 <= j < guids.len() && i != j implies guids[i] != guids[j] by {
            if i < j {
                assert(records[i].guid != records[j].guid);
            } else {
                assert(records[j].guid != records[i].guid);
            }
        }
    }
    guids.unique_seq_to_set();
    let keys = contents(records).dom();
    assert(keys =~= guids.to_set()) by {
        assert forall|key: Seq<char>| keys.contains(key) implies guids.to_set().contains(key) by {
            let i: int = choose|i: int|
                0 <= i < records.len() && (#[trigger] records[i]).guid == key;
            assert(guids[i] == key);
        }
        assert forall|key: Seq<char>| guids.to_set().contains(key) implies keys.contains(key) by {
            let i: int = choose|i: int| 0 <= i < guids.len() && guids[i] == key;
            assert(records[i].guid == key);
        }
    }
    assert forall|i: int| 0 <= i < records.len() implies contents(records).contains_key(
        (#[trigger] records[i]).guid,
    ) && contents(records)[records[i].guid] == records[i] by {
        lemma_distinct_first(records, i);
    }
}

/// Starting from the empty store, after any run without collisions the
/// list is complete and free of duplicates: it holds one record for each
/// guid that the run has left, the latest that the run gave it, and
/// nothing else.
pub proof fn lemma_list_complete(operations: Seq<Operation>)
    requires
        collision_free(Seq::<CustomerView>::empty(), operations),
    ensures
        ({
            let records = replayed(Seq::<CustomerView>::empty(), operations);
            let table = replayed_by_key(Map::<Seq<char>, CustomerView>::empty(), operations);
            &&& distinct(records)
            &&& contents(records) == table
            &&& table.dom().finite()
            &&& table.dom().len() == records.len()
            &&& forall|i: int|
                0 <= i < records.len() ==> table.contains_key((#[trigger] records[i]).guid)
                    && table[records[i].guid] == records[i]
        }),
{
    let nothing = Seq::<CustomerView>::empty();
    assert(contents(nothing) =~= Map::<Seq<char>, CustomerView>::empty());
    lemma_replayed(nothing, operations);
    lemma_distinct_listing(replayed(nothing, operations));
}

} // verus!
