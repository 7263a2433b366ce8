//! What the service does with each request, once it holds the store: the
//! change to the records, and the status or the records to answer with.

use vstd::prelude::*;
use warp::http::StatusCode;

use crate::customer::{views, Customer};
use crate::model::{clashes, contains, distinct, inserted, is_only, lookup, removed, replaced};
use crate::status::{bad_request, created, no_content, not_found, ok, status_number};
use crate::store::CustomerStore;

verus! {

/// Every record of the store, in its order, to be sent as a list, with
/// 200.
pub fn list_customers(store: &CustomerStore) -> (reply: (StatusCode, Vec<Customer>))
    ensures
        status_number(reply.0) == 200,
        views(reply.1@) == store@,
{
    (ok(), store.list())
}

/// Adds a record: 201 when it went in, 400 and no change when a record
/// with its guid was there already.
pub fn create_customer(new_customer: Customer, store: &mut CustomerStore) -> (status: StatusCode)
    ensures
        final(store)@ == inserted(old(store)@, new_customer@),
        status_number(status) == (if contains(old(store)@, new_customer@.guid) {
            400u16
        } else {
            201u16
        }),
        contains(old(store)@, new_customer@.guid) ==> final(store)@ == old(store)@,
        distinct(old(store)@) ==> distinct(final(store)@),
{
    match store.create(new_customer) {
        Ok(()) => created(),
        Err(_) => bad_request(),
    }
}

/// A copy of the first record with the guid `guid`, to be sent with 200;
/// 404 and nothing to send when there is none.
pub fn get_customer(guid: String, store: &CustomerStore) -> (reply: (StatusCode, Option<Customer>))
    ensures
        reply.1 is Some <==> contains(store@, guid@),
        (match reply.1 {
            Some(customer) => lookup(store@, guid@) == Some(customer@) && status_number(reply.0)
                == 200,
            None => lookup(store@, guid@) is None && status_number(reply.0) == 404,
        }),
{
    match store.read(&guid) {
        Ok(customer) => (ok(), Some(customer.clone())),
        Err(_) => (not_found(), None),
    }
}

/// Replaces the first record with the guid `guid` by `updated_customer`:
/// 200 when it was there, 404 and no change when it was not.
pub fn update_customer(
    guid: String,
    updated_customer: Customer,
    store: &mut CustomerStore,
) -> (status: StatusCode)
    ensures
        final(store)@ == replaced(old(store)@, guid@, updated_customer@),
        status_number(status) == (if contains(old(store)@, guid@) {
            200u16
        } else {
            404u16
        }),
        !contains(old(store)@, guid@) ==> final(store)@ == old(store)@,
        distinct(old(store)@) ==> (distinct(final(store)@) <==> !clashes(
            old(store)@,
            guid@,
            updated_customer@,
        )),
{
    match store.update(&guid, updated_customer) {
        Ok(()) => ok(),
        Err(_) => not_found(),
    }
}

/// Removes the records with the guid `guid`: 204, whether or not there was
/// one.
pub fn delete_customer(guid: String, store: &mut CustomerStore) -> (status: StatusCode)
    ensures
        final(store)@ == removed(old(store)@, guid@),
        status_number(status) == 204,
        !contains(final(store)@, guid@),
        !contains(old(store)@, guid@) ==> final(store)@ == old(store)@,
        forall|at: int| #[trigger]
            is_only(old(store)@, guid@, at) ==> final(store)@ == old(store)@.remove(at),
        distinct(old(store)@) ==> distinct(final(store)@),
{
    store.delete(&guid);
    no_content()
}

} // verus!
