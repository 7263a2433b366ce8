//! The customer record and its mathematical view.

use vstd::prelude::*;

verus! {

/// What a [`Customer`] is to a contract: each field as a sequence of
/// characters.
pub ghost struct CustomerView {
    pub guid: Seq<char>,
    pub name: Seq<char>,
    pub email: Seq<char>,
    pub address: Seq<char>,
}

/// A customer record. Only `guid` means anything to the store: it is the
/// key by which a record is found. The other fields are carried along.
#[derive(Debug, PartialEq, Eq)]
pub struct Customer {
    pub guid: String,
    pub name: String,
    pub email: String,
    pub address: String,
}

impl View for Customer {
    type V = CustomerView;

    open spec fn view(&self) -> CustomerView {
        CustomerView {
            guid: self.guid@,
            name: self.name@,
            email: self.email@,
            address: self.address@,
        }
    }
}

/// The views of a sequence of records, in the same order.
pub open spec fn views(customers: Seq<Customer>) -> Seq<CustomerView> {
    customers.map_values(|customer: Customer| customer@)
}

impl Clone for Customer {
    /// A copy that is equal to the record, field by field.
    fn clone(&self) -> (copy: Self)
        ensures
            copy == *self,
    {
        Customer {
            guid: self.guid.clone(),
            name: self.name.clone(),
            email: self.email.clone(),
            address: self.address.clone(),
        }
    }
}

impl Customer {
    /// Whether this record is the one that `guid` names.
    pub fn has_guid(&self, guid: &String) -> (yes: bool)
        ensures
            yes == (self@.guid == guid@),
    {
        self.guid == *guid
    }
}

} // verus!
