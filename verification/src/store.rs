//! The store: the records in a vector, and the operations on it.

use vstd::prelude::*;

use crate::customer::{views, Customer, CustomerView};
use crate::model::{
    clashes, contains, distinct, inserted, is_first, is_only, lemma_first_index_is,
    lemma_inserted_distinct, lemma_removed_absent, lemma_removed_distinct, lemma_removed_members,
    lemma_removed_only, lemma_removed_push, lemma_replaced_distinct, lookup, removed, replaced,
};

verus! {

/// Why an operation on the store did not go through.
#[derive(Debug, Clone, Copy, PartialEq, Eq, Structural)]
pub enum StoreError {
    /// A record with the new record's guid is in the store already.
    DuplicateKey,
    /// No record in the store has the guid asked for.
    NotFound,
}

/// The customer records, in the order in which they were added.
///
/// A new store holds no two records with one guid, and `create` and
/// `delete` keep it so. So does `update`, unless it `clashes`: the guid of
/// the new record is not held against the guid that names the old one, so
/// an update can give a record the guid of another. The operations are
/// therefore stated for every sequence of records: `read` and `update` go
/// by the first record with the guid, `delete` removes all of them.
pub struct CustomerStore {
    customers: Vec<Customer>,
}

impl View for CustomerStore {
    type V = Seq<CustomerView>;

    closed spec fn view(&self) -> Seq<CustomerView> {
        views(self.customers@)
    }
}

impl Default for CustomerStore {
    /// The empty store.
    fn default() -> (store: Self)
        ensures
            store@ == Seq::<CustomerView>::empty(),
    {
        CustomerStore::new()
    }
}

impl CustomerStore {
    /// A store with no record in it.
    pub fn new() -> (store: Self)
        ensures
            store@ == Seq::<CustomerView>::empty(),
            distinct(store@),
    {
        CustomerStore { customers: Vec::new() }
    }

    /// How many records the store holds.
    pub fn len(&self) -> (count: usize)
        ensures
            count == self@.len(),
    {
        self.customers.len()
    }

    /// Where the first record with the guid `guid` stands, if there is one.
    fn position(&self, guid: &String) -> (place: Option<usize>)
        ensures
            (match place {
                Some(i) => is_first(self@, guid@, i as int) && i < self.customers.len(),
                None => !contains(self@, guid@),
            }),
    {
        let mut i: usize = 0;
        while i < self.customers.len()
            invariant
                i <= self.customers.len(),
                forall|j: int| 0 <= j < i ==> (#[trigger] self@[j]).guid != guid@,
            decreases self.customers.len() - i,
        {
            if self.customers[i].has_guid(guid) {
                return Some(i);
            }
            i += 1;
        }
        None
    }

    /// A copy of every record, in the order of the store.
    pub fn list(&self) -> (all: Vec<Customer>)
        ensures
            views(all@) == self@,
    {
        let all = self.customers.clone();
        assert(views(all@) =~= self@);
        all
    }

    /// Adds `new_customer` at the end, unless a record with its guid is in
    /// the store already: then the store stays as it is and the answer is
    /// `DuplicateKey`.
    pub fn create(&mut self, new_customer: Customer) -> (result: Result<(), StoreError>)
        ensures
            final(self)@ == inserted(old(self)@, new_customer@),
            result == (if contains(old(self)@, new_customer@.guid) {
                Err::<(), StoreError>(StoreError::DuplicateKey)
            } else {
                Ok::<(), StoreError>(())
            }),
            result is Err ==> final(self)@ == old(self)@,
            distinct(old(self)@) ==> distinct(final(self)@),
    {
        proof {
            if distinct(self@) {
                lemma_inserted_distinct(self@, new_customer@);
            }
        }
        match self.position(&new_customer.guid) {
            Some(_) => Err(StoreError::DuplicateKey),
            None => {
                let ghost held = self.customers@;
                self.customers.push(new_customer);
                assert(views(held.push(new_customer)) =~= views(held).push(new_customer@));
                Ok(())
            },
        }
    }

    /// The first record with the guid `guid`; `NotFound` if there is none.
    pub fn read(&self, guid: &String) -> (result: Result<&Customer, StoreError>)
        ensures
            result is Ok <==> contains(self@, guid@),
            (match result {
                Ok(customer) => lookup(self@, guid@) == Some(customer@),
                Err(error) => error == StoreError::NotFound && lookup(self@, guid@) is None,
            }),
    {
        match self.position(guid) {
            Some(i) => {
                proof {
                    lemma_first_index_is(self@, guid@, i as int);
                }
                Ok(&self.customers[i])
            },
            None => Err(StoreError::NotFound),
        }
    }

    /// Puts `updated_customer` in the place of the first record with the
    /// guid `guid`; `NotFound`, and no change, if there is none. The guid
    /// inside `updated_customer` is taken as it comes: it need not be
    /// `guid`.
    pub fn update(
        &mut self,
        guid: &String,
        updated_customer: Customer,
    ) -> (result: Result<(), StoreError>)
        ensures
            final(self)@ == replaced(old(self)@, guid@, updated_customer@),
            result == (if contains(old(self)@, guid@) {
                Ok::<(), StoreError>(())
            } else {
                Err::<(), StoreError>(StoreError::NotFound)
            }),
            result is Err ==> final(self)@ == old(self)@,
            distinct(old(self)@) ==> (distinct(final(self)@) <==> !clashes(
                old(self)@,
                guid@,
                updated_customer@,
            )),
    {
        proof {
            if distinct(self@) {
                lemma_replaced_distinct(self@, guid@, updated_customer@);
            }
        }
        match self.position(guid) {
            Some(i) => {
                let ghost held = self.customers@;
                proof {
                    lemma_first_index_is(self@, guid@, i as int);
                }
                self.customers[i] = updated_customer;
                assert(views(held.update(i as int, updated_customer)) =~= views(held).update(
                    i as int,
                    updated_customer@,
                ));
                Ok(())
            },
            None => Err(StoreError::NotFound),
        }
    }

    /// Removes every record with the guid `guid`: none if no record has it,
    /// one if one has. There is nothing to report: the call goes through
    /// whether or not a record was there.
    pub fn delete(&mut self, guid: &String)
        ensures
            final(self)@ == removed(old(self)@, guid@),
            !contains(final(self)@, guid@),
            !contains(old(self)@, guid@) ==> final(self)@ == old(self)@,
            forall|at: int| #[trigger]
                is_only(old(self)@, guid@, at) ==> final(self)@ == old(self)@.remove(at),
            distinct(old(self)@) ==> distinct(final(self)@),
    {
        let ghost before = self@;
        proof {
            lemma_removed_members(before, guid@);
            if !contains(before, guid@) {
                lemma_removed_absent(before, guid@);
            }
            assert forall|at: int| is_only(before, guid@, at) implies removed(before, guid@)
                == before.remove(at) by {
                lemma_removed_only(before, guid@, at);
            }
            if distinct(before) {
                lemma_removed_distinct(before, guid@);
            }
        }
        let mut held: Vec<Customer> = Vec::new();
        core::mem::swap(&mut self.customers, &mut held);
        assert(before.take(0) =~= Seq::<CustomerView>::empty());
        for customer in iter: held.into_iter()
            invariant
                views(iter.seq()) == before,
                self@ == removed(before.take(iter.index() as int), guid@),
        {
            proof {
                let seen: int = iter.index() as int;
                assert(before.take(seen + 1) =~= before.take(seen).push(before[seen]));
                lemma_removed_push(before.take(seen), before[seen], guid@);
            }
            if !customer.has_guid(guid) {
                let ghost kept = self.customers@;
                self.customers.push(customer);
                assert(views(kept.push(customer)) =~= views(kept).push(customer@));
            }
        }
        assert(before.take(before.len() as int) =~= before);
    }
}

} // verus!
