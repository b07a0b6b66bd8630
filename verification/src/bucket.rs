//! Buckets: named columns on a card's board.

use crate::ids::BucketId;
use vstd::prelude::*;

verus! {

/// The abstract content of a bucket.
pub ghost struct BucketModel {
    pub id: BucketId,
    pub name: Seq<char>,
}

/// A column or organizational divider on a card's board.
#[derive(Debug, Clone, PartialEq, Eq)]
pub struct Bucket {
    id: BucketId,
    name: String,
}

impl View for Bucket {
    type V = BucketModel;

    closed spec fn view(&self) -> BucketModel {
        BucketModel { id: self.id, name: self.name@ }
    }
}

impl Bucket {
    /// Creates a bucket with the given identifier and name.
    pub fn new_with_id(id: BucketId, name: String) -> (r: Bucket)
        ensures
            r@ == (BucketModel { id, name: name@ }),
    {
        Bucket { id, name }
    }

    /// Creates a bucket with the given name and a freshly generated identifier.
    pub fn new(name: String) -> (r: Bucket)
        ensures
            r@.name == name@,
    {
        Bucket::new_with_id(BucketId::new(), name)
    }

    /// The bucket's identifier.
    pub fn id(&self) -> (r: BucketId)
        ensures
            r == self@.id,
    {
        self.id
    }

    /// The bucket's display name.
    pub fn name(&self) -> (r: &str)
        ensures
            r@ == self@.name,
    {
        self.name.as_str()
    }

    /// A copy of the bucket.
    pub fn duplicate(&self) -> (r: Bucket)
        ensures
            r@ == self@,
    {
        Bucket { id: self.id, name: self.name.clone() }
    }

    /// Changes the display name; the identifier stays.
    pub fn rename(&mut self, new_name: String)
        ensures
            final(self)@ == (BucketModel { name: new_name@, ..old(self)@ }),
    {
        self.name = new_name;
    }
}

} // verus!
