//! One parsed row: an ordered sequence of UTF-8 text fields.

use vstd::prelude::*;

verus! {

/// A record is an ordered sequence of text fields; insertion order is column
/// order.  It is immutable once produced by the reader.
pub struct Record {
    fields: Vec<String>,
}

impl View for Record {
    type V = Seq<Seq<char>>;

    closed spec fn view(&self) -> Seq<Seq<char>> {
        self.fields.deep_view()
    }
}

impl Record {
    /// Builds a record from its fields, in column order.
    pub fn new(fields: Vec<String>) -> (r: Record)
        ensures
            r@ == fields.deep_view(),
    {
        let r = Record { fields };
        proof {
            assert(r@ =~= r.fields.deep_view());
        }
        r
    }

    /// The number of fields.
    pub fn len(&self) -> (n: usize)
        ensures
            n == self@.len(),
    {
        proof {
            assert(self.fields.deep_view().len() == self.fields@.len());
        }
        self.fields.len()
    }

    /// The field at column `i`.
    pub fn get(&self, i: usize) -> (f: &String)
        requires
            i < self@.len(),
        ensures
            f@ == self@[i as int],
    {
        proof {
            assert(self.fields.deep_view().len() == self.fields@.len());
            assert(self.fields.deep_view()[i as int] == self.fields@[i as int]@);
        }
        &self.fields[i]
    }

    /// The fields, in column order.
    pub fn fields(&self) -> (fs: &Vec<String>)
        ensures
            fs.deep_view() == self@,
    {
        &self.fields
    }
}

} // verus!
