//! The label table: every distinct label once, its position is its id.

use vstd::prelude::*;

verus! {

/// The labels in the order of their ids.
pub struct LabelTable {
    names: Vec<String>,
}

impl View for LabelTable {
    type V = Seq<Seq<char>>;

    closed spec fn view(&self) -> Seq<Seq<char>> {
        Seq::new(self.names@.len(), |i: int| self.names@[i]@)
    }
}

/// `id` is the first place at which `name` stands in `labels`.
pub open spec fn first_at(labels: Seq<Seq<char>>, name: Seq<char>, id: int) -> bool {
    &&& 0 <= id < labels.len()
    &&& labels[id] == name
    &&& forall|j: int| 0 <= j < id ==> labels[j] != name
}

/// No label stands at two places.
pub open spec fn distinct(labels: Seq<Seq<char>>) -> bool {
    forall|i: int, j: int| 0 <= i < j < labels.len() ==> labels[i] != labels[j]
}

impl LabelTable {
    /// A table without labels.
    pub fn new() -> (table: LabelTable)
        ensures
            table@ == Seq::<Seq<char>>::empty(),
            distinct(table@),
    {
        let table = LabelTable { names: Vec::new() };
        assert(table@ =~= Seq::<Seq<char>>::empty());
        table
    }

    /// A table that holds the given labels, each at its position.
    pub fn from_vec(names: Vec<String>) -> (table: LabelTable)
        ensures
            table@ == Seq::new(names@.len(), |i: int| names@[i]@),
    {
        LabelTable { names }
    }

    /// The number of labels.
    pub fn len(&self) -> (count: usize)
        ensures
            count == self@.len(),
    {
        self.names.len()
    }

    /// The label with the given id.
    pub fn get(&self, id: usize) -> (name: &String)
        requires
            id < self@.len(),
        ensures
            name@ == self@[id as int],
    {
        &self.names[id]
    }

    /// The id of `name`: the first place at which it stands, if it stands
    /// anywhere.
    pub fn find(&self, name: &String) -> (found: Option<usize>)
        ensures
            match found {
                Some(id) => first_at(self@, name@, id as int),
                None => !self@.contains(name@),
            },
    {
        let mut i: usize = 0;
        while i < self.names.len()
            invariant
                i <= self.names@.len(),
                forall|j: int| 0 <= j < i ==> self@[j] != name@,
            decreases self.names@.len() - i,
        {
            if self.names[i] == *name {
                return Some(i);
            }
            i += 1;
        }
        None
    }

    /// The id of `name`. A label that the table holds keeps the id it
    /// has; a new one is appended and gets the next id.
    pub fn insert_label(&mut self, name: &String) -> (id: usize)
        ensures
            first_at(final(self)@, name@, id as int),
            old(self)@.contains(name@) ==> final(self)@ == old(self)@,
            !old(self)@.contains(name@) ==> final(self)@ == old(self)@.push(name@),
            distinct(old(self)@) ==> distinct(final(self)@),
    {
        match self.find(name) {
            Some(id) => id,
            None => {
                let id = self.names.len();
                self.names.push(name.clone());
                assert(self@ =~= old(self)@.push(name@));
                assert(distinct(old(self)@) ==> distinct(self@)) by {
                    if distinct(old(self)@) {
                        assert forall|i: int, j: int| 0 <= i < j < self@.len() implies self@[i]
                            != self@[j] by {
                            if j == old(self)@.len() {
                                assert(old(self)@.contains(old(self)@[i]));
                            }
                        }
                    }
                }
                id
            },
        }
    }

    /// The labels, each at its position.
    pub fn to_vec(&self) -> (names: Vec<String>)
        ensures
            names@.len() == self@.len(),
            forall|i: int| 0 <= i < names@.len() ==> #[trigger] names@[i]@ == self@[i],
    {
        let mut names: Vec<String> = Vec::new();
        let mut i: usize = 0;
        while i < self.names.len()
            invariant
                i <= self.names@.len(),
                names@.len() == i,
                forall|j: int| 0 <= j < i ==> #[trigger] names@[j]@ == self@[j],
            decreases self.names@.len() - i,
        {
            names.push(self.names[i].clone());
            i += 1;
        }
        names
    }
}

} // verus!
