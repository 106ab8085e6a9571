//! Name tables: the switches, barrier kinds and bridge kinds of a map are
//! numbered by their position in the settings, and authored names resolve
//! to those numbers.
use vstd::prelude::*;

verus! {

/// The first position at or after `from` where `ids` holds `name`.
pub open spec fn find_name(ids: Seq<String>, name: Seq<char>, from: int) -> Option<int>
    decreases ids.len() - from,
{
    if from < 0 || from >= ids.len() {
        None
    } else if ids[from]@ == name {
        Some(from)
    } else {
        find_name(ids, name, from + 1)
    }
}

/// The id of `name` in `ids`: its first position.
pub open spec fn name_index(ids: Seq<String>, name: Seq<char>) -> Option<int> {
    find_name(ids, name, 0)
}

proof fn lemma_find_name(ids: Seq<String>, name: Seq<char>, from: int)
    requires
        0 <= from,
    ensures
        find_name(ids, name, from) matches Some(i) ==> from <= i < ids.len() && ids[i]@ == name && forall|j: int|
            from <= j < i ==> ids[j]@ != name,
        find_name(ids, name, from) is None ==> forall|j: int| from <= j < ids.len() ==> ids[j]@ != name,
    decreases ids.len() - from,
{
    if from < ids.len() && ids[from]@ != name {
        lemma_find_name(ids, name, from + 1);
    }
}

/// `name_index` found `i` exactly when `i` is the first position of `name`.
pub proof fn lemma_name_index(ids: Seq<String>, name: Seq<char>)
    ensures
        name_index(ids, name) matches Some(i) ==> 0 <= i < ids.len() && ids[i]@ == name && forall|j: int|
            0 <= j < i ==> ids[j]@ != name,
        name_index(ids, name) is None ==> forall|j: int| 0 <= j < ids.len() ==> ids[j]@ != name,
{
    lemma_find_name(ids, name, 0);
}

/// A table of ids; an id's number is its position.
#[derive(Clone, Debug)]
pub struct NameTable {
    pub ids: Vec<String>,
}

impl NameTable {
    pub open spec fn names(&self) -> Seq<String> {
        self.ids@
    }

    /// The number of `name`, if the table has it.
    pub fn index_of(&self, name: &String) -> (found: Option<u16>)
        requires
            self.ids@.len() <= 0x1_0000,
        ensures
            found matches Some(i) ==> name_index(self.ids@, name@) == Some(i as int),
            found is None ==> name_index(self.ids@, name@) is None,
    {
        let mut i: usize = 0;
        while i < self.ids.len()
            invariant
                i <= self.ids@.len(),
                self.ids@.len() <= 0x1_0000,
                find_name(self.ids@, name@, 0) == find_name(self.ids@, name@, i as int),
            decreases self.ids@.len() - i,
        {
            if self.ids[i] == *name {
                return Some(i as u16);
            }
            i = i + 1;
        }
        None
    }

    /// The name of number `id`, if the table has that many.
    pub fn id(&self, id: u16) -> (name: Option<&String>)
        ensures
            (id as int) < self.ids@.len() ==> name == Some(&self.ids@[id as int]),
            (id as int) >= self.ids@.len() ==> name is None,
    {
        if (id as usize) < self.ids.len() {
            Some(&self.ids[id as usize])
        } else {
            None
        }
    }
}

} // verus!
