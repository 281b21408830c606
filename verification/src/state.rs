use vstd::prelude::*;
use ahash::AHashMap;
use crate::cluster::Pos;
use crate::maps::{ids_get, ids_insert, ids_new, ids_of};

verus! {

/// The sequences of all constraints: their names, the columns their residues stand in, and
/// the number of columns of each constraint.
pub struct AlnState {
    pub names: Vec<String>,
    pub names2id: AHashMap<String, usize>,
    pub s: Vec<Vec<(u32, u32)>>,
    pub column_counts: Vec<usize>,
}

/// The residues of one row stand in constraint `k`, in columns that rise and stay below `width`.
pub open spec fn row_in_constraint(row: Seq<Pos>, k: int, width: int) -> bool {
    &&& forall|i: int| 0 <= i < row.len() ==> (#[trigger] row[i]).0 == k && row[i].1 < width
    &&& forall|i: int, j: int| 0 <= i < j < row.len() ==> row[i].1 < row[j].1
}

/// The residues of the row stand in one of the constraints, in rising columns that it has.
pub open spec fn row_fits(row: Seq<Pos>, counts: Seq<usize>) -> bool {
    exists|k: int| 0 <= k < counts.len() && #[trigger] row_in_constraint(row, k, counts[k] as int)
}

impl AlnState {
    /// The names are pairwise different, and the map holds each name's index.
    pub open spec fn names_wf(&self) -> bool {
        &&& forall|i: int|
            0 <= i < self.names.len() ==> ids_of(self.names2id).contains_key(
                #[trigger] self.names[i]@,
            ) && ids_of(self.names2id)[self.names[i]@] == i
        &&& forall|k: Seq<char>| #[trigger]
            ids_of(self.names2id).contains_key(k) ==> ids_of(self.names2id)[k]
                < self.names.len() && self.names[ids_of(self.names2id)[k] as int]@ == k
    }

    /// Every sequence has a name, and its residues lie in one constraint, in rising columns
    /// that the constraint has.
    pub open spec fn wf(&self) -> bool {
        &&& self.names_wf()
        &&& self.names.len() == self.s.len()
        &&& self.column_counts.len() <= u32::MAX
        &&& forall|k: int|
            0 <= k < self.column_counts.len() ==> #[trigger] self.column_counts[k] <= u32::MAX
        &&& forall|i: int|
            0 <= i < self.s.len() ==> row_fits((#[trigger] self.s[i])@, self.column_counts@)
    }

    /// The id of a known name.
    pub open spec fn id_of(&self, name: Seq<char>) -> usize {
        ids_of(self.names2id)[name]
    }

    /// Whether the name is known.
    pub open spec fn knows(&self, name: Seq<char>) -> bool {
        ids_of(self.names2id).contains_key(name)
    }

    /// A state without sequences or constraints.
    pub fn new() -> (r: Self)
        ensures
            r.wf(),
            r.names@.len() == 0,
            r.s@.len() == 0,
            r.column_counts@.len() == 0,
            forall|k: Seq<char>| !r.knows(k),
    {
        Self { names: Vec::new(), names2id: ids_new(), s: Vec::new(), column_counts: Vec::new() }
    }

    /// The id of `name`, which is registered first if it is new.
    pub fn request_name(&mut self, name: &str) -> (id: usize)
        requires
            old(self).names_wf(),
        ensures
            final(self).names_wf(),
            final(self).s == old(self).s,
            final(self).column_counts == old(self).column_counts,
            final(self).knows(name@),
            id == final(self).id_of(name@),
            old(self).knows(name@) ==> id == old(self).id_of(name@) && final(self).names@
                == old(self).names@,
            !old(self).knows(name@) ==> id == old(self).names.len() && final(self).names@.len()
                == id + 1 && final(self).names@[id as int]@ == name@,
            forall|i: int|
                0 <= i < old(self).names@.len() ==> final(self).names@[i] == old(self).names@[i],
            forall|k: Seq<char>| old(self).knows(k) ==> final(self).knows(k) && final(self).id_of(k)
                == old(self).id_of(k),
            forall|k: Seq<char>| final(self).knows(k) ==> old(self).knows(k) || k == name@,
    {
        match ids_get(&self.names2id, name) {
            Some(id) => id,
            None => {
                let id = self.names.len();
                let owned = name.to_owned();
                let key = name.to_owned();
                ids_insert(&mut self.names2id, key, id);
                self.names.push(owned);
                id
            },
        }
    }

    /// The id under which `name` is registered, if it is.
    pub fn lookup(&self, name: &str) -> (r: Option<usize>)
        ensures
            self.knows(name@) ==> r == Some(self.id_of(name@)),
            !self.knows(name@) ==> r.is_none(),
    {
        ids_get(&self.names2id, name)
    }

    /// The id of a registered name.
    pub fn retrieve(&self, name: &str) -> (id: usize)
        requires
            self.knows(name@),
        ensures
            id == self.id_of(name@),
    {
        match ids_get(&self.names2id, name) {
            Some(id) => id,
            None => 0,
        }
    }

    /// The number of constraints.
    pub fn ncols(&self) -> (n: usize)
        ensures
            n == self.column_counts@.len(),
    {
        self.column_counts.len()
    }
}

} // verus!
