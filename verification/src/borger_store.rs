use vstd::prelude::*;

use crate::borger_view::BorgerView;
use crate::types::{Beskaeftigelsesstatus, Husstandstype};

verus! {

/// Column-based (struct-of-arrays) storage of citizen profiles: one `Vec`
/// per field, row `i` of every column describing the same citizen.
/// `M` is the type of money amounts (income and rent).
pub struct BorgerStore<M> {
    pub borger_id: Vec<u32>,
    pub alder: Vec<u8>,
    pub husstandstype: Vec<Husstandstype>,
    pub bruttoindkomst: Vec<M>,
    pub husleje: Vec<M>,
    pub boligareal: Vec<u16>,
    pub antal_boern: Vec<u8>,
    pub boern_aldre: Vec<Vec<u8>>,
    pub beskaeftigelsesstatus: Vec<Beskaeftigelsesstatus>,
    pub kommune_id: Vec<u8>,
}

/// Index of the first occurrence of `x` in `s`, if any.
pub open spec fn first_index_of(s: Seq<u32>, x: u32) -> Option<usize> {
    if s.contains(x) {
        Some(choose|i: usize| 0 <= i < s.len() && s[i as int] == x && forall|j: int| 0 <= j < i ==> s[j] != x)
    } else {
        None
    }
}

impl<M> BorgerStore<M> {
    /// Number of citizens, counted by the age column.
    pub open spec fn rows(&self) -> nat {
        self.alder@.len()
    }

    /// Every column has an entry at row `index`.
    pub open spec fn has_row(&self, index: int) -> bool {
        &&& 0 <= index
        &&& index < self.borger_id@.len()
        &&& index < self.alder@.len()
        &&& index < self.husstandstype@.len()
        &&& index < self.bruttoindkomst@.len()
        &&& index < self.husleje@.len()
        &&& index < self.boligareal@.len()
        &&& index < self.antal_boern@.len()
        &&& index < self.boern_aldre@.len()
        &&& index < self.beskaeftigelsesstatus@.len()
        &&& index < self.kommune_id@.len()
    }

    pub fn len(&self) -> (n: usize)
        ensures
            n == self.rows(),
    {
        self.alder.len()
    }

    pub fn is_empty(&self) -> (b: bool)
        ensures
            b == (self.rows() == 0),
    {
        self.alder.len() == 0
    }

    /// The row of the first citizen with this id, or `None` if no citizen has it.
    pub fn find_by_id(&self, borger_id: u32) -> (r: Option<usize>)
        ensures
            r == first_index_of(self.borger_id@, borger_id),
            r matches Some(i) ==> i < self.borger_id@.len() && self.borger_id@[i as int] == borger_id,
    {
        let n = self.borger_id.len();
        let mut i: usize = 0;
        while i < n
            invariant
                n == self.borger_id@.len(),
                0 <= i <= n,
                forall|j: int| 0 <= j < i ==> self.borger_id@[j] != borger_id,
            decreases n - i,
        {
            if self.borger_id[i] == borger_id {
                proof {
                    assert(self.borger_id@.contains(borger_id));
                    let k = first_index_of(self.borger_id@, borger_id)->Some_0;
                    assert(0 <= k < n && self.borger_id@[k as int] == borger_id);
                    if k < i {
                        assert(self.borger_id@[k as int] != borger_id);
                    }
                    if i < k {
                        assert(self.borger_id@[i as int] != borger_id);
                    }
                }
                return Some(i);
            }
            i += 1;
        }
        None
    }
}

impl<M: Copy> BorgerStore<M> {
    /// The citizen in row `index`.
    pub fn view(&self, index: usize) -> (v: BorgerView<'_, M>)
        requires
            self.has_row(index as int),
        ensures
            v.borger_id == self.borger_id@[index as int],
            v.alder == self.alder@[index as int],
            v.husstandstype == self.husstandstype@[index as int],
            v.bruttoindkomst == self.bruttoindkomst@[index as int],
            v.husleje == self.husleje@[index as int],
            v.boligareal == self.boligareal@[index as int],
            v.antal_boern == self.antal_boern@[index as int],
            v.boern_aldre@ == self.boern_aldre@[index as int]@,
            v.beskaeftigelsesstatus == self.beskaeftigelsesstatus@[index as int],
            v.kommune_id == self.kommune_id@[index as int],
    {
        BorgerView {
            borger_id: self.borger_id[index],
            alder: self.alder[index],
            husstandstype: self.husstandstype[index],
            bruttoindkomst: self.bruttoindkomst[index],
            husleje: self.husleje[index],
            boligareal: self.boligareal[index],
            antal_boern: self.antal_boern[index],
            boern_aldre: self.boern_aldre[index].as_slice(),
            beskaeftigelsesstatus: self.beskaeftigelsesstatus[index],
            kommune_id: self.kommune_id[index],
        }
    }
}

} // verus!
