use vstd::prelude::*;

use crate::types::{Beskaeftigelsesstatus, Husstandstype};

verus! {

/// A read-only view of one citizen's row; the children's ages are borrowed
/// from the store.
pub struct BorgerView<'a, M> {
    pub borger_id: u32,
    pub alder: u8,
    pub husstandstype: Husstandstype,
    pub bruttoindkomst: M,
    pub husleje: M,
    pub boligareal: u16,
    pub antal_boern: u8,
    pub boern_aldre: &'a [u8],
    pub beskaeftigelsesstatus: Beskaeftigelsesstatus,
    pub kommune_id: u8,
}

} // verus!
