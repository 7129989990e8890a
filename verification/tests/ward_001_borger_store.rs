use kmd_engine::borger_store::BorgerStore;
use kmd_engine::geo::geo_aggregator::{compute_kommune_populations, filter_rows, KOMMUNE_COUNT};
use kmd_engine::types::{Beskaeftigelsesstatus, Husstandstype};

fn sample_store() -> BorgerStore<f64> {
    BorgerStore {
        borger_id: vec![1, 2, 3, 4, 2],
        alder: vec![25, 34, 70, 41, 9],
        husstandstype: vec![
            Husstandstype::Enlig,
            Husstandstype::EnligForsoerger,
            Husstandstype::ParUdenBoern,
            Husstandstype::ParMedBoern,
            Husstandstype::Enlig,
        ],
        bruttoindkomst: vec![210_000.0, 305_000.0, 180_000.0, 640_000.0, 0.0],
        husleje: vec![5_200.0, 7_100.0, 4_300.0, 9_800.0, 1_500.0],
        boligareal: vec![48, 72, 90, 130, 20],
        antal_boern: vec![0, 2, 0, 3, 0],
        boern_aldre: vec![vec![], vec![1, 8], vec![], vec![4, 12, 16], vec![]],
        beskaeftigelsesstatus: vec![
            Beskaeftigelsesstatus::Ledig,
            Beskaeftigelsesstatus::Aktivitetsparat,
            Beskaeftigelsesstatus::Fuldtid,
            Beskaeftigelsesstatus::Deltid,
            Beskaeftigelsesstatus::Sygemeldt,
        ],
        kommune_id: vec![1, 98, 1, 3, 98],
    }
}

#[test]
fn store_len_and_empty() {
    let s = sample_store();
    assert_eq!(s.len(), 5);
    assert!(!s.is_empty());
    let empty: BorgerStore<f64> = BorgerStore {
        borger_id: vec![],
        alder: vec![],
        husstandstype: vec![],
        bruttoindkomst: vec![],
        husleje: vec![],
        boligareal: vec![],
        antal_boern: vec![],
        boern_aldre: vec![],
        beskaeftigelsesstatus: vec![],
        kommune_id: vec![],
    };
    assert_eq!(empty.len(), 0);
    assert!(empty.is_empty());
    assert_eq!(empty.find_by_id(1), None);
}

#[test]
fn find_by_id_returns_first_row_with_the_id() {
    let s = sample_store();
    assert_eq!(s.find_by_id(1), Some(0));
    assert_eq!(s.find_by_id(2), Some(1));
    assert_eq!(s.find_by_id(4), Some(3));
    assert_eq!(s.find_by_id(0), None);
    assert_eq!(s.find_by_id(5), None);
}

#[test]
fn view_reads_one_row() {
    let s = sample_store();
    let v = s.view(3);
    assert_eq!(v.borger_id, 4);
    assert_eq!(v.alder, 41);
    assert_eq!(v.husstandstype, Husstandstype::ParMedBoern);
    assert_eq!(v.bruttoindkomst, 640_000.0);
    assert_eq!(v.husleje, 9_800.0);
    assert_eq!(v.boligareal, 130);
    assert_eq!(v.antal_boern, 3);
    assert_eq!(v.boern_aldre, &[4, 12, 16]);
    assert_eq!(v.beskaeftigelsesstatus, Beskaeftigelsesstatus::Deltid);
    assert_eq!(v.kommune_id, 3);
}

#[test]
fn populations_count_every_citizen_once() {
    let s = sample_store();
    let pops = compute_kommune_populations(&s);
    assert_eq!(pops[1], 2);
    assert_eq!(pops[3], 1);
    assert_eq!(pops[98], 2);
    assert_eq!(pops[2], 0);
    assert_eq!(pops.iter().sum::<usize>(), s.len());
    assert_eq!(KOMMUNE_COUNT, 98);
}

#[test]
fn kommune_filter_selects_rows() {
    let s = sample_store();
    assert_eq!(filter_rows(&s.kommune_id, 5, Some(98)), vec![1, 4]);
    assert_eq!(filter_rows(&s.kommune_id, 5, None), vec![0, 1, 2, 3, 4]);
    assert_eq!(filter_rows(&s.kommune_id, 3, Some(98)), vec![1]);
    assert_eq!(filter_rows(&s.kommune_id, 5, Some(101)), Vec::<usize>::new());
}
