use blif_sim::store::{SimError, Store};
use blif_sim::util::{get_n_to_m, pixel_color, set_n, set_n_to_m, to_bit_vec};

#[test]
fn bit_vector_of_five() {
    let bv = to_bit_vec(5);
    assert_eq!(bv.len(), 64);
    assert_eq!(&bv[0..4], &[1, 0, 1, 0]);
    assert!(bv[4..].iter().all(|&b| b == 0));
    assert_eq!(to_bit_vec(u64::MAX), vec![1u8; 64]);
}

#[test]
fn indexed_signals_read_and_write() {
    let mut store = Store::new();
    for i in 0..12 {
        store.register(&format!("pixel[{}]", i));
    }
    assert_eq!(set_n("pixel", 10, 1, &mut store), Ok(()));
    assert_eq!(store.get("pixel[10]"), Some(1));
    assert_eq!(set_n_to_m("pixel", 0, 3, vec![1, 0, 1], &mut store), Ok(()));
    assert_eq!(get_n_to_m("pixel", 0, 4, &store), Ok(vec![1, 0, 1, 0]));
    assert_eq!(get_n_to_m("pixel", 9, 12, &store), Ok(vec![0, 1, 0]));
    assert_eq!(get_n_to_m("pixel", 3, 3, &store), Ok(vec![]));
    assert_eq!(blif_sim::util::set("pixel[11]", 1, &mut store), Ok(()));
    assert_eq!(store.get("pixel[11]"), Some(1));
}

#[test]
fn indexed_signals_missing() {
    let mut store = Store::new();
    store.register("bus[0]");
    assert_eq!(
        get_n_to_m("bus", 0, 2, &store),
        Err(SimError::UninitializedSignal("bus[1]".to_string()))
    );
    assert_eq!(
        set_n_to_m("bus", 0, 2, vec![1, 1], &mut store),
        Err(SimError::UninitializedSignal("bus[1]".to_string()))
    );
    assert_eq!(store.get("bus[0]"), Some(0));
    assert_eq!(
        blif_sim::util::set("nope", 1, &mut store),
        Err(SimError::UninitializedSignal("nope".to_string()))
    );
    assert_eq!(
        set_n("bus", 5, 1, &mut store),
        Err(SimError::UninitializedSignal("bus[5]".to_string()))
    );
}

#[test]
fn pixel_colours() {
    assert_eq!(pixel_color(&vec![0, 0, 0, 0]), 0xFF00_0000);
    assert_eq!(pixel_color(&vec![1, 0, 0, 0]), 0xFF00_00FF);
    assert_eq!(pixel_color(&vec![0, 1, 1]), 0xFFFF_FF00);
    assert_eq!(pixel_color(&vec![1, 1, 1, 1]), 0xFFFF_FFFF);
}
