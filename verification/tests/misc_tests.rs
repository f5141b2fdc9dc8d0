use caravela::gemm_params::{
    cache_params_f32_for_tile, cache_params_f64_for_tile, compute_cache_params_f32,
    compute_cache_params_f64,
};
use caravela::sublists::{remove_and_print_v1, remove_and_print_v2, remove_and_print_v3};

#[test]
fn cache_parameters() {
    assert_eq!(compute_cache_params_f64(), (256, 120, 1024));
    assert_eq!(compute_cache_params_f32(), (512, 108, 2048));
}

#[test]
fn sublists_run_over_every_position() {
    let lst = vec![0b0001u8, 0b0010, 0b0100, 0b1000];
    remove_and_print_v1(&lst, 0);
    remove_and_print_v2(&lst);
    remove_and_print_v3(&lst);
    let empty: Vec<u8> = vec![];
    remove_and_print_v1(&empty, 0);
    remove_and_print_v2(&empty);
    remove_and_print_v3(&empty);
}

#[test]
fn cache_parameters_for_each_tile() {
    assert_eq!(cache_params_f64_for_tile(6, 8), (256, 120, 1024));
    assert_eq!(cache_params_f32_for_tile(12, 16), (512, 108, 2048));
    assert_eq!(cache_params_f64_for_tile(8, 6), (256, 120, 1024));
    assert_eq!(cache_params_f32_for_tile(16, 12), (512, 112, 2048));
    assert_eq!(cache_params_f64_for_tile(4, 4), (256, 124, 1024));
}
