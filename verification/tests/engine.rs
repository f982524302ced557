use ligra::ligra::par_vec;
use ligra::ligra::par_vec_copy;
use ligra::ligra::par_vec_with;

#[test]
fn par_vec_builds_by_index() {
    let data = par_vec(5, |i| i * 2);
    assert_eq!(data, vec![0, 2, 4, 6, 8]);
}

#[test]
fn par_vec_with_builds_by_call() {
    let data = par_vec_with(3, || 7usize);
    assert_eq!(data, vec![7, 7, 7]);
}

#[test]
fn par_vec_copy_builds_by_clone() {
    let data = par_vec_copy(4, true);
    assert_eq!(data, vec![true, true, true, true]);
}
