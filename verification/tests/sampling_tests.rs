use find_dupl_file::sampling::{sample_hash, sample_plan};

#[test]
fn samples_read_start_middle_and_end() {
    let plan = sample_plan(900, 100);
    assert_eq!(plan.len, 100);
    assert_eq!(plan.offsets, vec![0, 450, 800]);
}

#[test]
fn samples_shrink_to_a_third_of_small_files() {
    let plan = sample_plan(30, 4 * 1024 * 1024);
    assert_eq!(plan.len, 10);
    assert_eq!(plan.offsets, vec![0, 15, 20]);
    let plan = sample_plan(2, 100);
    assert_eq!(plan.len, 0);
    assert!(plan.offsets.is_empty());
}

#[test]
fn sample_hash_is_the_sha256_of_the_samples_in_order() {
    let chunks = vec![b"a".to_vec(), b"bc".to_vec()];
    assert_eq!(
        sample_hash(1, &chunks),
        "ba7816bf8f01cfea414140de5dae2223b00361a396177a9cb410ff61f20015ad"
    );
    assert_eq!(
        sample_hash(3, &Vec::new()),
        "e3b0c44298fc1c149afbf4c8996fb92427ae41e4649b934ca495991b7852b855"
    );
}

#[test]
fn empty_samples_give_an_empty_hash() {
    assert_eq!(sample_hash(0, &vec![b"ignored".to_vec()]), "");
}
