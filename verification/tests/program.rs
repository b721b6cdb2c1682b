#[test]
fn main_test_pass() {}

#[test]
fn library_is_linked() {
    let size = sssim::data_size::DataSize::bytes(3);
    assert_eq!(size.as_bytes(), 3);
    assert_eq!(sssim::data_size::DataSize::zero().as_bytes(), 0);
}
