//! The crate as a whole.

use shrestidb::VERSION;

#[test]
fn it_works() {
    assert_eq!(2 + 2, 4);
}

#[test]
fn the_version_is_told() {
    assert_eq!(VERSION, "0.1.0");
}
