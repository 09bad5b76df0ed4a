
#[test]
fn math() {
    // skip inline math
}
