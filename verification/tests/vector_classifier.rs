use simd_sexp::vector_classifier::{Classifier, ClassifierBuilder, GenericBuilder, LookupTables};

fn run_test(accept: &[bool; 256], expect_constructible: bool) {
    match (LookupTables::new(accept), expect_constructible) {
        (Some(lookup_tables), true) => {
            for i in 0u8..=255 {
                let expected_result = accept[i as usize];
                let classifier = GenericBuilder::new().build(&lookup_tables);
                let mut in_out = [i; 1];
                classifier.classify(&mut in_out);
                let generic_result = in_out[0] != 0;
                assert_eq!(expected_result, generic_result, "at index {}", i);
            }
        },
        (None, false) => (),
        (None, true) => panic!("Expected to be able to construct classifier"),
        (Some(_), false) => panic!("Expected not to be able to construct classifier"),
    }
}

#[test]
fn const_false() {
    run_test(&[false; 256], true);
}

#[test]
fn const_true() {
    run_test(&[true; 256], true);
}

#[test]
fn pattern_1() {
    let accept: Vec<bool> = (0..256).map(|i| i % 2 == 0).collect();
    run_test(&accept.try_into().unwrap(), true);
}

#[test]
fn pattern_2() {
    let accept: Vec<bool> = (0..256).map(|i| i >= 128).collect();
    run_test(&accept.try_into().unwrap(), true);
}

#[test]
fn pattern_3() {
    let accept: Vec<bool> = (0..256).map(|i| i % 9 < 4).collect();
    run_test(&accept.try_into().unwrap(), false);
}

#[test]
fn pattern_4() {
    let accept: Vec<bool> = (0u8..=255).map(|i| "0123456789MKLF, \t\r\n".as_bytes().contains(&i)).collect();
    run_test(&accept.try_into().unwrap(), true);
}

#[test]
fn pattern_5() {
    let accept: Vec<bool> = (0u8..=255).map(|i| " \t\r\n()\\\"".as_bytes().contains(&i)).collect();
    run_test(&accept.try_into().unwrap(), true);
}
