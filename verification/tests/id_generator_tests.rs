use gannai::id_generator::IdGenerator;

#[test]
fn id_generator_test_new_should_succeed() {
    IdGenerator::new(42);
}

#[test]
fn test_first_generated_should_be_equal_to_initial() {
    assert_eq!(IdGenerator::new(42).generate(), 42);
}

#[test]
fn test_generate_advances_by_one() {
    let mut id = IdGenerator::new(7);
    assert_eq!(id.generate(), 7);
    assert_eq!(id.generate(), 8);
    assert_eq!(id.generate(), 9);
}
