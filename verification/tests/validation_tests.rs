use flatbuffers::FlatBufferBuilder;
use flatstream::{CompositeValidator, ErrorKind, NoValidator, SizeValidator, StructuralValidator, Validator};

fn rejected_by(result: Result<(), flatstream::Error>, name: &str) -> bool {
    match result {
        Err(e) => matches!(e.kind(), ErrorKind::ValidationFailed { validator, .. } if *validator == name),
        Ok(()) => false,
    }
}

#[test]
fn no_validator_is_noop() {
    let v = NoValidator;
    assert!(v.validate(b"anything").is_ok());
}

#[test]
fn size_validator_bounds() {
    let v = SizeValidator::new(3, 5);
    assert!(v.validate(b"abc").is_ok());
    assert!(rejected_by(v.validate(b"ab"), "SizeValidator"));
    assert!(rejected_by(v.validate(b"abcdef"), "SizeValidator"));
}

fn build_empty_table() -> Vec<u8> {
    let mut b = FlatBufferBuilder::new();
    let start = b.start_table();
    let root = b.end_table(start);
    b.finish(root, None);
    b.finished_data().to_vec()
}

#[test]
fn structural_validator_rejects_tiny_buffer() {
    let sv = StructuralValidator::new();
    let small = [0u8; 2];
    assert!(rejected_by(sv.validate(&small), "StructuralValidator"));
}

#[test]
fn structural_validator_accepts_valid_table() {
    let sv = StructuralValidator::new();
    let buf = build_empty_table();
    assert!(sv.validate(&buf).is_ok());
}

#[test]
fn composite_validator_runs_all() {
    let buf = build_empty_table();
    let composite = CompositeValidator::new()
        .add(SizeValidator::new(1, 10_000))
        .add(StructuralValidator::new());
    assert!(composite.validate(&buf).is_ok());

    let bad = b"ab";
    let composite = CompositeValidator::new().add(SizeValidator::new(3, 10));
    assert!(rejected_by(composite.validate(bad), "SizeValidator"));
}

#[test]
fn validator_names() {
    assert_eq!(NoValidator.name(), "NoValidator");
    assert_eq!(SizeValidator::new(0, 1).name(), "SizeValidator");
    assert_eq!(StructuralValidator::new().name(), "StructuralValidator");
    assert_eq!(CompositeValidator::new().name(), "CompositeValidator");
}

#[test]
fn empty_composite_accepts_everything_and_first_rejection_wins() {
    assert!(CompositeValidator::new().validate(b"").is_ok());
    let composite = CompositeValidator::new()
        .add(SizeValidator::new(0, 1))
        .add(StructuralValidator::new());
    assert!(rejected_by(composite.validate(b"abc"), "SizeValidator"));
}
