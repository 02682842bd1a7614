use minisketch_rs::{Minisketch, MinisketchError};

#[test]
fn error_keeps_its_message() {
    let e = MinisketchError::new("Merge is failed");
    assert_eq!(e.message(), "Merge is failed");
    assert_eq!(MinisketchError::new("").message(), "");
}

#[test]
fn error_as_text() {
    let e = MinisketchError::new("Sketch decoding failed");
    assert_eq!(e.to_string(), "MinisketchError(Sketch decoding failed)");
    assert_eq!(MinisketchError::new("").to_string(), "MinisketchError()");
}

#[test]
fn error_of_each_operation() {
    let unsupported = Minisketch::try_new(0, 0, 4).unwrap_err();
    assert_eq!(unsupported.message(), "Unsupported minisketch parameters");

    let mut a = Minisketch::try_new(12, 0, 4).unwrap();
    let b = Minisketch::try_new(16, 0, 4).unwrap();
    assert_eq!(a.merge(&b).unwrap_err().message(), "Merge is failed");

    let mut short = [0u8; 5];
    assert_eq!(
        a.serialize(&mut short).unwrap_err().message(),
        "Invalid size of the output buffer"
    );
    assert_eq!(
        a.deserialize(&short).unwrap_err().message(),
        "Invalid size of the input buffer"
    );

    let mut c = Minisketch::try_new(12, 0, 2).unwrap();
    for element in [100u64, 200, 300] {
        c.add(element);
    }
    let mut out = [0u64; 2];
    assert_eq!(c.decode(&mut out).unwrap_err().message(), "Sketch decoding failed");
}
