use b64_ct::FromBase64Error;

#[test]
fn display_errors() {
    println!("Invalid length is {:?}", FromBase64Error::InvalidLength);
    println!("Invalid trailer is {:?}", FromBase64Error::InvalidTrailer);
    println!("Invalid character is {:?}", FromBase64Error::InvalidCharacter(0));
    assert_eq!(FromBase64Error::InvalidLength.describe(), "InvalidLength");
    assert_eq!(FromBase64Error::InvalidTrailer.describe(), "InvalidTrailer");
    assert_eq!(
        FromBase64Error::InvalidCharacter(0).describe(),
        "InvalidCharacter"
    );
}
