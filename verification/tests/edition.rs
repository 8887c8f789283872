use std::str::FromStr;
use ungrammar_parser::edition::Edition;

#[test]
fn the_first_edition_is_named_one() {
    assert_eq!(Edition::from_str("1").unwrap(), Edition::V1);
    assert_eq!(Edition::parse("1").unwrap(), Edition::V1);
    assert_eq!("1".parse::<Edition>().unwrap(), Edition::V1);
    assert_eq!(Edition::V1.name(), "1");
    assert_eq!(Edition::CURRENT, Edition::V1);
    assert_eq!(Edition::DEFAULT, Edition::V1);
}

#[test]
fn other_texts_name_no_edition() {
    for text in ["", "2", "11", "1 ", " 1", "one", "\u{661}"] {
        let err = Edition::from_str(text).unwrap_err();
        assert_eq!(err.invalid_input(), text);
        assert_eq!(err.message(), format!("invalid edition: {:?}", text));
    }
    assert_eq!(Edition::parse("2\"").unwrap_err().message(), "invalid edition: \"2\\\"\"");
}
