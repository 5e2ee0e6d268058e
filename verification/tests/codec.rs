use rustexcel::id_converter::{base10_to_base26, base26_to_base10};
use rustexcel::table_error::IdError;

#[test]
fn table_test_base10_to_base26() {
    let mut number: usize = 3;
    assert_eq!("C", base10_to_base26(number).unwrap());
    number = 28;
    assert_eq!("AB", base10_to_base26(number).unwrap());
}

#[test]
fn table_test_base26_to_base10() {
    let mut letter = String::from("C");
    assert_eq!(3, base26_to_base10(letter).unwrap());
    letter = String::from("AB");
    assert_eq!(28, base26_to_base10(letter).unwrap());
}

#[test]
fn id_converter_test_base10_to_base26() {
    let mut number: usize = 3;
    assert_eq!("C", base10_to_base26(number).unwrap());
    number = 28;
    assert_eq!("AB", base10_to_base26(number).unwrap());
}

#[test]
fn id_converter_test_base26_to_base10() {
    let mut letter = String::from("C");
    assert_eq!(3, base26_to_base10(letter).unwrap());
    letter = String::from("AB");
    assert_eq!(28, base26_to_base10(letter).unwrap());
}

#[test]
fn codec_round_trips_every_short_label() {
    for label in ["A", "B", "Z", "AA", "AZ", "BA", "ZZ", "AAA", "ABC", "ZZZ"] {
        let pos = base26_to_base10(String::from(label)).unwrap();
        assert_eq!(label, base10_to_base26(pos as usize).unwrap());
    }
}

#[test]
fn codec_boundary_positions() {
    assert_eq!("A", base10_to_base26(1).unwrap());
    assert_eq!("Z", base10_to_base26(26).unwrap());
    assert_eq!("AA", base10_to_base26(27).unwrap());
    assert_eq!(702, base26_to_base10(String::from("ZZ")).unwrap());
    assert_eq!("ZZ", base10_to_base26(702).unwrap());
}

#[test]
fn codec_rejects_bad_input() {
    assert_eq!(Err(IdError::InvalidPosition), base10_to_base26(0));
    assert_eq!(Err(IdError::InvalidLabel), base26_to_base10(String::new()));
    assert_eq!(Err(IdError::InvalidLabel), base26_to_base10(String::from("a1")));
    assert_eq!(Err(IdError::InvalidLabel), base26_to_base10(String::from("A1")));
}
