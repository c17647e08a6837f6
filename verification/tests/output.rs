use rusty_chromaprint::fingerprinter::Configuration;
use rusty_chromaprint::output::{encode_fingerprint, fingerprint_text, raw_fingerprint_text};

const INPUT: [u32; 32] = [
    0x0FCAF446, 0xE3519E89, 0xD3494DD6, 0x8F219806, 0x9200D530, 0x06B1D52F, 0xB48CC681,
    0x428991C3, 0x59AFBD6B, 0x6ECFB2E5, 0xE8EB7BC3, 0x99A44270, 0x31FFEC13, 0x4A4D81DA,
    0x53887C82, 0x2BB7BEC2, 0xAB895A65, 0x9D7C0AE4, 0xDA356857, 0xE030F7D8, 0x4D428EEE,
    0x0558E019, 0xC3278998, 0xA1D035E4, 0x582E98E5, 0x44C8B708, 0x2E8BA9E2, 0xCB13BC48,
    0xB169A3D8, 0x861274AF, 0x1213EF1C, 0x1F9F06B8,
];

#[test]
fn encoded_fingerprints() {
    let test2 = Configuration::preset_test2();
    // one, two and no bytes beyond whole groups of three
    assert_eq!(encode_fingerprint(&test2, &[1]), "AQAAAQE");
    assert_eq!(encode_fingerprint(&test2, &[]), "AQAAAA");
    assert_eq!(encode_fingerprint(&Configuration::preset_test1(), &[0x8000_0000]), "AAAAAQcZ");
    assert_eq!(
        encode_fingerprint(&Configuration::preset_test3(), &[0xffff_ffff, 0]),
        "AgAAAkmSJEmSJEmSJEmSJEiSJEmSJEmSJEmSJAE"
    );
    assert_eq!(encode_fingerprint(&Configuration::preset_test5(), &[5, 5, 1]), "BAAAAxEwAA");
    assert_eq!(
        encode_fingerprint(&test2, &INPUT),
        "AQAAIAqpJNKSJEiSRVIUZYsSJEmkTGEeVImkUGEiKMqUqVOCJMkZTYMSKRmVhIugKpGkR0lAaRGzRYESJsmj\
         RIGybdmYIlmUJUsyMUHCLJESRZWQLVGULUqUBIykJEnEZMHXJEniJEgybYmS5MgrSUkUBckiMdqUEEnCJMmi\
         K4GibEm2RIqEJEqiRJnyIc8UJUmyMFiSMImSKIkY5IqkJEmyJEEUJUkiZskSSEqUhOmkQJIiPYuWoEuSVEmm\
         JEiiRImUREmUKEgWJcpyDZsyJQujAKGAAQYAAAQwAA"
    );
}

#[test]
fn raw_fingerprints() {
    assert_eq!(raw_fingerprint_text(&[], false), "");
    assert_eq!(raw_fingerprint_text(&[], true), "");
    assert_eq!(raw_fingerprint_text(&[0], false), "0");
    assert_eq!(raw_fingerprint_text(&[1, 0xffff_ffff, 5], false), "1,4294967295,5");
    assert_eq!(raw_fingerprint_text(&[1, 0xffff_ffff, 5], true), "1,-1,5");
    assert_eq!(
        raw_fingerprint_text(&[0x8000_0000, 0x7fff_ffff, 10], true),
        "-2147483648,2147483647,10"
    );
    assert_eq!(
        raw_fingerprint_text(&[0x8000_0000, 0x7fff_ffff, 10], false),
        "2147483648,2147483647,10"
    );
}

#[test]
fn fingerprint_text_is_raw_or_encoded() {
    let config = Configuration::preset_test2();
    let fp = [1, 0xffff_ffff];
    assert_eq!(fingerprint_text(&config, &fp, true, false), "1,4294967295");
    assert_eq!(fingerprint_text(&config, &fp, true, true), "1,-1");
    assert_eq!(fingerprint_text(&config, &fp, false, false), encode_fingerprint(&config, &fp));
    assert_eq!(fingerprint_text(&config, &fp, false, true), encode_fingerprint(&config, &fp));
}
