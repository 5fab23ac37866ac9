use lockbook::charsmap::{charsmap_is_sound, decode_64, table_is_sound};

#[test]
fn base_64_is_decoded() {
    assert_eq!(decode_64(""), Some(vec![]));
    assert_eq!(decode_64("TWFu"), Some(b"Man".to_vec()));
    assert_eq!(decode_64("TWE="), Some(b"Ma".to_vec()));
    assert_eq!(decode_64("TQ=="), Some(b"M".to_vec()));
    assert_eq!(decode_64("+/+/AAEC"), Some(vec![0xfb, 0xff, 0xbf, 0, 1, 2]));
    assert_eq!(decode_64("bGlnaHQgd29yay4="), Some(b"light work.".to_vec()));
    assert_eq!(decode_64("TQ"), None);
    assert_eq!(decode_64("TQ==TWFu"), None);
    assert_eq!(decode_64("T=Fu"), None);
    assert_eq!(decode_64("TW u"), None);
}

/// A table with these units in one block, and this text.
fn table(units: &[(usize, u32)], text: &str) -> Vec<u8> {
    let mut all = vec![0x8000_0000u32; 256];
    for (i, unit) in units {
        all[*i] = *unit;
    }
    let mut bytes = (4 * 256u32).to_le_bytes().to_vec();
    for unit in all {
        bytes.extend_from_slice(&unit.to_le_bytes());
    }
    bytes.extend_from_slice(text.as_bytes());
    bytes
}

const WORD: u32 = 1 << 8;

#[test]
fn sound_tables_send_searches_to_units() {
    assert!(table_is_sound(&table(&[(0, 0)], "")));
    assert!(table_is_sound(&table(&[(0, 255 << 10)], "")));
    assert!(!table_is_sound(&table(&[(0, 256 << 10)], "")));
    assert!(!table_is_sound(&table(&[(0, 0), (97, 97 | 256 << 10)], "")));
    assert!(!table_is_sound(&table(&[(0, 0), (97, 97 | 1 << 9 | 1 << 10)], "")));
}

#[test]
fn sound_tables_lead_words_to_replacements() {
    let word = 97 | WORD | (97 ^ 5) << 10;
    let leads_to = |at: u32| table(&[(0, 0), (97, word), (5, 0x8000_0000 | at)], "é\0b\0");
    assert!(table_is_sound(&leads_to(0)));
    assert!(!table_is_sound(&leads_to(1)));
    assert!(table_is_sound(&leads_to(2)));
    assert!(table_is_sound(&leads_to(5)));
    assert!(!table_is_sound(&leads_to(6)));
}

#[test]
fn tables_have_whole_blocks() {
    assert!(!table_is_sound(&vec![]));
    assert!(!table_is_sound(&vec![0, 0, 0, 0]));
    let mut short = table(&[(0, 0)], "");
    short.truncate(4 + 4 * 255);
    assert!(!table_is_sound(&short));
    let mut odd = table(&[(0, 0)], "");
    odd[0..4].copy_from_slice(&(4 * 255u32).to_le_bytes());
    assert!(!table_is_sound(&odd));
}

#[test]
fn tables_are_given_in_base_64() {
    assert!(!charsmap_is_sound("AAAA"));
    assert!(!charsmap_is_sound("?"));
    let zeros = format!("AAQA{}AAA=", "A".repeat(1364));
    assert!(charsmap_is_sound(&zeros));
}
