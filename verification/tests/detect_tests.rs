use a3s_apofasi::detect::{analyse_text, detect_script};

#[test]
fn detects_han_script() {
    let d = analyse_text("我们被重复扣费了，请马上退款");
    assert_eq!(d.script, "han");
    assert!(!d.is_english);
}

#[test]
fn detects_english_latin() {
    let d = analyse_text("Please refund the duplicate charge on my invoice.");
    assert_eq!(d.script, "latin");
    assert!(d.is_english);
}

#[test]
fn no_letters_is_unknown() {
    let (script, non_latin, letters) = detect_script("12345 !?");
    assert_eq!(script, "unknown");
    assert_eq!((non_latin, letters), (0, 0));
    let d = analyse_text("");
    assert_eq!(d.language, "und");
}

#[test]
fn counts_letters_exactly() {
    let (script, non_latin, letters) = detect_script("ab сд");
    assert_eq!(script, "cyrillic");
    assert_eq!((non_latin, letters), (2, 4));
}

#[test]
fn german_text_is_latin_but_not_english() {
    let d = analyse_text("Die Rechnung ist falsch und nicht bezahlt");
    assert_eq!(d.script, "latin");
    assert_eq!(d.language, "de");
    assert!(!d.is_english);
}
