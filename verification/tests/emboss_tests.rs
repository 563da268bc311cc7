use toposaic::emboss::{validate_embossing_text, EmbossingError, GlyphFacts};

const GOOD: GlyphFacts = GlyphFacts { renderable: true, outlined: true };
const SPACE: GlyphFacts = GlyphFacts { renderable: true, outlined: false };
const MISSING: GlyphFacts = GlyphFacts { renderable: false, outlined: false };

#[test]
fn labels_with_glyphs_emboss() {
    assert!(validate_embossing_text("Hi there", &vec![GOOD, GOOD, SPACE, GOOD, GOOD, GOOD, GOOD, GOOD]).is_ok());
}

#[test]
fn unsupported_characters_are_listed_once_in_order() {
    let error = validate_embossing_text("a☃b☃✈", &vec![GOOD, MISSING, GOOD, MISSING, MISSING]).unwrap_err();
    assert_eq!(error, EmbossingError::Unsupported(vec!['☃', '✈']));
    assert_eq!(
        error.message(),
        "the bundled tray font cannot render '☃', '✈'; use a place name written with supported Japanese, Latin, Cyrillic, or Vietnamese characters"
    );
}

#[test]
fn blank_labels_have_nothing_to_emboss() {
    let error = validate_embossing_text("  ", &vec![SPACE, SPACE]).unwrap_err();
    assert_eq!(error, EmbossingError::NoPrintable);
    assert_eq!(error.message(), "tray label contains no printable characters");
    assert_eq!(validate_embossing_text("", &Vec::new()).unwrap_err(), EmbossingError::NoPrintable);
}
