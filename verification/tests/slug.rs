use furcons_bsky_labeler::slug::{
    guess_language_for_region, slugify_for_label, to_lower, try_slugify_for_label,
};

#[test]
fn test_slugify_for_label() {
    assert_eq!(slugify_for_label("Anthrocon", "en-US"), "anthrocon");
    assert_eq!(slugify_for_label("2Dance", "en-DE"), "ii-dance");
    assert_eq!(slugify_for_label("A2B", "en-US"), "a-ii-b");
    assert_eq!(slugify_for_label("Futrołajki", "pl-PL"), "futrolajki");
    assert_eq!(slugify_for_label("Örli Försztivál", "hu-HU"), "orli-forsztival");
    assert_eq!(slugify_for_label("んなモフ", "ja-JP"), "nnamohu");
    assert_eq!(slugify_for_label("Fur-Eh!", "hu-HU"), "fur-eh");
    assert_eq!(slugify_for_label("IĞDIR", "tr-TR"), "igdir");
    assert_eq!(slugify_for_label("Tails & Tornadoes", "en-US"), "tails-and-tornadoes");
}

#[test]
fn test_try_slugify_accepts_ordinary_names() {
    assert_eq!(try_slugify_for_label("Anthrocon 2025", "en-US").as_deref(), Some("anthrocon-mmxxv"));
}

#[test]
fn test_try_slugify_rejects_huge_numbers() {
    // 99999999999 does not fit a u32, so the number cannot be spelt as a
    // roman numeral.
    assert_eq!(try_slugify_for_label("Con 99999999999", "en-US"), None);
}

#[test]
fn test_to_lower_respects_locale() {
    // Turkish has a dotless lowercase i.
    assert_eq!(to_lower("I", "tr-TR"), "ı");
    assert_eq!(to_lower("I", "en-US"), "i");
}

#[test]
fn test_to_lower_idempotent_on_samples() {
    // Folding twice changes nothing on these inputs. The case mapper's
    // documentation promises no such law, so no contract states it; this
    // only checks the behavior of the shipped data.
    for (s, l) in [("IĞDIR", "tr-TR"), ("Örli Försztivál", "hu-HU"), ("ANTHROCON", "en-US")] {
        let once = to_lower(s, l);
        assert_eq!(to_lower(&once, l), once);
    }
}

#[test]
fn test_guess_language_for_region_maximizes() {
    assert_eq!(guess_language_for_region("US"), "en-Latn-US");
    assert_eq!(guess_language_for_region("JP"), "ja-Jpan-JP");
}

#[test]
fn test_guess_language_for_region_unknown() {
    assert_eq!(guess_language_for_region("not a region"), "und");
}
