use sokoban_utils::base64url::{from_base64url_clean, to_base64url};
use sokoban_utils::level::LevelError;
use sokoban_utils::{fragment_metadata, fragment_to_level, level_to_fragment, SokobanLevel};

const SIMPLE: &str = "  #####\n###   #\n# $@. #\n###   #\n##  ###";

fn simple() -> SokobanLevel {
    SokobanLevel::from_xsb(SIMPLE).expect("parse")
}

#[test]
fn base64_has_the_letters_for_urls() {
    assert_eq!(to_base64url(b""), "");
    assert_eq!(to_base64url(b"f"), "Zg");
    assert_eq!(to_base64url(b"fo"), "Zm8");
    assert_eq!(to_base64url(b"foo"), "Zm9v");
    assert_eq!(to_base64url(b"foobar"), "Zm9vYmFy");
    assert_eq!(to_base64url(&[0xfb, 0xff]), "-_8");
}

#[test]
fn base64_is_read_back() {
    assert_eq!(from_base64url_clean("Zm9vYg").unwrap(), b"foob");
    assert_eq!(from_base64url_clean("-_8").unwrap(), vec![0xfb, 0xff]);
    assert_eq!(from_base64url_clean("").unwrap(), Vec::<u8>::new());
    let all: Vec<u8> = (0..=255).collect();
    for n in 0..all.len() {
        assert_eq!(from_base64url_clean(&to_base64url(&all[..n])).unwrap(), &all[..n]);
    }
}

#[test]
fn base64_knows_no_other_letters() {
    assert!(from_base64url_clean("Zm+v").is_none());
    assert!(from_base64url_clean("Zm/v").is_none());
    assert!(from_base64url_clean("Zm 9").is_none());
    assert!(from_base64url_clean("é").is_none());
}

#[test]
fn a_level_is_written_to_a_fragment() {
    assert_eq!(level_to_fragment(&simple(), None, None), "v1-AQAHBQARP8YPHOAAAIAAAAAAIAAAkg");
    assert_eq!(
        level_to_fragment(&simple(), Some("Hi".to_string()), Some("Me".to_string())),
        "v1-AQMHBQARP8YPHOAAAIAAAAAAIAAAkkhpAE1lAA",
    );
}

#[test]
fn a_level_is_read_from_its_fragment() {
    for (title, author) in [(None, None), (Some("T"), None), (None, Some("A")), (Some(""), Some("ü"))] {
        let text = level_to_fragment(
            &simple(),
            title.map(|s| s.to_string()),
            author.map(|s| s.to_string()),
        );
        let level = fragment_to_level(&text).expect("read");
        assert_eq!(level.to_xsb(), SIMPLE);
        let metadata = fragment_metadata(&text).expect("metadata");
        assert_eq!(metadata.title.as_deref(), title);
        assert_eq!(metadata.author.as_deref(), author);
    }
}

#[test]
fn leading_hash_marks_do_not_count() {
    let text = level_to_fragment(&simple(), Some("T".to_string()), None);
    for marks in ["#", "##"] {
        let marked = format!("{marks}{text}");
        assert_eq!(fragment_to_level(&marked).expect("read").to_xsb(), SIMPLE);
        assert_eq!(fragment_metadata(&marked).expect("metadata").title.as_deref(), Some("T"));
    }
}

#[test]
fn fragments_that_hold_no_level_are_refused() {
    let refused = |s: &str| fragment_to_level(s).err();
    assert_eq!(refused("v2-AQAH"), Some(LevelError::UnsupportedFragment));
    assert_eq!(refused(""), Some(LevelError::UnsupportedFragment));
    assert_eq!(refused("v1-A+A"), Some(LevelError::InvalidBase64));
    assert_eq!(refused("v1-AQ"), Some(LevelError::PayloadTooShort));
    assert_eq!(refused("v1-AQAH"), Some(LevelError::MissingHeader));
    assert_eq!(refused("v1-AQAHBQAR"), Some(LevelError::PayloadTruncated));
    let broken = "v1-AQAHBQARP8YPHOAAAIAAAAAAIAAAkw";
    assert_eq!(refused(broken), Some(LevelError::CrcMismatch));
}

#[test]
fn fragments_without_metadata_have_none() {
    for text in ["v1-AQAHBQARP8YPHOAAAIAAAAAAIAAAkg", "v1-AQ", "v1-AQMH", "v1-AQMHBQARP8YPHOAAAIAAAAAAIAAAkg"] {
        let metadata = fragment_metadata(text).expect("metadata");
        assert_eq!(metadata.title, None);
        assert_eq!(metadata.author, None);
    }
    assert_eq!(fragment_metadata("v2-AQ").err(), Some(LevelError::UnsupportedVersion));
    assert_eq!(fragment_metadata("v1-A+A").err(), Some(LevelError::InvalidBase64));
}

#[test]
fn metadata_that_is_no_utf8_is_patched() {
    let metadata = fragment_metadata("v1-AQEHBQARP8YPHOAAAIAAAAAAIAAAkv8A").expect("metadata");
    assert_eq!(metadata.title.as_deref(), Some("\u{fffd}"));
}

#[test]
fn a_title_ends_at_its_first_zero() {
    let text = level_to_fragment(&simple(), Some("a\0b".to_string()), Some("c".to_string()));
    let metadata = fragment_metadata(&text).expect("metadata");
    assert_eq!(metadata.title.as_deref(), Some("a"));
    assert_eq!(metadata.author.as_deref(), Some("b"));
}
