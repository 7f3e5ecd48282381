use sokoban_utils::level::{can_store, LevelError};
use sokoban_utils::wire::crc8;
use sokoban_utils::SokobanLevel;

const SIMPLE: &str = "  #####\n###   #\n# $@. #\n###   #\n##  ###";

#[test]
fn bytes_round_trip() {
    let level = SokobanLevel::from_xsb(SIMPLE).expect("parse");
    let bytes = level.to_bytes();
    let restored = SokobanLevel::from_bytes(&bytes).expect("restore");
    assert_eq!(restored.width, level.width);
    assert_eq!(restored.height, level.height);
    assert_eq!(restored.player_pos, level.player_pos);
}

#[test]
fn crc_detects_corruption() {
    let level = SokobanLevel::from_xsb(SIMPLE).expect("parse");
    let mut bytes = level.to_bytes();
    bytes[4] ^= 0xFF; // corrupt wall plane
    assert!(SokobanLevel::from_bytes(&bytes).is_err());
}

#[test]
fn xsb_round_trip() {
    let level = SokobanLevel::from_xsb(SIMPLE).expect("parse failed");
    assert_eq!(level.width, 7);
    assert_eq!(level.height, 5);
    assert!(level.is_wall(2, 0));
    assert!(level.is_box(2, 2));
    assert!(level.is_goal(4, 2));
    let back = level.to_xsb();
    let re = SokobanLevel::from_xsb(&back).expect("re-parse failed");
    assert_eq!(re.player_pos, level.player_pos);
}

#[test]
fn text_is_read_and_written() {
    let level = SokobanLevel::from_xsb(SIMPLE).expect("parse failed");
    assert!(!level.is_wall(1, 0));
    assert!(!level.is_box(3, 2));
    assert!(!level.is_goal(5, 2));
    assert_eq!(level.player_pos(), 2 * 7 + 3);
    let back = level.to_xsb();
    assert_eq!(back, "  #####\n###   #\n# $@. #\n###   #\n##  ###");
    let re = SokobanLevel::from_xsb(&back).expect("re-parse failed");
    assert_eq!(re.player_pos, level.player_pos);
    assert_eq!(re.walls, level.walls);
    assert_eq!(re.boxes, level.boxes);
    assert_eq!(re.goals, level.goals);
}

#[test]
fn every_character_has_its_marks() {
    let level = SokobanLevel::from_xsb("#$.*+ x").unwrap();
    assert_eq!((level.width(), level.height()), (7, 1));
    assert!(level.is_wall(0, 0) && !level.is_box(0, 0) && !level.is_goal(0, 0));
    assert!(!level.is_wall(1, 0) && level.is_box(1, 0) && !level.is_goal(1, 0));
    assert!(!level.is_wall(2, 0) && !level.is_box(2, 0) && level.is_goal(2, 0));
    assert!(!level.is_wall(3, 0) && level.is_box(3, 0) && level.is_goal(3, 0));
    assert!(!level.is_wall(4, 0) && !level.is_box(4, 0) && level.is_goal(4, 0));
    assert!(!level.is_wall(5, 0) && !level.is_box(5, 0) && !level.is_goal(5, 0));
    assert!(!level.is_wall(6, 0) && !level.is_box(6, 0) && !level.is_goal(6, 0));
    assert_eq!(level.player_pos(), 4);
    assert_eq!(level.to_xsb(), "#$.*+  ");
}

#[test]
fn a_wall_hides_what_is_under_it() {
    let mut level = SokobanLevel::from_xsb("@ ").unwrap();
    level.walls.set(1, 0);
    level.boxes.set(1, 0);
    assert_eq!(level.to_xsb(), "@#");
}

#[test]
fn short_rows_are_filled_with_floor() {
    let level = SokobanLevel::from_xsb("####\r\n#@\n\n##").unwrap();
    assert_eq!((level.width(), level.height()), (4, 4));
    assert_eq!(level.to_xsb(), "####\n#@  \n    \n##  ");
}

#[test]
fn the_last_player_counts() {
    assert_eq!(SokobanLevel::from_xsb("@ @\n+  ").unwrap().player_pos(), 3);
    assert_eq!(SokobanLevel::from_xsb("# #").unwrap().player_pos(), 0);
}

#[test]
fn a_text_without_lines_is_no_level() {
    assert!(matches!(SokobanLevel::from_xsb(""), Err(LevelError::EmptyLevel)));
    let level = SokobanLevel::from_xsb("\n").unwrap();
    assert_eq!((level.width(), level.height()), (0, 1));
}

#[test]
fn a_level_is_solved_when_every_goal_has_a_box() {
    assert!(SokobanLevel::from_xsb("#@*$#").unwrap().is_solved());
    assert!(!SokobanLevel::from_xsb("#@*.#").unwrap().is_solved());
    assert!(!SokobanLevel::from_xsb("#+*$#").unwrap().is_solved());
    assert!(SokobanLevel::from_xsb("#@ #").unwrap().is_solved());
}

#[test]
fn the_checksum_is_that_of_smbus() {
    assert_eq!(crc8(b"123456789"), 0xf4);
    assert_eq!(crc8(b""), 0);
}

#[test]
fn the_binary_form_is_laid_out_as_promised() {
    let bytes = SokobanLevel::from_xsb(SIMPLE).unwrap().to_bytes();
    assert_eq!(
        bytes,
        vec![7, 5, 0, 17, 63, 198, 15, 28, 224, 0, 0, 128, 0, 0, 0, 0, 32, 0, 0, 146],
    );
    let level = SokobanLevel::from_bytes(&bytes).unwrap();
    assert_eq!(level.to_xsb(), SIMPLE);
}

#[test]
fn a_position_takes_two_bytes() {
    let mut level = SokobanLevel::from_xsb("@").unwrap();
    level.player_pos = 0x1234;
    let bytes = level.to_bytes();
    assert_eq!(&bytes[..4], &[1, 1, 0x12, 0x34]);
    assert_eq!(SokobanLevel::from_bytes(&bytes).unwrap().player_pos(), 0x1234);
}

#[test]
fn bytes_that_are_no_level_are_refused() {
    assert!(matches!(SokobanLevel::from_bytes(&[1, 1, 0, 0]), Err(LevelError::DataTooShort)));
    assert!(matches!(SokobanLevel::from_bytes(&[1, 1, 0, 0, 9]), Err(LevelError::CrcMismatch)));
    let body = [1, 1, 0, 0];
    let short = [1, 1, 0, 0, crc8(&body)];
    assert!(matches!(SokobanLevel::from_bytes(&short), Err(LevelError::DataTruncated)));
}

#[test]
fn every_change_of_one_byte_is_detected() {
    let bytes = SokobanLevel::from_xsb(SIMPLE).unwrap().to_bytes();
    for i in 0..bytes.len() {
        for mask in 1..=255u8 {
            let mut changed = bytes.clone();
            changed[i] ^= mask;
            assert!(matches!(SokobanLevel::from_bytes(&changed), Err(LevelError::CrcMismatch)));
        }
    }
}

#[test]
fn errors_have_their_words() {
    assert_eq!(LevelError::EmptyLevel.message(), "empty level");
    assert_eq!(LevelError::DataTooShort.message(), "data too short");
    assert_eq!(LevelError::CrcMismatch.message(), "CRC mismatch — data may be corrupted");
    assert_eq!(LevelError::DataTruncated.message(), "data truncated");
    assert_eq!(LevelError::InvalidBase64.message(), "invalid base64url");
    assert_eq!(LevelError::PayloadTooShort.message(), "payload too short");
    assert_eq!(LevelError::MissingHeader.message(), "payload missing level header");
    assert_eq!(LevelError::PayloadTruncated.message(), "payload truncated");
    assert_eq!(LevelError::UnsupportedFragment.message(), "unsupported fragment version");
    assert_eq!(LevelError::UnsupportedVersion.message(), "unsupported version");
}

#[test]
fn a_grid_of_up_to_255_rows_and_columns_can_be_stored() {
    assert!(can_store(SIMPLE));
    assert!(can_store(""));
    let wide = "#".repeat(255);
    assert!(can_store(&wide));
    let full = vec![wide.as_str(); 255].join("\n");
    assert!(can_store(&full));
    let level = SokobanLevel::from_xsb(&full).unwrap();
    assert!(level.is_wall(254, 254));
    // 256 columns count as none.
    assert!(!can_store(&"#".repeat(256)));
    assert!(can_store(&" ".repeat(256)));
    // 257 columns count as one, where a wall in the first is in its place.
    assert!(can_store(&format!("#{}", " ".repeat(256))));
}
