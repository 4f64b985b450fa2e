use fssa::error::{PatchError, ScriptError};
use fssa::patcher::{generate_remaining_for, override_contents};
use fssa::patches::{
    can_read_patch_file, csa_file_path, patch_code, patch_game, patch_replacement, patch_type_of,
    remove_type, with_suffix, LookupTarget,
};
use fssa::patches::patch_file_warnings;
use fssa::utils::{
    erase_comment_lines, get_ascii, hex_to_string, is_hex_text, replacement_count, replace_bytes,
};

#[test]
fn ascii_is_kept() {
    assert_eq!(get_ascii("héllo wörld"), "hllo wrld");
    assert_eq!(get_ascii(""), "");
    assert_eq!(get_ascii(get_ascii("a€b").as_str()), get_ascii("a€b"));
}

#[test]
fn comment_lines_are_removed() {
    assert_eq!(erase_comment_lines("a\n// c\n#x\nb".to_string()), "a\nb\n");
    assert_eq!(erase_comment_lines("a // c\n/ x\n".to_string()), "a // c\n/ x\n");
    assert_eq!(erase_comment_lines("".to_string()), "");
    assert_eq!(erase_comment_lines("a\r\nb\r\n\r\n".to_string()), "a\nb\n\n");
}

#[test]
fn comment_removal_matches_std_lines() {
    for s in ["x\ny", "x\r\ny\n", "a\r", "\n\n", "#a\n//b\nc", "a\r\r\nb"] {
        let mut expected = String::new();
        for line in s.lines() {
            if !line.starts_with("//") && !line.starts_with('#') {
                expected.push_str(line);
                expected.push('\n');
            }
        }
        assert_eq!(erase_comment_lines(s.to_string()), expected);
    }
}

#[test]
fn comment_removal_is_idempotent() {
    let once = erase_comment_lines("a\n#b\n\nc".to_string());
    assert_eq!(erase_comment_lines(once.clone()), once);
}

#[test]
fn bytes_are_replaced() {
    assert_eq!(replace_bytes(b"hello world hello", b"hello", b"HELLO"), b"HELLO world HELLO".to_vec());
    assert_eq!(replace_bytes(b"aaa", b"aa", b"b"), b"ba".to_vec());
    assert_eq!(replace_bytes(b"abc", b"x", b"yy"), b"abc".to_vec());
    assert_eq!(replace_bytes(b"", b"x", b"y"), Vec::<u8>::new());
    assert_eq!(replace_bytes(b"xx", b"x", b""), Vec::<u8>::new());
}

#[test]
fn replacements_are_counted() {
    assert_eq!(replace_bytes(b"Hello, Hello!", b"Hello", b"World"), b"World, World!".to_vec());
    assert_eq!(replacement_count(b"Hello, Hello!", b"Hello"), 2);
    assert_eq!(replacement_count(b"aaa", b"aa"), 1);
    assert_eq!(replacement_count(b"abc", b"x"), 0);
}

#[test]
fn hex_round_trip() {
    for s in ["Hello", "", "héllo €", "a\nb"] {
        let hex: String = s.bytes().map(|b| format!("{b:02x}")).collect();
        assert_eq!(hex_to_string(hex).unwrap(), s);
    }
}

#[test]
fn hex_text_is_recognised() {
    assert!(is_hex_text("48656c6c6f"));
    assert!(is_hex_text("zz"));
    assert!(!is_hex_text("ff"));
    assert!(!is_hex_text("c328"));
}

#[test]
fn hex_is_decoded() {
    assert_eq!(hex_to_string("48656c6c6F".to_string()).unwrap(), "Hello");
    assert_eq!(hex_to_string("".to_string()).unwrap(), "");
    assert!(matches!(
        hex_to_string("zz".to_string()),
        Err(PatchError::InvalidHex { hex }) if hex == "zz"
    ));
    assert!(matches!(hex_to_string("abc".to_string()), Err(PatchError::InvalidHex { .. })));
}

#[test]
fn padding_fills_with_nul_bytes() {
    assert_eq!(generate_remaining_for("abcd".to_string(), "ab".to_string()), "ab\0\0");
    assert_eq!(generate_remaining_for("ab".to_string(), "ab".to_string()), "ab");
    assert_eq!(generate_remaining_for("€".to_string(), "a".to_string()), "a\0\0");
    assert_eq!(generate_remaining_for("abc".to_string(), "é".to_string()), "é\0");
}

#[test]
fn longer_code_is_truncated() {
    assert_eq!(generate_remaining_for("ab".to_string(), "abcd".to_string()), "ab");
    assert_eq!(generate_remaining_for("abc".to_string(), "a€".to_string()), "a\0\0");
    assert_eq!(generate_remaining_for("".to_string(), "x".to_string()), "");
    let out = override_contents(b"[ab]", "ab", "xyz");
    assert_eq!(out, b"[xy]".to_vec());
}

#[test]
fn buffer_is_overridden_in_place() {
    let out = override_contents(b"xxHELLOyyHELLO", "HELLO", "hi");
    assert_eq!(out, b"xxhi\0\0\0yyhi\0\0\0".to_vec());
    assert_eq!(out.len(), 14);
}

#[test]
fn revert_gives_the_buffer_back() {
    let before = b"..code();..".to_vec();
    let (from, to) = patch_replacement("code();".to_string(), "new".to_string(), false);
    let patched = override_contents(&before, &from, &to);
    assert_eq!(patched, b"..new\0\0\0\0..".to_vec());
    let (from, to) = patch_replacement("code();".to_string(), "new".to_string(), true);
    assert_eq!(from, "new\0\0\0\0");
    assert_eq!(to, "code();");
    let reverted = override_contents(&patched, &from, &to);
    assert_eq!(reverted, before);

    let (from, to) = patch_replacement("code();".to_string(), "".to_string(), false);
    let patched = override_contents(&before, &from, &to);
    assert_eq!(patched, b"..\0\0\0\0\0\0\0..".to_vec());
    let (from, to) = patch_replacement("code();".to_string(), "".to_string(), true);
    assert_eq!(override_contents(&patched, &from, &to), before);
}

#[test]
fn patch_type_names_are_removed() {
    assert_eq!(remove_type("GAME_START\ncode".to_string()), "code");
    assert_eq!(remove_type("  INV_CLICK_EXTENDED x CSHEET_CLICK ".to_string()), "x");
    assert_eq!(remove_type("QUESTS_CLICKCOLLECTIONS_CLICK".to_string()), "");
}

#[test]
fn patch_type_is_the_ascii_first_line() {
    assert_eq!(patch_type_of("GAME_START\nrest").unwrap(), "GAME_START");
    assert_eq!(patch_type_of("GÄME\n").unwrap(), "GME");
    assert!(patch_type_of("").is_none());
}

#[test]
fn patch_types_select_steps() {
    let steps = patch_game("GAME_START").unwrap();
    assert_eq!(steps.len(), 1);
    assert!(steps[0].code.is_none());
    assert_eq!(steps[0].csa_id, "02");
    assert_eq!(steps[0].target, LookupTarget::GameHmarketStart);

    let steps = patch_game("INV CLICK_EXTENDED").unwrap_err();
    assert!(matches!(steps, PatchError::InvalidPatchType));

    let steps = patch_game(" INV_CLICK_EXTENDED ").unwrap();
    assert_eq!(steps.len(), 2);
    assert_eq!(
        steps[0].code.as_deref(),
        Some(r#"global/ABTests/SkipIntroMovie.RunScript("Introduction1_OnActionStart");"#)
    );
    assert_eq!(steps[0].target, LookupTarget::GameInvClick);
    assert!(steps[1].code.is_none());
    assert_eq!(steps[1].target, LookupTarget::GameIntroStart);

    assert_eq!(patch_game("QUESTS_CLICK").unwrap()[0].target, LookupTarget::GameQuestsClick);
    assert_eq!(
        patch_game("COLLECTIONS_CLICK").unwrap()[0].target,
        LookupTarget::GameCollectionsClick
    );
    assert_eq!(patch_game("CSHEET_CLICK").unwrap()[0].target, LookupTarget::GameCsheetClick);
    assert!(matches!(patch_game("game_start"), Err(PatchError::InvalidPatchType)));
}

#[test]
fn buffer_file_path() {
    assert_eq!(csa_file_path("/games/", "02").unwrap(), "/games/p_00000002.csa");
    assert!(matches!(
        csa_file_path("/games", "02"),
        Err(PatchError::PathWithoutSlash { path }) if path == "/games"
    ));
}

#[test]
fn suffixes_are_added_once() {
    assert_eq!(with_suffix("a".to_string(), "/"), "a/");
    assert_eq!(with_suffix("a/".to_string(), "/"), "a/");
    assert_eq!(with_suffix("x".to_string(), ".patch"), "x.patch");
    assert_eq!(with_suffix("x.patch".to_string(), ".patch"), "x.patch");
}

#[test]
fn patch_file_code() {
    let text = "GAME_START\n// comment\n$open_buy_menu(7);\n".to_string();
    assert!(can_read_patch_file(&text));
    let code = patch_code(text, true).unwrap();
    assert_eq!(
        code,
        "global/HorseForSaleInfoWindow/RenderViews/RenderTargetView/Scene/Animation/Horse.CloneHorse(7, 1);\nglobal/HorseForSaleInfoWindow/RenderViews/RenderTargetView/Scene/Animation/Horse.HorseForSaleStartBuyWindow();"
    );
}

#[test]
fn patch_file_warnings_name_raised_loops() {
    let text = "# c\nloop 1\n{\nx\n}\n";
    let raised = patch_file_warnings(text);
    assert_eq!(raised.len(), 1);
    assert_eq!((raised[0].line.as_str(), raised[0].count), ("loop 1", 1));
    assert_eq!(patch_code(text.to_string(), true).unwrap(), "xx");
}

#[test]
fn inline_code_only_loses_type_names() {
    assert_eq!(patch_code(" a GAME_START ".to_string(), false).unwrap(), "a");
}

#[test]
fn patch_file_errors_are_reported() {
    assert!(matches!(
        patch_code("loop 2\nx\n".to_string(), true),
        Err(ScriptError::MissingBodyStart { .. })
    ));
}
