use fssa::error::ScriptError;
use fssa::experimental::{check_horse_purchase, FIBER_STD};
use fssa::fiber::{
    can_parse_ipx, get_loops, get_macros, is_script_sliceable, parse_ipx, parse_ipx_warnings,
    raised_loop_counts, use_loops, use_macros,
};

const BUY_WINDOW_10: &str = "global/HorseForSaleInfoWindow/RenderViews/RenderTargetView/Scene/Animation/Horse.CloneHorse(10, 1);\nglobal/HorseForSaleInfoWindow/RenderViews/RenderTargetView/Scene/Animation/Horse.HorseForSaleStartBuyWindow();";

#[test]
fn loop_is_found_and_duplicated() {
    let loops = get_loops("loop 3\n{\nabc\n}\n").unwrap();
    assert_eq!(loops.len(), 1);
    assert_eq!(loops[0].code_to_loop, "abc");
    assert_eq!(loops[0].iterations, 3);
    assert_eq!(loops[0].px_code, "abcabcabc");
}

#[test]
fn loop_body_lines_are_trimmed() {
    let loops = get_loops("loop 2\n{\n  a  \n\tb\n}").unwrap();
    assert_eq!(loops.len(), 1);
    assert_eq!(loops[0].code_to_loop, "ab");
    assert_eq!(loops[0].px_code, "abab");
}

#[test]
fn loop_count_below_two_becomes_two() {
    let loops = get_loops("loop 1\n{\nx\n}").unwrap();
    assert_eq!(loops[0].iterations, 2);
    assert_eq!(loops[0].px_code, "xx");
    let loops = get_loops("loop 0\n{\nx\n}").unwrap();
    assert_eq!(loops[0].iterations, 2);
}

#[test]
fn loop_count_accepts_plus_sign() {
    let loops = get_loops("loop +4\n{\nx\n}").unwrap();
    assert_eq!(loops[0].iterations, 4);
    assert_eq!(loops[0].px_code, "xxxx");
}

#[test]
fn loop_count_must_fit_in_a_byte() {
    assert!(matches!(
        get_loops("loop 256\n{\nx\n}"),
        Err(ScriptError::InvalidIterationCount { line }) if line == "loop 256"
    ));
    let loops = get_loops("loop 255\n{\nx\n}").unwrap();
    assert_eq!(loops[0].iterations, 255);
    assert_eq!(loops[0].px_code.len(), 255);
}

#[test]
fn loop_count_must_be_a_number() {
    assert!(matches!(
        get_loops("loop x\n{\n}"),
        Err(ScriptError::InvalidIterationCount { line }) if line == "loop x"
    ));
    assert!(matches!(
        get_loops("loop +\n{\n}"),
        Err(ScriptError::InvalidIterationCount { .. })
    ));
    assert!(matches!(
        get_loops("loop  3\n{\n}"),
        Err(ScriptError::InvalidIterationCount { .. })
    ));
}

#[test]
fn loop_without_body_start() {
    assert!(matches!(
        get_loops("loop 3\nfoo\n}"),
        Err(ScriptError::MissingBodyStart { line }) if line == "loop 3"
    ));
}

#[test]
fn loop_without_body_end() {
    assert!(matches!(
        get_loops("loop 3\n{\nfoo"),
        Err(ScriptError::MissingBodyEnd { line }) if line == "loop 3"
    ));
}

#[test]
fn loop_header_on_last_line_is_ignored() {
    assert_eq!(get_loops("a\nloop 3").unwrap().len(), 0);
    assert_eq!(get_loops("loop 3").unwrap().len(), 0);
}

#[test]
fn short_lines_are_not_headers() {
    assert_eq!(get_loops("loop\n{\nx\n}").unwrap().len(), 0);
    assert_eq!(get_loops("loop5\n{\nx\n}").unwrap().len(), 0);
}

#[test]
fn each_block_is_one_loop() {
    let loops = get_loops("loop 2\n{\na\n}\nloop 2\n{\nb\n}").unwrap();
    assert_eq!(loops.len(), 2);
    assert_eq!(
        (loops[0].code_to_loop.as_str(), loops[0].iterations, loops[0].px_code.as_str()),
        ("a", 2, "aa")
    );
    assert_eq!(
        (loops[1].code_to_loop.as_str(), loops[1].iterations, loops[1].px_code.as_str()),
        ("b", 2, "bb")
    );
}

#[test]
fn a_block_ends_at_its_first_closing_brace() {
    let loops = get_loops("loop 2\n{\na\n}\nb\n}").unwrap();
    assert_eq!(loops.len(), 1);
    assert_eq!(loops[0].code_to_loop, "a");
    assert_eq!(use_loops("loop 2\n{\na\n}\nb\n}").unwrap(), "aa\nb");
}

#[test]
fn loops_are_unrolled() {
    assert_eq!(use_loops("loop 3\n{\nabc\n}\n").unwrap(), "abcabcabc\n");
}

#[test]
fn text_outside_loops_is_kept() {
    assert_eq!(use_loops("ab\nloop 2\n{\na\n}").unwrap(), "ab\naa");
    assert_eq!(use_loops("x\nloop 2\n{\ny\n}\nz").unwrap(), "x\nyy\nz");
    assert_eq!(use_loops("x\r\nloop 2\r\n{\r\ny\r\n}\r\nz").unwrap(), "x\r\nyy\r\nz");
}

#[test]
fn script_without_loops_is_unchanged() {
    assert_eq!(use_loops("a").unwrap(), "a");
    assert_eq!(use_loops("a\r\nb\n\n").unwrap(), "a\r\nb\n\n");
    assert_eq!(use_loops("").unwrap(), "");
}

#[test]
fn stray_closing_braces_are_cleared() {
    assert_eq!(use_loops("a\n}\nb").unwrap(), "a\nb");
    assert_eq!(use_loops("a\n}").unwrap(), "a");
}

#[test]
fn closing_brace_may_come_before_opening_brace() {
    let loops = get_loops("loop 2\n}\n{").unwrap();
    assert_eq!(loops.len(), 1);
    assert_eq!(loops[0].code_to_loop, "");
    assert_eq!(use_loops("loop 2\n}\n{").unwrap(), "\n{");
}

#[test]
fn every_header_line_opens_a_loop() {
    let loops = get_loops("loop 2\n{\nloop 3\n{\nx\n}").unwrap();
    assert_eq!(loops.len(), 2);
    assert_eq!(loops[0].code_to_loop, "loop 3x");
    assert_eq!((loops[1].code_to_loop.as_str(), loops[1].px_code.as_str()), ("x", "xxx"));
    assert!(matches!(
        get_loops("loop 2\n{\nloop x\n}"),
        Err(ScriptError::InvalidIterationCount { line }) if line == "loop x"
    ));
}

#[test]
fn unrolling_finds_the_clamped_count() {
    assert_eq!(use_loops("loop 1\n{\nx\n}").unwrap(), "xx");
}

#[test]
fn raised_counts_are_reported() {
    let raised = raised_loop_counts("loop 0\n{\nx\n}\nloop 5\n{\ny\n}\nloop 1\n{\nz\n}");
    assert_eq!(raised.len(), 2);
    assert_eq!((raised[0].line.as_str(), raised[0].count), ("loop 0", 0));
    assert_eq!((raised[1].line.as_str(), raised[1].count), ("loop 1", 1));
    let loops = get_loops("loop 0\n{\nx\n}").unwrap();
    assert_eq!(loops.len(), 1);
    assert_eq!((loops[0].iterations, loops[0].code_to_loop.as_str(), loops[0].px_code.as_str()), (2, "x", "xx"));
    assert!(raised_loop_counts("loop 2\n{\nx\n}").is_empty());
    assert_eq!(parse_ipx_warnings("loop 1\n{\nx\n}\n").len(), 1);
}

#[test]
fn unrolling_finds_multi_digit_counts() {
    assert_eq!(use_loops("loop 12\n{\nab\n}").unwrap(), "abababababababababababab");
    assert_eq!(use_loops("loop 100\n{\na\n}").unwrap().len(), 100);
}

#[test]
fn unrolling_passes_errors_on() {
    assert!(matches!(use_loops("loop 9\nx"), Err(ScriptError::MissingBodyStart { .. })));
}

#[test]
fn macros_are_found() {
    let ms = get_macros("$a=1;\nx\n$b=2=3;").unwrap();
    assert_eq!(ms.len(), 2);
    assert_eq!(ms[0].name, "$a");
    assert_eq!(ms[0].value, "1");
    assert_eq!(ms[0].full, "$a=1;");
    assert_eq!(ms[1].name, "$b");
    assert_eq!(ms[1].value, "2=3");
    assert_eq!(ms[1].full, "$b=2=3;");
}

#[test]
fn macro_needs_semicolon() {
    assert!(matches!(
        get_macros("$a=1"),
        Err(ScriptError::MissingSemicolon { line }) if line == "$a=1"
    ));
}

#[test]
fn macro_name_without_spaces() {
    assert!(matches!(
        get_macros("$a b=1;"),
        Err(ScriptError::SpacesInMacroName { name }) if name == "$a b"
    ));
}

#[test]
fn macro_names_are_unique_ignoring_case() {
    assert!(matches!(
        get_macros("$Ab=1;\n$aB=2;"),
        Err(ScriptError::DuplicateMacro { name }) if name == "$aB"
    ));
    assert_eq!(get_macros("$ä=1;\n$Ä=2;").unwrap().len(), 2);
}

#[test]
fn lines_without_dollar_or_equals_are_not_macros() {
    assert_eq!(get_macros("a=1;\n$a\n$\n").unwrap().len(), 0);
}

#[test]
fn macros_are_expanded() {
    assert_eq!(use_macros("$x=hello;\nsay $x\n").unwrap(), "say hello\n");
    assert_eq!(use_macros("$x=1;\nother\n").unwrap(), "other\n");
}

#[test]
fn definition_on_last_line_is_removed() {
    assert_eq!(use_macros("foo $x\n$x=5;").unwrap(), "foo 5\n");
    assert_eq!(use_macros("$x=1;").unwrap(), "");
    assert_eq!(use_macros("$x=1;\r\nsay $x\r\n").unwrap(), "say 1\r\n");
}

#[test]
fn script_without_definitions_is_unchanged() {
    assert_eq!(use_macros("a").unwrap(), "a");
    assert_eq!(use_macros("a\r\nb\r\n\n").unwrap(), "a\r\nb\r\n\n");
    assert_eq!(use_macros("").unwrap(), "");
}

#[test]
fn script_is_converted() {
    let out = parse_ipx("loop 2\n{\nx;\n}\n".to_string()).unwrap();
    assert_eq!(out, "x;x;");
    let out = parse_ipx("// hi\n$n=7;\nloop 2\n{\nf($n);\n}\n".to_string()).unwrap();
    assert_eq!(out, "f(7);f(7);");
}

#[test]
fn standard_macros_are_expanded() {
    let out = parse_ipx("$chat.Say(1);\n// note\n".to_string()).unwrap();
    assert_eq!(out, "global/ChatWindow.Say(1);");
    assert_eq!(parse_ipx("$chat.Say();\n".to_string()).unwrap(), "global/ChatWindow.Say();");
}

#[test]
fn conversion_errors_are_reported() {
    assert!(matches!(
        parse_ipx("$chat=x;\n".to_string()),
        Err(ScriptError::DuplicateMacro { name }) if name == "$chat"
    ));
}

#[test]
fn converted_script_is_trimmed() {
    let out = parse_ipx("   \n\n".to_string()).unwrap();
    assert_eq!(out.trim(), out);
}

#[test]
fn sliceable_scripts() {
    assert!(is_script_sliceable("loop 3\n{\nabc\n}\n"));
    assert!(is_script_sliceable("é"));
    assert!(!is_script_sliceable("ab€cdef"));
    assert!(!is_script_sliceable("loopé 3"));
    assert!(is_script_sliceable("abcdéxyz"));
    assert!(!is_script_sliceable("abcéxyz"));
    assert!(is_script_sliceable("loop x\n{\n}\nab€cdef"));
    assert!(!is_script_sliceable("loop 2\n{\n}\nab€cdef"));
    assert!(can_parse_ipx("x\n"));
    assert!(!can_parse_ipx("ab€"));
}

#[test]
fn standard_library_is_intact() {
    assert!(FIBER_STD.starts_with("$set_appearance=global/Horse.CloneHorseAppearance;\n"));
    assert!(FIBER_STD.ends_with("$start_staff_tool=global/GMWindow.Start;"));
    assert_eq!(FIBER_STD.lines().count(), 33);
}

#[test]
fn buy_menu_is_expanded() {
    let out = check_horse_purchase("$open_buy_menu(10);".to_string()).unwrap();
    assert_eq!(out, BUY_WINDOW_10);
}

#[test]
fn code_without_buy_menu_is_unchanged() {
    assert_eq!(check_horse_purchase("a(b);".to_string()).unwrap(), "a(b);");
}

#[test]
fn buy_menu_without_parenthesis() {
    assert!(matches!(
        check_horse_purchase("$open_buy_menu".to_string()),
        Err(ScriptError::InvalidBuyMenu)
    ));
}

#[test]
fn buy_menu_id_is_taken_from_the_call() {
    let out = check_horse_purchase("$open_buy_menu(10);\nx".to_string()).unwrap();
    assert_eq!(out, format!("{BUY_WINDOW_10}\nx"));
    let out = check_horse_purchase("f(1);\n$open_buy_menu(10);".to_string()).unwrap();
    assert_eq!(out, format!("f(1);\n{BUY_WINDOW_10}"));
}

#[test]
fn buy_menu_without_id_is_left_alone() {
    for code in ["$open_buy_menu(10", "$open_buy_menu(10)", "f(1);\n$open_buy_menu"] {
        assert_eq!(check_horse_purchase(code.to_string()).unwrap(), code);
    }
}
