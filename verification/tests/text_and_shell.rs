use astrill_split_proxy::shell::{
    has_managed_block, plan_shell_file, remove_managed_block, shell_block, ShellFileAction,
};
use astrill_split_proxy::text::{
    chars_of, find_chars, lines_chars, parse_u16_chars, string_of, trim_chars, words_chars,
};

fn s(v: &[char]) -> String {
    v.iter().collect()
}

#[test]
fn trims_unicode_whitespace() {
    let t = chars_of("\u{3000} \t ab c \r\n\u{a0}");
    assert_eq!(s(&trim_chars(&t)), "ab c");
    assert_eq!(s(&trim_chars(&chars_of(" \n "))), "");
}

#[test]
fn splits_lines_like_str_lines() {
    for text in ["a\nb", "a\r\nb\r\n", "\n\n", "", "x\r", "one\n\ntwo\n"] {
        let got: Vec<String> = lines_chars(&chars_of(text)).iter().map(|l| s(l)).collect();
        let want: Vec<String> = text.lines().map(String::from).collect();
        assert_eq!(got, want, "text {:?}", text);
    }
}

#[test]
fn splits_words_like_split_whitespace() {
    let text = "  /app/openweb --proxy-port\t32768  x\u{2003}y ";
    let got: Vec<String> = words_chars(&chars_of(text)).iter().map(|w| s(w)).collect();
    let want: Vec<String> = text.split_whitespace().map(String::from).collect();
    assert_eq!(got, want);
}

#[test]
fn parses_ports_like_u16_from_str() {
    for text in ["0", "+80", "65535", "65536", "", "+", "-1", "12a", "0008", "99999999999"] {
        assert_eq!(parse_u16_chars(&chars_of(text)), text.parse::<u16>().ok(), "text {:?}", text);
    }
}

#[test]
fn finds_first_occurrence() {
    let h = chars_of("abcabc");
    assert_eq!(find_chars(&h, &chars_of("ca")), Some(2));
    assert_eq!(find_chars(&h, &chars_of("abc")), Some(0));
    assert_eq!(find_chars(&h, &chars_of("x")), None);
    assert_eq!(find_chars(&h, &chars_of("")), Some(0));
    assert_eq!(string_of(&chars_of("héllo")), "héllo");
}

#[test]
fn posix_block_text() {
    let block = shell_block("zsh", 18080, 18081);
    assert_eq!(
        block,
        "# >>> AstrillSplitProxy\nexport http_proxy=\"http://127.0.0.1:18080\"\nexport https_proxy=\"http://127.0.0.1:18080\"\nexport all_proxy=\"socks5h://127.0.0.1:18081\"\nexport HTTP_PROXY=\"$http_proxy\"\nexport HTTPS_PROXY=\"$https_proxy\"\nexport ALL_PROXY=\"$all_proxy\"\nexport no_proxy=\"localhost,127.0.0.1,::1\"\nexport NO_PROXY=\"$no_proxy\"\n# <<< AstrillSplitProxy\n"
    );
}

#[test]
fn fish_block_text() {
    let block = shell_block("fish", 7, 65535);
    assert!(block.starts_with("# >>> AstrillSplitProxy\nset -gx http_proxy \"http://127.0.0.1:7\"\n"));
    assert!(block.contains("set -gx all_proxy \"socks5h://127.0.0.1:65535\"\n"));
    assert!(block.contains("set -q NO_PROXY; or set -gx NO_PROXY $no_proxy\n"));
    assert!(block.ends_with("# <<< AstrillSplitProxy\n"));
}

#[test]
fn removes_block_and_joins_sides() {
    let text = "export A=1\n\n# >>> AstrillSplitProxy\nexport x=1\n# <<< AstrillSplitProxy\n\nexport B=2\n";
    assert_eq!(remove_managed_block(text), "export A=1\nexport B=2");
}

#[test]
fn without_block_only_trailing_space_goes() {
    assert_eq!(remove_managed_block("  a\nb \n\n"), "  a\nb");
    assert_eq!(
        remove_managed_block("x\n# >>> AstrillSplitProxy\nno end \n"),
        "x\n# >>> AstrillSplitProxy\nno end"
    );
}

#[test]
fn block_at_start_of_file_leaves_rest() {
    let text = "# >>> AstrillSplitProxy\nstuff\n# <<< AstrillSplitProxy\n";
    assert_eq!(remove_managed_block(text), "");
}

#[test]
fn enabling_then_disabling_restores_file() {
    let old = "  alias ll='ls -l'\n\n";
    let written = match plan_shell_file(old, "bash", 18080, 18081, true) {
        ShellFileAction::Write(t) => t,
        ShellFileAction::Remove => panic!("enable must write"),
    };
    assert!(written.starts_with("alias ll='ls -l'\n\n# >>> AstrillSplitProxy\n"));
    assert!(has_managed_block(&written));
    match plan_shell_file(&written, "bash", 18080, 18081, true) {
        ShellFileAction::Write(t) => assert_eq!(t, written),
        ShellFileAction::Remove => panic!("enable must write"),
    }
    match plan_shell_file(&written, "bash", 18080, 18081, false) {
        ShellFileAction::Write(t) => assert_eq!(t, "alias ll='ls -l'"),
        ShellFileAction::Remove => panic!("file has other text"),
    }
}

#[test]
fn disabling_blank_file_removes_it() {
    let written = match plan_shell_file("", "fish", 1, 2, true) {
        ShellFileAction::Write(t) => t,
        ShellFileAction::Remove => panic!("enable must write"),
    };
    assert!(written.starts_with("# >>> AstrillSplitProxy\nset -gx"));
    assert!(matches!(plan_shell_file(&written, "fish", 1, 2, false), ShellFileAction::Remove));
    assert!(matches!(plan_shell_file("  \n", "fish", 1, 2, false), ShellFileAction::Remove));
    assert!(!has_managed_block("# >>> AstrillSplitProxy only"));
}

#[test]
fn removing_appended_block_untrimmed() {
    let cleaned = "  export A=1 ";
    let block = shell_block("zsh", 18080, 18081);
    let appended = format!("{}\n\n{}", cleaned.trim(), block);
    assert_eq!(remove_managed_block(&appended), "export A=1");
    let appended_blank = format!("{}\n\n{}", "", block);
    assert_eq!(remove_managed_block(&appended_blank), "");
}

#[test]
fn disabling_twice_changes_nothing() {
    let old = "a\n# >>> AstrillSplitProxy\nx\n# <<< AstrillSplitProxy\nb\n";
    let once = match plan_shell_file(old, "zsh", 1, 2, false) {
        ShellFileAction::Write(t) => t,
        ShellFileAction::Remove => panic!("file has other text"),
    };
    assert_eq!(once, "a\nb");
    match plan_shell_file(&once, "zsh", 1, 2, false) {
        ShellFileAction::Write(t) => assert_eq!(t, once),
        ShellFileAction::Remove => panic!("file has other text"),
    }
}
