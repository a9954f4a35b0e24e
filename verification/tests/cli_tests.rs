use tswn::cli::CliArg;

fn arg(input: &str) -> CliArg {
    CliArg {
        target_url: "https://example.invalid/md5".to_string(),
        input: input.to_string(),
        is_cli: false,
        driver_url: "http://localhost:9515".to_string(),
    }
}

#[test]
fn written_newlines_become_newlines() {
    assert_eq!(arg("aaaaaaa\\nnnnnn").battle_input(), "aaaaaaa\nnnnnn");
    assert_eq!(arg("a\\n\\nb").battle_input(), "a\n\nb");
    assert_eq!(arg("\\\\n").battle_input(), "\\\n");
    assert_eq!(arg("no escapes").battle_input(), "no escapes");
    assert_eq!(arg("ends with \\").battle_input(), "ends with \\");
    assert_eq!(arg("").battle_input(), "");
    for s in ["x\\ny", "\\n\\n", "名\\n竞"] {
        assert_eq!(arg(s).battle_input(), s.replace("\\n", "\n"));
    }
}
