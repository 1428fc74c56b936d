use buildscale::terminal::RustPseudoTerminal;

#[test]
fn fork_command_orders_script_channel_and_id() {
    let t = RustPseudoTerminal::new();
    assert_eq!(t.fork_command("7", "run.js", "/tmp/ipc"), "node run.js /tmp/ipc 7");
}

#[test]
fn fork_command_quotes_script_path_with_space() {
    let t = RustPseudoTerminal::new();
    assert_eq!(
        t.fork_command("7", "my dir/run.js", "/tmp/ipc"),
        "node \"my dir/run.js\" /tmp/ipc 7"
    );
}

#[test]
fn has_space_finds_spaces() {
    assert!(buildscale::terminal::has_space("a b"));
    assert!(!buildscale::terminal::has_space("ab"));
    assert!(!buildscale::terminal::has_space(""));
}
