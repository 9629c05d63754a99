use kvstore::client::{client_action, client_display, ClientAction};

#[test]
fn client_actions() {
    assert_eq!(client_action("  \n"), ClientAction::Skip);
    assert_eq!(client_action("HELP\n"), ClientAction::Help);
    assert_eq!(client_action(" quit \n"), ClientAction::Quit);
    assert_eq!(client_action("get a\n"), ClientAction::Send);
}

#[test]
fn client_displays() {
    assert_eq!(client_display("OK a,b\n"), "(成功) 共有以下键:\n  1. a\n  2. b");
    assert_eq!(client_display("NOTFOUND\n"), "(提示) 键不存在");
}
