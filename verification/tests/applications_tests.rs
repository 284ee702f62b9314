use riiry::applications::{exec_command, is_desktop, is_xdg_application};
use riiry::files::is_not_hidden;

const ENTRY: &str = "[Desktop Entry]\nName=Firefox\nExec=firefox %u\nType=Application\nCategories=Network;\n";

#[test]
fn desktop_names() {
    assert!(is_desktop(Some("firefox.desktop")));
    assert!(is_desktop(Some(".desktop")));
    assert!(!is_desktop(Some("firefox.desktop.bak")));
    assert!(!is_desktop(Some("desktop")));
    assert!(!is_desktop(None));
}

#[test]
fn xdg_applications() {
    assert!(is_xdg_application(Some(ENTRY)));
    assert!(is_xdg_application(Some("\nType=X-Application-Y\n")));
    assert!(!is_xdg_application(Some("[Desktop Entry]\nType=Link\n")));
    assert!(!is_xdg_application(Some("Type=Application\n")));
    assert!(!is_xdg_application(Some("\nType=Application")));
    assert!(!is_xdg_application(None));
}

#[test]
fn exec_commands() {
    assert_eq!(exec_command(ENTRY), Some("firefox %u".to_string()));
    assert_eq!(exec_command("\nExec=\n"), Some(String::new()));
    assert_eq!(exec_command("\nExec=a\nExec=b\n"), Some("a".to_string()));
    assert_eq!(exec_command("Exec=a\n"), None);
    assert_eq!(exec_command("[Desktop Entry]\nName=x\n"), None);
}

#[test]
fn hidden_entries() {
    assert!(is_not_hidden(0, Some(".config")));
    assert!(!is_not_hidden(1, Some(".config")));
    assert!(is_not_hidden(3, Some("notes.txt")));
    assert!(!is_not_hidden(0, None));
    assert!(!is_not_hidden(2, None));
}
