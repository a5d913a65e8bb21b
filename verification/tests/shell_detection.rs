use pave::cli::Shell;
use pave::platform::Platform;
use pave::util::shell::{detect_shell, parent_process_name, ProcessEntry, ShellEnv};

fn env() -> ShellEnv {
    ShellEnv {
        nu_version: false,
        xonshrc: false,
        fish_version: false,
        zsh_version: false,
        bash_version: false,
        ps_module_path: false,
        shell: None,
        parent_process: None,
    }
}

#[test]
fn variables_decide_in_order() {
    let mut e = env();
    e.bash_version = true;
    e.zsh_version = true;
    assert_eq!(detect_shell(&e, Platform::Unix), Some(Shell::Zsh));
    e.nu_version = true;
    assert_eq!(detect_shell(&e, Platform::Unix), Some(Shell::Nushell));
}

#[test]
fn powershell_module_path_only_on_unix() {
    let mut e = env();
    e.ps_module_path = true;
    assert_eq!(detect_shell(&e, Platform::Unix), Some(Shell::Pwsh));
    assert_eq!(detect_shell(&e, Platform::Windows), None);
}

#[test]
fn login_shell_by_file_name() {
    let mut e = env();
    e.shell = Some("/usr/bin/fish".to_string());
    assert_eq!(detect_shell(&e, Platform::Unix), Some(Shell::Fish));
    e.shell = Some("/opt/homebrew/bin/nu".to_string());
    assert_eq!(detect_shell(&e, Platform::Unix), Some(Shell::Nushell));
    e.shell = Some("/bin/tcsh".to_string());
    assert_eq!(detect_shell(&e, Platform::Unix), None);
    e.shell = Some("/bin/zsh/".to_string());
    assert_eq!(detect_shell(&e, Platform::Unix), Some(Shell::Zsh));
}

#[test]
fn parent_process_on_windows() {
    let mut e = env();
    e.parent_process = Some("PowerShell.exe".to_string());
    assert_eq!(detect_shell(&e, Platform::Windows), Some(Shell::Pwsh));
    assert_eq!(detect_shell(&e, Platform::Unix), None);
    e.parent_process = Some("fish".to_string());
    assert_eq!(detect_shell(&e, Platform::Windows), Some(Shell::Fish));
    e.parent_process = Some("cmd.exe".to_string());
    assert_eq!(detect_shell(&e, Platform::Windows), None);
    e.shell = Some("C:\\Git\\bin\\bash".to_string());
    assert_eq!(detect_shell(&e, Platform::Windows), Some(Shell::Bash));
}

fn proc_entry(pid: u32, parent_pid: u32, exe_name: &str) -> ProcessEntry {
    ProcessEntry { pid, parent_pid, exe_name: exe_name.to_string() }
}

#[test]
fn parent_process_is_found_in_the_snapshot() {
    let snapshot = vec![
        proc_entry(4, 0, "System"),
        proc_entry(900, 4, "pwsh.exe"),
        proc_entry(1200, 900, "pave.exe"),
        proc_entry(900, 1, "other.exe"),
    ];
    assert_eq!(parent_process_name(&snapshot, 1200), Some("pwsh.exe".to_string()));
    assert_eq!(parent_process_name(&snapshot, 4), None);
    assert_eq!(parent_process_name(&snapshot, 77), None);
    assert_eq!(parent_process_name(&vec![], 1200), None);
}
