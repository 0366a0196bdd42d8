use nextar::cli::{create_params, default_level, no_color_requested, wants_banner, CliError};
use nextar::format::{CODE_LZMA2, CODE_STORE, CODE_ZSTD};
use nextar::paths::{default_output, extract_here_dir, repaired_path_for, split_path};
use nextar::progress::{is_quiet, ProgressState};
use nextar::setup::{
    act_short, arg_value, install_actions, uninstall_actions, Act, InstallEnv, InstallOpts, Root, MENU_COMPRESS,
    PROGID,
};
use nextar::term::{
    banner, bold, detect_color, dim, err, grad, init, logo_glyph_count, ok, paint, path, rgb_fg, warn, C_ACCENT, C_DIM,
};
use nextar::units::{parse_block, parse_size, SizeError};

#[test]
fn sizes_with_binary_suffixes() {
    assert_eq!(parse_size("512"), Ok(512));
    assert_eq!(parse_size("256K"), Ok(256 * 1024));
    assert_eq!(parse_size("1m"), Ok(1 << 20));
    assert_eq!(parse_size(" 2G "), Ok(2 << 30));
    assert_eq!(parse_size("+3k"), Ok(3072));
    assert_eq!(parse_size("4 K"), Ok(4096));
    assert_eq!(parse_size("4G"), Err(SizeError::TooLarge));
    assert_eq!(parse_size("abc"), Err(SizeError::Invalid));
    assert_eq!(parse_size(""), Err(SizeError::Invalid));
    assert_eq!(parse_size("K"), Err(SizeError::Invalid));
    assert_eq!(parse_size("-1"), Err(SizeError::Invalid));
    assert_eq!(parse_size("99999999999999999999"), Err(SizeError::Invalid));
}

#[test]
fn block_sizes_must_lie_between_512_and_64_mib() {
    assert_eq!(parse_block("512"), Ok(512));
    assert_eq!(parse_block("64M"), Ok(64 << 20));
    assert_eq!(parse_block("511"), Err(SizeError::OutOfRange));
    assert_eq!(parse_block("65M"), Err(SizeError::OutOfRange));
    assert_eq!(parse_block("8G"), Err(SizeError::OutOfRange));
    assert_eq!(parse_block("1.5M"), Err(SizeError::Invalid));
}

#[test]
fn create_settings_of_the_command_line() {
    assert_eq!(default_level(CODE_ZSTD), 3);
    assert_eq!(default_level(CODE_LZMA2), 6);
    assert_eq!(default_level(CODE_STORE), 0);
    assert_eq!(create_params("zstd", None, "1M").unwrap(), (CODE_ZSTD, 3, 1 << 20));
    assert_eq!(create_params("LZMA2", Some(9), "256K").unwrap(), (CODE_LZMA2, 9, 256 << 10));
    assert!(matches!(create_params("rar", None, "1M"), Err(CliError::UnknownCodec(n)) if n == "rar"));
    assert!(matches!(create_params("zstd", None, "big"), Err(CliError::Size(SizeError::Invalid))));
    assert!(matches!(create_params("zstd", None, "100"), Err(CliError::BlockOutOfRange(100))));
    assert!(matches!(create_params("zstd", None, "5G"), Err(CliError::Size(SizeError::TooLarge))));
}

fn args(v: &[&str]) -> Vec<String> {
    v.iter().map(|s| s.to_string()).collect()
}

#[test]
fn banner_and_color_flags() {
    assert!(wants_banner(&[]));
    assert!(wants_banner(&args(&["create", "--help"])));
    assert!(wants_banner(&args(&["-V"])));
    assert!(!wants_banner(&args(&["list", "a.next"])));
    assert!(no_color_requested(&args(&["--no-color", "info", "x"])));
    assert!(!no_color_requested(&args(&["info", "x"])));
    assert!(!detect_color(true, true, true, true));
    assert!(detect_color(false, true, false, false));
    assert!(detect_color(false, false, true, true));
    assert!(!detect_color(false, false, true, false));
    assert!(!init(true, true));
    assert!(init(false, true));
}

#[test]
fn ansi_helpers() {
    assert_eq!(rgb_fg((1, 22, 255)), "\x1b[38;2;1;22;255m");
    assert_eq!(paint(true, C_ACCENT, "x"), "\x1b[38;2;99;102;241mx\x1b[0m");
    assert_eq!(paint(false, C_ACCENT, "x"), "x");
    assert_eq!(bold(true, "b"), "\x1b[1mb\x1b[0m");
    assert_eq!(bold(false, "b"), "b");
    assert_eq!(dim(true, "d"), paint(true, C_DIM, "d"));
    assert_eq!(ok(false, "o"), "o");
    assert_eq!(err(true, "e"), "\x1b[38;2;248;113;113me\x1b[0m");
    assert_eq!(warn(true, "w"), "\x1b[38;2;251;191;36mw\x1b[0m");
    assert_eq!(path(true, "p"), "\x1b[38;2;96;165;250mp\x1b[0m");
}

#[test]
fn gradient_paints_each_character() {
    assert_eq!(grad(false, "ab", &[]), "ab");
    let g = grad(true, "ab", &[(1, 2, 3), (4, 5, 6)]);
    assert_eq!(g, "\x1b[38;2;1;2;3ma\x1b[0m\x1b[38;2;4;5;6mb\x1b[0m");
}

#[test]
fn banner_plain_and_colored() {
    let plain = banner(false, &[]);
    assert!(plain.starts_with(" _   _  _____ __  __  _____     _     ____  \n"));
    assert_eq!(plain.lines().count(), 6);
    assert!(plain.ends_with("reed-solomon\n"));
    let n = logo_glyph_count();
    let total: usize = plain.lines().take(5).map(|l| l.chars().filter(|c| *c != ' ').count()).sum();
    assert_eq!(n, total);
    let stops = vec![(10, 20, 30); n];
    let colored = banner(true, &stops);
    assert_eq!(colored.matches("\x1b[38;2;10;20;30m").count(), n);
    assert!(colored.contains("\x1b[38;2;120;127;140m  next-generation archiver"));
}

#[test]
fn derived_paths() {
    assert_eq!(repaired_path_for("dir/backup.next", false), "dir/backup.repaired.next");
    assert_eq!(repaired_path_for("C:\\x\\a.next", true), "C:\\x\\a.repaired.next");
    assert_eq!(repaired_path_for("noext", false), "noext.repaired");
    assert_eq!(extract_here_dir("dir/backup.next", false), "dir/backup");
    assert_eq!(extract_here_dir("backup.next", false), "backup");
    assert_eq!(extract_here_dir("dir/..", false), "dir/extracted");
    assert_eq!(default_output(&[], false), "archive.next");
    assert_eq!(default_output(&args(&["photos", "b"]), false), "photos.next");
    assert_eq!(default_output(&args(&["C:\\x\\y"]), true), "C:\\x\\y.next");
    assert_eq!(split_path("a/b\\c", false), ("a".to_string(), "b\\c".to_string()));
    assert_eq!(split_path("a/b\\c", true), ("a/b".to_string(), "c".to_string()));
}

#[test]
fn progress_accounting() {
    let mut p = ProgressState::new(0, "archiving");
    assert_eq!(p.total(), 0);
    assert_eq!(p.label(), "archiving");
    p.set_total(100);
    p.add(40);
    p.add(2);
    assert_eq!(p.done_bytes(), 42);
    assert!(!p.is_finished());
    p.finish();
    assert!(p.is_finished());
    assert_eq!(p.total(), 100);
    assert!(is_quiet(true, true, 5));
    assert!(is_quiet(false, false, 5));
    assert!(is_quiet(false, true, 0));
    assert!(!is_quiet(false, true, 5));
}

#[test]
fn installer_defaults_and_descriptions() {
    let o = InstallOpts::default();
    assert!(o.context_menu && o.association && o.start_menu && !o.desktop);
    let set = Act::SetString { root: Root::Classes, path: "a".into(), name: String::new(), value: "v".into() };
    assert_eq!(act_short(&set), "set    HKCU\\Software\\Classes\\a = v");
    let named = Act::SetString { root: Root::Uninstall, path: "nextar".into(), name: "DisplayName".into(), value: "nextar".into() };
    assert_eq!(
        act_short(&named),
        "set    HKCU\\Software\\Microsoft\\Windows\\CurrentVersion\\Uninstall\\nextar [DisplayName] = nextar"
    );
    let dword = Act::SetDword { root: Root::Uninstall, path: "n".into(), name: "EstimatedSize".into(), value: 42 };
    assert_eq!(act_short(&dword), "set    HKCU\\Software\\Microsoft\\Windows\\CurrentVersion\\Uninstall\\n [EstimatedSize] = 42");
    assert_eq!(act_short(&Act::Delete { root: Root::Classes, path: "k".into() }), "delete HKCU\\Software\\Classes\\k");
    assert_eq!(act_short(&Act::File { path: "C:\\x.exe".into(), data: vec![1] }), "write  C:\\x.exe");
    assert_eq!(act_short(&Act::RemoveFile { path: "C:\\y".into() }), "remove C:\\y");
    let lnk = Act::Shortcut { lnk: "C:\\s.lnk".into(), target: "t".into(), icon: "i".into(), args: String::new() };
    assert_eq!(act_short(&lnk), "shortcut C:\\s.lnk");
}

#[test]
fn installer_command_line() {
    let a = args(&["--install", "--prefix", "C:\\apps\\nextar", "--prefix", "D:\\other"]);
    assert_eq!(arg_value(&a, "--prefix"), Some("C:\\apps\\nextar".to_string()));
    assert_eq!(arg_value(&args(&["--prefix"]), "--prefix"), None);
    assert_eq!(arg_value(&a, "--missing"), None);
}

fn env(taken: bool, self_path: &str) -> InstallEnv {
    InstallEnv {
        self_copy: Some((self_path.to_string(), vec![9, 9])),
        assoc_taken: taken,
        start_lnk: "C:\\start\\nextar.lnk".into(),
        desktop_lnk: "C:\\desk\\nextar.lnk".into(),
        sendto_dir: "C:\\SendTo".into(),
        cli_exe: vec![0; 2048],
        gui_exe: vec![0; 4096],
    }
}

#[test]
fn install_plan_writes_payload_menus_association_and_uninstall_entry() {
    let acts = install_actions("C:\\apps\\nextar", &InstallOpts::default(), env(false, "C:\\Downloads\\setup.exe"));
    assert_eq!(acts.len(), 3 + 24 + 4 + 2 + 7);
    assert!(matches!(&acts[0], Act::File { path, .. } if path == "C:\\apps\\nextar\\nextar.exe"));
    assert!(matches!(&acts[2], Act::File { path, data } if path == "C:\\apps\\nextar\\nextar-setup.exe" && data == &vec![9, 9]));
    assert!(matches!(&acts[3], Act::SetString { path, value, .. } if path == MENU_COMPRESS && value == "Compress to .next"));
    assert!(matches!(&acts[4], Act::SetString { value, .. }
        if value == "\"C:\\apps\\nextar\\nextar-gui.exe\" --run create \"%1\""));
    assert!(matches!(&acts[27], Act::SetString { path, value, .. } if path == ".next" && value == PROGID));
    assert!(matches!(&acts[32], Act::Shortcut { lnk, args, .. } if lnk == "C:\\SendTo\\Compress to .next.lnk" && args == "--run create"));
    assert!(matches!(&acts[33], Act::SetDword { value: 6, .. }));
    assert!(matches!(&acts[39], Act::SetString { value, .. } if value == "\"C:\\apps\\nextar\\nextar-setup.exe\" --uninstall"));
    // a taken association is left alone; running from the installed place copies nothing
    let acts2 = install_actions("C:\\apps\\nextar", &InstallOpts::default(), env(true, "C:\\apps\\nextar\\nextar-setup.exe"));
    assert_eq!(acts2.len(), 2 + 24 + 2 + 7);
}

#[test]
fn uninstall_plan_removes_what_install_added() {
    let acts = uninstall_actions("C:\\apps\\nextar", true, "C:\\s.lnk", "C:\\d.lnk", "C:\\SendTo");
    assert_eq!(acts.len(), 8 + 1 + 2 + 5);
    assert!(matches!(&acts[8], Act::Delete { path, .. } if path == ".next"));
    assert!(matches!(&acts[15], Act::RemoveFile { path } if path == "C:\\apps\\nextar\\nextar-gui.exe"));
    let not_ours = uninstall_actions("C:\\apps\\nextar", false, "C:\\s.lnk", "C:\\d.lnk", "C:\\SendTo");
    assert_eq!(not_ours.len(), 15);
}

use nextar::setup::{file_count, first_page, wizard_step, Mode, Page, WizardAction, WizardEvent};

#[test]
fn install_reports_the_files_it_wrote() {
    let acts = install_actions("C:\\apps\\nextar", &InstallOpts::default(), env(false, "C:\\Downloads\\setup.exe"));
    assert_eq!(file_count(&acts), 3);
    let acts2 = install_actions("C:\\apps\\nextar", &InstallOpts::default(), env(true, "C:\\apps\\nextar\\nextar-setup.exe"));
    assert_eq!(file_count(&acts2), 2);
    assert_eq!(file_count(&uninstall_actions("C:\\apps\\nextar", true, "C:\\s.lnk", "C:\\d.lnk", "C:\\SendTo")), 0);
}

#[test]
fn wizard_walks_welcome_destination_options_install() {
    assert_eq!(first_page(Mode::Install), Page::Welcome);
    assert_eq!(first_page(Mode::Uninstall), Page::Uninstall);
    let m = Mode::Install;
    let (p, a) = wizard_step(m, Page::Welcome, WizardEvent::Start, "C:\\x", true);
    assert!(p == Page::Destination && matches!(a, WizardAction::Nothing));
    // an empty destination keeps the wizard on the page
    let (p, _) = wizard_step(m, Page::Destination, WizardEvent::Next, "   ", true);
    assert_eq!(p, Page::Destination);
    let (p, _) = wizard_step(m, Page::Destination, WizardEvent::Next, "C:\\x", true);
    assert_eq!(p, Page::Options);
    let (p, _) = wizard_step(m, Page::Options, WizardEvent::Back, "C:\\x", true);
    assert_eq!(p, Page::Destination);
    let (p, a) = wizard_step(m, Page::Options, WizardEvent::Install, "C:\\x", true);
    assert!(p == Page::Installing && matches!(a, WizardAction::Begin));
    let (_, a) = wizard_step(m, Page::Installing, WizardEvent::Finish, " C:\\x ", true);
    assert!(matches!(a, WizardAction::LaunchThenClose(g) if g == "C:\\x\\nextar-gui.exe"));
    let (_, a) = wizard_step(m, Page::Installing, WizardEvent::Finish, "C:\\x", false);
    assert!(matches!(a, WizardAction::Close));
    let (_, a) = wizard_step(Mode::Uninstall, Page::Installing, WizardEvent::Finish, "C:\\x", true);
    assert!(matches!(a, WizardAction::Close));
    let (p, a) = wizard_step(Mode::Uninstall, Page::Uninstall, WizardEvent::Uninstall, "C:\\x", true);
    assert!(p == Page::Installing && matches!(a, WizardAction::Begin));
    // a button the page does not offer changes nothing
    let (p, a) = wizard_step(m, Page::Welcome, WizardEvent::Back, "C:\\x", true);
    assert!(p == Page::Welcome && matches!(a, WizardAction::Nothing));
}

use nextar::setup::{install_prefix, setup_command, SetupCommand};

#[test]
fn setup_reads_its_command_line() {
    assert!(matches!(setup_command(&args(&["--help", "-V"])), SetupCommand::Version));
    assert!(matches!(setup_command(&args(&["-h"])), SetupCommand::Help));
    assert!(matches!(setup_command(&args(&[])), SetupCommand::Wizard(Mode::Install)));
    assert!(matches!(setup_command(&args(&["--uninstall"])), SetupCommand::Wizard(Mode::Uninstall)));
    match setup_command(&args(&["--prefix", "D:/apps/nextar", "--uninstall"])) {
        SetupCommand::Console { uninstall, dry, quiet, prefix } => {
            assert!(uninstall && !dry && !quiet);
            assert_eq!(prefix.as_deref(), Some("D:\\apps\\nextar"));
        }
        other => panic!("unexpected {other:?}"),
    }
    match setup_command(&args(&["-q", "--dry-run"])) {
        SetupCommand::Console { uninstall, dry, quiet, prefix } => {
            assert!(!uninstall && dry && quiet && prefix.is_none());
        }
        other => panic!("unexpected {other:?}"),
    }
    assert_eq!(install_prefix(None, "C:\\u\\nextar".to_string()).unwrap(), "C:\\u\\nextar");
    assert_eq!(install_prefix(Some("D:\\x".to_string()), "C:\\u".to_string()).unwrap(), "D:\\x");
    assert_eq!(install_prefix(Some(String::new()), "C:\\u".to_string()).unwrap_err(), "empty install prefix");
}

use nextar::setup::{cleanup_script, install_report};

#[test]
fn cleanup_script_quotes_the_folder() {
    assert_eq!(
        cleanup_script("C:\\Users\\O'Neil\\nextar"),
        "Start-Sleep -Milliseconds 1500; Remove-Item -LiteralPath 'C:\\Users\\O''Neil\\nextar' -Recurse -Force -ErrorAction SilentlyContinue"
    );
}

#[test]
fn install_report_lists_what_was_set_up() {
    let all = install_report(&InstallOpts::default(), "C:\\apps\\nextar");
    assert_eq!(all.len(), 2 + 4 + 1 + 4);
    assert_eq!(all[1], "  ✓ nextar.exe + nextar-gui.exe + nextar-setup.exe");
    assert_eq!(all[6], "  ✓ double-click a .next archive → opens in nextar-gui");
    assert_eq!(all[10], "remove it anytime with: \"C:\\apps\\nextar\\nextar-setup.exe\" --uninstall");
    let bare = InstallOpts { context_menu: false, association: false, start_menu: false, desktop: false };
    let few = install_report(&bare, "D:\\n\\");
    assert_eq!(few.len(), 2 + 4);
    assert_eq!(few[5], "remove it anytime with: \"D:\\n\\nextar-setup.exe\" --uninstall");
}

#[test]
fn derived_paths_read_paths_like_std() {
    // trailing separators and `.` components name nothing
    assert_eq!(default_output(&args(&["photos/"]), false), "photos.next");
    assert_eq!(default_output(&args(&["/home/me/photos/"]), false), "/home/me/photos.next");
    assert_eq!(default_output(&args(&["C:\\Users\\me\\photos\\"]), true), "C:\\Users\\me\\photos.next");
    assert_eq!(default_output(&args(&["a/b/."]), false), "a/b.next");
    assert_eq!(default_output(&args(&["a//b"]), false), "a/b.next");
    assert_eq!(default_output(&args(&["C:x"]), true), "C:x.next");
    assert_eq!(default_output(&args(&[".."]), false), "../.next");
    assert_eq!(default_output(&args(&["/"]), false), "/.next");
    assert_eq!(default_output(&args(&["."]), false), "./.next");
    assert_eq!(repaired_path_for("dir/b.next/", false), "dir/b.repaired.next");
    assert_eq!(repaired_path_for("..", false), "../.repaired");
    assert_eq!(repaired_path_for(".hidden", false), ".hidden.repaired");
    assert_eq!(extract_here_dir("/a/b.next/", false), "/a/b");
    assert_eq!(extract_here_dir("b.next", true), "b");
    assert_eq!(extract_here_dir("/", false), "./extracted");
    assert_eq!(extract_here_dir("C:\\x.next", true), "C:\\x");
    assert_eq!(extract_here_dir("C:x.next", true), "C:x");
    assert_eq!(split_path("C:\\", true), (String::new(), String::new()));
    assert_eq!(split_path("/a/b//", false), ("/a".to_string(), "b".to_string()));
}

use nextar::setup::shortcut_script;

#[test]
fn shortcut_script_quotes_every_value() {
    assert_eq!(
        shortcut_script("C:\\S\\nextar.lnk", "C:\\O'Neil\\nextar-gui.exe", "C:\\O'Neil\\nextar-gui.exe", "--run create"),
        "$s=(New-Object -ComObject WScript.Shell).CreateShortcut('C:\\S\\nextar.lnk');$s.TargetPath='C:\\O''Neil\\nextar-gui.exe';$s.IconLocation='C:\\O''Neil\\nextar-gui.exe,0';$s.WorkingDirectory='C:\\O''Neil';$s.Arguments='--run create';$s.Save()"
    );
}

use nextar::setup::{default_install_dir, sendto_dir, shortcut_paths};

#[test]
fn per_user_folders_come_from_the_environment() {
    assert_eq!(default_install_dir(Some("C:\\Users\\me\\AppData\\Local")), "C:\\Users\\me\\AppData\\Local\\nextar");
    assert_eq!(default_install_dir(None), ".\\nextar");
    let (start, desk) = shortcut_paths(Some("C:\\Users\\me\\AppData\\Roaming"), Some("C:\\Users\\me"));
    assert_eq!(start, "C:\\Users\\me\\AppData\\Roaming\\Microsoft\\Windows\\Start Menu\\Programs\\nextar.lnk");
    assert_eq!(desk, "C:\\Users\\me\\Desktop\\nextar.lnk");
    let (_, nowhere) = shortcut_paths(None, None);
    assert_eq!(nowhere, ".\\nextar.lnk");
    assert_eq!(sendto_dir(Some("C:\\R")), "C:\\R\\Microsoft\\Windows\\SendTo");
}

#[test]
fn path_names_agree_with_std_path() {
    let cases = [
        "photos", "photos/", "photos//", "/home/me/photos/", "a//b", "a/./b/.", "./x.next", ".", "..", "../",
        "a/..", "/", "//", "", "x.tar.gz", ".hidden", "a/.hidden/", "dir/b.next/", "a.", "/a/b.next",
    ];
    for c in cases {
        let p = std::path::Path::new(c);
        // default output: the first item's name with `.next` added, next to it
        let mut want = std::path::PathBuf::from(c);
        let name = p.file_name().map(|n| n.to_string_lossy().into_owned()).unwrap_or_default();
        want.set_file_name(format!("{name}.next"));
        assert_eq!(default_output(&args(&[c]), false), want.to_string_lossy(), "default_output({c:?})");
        // repaired path
        let stem = p.file_stem().map(|s| s.to_string_lossy().into_owned()).unwrap_or_default();
        let ext = p.extension().map(|e| format!(".{}", e.to_string_lossy())).unwrap_or_default();
        let want = p.with_file_name(format!("{stem}.repaired{ext}"));
        assert_eq!(repaired_path_for(c, false), want.to_string_lossy(), "repaired_path_for({c:?})");
        // extract here
        let parent = p.parent().unwrap_or(std::path::Path::new("."));
        let stem = p.file_stem().map(|s| s.to_string_lossy().into_owned()).unwrap_or_else(|| "extracted".to_string());
        assert_eq!(extract_here_dir(c, false), parent.join(stem).to_string_lossy(), "extract_here_dir({c:?})");
        // parent and last component
        let (d, n) = split_path(c, false);
        assert_eq!(d, p.parent().map(|q| q.to_string_lossy().into_owned()).unwrap_or_default(), "parent({c:?})");
        if let Some(f) = p.file_name() {
            assert_eq!(n, f.to_string_lossy(), "file_name({c:?})");
        }
    }
}
