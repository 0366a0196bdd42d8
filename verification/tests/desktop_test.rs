use nextar::desktop::{
    corrupt_backup_path, corrupt_backup_path_at, effective_dark, env_pin, parse_shell_job, Settings, SettingsStore,
    ShellJob, ThemeOverride,
};
use nextar::paths::split_path;

#[test]
fn override_precedence_env_then_setting_then_os() {
    // env pin beats the user setting and the registry
    assert!(effective_dark(Some(true), ThemeOverride::Light, false));
    assert!(!effective_dark(Some(false), ThemeOverride::Dark, true));
    // user setting beats the registry
    assert!(effective_dark(None, ThemeOverride::Dark, false));
    assert!(!effective_dark(None, ThemeOverride::Light, true));
    // follow falls back to the registry value
    assert!(effective_dark(None, ThemeOverride::Follow, true));
    assert!(!effective_dark(None, ThemeOverride::Follow, false));
    // env pin parsing
    assert_eq!(env_pin("dark"), Some(true));
    assert_eq!(env_pin("LIGHT"), Some(false));
    assert_eq!(env_pin("banana"), None);
}

#[test]
fn corrupt_backup_path_keeps_same_directory() {
    let p = "C:\\Users\\me\\AppData\\Local\\nextar\\settings.json";
    let b = corrupt_backup_path(p, true);
    let (b_dir, name) = split_path(&b, true);
    let (p_dir, _) = split_path(p, true);
    assert_eq!(b_dir, p_dir, "backup must live next to the original");
    assert!(name.starts_with("settings.json.corrupt-"), "backup name should be timestamped, got {name}");
    assert_ne!(name, "settings.json", "backup must not overwrite the original name");
}

#[test]
fn corrupt_backup_path_at_a_given_time() {
    assert_eq!(corrupt_backup_path_at("C:\\a\\settings.json", 1700000000, true), "C:\\a\\settings.json.corrupt-1700000000");
    assert_eq!(corrupt_backup_path_at("nextar-settings.json", 5, true), "nextar-settings.json.corrupt-5");
    assert_eq!(corrupt_backup_path_at("dir/noext", 0, true), "dir/noext.json.corrupt-0");
    assert_eq!(corrupt_backup_path_at(".hidden", 7, true), ".hidden.json.corrupt-7");
    assert_eq!(corrupt_backup_path_at("dir\\", 7, true), "dir.json.corrupt-7");
    assert_eq!(corrupt_backup_path_at("C:\\", 7, true), "C:\\");
    assert_eq!(corrupt_backup_path_at("..", 7, true), "..");
}

#[test]
fn theme_default_is_follow() {
    assert_eq!(ThemeOverride::default(), ThemeOverride::Follow);
    let s = Settings::default();
    assert_eq!(s.appearance, ThemeOverride::Follow);
    assert!(s.codec.is_none() && s.level.is_none() && s.block.is_none());
    assert!(s.threads.is_none() && s.recovery.is_none() && s.recent.is_none());
}

#[test]
fn create_defaults_fall_back_to_engine_defaults() {
    let mut s = Settings::default();
    assert_eq!(s.create_codec(), "zstd");
    assert_eq!(s.create_level(), 3);
    assert_eq!(s.create_block(), "1M");
    assert_eq!(s.create_recovery(), 0);
    assert!(s.create_threads() >= 1);
    assert_eq!(s.create_threads_with(6), 6);
    s.set_create_defaults("lzma2".to_string(), 9, "4M".to_string(), 4, 8);
    assert_eq!(s.create_threads_with(6), 4);
    assert_eq!(s.create_codec(), "lzma2");
    assert_eq!(s.create_level(), 9);
    assert_eq!(s.create_block(), "4M");
    assert_eq!(s.create_threads(), 4);
    assert_eq!(s.create_recovery(), 8);
    assert_eq!(s.appearance, ThemeOverride::Follow);
    s.set_theme_override(ThemeOverride::Dark);
    assert_eq!(s.theme_override(), ThemeOverride::Dark);
    assert_eq!(s.create_codec(), "lzma2");
}

#[test]
fn recent_list_moves_to_front_dedups_and_keeps_six() {
    let mut s = Settings::default();
    assert!(s.recent_archives().is_empty());
    for p in ["a", "b", "c", "d", "e", "f", "g"] {
        s.push_recent_archive(p);
    }
    assert_eq!(s.recent_archives(), vec!["g", "f", "e", "d", "c", "b"]);
    s.push_recent_archive("d");
    assert_eq!(s.recent_archives(), vec!["d", "g", "f", "e", "c", "b"]);
    s.clear_recent();
    assert!(s.recent.is_none());
    assert!(s.recent_archives().is_empty());
}

#[test]
fn settings_store_marks_unreadable_files_and_resets() {
    let mut st = SettingsStore::new();
    assert!(!st.settings_corrupt());
    st.load_settings(None, false);
    assert!(!st.settings_corrupt());
    st.load_settings(None, true);
    assert!(st.settings_corrupt());
    let mut loaded = Settings::default();
    loaded.appearance = ThemeOverride::Light;
    st.load_settings(Some(loaded), true);
    assert_eq!(st.theme_override(), ThemeOverride::Light);
    st.reset_corrupt_settings();
    assert!(!st.settings_corrupt());
    assert_eq!(st.theme_override(), ThemeOverride::Follow);
}

fn args(v: &[&str]) -> Vec<String> {
    v.iter().map(|s| s.to_string()).collect()
}

#[test]
fn shell_jobs_from_the_context_menu() {
    match parse_shell_job(&args(&["create", "C:\\a", "C:\\b"])) {
        ShellJob::Create(v) => assert_eq!(v, vec!["C:\\a", "C:\\b"]),
        other => panic!("unexpected {other:?}"),
    }
    match parse_shell_job(&args(&["create-email", "x"])) {
        ShellJob::CreateEmail(v) => assert_eq!(v, vec!["x"]),
        other => panic!("unexpected {other:?}"),
    }
    match parse_shell_job(&args(&["extract", "--here", "a.next"])) {
        ShellJob::ExtractHere(p) => assert_eq!(p, "a.next"),
        other => panic!("unexpected {other:?}"),
    }
    match parse_shell_job(&args(&["extract-into", "C:\\dir"])) {
        ShellJob::ExtractInto { folder, archive } => {
            assert_eq!(folder, "C:\\dir");
            assert!(archive.is_empty());
        }
        other => panic!("unexpected {other:?}"),
    }
    match parse_shell_job(&args(&["repair", "a.next"])) {
        ShellJob::Repair(p) => assert_eq!(p, "a.next"),
        other => panic!("unexpected {other:?}"),
    }
}

#[test]
fn shell_job_usage_errors() {
    let bad = |a: &[&str]| match parse_shell_job(&args(a)) {
        ShellJob::Bad(m) => m,
        other => panic!("unexpected {other:?}"),
    };
    assert_eq!(bad(&["create"]), "usage: --run create <path…>");
    assert_eq!(bad(&["create-email"]), "usage: --run create-email <path…>");
    assert_eq!(bad(&["extract", "a.next"]), "usage: --run extract --here <archive>");
    assert_eq!(bad(&["extract", "--here"]), "usage: --run extract --here <archive>");
    assert_eq!(bad(&["extract-into"]), "usage: --run extract-into <folder>");
    assert_eq!(bad(&["repair"]), "usage: --run repair <archive>");
    assert_eq!(bad(&[]), "usage: --run create|create-email|extract --here|extract-into|repair <path>");
    assert_eq!(bad(&["zip", "x"]), "usage: --run create|create-email|extract --here|extract-into|repair <path>");
}

use nextar::desktop::{create_request, is_extension, preview_window, route_drop, AppView, CreateRequestError, DropOutcome, PreviewError};
use nextar::units::SizeError;

#[test]
fn dropping_an_archive_opens_it_else_items_are_added() {
    let mut inputs = args(&["C:\\a"]);
    match route_drop(AppView::Home, &args(&["C:\\x.txt", "C:\\b.next", "C:\\c.next"]), true, true, &mut inputs) {
        DropOutcome::OpenArchive(p) => assert_eq!(p, "C:\\b.next"),
        other => panic!("unexpected {other:?}"),
    }
    assert_eq!(inputs, args(&["C:\\a"]));
    match route_drop(AppView::Create, &args(&["C:\\a", "C:\\d", "C:\\d"]), true, true, &mut inputs) {
        DropOutcome::AddedInputs(n) => assert_eq!(n, 3),
        other => panic!("unexpected {other:?}"),
    }
    assert_eq!(inputs, args(&["C:\\a", "C:\\d"]));
    assert!(matches!(route_drop(AppView::Settings, &args(&["x"]), true, true, &mut inputs), DropOutcome::Ignore));
    assert!(matches!(route_drop(AppView::Home, &[], true, true, &mut inputs), DropOutcome::Ignore));
}

#[test]
fn dropping_on_extract_inspect_and_repair() {
    let mut inputs = Vec::new();
    assert!(matches!(route_drop(AppView::Extract, &args(&["a.next"]), true, true, &mut inputs), DropOutcome::SetExtractArchive(p) if p == "a.next"));
    assert!(matches!(route_drop(AppView::Extract, &args(&["dir"]), false, true, &mut inputs), DropOutcome::Ignore));
    assert!(matches!(route_drop(AppView::Inspect, &args(&["a.next"]), true, true, &mut inputs), DropOutcome::SetInspectArchive(p) if p == "a.next"));
    match route_drop(AppView::Repair, &args(&["a.next.nvol", "a.next", "b.next"]), true, true, &mut inputs) {
        DropOutcome::SetRepair { archive, volume } => {
            assert_eq!(archive.as_deref(), Some("b.next"));
            assert_eq!(volume.as_deref(), Some("a.next.nvol"));
        }
        other => panic!("unexpected {other:?}"),
    }
    assert!(is_extension("C:\\dir\\x.next", "next", true));
    assert!(!is_extension("C:\\dir\\.next", "next", true));
    assert!(!is_extension("x.next\\y", "next", true));
}

#[test]
fn create_view_requests() {
    let o = create_request("lzma2", 30, "4M", "", 8, 0).unwrap();
    assert_eq!((o.codec, o.level, o.block_size, o.threads, o.segment_size, o.parity, o.quiet), (2, 22, 4 << 20, 1, 128, 8, true));
    assert!(o.password.is_none());
    let p = create_request("zstd", -1, "512K", "pw", 0, 3).unwrap();
    assert_eq!((p.level, p.threads), (0, 3));
    assert_eq!(p.password.as_deref(), Some("pw"));
    assert!(matches!(create_request("ZSTD", 3, "1M", "", 0, 1), Err(CreateRequestError::UnknownCodec(n)) if n == "ZSTD"));
    assert!(matches!(create_request("zstd", 3, "100", "", 0, 1), Err(CreateRequestError::Block(SizeError::OutOfRange))));
    assert!(matches!(create_request("zstd", 3, "x", "", 0, 1), Err(CreateRequestError::Block(SizeError::Invalid))));
}

#[test]
fn preview_shows_text_up_to_the_cap() {
    assert_eq!(preview_window(b"hello"), Ok((5, false)));
    assert_eq!(preview_window(&vec![b'a'; 200 * 1024]), Ok((128 * 1024, true)));
    assert_eq!(preview_window(b"a\0b"), Err(PreviewError::Binary));
}

use nextar::desktop::{shell_create_options, shell_label, shell_plan, ShellPlan};

#[test]
fn shell_jobs_plan_their_work() {
    let create = parse_shell_job(&args(&["create", "C:\\docs\\report.pdf", "C:\\docs\\b.txt"]));
    assert_eq!(shell_label(&create), "Compressing…");
    match shell_plan(&create, true) {
        ShellPlan::Create { inputs, output, email } => {
            assert_eq!(inputs.len(), 2);
            assert_eq!(output, "C:\\docs\\report.pdf.next");
            assert!(!email);
        }
        other => panic!("unexpected {other:?}"),
    }
    let here = parse_shell_job(&args(&["extract", "--here", "C:\\dl\\backup.next"]));
    assert_eq!(shell_label(&here), "Extracting…");
    match shell_plan(&here, true) {
        ShellPlan::Extract { archive, out_dir } => {
            assert_eq!(archive, "C:\\dl\\backup.next");
            assert_eq!(out_dir, "C:\\dl\\backup");
        }
        other => panic!("unexpected {other:?}"),
    }
    match shell_plan(&parse_shell_job(&args(&["repair", "C:\\dl\\backup.next"])), true) {
        ShellPlan::Repair { archive, volume, output } => {
            assert_eq!(archive, "C:\\dl\\backup.next");
            assert_eq!(volume, "C:\\dl\\backup.next.nvol");
            assert_eq!(output, "C:\\dl\\backup.repaired.next");
        }
        other => panic!("unexpected {other:?}"),
    }
    let bad = parse_shell_job(&args(&["nope"]));
    assert_eq!(shell_label(&bad), "");
    assert!(matches!(shell_plan(&bad, true), ShellPlan::Nothing));
    let o = shell_create_options(4);
    assert_eq!((o.codec, o.level, o.block_size, o.threads, o.parity), (1, 3, 1 << 20, 4, 0));
    assert!(o.password.is_none() && o.quiet);
}

use nextar::desktop::mail_client_plausible;

#[test]
fn mail_client_needs_a_real_handler() {
    assert!(mail_client_plausible("Outlook.URL.mailto.15", Some("Microsoft Outlook"), None));
    assert!(!mail_client_plausible("ChromeHTML", Some("Microsoft Outlook"), None));
    assert!(!mail_client_plausible("msedgehtm", Some("Microsoft Outlook"), None));
    assert!(!mail_client_plausible("", Some("Hotmail"), None));
    assert!(!mail_client_plausible("", Some("HOTMAIL"), None));
    assert!(mail_client_plausible("", Some("  "), Some("Thunderbird")));
    assert!(!mail_client_plausible("", None, None));
    assert!(!mail_client_plausible("", Some(" "), Some("\t")));
}

use nextar::desktop::{mail_report, taskbar_needs_update, taskbar_state, MailStep};

#[test]
fn mail_report_reveals_only_when_the_user_must_attach_by_hand() {
    let (m, reveal) = mail_report(MailStep::Returned(0));
    assert_eq!((m.as_str(), reveal), ("email opened with the archive attached", false));
    let (m, reveal) = mail_report(MailStep::Returned(1));
    assert_eq!((m.as_str(), reveal), ("email cancelled", false));
    let (m, reveal) = mail_report(MailStep::Returned(2));
    assert_eq!((m.as_str(), reveal), ("mail client unavailable — archive selected in Explorer", true));
    let (m, reveal) = mail_report(MailStep::NoClient);
    assert_eq!((m.as_str(), reveal), ("no mail client found — archive selected in Explorer", true));
    let (m, reveal) = mail_report(MailStep::NoEntryPoint);
    assert_eq!((m.as_str(), reveal), ("no mail client found — archive selected in Explorer", false));
    let (m, reveal) = mail_report(MailStep::Pending);
    assert_eq!((m.as_str(), reveal), ("email opened in your mail app", false));
}

#[test]
fn taskbar_overlay_is_sent_only_on_change() {
    let idle = taskbar_state(7, None);
    assert!(!idle.active && idle.done == 0 && idle.total == 0 && idle.window == 7);
    let unknown = taskbar_state(7, Some((5, 0)));
    assert_eq!(unknown, idle);
    let running = taskbar_state(7, Some((5, 10)));
    assert!(running.active && running.done == 5 && running.total == 10);
    assert!(taskbar_needs_update(None, idle));
    assert!(!taskbar_needs_update(Some(idle), idle));
    assert!(taskbar_needs_update(Some(idle), running));
    assert!(taskbar_needs_update(Some(running), taskbar_state(8, Some((5, 10)))));
}

use nextar::desktop::{create_output, extract_request, overwrite_gate, repair_output, repair_sources};

#[test]
fn extract_form_trims_and_defaults() {
    let q = extract_request("  C:\\a\\b.next ", "", "").unwrap();
    assert_eq!(q.archive, "C:\\a\\b.next");
    assert_eq!(q.output, ".");
    assert!(q.password.is_none());
    let q = extract_request("b.next", " out ", " pw").unwrap();
    assert_eq!(q.output, "out");
    assert_eq!(q.password.as_deref(), Some(" pw"));
    assert_eq!(extract_request("   ", "x", "").err().unwrap(), "pick an archive to extract");
}

#[test]
fn repair_form_asks_for_archive_then_volume() {
    assert_eq!(repair_sources(" ", "v.nvol").unwrap_err(), "pick the corrupted archive");
    assert_eq!(repair_sources("a.next", "").unwrap_err(), "pick the .nvol recovery volume");
    assert_eq!(repair_sources(" a.next", "v.nvol ").unwrap(), ("a.next".to_string(), "v.nvol".to_string()));
    assert_eq!(repair_output(" C:\\d\\x.next ", "", true), "C:\\d\\x.repaired.next");
    assert_eq!(repair_output("C:\\d\\x.next", " C:\\o.next ", true), "C:\\o.next");
}

#[test]
fn create_form_needs_inputs_and_respects_overwrite() {
    assert_eq!(create_output(&[], "x.next", true).unwrap_err(), "add at least one file or folder");
    let inputs = vec!["C:\\photos".to_string()];
    assert_eq!(create_output(&inputs, " ", true).unwrap(), "C:\\photos.next");
    assert_eq!(create_output(&inputs, " D:\\b.next", true).unwrap(), "D:\\b.next");
    assert!(overwrite_gate("o.next", false, false).is_ok());
    assert!(overwrite_gate("o.next", true, true).is_ok());
    assert_eq!(
        overwrite_gate("o.next", true, false).unwrap_err(),
        "o.next already exists — tick “Overwrite” to replace it"
    );
}

use nextar::desktop::{level_cap, level_for_codec};

#[test]
fn settings_levels_follow_the_codec() {
    assert_eq!(level_cap("lzma2"), 9);
    assert_eq!(level_cap("zstd"), 22);
    assert_eq!(level_cap("store"), 22);
    assert_eq!(level_for_codec("lzma2", 19), 9);
    assert_eq!(level_for_codec("lzma2", 6), 6);
    assert_eq!(level_for_codec("zstd", 19), 19);
}

use nextar::desktop::drop_banner;

#[test]
fn drop_banner_names_what_happened() {
    assert!(drop_banner(&DropOutcome::Ignore).is_none());
    let (m, v) = drop_banner(&DropOutcome::AddedInputs(1)).unwrap();
    assert_eq!((m.as_str(), v), ("1 item added — ready to create", AppView::Create));
    let (m, _) = drop_banner(&DropOutcome::AddedInputs(12)).unwrap();
    assert_eq!(m, "12 items added — ready to create");
    let (m, v) = drop_banner(&DropOutcome::OpenArchive("a.next".to_string())).unwrap();
    assert_eq!((m.as_str(), v), ("archive loaded — opened in Inspect", AppView::Inspect));
    let (m, v) = drop_banner(&DropOutcome::SetExtractArchive("a.next".to_string())).unwrap();
    assert_eq!((m.as_str(), v), ("archive set — ready to extract", AppView::Extract));
    let (m, v) = drop_banner(&DropOutcome::SetRepair { archive: None, volume: Some("v.nvol".to_string()) }).unwrap();
    assert_eq!((m.as_str(), v), ("archive / volume set — ready to repair", AppView::Repair));
}

use nextar::desktop::shortcut_view;

#[test]
fn keyboard_shortcuts_pick_views() {
    assert_eq!(shortcut_view('1', false), Some(AppView::Home));
    assert_eq!(shortcut_view('4', false), Some(AppView::Inspect));
    assert_eq!(shortcut_view('6', false), Some(AppView::Settings));
    assert_eq!(shortcut_view('7', false), None);
    assert_eq!(shortcut_view('N', false), None);
    assert_eq!(shortcut_view('N', true), Some(AppView::Create));
    assert_eq!(shortcut_view('E', true), Some(AppView::Extract));
    assert_eq!(shortcut_view('R', true), Some(AppView::Repair));
    assert_eq!(shortcut_view('1', true), None);
}

use nextar::desktop::codec_label;

#[test]
fn codec_choices_are_labelled() {
    assert_eq!(codec_label("zstd"), "zstd — fast (default)");
    assert_eq!(codec_label("lzma2"), "lzma2 — maximum compression");
    assert_eq!(codec_label("store"), "store — no compression");
    assert_eq!(codec_label("brotli"), "brotli");
}

use nextar::desktop::motion_pin;

#[test]
fn reduced_motion_pin_values() {
    assert!(motion_pin("1"));
    assert!(motion_pin("TRUE"));
    assert!(motion_pin("On"));
    assert!(!motion_pin("0"));
    assert!(!motion_pin("yes"));
    assert!(!motion_pin(" 1"));
}

#[test]
fn desktop_paths_follow_the_host_rules() {
    // on a host where only `/` separates, a backslash is part of a name
    assert_eq!(corrupt_backup_path_at("dir\\", 7, false), "dir\\.json.corrupt-7");
    assert_eq!(corrupt_backup_path_at("a/settings.json", 7, false), "a/settings.json.corrupt-7");
    assert!(is_extension("x.next\\y", "next", false) == false);
    assert!(is_extension("x\\y.next", "next", false));
    assert_eq!(repair_output("d\\x.next", "", false), "d\\x.repaired.next");
    assert_eq!(create_output(&["a\\b/".to_string()], "", false).unwrap(), "a\\b.next");
}
