use ananda_control::agent::{apply_edit, edit_from, eq_target, patched, Edit, Json, Member};
use ananda_control::commands::{
    activation, audio_marked, headphone_action, import_profile, integration_next, profile_action,
    profile_saved, restoration, root_text, setup_allowed, setup_failed, startup_plan, Restore,
    RestoreStep, SettingsChange, SettingsStep, Setup, SetupStep,
    toggle_target,
};
use ananda_control::decimal::Decimal;
use ananda_control::model::{defaults, Database};
use ananda_control::platform::{account_sid, class_ids, find_account_sid, is_apo_server};
use ananda_control::tray::{shortcut_plan, tray_menu, Device};

const MUSIC: &str = "Preamp: -5.5 dB\nFilter 1: ON PK Fc 100 Hz Gain 5 dB Q 1\nFilter 2: ON HSC Fc 9000 Hz Gain -2 dB Q 0.7\n";
const MOVIES: &str = "Preamp: -6.5 dB\nFilter 1: ON PK Fc 100 Hz Gain 7 dB Q 1\n";
const FPS: &str = "Preamp: -4 dB\nFilter 1: ON PK Fc 2500 Hz Gain 3 dB Q 1.5\n";
const VOICE: &str = "Preamp: -3 dB\nFilter 1: ON HPQ Fc 90 Hz Q 0.707\n";
const DEVICE: &str = "{63f8b8a3-7684-462c-b6ab-5a68228fab30}";

fn fresh() -> Database {
    defaults(MUSIC, MOVIES, FPS, VOICE).unwrap()
}

fn installed() -> Database {
    let db = fresh();
    integration_next(&db, "C:\\APO\\config", &DEVICE.to_string(), "C:\\backup", false).unwrap()
}

fn s(t: &str) -> String {
    t.to_string()
}

#[test]
fn activation_needs_setup() {
    assert_eq!(activation(&fresh(), &s("movies")).unwrap_err(), "Complete the one-time APO setup first");
}

#[test]
fn activation_switches_and_writes_apo_text() {
    let db = installed();
    let next = activation(&db, &s("movies")).unwrap();
    assert_eq!(next.active_profile, "movies");
    assert_eq!(next.last_enabled, "movies");
    assert!(next.integration.expected_active.starts_with(
        "# Managed by Ananda Control. Changes are detected.\nDevice: {63f8b8a3-7684-462c-b6ab-5a68228fab30}\nChannel: all\n# Movies / Cinematic\nPreamp: -6.5 dB\n"
    ));
    assert_eq!(activation(&db, &s("nope")).unwrap_err(), "Profile not found");
}

#[test]
fn toggle_remembers_last_enabled() {
    let db = activation(&installed(), &s("fps")).unwrap();
    assert_eq!(toggle_target(&db), "stock");
    let off = activation(&db, &toggle_target(&db)).unwrap();
    assert_eq!(off.active_profile, "stock");
    assert_eq!(off.last_enabled, "fps");
    assert_eq!(toggle_target(&off), "fps");
    assert_eq!(eq_target(&off, true), "fps");
    assert_eq!(eq_target(&db, true), "fps");
    assert_eq!(eq_target(&db, false), "stock");
}

#[test]
fn setup_order_and_messages() {
    assert_eq!(setup_allowed(false, Some(true), false, false).unwrap_err(), "Install Equalizer APO and configure the output device first");
    assert_eq!(setup_allowed(true, None, false, false).unwrap_err(), "Output endpoint no longer exists");
    assert_eq!(setup_allowed(true, Some(false), false, false).unwrap_err(), "Equalizer APO is not registered on this endpoint. Use Device Selector from Diagnostics, then retry.");
    assert_eq!(setup_allowed(true, Some(true), false, true).unwrap_err(), "Integration is already installed");
    assert!(setup_allowed(true, Some(true), true, true).is_ok());
    let db = installed();
    assert_eq!(db.integration.expected_root, root_text());
    assert_eq!(db.integration.backup_dir.as_deref(), Some("C:\\backup"));
    let repaired = integration_next(&db, "C:\\APO\\config", &DEVICE.to_string(), "C:\\other", true).unwrap();
    assert_eq!(repaired.integration.backup_dir.as_deref(), Some("C:\\backup"));
    assert_eq!(setup_failed("disk full", false, "B"), "Setup failed: disk full. Config rollback: needs manual restoration. Backup: B");
    assert_eq!(integration_next(&fresh(), "C:\\APO", &s("all"), "B", false).unwrap_err(), "Select a valid Windows output endpoint");
}

#[test]
fn restore_and_verification() {
    let db = installed();
    assert_eq!(restoration(&db, false).unwrap_err(), "Configuration changed externally. Back up and repair it before restoring the original configuration.");
    let (r, backup) = restoration(&db, true).unwrap();
    assert!(!r.integration.installed && !r.settings.start_with_windows);
    assert_eq!(backup, "C:\\backup");
    assert_eq!(restoration(&fresh(), true).unwrap_err(), "No backup available");
    assert_eq!(audio_marked(&db, true, false).unwrap_err(), "Complete integration and resolve configuration conflicts first");
    assert!(audio_marked(&db, true, true).unwrap().integration.audio_verified);
    assert!(!audio_marked(&db, false, false).unwrap().integration.audio_verified);
}

#[test]
fn editor_saves_and_stale_drafts() {
    let db = installed();
    let mut edited = db.profiles[0].clone();
    edited.preamp = Decimal { units: -8_000_000_000_000_000_000 };
    let (next, apply) = profile_saved(&db, edited.clone(), &Some(db.profiles[0].clone())).unwrap();
    assert!(apply);
    assert_eq!(next.profiles[0].preamp.units, -8_000_000_000_000_000_000);
    assert!(next.integration.expected_active.contains("Preamp: -8 dB"));
    let mut other = db.profiles[0].clone();
    other.name = "Elsewhere".into();
    assert_eq!(
        profile_saved(&next, other.clone(), &Some(db.profiles[1].clone())).unwrap_err(),
        "This profile changed elsewhere. Reopen it to load the latest values before editing."
    );
    let mut stock = db.profiles[5].clone();
    stock.name = "Renamed".into();
    assert_eq!(profile_saved(&db, stock, &None).unwrap_err(), "Stock cannot be edited");
    let mut bad = db.profiles[1].clone();
    bad.preamp = Decimal { units: 21_000_000_000_000_000_000 };
    assert_eq!(profile_saved(&db, bad, &None).unwrap_err(), "Preamp must be between −60 and +20 dB");
}

#[test]
fn profile_actions() {
    let db = fresh();
    let (created, id) = profile_action(&db, &s("create"), &None).unwrap();
    assert_eq!(id.len(), 36);
    assert_eq!(created.profiles.len(), 7);
    assert_eq!(created.profiles[5].id, id);
    assert_eq!(created.profiles[5].name, "New profile");
    assert_eq!(created.profiles[6].id, "stock");
    let (dup, _) = profile_action(&db, &s("duplicate"), &Some(s("movies"))).unwrap();
    assert_eq!(dup.profiles[5].name, "Movies / Cinematic copy");
    assert_eq!(dup.profiles[5].provenance, "Copy of Movies / Cinematic copy");
    assert_eq!(profile_action(&db, &s("duplicate"), &None).unwrap_err(), "Select a profile");
    assert_eq!(profile_action(&db, &s("delete"), &Some(s("music"))).unwrap_err(), "Switch to another enabled profile before deleting this profile. Stock cannot be deleted.");
    let (gone, gid) = profile_action(&db, &s("delete"), &Some(s("fps"))).unwrap();
    assert_eq!(gid, "fps");
    assert_eq!(gone.profiles.len(), 5);
    assert!(gone.settings.shortcuts.iter().all(|b| b.profile != "fps"));
    let (up, _) = profile_action(&db, &s("up"), &Some(s("movies"))).unwrap();
    assert_eq!(up.profiles[0].id, "movies");
    let (top, _) = profile_action(&db, &s("up"), &Some(s("music"))).unwrap();
    assert_eq!(top.profiles[0].id, "music");
    assert_eq!(profile_action(&db, &s("down"), &Some(s("x"))).unwrap_err(), "Missing profile");
    assert_eq!(profile_action(&db, &s("rename"), &None).unwrap_err(), "Unknown profile action");
}

#[test]
fn headphone_actions() {
    let db = fresh();
    let made = headphone_action(&db, &s("create"), &s(""), &s("Studio")).unwrap();
    assert_eq!(made.headphones.len(), 2);
    assert_eq!(made.headphones[1].name, "Studio");
    assert_eq!(headphone_action(&db, &s("create"), &s(""), &s("   ")).unwrap_err(), "Enter a headphone name (1–80 characters)");
    let hid = made.headphones[1].id.clone();
    let renamed = headphone_action(&made, &s("rename"), &hid, &s("Studio 2")).unwrap();
    assert_eq!(renamed.headphones[1].name, "Studio 2");
    assert_eq!(headphone_action(&made, &s("rename"), &s("zz"), &s("x")).unwrap_err(), "Missing headphone");
    let selected = headphone_action(&made, &s("select"), &hid, &s("")).unwrap();
    assert_eq!(selected.selected_headphone, hid);
    assert_eq!(headphone_action(&selected, &s("delete"), &hid, &s("")).unwrap_err(), "Move this headphone's profiles and select another headphone before deleting it");
    let removed = headphone_action(&made, &s("delete"), &hid, &s("")).unwrap();
    assert_eq!(removed.headphones.len(), 1);
    assert_eq!(headphone_action(&db, &s("fly"), &hid, &s("")).unwrap_err(), "Unknown headphone action");
}

#[test]
fn imports_get_fresh_ids() {
    let db = fresh();
    let p = ananda_control::apo::parse("Preamp: -2 dB", "Imported", "file").unwrap();
    let (next, id) = import_profile(&db, p, None, s("Imported from C:\\x.txt")).unwrap();
    assert_eq!(next.profiles[5].id, id);
    assert_eq!(next.profiles[5].provenance, "Imported from C:\\x.txt");
    assert_eq!(next.profiles[6].id, "stock");
    let q = ananda_control::apo::parse("Preamp: -2 dB", "Imported", "file").unwrap();
    assert_eq!(import_profile(&db, q, Some(s("")), s("agent")).unwrap_err(), "Profile name must contain 1–80 characters on one line");
}

#[test]
fn tray_lists_profiles() {
    let db = installed();
    let devices = vec![Device { id: DEVICE.into(), name: "K7".into(), connected: true, apo_registered: true, enhancements_disabled: false }];
    let m = tray_menu(&db, true, &devices);
    assert_eq!(m.status, "● K7 connected");
    assert_eq!(m.current, "Current: Balanced Music");
    assert_eq!(m.profiles.len(), 6);
    assert_eq!(m.profiles[0].label, "♫ Balanced Music");
    assert_eq!(m.profiles[0].id, "profile:music");
    assert!(m.profiles[0].checked && !m.profiles[1].checked);
    assert_eq!(m.profiles[5].label, "🔊 Stock / EQ Off");
    assert!(m.toggle_checked);
    assert_eq!(m.tooltip, "Ananda Control • Balanced Music");
    let n = tray_menu(&db, false, &vec![]);
    assert_eq!(n.status, "⚠ Configuration needs attention");
    assert_eq!(n.tooltip, "Ananda Control • Balanced Music • Setup / attention needed");
    assert_eq!(tray_menu(&fresh(), true, &devices).status, "Setup needed");
    assert_eq!(tray_menu(&db, true, &vec![]).status, "○ Output disconnected");
}

#[test]
fn hotkeys_in_key_order() {
    let mut db = fresh();
    db.settings.shortcuts[0].keys = "  ".into();
    let plan = shortcut_plan(&db);
    let ids: Vec<&str> = plan.iter().map(|b| b.profile.as_str()).collect();
    assert_eq!(ids, vec!["__quick", "gaming", "movies", "music", "stock", "voice"]);
    assert_eq!(plan[0].keys, "Ctrl+Alt+E");
}

fn args(pairs: Vec<(&str, Json)>) -> Json {
    Json::Object(pairs.into_iter().map(|(k, v)| Member { key: k.into(), value: v }).collect())
}

#[test]
fn agent_edits() {
    let db = installed();
    let e = edit_from(&s("set_preamp"), &args(vec![("gainDb", Json::Number(Decimal { units: -9_000_000_000_000_000_000 }))]));
    let (next, apply, p) = patched(&db, &s("Balanced music"), &e).unwrap();
    assert!(apply);
    assert_eq!(p.preamp.units, -9_000_000_000_000_000_000);
    assert_eq!(next.profiles[0].preamp.units, -9_000_000_000_000_000_000);
    assert_eq!(patched(&db, &s("stock"), &e).unwrap_err(), "Stock cannot be edited");
    let gone = Edit::RemoveFilter(s("nope"));
    assert_eq!(patched(&db, &s("music"), &gone).unwrap_err(), "Filter not found; use get_profile");
    let fid = db.profiles[0].filters[0].id.clone();
    let change = edit_from(&s("edit_filter"), &args(vec![("filterId", Json::Text(fid.clone())), ("enabled", Json::Bool(false))]));
    let changed = apply_edit(db.profiles[0].clone(), &change, &db).unwrap();
    assert!(!changed.filters[0].enabled);
    assert_eq!(changed.filters[0].gain, db.profiles[0].filters[0].gain);
    let h = Edit::Headphone(s("elsewhere"));
    assert_eq!(apply_edit(db.profiles[0].clone(), &h, &db).unwrap_err(), "Headphone not found");
}

#[test]
fn windows_data() {
    let fx = "x{2E7B3A2C-1234-4d5e-8f9a-0123456789ab}y{zz}{D04E05A6-594B-4fb6-A80D-01AF5EED7D1D}";
    assert_eq!(class_ids(fx), vec!["{2E7B3A2C-1234-4d5e-8f9a-0123456789ab}", "{D04E05A6-594B-4fb6-A80D-01AF5EED7D1D}"]);
    assert!(is_apo_server("C:\\Program Files\\EqualizerAPO\\EqualizerAPO.dll"));
    assert!(!is_apo_server("C:\\Windows\\System32\\audiodg.dll"));
    assert!(account_sid("S-1-5-21-1004336348-1177238915-682003330-1001"));
    assert!(!account_sid("S-1-5-21-1004336348-1177238915-682003330"));
    assert!(!account_sid("S-1-5-21-1-2-3-4x"));
    assert_eq!(
        find_account_sid("\"desk\\\\user\",\"S-1-5-21-1004336348-1177238915-682003330-1001\"\r\n"),
        Some("S-1-5-21-1004336348-1177238915-682003330-1001".to_string())
    );
    assert_eq!(find_account_sid("S-1-5-18"), None);
}

#[test]
fn default_hotkeys() {
    let s = ananda_control::model::Settings::default();
    let pairs: Vec<(&str, &str)> = s.shortcuts.iter().map(|b| (b.profile.as_str(), b.keys.as_str())).collect();
    assert_eq!(
        pairs,
        vec![
            ("fps", "Ctrl+Alt+4"),
            ("gaming", "Ctrl+Alt+3"),
            ("movies", "Ctrl+Alt+2"),
            ("music", "Ctrl+Alt+1"),
            ("stock", "Ctrl+Alt+0"),
            ("voice", "Ctrl+Alt+5"),
        ]
    );
    assert_eq!(s.quick_shortcut, "Ctrl+Alt+E");
    assert!(s.agent_control && s.start_with_windows && s.start_in_tray && s.restore_last_profile && s.close_to_tray && s.notifications);
}

#[test]
fn startup_restores_and_stays_in_the_tray() {
    let db = installed();
    let plan = startup_plan(&db, true, true);
    assert_eq!(plan.restore.as_deref(), Some(db.active_profile.as_str()));
    assert!(!plan.open_main);
    let plan = startup_plan(&db, false, false);
    assert_eq!(plan.restore, None);
    assert!(plan.open_main);
    let plan = startup_plan(&fresh(), true, true);
    assert_eq!(plan.restore, None);
    assert!(plan.open_main);
}

#[test]
fn account_sid_digits_are_unicode_digits() {
    assert!(account_sid("S-1-5-21-\u{661}\u{662}-3-4-1001"));
    assert!(!account_sid("S-1-5-21-\u{bd}-3-4-1001"));
}

fn err(m: &str) -> Result<(), String> {
    Err(m.to_string())
}

#[test]
fn setup_writes_in_turn_and_succeeds() {
    let (mut setup, step) = Setup::begin(true, s("C:\\backup"));
    assert!(matches!(step, SetupStep::HandOver));
    assert!(matches!(setup.reported(Ok(())), SetupStep::WriteActive));
    assert!(matches!(setup.reported(Ok(())), SetupStep::WriteRoot));
    assert!(matches!(setup.reported(Ok(())), SetupStep::SaveDatabase));
    assert!(matches!(setup.reported(Ok(())), SetupStep::Finish(Ok(()))));
}

#[test]
fn failed_setup_rolls_back_in_order() {
    let (mut setup, _) = Setup::begin(true, s("C:\\backup"));
    setup.reported(Ok(()));
    setup.reported(Ok(()));
    assert!(matches!(setup.reported(err("disk full")), SetupStep::RestoreConfig));
    assert!(matches!(setup.reported(Ok(())), SetupStep::RestoreActive));
    assert!(matches!(setup.reported(err("ignored")), SetupStep::RestorePeace));
    match setup.reported(err("ignored")) {
        SetupStep::Finish(Err(m)) => assert_eq!(m, setup_failed("disk full", true, "C:\\backup")),
        _ => panic!("the failure is reported"),
    }
    let (mut setup, _) = Setup::begin(false, s("B"));
    setup.reported(Ok(()));
    assert!(matches!(setup.reported(err("locked")), SetupStep::RestoreConfig));
    assert!(matches!(setup.reported(err("still locked")), SetupStep::RestorePeace));
    match setup.reported(Ok(())) {
        SetupStep::Finish(Err(m)) => assert_eq!(m, "Setup failed: locked. Config rollback: needs manual restoration. Backup: B"),
        _ => panic!("the failure is reported"),
    }
}

#[test]
fn failed_handover_restores_peace() {
    let (mut setup, _) = Setup::begin(false, s("B"));
    assert!(matches!(setup.reported(err("denied")), SetupStep::RestorePeace));
    match setup.reported(err("also denied")) {
        SetupStep::Finish(Err(m)) => assert_eq!(m, "Peace handover failed; startup restoration attempted: denied"),
        _ => panic!("the failure is reported"),
    }
}

#[test]
fn restoration_steps() {
    let (mut r, step) = Restore::begin();
    assert!(matches!(step, RestoreStep::WriteConfig));
    assert!(matches!(r.reported(Ok(())), RestoreStep::SaveDatabase));
    assert!(matches!(r.reported(err("no space")), RestoreStep::RewriteRoot));
    match r.reported(err("ignored")) {
        RestoreStep::Finish(Err(m)) => assert_eq!(m, "no space"),
        _ => panic!("the failure is reported"),
    }
    let (mut r, _) = Restore::begin();
    r.reported(Ok(()));
    assert!(matches!(r.reported(Ok(())), RestoreStep::RestorePeace));
    assert!(matches!(r.reported(Ok(())), RestoreStep::DisableAutostart));
    assert!(matches!(r.reported(err("ignored")), RestoreStep::Finish(Ok(()))));
}

#[test]
fn preference_changes_switch_autostart_and_revert() {
    let (mut c, step) = SettingsChange::begin(true, false);
    assert!(matches!(step, SettingsStep::SetAutostart(false)));
    assert!(matches!(c.reported(Ok(())), SettingsStep::SaveDatabase));
    assert!(matches!(c.reported(err("busy")), SettingsStep::SetAutostart(true)));
    match c.reported(Ok(())) {
        SettingsStep::Finish(Err(m)) => assert_eq!(m, "busy"),
        _ => panic!("the failure is reported"),
    }
    let (mut c, step) = SettingsChange::begin(true, true);
    assert!(matches!(step, SettingsStep::SaveDatabase));
    assert!(matches!(c.reported(Ok(())), SettingsStep::Finish(Ok(()))));
}

#[test]
fn hotkeys_stay_in_key_order() {
    let db = fresh();
    let ids = |d: &Database| d.settings.shortcuts.iter().map(|b| b.profile.clone()).collect::<Vec<_>>();
    assert_eq!(ids(&db), vec!["fps", "gaming", "movies", "music", "stock", "voice"]);
    let (gone, _) = profile_action(&db, &s("delete"), &Some(s("gaming"))).unwrap();
    assert_eq!(ids(&gone), vec!["fps", "movies", "music", "stock", "voice"]);
}

#[test]
fn a_last_line_keeps_its_carriage_return_until_trimmed() {
    let p = ananda_control::apo::parse("Preamp: -2 dB\r", "CR", "").unwrap();
    assert_eq!(p.preamp.units, -2_000_000_000_000_000_000);
    assert_eq!(
        ananda_control::apo::parse("Hello\r", "CR", "").unwrap_err(),
        "Line 1: Unsupported directive: Hello. Import cancelled; no commands were executed."
    );
}
