// Presets with the preamp and gain values of the bundled Music and Movies
// presets, so that the Gaming midpoint is checked on the same numbers.
use ananda_control::apo::{export, generate, parse};
use ananda_control::decimal::{parse_number, Decimal};
use ananda_control::model::{defaults, validate_profile, Database};

const MUSIC: &str = "# Balanced music\nPreamp: -5.5 dB\nFilter 1: ON LSC Fc 105 Hz Gain 5 dB Q 0.7\nFilter 2: ON PK Fc 250 Hz Gain -1 dB Q 1.2\nFilter 3: ON PK Fc 800 Hz Gain 0.5 dB Q 1\nFilter 4: ON PK Fc 3000 Hz Gain 5.5 dB Q 2\nFilter 5: ON PK Fc 5000 Hz Gain -3 dB Q 3\nFilter 6: ON PK Fc 7500 Hz Gain -2 dB Q 4\nFilter 7: ON HSC Fc 10000 Hz Gain -4 dB Q 0.7\n";
const MOVIES: &str = "Preamp: -6.5 dB\nFilter 1: ON LSC Fc 105 Hz Gain 7 dB Q 0.7\nFilter 2: ON PK Fc 250 Hz Gain 0.5 dB Q 1.2\nFilter 3: ON PK Fc 800 Hz Gain 0.5 dB Q 1\nFilter 4: ON PK Fc 3000 Hz Gain 4.5 dB Q 2\nFilter 5: ON PK Fc 5000 Hz Gain -2.5 dB Q 3\nFilter 6: ON PK Fc 7500 Hz Gain -1 dB Q 4\nFilter 7: ON HSC Fc 10000 Hz Gain -2.5 dB Q 0.7\n";
const FPS: &str = "Preamp: -4 dB\nFilter 1: ON LSC Fc 80 Hz Gain -3 dB Q 0.7\nFilter 2: ON PK Fc 2500 Hz Gain 3 dB Q 1.5\nFilter 3: ON HPQ Fc 25 Hz Q 0.707\n";
const VOICE: &str = "Preamp: -3 dB\nFilter 1: ON HPQ Fc 90 Hz Q 0.707\nFilter 2: ON PK Fc 3000 Hz Gain 2 dB Q 1\nFilter 3: OFF LPQ Fc 16000 Hz Q 0.8\n";

fn bundled() -> Database {
    defaults(MUSIC, MOVIES, FPS, VOICE).unwrap()
}

fn units(x: f64) -> i128 {
    (x * 1e18).round() as i128
}

fn gains(db: &Database, i: usize) -> Vec<i128> {
    db.profiles[i].filters.iter().map(|f| f.gain.units).collect()
}

#[test]
fn supplied_values_and_midpoint() {
    let db = bundled();
    assert_eq!(db.profiles.len(), 6);
    assert_eq!(db.profiles[0].preamp.units, units(-5.5));
    assert_eq!(
        gains(&db, 0),
        vec![5.0, -1.0, 0.5, 5.5, -3.0, -2.0, -4.0].into_iter().map(units).collect::<Vec<_>>()
    );
    assert_eq!(
        gains(&db, 2),
        vec![6.0, -0.25, 0.5, 5.0, -2.75, -1.5, -3.25].into_iter().map(units).collect::<Vec<_>>()
    );
    assert_eq!(db.profiles[2].preamp.units, units(-7.0));
}

#[test]
fn rejects_commands_without_partial_import() {
    for text in [
        "Preamp: -5 dB\nInclude: peace.txt",
        "Device: all",
        "Filter 1: ON PK Fc NaN Hz Gain 2 dB Q 1",
        "Preamp: -5 dB\nPreamp: -2 dB",
        "",
        "Filter 1: ON PK Fc 100 Hz Gain 2 dB",
    ] {
        assert!(parse(text, "test", "").is_err(), "{text}");
    }
}

#[test]
fn parametric_roundtrip() {
    for p in bundled().profiles {
        let restored = parse(&export(&p).unwrap(), &p.name, "").unwrap();
        assert_eq!(restored.preamp, p.preamp);
        for (a, b) in restored.filters.iter().zip(&p.filters) {
            assert_eq!(
                (a.frequency, a.gain, a.q, &a.kind, a.enabled),
                (b.frequency, b.gain, b.q, &b.kind, b.enabled)
            );
        }
    }
}

#[test]
fn graphic_roundtrip() {
    let p = parse("GraphicEQ: 20 -3; 100 0; 10000 2", "graphic", "").unwrap();
    let again = parse(&export(&p).unwrap(), "graphic", "").unwrap().graphic_eq;
    assert_eq!(again.len(), p.graphic_eq.len());
    for (a, b) in again.iter().zip(&p.graphic_eq) {
        assert_eq!((a.frequency, a.gain), (b.frequency, b.gain));
    }
}

#[test]
fn rejects_bad_graphic_order() {
    assert!(parse("GraphicEQ: 100 0; 20 -3", "g", "").is_err());
}

#[test]
fn all_filter_types_roundtrip() {
    let p = parse("Filter 1: ON LSC Fc 100 Hz Gain 2 dB Q 0.7\nFilter 2: OFF HSC Fc 8000 Hz Gain -1 dB Q 0.8\nFilter 3: ON HPQ Fc 20 Hz Q 0.707\nFilter 4: ON LPQ Fc 18000 Hz Q 0.8", "types", "").unwrap();
    assert_eq!(parse(&export(&p).unwrap(), "types", "").unwrap().filters.len(), 4);
}

#[test]
fn stock_and_device_scope() {
    let db = bundled();
    let text = generate(db.profiles.last().unwrap(), "{63f8b8a3-7684-462c-b6ab-5a68228fab30}").unwrap();
    assert!(text.contains("Preamp: 0 dB"));
    assert!(!text.contains("Filter"));
    assert!(generate(&db.profiles[0], "all\nInclude: evil").is_err());
}

#[test]
fn bounds_and_nonfinite() {
    let mut p = bundled().profiles.remove(0);
    p.filters[0].q = Decimal::zero();
    assert!(validate_profile(&p).is_err());
    p.filters[0].q = Decimal { units: units(1.0) };
    // Non-finite numbers read as the saturated value.
    p.preamp = parse_number(&"NaN".chars().collect()).unwrap();
    assert!(validate_profile(&p).is_err());
}

#[test]
fn export_text_is_exact() {
    let p = parse("Preamp: -3.25 dB\nFilter 1: ON PK Fc 1000 Hz Gain 2 dB Q 1.41\nFilter 2: OFF HPQ Fc 30 Hz Q 0.707\nGraphicEQ: 20 -3; 100 0.5", "Exact", "").unwrap();
    assert_eq!(
        export(&p).unwrap(),
        "# Exact\nPreamp: -3.25 dB\nFilter 1: ON PK Fc 1000 Hz Gain 2 dB Q 1.41\nFilter 2: OFF HPQ Fc 30 Hz Q 0.707\nGraphicEQ: 20 -3; 100 0.5\n"
    );
}

#[test]
fn generated_text_is_scoped_to_the_endpoint() {
    let p = parse("Preamp: -1 dB", "Scoped", "").unwrap();
    assert_eq!(
        generate(&p, "{63F8B8A3-7684-462c-b6ab-5a68228fab30}").unwrap(),
        "# Managed by Ananda Control. Changes are detected.\nDevice: {63F8B8A3-7684-462c-b6ab-5a68228fab30}\nChannel: all\n# Scoped\nPreamp: -1 dB\n"
    );
    assert_eq!(generate(&p, "{63f8b8a3-7684-462c-b6ab-5a68228fab3}").unwrap_err(), "Select a valid Windows output endpoint");
}

#[test]
fn lowercase_kinds_are_normalized() {
    let p = parse("filter 1: on ls fc 100 hz gain 2 db\nfilter 2: ON hp Fc 30 Hz", "Norm", "").unwrap();
    assert_eq!(p.filters[0].kind, "LSC");
    assert_eq!(p.filters[1].kind, "HPQ");
    assert_eq!(p.filters[1].gain.units, 0);
}

#[test]
fn defaults_have_expected_shape() {
    let db = bundled();
    let ids: Vec<&str> = db.profiles.iter().map(|p| p.id.as_str()).collect();
    assert_eq!(ids, vec!["music", "movies", "gaming", "fps", "voice", "stock"]);
    assert_eq!(db.profiles[2].provenance, "App-created • Music/Movies gain midpoint, −7 dB preamp");
    assert_eq!(db.active_profile, "music");
    assert!(!db.integration.installed);
    assert_eq!(db.settings.quick_shortcut, "Ctrl+Alt+E");
    assert!(ananda_control::model::validate_database(&db).is_ok());
}

#[test]
fn export_writes_one_filter_line_per_filter() {
    let p = parse("Preamp: -2 dB\nFilter 1: ON PK Fc 1000 Hz Gain 2 dB Q 1\nFilter 2: ON LSC Fc 100 Hz Gain 3 dB Q 0.7\nFilter 3: OFF HPQ Fc 30 Hz Q 0.707\nGraphicEQ: 20 -3; 100 0.5", "Lines", "").unwrap();
    let text = export(&p).unwrap();
    assert!(text.starts_with("# Lines\n"));
    assert_eq!(text.lines().filter(|l| l.starts_with("Filter ")).count(), p.filters.len());
    assert_eq!(text.lines().filter(|l| l.starts_with("GraphicEQ: ")).count(), 1);
    let plain = parse("Preamp: -2 dB\nFilter 1: ON PK Fc 1000 Hz Gain 2 dB Q 1", "Plain", "").unwrap();
    assert!(!export(&plain).unwrap().contains("GraphicEQ"));
}

#[test]
fn one_filter_profile_generates_on_a_valid_endpoint() {
    let p = parse("Preamp: -1 dB\nFilter 1: ON PK Fc 1000 Hz Gain 1 dB Q 1", "One", "").unwrap();
    let device = "{63f8b8a3-7684-462c-b6ab-5a68228fab30}";
    let text = generate(&p, device).unwrap();
    assert_eq!(
        text,
        format!("# Managed by Ananda Control. Changes are detected.\nDevice: {}\nChannel: all\n{}", device, export(&p).unwrap())
    );
}

#[test]
fn types_match_case_insensitively_as_unicode_folds() {
    let p = parse("Filter 1: ON L\u{17f}c Fc 100 Hz Gain 2 dB Q 0.7\nFilter 2: ON h\u{17f} Fc 8000 Hz Gain -1 dB", "Folds", "").unwrap();
    assert_eq!(p.filters[0].kind, "LSC");
    assert_eq!(p.filters[1].kind, "HSC");
    assert_eq!(
        parse("Filter 1: ON P\u{212a} Fc 100 Hz Gain 1 dB Q 1", "Kelvin", "").unwrap_err(),
        "Unsupported filter type: P\u{212a}"
    );
}

#[test]
fn digits_of_other_scripts() {
    let p = parse("Filter \u{661}: ON PK Fc 100 Hz Gain 1 dB Q 1", "Indic", "").unwrap();
    assert_eq!(p.filters.len(), 1);
    assert_eq!(
        parse("Filter 1: ON PK Fc \u{ff11}00 Hz Gain 1 dB Q 1", "Wide", "").unwrap_err(),
        "Line 1: Invalid frequency"
    );
    assert_eq!(parse("Preamp: \u{967} dB", "Devanagari", "").unwrap_err(), "Line 1: Invalid preamp");
    assert!(parse("Filter \u{bd}: ON PK Fc 100 Hz Gain 1 dB Q 1", "Half", "")
        .unwrap_err()
        .starts_with("Line 1: Unsupported directive"));
}

fn units_of(t: &str) -> i128 {
    parse_number(&t.chars().collect()).unwrap().units
}

#[test]
fn numbers_round_to_the_nearest_unit() {
    assert_eq!(units_of("0.0999999999999999999"), 100_000_000_000_000_000);
    assert_eq!(units_of("0.0000000000000000004"), 0);
    assert_eq!(units_of("0.0000000000000000005"), 1);
    assert_eq!(units_of("-0.0000000000000000015"), -2);
    assert_eq!(units_of("25e-19"), 3);
    assert_eq!(units_of("25e-20"), 0);
    assert_eq!(units_of("1.5"), 1_500_000_000_000_000_000);
    let p = parse("Filter 1: ON PK Fc 1000 Hz Gain 1 dB Q 0.0999999999999999999", "Edge", "").unwrap();
    assert_eq!(p.filters[0].q.units, 100_000_000_000_000_000);
}
