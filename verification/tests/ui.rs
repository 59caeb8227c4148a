//! How lines look.

use aurox::ui::{
    color_on, dim, hash_name, human_age, human_bytes, human_duration, message, repo, repo_style,
    ColorMode, Tone,
};
use aurox::units::{hundredths_string, micros_string, ByteSize, UnixTime};

/// Single-unit "time since" rounding for the AUR last-modified column:
/// floors at `now` under a minute, then the largest non-zero of m/h/d.
#[test]
fn human_age_single_coarse_unit() {
    let age = |s| human_age(s);
    assert_eq!(age(0), "now");
    assert_eq!(age(59), "now");
    assert_eq!(age(60), "1m");
    assert_eq!(age(59 * 60), "59m");
    assert_eq!(age(3_600), "1h");
    assert_eq!(age(23 * 3_600), "23h");
    assert_eq!(age(86_400), "1d");
    assert_eq!(age(3 * 86_400 + 5 * 3_600), "3d");
}

#[test]
fn human_bytes_delegates_to_byte_size() {
    // The unit/precision matrix is pinned in `units::tests`; this only
    // guards the wrapper's plumbing.
    assert_eq!(human_bytes(1536), "1.50 KiB");
}

/// The upgrade-table header is auxiliary information — it must render in
/// the same gray-italic style as phase hints, never bold. Pins the ANSI
/// codes so a refactor that re-bolds the header fails loudly.
#[test]
fn dim_is_italic_color244_not_bold() {
    let out = dim("Repo upgrades (3)");
    assert!(
        out.contains("\u{1b}[38;5;244m"),
        "missing color 244: {out:?}"
    );
    assert!(out.contains("\u{1b}[3m"), "missing italic: {out:?}");
    assert!(
        !out.contains("\u{1b}[1m"),
        "header should not be bold: {out:?}"
    );
}

/// `repo` must reproduce yay's `text.ColorHash` so prefixes look identical
/// across the two tools. These pins are the colors yay assigns today —
/// core→yellow, extra→green, multilib→cyan, aur→blue — computed from the
/// same djb2/`%6` mapping. A change to the hash or color table breaks here.
#[test]
fn repo_colors_match_yay_colorhash() {
    let out = |name: &str| repo(name);
    let bold_colored = |name: &str, color: &str| {
        let s = out(name);
        s.contains(color) && s.contains("\u{1b}[1m")
    };
    assert!(bold_colored("core", "\u{1b}[33m"), "core not bold yellow");
    assert!(bold_colored("extra", "\u{1b}[32m"), "extra not bold green");
    assert!(
        bold_colored("multilib", "\u{1b}[36m"),
        "multilib not bold cyan"
    );
    assert!(bold_colored("aur", "\u{1b}[34m"), "aur not bold blue");
}

#[test]
fn plain_lines_have_their_marks() {
    assert_eq!(message(Tone::Info, false, "x"), ":: x");
    assert_eq!(message(Tone::Step, false, "x"), "==> x");
    assert_eq!(message(Tone::Warn, false, "x"), "warning: x");
    assert_eq!(message(Tone::Error, false, "x"), "error: x");
    assert_eq!(message(Tone::Note, false, "x"), "-> x");
}

#[test]
fn colored_lines_carry_codes() {
    let out = message(Tone::Error, true, "x");
    assert!(out.contains("\u{1b}[31m"), "{out:?}");
    assert!(out.contains("\u{1b}[1m"), "{out:?}");
    assert!(out.ends_with(" x"), "{out:?}");
    let out = message(Tone::Note, true, "x");
    assert!(out.contains("\u{1b}[36m"), "{out:?}");
    let out = message(Tone::Info, true, "x");
    assert!(out.contains("\u{1b}[34m"), "{out:?}");
    assert!(!out.ends_with(" x"), "{out:?}");
}

#[test]
fn the_codes_are_exact() {
    assert_eq!(message(Tone::Error, true, "x"), "\u{1b}[31m\u{1b}[1merror:\u{1b}[0m x");
    assert_eq!(
        message(Tone::Step, true, "x"),
        "\u{1b}[32m\u{1b}[1m==>\u{1b}[0m \u{1b}[1mx\u{1b}[0m"
    );
    assert_eq!(message(Tone::Note, true, ""), "\u{1b}[36m->\u{1b}[0m ");
    assert_eq!(dim("x"), "\u{1b}[38;5;244m\u{1b}[3mx\u{1b}[0m");
    assert_eq!(repo("core"), "\u{1b}[33m\u{1b}[1mcore\u{1b}[0m");
}

#[test]
fn colors_follow_the_choice() {
    assert!(color_on(ColorMode::Always, false));
    assert!(!color_on(ColorMode::Never, true));
    assert!(color_on(ColorMode::Auto, true));
    assert!(!color_on(ColorMode::Auto, false));
    assert_eq!(ColorMode::default(), ColorMode::Auto);
}

#[test]
fn the_hash_starts_at_5381() {
    assert_eq!(hash_name(b""), 5381);
    assert_eq!(hash_name(b"a"), 97 + (5381 << 5) + 5381);
    assert_eq!(repo_style("core"), "bold.yellow");
    assert_eq!(repo_style("extra"), "bold.green");
}

#[test]
fn durations_have_two_units() {
    assert_eq!(human_duration(0), "0s");
    assert_eq!(human_duration(59), "59s");
    assert_eq!(human_duration(61), "1m 1s");
    assert_eq!(human_duration(3_661), "1h 1m");
}

#[test]
fn sizes_are_rounded_to_hundredths() {
    assert_eq!(ByteSize::new(0).to_string(), "0 B");
    assert_eq!(ByteSize::new(1023).to_string(), "1023 B");
    assert_eq!(ByteSize::new(1024).to_string(), "1.00 KiB");
    assert_eq!(ByteSize::new(12 * 1024 * 1024).to_string(), "12.00 MiB");
    assert_eq!(hundredths_string(1234), "12.34");
    assert_eq!(hundredths_string(5), "0.05");
    assert_eq!(micros_string(1_500), "1.5ms");
}

#[test]
fn the_start_of_the_epoch_is_no_time() {
    assert_eq!(UnixTime::new(0).render(), None);
    let shown = UnixTime::new(1_700_000_000).render().unwrap();
    assert!(shown.contains("2023"), "{shown}");
    let here = jiff::Timestamp::from_second(1_700_000_000).unwrap().to_zoned(jiff::tz::TimeZone::system());
    assert_eq!(shown, here.strftime("%a %d %b %Y %I:%M:%S %p %Z").to_string());
    assert!(UnixTime::new(253402207200).render().is_some());
    assert!(UnixTime::new(253402207201).render().is_none());
    assert!(UnixTime::new(-377705023201).render().is_some());
    assert!(UnixTime::new(-377705023202).render().is_none());
}
