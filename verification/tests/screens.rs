//! What is put on the screen.
use kairos::store::{EventType, StorageKind};
use kairos::ui::{human_bytes, BadgeTone, TableCell, Ui};

fn plain() -> Ui {
    Ui::new(false, false, &None)
}

fn colored() -> Ui {
    Ui::new(true, false, &Some("xterm".to_string()))
}

#[test]
fn color_needs_a_terminal_that_wants_it() {
    let is_colored = |ui: Ui| ui.muted("x") != "x";
    assert!(is_colored(Ui::new(true, false, &None)));
    assert!(is_colored(colored()));
    assert!(!is_colored(Ui::new(false, false, &None)));
    assert!(!is_colored(Ui::new(true, true, &None)));
    assert!(!is_colored(Ui::new(true, false, &Some("dumb".to_string()))));
}

#[test]
fn titles_are_underlined_by_their_bytes() {
    assert_eq!(plain().title("Status", ""), "Status\n------------");
    assert_eq!(plain().title("Diff", "src/lib.rs"), "Diff: src/lib.rs\n----------------");
    assert_eq!(plain().title("Status", "caf\u{e9}"), "Status: caf\u{e9}\n-------------");
    assert_eq!(
        colored().title("A", ""),
        "\u{1b}[1;36mA\u{1b}[0m\n\u{1b}[90m------------\u{1b}[0m"
    );
}

#[test]
fn callouts_carry_their_label() {
    let ui = plain();
    assert_eq!(ui.success("done"), "[OK] done");
    assert_eq!(ui.warning("hm"), "[WARN] hm");
    assert_eq!(ui.error("no"), "[ERR] no");
    assert_eq!(ui.muted("quiet"), "quiet");
    assert_eq!(colored().success("done"), "\u{1b}[1;32m[OK]\u{1b}[0m done");
    assert_eq!(colored().warning("hm"), "\u{1b}[1;33m[WARN]\u{1b}[0m hm");
    assert_eq!(colored().error("no"), "\u{1b}[1;31m[ERR]\u{1b}[0m no");
}

#[test]
fn badges_have_their_tone() {
    let ui = colored();
    assert_eq!(plain().badge("IDLE", BadgeTone::Danger), "[IDLE]");
    assert_eq!(ui.badge("A", BadgeTone::Accent), "\u{1b}[1;36m[A]\u{1b}[0m");
    assert_eq!(ui.badge("A", BadgeTone::Success), "\u{1b}[1;32m[A]\u{1b}[0m");
    assert_eq!(ui.badge("A", BadgeTone::Warning), "\u{1b}[1;33m[A]\u{1b}[0m");
    assert_eq!(ui.badge("A", BadgeTone::Danger), "\u{1b}[1;31m[A]\u{1b}[0m");
    assert_eq!(ui.badge("A", BadgeTone::Info), "\u{1b}[1;34m[A]\u{1b}[0m");
}

#[test]
fn key_values_are_lined_up() {
    let rows = vec![("Pid", "7".to_string()), ("Watcher", "[ACTIVE]".to_string())];
    assert_eq!(plain().key_values(&rows), "Pid:     7\nWatcher: [ACTIVE]");
    assert_eq!(plain().key_values(&vec![]), "");
    assert_eq!(
        colored().key_values(&vec![("A", "b".to_string())]),
        "\u{1b}[90mA:\u{1b}[0m b"
    );
}

#[test]
fn tables_are_lined_up() {
    let ui = plain();
    let rows = vec![
        vec![TableCell::plain("a"), TableCell::right("10 KB")],
        vec![TableCell::plain("longer"), TableCell::right("-")],
        vec![TableCell::plain("short")],
    ];
    assert_eq!(
        ui.table(&vec!["Path", "Size"], &rows),
        "Path   | Size \n-------+------\na      | 10 KB\nlonger |     -\nshort "
    );
    assert_eq!(ui.table(&vec!["Path", "Size"], &vec![]), "Path | Size\n-----+-----");
    assert_eq!(
        colored().table(&vec!["X"], &vec![vec![TableCell::plain("y").info()]]),
        "\u{1b}[1;34mX\u{1b}[0m\n\u{1b}[90m-\u{1b}[0m\n\u{1b}[1;34my\u{1b}[0m"
    );
}

#[test]
fn cells_have_their_tone() {
    let ui = colored();
    let shown = |cell: TableCell| cell.render(&ui, 0);
    assert_eq!(shown(ui.event_cell(EventType::Create)), "\u{1b}[1;32mCREATE\u{1b}[0m");
    assert_eq!(shown(ui.event_cell(EventType::Modify)), "\u{1b}[1;34mMODIFY\u{1b}[0m");
    assert_eq!(shown(ui.event_cell(EventType::Delete)), "\u{1b}[1;31mDELETE\u{1b}[0m");
    assert_eq!(shown(ui.storage_cell(StorageKind::Full)), "\u{1b}[1;32mFULL\u{1b}[0m");
    assert_eq!(shown(ui.storage_cell(StorageKind::Patch)), "\u{1b}[1;33mPATCH\u{1b}[0m");
    assert_eq!(shown(ui.storage_cell(StorageKind::Absent)), "\u{1b}[1;31mNONE\u{1b}[0m");
    assert_eq!(shown(TableCell::plain("x").warning()), "\u{1b}[1;33mx\u{1b}[0m");
    assert_eq!(TableCell::right("ab").render(&plain(), 4), "  ab");
    assert_eq!(TableCell::plain("ab").render(&plain(), 4), "ab  ");
    assert_eq!(TableCell::plain("caf\u{e9}").width(), 5);
}

#[test]
fn diffs_are_painted_line_by_line() {
    let diff = "--- a\n+++ b\n@@ -1 +1 @@\n-old\n+new\n same\n";
    assert_eq!(plain().render_diff(diff), "--- a\n+++ b\n@@ -1 +1 @@\n-old\n+new\n same");
    assert_eq!(
        colored().render_diff(diff),
        "\u{1b}[1;36m--- a\u{1b}[0m\n\u{1b}[1;36m+++ b\u{1b}[0m\n\u{1b}[1;34m@@ -1 +1 @@\u{1b}[0m\n\
         \u{1b}[1;31m-old\u{1b}[0m\n\u{1b}[1;32m+new\u{1b}[0m\n same"
    );
    assert_eq!(plain().render_diff("a\r\nb"), "a\nb");
    assert_eq!(plain().render_diff(""), "");
}

fn by_floating_point(bytes: u64) -> String {
    let units = ["B", "KB", "MB", "GB", "TB"];
    let mut value = bytes as f64;
    let mut unit = 0;
    while value >= 1024.0 && unit < units.len() - 1 {
        value /= 1024.0;
        unit += 1;
    }
    if unit == 0 {
        format!("{bytes} {}", units[unit])
    } else if value >= 10.0 {
        format!("{value:.0} {}", units[unit])
    } else {
        format!("{value:.1} {}", units[unit])
    }
}

#[test]
fn sizes_have_one_digit_after_the_point_below_ten() {
    assert_eq!(human_bytes(0), "0 B");
    assert_eq!(human_bytes(1_023), "1023 B");
    assert_eq!(human_bytes(1_024), "1.0 KB");
    assert_eq!(human_bytes(1_536), "1.5 KB");
    assert_eq!(human_bytes(10_240), "10 KB");
    assert_eq!(human_bytes(1_048_575), "1024 KB");
    assert_eq!(human_bytes(1_048_576), "1.0 MB");
    assert_eq!(human_bytes(u64::MAX), "16777216 TB");
}

#[test]
fn sizes_agree_with_floating_point() {
    let mut state: u64 = 0x9e37_79b9_7f4a_7c15;
    for round in 0..200_000_u64 {
        state = state.wrapping_mul(6_364_136_223_846_793_005).wrapping_add(1_442_695_040_888_963_407);
        let bytes = state >> (round % 64);
        assert_eq!(human_bytes(bytes), by_floating_point(bytes), "{bytes}");
    }
    for shift in 10..64_u32 {
        let base = 1_u64 << shift;
        for step in 0..40_u64 {
            let part = base / 20 * step;
            for bytes in [base.wrapping_add(part), base.wrapping_add(part).wrapping_sub(1)] {
                assert_eq!(human_bytes(bytes), by_floating_point(bytes), "{bytes}");
            }
        }
    }
}
