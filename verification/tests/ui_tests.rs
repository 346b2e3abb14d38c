use wrath::error::WrathError;
use wrath::inspect::{EntryPoint, ProcessInfo, Runtime};
use wrath::process::{KillPlan, KillResult};
use wrath::ui::{
    answer_outcome, confirm, confirm_prompt, confirmation, Confirmation, flame_colors_row, flame_row, flame_style, format_duration,
    render_card, render_error, render_flame_row, render_plan, render_result, render_skipped,
    summarize_children, truncate, Tone, FLAME_ROWS,
};

fn plain(text: &str) -> String {
    anstream::adapter::strip_str(text).to_string()
}

fn sample_info() -> ProcessInfo {
    ProcessInfo {
        pid: 12345,
        name: "node.exe".into(),
        runtime: Runtime::Node,
        entry: Some(EntryPoint {
            kind: "Script",
            value: "node_modules/vite/bin/vite.js".into(),
            package: Some("vite".into()),
        }),
        command: "node vite.js dev".into(),
        exe: Some("/usr/bin/node".into()),
        cwd: Some("/app".into()),
        user: Some("aymer".into()),
        memory_bytes: 88_290_000,
        uptime_secs: 7980,
        children: vec!["esbuild".into(), "cmd".into(), "esbuild".into()],
    }
}

/// `format_bytes(88_290_000)`, as the caller writes it before rendering.
const SAMPLE_MEMORY: &str = "84.2 MB";

#[test]
fn test_format_duration() {
    assert_eq!(format_duration(0), "0s");
    assert_eq!(format_duration(42), "42s");
    assert_eq!(format_duration(312), "5m 12s");
    assert_eq!(format_duration(7980), "2h 13m");
    assert_eq!(format_duration(3 * 86_400 + 4 * 3600 + 59), "3d 4h");
}

#[test]
fn test_truncate() {
    assert_eq!(truncate("short", 10), "short");
    assert_eq!(truncate("exactly10!", 10), "exactly10!");
    assert_eq!(truncate("this is too long", 8), "this is\u{2026}");
    assert_eq!(
        truncate("\u{e9}\u{e9}\u{e9}\u{e9}", 3),
        "\u{e9}\u{e9}\u{2026}"
    );
}

#[test]
fn test_summarize_children_groups_and_caps() {
    let names: Vec<String> = ["a", "b", "a", "c", "d", "e", "f"]
        .iter()
        .map(|s| s.to_string())
        .collect();
    assert_eq!(
        summarize_children(&names),
        "7 (a \u{d7}2, b, c, d, +2 more)"
    );
}

#[test]
fn test_render_card_contains_details() {
    let card = plain(&render_card(&sample_info(), SAMPLE_MEMORY));
    assert!(card.contains("node.exe  Node.js  PID 12345"));
    assert!(card.contains("Script     node_modules/vite/bin/vite.js (vite)"));
    assert!(card.contains("Command    node vite.js dev"));
    assert!(card.contains("Directory  /app"));
    assert!(card.contains("User       aymer"));
    assert!(card.contains("84.2 MB   Uptime 2h 13m"));
    assert!(card.contains("Children   3 (esbuild \u{d7}2, cmd)"));
}

#[test]
fn test_render_card_minimal() {
    let info = ProcessInfo {
        entry: None,
        command: String::new(),
        exe: None,
        cwd: Some(String::new()),
        user: None,
        children: vec![],
        ..sample_info()
    };
    let card = plain(&render_card(&info, SAMPLE_MEMORY));
    assert!(!card.contains("Script"));
    assert!(!card.contains("Command"));
    assert!(!card.contains("Directory"));
    assert!(!card.contains("Children"));
    assert!(card.contains("Memory"));
}

#[test]
fn test_render_plan_headers() {
    let mut plan = KillPlan {
        process_name: "node".into(),
        port: Some(3000),
        roots: vec![1],
        pids: vec![],
    };
    let by_port = plain(&render_plan(
        &plan,
        &[(sample_info(), SAMPLE_MEMORY.to_string())],
    ));
    assert!(by_port.starts_with("[>] Port 3000 is held by:"));
    assert!(by_port.contains("PID 12345"));

    plan.port = None;
    plan.roots.push(2);
    let by_name = plain(&render_plan(&plan, &[]));
    assert_eq!(by_name, "[>] Found 2 processes matching 'node':\n");
}

#[test]
fn test_render_result_draws_flame_next_to_message() {
    let result = KillResult {
        process_name: "node".into(),
        total_killed: 3,
        port: Some(3000),
    };
    let expected = [
        "    ▙",
        "  ▟▖▟█▖",
        " ▟█████",
        "▐██▗▖██▌   Wrath unleashed: Process 'node' (3 processes)",
        " ▀███▛▘    using port 3000 has been obliterated.",
    ]
    .join("\n");
    assert_eq!(plain(&render_result(&result)), expected);
}

#[test]
fn test_flame_colors_match_flame_shape() {
    for row in 0..FLAME_ROWS {
        let drawing: Vec<char> = flame_row(row).chars().collect();
        let colors: Vec<char> = flame_colors_row(row).chars().collect();
        assert_eq!(drawing.len(), colors.len(), "row {row}: widths differ");

        for (col, (cell, color)) in drawing.iter().zip(&colors).enumerate() {
            match cell {
                ' ' => assert_eq!(*color, ' ', "row {row}, col {col}: color on empty cell"),
                _ => assert!(
                    flame_style(*color).is_some(),
                    "row {row}, col {col}: expected R, O or Y, got {color:?}"
                ),
            }
        }
    }
}

#[test]
fn test_flame_style_letters() {
    assert_eq!(flame_style('R'), Some(Tone::FlameRed));
    assert_eq!(flame_style('O'), Some(Tone::Orange));
    assert_eq!(flame_style('Y'), Some(Tone::Core));
    assert_eq!(flame_style(' '), None);
    assert_eq!(flame_style('x'), None);
}

#[test]
fn test_render_skipped_and_errors() {
    assert!(plain(&render_skipped(1)).contains("obliterating 1 process."));
    assert_eq!(
        plain(&render_error(&WrathError::Aborted)),
        "[-] Aborted, nothing was killed."
    );
    assert_eq!(
        plain(&render_error(&WrathError::NoProcessOnPort(80))),
        "[x] No process found using port 80"
    );
}

#[test]
fn test_confirm_answers() {
    for (answer, expected) in [
        ("y\n", true),
        ("YES\r\n", true),
        (" yes ", true),
        ("n\n", false),
        ("\n", false),
        ("", false),
        ("maybe\n", false),
    ] {
        let result = confirm(answer);
        assert_eq!(result, expected, "answer {answer:?}");
        assert!(plain(&confirm_prompt(2)).contains("Obliterate 2 processes? [y/N]"));
    }
}

#[test]
fn rendering_paints_with_escape_codes() {
    let raw = render_error(&WrathError::NoProcessOnPort(80));
    assert!(raw.contains("\u{1b}["));
    assert_ne!(raw, plain(&raw));
    let row = render_flame_row(0);
    assert_eq!(plain(&row), "    ▙");
    assert!(row.contains("\u{1b}[38;5;196m"));
}

#[test]
fn card_shows_path_and_truncates_long_commands() {
    let info = ProcessInfo {
        command: "x".repeat(120),
        ..sample_info()
    };
    let card = plain(&render_card(&info, "1.0 KB"));
    assert!(card.contains("Path       /usr/bin/node"));
    assert!(card.contains(&format!("Command    {}\u{2026}\n", "x".repeat(109))));
    assert!(card.contains("Memory     1.0 KB   Uptime 2h 13m"));
}

#[test]
fn summarize_children_single_and_exact_cap() {
    let one = vec!["sh".to_string()];
    assert_eq!(summarize_children(&one), "1 (sh)");
    let four: Vec<String> = ["a", "b", "c", "d", "d"].iter().map(|s| s.to_string()).collect();
    assert_eq!(summarize_children(&four), "5 (a, b, c, d \u{d7}2)");
    assert_eq!(summarize_children(&[]), "0 ()");
}

#[test]
fn format_duration_edges() {
    assert_eq!(format_duration(59), "59s");
    assert_eq!(format_duration(60), "1m 0s");
    assert_eq!(format_duration(3600), "1h 0m");
    assert_eq!(format_duration(86_400), "1d 0h");
}

#[test]
fn truncate_to_nothing() {
    assert_eq!(truncate("abc", 0), "\u{2026}");
    assert_eq!(truncate("", 0), "");
}

#[test]
fn confirm_lowercases_before_comparing() {
    assert!(confirm("Yes"));
    assert!(confirm("\tY\t"));
    assert!(!confirm("yess"));
    assert!(!confirm("y e s"));
}

#[test]
fn render_result_without_port() {
    let result = KillResult {
        process_name: "node".into(),
        total_killed: 1,
        port: None,
    };
    let text = plain(&render_result(&result));
    assert!(text.ends_with(" ▀███▛▘    has been obliterated."));
    assert!(text.contains("▐██▗▖██▌   Wrath unleashed: Process 'node' (1 process)\n"));
}

#[test]
fn rendering_uses_the_escape_codes_of_each_tone() {
    assert_eq!(
        render_error(&WrathError::Aborted),
        "\u{1b}[1m\u{1b}[33m[-]\u{1b}[0m Aborted, nothing was killed."
    );
    assert_eq!(
        render_flame_row(3),
        "\u{1b}[1m\u{1b}[38;5;196m▐\u{1b}[0m\
         \u{1b}[1m\u{1b}[38;5;196m█\u{1b}[0m\
         \u{1b}[1m\u{1b}[38;5;208m█\u{1b}[0m\
         \u{1b}[38;5;220m\u{1b}[48;5;208m▗\u{1b}[0m\
         \u{1b}[38;5;220m\u{1b}[48;5;208m▖\u{1b}[0m\
         \u{1b}[1m\u{1b}[38;5;208m█\u{1b}[0m\
         \u{1b}[1m\u{1b}[38;5;196m█\u{1b}[0m\
         \u{1b}[1m\u{1b}[38;5;196m▌\u{1b}[0m"
    );
    assert_eq!(
        confirm_prompt(1),
        "\n\u{1b}[1m\u{1b}[33m[?]\u{1b}[0m Obliterate 1 process? \u{1b}[2m[y/N]\u{1b}[0m "
    );
}

#[test]
fn confirmation_needs_a_terminal_unless_skipped() {
    assert_eq!(confirmation(true, false), Ok(Confirmation::Skipped));
    assert_eq!(confirmation(true, true), Ok(Confirmation::Skipped));
    assert_eq!(confirmation(false, true), Ok(Confirmation::Ask));
    assert_eq!(
        confirmation(false, false),
        Err(WrathError::ConfirmationRequired)
    );
    assert_eq!(answer_outcome(Some("y\n")), Ok(()));
    assert_eq!(answer_outcome(Some("no\n")), Err(WrathError::Aborted));
    assert_eq!(answer_outcome(None), Err(WrathError::Aborted));
}
