use rsllm::cli::args::{LogLevel, RunFlags, ThinkMode};
use rsllm::cli::info::{format_bytes, kv_breakdown};
use rsllm::cli::inspect::{quant_distribution, shape_text, size_text, summary_keys, TypeShare};
use rsllm::cli::launch::{failed, launch, one_shot_model, Launch};
use rsllm::cli::repl::{
    message_with_file, parse_command, LineAction, ReplState, SlashCommand, HELP_TEXT,
};
use rsllm::cli::CliError;
use rsllm::gguf::error::Error;
use rsllm::gguf::tensor::TensorInfo;
use rsllm::text::hex;

#[test]
fn non_slash_is_user_message() {
    let r = parse_command("hello there").unwrap();
    assert!(r.is_none());
}

#[test]
fn parses_simple_commands() {
    assert_eq!(parse_command("/help").unwrap(), Some(SlashCommand::Help));
    assert_eq!(parse_command("/think").unwrap(), Some(SlashCommand::Think));
    assert_eq!(parse_command("/quit").unwrap(), Some(SlashCommand::Quit));
    assert_eq!(parse_command("/exit").unwrap(), Some(SlashCommand::Quit));
    assert_eq!(parse_command("/clear").unwrap(), Some(SlashCommand::Clear));
}

#[test]
fn parses_ctx_with_number() {
    assert_eq!(
        parse_command("/ctx 4096").unwrap(),
        Some(SlashCommand::SetCtx(4096))
    );
}

#[test]
fn ctx_without_number_errors() {
    let err = parse_command("/ctx foo").unwrap_err();
    assert!(matches!(err, CliError::BadCommand(_)));
}

#[test]
fn ctx_zero_rejected() {
    let err = parse_command("/ctx 0").unwrap_err();
    assert!(matches!(err, CliError::BadCommand(_)));
}

#[test]
fn read_requires_path() {
    let err = parse_command("/read").unwrap_err();
    assert!(matches!(err, CliError::BadCommand(_)));
    let ok = parse_command("/read /tmp/a.txt").unwrap();
    assert_eq!(ok, Some(SlashCommand::ReadFile("/tmp/a.txt".to_string())));
}

#[test]
fn system_strips_quotes() {
    let ok = parse_command(r#"/system "you are helpful""#).unwrap();
    assert_eq!(ok, Some(SlashCommand::SetSystem("you are helpful".into())));
}

#[test]
fn unknown_command_is_returned_to_caller() {
    let r = parse_command("/foobar").unwrap();
    assert_eq!(r, Some(SlashCommand::Unknown("/foobar".into())));
}

#[test]
fn state_tracks_think_changes() {
    let mut s = ReplState::new(ThinkMode::NoThink, 1024);
    let out = s.apply(SlashCommand::Think);
    assert!(!out.exit);
    assert_eq!(s.think_mode, ThinkMode::Think);
    let _ = s.apply(SlashCommand::ThinkMax);
    assert_eq!(s.think_mode, ThinkMode::ThinkMax);
    let out = s.apply(SlashCommand::NoThink);
    assert_eq!(s.think_mode, ThinkMode::NoThink);
    assert!(!out.exit);
}

#[test]
fn quit_signals_exit() {
    let mut s = ReplState::new(ThinkMode::NoThink, 1024);
    let out = s.apply(SlashCommand::Quit);
    assert!(out.exit);
}

#[test]
fn ctx_change_updates_state() {
    let mut s = ReplState::new(ThinkMode::NoThink, 1024);
    s.apply(SlashCommand::SetCtx(8192));
    assert_eq!(s.ctx_size, 8192);
}

#[test]
fn system_prompt_set_and_clear() {
    let mut s = ReplState::new(ThinkMode::NoThink, 1024);
    s.apply(SlashCommand::SetSystem("hello".into()));
    assert_eq!(s.system_prompt.as_deref(), Some("hello"));
    s.apply(SlashCommand::SetSystem(String::new()));
    assert!(s.system_prompt.is_none());
}

#[test]
fn help_text_lists_every_command() {
    for word in &[
        "/help",
        "/think",
        "/think-max",
        "/nothink",
        "/ctx",
        "/read",
        "/system",
        "/clear",
        "/quit",
        "/exit",
    ] {
        assert!(HELP_TEXT.contains(word), "/help missing `{word}`");
    }
}

#[test]
fn think_mode_label() {
    assert_eq!(ThinkMode::NoThink.label(), "nothink");
    assert_eq!(ThinkMode::Think.label(), "think");
    assert_eq!(ThinkMode::ThinkMax.label(), "think-max");
}

#[test]
fn cli_error_display_carries_message() {
    let e = CliError::BadCommand("oops".into());
    assert!(e.message().contains("oops"));
}

#[test]
fn errors_start_with_their_kind() {
    let text = || "x".to_string();
    assert_eq!(CliError::Io(text()).message(), "io error: x");
    assert_eq!(
        CliError::Gguf(Error::Io(text())).message(),
        "gguf error: I/O error: x"
    );
    assert_eq!(
        CliError::Gguf(Error::UnknownValueType(99)).message(),
        "gguf error: unknown metadata value type 99"
    );
    assert_eq!(CliError::BadCommand(text()).message(), "bad command: x");
    assert_eq!(CliError::ModelRequired(text()).message(), "model required: x");
    assert_eq!(CliError::NotImplemented(text()).message(), "not yet implemented: x");
}

#[test]
fn malformed_commands_are_explained() {
    let message = |line: &str| parse_command(line).unwrap_err().message();
    assert_eq!(
        message("/ctx 12x"),
        "bad command: /ctx expects a positive integer, got `12x`"
    );
    assert_eq!(
        message("/ctx"),
        "bad command: /ctx expects a positive integer, got ``"
    );
    assert_eq!(
        message("/ctx 18446744073709551616"),
        "bad command: /ctx expects a positive integer, got `18446744073709551616`"
    );
    assert_eq!(message("/ctx 0"), "bad command: /ctx requires N > 0");
    assert_eq!(message("/read"), "bad command: /read expects a file path");
}

#[test]
fn numbers_are_read_like_integers() {
    let ctx = |line: &str| parse_command(line).unwrap();
    assert_eq!(ctx("/ctx +7"), Some(SlashCommand::SetCtx(7)));
    assert_eq!(ctx("/ctx 007"), Some(SlashCommand::SetCtx(7)));
    assert_eq!(
        ctx("/ctx 18446744073709551615"),
        Some(SlashCommand::SetCtx(usize::MAX))
    );
    for bad in ["+", "-1", "++1", "1 2", "٣", "1_000", " "] {
        assert_eq!(bad.trim().parse::<usize>().is_err(), true);
        assert!(parse_command(&format!("/ctx {bad}")).is_err(), "{bad}");
    }
}

#[test]
fn white_space_is_that_of_unicode() {
    let white: Vec<char> = (0..=0x10FFFFu32)
        .filter_map(char::from_u32)
        .filter(|c| c.is_whitespace())
        .collect();
    for c in (0..=0x10FFFFu32).filter_map(char::from_u32) {
        assert_eq!(rsllm::cli::words::white(c), white.contains(&c), "{c:?}");
    }
    assert_eq!(
        parse_command("\u{3000}/ctx\u{2003}9\u{85}").unwrap(),
        Some(SlashCommand::SetCtx(9))
    );
}

#[test]
fn only_outer_quotes_are_taken_off() {
    let system = |line: &str| parse_command(line).unwrap();
    assert_eq!(
        system("/system \"\"say \"hi\" now\""),
        Some(SlashCommand::SetSystem("say \"hi\" now".to_string()))
    );
    assert_eq!(system("/system \"\""), Some(SlashCommand::SetSystem(String::new())));
    assert_eq!(system("/system"), Some(SlashCommand::SetSystem(String::new())));
}

#[test]
fn outcomes_say_what_happened() {
    let mut s = ReplState::new(ThinkMode::NoThink, 1024);
    assert_eq!(s.apply(SlashCommand::Help).message, HELP_TEXT);
    assert_eq!(s.apply(SlashCommand::Think).message, "think mode: think");
    assert_eq!(s.prompt(), "[think]> ");
    assert_eq!(s.apply(SlashCommand::ThinkMax).message, "think mode: think-max");
    assert_eq!(s.apply(SlashCommand::NoThink).message, "think mode: nothink");
    assert_eq!(
        s.apply(SlashCommand::SetCtx(64)).message,
        "ctx_size = 64 (session will rebuild)"
    );
    assert_eq!(
        s.apply(SlashCommand::ReadFile("a b".to_string())).message,
        "/read queued: a b (consumed on next message)"
    );
    assert_eq!(
        s.apply(SlashCommand::SetSystem("né".to_string())).message,
        "system prompt set (3 bytes)"
    );
    assert_eq!(
        s.apply(SlashCommand::SetSystem(String::new())).message,
        "system prompt cleared"
    );
    assert_eq!(s.apply(SlashCommand::Clear).message, "session cleared");
    assert_eq!(s.apply(SlashCommand::Quit).message, "bye.");
    assert_eq!(
        s.apply(SlashCommand::Unknown("/x".to_string())).message,
        "unknown command `/x`. Type /help for a list."
    );
}

#[test]
fn lines_are_acted_on() {
    let mut s = ReplState::new(ThinkMode::NoThink, 1024);
    assert!(matches!(s.take_line("  \t ").unwrap(), LineAction::Skip));
    match s.take_line(" /ctx 16 ").unwrap() {
        LineAction::Status { message, exit, rebuild } => {
            assert_eq!(message, "ctx_size = 16 (session will rebuild)");
            assert!(!exit && rebuild);
        }
        other => panic!("unexpected {other:?}"),
    }
    assert!(s.take_line("/ctx 0").is_err());
    assert_eq!(s.ctx_size, 16);
    match s.take_line("/quit").unwrap() {
        LineAction::Status { exit, rebuild, .. } => assert!(exit && !rebuild),
        other => panic!("unexpected {other:?}"),
    }
    match s.take_line("/clear").unwrap() {
        LineAction::Status { exit, rebuild, .. } => assert!(!exit && rebuild),
        other => panic!("unexpected {other:?}"),
    }
    s.take_line("/read notes.txt").unwrap();
    match s.take_line(" hello ").unwrap() {
        LineAction::Turn { text, file } => {
            assert_eq!(text, "hello");
            assert_eq!(file.as_deref(), Some("notes.txt"));
        }
        other => panic!("unexpected {other:?}"),
    }
    match s.take_line("again").unwrap() {
        LineAction::Turn { text, file } => {
            assert_eq!(text, "again");
            assert!(file.is_none());
        }
        other => panic!("unexpected {other:?}"),
    }
    assert_eq!(message_with_file("notes", "hello"), "notes\nhello");
}

#[test]
fn launches_by_flags() {
    let some = |s: &str| Some(s.to_string());
    let none = RunFlags::default();
    assert!(matches!(launch(&none, true), Launch::NoModel));
    assert!(matches!(launch(&none, false), Launch::Banner));
    let model = RunFlags { model: some("m"), ..RunFlags::default() };
    assert!(matches!(launch(&model, false), Launch::Banner));
    match launch(&model, true) {
        Launch::Repl(path) => assert_eq!(path, "m"),
        other => panic!("unexpected {other:?}"),
    }
    let file = RunFlags { prompt_file: some("f"), ..RunFlags::default() };
    match launch(&file, true) {
        Launch::OneShotFile(path) => assert_eq!(path, "f"),
        other => panic!("unexpected {other:?}"),
    }
    let text = RunFlags { prompt: some("p"), prompt_file: some("f"), ..RunFlags::default() };
    match launch(&text, false) {
        Launch::OneShot(p) => assert_eq!(p, "p"),
        other => panic!("unexpected {other:?}"),
    }
    assert_eq!(one_shot_model(&model).unwrap(), "m");
    assert_eq!(
        one_shot_model(&none).unwrap_err().message(),
        "model required: one-shot mode (`-p`) needs `-m PATH`"
    );
    assert_eq!(failed("model load", "x").message(), "bad command: model load: x");
}

#[test]
fn levels_have_names() {
    assert_eq!(LogLevel::default(), LogLevel::Info);
    assert_eq!(LogLevel::Off.as_filter_directive(), "off");
    assert_eq!(LogLevel::Error.as_filter_directive(), "error");
    assert_eq!(LogLevel::Warn.as_filter_directive(), "warn");
    assert_eq!(LogLevel::Info.as_filter_directive(), "info");
    assert_eq!(LogLevel::Debug.as_filter_directive(), "debug");
    assert_eq!(LogLevel::Trace.as_filter_directive(), "trace");
}


#[test]
fn format_bytes_picks_human_units() {
    assert_eq!(format_bytes(0), "0 B");
    assert_eq!(format_bytes(1023), "1023 B");
    assert_eq!(format_bytes(1024), "1.00 KiB");
    assert_eq!(format_bytes(1_048_576), "1.00 MiB");
    assert_eq!(format_bytes(1_073_741_824), "1.00 GiB");
}

#[test]
fn hex_round_trips() {
    let bytes = [0xDE_u8, 0xAD, 0xBE, 0xEF, 0x00, 0xFF];
    assert_eq!(hex(&bytes), "deadbeef00ff");
}


fn plainly(bytes: u64) -> String {
    let mut value = bytes as f64;
    let mut i = 0;
    while value >= 1024.0 && i < 4 {
        value /= 1024.0;
        i += 1;
    }
    let unit = ["B", "KiB", "MiB", "GiB", "TiB"][i];
    if i == 0 {
        format!("{bytes} {unit}")
    } else {
        format!("{value:.2} {unit}")
    }
}

#[test]
fn byte_counts_are_rounded_like_numbers() {
    assert_eq!(format_bytes(1536), "1.50 KiB");
    assert_eq!(format_bytes(3_365_929), "3.21 MiB");
    assert_eq!(format_bytes(u64::MAX), "16777216.00 TiB");
    let mut n: u64 = 1;
    for i in 0..200_000u64 {
        assert_eq!(format_bytes(i), plainly(i));
        n = n.wrapping_mul(6_364_136_223_846_793_005).wrapping_add(i);
        let m = n >> (i % 64);
        assert_eq!(format_bytes(m), plainly(m));
    }
    for shift in 0..64 {
        for d in [0u64, 1, 2, 4, 8, 1024, 2048] {
            assert_eq!(format_bytes((1u64 << shift) + d.min(1 << shift) - 1), plainly((1u64 << shift) + d.min(1 << shift) - 1));
        }
    }
}

#[test]
fn memory_of_a_context() {
    let e = kv_breakdown(32_768).unwrap();
    assert_eq!(e.raw, 43 * 128 * 512 * 4);
    assert_eq!(e.compressed, 43 * (32_768 / 3 + 2) * 512 * 4);
    assert_eq!(e.indexer, 21 * (32_768 / 4 + 2) * 128 * 64 * 4);
    assert_eq!(e.total, e.raw + e.compressed + e.indexer);
    assert!(kv_breakdown(usize::MAX).is_none());
    assert!(kv_breakdown(0).unwrap().total < e.total);
}

fn tensor(raw_type: u32, byte_size: Option<u64>) -> TensorInfo {
    TensorInfo {
        name: "t".to_string(),
        dtype: None,
        raw_type,
        shape: vec![1],
        elements: 1,
        relative_offset: 0,
        byte_size,
    }
}

#[test]
fn types_are_counted() {
    let d = quant_distribution(&[
        tensor(12, Some(144)),
        tensor(0, Some(4)),
        tensor(12, Some(u64::MAX)),
        tensor(99, None),
        tensor(0, Some(8)),
    ]);
    let share = |raw_type, count, bytes| TypeShare { raw_type, count, bytes };
    assert_eq!(d, vec![share(0, 2, 12), share(12, 2, u64::MAX), share(99, 1, 0)]);
    assert!(quant_distribution(&[]).is_empty());
}

#[test]
fn shapes_and_sizes_are_shown() {
    assert_eq!(shape_text(&[]), "");
    assert_eq!(shape_text(&[4096]), "4096");
    assert_eq!(shape_text(&[2, 30, 4]), "2 × 30 × 4");
    assert_eq!(size_text(None), "?");
    assert_eq!(size_text(Some(2048)), "2.00 KiB");
    assert_eq!(summary_keys()[0], "general.architecture");
    assert_eq!(summary_keys()[11], "deepseek.expert_used_count");
}
