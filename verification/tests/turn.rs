use rsllm::cli::args::{map_think, sampling_params_from_flags, PromptThink, RunFlags, ThinkMode};
use rsllm::cli::dump::{entry_count, top_k_entries, LogprobEntry, LogprobRecorder};
use rsllm::cli::turn::{
    after_decode, after_prefill, longest_valid_utf8_prefix, shown, Turn, DEFAULT_MAX_DECODE_TOKENS,
};
use rsllm::engine::{DecodeStep, EngineError};

fn bits(v: &[f32]) -> Vec<u32> {
    v.iter().map(|x| x.to_bits()).collect()
}

fn ln(x: u32) -> u32 {
    f32::from_bits(x).ln().to_bits()
}


#[test]
fn map_think_round_trip() {
    assert_eq!(map_think(ThinkMode::NoThink), PromptThink::Off);
    assert_eq!(map_think(ThinkMode::Think), PromptThink::High);
    assert_eq!(map_think(ThinkMode::ThinkMax), PromptThink::Max);
}

#[test]
fn sampling_params_honor_seed_flag() {
    let flags = RunFlags {
        seed: Some(0xC0FFEE),
        ..RunFlags::default()
    };
    let p = sampling_params_from_flags(&flags);
    assert_eq!(p.seed, Some(0xC0FFEE));
}

#[test]
fn sampling_params_seed_none_passes_through() {
    let flags = RunFlags::default();
    let p = sampling_params_from_flags(&flags);
    assert_eq!(p.seed, None);
}

#[test]
fn top_k_picks_largest_and_sorts() {
    let probs = bits(&[0.1_f32, 0.4, 0.05, 0.3, 0.15]);
    let top = top_k_entries(&probs, 3, &ln);
    assert_eq!(top.len(), 3);
    // Sorted descending by prob.
    assert_eq!(top[0].token_id, 1);
    assert!((f32::from_bits(top[0].prob) - 0.4).abs() < 1e-6);
    assert_eq!(top[1].token_id, 3);
    assert_eq!(top[2].token_id, 4);
}

#[test]
fn top_k_caps_at_probs_len() {
    let probs = bits(&[0.5_f32, 0.5]);
    let top = top_k_entries(&probs, 100, &ln);
    assert_eq!(top.len(), 2);
}

#[test]
fn top_k_logit_is_ln_of_prob() {
    let probs = bits(&[0.5_f32]);
    let top = top_k_entries(&probs, 1, &ln);
    assert!((f32::from_bits(top[0].logit) - 0.5_f32.ln()).abs() < 1e-6);
}

#[test]
fn longest_valid_utf8_prefix_handles_full_and_partial() {
    // Fully valid → whole length.
    assert_eq!(longest_valid_utf8_prefix(b"hello"), 5);
    // Empty → 0.
    assert_eq!(longest_valid_utf8_prefix(b""), 0);
    // Half of a 2-byte sequence (`é` = 0xC3 0xA9) at the end:
    // "abc" + 0xC3 → cut at 3.
    let mut buf = b"abc".to_vec();
    buf.push(0xC3);
    assert_eq!(longest_valid_utf8_prefix(&buf), 3);
    // Two-thirds of a 3-byte sequence at the end ("ab" + 0xE3 + 0x81):
    // cut at 2.
    let mut buf = b"ab".to_vec();
    buf.extend_from_slice(&[0xE3, 0x81]);
    assert_eq!(longest_valid_utf8_prefix(&buf), 2);
    // Full 3-byte CJK codepoint following ASCII: whole length.
    let mut buf = b"ab".to_vec();
    buf.extend_from_slice("中".as_bytes());
    assert_eq!(longest_valid_utf8_prefix(&buf), buf.len());
}

#[test]
fn the_seed_is_the_only_flag_in_use() {
    let flags = RunFlags {
        seed: Some(7),
        temperature: Some(0),
        top_k: Some(3),
        top_p: Some(0),
        min_p: Some(0),
        ..RunFlags::default()
    };
    let p = sampling_params_from_flags(&flags);
    assert_eq!(p.seed, Some(7));
    assert_eq!(f32::from_bits(p.temperature), 0.7);
    assert_eq!(p.top_k, None);
    assert_eq!(p.top_p.map(f32::from_bits), Some(1.0));
    assert_eq!(p.min_p.map(f32::from_bits), Some(0.05));
}

#[test]
fn records_are_counted_and_cut() {
    let entries: Vec<LogprobEntry> = (0..10)
        .map(|i| LogprobEntry { token_id: i, logit: (i as f32).to_bits(), prob: 0.1f32.to_bits() })
        .collect();
    let mut d = LogprobRecorder::new(2);
    let first = d.record(42, &entries);
    assert_eq!((first.step, first.chosen_id), (0, 42));
    assert_eq!(first.top_k, entries[..2].to_vec());
    d.advance();
    let second = d.record(7, &entries[..1]);
    assert_eq!((second.step, second.chosen_id), (1, 7));
    assert_eq!(second.top_k, entries[..1].to_vec());
    assert_eq!(entry_count(0), 1);
    assert_eq!(entry_count(5), 5);
}

#[test]
fn characters_wait_for_their_bytes() {
    let mut turn = Turn::start(&[3, 4], 9);
    assert!(turn.is_open());
    assert!(turn.ends_with(9) && !turn.ends_with(4));
    assert_eq!(turn.take(5, &[b'a', 0xE4]), "a");
    assert_eq!(turn.carry, vec![0xE4]);
    assert_eq!(turn.take(6, &[0xB8]), "");
    assert_eq!(turn.take(7, &[0xAD, b'b']), "中b");
    assert!(turn.carry.is_empty());
    assert_eq!((turn.last_token, turn.step), (7, 3));
}

#[test]
fn cut_anywhere_the_text_comes_out_whole() {
    let text = "héllo 中文 🦀!";
    for size in 1..text.len() {
        let mut turn = Turn::start(&[1], 0);
        let mut out = String::new();
        for chunk in text.as_bytes().chunks(size) {
            out.push_str(&turn.take(1, chunk));
        }
        assert_eq!(out, text);
        assert!(turn.carry.is_empty());
    }
}

#[test]
fn nothing_is_dropped_behind_a_broken_byte() {
    let mut turn = Turn::start(&[1], 0);
    let bytes = [b'a', 0xFF, b'b'];
    let shown = turn.take(1, &bytes);
    assert_eq!([shown.as_bytes(), &turn.carry].concat(), bytes);
}

#[test]
fn a_turn_has_an_end() {
    let mut turn = Turn::start(&[1], 0);
    let mut n = 0;
    while turn.is_open() {
        turn.take(1, b"x");
        n += 1;
    }
    assert_eq!(n, DEFAULT_MAX_DECODE_TOKENS);
}

#[test]
fn a_turn_starts_once_the_engine_has_answered() {
    let turn = after_prefill(Ok(vec![1, 2]), &[5, 8], 9).unwrap();
    assert_eq!((turn.last_token, turn.step, turn.eos), (8, 0, 9));
    let failed = after_prefill(Err(EngineError::Missing("token_embd".to_string())), &[5], 9);
    assert_eq!(failed.err().unwrap().message(), "bad command: engine: missing: token_embd");
}

#[test]
fn a_failed_step_is_told() {
    let step = DecodeStep { token_id: 3, probs: vec![0x3F80_0000] };
    assert_eq!(after_decode(Ok(step)).ok().unwrap().token_id, 3);
    let failed = after_decode(Err(EngineError::Io("gone".to_string())));
    assert_eq!(failed.err().unwrap().message(), "bad command: engine: io: gone");
}

#[test]
fn leftover_bytes_are_replaced() {
    assert_eq!(shown("中b".as_bytes()), "中b");
    assert_eq!(shown(&[b'a', 0xE4, 0xB8]), "a\u{FFFD}");
    assert_eq!(shown(&[0xFF, b'b', 0xFE]), "\u{FFFD}b\u{FFFD}");
    assert_eq!(shown(&[]), "");
}
