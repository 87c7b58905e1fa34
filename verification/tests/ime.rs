use yi_ime::KeyEvent;
use yi_ime::candidates::{CandidateManager, WindowCommand};
use yi_ime::capture::{CaptureDecision, HookState};
use yi_ime::dict::{DictError, YiIME};
use yi_ime::inject::{InjectorError, TextInjector, insert_status};
use yi_ime::segmentation::SegmentResult;
use yi_ime::session::{
    AppState, EnglishInputState, InputHandler, InputMode, extract_yi_and_pinyin,
    format_text_by_mode,
};

const SYLLABLES: &str = r#"{"ꁧ":"bo","ꀠ":"ba","ꀡ":"bap","ꀋ":"p","ꇤ":"ka","ꊖ":"za","ꊗ":"zat","ꃅ":"mu","ꀨ":"bu"}"#;
const RADICALS: &str = r#"{"꒲":"za"}"#;

fn engine() -> YiIME {
    let mut d = YiIME::new();
    d.load_dictionary(SYLLABLES).unwrap();
    d.load_radical_dictionary(RADICALS).unwrap();
    d
}

fn manager() -> CandidateManager {
    CandidateManager::new(engine())
}

fn handler() -> InputHandler {
    InputHandler::new(engine(), AppState::new())
}

fn key(vk: u32) -> KeyEvent {
    KeyEvent { vk_code: vk, scan_code: 0, flags: 0, is_key_down: true }
}

fn strings(v: &[&str]) -> Vec<String> {
    v.iter().map(|s| s.to_string()).collect()
}

#[test]
fn load_dictionary_builds_index() {
    let d = engine();
    assert!(d.contains_syllable("bo"));
    assert!(!d.contains_syllable("zz"));
    assert_eq!(d.lookup("bo"), strings(&["ꁧ"]));
    assert_eq!(d.lookup("zz"), strings(&[]));
}

#[test]
fn load_dictionary_accepts_legacy_arrays() {
    let mut d = YiIME::new();
    d.load_dictionary(r#"{"ꁧ":["bo","bop"]}"#).unwrap();
    assert_eq!(d.lookup("bo"), strings(&["ꁧ"]));
    assert_eq!(d.lookup("bop"), strings(&["ꁧ"]));
}

#[test]
fn load_dictionary_rejects_malformed() {
    let mut d = YiIME::new();
    assert_eq!(d.load_dictionary("[1,2]"), Err(DictError::DictionaryMalformed));
    assert_eq!(d.load_dictionary(r#"{"a":1}"#), Err(DictError::DictionaryMalformed));
    assert_eq!(d.load_dictionary("not json"), Err(DictError::DictionaryMalformed));
    assert_eq!(d.load_radical_dictionary(r#"{"a":[]}"#), Err(DictError::DictionaryMalformed));
    assert!(d.lookup("bo").is_empty());
}

#[test]
fn radical_lookup_and_query() {
    let d = engine();
    assert_eq!(d.get_radical_candidate("za"), Some("꒲".to_string()));
    assert_eq!(d.get_radical_candidate("bo"), None);
    assert_eq!(d.query_by_pinyin("za"), strings(&["ꊖ", "[radical] ꒲"]));
    assert_eq!(d.query_by_pinyin("bo"), strings(&["ꁧ"]));
}

#[test]
fn ambiguous_letters() {
    for c in ['p', 't', 'x', 'r', 'y'] {
        assert!(YiIME::is_ambiguous_char(c));
    }
    for c in ['w', 'a', 'b', 'z'] {
        assert!(!YiIME::is_ambiguous_char(c));
    }
}

#[test]
fn segmenter_simple_syllable() {
    let d = engine();
    let rs = d.segment_pinyin("bo");
    assert_eq!(rs.len(), 1);
    assert_eq!(rs[0].segments, strings(&["bo"]));
    assert_eq!(rs[0].yi_chars, vec![strings(&["ꁧ"])]);
    assert_eq!(rs[0].confidence, 900);
}

#[test]
fn segmenter_ambiguous_boundary() {
    let d = engine();
    let rs = d.segment_pinyin("bap");
    let whole = rs.iter().find(|r| r.segments == strings(&["bap"])).unwrap();
    let split = rs.iter().find(|r| r.segments == strings(&["ba", "p"])).unwrap();
    assert_eq!(whole.confidence, 640);
    assert_eq!(split.confidence, 483);
    assert_eq!(rs[0].segments, strings(&["bap"]));
}

#[test]
fn segmenter_sorted_and_deduplicated() {
    let d = engine();
    let rs = d.segment_pinyin("bap");
    assert!(rs.len() <= 10);
    for i in 1..rs.len() {
        assert!(rs[i - 1].confidence >= rs[i].confidence);
    }
    let keys: Vec<String> = rs.iter().map(|r| r.segments.join("-")).collect();
    for i in 0..keys.len() {
        for j in i + 1..keys.len() {
            assert_ne!(keys[i], keys[j]);
        }
    }
}

#[test]
fn segmenter_empty_and_foreign_input() {
    let d = engine();
    assert!(d.segment_pinyin("").is_empty());
    assert!(d.segment_pinyin("b7").is_empty());
    assert!(d.segment_pinyin("qq").is_empty());
}

#[test]
fn convert_to_yi_products() {
    let d = engine();
    let r = SegmentResult {
        segments: strings(&["mu", "bu"]),
        yi_chars: vec![strings(&["ꃅ"]), strings(&["ꀨ"])],
        confidence: 810,
    };
    assert_eq!(d.convert_to_yi(&r), strings(&["ꃅꀨ"]));
    let r2 = SegmentResult {
        segments: strings(&["x", "y"]),
        yi_chars: vec![strings(&["a", "b"]), strings(&["c"])],
        confidence: 500,
    };
    assert_eq!(d.convert_to_yi(&r2), strings(&["ac", "bc"]));
}

#[test]
fn smart_convert_reference_mark() {
    let d = engine();
    let ts = d.smart_convert("kaw");
    assert_eq!(ts.len(), 1);
    assert_eq!(ts[0].0, "ka-w");
    assert_eq!(ts[0].1, strings(&["ꇤꀕ"]));
    assert_eq!(ts[0].2, 900);
}

#[test]
fn smart_convert_radical_side() {
    let d = engine();
    let ts = d.smart_convert("za");
    assert!(!ts.is_empty());
    assert_eq!(ts[0].0, "za");
    assert_eq!(ts[0].1, strings(&["[radical] ꒲", "ꊖ"]));
}

#[test]
fn should_add_radical_cases() {
    let d = engine();
    assert!(d.should_add_radical("za", &vec![]));
    let one = SegmentResult {
        segments: strings(&["qq"]),
        yi_chars: vec![strings(&["x"])],
        confidence: 900,
    };
    assert!(d.should_add_radical("qq", &vec![one]));
    assert!(!d.should_add_radical("qq", &vec![]));
}

#[test]
fn candidates_for_exact_syllable() {
    let m = manager();
    match m.update_candidates("bo") {
        WindowCommand::Show { candidates, input } => {
            assert_eq!(input, "bo");
            assert_eq!(candidates, strings(&["ꁧ (bo)"]));
        }
        WindowCommand::Hide => panic!("expected a visible window"),
    }
}

#[test]
fn candidates_hold_no_repeats() {
    let m = manager();
    for buf in ["bo", "za", "bap", "b"] {
        match m.update_candidates(buf) {
            WindowCommand::Show { candidates, .. } => {
                assert!(candidates.len() <= 9);
                for i in 0..candidates.len() {
                    for j in i + 1..candidates.len() {
                        assert_ne!(candidates[i], candidates[j]);
                    }
                }
            }
            WindowCommand::Hide => panic!("expected a visible window"),
        }
    }
}

#[test]
fn candidates_radical_first() {
    let m = manager();
    match m.update_candidates("za") {
        WindowCommand::Show { candidates, .. } => {
            assert_eq!(candidates, strings(&["[radical] ꒲ (za)", "ꊖ (za)", "ꊗ (zat)"]));
        }
        WindowCommand::Hide => panic!("expected a visible window"),
    }
}

#[test]
fn candidates_empty_buffer_hides() {
    let m = manager();
    assert!(matches!(m.update_candidates(""), WindowCommand::Hide));
}

#[test]
fn candidates_show_both_readings() {
    let m = manager();
    match m.update_candidates("bap") {
        WindowCommand::Show { candidates, .. } => {
            assert!(candidates.iter().any(|c| c == "ꀡ (bap)"));
            assert!(candidates.iter().any(|c| c == "ꀠꀋ (ba-p)"));
        }
        WindowCommand::Hide => panic!("expected a visible window"),
    }
}

#[test]
fn valid_prefix_checks() {
    let m = manager();
    assert!(m.is_valid_input_sequence("b"));
    assert!(m.is_valid_input_sequence("w"));
    assert!(m.is_valid_input_sequence("bw"));
    assert!(m.is_valid_input_sequence("zaw"));
    assert!(!m.is_valid_input_sequence("qw"));
    assert!(m.is_valid_input_sequence("kaw"));
    assert!(m.is_valid_input_sequence("za"));
    assert!(!m.is_valid_input_sequence("q"));
    assert!(!m.is_valid_input_sequence("bq"));
}

#[test]
fn fuzzy_query_sorted_by_length() {
    let d = engine();
    let r = d.fuzzy_query("b");
    let pinyins: Vec<String> = r.iter().map(|e| e.0.clone()).collect();
    assert_eq!(pinyins, strings(&["ba", "bu", "bo", "bap"]));
}

#[test]
fn consonant_results_sorted() {
    let m = manager();
    let r = m.get_sorted_consonant_results("b");
    let got: Vec<(String, String)> = r;
    assert_eq!(
        got,
        vec![
            ("ꀠ".to_string(), "ba".to_string()),
            ("ꀡ".to_string(), "bap".to_string()),
            ("ꀨ".to_string(), "bu".to_string()),
            ("ꁧ".to_string(), "bo".to_string()),
        ]
    );
}

#[test]
fn syllable_variants_filtered() {
    let d = engine();
    assert_eq!(d.get_syllable_variants("za"), strings(&["zat"]));
    assert_eq!(d.get_syllable_variants("mu"), strings(&[]));
}

#[test]
fn session_simple_commit() {
    let mut h = handler();
    assert!(h.handle_key_event(key(0x42), false).inject.is_none());
    assert_eq!(h.get_input_buffer(), "b");
    h.handle_key_event(key(0x4F), false);
    assert_eq!(h.get_input_buffer(), "bo");
    let out = h.handle_key_event(key(0x31), false);
    assert_eq!(out.inject, Some("ꁧ".to_string()));
    assert_eq!(h.get_input_buffer(), "");
    assert_eq!(h.candidates.len(), 0);
    assert!(!h.window_visible);
    assert!(!h.app_state.injecting_text);
    assert!(h.app_state.input_buffer_empty);
}

#[test]
fn session_space_commits_reference_mark() {
    let mut h = handler();
    h.handle_key_event(key(0x4B), false);
    h.handle_key_event(key(0x41), false);
    h.handle_key_event(key(0x57), false);
    assert_eq!(h.get_input_buffer(), "kaw");
    let out = h.handle_key_event(key(0x20), false);
    assert_eq!(out.inject, Some("ꇤꀕ".to_string()));
    assert_eq!(h.get_input_buffer(), "");
}

#[test]
fn session_backspace_restores_state() {
    let mut h = handler();
    h.handle_key_event(key(0x42), false);
    let buffer_before = h.get_input_buffer().to_string();
    let candidates_before = h.candidates.clone();
    h.handle_key_event(key(0x4F), false);
    assert_eq!(h.get_input_buffer(), "bo");
    h.handle_key_event(key(0x08), false);
    assert_eq!(h.get_input_buffer(), buffer_before);
    assert_eq!(h.candidates, candidates_before);
    assert!(h.window_visible);
}

#[test]
fn session_backspace_to_empty_hides() {
    let mut h = handler();
    h.handle_key_event(key(0x42), false);
    let out = h.handle_key_event(key(0x08), false);
    assert_eq!(h.get_input_buffer(), "");
    assert!(!h.window_visible);
    assert!(matches!(out.window, Some(WindowCommand::Hide)));
}

#[test]
fn session_escape_cancels() {
    let mut h = handler();
    h.handle_key_event(key(0x42), false);
    h.handle_key_event(key(0x41), false);
    let out = h.handle_key_event(key(0x1B), false);
    assert_eq!(h.get_input_buffer(), "");
    assert!(!h.window_visible);
    assert!(h.candidates.is_empty());
    assert!(matches!(out.window, Some(WindowCommand::Hide)));
}

#[test]
fn session_ignores_invalid_letters() {
    let mut h = handler();
    h.handle_key_event(key(0x51), false);
    assert_eq!(h.get_input_buffer(), "");
    h.handle_key_event(key(0x42), false);
    h.handle_key_event(key(0x51), false);
    assert_eq!(h.get_input_buffer(), "b");
}

#[test]
fn session_commits_and_reentry_same_candidates() {
    let mut h = handler();
    h.handle_key_event(key(0x42), false);
    h.handle_key_event(key(0x4F), false);
    let before = h.candidates.clone();
    h.handle_key_event(key(0x31), false);
    h.handle_key_event(key(0x42), false);
    h.handle_key_event(key(0x4F), false);
    assert_eq!(h.candidates, before);
}

#[test]
fn session_punctuation_commit() {
    let mut h = handler();
    h.handle_key_event(key(0x42), false);
    h.handle_key_event(key(0x4F), false);
    let out = h.handle_key_event(key(0xBC), false);
    assert_eq!(out.inject, Some("ꁧ，".to_string()));
    assert_eq!(h.get_input_buffer(), "");
    let mut h2 = handler();
    h2.handle_key_event(key(0x42), false);
    h2.handle_key_event(key(0x4F), false);
    let out2 = h2.handle_key_event(key(0xBC), true);
    assert_eq!(out2.inject, Some("ꁧ《".to_string()));
}

#[test]
fn format_modes() {
    assert_eq!(format_text_by_mode(InputMode::YiOnly, "ꃅꀨ", "mu-bu"), "ꃅꀨ");
    assert_eq!(format_text_by_mode(InputMode::PinyinYi, "ꃅꀨ", "mu-bu"), "mu bu ꃅꀨ");
    assert_eq!(format_text_by_mode(InputMode::PinyinWithYi, "ꃅꀨ", "mu-bu"), "mu bu（ꃅꀨ）");
    assert_eq!(format_text_by_mode(InputMode::YiWithPinyin, "ꃅꀨ", "mu-bu"), "ꃅꀨ（mu bu）");
    assert_eq!(
        format_text_by_mode(InputMode::HtmlRuby, "ꃅꀨ", "mu-bu"),
        "<ruby>ꃅ<rp>(</rp><rt>mu</rt><rp>)</rp></ruby><ruby>ꀨ<rp>(</rp><rt>bu</rt><rp>)</rp></ruby>"
    );
}

#[test]
fn session_html_ruby_commit() {
    let mut h = handler();
    h.app_state.set_input_mode(InputMode::HtmlRuby);
    for vk in [0x42, 0x41, 0x50] {
        h.handle_key_event(key(vk), false);
    }
    assert_eq!(h.get_input_buffer(), "bap");
    assert_eq!(h.candidates[1], "ꀠꀋ (ba-p)");
    let out = h.handle_key_event(key(0x32), false);
    assert_eq!(
        out.inject,
        Some(
            "<ruby>ꀠ<rp>(</rp><rt>ba</rt><rp>)</rp></ruby><ruby>ꀋ<rp>(</rp><rt>p</rt><rp>)</rp></ruby>"
                .to_string()
        )
    );
}

#[test]
fn extract_candidate_parts() {
    assert_eq!(extract_yi_and_pinyin("ꊖ (za)"), ("ꊖ".to_string(), "za".to_string()));
    assert_eq!(extract_yi_and_pinyin("[radical] ꒲ (za)"), ("꒲".to_string(), "za".to_string()));
    assert_eq!(extract_yi_and_pinyin("plain"), ("plain".to_string(), "".to_string()));
}

#[test]
fn capture_f4_toggles_engine() {
    let mut hook = HookState::new();
    assert_eq!(hook.process_key(115, true, false, false, false), CaptureDecision::Swallow);
    assert!(hook.active);
    assert_eq!(hook.get_english_input_state(), EnglishInputState::Yi);
    assert_eq!(hook.process_key(115, true, false, false, false), CaptureDecision::Swallow);
    assert!(!hook.active);
}

#[test]
fn capture_inactive_passes_through() {
    let mut hook = HookState::new();
    assert_eq!(hook.process_key(0x42, true, false, false, false), CaptureDecision::PassThrough);
}

#[test]
fn capture_forwards_yi_letters() {
    let mut hook = HookState::new();
    hook.process_key(115, true, false, false, false);
    assert_eq!(hook.process_key(0x42, true, false, false, false), CaptureDecision::Forward);
    assert_eq!(hook.process_key(0x42, true, true, false, false), CaptureDecision::PassThrough);
}

#[test]
fn capture_english_passthrough() {
    let mut hook = HookState::new();
    hook.process_key(115, true, false, false, false);
    assert_eq!(hook.process_key(16, true, false, false, true), CaptureDecision::PassThrough);
    assert_eq!(hook.get_english_input_state(), EnglishInputState::LowerCase);
    let h = handler();
    for vk in [0x41, 0x42, 0x43] {
        assert_eq!(hook.process_key(vk, true, false, false, false), CaptureDecision::PassThrough);
    }
    assert_eq!(h.get_input_buffer(), "");
    assert_eq!(hook.process_key(16, true, false, false, true), CaptureDecision::PassThrough);
    assert_eq!(hook.get_english_input_state(), EnglishInputState::Yi);
}

#[test]
fn capture_capslock_toggles_upper() {
    let mut hook = HookState::new();
    hook.process_key(115, true, false, false, false);
    hook.process_key(20, true, false, false, false);
    assert_eq!(hook.get_english_input_state(), EnglishInputState::UpperCase);
    hook.process_key(20, true, false, false, false);
    assert_eq!(hook.get_english_input_state(), EnglishInputState::Yi);
}

#[test]
fn capture_injecting_passes_everything() {
    let mut hook = HookState::new();
    hook.process_key(115, true, false, false, false);
    hook.set_injecting_text(true);
    assert_eq!(hook.process_key(0x42, true, false, false, false), CaptureDecision::PassThrough);
    assert_eq!(hook.process_key(115, true, false, false, false), CaptureDecision::PassThrough);
    hook.set_injecting_text(false);
    assert_eq!(hook.process_key(0x42, true, false, false, false), CaptureDecision::Forward);
}

#[test]
fn capture_composing_keys() {
    let mut hook = HookState::new();
    hook.process_key(115, true, false, false, false);
    hook.set_input_buffer_empty(false);
    assert_eq!(hook.process_key(0x31, true, false, false, false), CaptureDecision::Forward);
    assert_eq!(hook.process_key(0x08, true, false, false, false), CaptureDecision::Forward);
    assert_eq!(hook.process_key(0x20, true, false, false, false), CaptureDecision::Forward);
    assert_eq!(hook.process_key(0x1B, true, false, false, false), CaptureDecision::Forward);
    assert_eq!(hook.process_key(0xBC, true, false, false, false), CaptureDecision::Forward);
    assert_eq!(hook.process_key(0x70, true, false, false, false), CaptureDecision::PassThrough);
}

#[test]
fn injector_state_machine() {
    let primary = TextInjector::new(0);
    assert!(primary.is_tsf_enabled());
    assert!(!primary.should_fall_back(None));
    assert!(!primary.should_fall_back(Some(0)));
    assert!(primary.should_fall_back(Some(-3)));
    assert_eq!(primary.get_mode_description(), "text services");
    let fallback = TextInjector::new(-1);
    assert!(!fallback.is_tsf_enabled());
    assert!(fallback.should_fall_back(None));
    assert_eq!(fallback.get_mode_description(), "clipboard fallback");
}

#[test]
fn injector_status_codes() {
    assert_eq!(insert_status(0), Ok(()));
    assert_eq!(insert_status(-1), Err(InjectorError::NotInitialized));
    assert_eq!(insert_status(-2), Err(InjectorError::EncodingFailed));
    assert_eq!(insert_status(-3), Err(InjectorError::InsertFailed));
    assert_eq!(insert_status(-4), Err(InjectorError::NoFocusContext));
    assert_eq!(insert_status(-5), Err(InjectorError::OutOfMemory));
    assert_eq!(insert_status(7), Err(InjectorError::Unknown));
}

#[test]
fn app_state_flags() {
    let mut s = AppState::new();
    assert!(!s.is_active);
    assert!(s.input_buffer_empty);
    assert!(!s.injecting_text);
    assert_eq!(s.get_input_mode(), InputMode::YiOnly);
    assert_eq!(s.get_english_input_state(), EnglishInputState::Yi);
    s.set_input_mode(InputMode::HtmlRuby);
    assert_eq!(s.get_input_mode(), InputMode::HtmlRuby);
    s.set_english_input_state(EnglishInputState::UpperCase);
    assert_eq!(s.get_english_input_state(), EnglishInputState::UpperCase);
    s.set_input_buffer_empty(false);
    assert!(!s.input_buffer_empty);
}

#[test]
fn buffer_stays_lowercase() {
    let mut h = handler();
    for vk in [0x42, 0x41, 0x50] {
        h.handle_key_event(key(vk), false);
    }
    assert_eq!(h.get_input_buffer(), "bap");
    assert!(h.get_input_buffer().chars().all(|c| c.is_ascii_lowercase()));
}
