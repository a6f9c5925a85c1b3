use keychord::store::FrequencyStore;
use keychord::tracker::{render_keys, Capture, KeyEvent};

fn press(k: &str) -> KeyEvent {
    KeyEvent::Press(k.to_string())
}

fn release(k: &str) -> KeyEvent {
    KeyEvent::Release(k.to_string())
}

fn ok(app: &str) -> Result<String, String> {
    Ok(app.to_string())
}

fn fail() -> Result<String, String> {
    Err("no window is focused".to_string())
}

fn count(c: &Capture, app: &str, sig: &str) -> u64 {
    c.data().count(&app.to_string(), &sig.to_string())
}

#[test]
fn ctrl_c_counts_once_for_editor() {
    let mut c = Capture::new(FrequencyStore::new());
    assert_eq!(count(&c, "editor", "[Ctrl, C]"), 0);
    assert!(c.handle_event(&press("Ctrl"), &ok("editor")).is_none());
    assert!(c.handle_event(&press("C"), &ok("editor")).is_none());
    assert!(c.handle_event(&release("C"), &ok("editor")).is_none());
    let chord = c.handle_event(&release("Ctrl"), &ok("editor")).unwrap();
    assert_eq!(chord.app, "editor");
    assert_eq!(chord.signature, "[Ctrl, C]");
    assert_eq!(count(&c, "editor", "[Ctrl, C]"), 1);
    assert_eq!(c.held(), 0);
}

#[test]
fn failed_lookup_keeps_key_held() {
    let mut c = Capture::new(FrequencyStore::new());
    c.handle_event(&press("Ctrl"), &ok("editor"));
    c.handle_event(&press("C"), &ok("editor"));
    c.handle_event(&release("C"), &ok("editor"));
    assert!(c.handle_event(&release("Ctrl"), &fail()).is_none());
    assert_eq!(c.held(), 1);
    assert_eq!(c.data().apps().len(), 0);
    assert!(c.handle_event(&release("Ctrl"), &fail()).is_none());
    assert_eq!(c.held(), 1);
    let chord = c.handle_event(&release("Ctrl"), &ok("editor")).unwrap();
    assert_eq!(chord.signature, "[Ctrl, C]");
    assert_eq!(count(&c, "editor", "[Ctrl, C]"), 1);
    assert_eq!(c.held(), 0);
}

#[test]
fn signature_keeps_press_order() {
    let mut c = Capture::new(FrequencyStore::new());
    c.handle_event(&press("A"), &ok("x"));
    c.handle_event(&press("B"), &ok("x"));
    c.handle_event(&release("B"), &ok("x"));
    let first = c.handle_event(&release("A"), &ok("x")).unwrap();
    assert_eq!(first.signature, "[A, B]");
    c.handle_event(&press("A"), &ok("x"));
    c.handle_event(&press("B"), &ok("x"));
    c.handle_event(&release("A"), &ok("x"));
    let second = c.handle_event(&release("B"), &ok("x")).unwrap();
    assert_eq!(second.signature, "[A, B]");
    assert_eq!(count(&c, "x", "[A, B]"), 2);
}

#[test]
fn chords_match_closing_releases() {
    let mut c = Capture::new(FrequencyStore::new());
    let events = vec![
        press("A"),
        release("A"),
        release("A"),
        press("B"),
        press("C"),
        release("C"),
        press("D"),
        release("D"),
        release("B"),
        press("E"),
        release("E"),
    ];
    let mut chords = 0;
    let mut closing = 0;
    for e in &events {
        let before = c.held();
        let is_release = matches!(e, KeyEvent::Release(_));
        if c.handle_event(e, &ok("app")).is_some() {
            chords += 1;
        }
        if is_release && before == 1 && c.held() == 0 {
            closing += 1;
        }
    }
    assert_eq!(chords, 3);
    assert_eq!(closing, 3);
    assert_eq!(count(&c, "app", "[B, D, C]"), 1);
    assert_eq!(count(&c, "app", "[A]"), 1);
    assert_eq!(count(&c, "app", "[E]"), 1);
}

#[test]
fn ten_identical_chords_count_ten() {
    let mut c = Capture::new(FrequencyStore::new());
    for _ in 0..10 {
        c.handle_event(&press("Ctrl"), &ok("editor"));
        c.handle_event(&press("S"), &ok("editor"));
        c.handle_event(&release("S"), &ok("editor"));
        c.handle_event(&release("Ctrl"), &ok("editor"));
    }
    assert_eq!(count(&c, "editor", "[Ctrl, S]"), 10);
}

#[test]
fn chords_are_attributed_to_their_app() {
    let mut c = Capture::new(FrequencyStore::new());
    c.handle_event(&press("Q"), &ok("a"));
    c.handle_event(&release("Q"), &ok("a"));
    c.handle_event(&press("Q"), &ok("b"));
    c.handle_event(&release("Q"), &ok("b"));
    c.handle_event(&press("Q"), &ok("b"));
    c.handle_event(&release("Q"), &ok("b"));
    assert_eq!(count(&c, "a", "[Q]"), 1);
    assert_eq!(count(&c, "b", "[Q]"), 2);
    assert_eq!(c.data().apps().len(), 2);
}

#[test]
fn release_at_rest_is_ignored() {
    let mut c = Capture::new(FrequencyStore::new());
    let r = release("A");
    assert!(!c.needs_focus(&r));
    assert!(c.handle_event(&r, &ok("x")).is_none());
    assert_eq!(c.held(), 0);
    assert_eq!(c.data().apps().len(), 0);
    let p = press("A");
    assert!(!c.needs_focus(&p));
    c.handle_event(&p, &fail());
    assert_eq!(c.held(), 1);
    assert!(c.needs_focus(&r));
}

#[test]
fn render_keys_formats_list() {
    let keys = vec!["ControlLeft".to_string(), "KeyC".to_string()];
    assert_eq!(render_keys(&keys), "[ControlLeft, KeyC]");
    assert_eq!(render_keys(&vec!["A".to_string()]), "[A]");
    assert_eq!(render_keys(&Vec::new()), "[]");
}
