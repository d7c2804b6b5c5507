use dangi_dongi::tui::{App, KeyCode, KeyEvent, KeyEventKind};

fn press(app: &mut App, code: KeyCode) {
    app.handle_key_event(KeyEvent { code, kind: KeyEventKind::Press });
}

fn type_text(app: &mut App, text: &str) {
    for c in text.chars() {
        press(app, KeyCode::Char(c));
    }
}

#[test]
fn screen_starts_open_and_idle() {
    let app = App::new();
    assert!(!app.should_exit());
    assert!(!app.input_mode());
    assert_eq!(app.user_input(), "");
    assert_eq!(app.users_panel(), "< press 'u' to add user >");
}

#[test]
fn q_closes_the_screen() {
    let mut app = App::new();
    press(&mut app, KeyCode::Char('q'));
    assert!(app.should_exit());
}

#[test]
fn u_opens_the_input() {
    let mut app = App::new();
    press(&mut app, KeyCode::Char('u'));
    assert!(app.input_mode());
    assert!(!app.should_exit());
    assert_eq!(app.user_input(), "");
    assert_eq!(app.users_panel(), "> ");
}

#[test]
fn characters_are_typed_in_input_mode_only() {
    let mut app = App::new();
    type_text(&mut app, "abc");
    assert_eq!(app.user_input(), "");
    press(&mut app, KeyCode::Char('u'));
    type_text(&mut app, "Anna q");
    assert_eq!(app.user_input(), "Anna q");
    assert!(!app.should_exit());
    assert_eq!(app.users_panel(), "> Anna q");
}

#[test]
fn u_in_input_mode_starts_over() {
    let mut app = App::new();
    press(&mut app, KeyCode::Char('u'));
    type_text(&mut app, "Pa");
    press(&mut app, KeyCode::Char('u'));
    assert!(app.input_mode());
    assert_eq!(app.user_input(), "");
}

#[test]
fn backspace_takes_the_last_character() {
    let mut app = App::new();
    press(&mut app, KeyCode::Char('u'));
    type_text(&mut app, "Bo");
    press(&mut app, KeyCode::Backspace);
    assert_eq!(app.user_input(), "B");
    press(&mut app, KeyCode::Backspace);
    press(&mut app, KeyCode::Backspace);
    assert_eq!(app.user_input(), "");
    assert!(app.input_mode());
}

#[test]
fn backspace_out_of_input_mode_does_nothing() {
    let mut app = App::new();
    press(&mut app, KeyCode::Char('u'));
    type_text(&mut app, "Bo");
    press(&mut app, KeyCode::Esc);
    press(&mut app, KeyCode::Backspace);
    assert_eq!(app.user_input(), "Bo");
}

#[test]
fn esc_and_enter_leave_input_mode() {
    let mut app = App::new();
    press(&mut app, KeyCode::Char('u'));
    type_text(&mut app, "Cy");
    press(&mut app, KeyCode::Esc);
    assert!(!app.input_mode());
    assert_eq!(app.user_input(), "Cy");
    press(&mut app, KeyCode::Char('u'));
    press(&mut app, KeyCode::Enter);
    assert!(!app.input_mode());
    press(&mut app, KeyCode::Enter);
    assert!(!app.input_mode());
    assert!(!app.should_exit());
}

#[test]
fn only_a_key_that_goes_down_counts() {
    let mut app = App::new();
    app.handle_key_event(KeyEvent { code: KeyCode::Char('q'), kind: KeyEventKind::Release });
    app.handle_key_event(KeyEvent { code: KeyCode::Char('u'), kind: KeyEventKind::Repeat });
    assert!(!app.should_exit());
    assert!(!app.input_mode());
}

#[test]
fn other_keys_do_nothing() {
    let mut app = App::new();
    press(&mut app, KeyCode::Other);
    press(&mut app, KeyCode::Char('x'));
    assert!(!app.should_exit());
    assert!(!app.input_mode());
    assert_eq!(app.user_input(), "");
}
