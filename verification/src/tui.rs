//! The state of the interactive screen and what a key does to it. Reading
//! keys and drawing are left to the program around the library.

use vstd::prelude::*;

verus! {

/// `String::push` appends the character to the end of the string.
pub assume_specification[ String::push ](s: &mut String, ch: char)
    ensures
        final(s)@ == old(s)@.push(ch),
;

/// `String::pop` removes the last character and returns it; on an empty
/// string it returns `None` and changes nothing.
pub assume_specification[ String::pop ](s: &mut String) -> (r: Option<char>)
    ensures
        old(s)@.len() == 0 ==> r == None::<char> && final(s)@ == old(s)@,
        old(s)@.len() > 0 ==> r == Some(old(s)@.last()) && final(s)@ == old(s)@.drop_last(),
;

/// `String::clear` removes all contents of the string.
pub assume_specification[ String::clear ](s: &mut String)
    ensures
        final(s)@ == Seq::<char>::empty(),
;

/// The keys that the screen tells apart.
#[derive(Debug, Clone, Copy, PartialEq, Eq)]
pub enum KeyCode {
    Char(char),
    Esc,
    Enter,
    Backspace,
    Other,
}

/// Whether a key went down, is held, or came up.
#[derive(Debug, Clone, Copy, PartialEq, Eq)]
pub enum KeyEventKind {
    Press,
    Repeat,
    Release,
}

#[derive(Debug, Clone, Copy, PartialEq, Eq)]
pub struct KeyEvent {
    pub code: KeyCode,
    pub kind: KeyEventKind,
}

/// The screen: whether it is to close, whether a name is being typed, and
/// what has been typed of it.
#[derive(Debug)]
pub struct App {
    exit: bool,
    input_mode: bool,
    user_input: String,
}

pub struct AppView {
    pub exit: bool,
    pub input_mode: bool,
    pub user_input: Seq<char>,
}

impl AppView {
    /// The screen after a key event. Only a key that goes down counts. Out
    /// of input mode `q` closes the screen; `u` opens an empty input; Esc and
    /// Enter leave input mode; in input mode Backspace takes the last
    /// character away and any other character is added.
    pub open spec fn after_key(self, key: KeyEvent) -> AppView {
        if key.kind != KeyEventKind::Press {
            self
        } else {
            match key.code {
                KeyCode::Char(c) => {
                    if c == 'u' {
                        AppView { exit: self.exit, input_mode: true, user_input: Seq::empty() }
                    } else if self.input_mode {
                        AppView {
                            exit: self.exit,
                            input_mode: true,
                            user_input: self.user_input.push(c),
                        }
                    } else if c == 'q' {
                        AppView { exit: true, input_mode: false, user_input: self.user_input }
                    } else {
                        self
                    }
                },
                KeyCode::Esc | KeyCode::Enter => {
                    AppView { exit: self.exit, input_mode: false, user_input: self.user_input }
                },
                KeyCode::Backspace => {
                    if self.input_mode && self.user_input.len() > 0 {
                        AppView {
                            exit: self.exit,
                            input_mode: true,
                            user_input: self.user_input.drop_last(),
                        }
                    } else {
                        self
                    }
                },
                KeyCode::Other => self,
            }
        }
    }

    /// What the panel of participants shows: the input so far behind a
    /// prompt, or a hint at the key that opens the input.
    pub open spec fn users_panel(self) -> Seq<char> {
        if self.input_mode {
            "> "@ + self.user_input
        } else {
            "< press 'u' to add user >"@
        }
    }
}

impl View for App {
    type V = AppView;

    closed spec fn view(&self) -> AppView {
        AppView { exit: self.exit, input_mode: self.input_mode, user_input: self.user_input@ }
    }
}

impl App {
    /// A screen that is open, out of input mode, with nothing typed.
    pub fn new() -> (app: Self)
        ensures
            app@ == (AppView { exit: false, input_mode: false, user_input: Seq::empty() }),
    {
        App { exit: false, input_mode: false, user_input: String::new() }
    }

    /// Takes one key event in.
    pub fn handle_key_event(&mut self, key_event: KeyEvent)
        ensures
            final(self)@ == old(self)@.after_key(key_event),
    {
        match key_event.kind {
            KeyEventKind::Press => {},
            _ => {
                return ;
            },
        }
        match key_event.code {
            KeyCode::Char(c) => {
                if c == 'u' {
                    self.input_mode = true;
                    self.user_input.clear();
                } else if self.input_mode {
                    self.user_input.push(c);
                } else if c == 'q' {
                    self.exit = true;
                }
            },
            KeyCode::Esc => {
                self.input_mode = false;
            },
            KeyCode::Enter => {
                self.input_mode = false;
            },
            KeyCode::Backspace => {
                if self.input_mode {
                    self.user_input.pop();
                }
            },
            KeyCode::Other => {},
        }
    }

    /// Whether the screen is to close.
    pub fn should_exit(&self) -> (r: bool)
        ensures
            r == self@.exit,
    {
        self.exit
    }

    /// Whether a name is being typed.
    pub fn input_mode(&self) -> (r: bool)
        ensures
            r == self@.input_mode,
    {
        self.input_mode
    }

    /// What has been typed so far.
    pub fn user_input(&self) -> (r: &str)
        ensures
            r@ == self@.user_input,
    {
        self.user_input.as_str()
    }

    /// What the panel of participants shows.
    pub fn users_panel(&self) -> (line: String)
        ensures
            line@ == self@.users_panel(),
    {
        if self.input_mode {
            let mut line = String::from_str("> ");
            line.append(self.user_input.as_str());
            line
        } else {
            String::from_str("< press 'u' to add user >")
        }
    }
}

} // verus!
