use crate::text::same_text;
use regex::Regex;
use vstd::prelude::*;
use vstd::string::StringExecFns;

verus! {

/// How much the node logs.
#[derive(Clone, Copy, Debug, PartialEq, Eq, Structural)]
pub enum LogLevel {
    Off,
    Error,
    Warn,
    Info,
    Debug,
    Trace,
}

impl LogLevel {
    /// The name of the level, in lower case.
    pub open spec fn name(self) -> Seq<char> {
        match self {
            LogLevel::Off => "off"@,
            LogLevel::Error => "error"@,
            LogLevel::Warn => "warn"@,
            LogLevel::Info => "info"@,
            LogLevel::Debug => "debug"@,
            LogLevel::Trace => "trace"@,
        }
    }

    /// The name of the level, in lower case.
    pub fn as_str(&self) -> (s: &'static str)
        ensures
            s@ == self.name(),
    {
        match self {
            LogLevel::Off => "off",
            LogLevel::Error => "error",
            LogLevel::Warn => "warn",
            LogLevel::Info => "info",
            LogLevel::Debug => "debug",
            LogLevel::Trace => "trace",
        }
    }

    /// The level with the given name. There is no name for `Off`.
    pub open spec fn parse(s: Seq<char>) -> Option<LogLevel> {
        if s == "error"@ {
            Some(LogLevel::Error)
        } else if s == "warn"@ {
            Some(LogLevel::Warn)
        } else if s == "info"@ {
            Some(LogLevel::Info)
        } else if s == "debug"@ {
            Some(LogLevel::Debug)
        } else if s == "trace"@ {
            Some(LogLevel::Trace)
        } else {
            None
        }
    }

    /// The level with the given name, or the message "Invalid log level".
    pub fn from_str(s: &str) -> (r: Result<LogLevel, String>)
        ensures
            match LogLevel::parse(s@) {
                Some(level) => r == Ok::<LogLevel, String>(level),
                None => r is Err && r->Err_0@ == "Invalid log level"@,
            },
    {
        if same_text(s, "error") {
            Ok(LogLevel::Error)
        } else if same_text(s, "warn") {
            Ok(LogLevel::Warn)
        } else if same_text(s, "info") {
            Ok(LogLevel::Info)
        } else if same_text(s, "debug") {
            Ok(LogLevel::Debug)
        } else if same_text(s, "trace") {
            Ok(LogLevel::Trace)
        } else {
            Err("Invalid log level".to_owned())
        }
    }

    /// The name of the level as an owned string.
    pub fn to_string(&self) -> (s: String)
        ensures
            s@ == self.name(),
    {
        self.as_str().to_owned()
    }
}

impl core::str::FromStr for LogLevel {
    type Err = String;

    /// The level with the given name, or the message "Invalid log level".
    fn from_str(s: &str) -> (r: Result<LogLevel, String>)
        ensures
            match LogLevel::parse(s@) {
                Some(level) => r == Ok::<LogLevel, String>(level),
                None => r is Err && r->Err_0@ == "Invalid log level"@,
            },
    {
        LogLevel::from_str(s)
    }
}

/// The finished lines and the width of the line in progress after the first
/// `n` characters of `text` were laid out in `width` columns. A line break
/// ends a line, and so does a character that meets a full line: that character
/// takes no column itself.
pub open spec fn layout(width: u16, text: Seq<char>, n: int) -> (nat, nat)
    decreases n,
{
    if n <= 0 {
        (0, 0)
    } else {
        let (lines, current) = layout(width, text, n - 1);
        if text[n - 1] == '\n' || current >= width {
            (lines + 1, 0)
        } else {
            (lines, current + 1)
        }
    }
}

/// The number of terminal lines that `text` takes in `width` columns.
pub open spec fn lines_of(width: u16, text: Seq<char>) -> nat {
    let (lines, current) = layout(width, text, text.len() as int);
    if current > 0 {
        lines + 1
    } else {
        lines
    }
}

/// The finished lines and the line in progress are never more than the characters laid out.
pub proof fn lemma_layout_bound(width: u16, text: Seq<char>, n: int)
    requires
        0 <= n <= text.len(),
    ensures
        layout(width, text, n).0 + (if layout(width, text, n).1 > 0 {
            1nat
        } else {
            0nat
        }) <= n,
        layout(width, text, n).1 <= width,
        layout(width, text, n).1 <= n,
    decreases n,
{
    if n > 0 {
        lemma_layout_bound(width, text, n - 1);
    }
}

/// The number of terminal lines that `text` takes in `width` columns.
pub fn count_lines_of(width: u16, text: &str) -> (lines: usize)
    ensures
        lines == lines_of(width, text@),
{
    let mut lines: usize = 0;
    let mut current: u16 = 0;
    let mut n: usize = 0;
    let total = text.unicode_len();
    for c in it: text.chars()
        invariant
            total == text@.len(),
            it.seq() == text@,
            n == it.index(),
            (lines as nat, current as nat) == layout(width, text@, n as int),
    {
        proof {
            lemma_layout_bound(width, text@, n as int);
            lemma_layout_bound(width, text@, n + 1);
        }
        if c == '\n' || current >= width {
            lines += 1;
            current = 0;
        } else {
            current += 1;
        }
        n += 1;
    }
    proof {
        lemma_layout_bound(width, text@, n as int);
    }
    if current > 0 {
        lines += 1;
    }
    lines
}

/// What `Regex::replace_all` gives for the regular expression `pattern`, the
/// text and the replacement.
pub uninterp spec fn regex_replaced(
    pattern: Seq<char>,
    text: Seq<char>,
    replacement: Seq<char>,
) -> Seq<char>;

/// `Regex::new`, then `Regex::replace_all`: the text with each match of
/// `pattern` replaced, or nothing where `pattern` is no regular expression that
/// the crate accepts.
#[verifier::external_body]
fn regex_replace_all(pattern: &str, text: &str, replacement: &str) -> (r: Option<String>)
    ensures
        r matches Some(replaced) ==> replaced@ == regex_replaced(pattern@, text@, replacement@),
{
    match Regex::new(pattern) {
        Ok(regex) => Some(regex.replace_all(text, replacement).into_owned()),
        Err(_) => None,
    }
}

/// The regular expression for the escape sequences that colour text in a terminal.
pub fn ansi_escape_pattern() -> (pattern: &'static str)
    ensures
        pattern@ == "\x1B\\[[0-9;]*[A-Za-z]"@,
{
    "\x1B\\[[0-9;]*[A-Za-z]"
}

/// `text` without the escape sequences that colour it.
pub open spec fn without_escapes(text: Seq<char>) -> Seq<char> {
    regex_replaced("\x1B\\[[0-9;]*[A-Za-z]"@, text, ""@)
}

/// `value` without the escape sequences that colour it, where the regular
/// expression for them could be built.
pub fn strip_ansi(value: &str) -> (r: Option<String>)
    ensures
        r matches Some(stripped) ==> stripped@ == without_escapes(value@),
{
    regex_replace_all(ansi_escape_pattern(), value, "")
}

/// The number of terminal lines that `value` takes in `width` columns, its
/// escape sequences not counted, where the regular expression for them could
/// be built.
pub fn count_lines(width: u16, value: &str) -> (r: Option<usize>)
    ensures
        r matches Some(lines) ==> lines == lines_of(width, without_escapes(value@)),
{
    match strip_ansi(value) {
        Some(stripped) => Some(count_lines_of(width, stripped.as_str())),
        None => None,
    }
}

/// The text that is drawn for a prompt and the input behind it: a carriage
/// return, the prompt, the input.
pub fn prompt_line(prompt: &str, input: &str) -> (line: String)
    ensures
        line@ == seq!['\r'] + prompt@ + input@,
{
    proof {
        reveal_strlit("\r");
    }
    let line = String::from_str("\r").concat(prompt).concat(input);
    assert("\r"@ =~= seq!['\r']);
    line
}

/// The number of lines to move up before the prompt is drawn again, given
/// the number of lines that it took when it was last drawn: the line of the
/// cursor is not counted.
pub fn lines_to_clear(previous_count: usize) -> (r: Option<usize>)
    ensures
        previous_count > 1 ==> r == Some((previous_count - 1) as usize),
        previous_count <= 1 ==> r is None,
{
    if previous_count > 1 {
        Some(previous_count - 1)
    } else {
        None
    }
}

/// A masked input: one star for each byte of the input.
pub fn mask(input: &str) -> (masked: String)
    ensures
        masked@.len() == input.len(),
        forall|i: int| 0 <= i < masked@.len() ==> masked@[i] == '*',
{
    proof {
        reveal_strlit("*");
        reveal_strlit("");
    }
    let count = input.len();
    let mut masked = String::from_str("");
    let mut i: usize = 0;
    while i < count
        invariant
            0 <= i <= count,
            masked@.len() == i,
            "*"@.len() == 1,
            "*"@[0] == '*',
            forall|j: int| 0 <= j < masked@.len() ==> masked@[j] == '*',
        decreases count - i,
    {
        masked.append("*");
        i += 1;
    }
    masked
}

/// What the terminal reports.
#[derive(Clone, Debug, PartialEq, Eq)]
pub enum InputEvent {
    /// The terminal has this many columns now.
    Resize(u16),
    /// Text was pasted.
    Paste(Vec<char>),
    /// The up arrow.
    Up,
    /// The down arrow.
    Down,
    /// A character was typed.
    Char(char),
    /// Control and `c` were typed.
    Interrupt,
    Backspace,
    Enter,
    /// Anything else.
    Other,
}

/// A terminal event as contracts see it.
pub enum InputEventView {
    Resize(u16),
    Paste(Seq<char>),
    Up,
    Down,
    Char(char),
    Interrupt,
    Backspace,
    Enter,
    Other,
}

impl View for InputEvent {
    type V = InputEventView;

    open spec fn view(&self) -> InputEventView {
        match self {
            InputEvent::Resize(width) => InputEventView::Resize(*width),
            InputEvent::Paste(text) => InputEventView::Paste(text@),
            InputEvent::Up => InputEventView::Up,
            InputEvent::Down => InputEventView::Down,
            InputEvent::Char(c) => InputEventView::Char(*c),
            InputEvent::Interrupt => InputEventView::Interrupt,
            InputEvent::Backspace => InputEventView::Backspace,
            InputEvent::Enter => InputEventView::Enter,
            InputEvent::Other => InputEventView::Other,
        }
    }
}

/// What to do after a terminal event.
#[derive(Clone, Debug, PartialEq, Eq)]
pub enum InputAction {
    Nothing,
    /// Draw the prompt and the input again.
    Redraw,
    /// Leave the input loop.
    Exit,
    /// Draw again, and hand the line to the reader that waits for it.
    Reply(Vec<char>),
    /// Draw again, and hand the line to the command handler.
    Command(Vec<char>),
}

/// An action as contracts see it.
pub enum InputActionView {
    Nothing,
    Redraw,
    Exit,
    Reply(Seq<char>),
    Command(Seq<char>),
}

impl View for InputAction {
    type V = InputActionView;

    open spec fn view(&self) -> InputActionView {
        match self {
            InputAction::Nothing => InputActionView::Nothing,
            InputAction::Redraw => InputActionView::Redraw,
            InputAction::Exit => InputActionView::Exit,
            InputAction::Reply(line) => InputActionView::Reply(line@),
            InputAction::Command(line) => InputActionView::Command(line@),
        }
    }
}

/// The state of the input loop as contracts see it.
pub struct InputView {
    pub width: u16,
    pub buffer: Seq<char>,
    /// The lines that were entered, the newest first.
    pub history: Seq<Seq<char>>,
    pub history_index: nat,
    pub is_in_history: bool,
}

/// The state of the input loop: the width of the terminal, the line being
/// typed, and the lines entered before with the place of the user among them.
#[derive(Clone, Debug, PartialEq, Eq)]
pub struct InputState {
    width: u16,
    buffer: Vec<char>,
    history: Vec<Vec<char>>,
    history_index: usize,
    is_in_history: bool,
}

impl View for InputState {
    type V = InputView;

    closed spec fn view(&self) -> InputView {
        InputView {
            width: self.width,
            buffer: self.buffer@,
            history: self.history.deep_view(),
            history_index: self.history_index as nat,
            is_in_history: self.is_in_history,
        }
    }
}

/// The state and the action that follow `state` on `event`. `reader_waiting`
/// says whether a reader waits for the next line.
///
/// Outside the history, the place in it is its start. The up arrow on an
/// empty line enters the history; in it, up shows the line at the place and
/// moves one further back, down moves one forward and shows that line, and down
/// at the start leaves the history with an empty line. Typing, erasing, pasting
/// and entering leave the history. An entered line goes to the waiting reader
/// if there is one; else, unless it is empty, it is put at the start of the
/// history and goes to the command handler.
pub open spec fn next_input(state: InputView, event: InputEventView, reader_waiting: bool) -> (
    InputView,
    InputActionView,
) {
    let index = if state.is_in_history {
        state.history_index
    } else {
        0
    };
    let state = InputView { history_index: index, ..state };
    match event {
        InputEventView::Resize(width) => (InputView { width, ..state }, InputActionView::Redraw),
        InputEventView::Paste(text) => (
            InputView { buffer: state.buffer + text, is_in_history: false, ..state },
            InputActionView::Nothing,
        ),
        InputEventView::Up => {
            let inside = state.is_in_history || state.buffer.len() == 0;
            if inside && index < state.history.len() {
                (
                    InputView {
                        buffer: state.history[index as int],
                        history_index: if index + 1 < state.history.len() {
                            index + 1
                        } else {
                            index
                        },
                        is_in_history: true,
                        ..state
                    },
                    InputActionView::Redraw,
                )
            } else {
                (InputView { is_in_history: inside, ..state }, InputActionView::Nothing)
            }
        },
        InputEventView::Down => {
            if !state.is_in_history {
                (state, InputActionView::Nothing)
            } else if index > 0 {
                (
                    InputView {
                        buffer: if index - 1 < state.history.len() {
                            state.history[index - 1]
                        } else {
                            Seq::empty()
                        },
                        history_index: (index - 1) as nat,
                        ..state
                    },
                    InputActionView::Redraw,
                )
            } else {
                (
                    InputView { buffer: Seq::empty(), is_in_history: false, ..state },
                    InputActionView::Redraw,
                )
            }
        },
        InputEventView::Char(c) => (
            InputView { buffer: state.buffer.push(c), is_in_history: false, ..state },
            InputActionView::Redraw,
        ),
        InputEventView::Interrupt => (
            InputView { is_in_history: false, ..state },
            InputActionView::Exit,
        ),
        InputEventView::Backspace => (
            InputView {
                buffer: if state.buffer.len() > 0 {
                    state.buffer.drop_last()
                } else {
                    state.buffer
                },
                is_in_history: false,
                ..state
            },
            InputActionView::Redraw,
        ),
        InputEventView::Enter => {
            let cleared = InputView { buffer: Seq::empty(), is_in_history: false, ..state };
            if reader_waiting {
                (cleared, InputActionView::Reply(state.buffer))
            } else if state.buffer.len() > 0 {
                (
                    InputView { history: seq![state.buffer] + state.history, ..cleared },
                    InputActionView::Command(state.buffer),
                )
            } else {
                (cleared, InputActionView::Redraw)
            }
        },
        InputEventView::Other => (state, InputActionView::Nothing),
    }
}

/// A copy of `text`.
fn copy_chars(text: &Vec<char>) -> (copy: Vec<char>)
    ensures
        copy@ == text@,
{
    let mut copy: Vec<char> = Vec::with_capacity(text.len());
    let mut i: usize = 0;
    while i < text.len()
        invariant
            0 <= i <= text.len(),
            copy@ == text@.take(i as int),
        decreases text.len() - i,
    {
        copy.push(text[i]);
        assert(copy@ =~= text@.take(i + 1));
        i += 1;
    }
    assert(text@.take(text.len() as int) =~= text@);
    copy
}

impl InputState {
    /// The state before anything was typed, in a terminal of `width` columns.
    pub fn new(width: u16) -> (state: Self)
        ensures
            state@ == (InputView {
                width,
                buffer: Seq::empty(),
                history: Seq::empty(),
                history_index: 0,
                is_in_history: false,
            }),
    {
        let state = InputState {
            width,
            buffer: Vec::new(),
            history: Vec::new(),
            history_index: 0,
            is_in_history: false,
        };
        assert(state.history.deep_view() =~= Seq::<Seq<char>>::empty());
        state
    }

    /// The width of the terminal, in columns.
    pub fn width(&self) -> (width: u16)
        ensures
            width == self@.width,
    {
        self.width
    }

    /// The line being typed.
    pub fn buffer(&self) -> (buffer: &Vec<char>)
        ensures
            buffer@ == self@.buffer,
    {
        &self.buffer
    }

    /// Replaces the line being typed, and returns the one it replaces.
    pub fn replace_buffer(&mut self, buffer: Vec<char>) -> (previous: Vec<char>)
        ensures
            previous@ == old(self)@.buffer,
            final(self)@ == (InputView { buffer: buffer@, ..old(self)@ }),
    {
        let mut previous = buffer;
        core::mem::swap(&mut self.buffer, &mut previous);
        previous
    }

    /// Takes one terminal event and says what to do.
    pub fn handle_event(&mut self, event: InputEvent, reader_waiting: bool) -> (action: InputAction)
        ensures
            final(self)@ == next_input(old(self)@, event@, reader_waiting).0,
            action@ == next_input(old(self)@, event@, reader_waiting).1,
    {
        if !self.is_in_history {
            self.history_index = 0;
        }
        let ghost history = self.history.deep_view();
        let ghost expected = next_input(old(self)@, event@, reader_waiting).0;
        let action = match event {
            InputEvent::Resize(width) => {
                self.width = width;
                InputAction::Redraw
            },
            InputEvent::Paste(text) => {
                self.is_in_history = false;
                let mut text = text;
                self.buffer.append(&mut text);
                InputAction::Nothing
            },
            InputEvent::Up => {
                if self.buffer.len() == 0 {
                    self.is_in_history = true;
                }
                if self.is_in_history && self.history_index < self.history.len() {
                    self.buffer = copy_chars(&self.history[self.history_index]);
                    assert(self.buffer@ == history[self.history_index as int]);
                    if self.history_index + 1 < self.history.len() {
                        self.history_index += 1;
                    }
                    InputAction::Redraw
                } else {
                    InputAction::Nothing
                }
            },
            InputEvent::Down => {
                if !self.is_in_history {
                    InputAction::Nothing
                } else if self.history_index > 0 {
                    self.history_index -= 1;
                    if self.history_index < self.history.len() {
                        self.buffer = copy_chars(&self.history[self.history_index]);
                        assert(self.buffer@ == history[self.history_index as int]);
                    } else {
                        self.buffer = Vec::new();
                    }
                    InputAction::Redraw
                } else {
                    self.buffer = Vec::new();
                    self.is_in_history = false;
                    InputAction::Redraw
                }
            },
            InputEvent::Char(c) => {
                self.is_in_history = false;
                self.buffer.push(c);
                InputAction::Redraw
            },
            InputEvent::Interrupt => {
                self.is_in_history = false;
                InputAction::Exit
            },
            InputEvent::Backspace => {
                self.is_in_history = false;
                let _ = self.buffer.pop();
                InputAction::Redraw
            },
            InputEvent::Enter => {
                self.is_in_history = false;
                let mut line: Vec<char> = Vec::new();
                core::mem::swap(&mut self.buffer, &mut line);
                if reader_waiting {
                    InputAction::Reply(line)
                } else if line.len() > 0 {
                    let ghost before = self.history@;
                    let entry = copy_chars(&line);
                    self.history.insert(0, entry);
                    proof {
                        let now = self.history.deep_view();
                        let wanted = seq![line@] + history;
                        assert(now.len() == wanted.len());
                        assert forall|i: int| 0 <= i < now.len() implies now[i] == wanted[i] by {
                            if i > 0 {
                                assert(self.history@[i] == before[i - 1]);
                                assert(history[i - 1] == before[i - 1]@);
                            }
                        }
                        assert(now =~= wanted);
                    }
                    InputAction::Command(line)
                } else {
                    InputAction::Redraw
                }
            },
            InputEvent::Other => InputAction::Nothing,
        };
        proof {
            assert(self@.buffer =~= expected.buffer);
            assert(self@.history =~= expected.history);
        }
        action
    }
}

} // verus!
