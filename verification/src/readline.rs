//! Line editing: the edit buffer, the history of entered lines, and the
//! decision that each key press leads to.

use vstd::prelude::*;
use crate::text::{chars_of, string_from};

verus! {

broadcast use vstd::string::group_string_axioms;

/// The prompt shown before input, with an alternative form.
#[derive(Clone, Debug)]
pub struct Prompt {
    pub prompt: String,
    pub alt_prompt: String,
    pub placeholder: String,
    pub alt_placeholder: String,
    pub use_alt: bool,
}

impl Default for Prompt {
    fn default() -> (p: Prompt)
        ensures
            p.prompt@ == seq!['>'],
            p.alt_prompt@ == seq!['>'],
            p.placeholder@.len() == 0,
            p.alt_placeholder@.len() == 0,
            !p.use_alt,
    {
        let v: Vec<char> = vec!['>'];
        Prompt {
            prompt: string_from(&v),
            alt_prompt: string_from(&v),
            placeholder: String::new(),
            alt_placeholder: String::new(),
            use_alt: false,
        }
    }
}

impl Prompt {
    /// The prompt text in use.
    pub fn prompt(&self) -> (s: &str)
        ensures
            s@ == if self.use_alt { self.alt_prompt@ } else { self.prompt@ },
    {
        if self.use_alt {
            self.alt_prompt.as_str()
        } else {
            self.prompt.as_str()
        }
    }

    /// The placeholder text in use.
    pub fn placeholder(&self) -> (s: &str)
        ensures
            s@ == if self.use_alt { self.alt_placeholder@ } else { self.placeholder@ },
    {
        if self.use_alt {
            self.alt_placeholder.as_str()
        } else {
            self.placeholder.as_str()
        }
    }
}

/// The text being edited and the cursor position in it.
#[derive(Debug)]
pub struct Buffer {
    buf: Vec<char>,
    pos: usize,
}

/// The characters of a buffer and its cursor.
pub struct BufferView {
    pub chars: Seq<char>,
    pub pos: nat,
}

impl View for Buffer {
    type V = BufferView;

    closed spec fn view(&self) -> BufferView {
        BufferView { chars: self.buf@, pos: self.pos as nat }
    }
}

/// The cursor stands within the text.
pub open spec fn buffer_wf(b: BufferView) -> bool {
    b.pos <= b.chars.len()
}

/// `c` typed at the cursor, the cursor after it.
pub open spec fn spec_add(b: BufferView, c: char) -> BufferView {
    BufferView { chars: b.chars.insert(b.pos as int, c), pos: b.pos + 1 }
}

/// The character before the cursor removed (backspace).
pub open spec fn spec_remove(b: BufferView) -> BufferView {
    if b.pos > 0 {
        BufferView { chars: b.chars.remove(b.pos - 1), pos: (b.pos - 1) as nat }
    } else {
        b
    }
}

/// The character under the cursor removed (delete).
pub open spec fn spec_delete(b: BufferView) -> BufferView {
    if b.pos < b.chars.len() {
        BufferView { chars: b.chars.remove(b.pos as int), pos: b.pos }
    } else {
        b
    }
}

/// The cursor one to the left, if it can move.
pub open spec fn spec_move_left(b: BufferView) -> BufferView {
    if b.pos > 0 {
        BufferView { pos: (b.pos - 1) as nat, ..b }
    } else {
        b
    }
}

/// The cursor one to the right, if it can move.
pub open spec fn spec_move_right(b: BufferView) -> BufferView {
    if b.pos < b.chars.len() {
        BufferView { pos: b.pos + 1, ..b }
    } else {
        b
    }
}

impl Buffer {
    /// An empty buffer.
    pub fn new() -> (b: Buffer)
        ensures
            b@.chars.len() == 0,
            b@.pos == 0,
    {
        Buffer { buf: Vec::new(), pos: 0 }
    }

    /// Whether the buffer has no text.
    pub fn is_empty(&self) -> (r: bool)
        requires
            buffer_wf(self@),
        ensures
            r == (self@.chars.len() == 0),
    {
        self.buf.len() == 0
    }

    /// Types `c` at the cursor.
    pub fn add(&mut self, c: char)
        requires
            buffer_wf(old(self)@),
            old(self)@.chars.len() < usize::MAX,
        ensures
            final(self)@ == spec_add(old(self)@, c),
            buffer_wf(final(self)@),
    {
        self.buf.insert(self.pos, c);
        self.pos = self.pos + 1;
    }

    /// Removes the character before the cursor.
    pub fn remove(&mut self)
        requires
            buffer_wf(old(self)@),
        ensures
            final(self)@ == spec_remove(old(self)@),
            buffer_wf(final(self)@),
    {
        if self.pos > 0 {
            self.pos = self.pos - 1;
            self.buf.remove(self.pos);
        }
    }

    /// Removes the character under the cursor.
    pub fn delete(&mut self)
        requires
            buffer_wf(old(self)@),
        ensures
            final(self)@ == spec_delete(old(self)@),
            buffer_wf(final(self)@),
    {
        if self.pos < self.buf.len() {
            self.buf.remove(self.pos);
        }
    }

    /// Moves the cursor one to the left.
    pub fn move_left(&mut self)
        requires
            buffer_wf(old(self)@),
        ensures
            final(self)@ == spec_move_left(old(self)@),
            buffer_wf(final(self)@),
    {
        if self.pos > 0 {
            self.pos = self.pos - 1;
        }
    }

    /// Moves the cursor one to the right.
    pub fn move_right(&mut self)
        requires
            buffer_wf(old(self)@),
        ensures
            final(self)@ == spec_move_right(old(self)@),
            buffer_wf(final(self)@),
    {
        if self.pos < self.buf.len() {
            self.pos = self.pos + 1;
        }
    }

    /// Moves the cursor to the start of the text.
    pub fn move_to_start(&mut self)
        ensures
            final(self)@ == (BufferView { pos: 0, ..old(self)@ }),
            buffer_wf(final(self)@),
    {
        self.pos = 0;
    }

    /// Moves the cursor to the end of the text.
    pub fn move_to_end(&mut self)
        ensures
            final(self)@ == (BufferView { pos: old(self)@.chars.len(), ..old(self)@ }),
            buffer_wf(final(self)@),
    {
        self.pos = self.buf.len();
    }

    /// Replaces the text with `chars`, the cursor at its end.
    pub fn replace(&mut self, chars: &[char])
        ensures
            final(self)@ == (BufferView { chars: chars@, pos: chars@.len() }),
            buffer_wf(final(self)@),
    {
        let mut v: Vec<char> = Vec::new();
        let mut i: usize = 0;
        while i < chars.len()
            invariant
                i <= chars@.len(),
                v@ == chars@.take(i as int),
            decreases chars@.len() - i,
        {
            v.push(chars[i]);
            assert(chars@.take(i + 1) == chars@.take(i as int).push(chars@[i as int]));
            i += 1;
        }
        assert(chars@.take(chars@.len() as int) == chars@);
        self.buf = v;
        self.pos = self.buf.len();
    }

    /// The text.
    pub fn string(&self) -> (s: String)
        ensures
            s@ == self@.chars,
    {
        string_from(&self.buf)
    }
}

impl Default for Buffer {
    fn default() -> (b: Buffer)
        ensures
            b@.chars.len() == 0,
            b@.pos == 0,
    {
        Buffer::new()
    }
}

/// Lines entered before, with a cursor for browsing them.
#[derive(Debug)]
pub struct History {
    entries: Vec<String>,
    pos: usize,
    pub enabled: bool,
}

/// The entries of a history, its cursor and whether it records.
pub struct HistoryView {
    pub entries: Seq<Seq<char>>,
    pub pos: nat,
    pub enabled: bool,
}

impl View for History {
    type V = HistoryView;

    closed spec fn view(&self) -> HistoryView {
        HistoryView {
            entries: self.entries@.map_values(|s: String| s@),
            pos: self.pos as nat,
            enabled: self.enabled,
        }
    }
}

/// The cursor stands within the entries or just past them.
pub open spec fn history_wf(h: HistoryView) -> bool {
    h.pos <= h.entries.len()
}

/// What `History::prev` leaves and returns.
pub open spec fn spec_prev(h: HistoryView) -> (HistoryView, Option<Seq<char>>) {
    if h.pos > 0 {
        (HistoryView { pos: (h.pos - 1) as nat, ..h }, Some(h.entries[h.pos - 1]))
    } else {
        (h, None)
    }
}

/// What `History::next` leaves and returns: `None` also when the cursor
/// moves past the last entry.
pub open spec fn spec_next(h: HistoryView) -> (HistoryView, Option<Seq<char>>) {
    if h.pos < h.entries.len() {
        let p = h.pos + 1;
        (
            HistoryView { pos: p, ..h },
            if p == h.entries.len() {
                None
            } else {
                Some(h.entries[p as int])
            },
        )
    } else {
        (h, None)
    }
}

/// What `History::add` leaves: the line recorded, the cursor past it,
/// when recording is on.
pub open spec fn spec_history_add(h: HistoryView, s: Seq<char>) -> HistoryView {
    if h.enabled {
        HistoryView { entries: h.entries.push(s), pos: h.entries.len() + 1, ..h }
    } else {
        h
    }
}

impl History {
    /// An empty history that records.
    pub fn new() -> (h: History)
        ensures
            h@.entries.len() == 0,
            h@.pos == 0,
            h@.enabled,
    {
        History { entries: Vec::new(), pos: 0, enabled: true }
    }

    /// Records `s` when recording is on.
    pub fn add(&mut self, s: String)
        requires
            history_wf(old(self)@),
        ensures
            final(self)@ == spec_history_add(old(self)@, s@),
            history_wf(final(self)@),
    {
        if self.enabled {
            let ghost before = self.entries@;
            self.entries.push(s);
            self.pos = self.entries.len();
            assert(self.entries@.map_values(|s: String| s@) =~= before.map_values(
                |s: String| s@,
            ).push(s@));
        }
    }

    /// Steps back to the previous entry and returns it.
    pub fn prev(&mut self) -> (r: Option<String>)
        requires
            history_wf(old(self)@),
        ensures
            final(self)@ == spec_prev(old(self)@).0,
            match r {
                Some(s) => spec_prev(old(self)@).1 == Some(s@),
                None => spec_prev(old(self)@).1.is_none(),
            },
            history_wf(final(self)@),
    {
        if self.pos > 0 {
            self.pos = self.pos - 1;
            let s = self.entries[self.pos].clone();
            assert(self@.entries[self.pos as int] == self.entries@[self.pos as int]@);
            Some(s)
        } else {
            None
        }
    }

    /// Steps forward to the next entry and returns it; past the last entry
    /// it returns `None`.
    pub fn next(&mut self) -> (r: Option<String>)
        requires
            history_wf(old(self)@),
        ensures
            final(self)@ == spec_next(old(self)@).0,
            match r {
                Some(s) => spec_next(old(self)@).1 == Some(s@),
                None => spec_next(old(self)@).1.is_none(),
            },
            history_wf(final(self)@),
    {
        if self.pos < self.entries.len() {
            self.pos = self.pos + 1;
            if self.pos == self.entries.len() {
                None
            } else {
                let s = self.entries[self.pos].clone();
                assert(self@.entries[self.pos as int] == self.entries@[self.pos as int]@);
                Some(s)
            }
        } else {
            None
        }
    }

    /// The number of entries.
    pub fn size(&self) -> (n: usize)
        ensures
            n == self@.entries.len(),
    {
        self.entries.len()
    }

    /// Turns recording on.
    pub fn enable(&mut self)
        ensures
            final(self)@ == (HistoryView { enabled: true, ..old(self)@ }),
    {
        self.enabled = true;
    }

    /// Turns recording off.
    pub fn disable(&mut self)
        ensures
            final(self)@ == (HistoryView { enabled: false, ..old(self)@ }),
    {
        self.enabled = false;
    }
}

impl Default for History {
    fn default() -> (h: History)
        ensures
            h@.entries.len() == 0,
            h@.pos == 0,
            !h@.enabled,
    {
        History { entries: Vec::new(), pos: 0, enabled: false }
    }
}

/// `std::io::Error`, carried by `ReadlineError::Io`.
#[verifier::external_type_specification]
#[verifier::external_body]
pub struct ExIoError(std::io::Error);

/// Why reading a line ended without a line.
#[derive(Debug)]
pub enum ReadlineError {
    Interrupted,
    Eof,
    Io(std::io::Error),
}

/// Two errors are equal when both are interrupts or both are end of input;
/// input errors are never equal.
pub open spec fn readline_error_eq(a: &ReadlineError, b: &ReadlineError) -> bool {
    (a is Interrupted && b is Interrupted) || (a is Eof && b is Eof)
}

impl PartialEq for ReadlineError {
    fn eq(&self, other: &Self) -> (r: bool) {
        match (self, other) {
            (ReadlineError::Interrupted, ReadlineError::Interrupted) => true,
            (ReadlineError::Eof, ReadlineError::Eof) => true,
            _ => false,
        }
    }
}

impl vstd::std_specs::cmp::PartialEqSpecImpl for ReadlineError {
    open spec fn obeys_eq_spec() -> bool {
        true
    }

    open spec fn eq_spec(&self, other: &ReadlineError) -> bool {
        readline_error_eq(self, other)
    }
}

/// `ToString::to_string` of an I/O error: its message.
#[verifier::external_body]
fn io_error_message(e: &std::io::Error) -> String {
    e.to_string()
}

impl ReadlineError {
    /// The message for the error: `interrupted`, `eof`, or the message of
    /// the input error.
    pub fn to_string(&self) -> (s: String)
        ensures
            self is Interrupted ==> s@ == seq!['i', 'n', 't', 'e', 'r', 'r', 'u', 'p', 't', 'e', 'd'],
            self is Eof ==> s@ == seq!['e', 'o', 'f'],
    {
        match self {
            ReadlineError::Interrupted => {
                let v: Vec<char> = vec!['i', 'n', 't', 'e', 'r', 'r', 'u', 'p', 't', 'e', 'd'];
                string_from(&v)
            },
            ReadlineError::Eof => {
                let v: Vec<char> = vec!['e', 'o', 'f'];
                string_from(&v)
            },
            ReadlineError::Io(e) => io_error_message(e),
        }
    }
}

/// The key of a key press.
#[derive(Debug, Clone, Copy, PartialEq, Eq)]
pub enum KeyCode {
    Char(char),
    Backspace,
    Delete,
    Left,
    Right,
    Up,
    Down,
    Enter,
    Other,
}

/// A key press: the key, and whether exactly Control was held or no
/// modifier at all.
#[derive(Debug, Clone, Copy, PartialEq, Eq)]
pub struct KeyPress {
    pub code: KeyCode,
    pub control_only: bool,
    pub no_modifiers: bool,
}

/// What a key press leads to.
#[derive(Debug, PartialEq, Eq)]
pub enum Action {
    /// Keep reading keys.
    Continue,
    /// The line is complete.
    Line(String),
    /// Control-C.
    Interrupted,
    /// End of input.
    Eof,
}

/// A line reader: the prompt, the history of entered lines, and whether a
/// paste is in progress.
pub struct Instance {
    pub prompt: Prompt,
    pub history: History,
    pub pasting: bool,
}

/// The outcome of a key press on the buffer and history: the buffer and
/// history after it, and the line, interrupt or end of input it ends with.
pub open spec fn spec_handle_key(b: BufferView, h: HistoryView, k: KeyPress) -> (
    BufferView,
    HistoryView,
    Option<Result<Seq<char>, bool>>,
) {
    match k.code {
        KeyCode::Char(c) if c == 'c' && k.control_only => (b, h, Some(Err(true))),
        KeyCode::Char(c) if c == 'd' && k.control_only => if b.chars.len() == 0 {
            (b, h, Some(Err(false)))
        } else {
            (b, h, None)
        },
        KeyCode::Char(c) if k.no_modifiers => (spec_add(b, c), h, None),
        KeyCode::Backspace => (spec_remove(b), h, None),
        KeyCode::Delete => if b.chars.len() == 0 {
            (b, h, Some(Err(false)))
        } else {
            (spec_delete(b), h, None)
        },
        KeyCode::Left => (spec_move_left(b), h, None),
        KeyCode::Right => (spec_move_right(b), h, None),
        KeyCode::Up => match spec_prev(h).1 {
            Some(line) => (BufferView { chars: line, pos: line.len() }, spec_prev(h).0, None),
            None => (b, spec_prev(h).0, None),
        },
        KeyCode::Down => match spec_next(h).1 {
            Some(line) => (BufferView { chars: line, pos: line.len() }, spec_next(h).0, None),
            None => (BufferView { chars: Seq::empty(), pos: 0 }, spec_next(h).0, None),
        },
        KeyCode::Enter => (
            b,
            if b.chars.len() != 0 { spec_history_add(h, b.chars) } else { h },
            Some(Ok(b.chars)),
        ),
        _ => (b, h, None),
    }
}

impl Instance {
    /// A reader with the given prompt and an empty, recording history.
    pub fn new(prompt: Prompt) -> (i: Instance)
        ensures
            i.prompt == prompt,
            i.history@.entries.len() == 0,
            i.history@.pos == 0,
            i.history@.enabled,
            !i.pasting,
    {
        Instance { prompt, history: History::new(), pasting: false }
    }

    /// Applies one key press to the line being edited in `buf`: edits,
    /// browses the history, or ends the line (recording it when it is not
    /// empty), an interrupt or end of input.
    pub fn handle_key(&mut self, buf: &mut Buffer, key: KeyPress) -> (a: Action)
        requires
            buffer_wf(old(buf)@),
            history_wf(old(self).history@),
            old(buf)@.chars.len() < usize::MAX,
        ensures
            buffer_wf(final(buf)@),
            history_wf(final(self).history@),
            ({
                let (b, h, out) = spec_handle_key(old(buf)@, old(self).history@, key);
                &&& final(buf)@ == b
                &&& final(self).history@ == h
                &&& match out {
                    None => a == Action::Continue,
                    Some(Err(true)) => a == Action::Interrupted,
                    Some(Err(false)) => a == Action::Eof,
                    Some(Ok(line)) => a matches Action::Line(l) && l@ == line,
                }
            }),
            final(self).prompt == old(self).prompt,
            final(self).pasting == old(self).pasting,
    {
        match key.code {
            KeyCode::Char(c) if c == 'c' && key.control_only => Action::Interrupted,
            KeyCode::Char(c) if c == 'd' && key.control_only => {
                if buf.is_empty() {
                    Action::Eof
                } else {
                    Action::Continue
                }
            },
            KeyCode::Char(c) if key.no_modifiers => {
                buf.add(c);
                Action::Continue
            },
            KeyCode::Backspace => {
                buf.remove();
                Action::Continue
            },
            KeyCode::Delete => {
                if buf.is_empty() {
                    return Action::Eof;
                }
                buf.delete();
                Action::Continue
            },
            KeyCode::Left => {
                buf.move_left();
                Action::Continue
            },
            KeyCode::Right => {
                buf.move_right();
                Action::Continue
            },
            KeyCode::Up => {
                if let Some(line) = self.history.prev() {
                    let chars = chars_of(line.as_str());
                    buf.replace(&chars);
                }
                Action::Continue
            },
            KeyCode::Down => {
                if let Some(line) = self.history.next() {
                    let chars = chars_of(line.as_str());
                    buf.replace(&chars);
                } else {
                    let empty: Vec<char> = Vec::new();
                    buf.replace(&empty);
                }
                Action::Continue
            },
            KeyCode::Enter => {
                let line = buf.string();
                if !line.as_str().is_empty() {
                    self.history.add(line.clone());
                }
                Action::Line(line)
            },
            _ => Action::Continue,
        }
    }

    /// Turns history recording on.
    pub fn history_enable(&mut self)
        ensures
            final(self).history@ == (HistoryView { enabled: true, ..old(self).history@ }),
            final(self).prompt == old(self).prompt,
    {
        self.history.enable();
    }

    /// Turns history recording off.
    pub fn history_disable(&mut self)
        ensures
            final(self).history@ == (HistoryView { enabled: false, ..old(self).history@ }),
            final(self).prompt == old(self).prompt,
    {
        self.history.disable();
    }
}

/// Law: typing a character and then erasing it with backspace leaves the
/// buffer as it was.
pub proof fn law_add_then_remove(b: BufferView, c: char)
    requires
        buffer_wf(b),
    ensures
        spec_remove(spec_add(b, c)) == b,
{
    assert(b.chars.insert(b.pos as int, c).remove(b.pos as int) =~= b.chars);
}

/// Law: moving left and then right returns the cursor where it was, when
/// it could move left.
pub proof fn law_left_then_right(b: BufferView)
    requires
        buffer_wf(b),
        b.pos > 0,
    ensures
        spec_move_right(spec_move_left(b)) == b,
{
}

/// Law: every edit keeps the cursor within the text.
pub proof fn law_edits_keep_cursor_in_text(b: BufferView, c: char)
    requires
        buffer_wf(b),
    ensures
        buffer_wf(spec_add(b, c)),
        buffer_wf(spec_remove(b)),
        buffer_wf(spec_delete(b)),
        buffer_wf(spec_move_left(b)),
        buffer_wf(spec_move_right(b)),
{
}

/// Law: right after a line is recorded, stepping back in the history gives
/// that line.
pub proof fn law_add_then_prev(h: HistoryView, s: Seq<char>)
    requires
        history_wf(h),
        h.enabled,
    ensures
        spec_prev(spec_history_add(h, s)).1 == Some(s),
{
}

/// Law: stepping back and then forward in the history returns the cursor
/// where it was.
pub proof fn law_prev_then_next(h: HistoryView)
    requires
        history_wf(h),
        h.pos > 0,
    ensures
        spec_next(spec_prev(h).0).0 == h,
{
}

} // verus!
