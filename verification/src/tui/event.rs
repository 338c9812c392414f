//! Keys and mouse events of the user, and the commands that they make up.
use crate::text::{
    copy_range, numbers_end, numeric_prefix, parse_int_spec, parse_signed, string_of,
};
use std::collections::VecDeque;
use vstd::prelude::*;

verus! {

/// The number of characters at which a command that was not understood
/// is given up.
pub const BUFFER_MAX_SIZE: usize = 8;

#[derive(Copy, Clone, Debug, PartialEq, Eq, Structural)]
pub enum SearchTarget {
    Nothing,
    Signal,
    Event,
}

/// What the user asks for.
#[derive(Debug, PartialEq)]
pub enum Event {
    Nothing,
    Quit,
    Left,
    Right,
    Up,
    Down,
    ZoomIn,
    ZoomOut,
    ZoomFit,
    CenterWindow,
    GotoTop,
    GotoLast,
    GotoNextRisingEdge,
    GotoPreviousRisingEdge,
    GotoNextFallingEdge,
    GotoFirstEvent,
    GotoLastEvent,
    GotoZero,
    StartVisualMode,
    FitToSelection,
    StopVisualMode,
    Edit,
    PageDown,
    PageUp,
    PasteAfter,
    PasteBefore,
    Yank,
    Delete,
    Search(SearchTarget, String),
    SearchNext,
    SearchPrev,
    SetCursorVertical(u16),
    SetCursorHorizontal(u16),
    Undo,
    Redo,
    ShowClipboard,
}

/// The mathematical value of an `Event`.
pub enum EventView {
    Nothing,
    Quit,
    Left,
    Right,
    Up,
    Down,
    ZoomIn,
    ZoomOut,
    ZoomFit,
    CenterWindow,
    GotoTop,
    GotoLast,
    GotoNextRisingEdge,
    GotoPreviousRisingEdge,
    GotoNextFallingEdge,
    GotoFirstEvent,
    GotoLastEvent,
    GotoZero,
    StartVisualMode,
    FitToSelection,
    StopVisualMode,
    Edit,
    PageDown,
    PageUp,
    PasteAfter,
    PasteBefore,
    Yank,
    Delete,
    Search(SearchTarget, Seq<char>),
    SearchNext,
    SearchPrev,
    SetCursorVertical(u16),
    SetCursorHorizontal(u16),
    Undo,
    Redo,
    ShowClipboard,
}

#[derive(Copy, Clone, Debug, PartialEq, Eq, Structural)]
pub enum InputMode {
    Command,
    Visual,
    Search(SearchTarget),
}

/// A key of the keyboard.
#[derive(Copy, Clone, Debug, PartialEq, Eq, Structural)]
pub enum Key {
    Backspace,
    Left,
    Right,
    Up,
    Down,
    Home,
    End,
    PageUp,
    PageDown,
    Delete,
    Esc,
    Char(char),
    Other,
}

/// A button of the mouse.
#[derive(Copy, Clone, Debug, PartialEq, Eq, Structural)]
pub enum MouseButton {
    Left,
    Right,
    Middle,
    WheelUp,
    WheelDown,
}

/// What came in from the terminal: a key, or the mouse at a column and a
/// row.
#[derive(Copy, Clone, Debug, PartialEq, Eq, Structural)]
pub enum Input {
    Key(Key),
    Press(MouseButton, u16, u16),
    Release(u16, u16),
    Hold(u16, u16),
    Other,
}

/// Collects what the user types and turns it into events.
pub struct Events {
    pub buffer: Vec<char>,
    pub previous_buffer: Vec<char>,
    pub events: VecDeque<Event>,
    pub mode: InputMode,
}

/// The mathematical value of `Events`.
pub struct EventsView {
    pub buffer: Seq<char>,
    pub previous: Seq<char>,
    pub queue: Seq<EventView>,
    pub mode: InputMode,
}

impl View for Event {
    type V = EventView;

    open spec fn view(&self) -> EventView {
        match self {
            Event::Nothing => EventView::Nothing,
            Event::Quit => EventView::Quit,
            Event::Left => EventView::Left,
            Event::Right => EventView::Right,
            Event::Up => EventView::Up,
            Event::Down => EventView::Down,
            Event::ZoomIn => EventView::ZoomIn,
            Event::ZoomOut => EventView::ZoomOut,
            Event::ZoomFit => EventView::ZoomFit,
            Event::CenterWindow => EventView::CenterWindow,
            Event::GotoTop => EventView::GotoTop,
            Event::GotoLast => EventView::GotoLast,
            Event::GotoNextRisingEdge => EventView::GotoNextRisingEdge,
            Event::GotoPreviousRisingEdge => EventView::GotoPreviousRisingEdge,
            Event::GotoNextFallingEdge => EventView::GotoNextFallingEdge,
            Event::GotoFirstEvent => EventView::GotoFirstEvent,
            Event::GotoLastEvent => EventView::GotoLastEvent,
            Event::GotoZero => EventView::GotoZero,
            Event::StartVisualMode => EventView::StartVisualMode,
            Event::FitToSelection => EventView::FitToSelection,
            Event::StopVisualMode => EventView::StopVisualMode,
            Event::Edit => EventView::Edit,
            Event::PageDown => EventView::PageDown,
            Event::PageUp => EventView::PageUp,
            Event::PasteAfter => EventView::PasteAfter,
            Event::PasteBefore => EventView::PasteBefore,
            Event::Yank => EventView::Yank,
            Event::Delete => EventView::Delete,
            Event::SearchNext => EventView::SearchNext,
            Event::SearchPrev => EventView::SearchPrev,
            Event::Undo => EventView::Undo,
            Event::Redo => EventView::Redo,
            Event::ShowClipboard => EventView::ShowClipboard,
            Event::Search(target, pattern) => EventView::Search(*target, pattern@),
            Event::SetCursorVertical(y) => EventView::SetCursorVertical(*y),
            Event::SetCursorHorizontal(x) => EventView::SetCursorHorizontal(*x),
        }
    }
}

impl Clone for Event {
    fn clone(&self) -> (r: Event)
        ensures
            r@ == self@,
    {
        match self {
            Event::Nothing => Event::Nothing,
            Event::Quit => Event::Quit,
            Event::Left => Event::Left,
            Event::Right => Event::Right,
            Event::Up => Event::Up,
            Event::Down => Event::Down,
            Event::ZoomIn => Event::ZoomIn,
            Event::ZoomOut => Event::ZoomOut,
            Event::ZoomFit => Event::ZoomFit,
            Event::CenterWindow => Event::CenterWindow,
            Event::GotoTop => Event::GotoTop,
            Event::GotoLast => Event::GotoLast,
            Event::GotoNextRisingEdge => Event::GotoNextRisingEdge,
            Event::GotoPreviousRisingEdge => Event::GotoPreviousRisingEdge,
            Event::GotoNextFallingEdge => Event::GotoNextFallingEdge,
            Event::GotoFirstEvent => Event::GotoFirstEvent,
            Event::GotoLastEvent => Event::GotoLastEvent,
            Event::GotoZero => Event::GotoZero,
            Event::StartVisualMode => Event::StartVisualMode,
            Event::FitToSelection => Event::FitToSelection,
            Event::StopVisualMode => Event::StopVisualMode,
            Event::Edit => Event::Edit,
            Event::PageDown => Event::PageDown,
            Event::PageUp => Event::PageUp,
            Event::PasteAfter => Event::PasteAfter,
            Event::PasteBefore => Event::PasteBefore,
            Event::Yank => Event::Yank,
            Event::Delete => Event::Delete,
            Event::SearchNext => Event::SearchNext,
            Event::SearchPrev => Event::SearchPrev,
            Event::Undo => Event::Undo,
            Event::Redo => Event::Redo,
            Event::ShowClipboard => Event::ShowClipboard,
            Event::Search(target, pattern) => Event::Search(*target, pattern.clone()),
            Event::SetCursorVertical(y) => Event::SetCursorVertical(*y),
            Event::SetCursorHorizontal(x) => Event::SetCursorHorizontal(*x),
        }
    }
}

/// The events of a queue.
pub open spec fn event_views(q: Seq<Event>) -> Seq<EventView> {
    Seq::new(q.len(), |i: int| q[i]@)
}

/// The commands without an effect on how keys are read: the one or two
/// characters of each, and the event that it stands for.
pub open spec fn plain_entry(i: int) -> (char, Option<char>, EventView) {
    if i == 0 {
        ('j', None, EventView::Down)
    } else if i == 1 {
        ('k', None, EventView::Up)
    } else if i == 2 {
        ('l', None, EventView::Right)
    } else if i == 3 {
        ('h', None, EventView::Left)
    } else if i == 4 {
        ('q', None, EventView::Quit)
    } else if i == 5 {
        ('-', None, EventView::ZoomOut)
    } else if i == 6 {
        ('+', None, EventView::ZoomIn)
    } else if i == 7 {
        ('=', None, EventView::ZoomFit)
    } else if i == 8 {
        ('z', Some('o'), EventView::ZoomOut)
    } else if i == 9 {
        ('z', Some('i'), EventView::ZoomIn)
    } else if i == 10 {
        ('z', Some('c'), EventView::ZoomFit)
    } else if i == 11 {
        ('w', None, EventView::GotoNextRisingEdge)
    } else if i == 12 {
        ('b', None, EventView::GotoPreviousRisingEdge)
    } else if i == 13 {
        ('e', None, EventView::GotoNextFallingEdge)
    } else if i == 14 {
        ('z', Some('z'), EventView::CenterWindow)
    } else if i == 15 {
        ('g', Some('g'), EventView::GotoTop)
    } else if i == 16 {
        ('G', None, EventView::GotoLast)
    } else if i == 17 {
        ('0', None, EventView::GotoZero)
    } else if i == 18 {
        ('^', None, EventView::GotoFirstEvent)
    } else if i == 19 {
        ('$', None, EventView::GotoLastEvent)
    } else if i == 20 {
        ('o', None, EventView::Edit)
    } else if i == 21 {
        ('d', Some('d'), EventView::Delete)
    } else if i == 22 {
        ('y', Some('y'), EventView::Yank)
    } else if i == 23 {
        ('p', None, EventView::PasteAfter)
    } else if i == 24 {
        ('P', None, EventView::PasteBefore)
    } else if i == 25 {
        ('N', None, EventView::SearchPrev)
    } else if i == 26 {
        ('n', None, EventView::SearchNext)
    } else if i == 27 {
        ('u', None, EventView::Undo)
    } else if i == 28 {
        ('r', None, EventView::Redo)
    } else {
        ('c', None, EventView::ShowClipboard)
    }
}

/// The number of commands without an effect on how keys are read.
pub const PLAIN_COMMANDS: usize = 30;

/// The commands without an effect on how keys are read.
pub fn plain_command(i: usize) -> (r: (char, Option<char>, Event))
    ensures
        r.0 == plain_entry(i as int).0,
        r.1 == plain_entry(i as int).1,
        r.2@ == plain_entry(i as int).2,
{
    if i == 0 {
        ('j', None, Event::Down)
    } else if i == 1 {
        ('k', None, Event::Up)
    } else if i == 2 {
        ('l', None, Event::Right)
    } else if i == 3 {
        ('h', None, Event::Left)
    } else if i == 4 {
        ('q', None, Event::Quit)
    } else if i == 5 {
        ('-', None, Event::ZoomOut)
    } else if i == 6 {
        ('+', None, Event::ZoomIn)
    } else if i == 7 {
        ('=', None, Event::ZoomFit)
    } else if i == 8 {
        ('z', Some('o'), Event::ZoomOut)
    } else if i == 9 {
        ('z', Some('i'), Event::ZoomIn)
    } else if i == 10 {
        ('z', Some('c'), Event::ZoomFit)
    } else if i == 11 {
        ('w', None, Event::GotoNextRisingEdge)
    } else if i == 12 {
        ('b', None, Event::GotoPreviousRisingEdge)
    } else if i == 13 {
        ('e', None, Event::GotoNextFallingEdge)
    } else if i == 14 {
        ('z', Some('z'), Event::CenterWindow)
    } else if i == 15 {
        ('g', Some('g'), Event::GotoTop)
    } else if i == 16 {
        ('G', None, Event::GotoLast)
    } else if i == 17 {
        ('0', None, Event::GotoZero)
    } else if i == 18 {
        ('^', None, Event::GotoFirstEvent)
    } else if i == 19 {
        ('$', None, Event::GotoLastEvent)
    } else if i == 20 {
        ('o', None, Event::Edit)
    } else if i == 21 {
        ('d', Some('d'), Event::Delete)
    } else if i == 22 {
        ('y', Some('y'), Event::Yank)
    } else if i == 23 {
        ('p', None, Event::PasteAfter)
    } else if i == 24 {
        ('P', None, Event::PasteBefore)
    } else if i == 25 {
        ('N', None, Event::SearchPrev)
    } else if i == 26 {
        ('n', None, Event::SearchNext)
    } else if i == 27 {
        ('u', None, Event::Undo)
    } else if i == 28 {
        ('r', None, Event::Redo)
    } else {
        ('c', None, Event::ShowClipboard)
    }
}

/// Whether a text holds a command: its character, or its two characters
/// one after the other.
pub open spec fn holds_command(text: Seq<char>, a: char, b: Option<char>) -> bool {
    match b {
        None => exists|i: int| 0 <= i < text.len() && #[trigger] text[i] == a,
        Some(second) => exists|i: int|
            0 <= i < text.len() - 1 && #[trigger] text[i] == a && text[i + 1] == second,
    }
}

/// The event of the last of the first `n` plain commands that the text
/// holds; `Nothing` where it holds none of them.
pub open spec fn chosen(text: Seq<char>, n: int) -> EventView
    decreases n,
{
    if n <= 0 {
        EventView::Nothing
    } else if holds_command(text, plain_entry(n - 1).0, plain_entry(n - 1).1) {
        plain_entry(n - 1).2
    } else {
        chosen(text, n - 1)
    }
}

impl EventsView {
    /// The state after the buffer was put aside.
    pub open spec fn cleared(self) -> EventsView {
        EventsView { buffer: Seq::empty(), previous: self.buffer, ..self }
    }

    /// The state after an event was queued and the buffer put aside,
    /// which happens outside the search mode only.
    pub open spec fn with_event(self, e: EventView) -> EventsView {
        if self.mode is Search {
            self
        } else {
            (EventsView { queue: self.queue.push(e), ..self }).cleared()
        }
    }

    /// The state after the visual mode was entered or left, and the event
    /// that tells which.
    pub open spec fn toggled(self) -> (EventView, EventsView) {
        if self.mode == InputMode::Visual {
            (EventView::StopVisualMode, EventsView { mode: InputMode::Command, ..self })
        } else {
            (EventView::StartVisualMode, EventsView { mode: InputMode::Visual, ..self })
        }
    }

    /// The commands that a text holds, carried out in the order of the
    /// table, and the event of the last of them. `v` and a space enter or
    /// leave the visual mode; `/` and `f` begin a search; `.` reads the
    /// previous buffer once more, as long as `depth` allows.
    pub open spec fn commands(self, text: Seq<char>, depth: nat) -> (EventView, EventsView)
        decreases depth, 0int,
    {
        let c0 = chosen(text, 30);
        let (c1, s1) = if holds_command(text, 'v', None) {
            self.toggled()
        } else {
            (c0, self)
        };
        let (c2, s2) = if holds_command(text, ' ', None) {
            s1.toggled()
        } else {
            (c1, s1)
        };
        let (c3, s3) = if holds_command(text, '/', None) {
            (
                EventView::Nothing,
                EventsView {
                    mode: InputMode::Search(SearchTarget::Signal),
                    buffer: Seq::empty(),
                    ..s2
                },
            )
        } else {
            (c2, s2)
        };
        let (c4, s4) = if holds_command(text, 'f', None) {
            (
                EventView::Nothing,
                EventsView {
                    mode: InputMode::Search(SearchTarget::Event),
                    buffer: Seq::empty(),
                    ..s3
                },
            )
        } else {
            (c3, s3)
        };
        if holds_command(text, '.', None) {
            let again = EventsView { buffer: s4.previous, ..s4 };
            (
                EventView::Nothing,
                if depth > 0 {
                    again.parsed((depth - 1) as nat).1
                } else {
                    again
                },
            )
        } else {
            (c4, s4)
        }
    }

    /// The state after the buffer was read as a command: a count that
    /// ends at `end`, which is one where it is missing or cannot be read,
    /// and the text of the commands. The event of the last command is queued that many times;
    /// the reading fails where there is no such event or the buffer holds
    /// numbers only.
    pub open spec fn parsed_from(self, end: int, depth: nat) -> (bool, EventsView)
        decreases depth, 1int,
    {
        if !(0 <= end < self.buffer.len()) {
            (false, self)
        } else {
            let repeat = match parse_int_spec(
                self.buffer.take(end),
                true,
                i32::MIN as int,
                i32::MAX as int,
            ) {
                Some(n) => n,
                None => 1,
            };
            let (cmd, after) = self.commands(self.buffer.skip(end), depth);
            if cmd is Nothing {
                (false, after)
            } else {
                (
                    true,
                    EventsView {
                        queue: after.queue + Seq::new(
                            if repeat > 0 {
                                repeat as nat
                            } else {
                                0
                            },
                            |i: int| cmd,
                        ),
                        ..after
                    },
                )
            }
        }
    }

    /// The state after the buffer was read as a command whose count is
    /// the longest prefix of the buffer made of numbers.
    pub open spec fn parsed(self, depth: nat) -> (bool, EventsView)
        decreases depth, 2int,
    {
        self.parsed_from(numbers_end(self.buffer, 0), depth)
    }

    /// The state after a key was pressed.
    pub open spec fn after_key(self, key: Key) -> EventsView {
        match key {
            Key::Up => self.with_event(EventView::Up),
            Key::Down => self.with_event(EventView::Down),
            Key::Left => self.with_event(EventView::Left),
            Key::Right => self.with_event(EventView::Right),
            Key::PageUp => self.with_event(EventView::PageUp),
            Key::PageDown => self.with_event(EventView::PageDown),
            Key::Delete => self.with_event(EventView::Delete),
            Key::Home => self.with_event(EventView::GotoFirstEvent),
            Key::End => self.with_event(EventView::GotoLastEvent),
            Key::Esc => (EventsView { mode: InputMode::Command, ..self }).cleared(),
            Key::Backspace => if self.mode is Search && self.buffer.len() > 0 {
                EventsView { buffer: self.buffer.drop_last(), ..self }
            } else {
                self
            },
            Key::Char(c) => if c == '\n' {
                match self.mode {
                    InputMode::Visual => EventsView {
                        mode: InputMode::Command,
                        queue: self.queue.push(EventView::FitToSelection),
                        buffer: Seq::empty(),
                        ..self
                    },
                    InputMode::Command => EventsView {
                        mode: InputMode::Visual,
                        queue: self.queue.push(EventView::StartVisualMode),
                        buffer: Seq::empty(),
                        ..self
                    },
                    InputMode::Search(target) => EventsView {
                        mode: InputMode::Command,
                        queue: self.queue.push(EventView::Search(target, self.buffer)),
                        buffer: Seq::empty(),
                        ..self
                    },
                }
            } else if !(self.mode is Search) && self.buffer.len() + 1 >= BUFFER_MAX_SIZE {
                EventsView { buffer: Seq::empty(), ..self }
            } else {
                EventsView { buffer: self.buffer.push(c), ..self }
            },
            Key::Other => self,
        }
    }

    /// The state after the mouse was used, which counts outside the
    /// search mode only.
    pub open spec fn after_mouse(self, input: Input) -> EventsView {
        if self.mode is Search {
            self
        } else {
            match input {
                Input::Press(MouseButton::WheelUp, _, _) => self.with_event(EventView::ZoomIn),
                Input::Press(MouseButton::WheelDown, _, _) => self.with_event(EventView::ZoomOut),
                Input::Press(MouseButton::Left, x, y) => (EventsView {
                    queue: self.queue.push(EventView::SetCursorHorizontal(x)).push(
                        EventView::SetCursorVertical(y),
                    ),
                    ..self
                }).cleared(),
                Input::Press(MouseButton::Middle, x, y) => (EventsView {
                    queue: self.queue.push(EventView::SetCursorHorizontal(x)).push(
                        EventView::SetCursorVertical(y),
                    ).push(EventView::PasteBefore),
                    ..self
                }).cleared(),
                Input::Press(MouseButton::Right, x, y) => (EventsView {
                    queue: self.queue.push(EventView::SetCursorHorizontal(x)).push(
                        EventView::SetCursorVertical(y),
                    ).push(EventView::Yank),
                    ..self
                }).cleared(),
                Input::Release(x, _) => if self.mode == InputMode::Visual {
                    (EventsView {
                        mode: InputMode::Command,
                        queue: self.queue.push(EventView::SetCursorHorizontal(x)).push(
                            EventView::FitToSelection,
                        ),
                        ..self
                    }).cleared()
                } else {
                    self
                },
                Input::Hold(x, _) => (EventsView {
                    mode: InputMode::Visual,
                    queue: if self.mode == InputMode::Visual {
                        self.queue.push(EventView::SetCursorHorizontal(x))
                    } else {
                        self.queue.push(EventView::StartVisualMode).push(
                            EventView::SetCursorHorizontal(x),
                        )
                    },
                    ..self
                }).cleared(),
                _ => self,
            }
        }
    }

    /// The state after something came in from the terminal, or nothing:
    /// what came in is taken in, and outside the search mode the buffer is
    /// read as a command and put aside if it was one.
    pub open spec fn updated(self, input: Option<Input>) -> EventsView {
        let taken = match input {
            Some(Input::Key(key)) => self.after_key(key),
            Some(Input::Other) => self,
            Some(mouse) => self.after_mouse(mouse),
            None => self,
        };
        if taken.mode is Search {
            taken
        } else if taken.parsed(1).0 {
            taken.parsed(1).1.cleared()
        } else {
            taken.parsed(1).1
        }
    }
}

impl View for Events {
    type V = EventsView;

    open spec fn view(&self) -> EventsView {
        EventsView {
            buffer: self.buffer@,
            previous: self.previous_buffer@,
            queue: event_views(self.events@),
            mode: self.mode,
        }
    }
}

impl Events {
    /// Creates the state in which nothing was typed yet.
    pub fn new() -> (r: Events)
        ensures
            r@ == (EventsView {
                buffer: Seq::empty(),
                previous: Seq::empty(),
                queue: Seq::empty(),
                mode: InputMode::Command,
            }),
    {
        let r = Events {
            buffer: Vec::new(),
            previous_buffer: Vec::new(),
            events: VecDeque::new(),
            mode: InputMode::Command,
        };
        assert(event_views(r.events@) =~= Seq::<EventView>::empty());
        r
    }

    /// Whether a period is being selected.
    pub fn in_visual_mode(&self) -> (r: bool)
        ensures
            r == (self.mode == InputMode::Visual),
    {
        match self.mode {
            InputMode::Visual => true,
            _ => false,
        }
    }

    /// Whether a search pattern is being typed.
    pub fn in_search_mode(&self) -> (r: bool)
        ensures
            r == self.mode is Search,
    {
        match self.mode {
            InputMode::Search(_) => true,
            _ => false,
        }
    }

    /// What is searched for in the search mode; nothing outside it.
    pub fn get_search_target(&self) -> (r: SearchTarget)
        ensures
            r == match self.mode {
                InputMode::Search(target) => target,
                _ => SearchTarget::Nothing,
            },
    {
        match self.mode {
            InputMode::Search(target) => target,
            _ => SearchTarget::Nothing,
        }
    }

    /// Puts the buffer aside as the previous buffer.
    pub fn clear_buffer(&mut self)
        ensures
            final(self)@ == old(self)@.cleared(),
    {
        self.previous_buffer = copy_range(&self.buffer, 0, self.buffer.len());
        assert(self.buffer@.subrange(0, self.buffer@.len() as int) == self.buffer@);
        self.buffer.clear();
    }

    /// Queues an event.
    fn push(&mut self, e: Event)
        ensures
            final(self)@ == (EventsView { queue: old(self)@.queue.push(e@), ..old(self)@ }),
    {
        self.events.push_back(e);
        assert(event_views(self.events@) =~= event_views(old(self).events@).push(e@));
    }

    /// Queues an event and puts the buffer aside, outside the search
    /// mode.
    fn push_and_clear(&mut self, e: Event)
        ensures
            final(self)@ == old(self)@.with_event(e@),
    {
        if !self.in_search_mode() {
            self.push(e);
            self.clear_buffer();
        }
    }

    /// Enters or leaves the visual mode.
    fn toggle_visual(&mut self) -> (r: Event)
        ensures
            (r@, final(self)@) == old(self)@.toggled(),
    {
        if self.in_visual_mode() {
            self.mode = InputMode::Command;
            Event::StopVisualMode
        } else {
            self.mode = InputMode::Visual;
            Event::StartVisualMode
        }
    }

    /// Tests whether a range of the buffer holds a command.
    fn holds(text: &Vec<char>, a: char, b: Option<char>) -> (r: bool)
        ensures
            r == holds_command(text@, a, b),
    {
        let mut i: usize = 0;
        while i < text.len()
            invariant
                i <= text.len(),
                forall|k: int|
                    0 <= k < i ==> !(#[trigger] text@[k] == a && match b {
                        None => true,
                        Some(second) => k + 1 < text.len() && text@[k + 1] == second,
                    }),
            decreases text.len() - i,
        {
            if text[i] == a {
                match b {
                    None => {
                        return true;
                    },
                    Some(second) => {
                        if i + 1 < text.len() && text[i + 1] == second {
                            return true;
                        }
                    },
                }
            }
            i += 1;
        }
        false
    }

    /// Carries out the commands that a text holds.
    fn run_commands(&mut self, text: &Vec<char>, depth: usize) -> (r: Event)
        ensures
            (r@, final(self)@) == old(self)@.commands(text@, depth as nat),
        decreases depth, 0int,
    {
        let mut cmd = Event::Nothing;
        let mut i: usize = 0;
        while i < PLAIN_COMMANDS
            invariant
                i <= PLAIN_COMMANDS,
                *self == *old(self),
                cmd@ == chosen(text@, i as int),
            decreases PLAIN_COMMANDS - i,
        {
            let (a, b, e) = plain_command(i);
            if Events::holds(text, a, b) {
                cmd = e;
            }
            i += 1;
        }
        if Events::holds(text, 'v', None) {
            cmd = self.toggle_visual();
        }
        if Events::holds(text, ' ', None) {
            cmd = self.toggle_visual();
        }
        if Events::holds(text, '/', None) {
            self.mode = InputMode::Search(SearchTarget::Signal);
            self.buffer.clear();
            cmd = Event::Nothing;
        }
        if Events::holds(text, 'f', None) {
            self.mode = InputMode::Search(SearchTarget::Event);
            self.buffer.clear();
            cmd = Event::Nothing;
        }
        if Events::holds(text, '.', None) {
            self.buffer = copy_range(&self.previous_buffer, 0, self.previous_buffer.len());
            assert(self.previous_buffer@.subrange(0, self.previous_buffer@.len() as int)
                == self.previous_buffer@);
            if depth > 0 {
                let _ = self.parse_at(depth - 1);
            }
            cmd = Event::Nothing;
        }
        cmd
    }

    /// Reads the buffer as a command whose count is the longest prefix of
    /// the buffer made of numbers.
    fn parse_at(&mut self, depth: usize) -> (r: Result<(), ()>)
        ensures
            (r is Ok, final(self)@) == old(self)@.parsed(depth as nat),
        decreases depth, 2int,
    {
        let end = numeric_prefix(&self.buffer);
        self.parse_from(end, depth)
    }

    /// Reads the buffer as a command whose count ends at `end`.
    fn parse_from(&mut self, end: usize, depth: usize) -> (r: Result<(), ()>)
        ensures
            (r is Ok, final(self)@) == old(self)@.parsed_from(end as int, depth as nat),
        decreases depth, 1int,
    {
        let n = self.buffer.len();
        if end >= n {
            return Err(());
        }
        proof {
            assert(self.buffer@.subrange(0, end as int) == self.buffer@.take(end as int));
            assert(self.buffer@.subrange(end as int, n as int) == self.buffer@.skip(end as int));
        }
        let repeat: i64 = match parse_signed(&self.buffer, 0, end) {
            Some(v) => if -2147483648 <= v && v <= 2147483647 {
                v
            } else {
                1
            },
            None => 1,
        };
        proof {
            let prefix = self.buffer@.take(end as int);
            let wide = parse_int_spec(prefix, true, i64::MIN as int, i64::MAX as int);
            let narrow = parse_int_spec(prefix, true, i32::MIN as int, i32::MAX as int);
            assert(narrow is Some ==> wide == narrow);
            assert(wide is Some && i32::MIN <= wide->0 <= i32::MAX ==> narrow == wide);
            assert(repeat == match narrow {
                Some(v) => v,
                None => 1,
            });
        }
        let cmd_buff = copy_range(&self.buffer, end, n);
        let cmd = self.run_commands(&cmd_buff, depth);
        match cmd {
            Event::Nothing => Err(()),
            _ => {
                let ghost before = self@;
                let mut k: i64 = 0;
                while k < repeat
                    invariant
                        0 <= k,
                        repeat > 0 ==> k <= repeat,
                        repeat <= 0 ==> k == 0,
                        self@ == (EventsView {
                            queue: before.queue + Seq::new(k as nat, |i: int| cmd@),
                            ..before
                        }),
                    decreases repeat - k,
                {
                    let ghost queue = self@.queue;
                    self.push(cmd.clone());
                    k += 1;
                    assert(queue.push(cmd@) =~= before.queue + Seq::new(k as nat, |i: int| cmd@));
                }
                proof {
                    if repeat <= 0 {
                        assert(before.queue + Seq::new(0, |i: int| cmd@) =~= before.queue);
                    }
                    let e = cmd@;
                    let count = if repeat > 0 {
                        repeat as nat
                    } else {
                        0
                    };
                    assert(self@.queue =~= before.queue + Seq::new(count, |i: int| e));
                }
                Ok(())
            },
        }
    }

    /// Reads the buffer as a command: a count, then the text of the
    /// commands. The event of the last command that the text holds is
    /// queued as many times as the count tells.
    pub fn parse_buffer(&mut self) -> (r: Result<(), ()>)
        ensures
            (r is Ok, final(self)@) == old(self)@.parsed(1),
    {
        self.parse_at(1)
    }

    /// Reads the buffer as a command whose count ends at `end`: the count,
    /// then the text of the commands. The event of the last command that
    /// the text holds is queued as many times as the count tells.
    pub fn parse_buffer_from(&mut self, end: usize) -> (r: Result<(), ()>)
        ensures
            (r is Ok, final(self)@) == old(self)@.parsed_from(end as int, 1),
    {
        self.parse_from(end, 1)
    }

    /// Takes in a key.
    fn key(&mut self, key: Key)
        ensures
            final(self)@ == old(self)@.after_key(key),
    {
        match key {
            Key::Up => self.push_and_clear(Event::Up),
            Key::Down => self.push_and_clear(Event::Down),
            Key::Left => self.push_and_clear(Event::Left),
            Key::Right => self.push_and_clear(Event::Right),
            Key::PageUp => self.push_and_clear(Event::PageUp),
            Key::PageDown => self.push_and_clear(Event::PageDown),
            Key::Delete => self.push_and_clear(Event::Delete),
            Key::Home => self.push_and_clear(Event::GotoFirstEvent),
            Key::End => self.push_and_clear(Event::GotoLastEvent),
            Key::Esc => {
                self.mode = InputMode::Command;
                self.clear_buffer();
            },
            Key::Backspace => {
                if self.in_search_mode() {
                    let _ = self.buffer.pop();
                }
            },
            Key::Char(c) => {
                if c == '\n' {
                    match self.mode {
                        InputMode::Visual => {
                            self.mode = InputMode::Command;
                            self.push(Event::FitToSelection);
                        },
                        InputMode::Command => {
                            self.mode = InputMode::Visual;
                            self.push(Event::StartVisualMode);
                        },
                        InputMode::Search(target) => {
                            self.mode = InputMode::Command;
                            let pattern = string_of(&self.buffer);
                            self.push(Event::Search(target, pattern));
                        },
                    }
                    self.buffer.clear();
                } else {
                    self.buffer.push(c);
                    if !self.in_search_mode() && self.buffer.len() >= BUFFER_MAX_SIZE {
                        self.buffer.clear();
                    }
                }
            },
            Key::Other => {},
        }
    }

    /// Takes in what the mouse did.
    fn mouse(&mut self, input: Input)
        ensures
            final(self)@ == old(self)@.after_mouse(input),
    {
        if self.in_search_mode() {
            return ;
        }
        match input {
            Input::Press(button, x, y) => {
                match button {
                    MouseButton::WheelUp => {
                        self.push(Event::ZoomIn);
                    },
                    MouseButton::WheelDown => {
                        self.push(Event::ZoomOut);
                    },
                    MouseButton::Left => {
                        self.push(Event::SetCursorHorizontal(x));
                        self.push(Event::SetCursorVertical(y));
                    },
                    MouseButton::Middle => {
                        self.push(Event::SetCursorHorizontal(x));
                        self.push(Event::SetCursorVertical(y));
                        self.push(Event::PasteBefore);
                    },
                    MouseButton::Right => {
                        self.push(Event::SetCursorHorizontal(x));
                        self.push(Event::SetCursorVertical(y));
                        self.push(Event::Yank);
                    },
                }
                self.clear_buffer();
            },
            Input::Release(x, _) => {
                if self.in_visual_mode() {
                    self.mode = InputMode::Command;
                    self.push(Event::SetCursorHorizontal(x));
                    self.push(Event::FitToSelection);
                    self.clear_buffer();
                }
            },
            Input::Hold(x, _) => {
                if !self.in_visual_mode() {
                    self.mode = InputMode::Visual;
                    self.push(Event::StartVisualMode);
                }
                self.push(Event::SetCursorHorizontal(x));
                self.clear_buffer();
            },
            _ => {},
        }
    }

    /// Takes in what came in from the terminal, if anything did, and
    /// outside the search mode reads the buffer as a command.
    pub fn update(&mut self, input: Option<Input>)
        ensures
            final(self)@ == old(self)@.updated(input),
    {
        match input {
            Some(Input::Key(key)) => self.key(key),
            Some(Input::Other) => {},
            Some(mouse) => self.mouse(mouse),
            None => {},
        }
        if !self.in_search_mode() {
            match self.parse_buffer() {
                Ok(()) => self.clear_buffer(),
                Err(()) => {},
            }
        }
    }

    /// Takes the next event out of the queue; `Nothing` where it is empty.
    pub fn get_event(&mut self) -> (r: Event)
        ensures
            old(self)@.queue.len() == 0 ==> r@ == EventView::Nothing && final(self)@ == old(self)@,
            old(self)@.queue.len() > 0 ==> r@ == old(self)@.queue[0] && final(self)@ == (EventsView {
                queue: old(self)@.queue.skip(1),
                ..old(self)@
            }),
    {
        match self.events.pop_front() {
            Some(evt) => {
                assert(event_views(self.events@) =~= event_views(old(self).events@).skip(1));
                evt
            },
            None => Event::Nothing,
        }
    }

    /// What was typed and not yet understood.
    pub fn get_buffer(&self) -> (r: String)
        ensures
            r@ == self.buffer@,
    {
        string_of(&self.buffer)
    }
}

} // verus!
