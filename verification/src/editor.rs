//! A terminal text editor's screen and key handling.

use vstd::prelude::*;
use crate::text::{append_str, chars_of, repeat_char, repeat_spec, string_of};

verus! {

/// A key press, as far as the editor reads it: the character typed, if
/// any, and whether Control was the only modifier held.
#[derive(Debug, Clone, Copy, PartialEq, Eq, Structural)]
pub struct KeyPress {
    pub ch: Option<char>,
    pub ctrl_only: bool,
}

/// A terminal event: a key press or anything else.
#[derive(Debug, Clone, Copy, PartialEq, Eq, Structural)]
pub enum InputEvent {
    Key(KeyPress),
    Other,
}

/// What the screen shows next.
#[derive(Debug)]
pub enum Frame {
    /// The screen is cleared and a farewell printed.
    Goodbye,
    /// These rows are drawn, each after clearing its line, separated by
    /// line breaks, and the cursor goes to the top left corner.
    Rows(Vec<String>),
}

/// The editor's state.
pub struct Editor {
    should_quit: bool,
}

/// The welcome line in a terminal `width` columns wide: the editor's name
/// and version, centred (one column left of centre), cut to the width.
pub open spec fn welcome_spec(name: Seq<char>, version: Seq<char>, width: nat) -> Seq<char> {
    let msg = name + " editor -- version "@ + version;
    let padding = if width > msg.len() {
        ((width - msg.len()) / 2) as nat
    } else {
        0nat
    };
    let spaces = if padding > 0 {
        (padding - 1) as nat
    } else {
        0nat
    };
    let line = repeat_spec(' ', spaces) + msg;
    if line.len() > width {
        line.subrange(0, width as int)
    } else {
        line
    }
}

/// Control-Q.
pub open spec fn is_quit_key(e: InputEvent) -> bool {
    e == InputEvent::Key(KeyPress { ch: Some('q'), ctrl_only: true })
}

/// Whether the editor is to stop after event `e`, having been to stop
/// before exactly when `quit`.
pub open spec fn next_quit(quit: bool, e: InputEvent) -> bool {
    quit || is_quit_key(e)
}

/// The rows of a terminal `height` rows high: a tilde on each, but the
/// welcome line a third of the way down.
pub open spec fn rows_spec(name: Seq<char>, version: Seq<char>, width: nat, height: nat) -> Seq<
    Seq<char>,
> {
    Seq::new(
        height,
        |r: int|
            if r == height / 3 {
                welcome_spec(name, version, width)
            } else {
                "~"@
            },
    )
}

impl Editor {
    /// A running editor.
    pub fn default() -> (res: Self)
        ensures
            !res.quitting(),
    {
        Self { should_quit: false }
    }

    pub closed spec fn quitting(&self) -> bool {
        self.should_quit
    }

    /// Whether the editor is to stop.
    pub fn should_quit(&self) -> (res: bool)
        ensures
            res == self.quitting(),
    {
        self.should_quit
    }

    /// Reacts to an event: Control-Q asks the editor to stop.
    pub fn evaluate_event(&mut self, event: &InputEvent)
        ensures
            final(self).quitting() == next_quit(old(self).quitting(), *event),
    {
        match event {
            InputEvent::Key(k) => {
                if k.ctrl_only {
                    match k.ch {
                        Some(c) => {
                            if c == 'q' {
                                self.should_quit = true;
                            }
                        },
                        None => {},
                    }
                }
            },
            InputEvent::Other => {},
        }
    }

    /// What the screen shows for a terminal of `width` columns and
    /// `height` rows.
    pub fn frame(&self, width: u16, height: u16, name: &str, version: &str) -> (res: Frame)
        ensures
            self.quitting() ==> res is Goodbye,
            !self.quitting() ==> (res matches Frame::Rows(rows) && rows@.map_values(|s: String| s@)
                == rows_spec(name@, version@, width as nat, height as nat)),
    {
        if self.should_quit {
            return Frame::Goodbye;
        }
        let welcome = welcome_message(name, version, width);
        let ghost want = rows_spec(name@, version@, width as nat, height as nat);
        let mut rows: Vec<String> = Vec::new();
        let mut r: u16 = 0;
        while r < height
            invariant
                r <= height,
                welcome@ == welcome_spec(name@, version@, width as nat),
                want == rows_spec(name@, version@, width as nat, height as nat),
                rows@.map_values(|s: String| s@) == want.subrange(0, r as int),
            decreases height - r,
        {
            let ghost before = rows@;
            if r == height / 3 {
                rows.push(welcome.clone());
            } else {
                rows.push(String::from_str("~"));
            }
            assert(rows@ == before.push(rows@.last()));
            assert(rows@.last()@ == want[r as int]);
            assert(before.push(rows@.last()).map_values(|s: String| s@) =~= before.map_values(
                |s: String| s@,
            ).push(rows@.last()@));
            assert(want.subrange(0, r + 1) =~= want.subrange(0, r as int).push(want[r as int]));
            r += 1;
        }
        assert(want.subrange(0, height as int) =~= want);
        Frame::Rows(rows)
    }
}

/// The welcome line for a terminal `width` columns wide.
pub fn welcome_message(name: &str, version: &str, width: u16) -> (res: String)
    ensures
        res@ == welcome_spec(name@, version@, width as nat),
{
    let mut msg = name.to_owned();
    append_str(&mut msg, " editor -- version ");
    append_str(&mut msg, version);
    let len = chars_of(msg.as_str()).len();
    let w = width as usize;
    let padding = if w > len {
        (w - len) / 2
    } else {
        0
    };
    let spaces = if padding > 0 {
        padding - 1
    } else {
        0
    };
    let mut line = repeat_char(' ', spaces);
    append_str(&mut line, msg.as_str());
    let cs = chars_of(line.as_str());
    if cs.len() > w {
        string_of(cs.as_slice(), 0, w)
    } else {
        line
    }
}

} // verus!
