//! The raw-terminal session controller's state machine: a snapshot of
//! the attributes taken at construction, a staged set of changes that
//! a commit applies atomically, and the teardown decision that always
//! hands back the original snapshot.
//!
//! The attribute system calls and the byte writes themselves happen
//! outside the library; they receive modes and escape sequences from
//! here and report events back.

use vstd::prelude::*;

verus! {

/// The canonical-mode bit of the local-mode word.
pub const ICANON: u32 = 0o000002;

/// The echo bit of the local-mode word.
pub const ECHO: u32 = 0o000010;

/// The terminal attributes the controller reads and writes: the four
/// mode words, the line discipline, the minimum-read and timeout
/// control bytes, and the two speeds.
#[derive(Clone, Copy, PartialEq, Eq, Structural, Debug)]
pub struct TermMode {
    pub iflag: u32,
    pub oflag: u32,
    pub cflag: u32,
    pub lflag: u32,
    pub line: u8,
    pub vmin: u8,
    pub vtime: u8,
    pub ispeed: u32,
    pub ospeed: u32,
}

/// A staged set of attribute changes, composed on top of whatever was
/// current when the change began; nothing fires until it is applied.
pub struct TermChange {
    pub staged: TermMode,
    pub fullscreen: Option<bool>,
}

impl TermChange {
    /// Stages canonical mode on or off; pure staging, no effect yet.
    pub fn set_canonical(&mut self, value: bool)
        ensures
            final(self).staged.lflag == if value {
                old(self).staged.lflag | ICANON
            } else {
                old(self).staged.lflag & !ICANON
            },
            final(self).staged == (TermMode { lflag: final(self).staged.lflag, ..old(self).staged }),
            final(self).fullscreen == old(self).fullscreen,
    {
        let ghost l = self.staged.lflag;
        self.staged.lflag = self.staged.lflag & !ICANON;
        if value {
            self.staged.lflag = self.staged.lflag | ICANON;
        }
        proof {
            assert(((l & !0o000002u32) | 0o000002u32) == (l | 0o000002u32)) by (bit_vector);
        }
    }

    /// Stages echo on or off.
    pub fn set_echo(&mut self, value: bool)
        ensures
            final(self).staged.lflag == if value {
                old(self).staged.lflag | ECHO
            } else {
                old(self).staged.lflag & !ECHO
            },
            final(self).staged == (TermMode { lflag: final(self).staged.lflag, ..old(self).staged }),
            final(self).fullscreen == old(self).fullscreen,
    {
        let ghost l = self.staged.lflag;
        self.staged.lflag = self.staged.lflag & !ECHO;
        if value {
            self.staged.lflag = self.staged.lflag | ECHO;
        }
        proof {
            assert(((l & !0o000010u32) | 0o000010u32) == (l | 0o000010u32)) by (bit_vector);
        }
    }

    /// Stages the minimum-read control byte: block for at least one
    /// byte, or let a read return empty.
    pub fn set_min_read_block(&mut self, value: bool)
        ensures
            final(self).staged.vmin == if value {
                1u8
            } else {
                0u8
            },
            final(self).staged == (TermMode { vmin: final(self).staged.vmin, ..old(self).staged }),
            final(self).fullscreen == old(self).fullscreen,
    {
        self.staged.vmin = if value {
            1
        } else {
            0
        };
    }

    /// Stages an alternate-screen transition; leaving it unset keeps
    /// the screen state as it is.
    pub fn set_alternate_screen(&mut self, value: Option<bool>)
        ensures
            final(self).fullscreen == value,
            final(self).staged == old(self).staged,
    {
        self.fullscreen = value;
    }

    /// The escape sequence the staged screen transition calls for:
    /// the enter sequence, the leave sequence, or none at all.
    pub fn screen_bytes(&self) -> (r: Option<Vec<u8>>)
        ensures
            match self.fullscreen {
                Some(true) => r is Some && r.unwrap()@ == enter_screen_seq(),
                Some(false) => r is Some && r.unwrap()@ == leave_screen_seq(),
                None => r is None,
            },
    {
        match self.fullscreen {
            Some(true) => Some(enter_screen_bytes()),
            Some(false) => Some(leave_screen_bytes()),
            None => None,
        }
    }
}

/// The session's record of the terminal: the attributes captured at
/// construction, the attributes now applied, and whether the alternate
/// screen is entered. The original is never touched after
/// construction; it is what teardown restores.
pub struct TermSession {
    pub original: TermMode,
    pub current: TermMode,
    pub fullscreen: bool,
}

impl TermSession {
    /// A session over a terminal whose attributes were just read:
    /// the snapshot seeds both the restore target and the current
    /// state, with the alternate screen not entered.
    pub fn create(initial: TermMode) -> (r: TermSession)
        ensures
            r.original == initial,
            r.current == initial,
            !r.fullscreen,
    {
        TermSession { original: initial, current: initial, fullscreen: false }
    }

    /// Begins a change: the staged attributes start from the current
    /// ones, so staged changes compose with what is already active.
    pub fn begin_change(&self) -> (r: TermChange)
        ensures
            r.staged == self.current,
            r.fullscreen is None,
    {
        TermChange { staged: self.current, fullscreen: None }
    }

    /// Records a committed change, once the caller has written the
    /// escape sequence and applied the staged attributes: the current
    /// mode becomes the staged one, the screen state follows an
    /// explicit transition, and the original is untouched.
    pub fn apply(&mut self, change: &TermChange)
        ensures
            final(self).original == old(self).original,
            final(self).current == change.staged,
            final(self).fullscreen == (match change.fullscreen {
                Some(f) => f,
                None => old(self).fullscreen,
            }),
    {
        self.current = change.staged;
        match change.fullscreen {
            Some(f) => {
                self.fullscreen = f;
            },
            None => {},
        }
    }

    /// The attributes teardown must hand back: always the snapshot
    /// captured at construction, however many commits have happened.
    pub fn restore_mode(&self) -> (r: TermMode)
        ensures
            r == self.original,
    {
        self.original
    }

    /// Whether teardown must also write the alternate-screen leave
    /// sequence.
    pub fn needs_screen_exit(&self) -> (r: bool)
        ensures
            r == self.fullscreen,
    {
        self.fullscreen
    }
}

/// The alternate-screen enter sequence, `ESC [ 1 0 4 9 h`.
pub open spec fn enter_screen_seq() -> Seq<u8> {
    seq![0x1bu8, 0x5bu8, 0x31u8, 0x30u8, 0x34u8, 0x39u8, 0x68u8]
}

/// The alternate-screen leave sequence, `ESC [ 1 0 4 9 l`.
pub open spec fn leave_screen_seq() -> Seq<u8> {
    seq![0x1bu8, 0x5bu8, 0x31u8, 0x30u8, 0x34u8, 0x39u8, 0x6cu8]
}

/// The clear-screen and cursor-home sequence, `ESC [ 2 J ESC [ 1 ; 1 H`.
pub open spec fn clear_home_seq() -> Seq<u8> {
    seq![0x1bu8, 0x5bu8, 0x32u8, 0x4au8, 0x1bu8, 0x5bu8, 0x31u8, 0x3bu8, 0x31u8, 0x48u8]
}

/// The alternate-screen enter sequence as bytes to write.
pub fn enter_screen_bytes() -> (r: Vec<u8>)
    ensures
        r@ == enter_screen_seq(),
{
    let mut v: Vec<u8> = Vec::new();
    v.push(0x1b);
    v.push(0x5b);
    v.push(0x31);
    v.push(0x30);
    v.push(0x34);
    v.push(0x39);
    v.push(0x68);
    proof {
        assert(v@ =~= enter_screen_seq());
    }
    v
}

/// The alternate-screen leave sequence as bytes to write.
pub fn leave_screen_bytes() -> (r: Vec<u8>)
    ensures
        r@ == leave_screen_seq(),
{
    let mut v: Vec<u8> = Vec::new();
    v.push(0x1b);
    v.push(0x5b);
    v.push(0x31);
    v.push(0x30);
    v.push(0x34);
    v.push(0x39);
    v.push(0x6c);
    proof {
        assert(v@ =~= leave_screen_seq());
    }
    v
}

/// The clear-screen and cursor-home sequence as bytes to write.
pub fn clear_home_bytes() -> (r: Vec<u8>)
    ensures
        r@ == clear_home_seq(),
{
    let mut v: Vec<u8> = Vec::new();
    v.push(0x1b);
    v.push(0x5b);
    v.push(0x32);
    v.push(0x4a);
    v.push(0x1b);
    v.push(0x5b);
    v.push(0x31);
    v.push(0x3b);
    v.push(0x31);
    v.push(0x48);
    proof {
        assert(v@ =~= clear_home_seq());
    }
    v
}

/// The session state after one committed change.
pub open spec fn apply_spec(s: TermSession, c: TermChange) -> TermSession {
    TermSession {
        original: s.original,
        current: c.staged,
        fullscreen: match c.fullscreen {
            Some(f) => f,
            None => s.fullscreen,
        },
    }
}

/// The session state after a whole run of committed changes, starting
/// from the snapshot taken at construction.
pub open spec fn run_spec(initial: TermMode, changes: Seq<TermChange>) -> TermSession
    decreases changes.len(),
{
    if changes.len() == 0 {
        TermSession { original: initial, current: initial, fullscreen: false }
    } else {
        apply_spec(run_spec(initial, changes.drop_last()), changes.last())
    }
}

/// However many changes a session commits, the mode its teardown
/// restores is the one captured at construction.
pub proof fn lemma_teardown_restores(initial: TermMode, changes: Seq<TermChange>)
    ensures
        run_spec(initial, changes).original == initial,
    decreases changes.len(),
{
    if changes.len() != 0 {
        lemma_teardown_restores(initial, changes.drop_last());
    }
}

} // verus!
