use todotree::term::{TermMode, TermSession, ECHO, ICANON};

fn initial_mode() -> TermMode {
    TermMode {
        iflag: 0x500,
        oflag: 0x5,
        cflag: 0xbf,
        lflag: ICANON | ECHO | 0x8000,
        line: 0,
        vmin: 1,
        vtime: 0,
        ispeed: 15,
        ospeed: 15,
    }
}

#[test]
fn create_seeds_both_modes_from_the_snapshot() {
    let session = TermSession::create(initial_mode());
    assert_eq!(session.original, initial_mode());
    assert_eq!(session.current, initial_mode());
    assert!(!session.fullscreen);
    assert!(!session.needs_screen_exit());
}

#[test]
fn staging_flips_only_the_named_bits() {
    let session = TermSession::create(initial_mode());
    let mut change = session.begin_change();
    change.set_canonical(false);
    change.set_echo(false);
    assert_eq!(change.staged.lflag, initial_mode().lflag & !(ICANON | ECHO));
    assert_eq!(change.staged.iflag, initial_mode().iflag);
    change.set_canonical(true);
    assert_eq!(change.staged.lflag & ICANON, ICANON);
    assert_eq!(change.staged.lflag & ECHO, 0);
}

#[test]
fn min_read_staging_sets_the_control_byte() {
    let session = TermSession::create(initial_mode());
    let mut change = session.begin_change();
    change.set_min_read_block(false);
    assert_eq!(change.staged.vmin, 0);
    change.set_min_read_block(true);
    assert_eq!(change.staged.vmin, 1);
}

#[test]
fn changes_compose_on_the_current_mode() {
    let mut session = TermSession::create(initial_mode());
    let mut first = session.begin_change();
    first.set_canonical(false);
    session.apply(&first);
    // The next builder starts from what is now active, not from the
    // original snapshot.
    let second = session.begin_change();
    assert_eq!(second.staged, session.current);
    assert_eq!(second.staged.lflag & ICANON, 0);
}

#[test]
fn screen_bytes_follow_the_staged_transition() {
    let session = TermSession::create(initial_mode());
    let mut change = session.begin_change();
    assert!(change.screen_bytes().is_none());
    change.set_alternate_screen(Some(true));
    assert_eq!(change.screen_bytes().unwrap(), b"\x1b[1049h".to_vec());
    change.set_alternate_screen(Some(false));
    assert_eq!(change.screen_bytes().unwrap(), b"\x1b[1049l".to_vec());
}

#[test]
fn teardown_restores_the_original_whatever_happened() {
    let mut session = TermSession::create(initial_mode());
    let mut first = session.begin_change();
    first.set_canonical(false);
    first.set_echo(false);
    first.set_min_read_block(false);
    first.set_alternate_screen(Some(true));
    session.apply(&first);
    assert!(session.needs_screen_exit());
    let mut second = session.begin_change();
    second.set_echo(true);
    session.apply(&second);
    // However many commits ran, teardown hands back the snapshot taken
    // at construction.
    assert_eq!(session.restore_mode(), initial_mode());
}

#[test]
fn screen_state_persists_until_explicitly_changed() {
    let mut session = TermSession::create(initial_mode());
    let mut enter = session.begin_change();
    enter.set_alternate_screen(Some(true));
    session.apply(&enter);
    // A change that stages no screen transition leaves it entered.
    let plain = session.begin_change();
    session.apply(&plain);
    assert!(session.needs_screen_exit());
    let mut leave = session.begin_change();
    leave.set_alternate_screen(Some(false));
    session.apply(&leave);
    assert!(!session.needs_screen_exit());
}
