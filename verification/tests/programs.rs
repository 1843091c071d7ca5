use lib::cat::{c_str_len, open_error_notice, Cat, CatAction, CatEvent, CatPhase, READ_BUFFER_SIZE};
use lib::output::{STDERR, STDOUT};
use lib::programs::{argument_listing, last_values_listing, LAST_VALUES_COUNT};

#[test]
fn c_str_len_stops_at_the_first_nul() {
    assert_eq!(c_str_len(b"hello\0world\0"), 5);
    assert_eq!(c_str_len(b"\0"), 0);
}

#[test]
fn open_error_notice_text() {
    let ws = open_error_notice(b"missing.txt");
    assert_eq!(ws.len(), 3);
    assert!(ws.iter().all(|w| w.fd == STDERR));
    let text: Vec<u8> = ws.iter().flat_map(|w| w.bytes.clone()).collect();
    assert_eq!(text, b"Error: Cant read the file missing.txt\n".to_vec());
}

#[test]
fn cat_without_files_exits_at_once() {
    let (m, a) = Cat::start(1);
    assert_eq!(a, CatAction::Exit { code: 0 });
    assert_eq!(m.phase, CatPhase::Finished);
}

#[test]
fn cat_copies_one_file_then_exits() {
    let (mut m, a) = Cat::start(2);
    assert_eq!(a, CatAction::Open { index: 1 });
    assert_eq!(m.step(CatEvent::Opened(3)), Some(CatAction::Read { fd: 3, capacity: READ_BUFFER_SIZE }));
    assert_eq!(m.step(CatEvent::ReadBytes(100)), Some(CatAction::Write { len: 100 }));
    assert_eq!(m.step(CatEvent::Completed), Some(CatAction::Read { fd: 3, capacity: 40960 }));
    assert_eq!(m.step(CatEvent::ReadBytes(0)), Some(CatAction::Close { fd: 3 }));
    assert_eq!(m.step(CatEvent::Completed), Some(CatAction::Exit { code: 0 }));
    assert_eq!(m.phase, CatPhase::Finished);
}

#[test]
fn cat_reports_a_missing_file_and_goes_on() {
    let (mut m, _) = Cat::start(3);
    assert_eq!(m.step(CatEvent::Opened(-2)), Some(CatAction::ReportOpenError { index: 1 }));
    assert_eq!(m.step(CatEvent::Completed), Some(CatAction::Open { index: 2 }));
    assert_eq!(m.index, 2);
    assert_eq!(m.step(CatEvent::Opened(4)), Some(CatAction::Read { fd: 4, capacity: READ_BUFFER_SIZE }));
}

#[test]
fn cat_ignores_an_event_it_does_not_wait_for() {
    let (mut m, _) = Cat::start(2);
    let before = m;
    assert_eq!(m.step(CatEvent::ReadBytes(5)), None);
    assert_eq!(m, before);
    assert_eq!(m.step(CatEvent::Completed), None);
    assert_eq!(m, before);
}

#[test]
fn argument_listing_text() {
    let args = vec![b"argv".to_vec(), b"one".to_vec()];
    let ws = argument_listing(&args);
    assert_eq!(ws.len(), 11);
    assert!(ws.iter().all(|w| w.fd == STDOUT));
    let text: Vec<u8> = ws.iter().flat_map(|w| w.bytes.clone()).collect();
    assert_eq!(text, b"-- argc: 0x2\n0x0: argv\n0x1: one\n".to_vec());
}

#[test]
fn argument_listing_of_nothing() {
    let ws = argument_listing(&Vec::new());
    let text: Vec<u8> = ws.iter().flat_map(|w| w.bytes.clone()).collect();
    assert_eq!(text, b"-- argc: 0x0\n".to_vec());
}

#[test]
fn last_values_listing_text() {
    let ws = last_values_listing();
    assert_eq!(ws.len(), 3 * LAST_VALUES_COUNT);
    let text: Vec<u8> = ws.iter().flat_map(|w| w.bytes.clone()).collect();
    let text = String::from_utf8(text).unwrap();
    let lines: Vec<&str> = text.lines().collect();
    assert_eq!(lines.len(), 11);
    assert_eq!(lines[0], "-- 0xfffffffffffffff5");
    assert_eq!(lines[10], "-- 0xffffffffffffffff");
}

#[test]
fn cat_closes_each_opened_file_once_before_the_next_open() {
    let (mut m, first) = Cat::start(4);
    let mut actions = vec![first];
    let events = [
        CatEvent::Opened(3),
        CatEvent::ReadBytes(10),
        CatEvent::Completed,
        CatEvent::ReadBytes(0),
        CatEvent::Completed,
        CatEvent::Opened(-2),
        CatEvent::Completed,
        CatEvent::Opened(3),
        CatEvent::ReadBytes(0),
        CatEvent::Completed,
    ];
    for e in events {
        actions.push(m.step(e).unwrap());
    }
    assert_eq!(
        actions,
        vec![
            CatAction::Open { index: 1 },
            CatAction::Read { fd: 3, capacity: READ_BUFFER_SIZE },
            CatAction::Write { len: 10 },
            CatAction::Read { fd: 3, capacity: READ_BUFFER_SIZE },
            CatAction::Close { fd: 3 },
            CatAction::Open { index: 2 },
            CatAction::ReportOpenError { index: 2 },
            CatAction::Open { index: 3 },
            CatAction::Read { fd: 3, capacity: READ_BUFFER_SIZE },
            CatAction::Close { fd: 3 },
            CatAction::Exit { code: 0 },
        ]
    );
}
