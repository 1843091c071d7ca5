use vstd::prelude::*;
use vstd::string::StringSliceAdditionalSpecFns;
use crate::output::{WriteRequest, STDERR, error_string};

verus! {

/// The size of the buffer that `cat` reads a file into, one read at a time.
pub const READ_BUFFER_SIZE: usize = 40960;

/// The length of the NUL-terminated string at the start of `bytes`: the
/// index of its first zero byte.
pub fn c_str_len(bytes: &[u8]) -> (len: usize)
    requires
        exists|i: int| 0 <= i < bytes@.len() && bytes@[i] == 0,
    ensures
        len < bytes@.len(),
        bytes@[len as int] == 0,
        forall|j: int| 0 <= j < len ==> bytes@[j] != 0,
{
    let mut offset: usize = 0;
    while bytes[offset] != 0
        invariant
            offset < bytes@.len(),
            forall|j: int| 0 <= j < offset ==> bytes@[j] != 0,
            exists|i: int| offset <= i < bytes@.len() && bytes@[i] == 0,
        decreases bytes@.len() - offset,
    {
        offset = offset + 1;
    }
    offset
}

/// The writes `cat` makes when it cannot open the file `name`:
/// `Error: Cant read the file `, the name, and a newline, all on standard
/// error.
pub fn open_error_notice(name: &[u8]) -> (ws: Vec<WriteRequest>)
    ensures
        ws@.len() == 3,
        ws@[0].writes(STDERR, "Error: Cant read the file ".spec_bytes()),
        ws@[1].writes(STDERR, name@),
        ws@[2].writes(STDERR, "\n".spec_bytes()),
{
    let mut ws: Vec<WriteRequest> = Vec::new();
    ws.push(error_string("Error: Cant read the file "));
    ws.push(WriteRequest::new(STDERR, name));
    ws.push(error_string("\n"));
    ws
}

/// What `cat` waits for.
#[derive(Clone, Copy, Debug, PartialEq, Eq, Structural)]
pub enum CatPhase {
    /// The result of opening the current argument.
    Opening,
    /// The end of the error report for the current argument.
    Reporting,
    /// The result of a read from `fd`.
    Reading { fd: usize },
    /// The end of a write of what was read from `fd`.
    Writing { fd: usize },
    /// The end of closing the current file.
    Closing,
    /// Nothing: the program has ended.
    Finished,
}

/// What happened to the last action.
#[derive(Clone, Copy, Debug, PartialEq, Eq, Structural)]
pub enum CatEvent {
    /// Opening gave this descriptor; a negative one is an error.
    Opened(isize),
    /// A read gave this many bytes.
    ReadBytes(usize),
    /// A report, write or close is done.
    Completed,
}

/// What `cat` does next.
#[derive(Clone, Copy, Debug, PartialEq, Eq, Structural)]
pub enum CatAction {
    /// Open the argument at `index` for reading.
    Open { index: usize },
    /// Report on standard error that the argument at `index` cannot be read
    /// (see `open_error_notice`).
    ReportOpenError { index: usize },
    /// Read up to `capacity` bytes of `fd` into the buffer.
    Read { fd: usize, capacity: usize },
    /// Write the first `len` bytes of the buffer to standard output.
    Write { len: usize },
    /// Close `fd`.
    Close { fd: usize },
    /// End the program with `code`.
    Exit { code: usize },
}

/// The decisions of `cat`: it copies each file named on the command line,
/// from the second argument on, to standard output.
#[derive(Clone, Copy, Debug, PartialEq, Eq, Structural)]
pub struct Cat {
    pub argc: usize,
    pub index: usize,
    pub phase: CatPhase,
}

impl Cat {
    /// The machine's invariant: the current argument is a real one after the
    /// program's name, until the program ends.
    pub open spec fn wf(self) -> bool {
        &&& 1 <= self.index
        &&& !(self.phase is Finished) ==> self.index < self.argc
    }

    /// The machine and action that move on to the argument at `index`: open
    /// it, or end the program with code 0 when there is none.
    pub open spec fn advanced(argc: usize, index: usize) -> (Cat, CatAction) {
        if index < argc {
            (Cat { argc, index, phase: CatPhase::Opening }, CatAction::Open { index })
        } else {
            (Cat { argc, index, phase: CatPhase::Finished }, CatAction::Exit { code: 0 })
        }
    }

    /// The machine for a command line of `argc` arguments and its first
    /// action: open the second argument, or end at once.
    pub fn start(argc: usize) -> (res: (Cat, CatAction))
        ensures
            res.0.wf(),
            res == Self::advanced(argc, 1),
    {
        Self::advance(argc, 1)
    }

    fn advance(argc: usize, index: usize) -> (res: (Cat, CatAction))
        requires
            1 <= index,
        ensures
            res.0.wf(),
            res == Self::advanced(argc, index),
    {
        if index < argc {
            (Cat { argc, index, phase: CatPhase::Opening }, CatAction::Open { index })
        } else {
            (Cat { argc, index, phase: CatPhase::Finished }, CatAction::Exit { code: 0 })
        }
    }

    /// The transition table: the machine and the action that follow the
    /// outcome `event` of the last action, or nothing when the outcome does
    /// not fit what the machine waits for.
    pub open spec fn next(self, event: CatEvent) -> Option<(Cat, CatAction)> {
        match (self.phase, event) {
            (CatPhase::Opening, CatEvent::Opened(fd)) => if fd < 0 {
                Some(
                    (
                        Cat { phase: CatPhase::Reporting, ..self },
                        CatAction::ReportOpenError { index: self.index },
                    ),
                )
            } else {
                Some(
                    (
                        Cat { phase: CatPhase::Reading { fd: fd as usize }, ..self },
                        CatAction::Read { fd: fd as usize, capacity: READ_BUFFER_SIZE },
                    ),
                )
            },
            (CatPhase::Reading { fd }, CatEvent::ReadBytes(n)) => if n > 0 {
                Some((Cat { phase: CatPhase::Writing { fd }, ..self }, CatAction::Write { len: n }))
            } else {
                Some((Cat { phase: CatPhase::Closing, ..self }, CatAction::Close { fd }))
            },
            (CatPhase::Writing { fd }, CatEvent::Completed) => Some(
                (
                    Cat { phase: CatPhase::Reading { fd }, ..self },
                    CatAction::Read { fd, capacity: READ_BUFFER_SIZE },
                ),
            ),
            (CatPhase::Reporting, CatEvent::Completed) => Some(
                Self::advanced(self.argc, (self.index + 1) as usize),
            ),
            (CatPhase::Closing, CatEvent::Completed) => Some(
                Self::advanced(self.argc, (self.index + 1) as usize),
            ),
            _ => None,
        }
    }

    /// Takes the outcome of the last action and gives the next one; `None`,
    /// with the machine unchanged, for an outcome that does not fit what the
    /// machine waits for.
    pub fn step(&mut self, event: CatEvent) -> (action: Option<CatAction>)
        requires
            old(self).wf(),
        ensures
            final(self).wf(),
            match old(self).next(event) {
                Some((next, a)) => *final(self) == next && action == Some(a),
                None => *final(self) == *old(self) && action is None,
            },
    {
        match (self.phase, event) {
            (CatPhase::Opening, CatEvent::Opened(fd)) => {
                if fd < 0 {
                    self.phase = CatPhase::Reporting;
                    Some(CatAction::ReportOpenError { index: self.index })
                } else {
                    self.phase = CatPhase::Reading { fd: fd as usize };
                    Some(CatAction::Read { fd: fd as usize, capacity: READ_BUFFER_SIZE })
                }
            },
            (CatPhase::Reading { fd }, CatEvent::ReadBytes(n)) => {
                if n > 0 {
                    self.phase = CatPhase::Writing { fd };
                    Some(CatAction::Write { len: n })
                } else {
                    self.phase = CatPhase::Closing;
                    Some(CatAction::Close { fd })
                }
            },
            (CatPhase::Writing { fd }, CatEvent::Completed) => {
                self.phase = CatPhase::Reading { fd };
                Some(CatAction::Read { fd, capacity: READ_BUFFER_SIZE })
            },
            (CatPhase::Reporting, CatEvent::Completed) | (CatPhase::Closing, CatEvent::Completed) => {
                let (next, action) = Self::advance(self.argc, self.index + 1);
                *self = next;
                Some(action)
            },
            _ => None,
        }
    }
}

/// Every step keeps the machine's invariant and its argument count, and
/// never goes back to an earlier argument.
pub proof fn lemma_step_keeps_invariant(m: Cat, event: CatEvent)
    requires
        m.wf(),
    ensures
        m.next(event) matches Some((n, a)) ==> n.wf() && n.argc == m.argc && n.index >= m.index,
{
}

/// A file that cannot be opened does not stop `cat`: once the error is
/// reported it goes on with the next argument, or ends with code 0 after the
/// last one.
pub proof fn lemma_open_failure_moves_on(m: Cat, fd: isize)
    requires
        m.wf(),
        m.phase is Opening,
        fd < 0,
    ensures
        m.next(CatEvent::Opened(fd)) matches Some((r, a)) && a == (CatAction::ReportOpenError {
            index: m.index,
        }) && r.next(CatEvent::Completed) == Some(Cat::advanced(m.argc, (m.index + 1) as usize)),
{
}

/// Each read of `n > 0` bytes is copied out whole: the next action writes
/// exactly those `n` bytes, and the one after reads again from the same
/// file; a read of nothing closes the file.
pub proof fn lemma_reads_are_copied(m: Cat, fd: usize, n: usize)
    requires
        m.wf(),
        m.phase == (CatPhase::Reading { fd }),
    ensures
        n > 0 ==> (m.next(CatEvent::ReadBytes(n)) matches Some((w, a)) && a == (CatAction::Write {
            len: n,
        }) && w.next(CatEvent::Completed) == Some(
            (m, CatAction::Read { fd, capacity: READ_BUFFER_SIZE }),
        )),
        n == 0 ==> (m.next(CatEvent::ReadBytes(n)) matches Some((c, a)) && a == (CatAction::Close {
            fd,
        })),
{
}

/// The descriptor that a read or a close acts on.
pub open spec fn action_fd(a: CatAction) -> usize {
    match a {
        CatAction::Read { fd, .. } => fd,
        CatAction::Close { fd } => fd,
        _ => 0,
    }
}

/// Whether the outcome at `i` is a successful open that gave `fd`.
pub open spec fn opened_at(events: Seq<CatEvent>, i: int, fd: usize) -> bool {
    events[i] matches CatEvent::Opened(f) && f >= 0 && f as usize == fd
}

/// Whether the outcome at `i` is a failed open.
pub open spec fn open_failed_at(events: Seq<CatEvent>, i: int) -> bool {
    events[i] matches CatEvent::Opened(f) && f < 0
}

/// A run of `cat` on `argc` arguments that is given the outcomes `events`,
/// one per action: the machine at the end and all the actions, the first
/// one included (the outcome at `i` answers the action at `i`); nothing
/// when an outcome does not fit what the machine waits for.
#[verifier::opaque]
pub open spec fn run(argc: usize, events: Seq<CatEvent>) -> Option<(Cat, Seq<CatAction>)>
    decreases events.len(),
{
    if events.len() == 0 {
        let (m, a) = Cat::advanced(argc, 1);
        Some((m, seq![a]))
    } else {
        match run(argc, events.drop_last()) {
            Some((m, t)) => match m.next(events.last()) {
                Some((n, a)) => Some((n, t.push(a))),
                None => None,
            },
            None => None,
        }
    }
}

/// Whether, just before position `j` of the actions, the file that is being
/// copied was opened at some `o` with descriptor `fd`, and nothing has been
/// opened or closed since.
#[verifier::opaque]
pub open spec fn file_in_use(t: Seq<CatAction>, events: Seq<CatEvent>, j: int, fd: usize) -> bool {
    exists|o: int|
        #![trigger t[o]]
        0 <= o < j && o < events.len() && t[o] is Open && opened_at(events, o, fd) && forall|k: int|
            o < k < j ==> !(t[k] is Open) && !(t[k] is Close)
}

/// Every read and close acts on the descriptor of the file opened last,
/// and no close has come between that open and it.
#[verifier::opaque]
pub open spec fn reads_use_open_file(t: Seq<CatAction>, events: Seq<CatEvent>) -> bool {
    forall|j: int|
        #![trigger t[j]]
        0 <= j < t.len() && (t[j] is Read || t[j] is Close) ==> file_in_use(
            t,
            events,
            j,
            action_fd(t[j]),
        )
}

/// A failed open is followed by the error report and then at once by the
/// next open or the end: its file is never read nor closed.
#[verifier::opaque]
pub open spec fn failed_opens_skipped(t: Seq<CatAction>, events: Seq<CatEvent>) -> bool {
    forall|i: int|
        #![trigger t[i]]
        0 <= i < events.len() && t[i] is Open && open_failed_at(events, i) ==> {
            &&& (i + 1 < t.len() ==> t[i + 1] is ReportOpenError)
            &&& (i + 2 < t.len() ==> t[i + 2] is Open || t[i + 2] is Exit)
        }
}

/// A file opened with descriptor `fd` is closed exactly once before the next
/// open or the end: the action just before them closes `fd`, and no other
/// close comes between.
#[verifier::opaque]
pub open spec fn opened_files_closed(t: Seq<CatAction>, events: Seq<CatEvent>) -> bool {
    forall|i: int, l: int, fd: usize|
        #![trigger t[i], t[l], opened_at(events, i, fd)]
        0 <= i < l < t.len() && t[i] is Open && opened_at(events, i, fd) && (t[l] is Open
            || t[l] is Exit) && (forall|k: int| i < k < l ==> !(t[k] is Open)) ==> t[l - 1] == (
        CatAction::Close { fd }) && forall|k: int| i < k < l - 1 ==> !(t[k] is Close)
}

/// What the last action says of the machine's phase, and of the file in use.
spec fn phase_inv(m: Cat, t: Seq<CatAction>, events: Seq<CatEvent>) -> bool {
    &&& m.wf()
    &&& t.len() == events.len() + 1
    &&& (t.last() is Open <==> m.phase is Opening)
    &&& (t.last() is ReportOpenError <==> m.phase is Reporting)
    &&& (t.last() is Close <==> m.phase is Closing)
    &&& (t.last() is Exit <==> m.phase is Finished)
    &&& (m.phase is Reporting ==> t.len() >= 2 && t[t.len() - 2] is Open && open_failed_at(
        events,
        t.len() - 2,
    ))
    &&& (m.phase matches CatPhase::Reading { fd } ==> t.last() == (CatAction::Read {
        fd,
        capacity: READ_BUFFER_SIZE,
    }) && file_in_use(t, events, t.len() as int, fd))
    &&& (m.phase matches CatPhase::Writing { fd } ==> t.last() is Write && file_in_use(
        t,
        events,
        t.len() as int,
        fd,
    ))
    &&& (m.phase is Closing ==> file_in_use(t, events, t.len() - 1, action_fd(t.last())))
}

spec fn run_inv(m: Cat, t: Seq<CatAction>, events: Seq<CatEvent>) -> bool {
    &&& phase_inv(m, t, events)
    &&& reads_use_open_file(t, events)
    &&& failed_opens_skipped(t, events)
    &&& opened_files_closed(t, events)
}

/// A file in use before `j` stays in use once an action is added, and past
/// the new action when it neither opens nor closes.
proof fn lemma_file_in_use_extends(
    t: Seq<CatAction>,
    events: Seq<CatEvent>,
    a: CatAction,
    e: CatEvent,
    j: int,
    fd: usize,
)
    requires
        file_in_use(t, events, j, fd),
        j <= t.len(),
    ensures
        file_in_use(t.push(a), events.push(e), j, fd),
        j == t.len() && !(a is Open) && !(a is Close) ==> file_in_use(
            t.push(a),
            events.push(e),
            j + 1,
            fd,
        ),
{
    reveal(file_in_use);
    let o = choose|o: int|
        #![trigger t[o]]
        0 <= o < j && o < events.len() && t[o] is Open && opened_at(events, o, fd) && forall|k: int|
            o < k < j ==> !(t[k] is Open) && !(t[k] is Close);
    let t2 = t.push(a);
    let e2 = events.push(e);
    assert(t2[o] == t[o]);
    assert(e2[o] == events[o]);
    assert forall|k: int| o < k < j implies !(t2[k] is Open) && !(t2[k] is Close) by {
        assert(t2[k] == t[k]);
    }
    if j == t.len() && !(a is Open) && !(a is Close) {
        assert forall|k: int| o < k < j + 1 implies !(t2[k] is Open) && !(t2[k] is Close) by {
            if k < j {
                assert(t2[k] == t[k]);
            }
        }
    }
}

/// The file opened at the last action, with a successful outcome, is in use
/// after the action that follows.
proof fn lemma_file_in_use_after_open(
    t: Seq<CatAction>,
    events: Seq<CatEvent>,
    a: CatAction,
    f: isize,
)
    requires
        t.len() == events.len() + 1,
        t.last() is Open,
        f >= 0,
        !(a is Open),
        !(a is Close),
    ensures
        file_in_use(t.push(a), events.push(CatEvent::Opened(f)), t.len() + 1 as int, f as usize),
{
    reveal(file_in_use);
    let t2 = t.push(a);
    let e2 = events.push(CatEvent::Opened(f));
    let o = t.len() - 1;
    assert(t2[o] is Open);
    assert(opened_at(e2, o, f as usize));
    assert forall|k: int| o < k < t.len() + 1 implies !(t2[k] is Open) && !(t2[k] is Close) by {}
}

proof fn lemma_step_phase(m: Cat, t: Seq<CatAction>, events: Seq<CatEvent>, e: CatEvent)
    requires
        phase_inv(m, t, events),
        m.next(e) is Some,
    ensures
        phase_inv(m.next(e).unwrap().0, t.push(m.next(e).unwrap().1), events.push(e)),
{
    let (n, a) = m.next(e).unwrap();
    let t2 = t.push(a);
    let e2 = events.push(e);
    let len = t.len() as int;
    assert(t2.last() == a);
    match (m.phase, e) {
        (CatPhase::Opening, CatEvent::Opened(f)) => {
            if f >= 0 {
                lemma_file_in_use_after_open(t, events, a, f);
            } else {
                assert(t2[len - 1] == t[len - 1]);
                assert(e2[len - 1] == e);
            }
        },
        (CatPhase::Reading { fd }, CatEvent::ReadBytes(nb)) => {
            lemma_file_in_use_extends(t, events, a, e, len, fd);
            assert(t2[len] == a);
        },
        (CatPhase::Writing { fd }, CatEvent::Completed) => {
            lemma_file_in_use_extends(t, events, a, e, len, fd);
        },
        _ => {},
    }
}

proof fn lemma_step_reads(m: Cat, t: Seq<CatAction>, events: Seq<CatEvent>, e: CatEvent)
    requires
        phase_inv(m, t, events),
        reads_use_open_file(t, events),
        m.next(e) is Some,
    ensures
        reads_use_open_file(t.push(m.next(e).unwrap().1), events.push(e)),
{
    reveal(reads_use_open_file);
    let (n, a) = m.next(e).unwrap();
    let t2 = t.push(a);
    let e2 = events.push(e);
    let len = t.len() as int;
    assert forall|j: int| #![trigger t2[j]]
        0 <= j < t2.len() && (t2[j] is Read || t2[j] is Close) implies file_in_use(
        t2,
        e2,
        j,
        action_fd(t2[j]),
    ) by {
        if j < len {
            assert(t2[j] == t[j]);
            lemma_file_in_use_extends(t, events, a, e, j, action_fd(t[j]));
        } else {
            assert(t2[j] == a);
            match (m.phase, e) {
                (CatPhase::Opening, CatEvent::Opened(f)) => {
                    lemma_file_in_use_after_open(t, events, a, f);
                    reveal(file_in_use);
                    let t3 = t2;
                    let o = len - 1;
                    assert(t3[o] is Open);
                    assert(opened_at(e2, o, f as usize));
                },
                (CatPhase::Reading { fd }, CatEvent::ReadBytes(nb)) => {
                    lemma_file_in_use_extends(t, events, a, e, len, fd);
                },
                (CatPhase::Writing { fd }, CatEvent::Completed) => {
                    lemma_file_in_use_extends(t, events, a, e, len, fd);
                },
                _ => {},
            }
        }
    }
}

proof fn lemma_step_failed(m: Cat, t: Seq<CatAction>, events: Seq<CatEvent>, e: CatEvent)
    requires
        phase_inv(m, t, events),
        failed_opens_skipped(t, events),
        m.next(e) is Some,
    ensures
        failed_opens_skipped(t.push(m.next(e).unwrap().1), events.push(e)),
{
    reveal(failed_opens_skipped);
    let (n, a) = m.next(e).unwrap();
    let t2 = t.push(a);
    let e2 = events.push(e);
    let len = t.len() as int;
    assert forall|i: int| #![trigger t2[i]]
        0 <= i < e2.len() && t2[i] is Open && open_failed_at(e2, i) implies {
        &&& (i + 1 < t2.len() ==> t2[i + 1] is ReportOpenError)
        &&& (i + 2 < t2.len() ==> t2[i + 2] is Open || t2[i + 2] is Exit)
    } by {
        assert(t2[i] == t[i]);
        if i == len - 1 {
            assert(e2[i] == e);
            assert(t2[i + 1] == a);
        } else {
            assert(e2[i] == events[i]);
            assert(t2[i + 1] == t[i + 1]);
            if i == len - 2 {
                assert(t.last() is ReportOpenError);
                assert(t2[i + 2] == a);
            } else {
                assert(t2[i + 2] == t[i + 2]);
            }
        }
    }
}

proof fn lemma_step_closed(m: Cat, t: Seq<CatAction>, events: Seq<CatEvent>, e: CatEvent)
    requires
        phase_inv(m, t, events),
        opened_files_closed(t, events),
        m.next(e) is Some,
    ensures
        opened_files_closed(t.push(m.next(e).unwrap().1), events.push(e)),
{
    reveal(opened_files_closed);
    let (n, a) = m.next(e).unwrap();
    let t2 = t.push(a);
    let e2 = events.push(e);
    let len = t.len() as int;
    assert forall|i: int, l: int, fd: usize| #![trigger t2[i], t2[l], opened_at(e2, i, fd)]
        0 <= i < l < t2.len() && t2[i] is Open && opened_at(e2, i, fd) && (t2[l] is Open
            || t2[l] is Exit) && (forall|k: int| i < k < l ==> !(t2[k] is Open)) implies t2[l - 1]
        == (CatAction::Close { fd }) && forall|k: int| i < k < l - 1 ==> !(t2[k] is Close) by {
        assert(t2[i] == t[i]);
        assert(e2[i] == events[i]);
        assert(opened_at(events, i, fd));
        if l < len {
            assert(t2[l] == t[l]);
            assert(t2[l - 1] == t[l - 1]);
            assert forall|k: int| i < k < l implies !(t[k] is Open) by {
                assert(t2[k] == t[k]);
            }
            assert forall|k: int| i < k < l - 1 implies !(t2[k] is Close) by {
                assert(t2[k] == t[k]);
            }
        } else {
            assert(t2[l] == a);
            if m.phase is Reporting {
                assert(i >= len - 2) by {
                    if i < len - 2 {
                        assert(t2[len - 2] == t[len - 2]);
                    }
                }
                assert(t2[len - 1] == t[len - 1]);
                assert(i == len - 2);
                assert(false);
            } else {
                assert(m.phase is Closing);
                let fd0 = action_fd(t.last());
                reveal(file_in_use);
                let o = choose|o: int|
                    #![trigger t[o]]
                    0 <= o < len - 1 && o < events.len() && t[o] is Open && opened_at(
                        events,
                        o,
                        fd0,
                    ) && forall|k: int| o < k < len - 1 ==> !(t[k] is Open) && !(t[k] is Close);
                assert(i == o) by {
                    if i < o {
                        assert(t2[o] == t[o]);
                    } else if i > o {
                        assert(t2[i] == t[i]);
                    }
                }
                assert(t2[l - 1] == t[len - 1]);
                assert forall|k: int| i < k < l - 1 implies !(t2[k] is Close) by {
                    assert(t2[k] == t[k]);
                }
            }
        }
    }
}

proof fn lemma_run_inv(argc: usize, events: Seq<CatEvent>)
    requires
        run(argc, events) is Some,
    ensures
        run_inv(run(argc, events).unwrap().0, run(argc, events).unwrap().1, events),
    decreases events.len(),
{
    reveal(run);
    if events.len() == 0 {
        let t = run(argc, events).unwrap().1;
        assert(t.len() == 1);
        reveal(reads_use_open_file);
        reveal(failed_opens_skipped);
        reveal(opened_files_closed);
    } else {
        let prev = events.drop_last();
        lemma_run_inv(argc, prev);
        let (m, t) = run(argc, prev).unwrap();
        let e = events.last();
        lemma_step_phase(m, t, prev, e);
        lemma_step_reads(m, t, prev, e);
        lemma_step_failed(m, t, prev, e);
        lemma_step_closed(m, t, prev, e);
        assert(prev.push(e) =~= events);
    }
}

/// The first position after `i`, from `j` on, that holds an open or the
/// exit, in actions that end with one.
proof fn lemma_next_boundary(t: Seq<CatAction>, i: int, j: int) -> (l: int)
    requires
        0 <= i < j < t.len(),
        t.last() is Open || t.last() is Exit,
        forall|k: int| i < k < j ==> !(#[trigger] t[k] is Open),
    ensures
        i < l < t.len(),
        t[l] is Open || t[l] is Exit,
        forall|k: int| i < k < l ==> !(#[trigger] t[k] is Open),
    decreases t.len() - j,
{
    if t[j] is Open || t[j] is Exit {
        j
    } else {
        lemma_next_boundary(t, i, j + 1)
    }
}

/// In actions that end with the exit, every file opened with success is
/// closed at some later position.
proof fn lemma_ended_run_closes(t: Seq<CatAction>, events: Seq<CatEvent>)
    requires
        opened_files_closed(t, events),
        t.len() >= 1,
        t.last() is Exit,
    ensures
        forall|i: int, fd: usize|
            #![trigger t[i], opened_at(events, i, fd)]
            0 <= i < t.len() && t[i] is Open && opened_at(events, i, fd) ==> exists|c: int|
                #![trigger t[c]]
                i < c < t.len() && t[c] == (CatAction::Close { fd }),
{
    assert forall|i: int, fd: usize|
        #![trigger t[i], opened_at(events, i, fd)]
        0 <= i < t.len() && t[i] is Open && opened_at(events, i, fd) implies exists|c: int|
        #![trigger t[c]]
        i < c < t.len() && t[c] == (CatAction::Close { fd }) by {
        let l = lemma_next_boundary(t, i, i + 1);
        reveal(opened_files_closed);
        assert(t[l - 1] == (CatAction::Close { fd }));
    }
}

proof fn lemma_run_inv_facts(m: Cat, t: Seq<CatAction>, events: Seq<CatEvent>)
    requires
        run_inv(m, t, events),
    ensures
        t.len() == events.len() + 1,
        m.phase is Finished ==> t.last() is Exit,
        m.phase is Finished ==> forall|i: int, fd: usize|
            #![trigger t[i], opened_at(events, i, fd)]
            0 <= i < t.len() && t[i] is Open && opened_at(events, i, fd) ==> exists|c: int|
                #![trigger t[c]]
                i < c < t.len() && t[c] == (CatAction::Close { fd }),
{
    if m.phase is Finished {
        lemma_ended_run_closes(t, events);
    }
}

/// The argument that an open action opens.
pub open spec fn open_index(a: CatAction) -> int {
    match a {
        CatAction::Open { index } => index as int,
        _ => 0,
    }
}

/// The arguments are opened in order, one after the other, from the second
/// one on: the first open opens argument 1, and each further open opens the
/// argument right after the one the previous open opened.
#[verifier::opaque]
pub open spec fn opens_in_order(t: Seq<CatAction>) -> bool {
    &&& forall|j: int|
        #![trigger t[j]]
        0 <= j < t.len() && t[j] is Open && (forall|k: int| 0 <= k < j ==> !(t[k] is Open))
            ==> open_index(t[j]) == 1
    &&& forall|p: int, j: int|
        #![trigger t[p], t[j]]
        0 <= p < j < t.len() && t[p] is Open && t[j] is Open && (forall|k: int|
            p < k < j ==> !(t[k] is Open)) ==> open_index(t[j]) == open_index(t[p]) + 1
}

/// Every open names a real argument after the program's name.
#[verifier::opaque]
pub open spec fn opens_below(t: Seq<CatAction>, argc: usize) -> bool {
    forall|j: int| #![trigger t[j]] 0 <= j < t.len() && t[j] is Open ==> 1 <= open_index(t[j]) < argc
}

/// Every exit has status 0.
#[verifier::opaque]
pub open spec fn exits_with_zero(t: Seq<CatAction>) -> bool {
    forall|j: int| #![trigger t[j]] 0 <= j < t.len() && t[j] is Exit ==> t[j] == (CatAction::Exit {
        code: 0,
    })
}

/// The argument that the last open opened, or 0 when there was none.
spec fn latest_index(m: Cat) -> int {
    if m.phase is Finished {
        m.index - 1
    } else {
        m.index as int
    }
}

spec fn latest_open(m: Cat, t: Seq<CatAction>) -> bool {
    &&& latest_index(m) == 0 ==> forall|k: int| 0 <= k < t.len() ==> !(#[trigger] t[k] is Open)
    &&& latest_index(m) > 0 ==> exists|o: int|
        #![trigger t[o]]
        0 <= o < t.len() && t[o] == (CatAction::Open { index: latest_index(m) as usize })
            && forall|k: int| o < k < t.len() ==> !(t[k] is Open)
}

spec fn order_inv(m: Cat, t: Seq<CatAction>, argc: usize) -> bool {
    &&& m.argc == argc
    &&& m.wf()
    &&& t.len() >= 1
    &&& m.phase is Finished ==> (m.index == argc || (m.index == 1 && argc <= 1))
    &&& latest_open(m, t)
    &&& opens_in_order(t)
    &&& opens_below(t, argc)
    &&& exits_with_zero(t)
}

proof fn lemma_step_order(m: Cat, t: Seq<CatAction>, argc: usize, e: CatEvent)
    requires
        order_inv(m, t, argc),
        m.next(e) is Some,
    ensures
        order_inv(m.next(e).unwrap().0, t.push(m.next(e).unwrap().1), argc),
{
    reveal(opens_in_order);
    reveal(opens_below);
    reveal(exits_with_zero);
    let (n, a) = m.next(e).unwrap();
    let t2 = t.push(a);
    let len = t.len() as int;
    assert(t2[len] == a);
    assert forall|k: int| 0 <= k < len implies t2[k] == t[k] by {}
    assert(!(m.phase is Finished));
    let o = choose|o: int|
        #![trigger t[o]]
        0 <= o < t.len() && t[o] == (CatAction::Open { index: latest_index(m) as usize })
            && forall|k: int| o < k < t.len() ==> !(t[k] is Open);
    assert(t2[o] == t[o]);
    if a is Open {
        // Moving on to the next argument.
        assert(m.phase is Reporting || m.phase is Closing);
        assert(n.index == m.index + 1);
        assert(a == (CatAction::Open { index: n.index }));
        assert(latest_open(n, t2)) by {
            assert forall|k: int| len < k < t2.len() implies !(t2[k] is Open) by {}
        }
        assert forall|j: int|
            #![trigger t2[j]]
            0 <= j < t2.len() && t2[j] is Open && (forall|k: int| 0 <= k < j ==> !(t2[k] is Open))
                implies open_index(t2[j]) == 1 by {
            if j == len {
                assert(t2[o] is Open);
            }
        }
        assert forall|p: int, j: int|
            #![trigger t2[p], t2[j]]
            0 <= p < j < t2.len() && t2[p] is Open && t2[j] is Open && (forall|k: int|
                p < k < j ==> !(t2[k] is Open)) implies open_index(t2[j]) == open_index(t2[p]) + 1 by {
            if j == len {
                assert(p == o) by {
                    if p < o {
                        assert(t2[o] is Open);
                    } else if p > o {
                        assert(t[p] is Open);
                    }
                }
            } else {
                assert forall|k: int| p < k < j implies !(t[k] is Open) by {
                    assert(t2[k] == t[k]);
                }
                assert(t[p] is Open && t[j] is Open);
            }
        }
    } else {
        assert(latest_index(n) == latest_index(m));
        assert(latest_open(n, t2)) by {
            assert forall|k: int| o < k < t2.len() implies !(t2[k] is Open) by {
                if k < len {
                    assert(t2[k] == t[k]);
                }
            }
        }
        assert forall|j: int|
            #![trigger t2[j]]
            0 <= j < t2.len() && t2[j] is Open && (forall|k: int| 0 <= k < j ==> !(t2[k] is Open))
                implies open_index(t2[j]) == 1 by {
            assert forall|k: int| 0 <= k < j implies !(t[k] is Open) by {
                assert(t2[k] == t[k]);
            }
            assert(t[j] is Open);
        }
        assert forall|p: int, j: int|
            #![trigger t2[p], t2[j]]
            0 <= p < j < t2.len() && t2[p] is Open && t2[j] is Open && (forall|k: int|
                p < k < j ==> !(t2[k] is Open)) implies open_index(t2[j]) == open_index(t2[p]) + 1 by {
            assert forall|k: int| p < k < j implies !(t[k] is Open) by {
                assert(t2[k] == t[k]);
            }
            assert(t[p] is Open && t[j] is Open);
        }
    }
    assert forall|j: int| #![trigger t2[j]] 0 <= j < t2.len() && t2[j] is Open implies 1 <= open_index(
        t2[j],
    ) < argc by {
        if j < len {
            assert(t[j] is Open);
        }
    }
    assert forall|j: int| #![trigger t2[j]] 0 <= j < t2.len() && t2[j] is Exit implies t2[j] == (
    CatAction::Exit { code: 0 }) by {
        if j < len {
            assert(t[j] is Exit);
        }
    }
}

proof fn lemma_run_order(argc: usize, events: Seq<CatEvent>)
    requires
        run(argc, events) is Some,
    ensures
        order_inv(run(argc, events).unwrap().0, run(argc, events).unwrap().1, argc),
    decreases events.len(),
{
    reveal(run);
    if events.len() == 0 {
        let (m, t) = run(argc, events).unwrap();
        assert(t.len() == 1);
        reveal(opens_in_order);
        reveal(opens_below);
        reveal(exits_with_zero);
        if argc > 1 {
            assert(t[0] == (CatAction::Open { index: 1 }));
        }
    } else {
        let prev = events.drop_last();
        lemma_run_order(argc, prev);
        let (m, t) = run(argc, prev).unwrap();
        let e = events.last();
        lemma_step_order(m, t, argc, e);
        assert(prev.push(e) =~= events);
    }
}

proof fn lemma_order_facts(m: Cat, t: Seq<CatAction>, argc: usize)
    requires
        order_inv(m, t, argc),
    ensures
        m.phase is Finished && argc >= 2 ==> exists|j: int|
            #![trigger t[j]]
            0 <= j < t.len() && t[j] == (CatAction::Open { index: (argc - 1) as usize }),
        m.phase is Finished && argc < 2 ==> forall|j: int|
            0 <= j < t.len() ==> !(#[trigger] t[j] is Open),
{
}

/// The arguments that a run of `cat` opens, and how it ends: the opens take
/// the arguments in order, one after the other, starting with argument 1
/// (the one after the program's name), and never name an argument past the
/// last; every exit has status 0. A run that has ended has opened every
/// argument from 1 to `argc - 1`: its last open names argument `argc - 1`,
/// or it opened nothing when there is no argument after the program's name.
pub proof fn lemma_run_opens_every_argument_in_order(argc: usize, events: Seq<CatEvent>)
    requires
        run(argc, events) is Some,
    ensures
        ({
            let (m, t) = run(argc, events).unwrap();
            &&& opens_in_order(t)
            &&& opens_below(t, argc)
            &&& exits_with_zero(t)
            &&& m.phase is Finished && argc >= 2 ==> exists|j: int|
                #![trigger t[j]]
                0 <= j < t.len() && t[j] == (CatAction::Open { index: (argc - 1) as usize })
            &&& m.phase is Finished && argc < 2 ==> forall|j: int|
                0 <= j < t.len() ==> !(#[trigger] t[j] is Open)
        }),
{
    lemma_run_order(argc, events);
    let (m, t) = run(argc, events).unwrap();
    lemma_order_facts(m, t, argc);
}

/// The law of whole runs: in every run of `cat`, each read and each close
/// acts on the descriptor that the last open gave, with no close between
/// them; a failed open is followed by its report and then at once by the
/// next open or the end, so its file is never read nor closed; and each
/// file opened with descriptor `fd` is closed exactly once, by the action
/// just before the next open or the end, so after its last read. When the
/// run has ended, every file opened with success has been closed.
pub proof fn lemma_run_closes_each_file_once(argc: usize, events: Seq<CatEvent>)
    requires
        run(argc, events) is Some,
    ensures
        ({
            let (m, t) = run(argc, events).unwrap();
            &&& t.len() == events.len() + 1
            &&& reads_use_open_file(t, events)
            &&& failed_opens_skipped(t, events)
            &&& opened_files_closed(t, events)
            &&& m.phase is Finished ==> t.last() is Exit
            &&& m.phase is Finished ==> forall|i: int, fd: usize|
                #![trigger t[i], opened_at(events, i, fd)]
                0 <= i < t.len() && t[i] is Open && opened_at(events, i, fd) ==> exists|c: int|
                    #![trigger t[c]]
                    i < c < t.len() && t[c] == (CatAction::Close { fd })
        }),
{
    lemma_run_inv(argc, events);
    let (m, t) = run(argc, events).unwrap();
    lemma_run_inv_facts(m, t, events);
}

} // verus!
