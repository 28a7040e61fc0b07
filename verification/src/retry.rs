//! What the writer does next: wait and try again while a file is locked, give up
//! after a while, queue what could not be written, drain the queue afterwards.

use crate::csv_writer::RewriteResult;
use crate::csv_writer::WriteResult;
use crate::sorting;
use crate::text;
use vstd::prelude::*;

verus! {

/// How long a locked file is tried: ten seconds.
pub const RETRY_TOTAL_MS: u64 = 10_000;

/// The first wait.
pub const RETRY_INITIAL_MS: u64 = 100;

/// The longest wait.
pub const RETRY_MAX_MS: u64 = 2000;

/// An operating system error says that another program holds the file: a sharing
/// violation or a lock violation. Access denied is none of these: the folder
/// cannot be written, and waiting does not help.
pub open spec fn lock_code(code: Option<i32>) -> bool {
    code == Some(32i32) || code == Some(33i32)
}

/// An operating system error says that another program holds the file.
pub fn is_lock_error(code: Option<i32>) -> (r: bool)
    ensures
        r == lock_code(code),
{
    match code {
        Some(c) => c == 32 || c == 33,
        None => false,
    }
}

/// The wait after `n` others: doubled each time, up to the longest.
pub open spec fn wait_ms(n: nat) -> nat
    decreases n,
{
    if n == 0 {
        RETRY_INITIAL_MS as nat
    } else {
        let w = 2 * wait_ms((n - 1) as nat);
        if w > RETRY_MAX_MS {
            RETRY_MAX_MS as nat
        } else {
            w
        }
    }
}

/// The tries of one operation so far.
#[derive(Debug, Clone, Copy, PartialEq, Eq, Structural)]
pub struct Backoff {
    /// The wait before the next try of a locked file.
    pub next_ms: u64,
    /// A row was written and then not seen at the end of the file.
    pub mismatched: bool,
}

impl Backoff {
    /// The wait before the next try is the one after `n` others.
    pub open spec fn after(self, n: nat) -> bool {
        self.next_ms == wait_ms(n)
    }

    /// No try yet.
    pub fn new() -> (r: Backoff)
        ensures
            r.after(0),
            !r.mismatched,
    {
        Backoff { next_ms: RETRY_INITIAL_MS, mismatched: false }
    }

    /// The wait before the next try of a locked file; `None` once the time is up.
    pub fn wait(&mut self, elapsed_ms: u64) -> (r: Option<u64>)
        requires
            RETRY_INITIAL_MS <= old(self).next_ms <= RETRY_MAX_MS,
        ensures
            elapsed_ms >= RETRY_TOTAL_MS ==> r is None && *final(self) == *old(self),
            elapsed_ms < RETRY_TOTAL_MS ==> r == Some(old(self).next_ms),
            final(self).mismatched == old(self).mismatched,
            RETRY_INITIAL_MS <= final(self).next_ms <= RETRY_MAX_MS,
            forall|n: nat|
                #![trigger wait_ms(n)]
                r is Some && old(self).after(n) ==> final(self).after(n + 1),
    {
        if elapsed_ms >= RETRY_TOTAL_MS {
            return None;
        }
        let w: u64 = self.next_ms;
        let d: u64 = w * 2;
        self.next_ms = if d > RETRY_MAX_MS {
            RETRY_MAX_MS
        } else {
            d
        };
        proof {
            assert forall|n: nat| #![trigger wait_ms(n)] old(self).after(n) implies self.after(
                n + 1,
            ) by {
                assert((n + 1 - 1) as nat == n);
            }
        }
        Some(w)
    }
}

// ---- one entry ------------------------------------------------------------

/// What came of one try to append an entry and to look at the end of the file.
pub enum Attempt {
    /// Appended; whether the row was seen at the end.
    Appended(bool),
    /// Appended, but the file could not be read again: why.
    Unread(String),
    /// The file is locked.
    Locked,
    /// Something else failed: what.
    Failed(String),
}

/// What to do after a try.
pub enum Next {
    /// Wait this many milliseconds and try again.
    Wait(u64),
    /// Try again at once: the row was not seen at the end.
    Again,
    /// Queue the entry on disk.
    Queue,
    /// It is decided.
    Done(WriteResult),
}

pub open spec fn write_error(r: WriteResult, msg: Seq<char>) -> bool {
    r matches WriteResult::Error(m) && m@ == msg
}

/// The row was written and not seen at the end.
pub open spec fn is_mismatch(a: Attempt) -> bool {
    a == Attempt::Appended(false)
}

/// The decision after one try of a submitted entry. A row that is not seen at the
/// end is tried once more; not seen again, it is an error.
pub open spec fn decided(b: Backoff, a: Attempt, path: Seq<char>, elapsed_ms: u64, n: Next) -> bool {
    match a {
        Attempt::Appended(true) => n matches Next::Done(r) && r is Written,
        Attempt::Appended(false) => if b.mismatched {
            n matches Next::Done(r) && write_error(r, "post-write self-verify failed"@)
        } else {
            n is Again
        },
        Attempt::Unread(e) => n matches Next::Done(r) && write_error(
            r,
            "verify read failed: "@ + e@,
        ),
        Attempt::Locked => if elapsed_ms >= RETRY_TOTAL_MS {
            n is Queue
        } else {
            n == Next::Wait(b.next_ms)
        },
        Attempt::Failed(e) => n matches Next::Done(r) && write_error(
            r,
            "can't write "@ + path + " \u{2014} check the folder's permissions ("@ + e@ + ")"@,
        ),
    }
}

fn write_failure(msg: String) -> (r: Next)
    ensures
        r matches Next::Done(w) && write_error(w, msg@),
{
    Next::Done(WriteResult::Error(msg))
}

/// What to do after one try to write a submitted entry.
pub fn write_step(b: &mut Backoff, a: &Attempt, path: &str, elapsed_ms: u64) -> (r: Next)
    requires
        RETRY_INITIAL_MS <= old(b).next_ms <= RETRY_MAX_MS,
    ensures
        decided(*old(b), *a, path@, elapsed_ms, r),
        RETRY_INITIAL_MS <= final(b).next_ms <= RETRY_MAX_MS,
        !(r is Wait) ==> final(b).next_ms == old(b).next_ms,
        final(b).mismatched == (old(b).mismatched || is_mismatch(*a)),
        forall|n: nat|
            #![trigger wait_ms(n)]
            r is Wait && old(b).after(n) ==> final(b).after(n + 1),
{
    match a {
        Attempt::Appended(seen) => if *seen {
            Next::Done(WriteResult::Written)
        } else if !b.mismatched {
            b.mismatched = true;
            Next::Again
        } else {
            write_failure(text::copy("post-write self-verify failed"))
        },
        Attempt::Unread(e) => {
            let mut msg = text::copy("verify read failed: ");
            text::push_text(&mut msg, e.as_str());
            write_failure(msg)
        },
        Attempt::Locked => match b.wait(elapsed_ms) {
            Some(ms) => Next::Wait(ms),
            None => Next::Queue,
        },
        Attempt::Failed(e) => {
            let mut msg = text::copy("can't write ");
            text::push_text(&mut msg, path);
            text::push_text(&mut msg, " \u{2014} check the folder's permissions (");
            text::push_text(&mut msg, e.as_str());
            text::push_text(&mut msg, ")");
            write_failure(msg)
        },
    }
}

/// What queueing an entry comes to.
pub fn queue_outcome(queued: &Result<(), String>) -> (r: WriteResult)
    ensures
        match *queued {
            Ok(_) => r is Queued,
            Err(e) => write_error(r, "locked + queue write failed: "@ + e@),
        },
{
    match queued {
        Ok(_) => WriteResult::Queued,
        Err(e) => {
            let mut msg = text::copy("locked + queue write failed: ");
            text::push_text(&mut msg, e.as_str());
            WriteResult::Error(msg)
        },
    }
}

// ---- the queue ------------------------------------------------------------

/// What came of writing a queued entry.
pub enum DrainOutcome {
    Written,
    StillLocked,
    Error(String),
}

/// What to do after a try to write a queued entry.
pub enum DrainNext {
    /// Wait this many milliseconds and try again.
    Wait(u64),
    /// Try again at once: the row was not seen at the end.
    Again,
    /// It is decided.
    Done(DrainOutcome),
}

pub open spec fn drain_error(r: DrainOutcome, msg: Seq<char>) -> bool {
    r matches DrainOutcome::Error(m) && m@ == msg
}

/// The decision after one try of a queued entry: never queued again, and tried once
/// more where its row is not seen at the end.
pub open spec fn drain_decided(b: Backoff, a: Attempt, elapsed_ms: u64, n: DrainNext) -> bool {
    match a {
        Attempt::Appended(true) => n matches DrainNext::Done(r) && r is Written,
        Attempt::Appended(false) => if b.mismatched {
            n matches DrainNext::Done(r) && drain_error(r, "self-verify failed"@)
        } else {
            n is Again
        },
        Attempt::Unread(e) => n matches DrainNext::Done(r) && drain_error(
            r,
            "verify read: "@ + e@,
        ),
        Attempt::Locked => if elapsed_ms >= RETRY_TOTAL_MS {
            n matches DrainNext::Done(r) && r is StillLocked
        } else {
            n == DrainNext::Wait(b.next_ms)
        },
        Attempt::Failed(e) => n matches DrainNext::Done(r) && drain_error(r, "io: "@ + e@),
    }
}

fn drain_failure(head: &str, tail: &str) -> (r: DrainNext)
    ensures
        r matches DrainNext::Done(w) && drain_error(w, head@ + tail@),
{
    let mut msg = text::copy(head);
    text::push_text(&mut msg, tail);
    DrainNext::Done(DrainOutcome::Error(msg))
}

/// What to do after one try to write a queued entry.
pub fn drain_step(b: &mut Backoff, a: &Attempt, elapsed_ms: u64) -> (r: DrainNext)
    requires
        RETRY_INITIAL_MS <= old(b).next_ms <= RETRY_MAX_MS,
    ensures
        drain_decided(*old(b), *a, elapsed_ms, r),
        RETRY_INITIAL_MS <= final(b).next_ms <= RETRY_MAX_MS,
        !(r is Wait) ==> final(b).next_ms == old(b).next_ms,
        final(b).mismatched == (old(b).mismatched || is_mismatch(*a)),
        forall|n: nat|
            #![trigger wait_ms(n)]
            r is Wait && old(b).after(n) ==> final(b).after(n + 1),
{
    match a {
        Attempt::Appended(seen) => if *seen {
            DrainNext::Done(DrainOutcome::Written)
        } else if !b.mismatched {
            b.mismatched = true;
            DrainNext::Again
        } else {
            DrainNext::Done(DrainOutcome::Error(text::copy("self-verify failed")))
        },
        Attempt::Unread(e) => drain_failure("verify read: ", e.as_str()),
        Attempt::Locked => match b.wait(elapsed_ms) {
            Some(ms) => DrainNext::Wait(ms),
            None => DrainNext::Done(DrainOutcome::StillLocked),
        },
        Attempt::Failed(e) => drain_failure("io: ", e.as_str()),
    }
}

/// The name is that of a queued entry.
pub open spec fn is_queue_name(name: Seq<char>) -> bool {
    text::has_suffix(name, ".json"@)
}

/// The name is that of a queued entry.
pub fn queue_name_ok(name: &str) -> (r: bool)
    ensures
        r == is_queue_name(name@),
{
    text::text_ends_with(name, ".json")
}

/// The queue files among the names in a folder, in the order of their names.
pub open spec fn queue_order(names: Seq<Seq<char>>) -> Seq<Seq<char>> {
    sorting::sort_by(names.filter(|n: Seq<char>| is_queue_name(n)), sorting::text_order())
}

/// The queue files among the names in a folder, in the order of their names, which
/// is that of their moments: the order in which they are drained.
pub fn queue_files(names: &Vec<String>) -> (r: Vec<String>)
    ensures
        text::texts(r@) == queue_order(text::texts(names@)),
{
    let ghost all = text::texts(names@);
    let ghost keep = |n: Seq<char>| is_queue_name(n);
    let mut kept: Vec<String> = Vec::new();
    let mut i: usize = 0;
    proof {
        reveal(Seq::filter);
        assert(all.take(0).filter(keep) =~= Seq::empty());
        assert(text::texts(kept@) =~= all.take(0).filter(keep));
    }
    while i < names.len()
        invariant
            i <= names@.len(),
            all == text::texts(names@),
            keep == (|n: Seq<char>| is_queue_name(n)),
            text::texts(kept@) == all.take(i as int).filter(keep),
        decreases names@.len() - i,
    {
        let ghost before = text::texts(kept@);
        proof {
            reveal(Seq::filter);
            assert(all.take(i + 1).drop_last() =~= all.take(i as int));
            assert(all.take(i + 1).last() == names@[i as int]@);
        }
        if queue_name_ok(names[i].as_str()) {
            kept.push(names[i].clone());
            assert(text::texts(kept@) =~= before.push(names@[i as int]@));
        }
        i += 1;
    }
    assert(all.take(all.len() as int) =~= all);
    sorting::sort_texts(kept)
}

/// A queue file that was looked at.
pub enum QueueItem {
    /// It could not be read, or holds no entry.
    Unusable,
    /// Its entry was tried.
    Tried(DrainOutcome),
}

/// How a drain goes on after a queue file.
#[derive(Debug, Clone, Copy, PartialEq, Eq, Structural)]
pub enum DrainFlow {
    /// Skip the file, and leave it.
    Skip,
    /// Remove the file and go on.
    Remove,
    /// Stop; this file and the rest stay for the next drain.
    Stop,
}

/// One queue file looked at: an entry that landed is removed and counted, a file
/// that holds none is skipped, any other outcome ends the drain.
pub fn drain_flow(item: &QueueItem, drained: usize) -> (r: (DrainFlow, usize))
    requires
        drained < usize::MAX,
    ensures
        match *item {
            QueueItem::Unusable => r == (DrainFlow::Skip, drained),
            QueueItem::Tried(DrainOutcome::Written) => r == (
                DrainFlow::Remove,
                (drained + 1) as usize,
            ),
            QueueItem::Tried(_) => r == (DrainFlow::Stop, drained),
        },
{
    match item {
        QueueItem::Unusable => (DrainFlow::Skip, drained),
        QueueItem::Tried(o) => match o {
            DrainOutcome::Written => (DrainFlow::Remove, drained + 1),
            DrainOutcome::StillLocked => (DrainFlow::Stop, drained),
            DrainOutcome::Error(_) => (DrainFlow::Stop, drained),
        },
    }
}

/// The queue is drained after a write that landed, and only then.
pub fn drain_after_write(r: &WriteResult) -> (d: bool)
    ensures
        d == (*r is Written),
{
    match r {
        WriteResult::Written => true,
        _ => false,
    }
}

/// The queue is drained after a rewrite that landed, and only then.
pub fn drain_after_rewrite(r: &RewriteResult) -> (d: bool)
    ensures
        d == (*r is Written),
{
    match r {
        RewriteResult::Written => true,
        _ => false,
    }
}

/// A drain is reported with its count, where it wrote anything.
pub fn drain_report(drained: &Result<usize, String>) -> (r: Option<usize>)
    ensures
        r == match *drained {
            Ok(n) => if n > 0 {
                Some(n)
            } else {
                None
            },
            Err(_) => None,
        },
{
    match drained {
        Ok(n) => if *n > 0 {
            Some(*n)
        } else {
            None
        },
        Err(_) => None,
    }
}

// ---- whole files ----------------------------------------------------------

/// What came of reading a file that is to be rewritten.
pub enum ReadAttempt {
    Content(Vec<u8>),
    NotFound,
    Locked,
    Failed(String),
}

/// What to do after reading.
pub enum ReadNext {
    /// Change this content; `None` for a file that does not exist.
    Change(Option<Vec<u8>>),
    Wait(u64),
    Done(RewriteResult),
}

pub open spec fn locked_text(path: Seq<char>) -> Seq<char> {
    "the CSV file is open in another program (Excel?) \u{2014} close it and try again ("@ + path
        + ")"@
}

pub open spec fn is_locked(r: RewriteResult, path: Seq<char>) -> bool {
    r matches RewriteResult::Locked(m) && m@ == locked_text(path)
}

pub open spec fn is_rewrite_error(r: RewriteResult, msg: Seq<char>) -> bool {
    r matches RewriteResult::Error(m) && m@ == msg
}

/// The decision after one try to read. Only a file that does not exist is taken
/// for an absent one: a failed read is never.
pub open spec fn read_decided(
    a: ReadAttempt,
    path: Seq<char>,
    elapsed_ms: u64,
    wait: u64,
    n: ReadNext,
) -> bool {
    match a {
        ReadAttempt::Content(b) => n matches ReadNext::Change(Some(c)) && c@ == b@,
        ReadAttempt::NotFound => n == ReadNext::Change(None),
        ReadAttempt::Locked => if elapsed_ms >= RETRY_TOTAL_MS {
            n matches ReadNext::Done(r) && is_locked(r, path)
        } else {
            n == ReadNext::Wait(wait)
        },
        ReadAttempt::Failed(e) => n matches ReadNext::Done(r) && is_rewrite_error(
            r,
            "can't read "@ + path + " \u{2014} check permissions ("@ + e@ + ")"@,
        ),
    }
}

fn locked_message(path: &str) -> (r: String)
    ensures
        r@ == locked_text(path@),
{
    let mut msg = text::copy(
        "the CSV file is open in another program (Excel?) \u{2014} close it and try again (",
    );
    text::push_text(&mut msg, path);
    text::push_text(&mut msg, ")");
    msg
}

fn permission_message(verb: &str, path: &str, e: &str) -> (r: String)
    ensures
        r@ == verb@ + path@ + " \u{2014} check permissions ("@ + e@ + ")"@,
{
    let mut msg = text::copy(verb);
    text::push_text(&mut msg, path);
    text::push_text(&mut msg, " \u{2014} check permissions (");
    text::push_text(&mut msg, e);
    text::push_text(&mut msg, ")");
    msg
}

/// What to do after one try to read a file that is to be rewritten.
pub fn read_step(b: &mut Backoff, a: ReadAttempt, path: &str, elapsed_ms: u64) -> (r: ReadNext)
    requires
        RETRY_INITIAL_MS <= old(b).next_ms <= RETRY_MAX_MS,
    ensures
        read_decided(a, path@, elapsed_ms, old(b).next_ms, r),
        RETRY_INITIAL_MS <= final(b).next_ms <= RETRY_MAX_MS,
        !(r is Wait) ==> final(b).next_ms == old(b).next_ms,
        final(b).mismatched == old(b).mismatched,
        forall|n: nat|
            #![trigger wait_ms(n)]
            r is Wait && old(b).after(n) ==> final(b).after(n + 1),
{
    match a {
        ReadAttempt::Content(c) => ReadNext::Change(Some(c)),
        ReadAttempt::NotFound => ReadNext::Change(None),
        ReadAttempt::Locked => match b.wait(elapsed_ms) {
            Some(ms) => ReadNext::Wait(ms),
            None => ReadNext::Done(RewriteResult::Locked(locked_message(path))),
        },
        ReadAttempt::Failed(e) => ReadNext::Done(
            RewriteResult::Error(permission_message("can't read ", path, e.as_str())),
        ),
    }
}

/// What came of writing the new content beside the file and renaming it.
pub enum ReplaceAttempt {
    Replaced,
    Locked,
    Failed(String),
}

/// What to do after writing. Wherever it ends without success, the file written
/// beside the log is removed.
pub enum ReplaceNext {
    Wait(u64),
    Done(RewriteResult),
}

pub open spec fn replace_decided(
    a: ReplaceAttempt,
    path: Seq<char>,
    elapsed_ms: u64,
    wait: u64,
    n: ReplaceNext,
) -> bool {
    match a {
        ReplaceAttempt::Replaced => n matches ReplaceNext::Done(r) && r is Written,
        ReplaceAttempt::Locked => if elapsed_ms >= RETRY_TOTAL_MS {
            n matches ReplaceNext::Done(r) && is_locked(r, path)
        } else {
            n == ReplaceNext::Wait(wait)
        },
        ReplaceAttempt::Failed(e) => n matches ReplaceNext::Done(r) && is_rewrite_error(
            r,
            "can't write "@ + path + " \u{2014} check permissions ("@ + e@ + ")"@,
        ),
    }
}

/// What to do after one try to put new content in a file's place.
pub fn replace_step(b: &mut Backoff, a: &ReplaceAttempt, path: &str, elapsed_ms: u64) -> (r:
    ReplaceNext)
    requires
        RETRY_INITIAL_MS <= old(b).next_ms <= RETRY_MAX_MS,
    ensures
        replace_decided(*a, path@, elapsed_ms, old(b).next_ms, r),
        RETRY_INITIAL_MS <= final(b).next_ms <= RETRY_MAX_MS,
        !(r is Wait) ==> final(b).next_ms == old(b).next_ms,
        final(b).mismatched == old(b).mismatched,
        forall|n: nat|
            #![trigger wait_ms(n)]
            r is Wait && old(b).after(n) ==> final(b).after(n + 1),
{
    match a {
        ReplaceAttempt::Replaced => ReplaceNext::Done(RewriteResult::Written),
        ReplaceAttempt::Locked => match b.wait(elapsed_ms) {
            Some(ms) => ReplaceNext::Wait(ms),
            None => ReplaceNext::Done(RewriteResult::Locked(locked_message(path))),
        },
        ReplaceAttempt::Failed(e) => ReplaceNext::Done(
            RewriteResult::Error(permission_message("can't write ", path, e.as_str())),
        ),
    }
}

// ---- settings -------------------------------------------------------------

/// What came of one try to write the settings and to read them again.
pub enum SaveAttempt {
    /// Written; whether the file holds what was written.
    Written(bool),
    /// The file could not be written, or not be read again: why.
    Failed(String),
}

/// What to do after a try to write the settings.
pub enum SaveNext {
    /// Try again at once: the file held something else.
    Again,
    /// It is decided.
    Done(Result<(), String>),
}

/// What to do after one try to write the settings; `retried` for the second. A file
/// that holds something else is written once more; the second time it is an error.
pub fn save_step(retried: bool, a: &SaveAttempt) -> (r: SaveNext)
    ensures
        match *a {
            SaveAttempt::Written(true) => r matches SaveNext::Done(d) && d is Ok,
            SaveAttempt::Written(false) => if retried {
                r matches SaveNext::Done(Err(m)) && m@ == "post-write self-verify failed"@
            } else {
                r is Again
            },
            SaveAttempt::Failed(e) => r matches SaveNext::Done(Err(m)) && m@ == e@,
        },
{
    match a {
        SaveAttempt::Written(same) => if *same {
            SaveNext::Done(Ok(()))
        } else if retried {
            SaveNext::Done(Err(text::copy("post-write self-verify failed")))
        } else {
            SaveNext::Again
        },
        SaveAttempt::Failed(e) => SaveNext::Done(Err(e.clone())),
    }
}

// ---- laws -----------------------------------------------------------------

/// Each state remembers the mismatches before it.
pub open spec fn remembered(states: Seq<Backoff>, tries: Seq<Attempt>) -> bool {
    forall|i: int|
        0 < i < tries.len() ==> (#[trigger] states[i]).mismatched == (states[i - 1].mismatched
            || is_mismatch(tries[i - 1]))
}

/// The tries of one submitted entry, with the state before each and the decision
/// after it.
pub open spec fn write_run(
    states: Seq<Backoff>,
    tries: Seq<Attempt>,
    path: Seq<char>,
    times: Seq<u64>,
    nexts: Seq<Next>,
) -> bool {
    &&& states.len() == tries.len() == times.len() == nexts.len()
    &&& states.len() > 0 ==> !states[0].mismatched
    &&& forall|i: int|
        0 <= i < tries.len() ==> decided(
            states[i],
            #[trigger] tries[i],
            path,
            times[i],
            nexts[i],
        )
    &&& remembered(states, tries)
}

/// The tries of one queued entry, with the state before each and the decision
/// after it.
pub open spec fn drain_run(
    states: Seq<Backoff>,
    tries: Seq<Attempt>,
    times: Seq<u64>,
    nexts: Seq<DrainNext>,
) -> bool {
    &&& states.len() == tries.len() == times.len() == nexts.len()
    &&& states.len() > 0 ==> !states[0].mismatched
    &&& forall|i: int|
        0 <= i < tries.len() ==> drain_decided(
            states[i],
            #[trigger] tries[i],
            times[i],
            nexts[i],
        )
    &&& remembered(states, tries)
}

proof fn lemma_mismatch_is_kept(states: Seq<Backoff>, tries: Seq<Attempt>, i: int, j: int)
    requires
        states.len() == tries.len(),
        remembered(states, tries),
        0 <= i < j < tries.len(),
        is_mismatch(tries[i]),
    ensures
        states[j].mismatched,
    decreases j - i,
{
    if j > i + 1 {
        lemma_mismatch_is_kept(states, tries, i, j - 1);
    }
}

/// A row that is not seen at the end of the file is written once more, and never a
/// third time: the second time is an error, whatever waits lie between the two.
pub proof fn mismatches_are_retried_once(
    states: Seq<Backoff>,
    tries: Seq<Attempt>,
    path: Seq<char>,
    times: Seq<u64>,
    nexts: Seq<Next>,
    i: int,
    j: int,
)
    requires
        write_run(states, tries, path, times, nexts),
        0 <= i < j < tries.len(),
        is_mismatch(tries[i]),
        is_mismatch(tries[j]),
    ensures
        nexts[j] matches Next::Done(r) && write_error(r, "post-write self-verify failed"@),
        (forall|k: int| 0 <= k < i ==> !is_mismatch(#[trigger] tries[k])) ==> nexts[i] is Again,
{
    lemma_mismatch_is_kept(states, tries, i, j);
    if forall|k: int| 0 <= k < i ==> !is_mismatch(#[trigger] tries[k]) {
        lemma_no_mismatch_yet(states, tries, i);
    }
}

proof fn lemma_no_mismatch_yet(states: Seq<Backoff>, tries: Seq<Attempt>, i: int)
    requires
        states.len() == tries.len(),
        remembered(states, tries),
        0 <= i < tries.len(),
        !states[0].mismatched,
        forall|k: int| 0 <= k < i ==> !is_mismatch(#[trigger] tries[k]),
    ensures
        !states[i].mismatched,
    decreases i,
{
    if i > 0 {
        lemma_no_mismatch_yet(states, tries, i - 1);
    }
}

/// The same of a queued entry.
pub proof fn queued_mismatches_are_retried_once(
    states: Seq<Backoff>,
    tries: Seq<Attempt>,
    times: Seq<u64>,
    nexts: Seq<DrainNext>,
    i: int,
    j: int,
)
    requires
        drain_run(states, tries, times, nexts),
        0 <= i < j < tries.len(),
        is_mismatch(tries[i]),
        is_mismatch(tries[j]),
    ensures
        nexts[j] matches DrainNext::Done(r) && drain_error(r, "self-verify failed"@),
        (forall|k: int| 0 <= k < i ==> !is_mismatch(#[trigger] tries[k])) ==> nexts[i] is Again,
{
    lemma_mismatch_is_kept(states, tries, i, j);
    if forall|k: int| 0 <= k < i ==> !is_mismatch(#[trigger] tries[k]) {
        lemma_no_mismatch_yet(states, tries, i);
    }
}

/// Waits never shrink, and lie between the first and the longest.
pub proof fn waits_grow_to_the_longest(n: nat)
    ensures
        RETRY_INITIAL_MS <= wait_ms(n) <= wait_ms(n + 1) <= RETRY_MAX_MS,
    decreases n,
{
    assert((n + 1 - 1) as nat == n);
    if n > 0 {
        waits_grow_to_the_longest((n - 1) as nat);
    }
}

/// The wait before the try that follows `n` waits, and all before it, take no
/// longer than the retry window and one longest wait: a wait is begun only
/// within the window.
pub open spec fn waited_ms(n: nat) -> nat
    decreases n,
{
    if n == 0 {
        0
    } else {
        waited_ms((n - 1) as nat) + wait_ms((n - 1) as nat)
    }
}

/// Once waiting has taken the whole window, a locked file is given up, and the
/// waiting until there is bounded by the window and one longest wait.
pub proof fn waiting_is_bounded(n: nat)
    requires
        n > 0,
        waited_ms((n - 1) as nat) < RETRY_TOTAL_MS,
    ensures
        waited_ms(n) < RETRY_TOTAL_MS + RETRY_MAX_MS,
{
    waits_grow_to_the_longest((n - 1) as nat);
}

/// A file is taken for locked on a sharing violation and on a lock violation, and on
/// nothing else.
pub proof fn locks_are_two_codes(code: Option<i32>)
    ensures
        lock_code(code) == match code {
            Some(c) => c == 32 || c == 33,
            None => false,
        },
{
}

/// The first wait is a tenth of a second; each is twice the one before, but two seconds
/// at most.
pub proof fn waits_double(n: nat)
    ensures
        wait_ms(0) == 100,
        wait_ms(n + 1) == if 2 * wait_ms(n) <= 2000 {
            2 * wait_ms(n)
        } else {
            2000
        },
{
}

/// What follows a try to append: a row that is seen is written; one that is not seen is
/// tried once more; a locked file is waited for up to ten seconds, and then the entry is
/// queued; anything else is an error. Only what was seen counts as written.
pub proof fn tries_to_append_are_decided(
    b: Backoff,
    a: Attempt,
    path: Seq<char>,
    elapsed_ms: u64,
    n: Next,
)
    requires
        decided(b, a, path, elapsed_ms, n),
    ensures
        n matches Next::Wait(ms) ==> ms == b.next_ms,
        n is Wait <==> a is Locked && elapsed_ms < 10_000,
        n is Queue <==> a is Locked && elapsed_ms >= 10_000,
        n is Again <==> a == Attempt::Appended(false) && !b.mismatched,
        (n matches Next::Done(r) && r is Written) <==> a == Attempt::Appended(true),
        (n matches Next::Done(r) && r is Error) <==> a is Unread || a is Failed || (a
            == Attempt::Appended(false) && b.mismatched),
        !(n matches Next::Done(r) && r is Queued),
{
}

/// What follows a try to write a queued entry: as for an entry, but that one whose file
/// stays locked stays in the queue.
pub proof fn tries_of_queued_entries_are_decided(
    b: Backoff,
    a: Attempt,
    elapsed_ms: u64,
    n: DrainNext,
)
    requires
        drain_decided(b, a, elapsed_ms, n),
    ensures
        n matches DrainNext::Wait(ms) ==> ms == b.next_ms,
        n is Wait <==> a is Locked && elapsed_ms < 10_000,
        (n matches DrainNext::Done(r) && r is StillLocked) <==> a is Locked && elapsed_ms >= 10_000,
        n is Again <==> a == Attempt::Appended(false) && !b.mismatched,
        (n matches DrainNext::Done(r) && r is Written) <==> a == Attempt::Appended(true),
        (n matches DrainNext::Done(r) && r is Error) <==> a is Unread || a is Failed || (a
            == Attempt::Appended(false) && b.mismatched),
{
}

/// What follows a try to read a file that is to be changed: its content is changed, a
/// file that does not exist is made, a locked one is waited for up to ten seconds, and
/// anything else is an error.
pub proof fn tries_to_read_are_decided(
    a: ReadAttempt,
    path: Seq<char>,
    elapsed_ms: u64,
    wait: u64,
    n: ReadNext,
)
    requires
        read_decided(a, path, elapsed_ms, wait, n),
    ensures
        a matches ReadAttempt::Content(b) ==> (n matches ReadNext::Change(Some(c)) && c@ == b@),
        n == ReadNext::Change(None) <==> a is NotFound,
        n is Wait <==> a is Locked && elapsed_ms < 10_000,
        n matches ReadNext::Wait(ms) ==> ms == wait,
        (n matches ReadNext::Done(r) && r is Locked) <==> a is Locked && elapsed_ms >= 10_000,
        (n matches ReadNext::Done(r) && r is Error) <==> a is Failed,
        !(n matches ReadNext::Done(r) && r is Written),
{
}

/// What follows a try to replace a file: it is written only if it was replaced; a locked
/// one is waited for up to ten seconds, and anything else is an error.
pub proof fn tries_to_replace_are_decided(
    a: ReplaceAttempt,
    path: Seq<char>,
    elapsed_ms: u64,
    wait: u64,
    n: ReplaceNext,
)
    requires
        replace_decided(a, path, elapsed_ms, wait, n),
    ensures
        n is Wait <==> a is Locked && elapsed_ms < 10_000,
        n matches ReplaceNext::Wait(ms) ==> ms == wait,
        (n matches ReplaceNext::Done(r) && r is Locked) <==> a is Locked && elapsed_ms >= 10_000,
        (n matches ReplaceNext::Done(r) && r is Error) <==> a is Failed,
        (n matches ReplaceNext::Done(r) && r is Written) <==> a is Replaced,
{
}

/// The queue is every file whose name ends in `.json`, as often as it is listed, in the
/// order of the names.
pub proof fn queues_hold_all_entries_in_order(names: Seq<Seq<char>>, name: Seq<char>)
    ensures
        queue_order(names).to_multiset().count(name) == if name.len() >= 5 && name.skip(
            name.len() - 5,
        ) == seq!['.', 'j', 's', 'o', 'n'] {
            names.to_multiset().count(name)
        } else {
            0
        },
        forall|i: int, j: int|
            0 <= i < j < queue_order(names).len() ==> !sorting::precedes(
                #[trigger] queue_order(names)[j],
                #[trigger] queue_order(names)[i],
            ),
{
    reveal_strlit(".json");
    assert(".json"@ =~= seq!['.', 'j', 's', 'o', 'n']);
    let keep = |n: Seq<char>| is_queue_name(n);
    sorting::text_order_sorts();
    assert(sorting::text_order() =~= |a: Seq<char>, b: Seq<char>| sorting::precedes(a, b));
    sorting::sort_sorts(names.filter(keep), sorting::text_order());
    lemma_filter_counts(names, keep, name);
    assert forall|i: int, j: int| 0 <= i < j < queue_order(names).len() implies !sorting::precedes(
        #[trigger] queue_order(names)[j],
        #[trigger] queue_order(names)[i],
    ) by {
        assert(!sorting::text_order()(queue_order(names)[j], queue_order(names)[i]));
    }
}

proof fn lemma_filter_counts(s: Seq<Seq<char>>, keep: spec_fn(Seq<char>) -> bool, x: Seq<char>)
    ensures
        s.filter(keep).to_multiset().count(x) == if keep(x) {
            s.to_multiset().count(x)
        } else {
            0
        },
    decreases s.len(),
{
    broadcast use vstd::seq_lib::group_to_multiset_ensures;

    reveal(Seq::filter);
    if s.len() > 0 {
        lemma_filter_counts(s.drop_last(), keep, x);
        assert(s.drop_last().push(s.last()) =~= s);
    }
}

/// After some waits the next one is the wait of that number.
pub proof fn waits_are_counted(b: Backoff, n: nat)
    ensures
        b.after(n) <==> b.next_ms == wait_ms(n),
{
}

/// A refusal names the file and what failed.
pub proof fn refusals_name_the_file(
    a: ReadAttempt,
    c: ReplaceAttempt,
    path: Seq<char>,
    elapsed_ms: u64,
    wait: u64,
    n: ReadNext,
    p: ReplaceNext,
)
    requires
        read_decided(a, path, elapsed_ms, wait, n),
        replace_decided(c, path, elapsed_ms, wait, p),
    ensures
        ({
            let told = |verb: Seq<char>, e: Seq<char>|
                verb + path + " \u{2014} check permissions ("@ + e + ")"@;
            let open = "the CSV file is open in another program (Excel?) \u{2014} close it and try again ("@
                + path + ")"@;
            &&& a matches ReadAttempt::Failed(e) ==> (n matches ReadNext::Done(r)
                && r matches RewriteResult::Error(m) && m@ == told("can't read "@, e@))
            &&& c matches ReplaceAttempt::Failed(e) ==> (p matches ReplaceNext::Done(r)
                && r matches RewriteResult::Error(m) && m@ == told("can't write "@, e@))
            &&& n matches ReadNext::Done(r) ==> (r matches RewriteResult::Locked(m) ==> m@ == open)
            &&& p matches ReplaceNext::Done(r) ==> (r matches RewriteResult::Locked(m) ==> m@
                == open)
        }),
{
}

/// An entry that cannot be written tells why: what failed on the way, and where.
pub proof fn failed_entries_tell_why(
    b: Backoff,
    a: Attempt,
    path: Seq<char>,
    elapsed_ms: u64,
    n: Next,
    d: DrainNext,
)
    requires
        decided(b, a, path, elapsed_ms, n),
        drain_decided(b, a, elapsed_ms, d),
    ensures
        a matches Attempt::Failed(e) ==> (n matches Next::Done(r) && r matches WriteResult::Error(m)
            && m@ == "can't write "@ + path + " \u{2014} check the folder's permissions ("@ + e@
            + ")"@),
        a matches Attempt::Unread(e) ==> (n matches Next::Done(r) && r matches WriteResult::Error(m)
            && m@ == "verify read failed: "@ + e@),
        a matches Attempt::Failed(e) ==> (d matches DrainNext::Done(r)
            && r matches DrainOutcome::Error(m) && m@ == "io: "@ + e@),
        a matches Attempt::Unread(e) ==> (d matches DrainNext::Done(r)
            && r matches DrainOutcome::Error(m) && m@ == "verify read: "@ + e@),
        a == Attempt::Appended(false) && b.mismatched ==> (n matches Next::Done(r)
            && r matches WriteResult::Error(m) && m@ == "post-write self-verify failed"@),
        a == Attempt::Appended(false) && b.mismatched ==> (d matches DrainNext::Done(r)
            && r matches DrainOutcome::Error(m) && m@ == "self-verify failed"@),
{
}

} // verus!
