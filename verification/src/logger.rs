//! The log of the window: what is sent to it, and how it is kept and shown.

use crate::text::{cat, cat3, concat, concat_all, end_trimmed, texts, trim_end};
use crate::tree::DirectoryNode;
use vstd::prelude::*;
use vstd::string::*;

verus! {

/// Something that is sent to the log.
pub enum LogEvent {
    /// A line, with its line break.
    Msg(String),
    /// The position of a node, and its new status.
    StatusChange(usize, i32),
    /// How far the work has come, as the bits of a single-precision number.
    Progress(u32),
}

/// The event of a line.
pub fn log_event(msg: &str) -> (event: LogEvent)
    ensures
        event matches LogEvent::Msg(s) && s@ == msg@.push('\n'),
{
    let mut line = msg.to_owned();
    line.push('\n');
    LogEvent::Msg(line)
}

/// The events of a line about a node.
pub fn status_events(msg: &str, index: usize, status: i32) -> (events: Vec<LogEvent>)
    ensures
        events@.len() == 2,
        events@[0] matches LogEvent::Msg(s) && s@ == msg@.push('\n'),
        events@[1] == LogEvent::StatusChange(index, status),
{
    let mut events: Vec<LogEvent> = Vec::new();
    events.push(log_event(msg));
    events.push(LogEvent::StatusChange(index, status));
    events
}

/// How many lines the window shows.
pub const SHOWN_LINES: usize = 250;

/// How many milliseconds pass before a large tree is shown again.
pub const REBUILD_MS: u128 = 120;

/// The size below which a tree is shown again at once.
pub const SMALL_TREE: usize = 150;

/// What the window keeps between two batches of events.
pub struct LogPump {
    /// The last lines.
    pub lines: Vec<String>,
    /// Whether a status has changed since the tree was shown.
    pub pending: bool,
}

/// What comes of a batch of events.
pub struct LogBatch {
    /// The lines of the batch.
    pub messages: Vec<String>,
    /// The changes of status, in order.
    pub changes: Vec<(usize, i32)>,
    /// How far the work has come, where the batch says so.
    pub progress: Option<u32>,
    /// The text to show, if it has changed.
    pub log_text: Option<String>,
}

/// The lines of a list of events, in order.
pub open spec fn messages(events: Seq<LogEvent>) -> Seq<Seq<char>>
    decreases events.len(),
{
    if events.len() == 0 {
        Seq::empty()
    } else {
        match events.last() {
            LogEvent::Msg(s) => messages(events.drop_last()).push(s@),
            _ => messages(events.drop_last()),
        }
    }
}

/// The changes of status of a list of events, in order.
pub open spec fn changes(events: Seq<LogEvent>) -> Seq<(usize, i32)>
    decreases events.len(),
{
    if events.len() == 0 {
        Seq::empty()
    } else {
        match events.last() {
            LogEvent::StatusChange(i, s) => changes(events.drop_last()).push((i, s)),
            _ => changes(events.drop_last()),
        }
    }
}

/// How far the work has come by the last event that says so.
pub open spec fn progress(events: Seq<LogEvent>) -> Option<u32>
    decreases events.len(),
{
    if events.len() == 0 {
        None
    } else {
        match events.last() {
            LogEvent::Progress(p) => Some(p),
            _ => progress(events.drop_last()),
        }
    }
}

/// The last lines of a list.
pub open spec fn last_lines(lines: Seq<Seq<char>>) -> Seq<Seq<char>> {
    if lines.len() > SHOWN_LINES {
        lines.skip(lines.len() - SHOWN_LINES)
    } else {
        lines
    }
}

/// A copy of the last lines of a list.
fn keep_last(lines: &Vec<String>) -> (kept: Vec<String>)
    ensures
        texts(kept@) == last_lines(texts(lines@)),
{
    let n = lines.len();
    let from: usize = if n > SHOWN_LINES {
        n - SHOWN_LINES
    } else {
        0
    };
    let mut kept: Vec<String> = Vec::new();
    let mut i: usize = from;
    while i < n
        invariant
            from <= i <= n == lines@.len(),
            kept@.len() == i - from,
            forall|k: int| 0 <= k < kept@.len() ==> (#[trigger] kept@[k])@ == lines@[from + k]@,
        decreases n - i,
    {
        kept.push(lines[i].clone());
        i += 1;
    }
    assert(texts(kept@) =~= last_lines(texts(lines@)));
    kept
}

impl LogPump {
    /// A window without lines.
    pub fn new() -> (pump: LogPump)
        ensures
            pump.lines@.len() == 0,
            !pump.pending,
    {
        LogPump { lines: Vec::new(), pending: false }
    }

    /// Takes in a batch of events: the lines are added to those that are kept, of which the last
    /// remain.
    pub fn take_in(&mut self, events: &Vec<LogEvent>) -> (batch: LogBatch)
        requires
            old(self).lines@.len() <= SHOWN_LINES,
        ensures
            texts(final(self).lines@) == last_lines(texts(old(self).lines@) + messages(events@)),
            final(self).lines@.len() <= SHOWN_LINES,
            final(self).pending == (old(self).pending || changes(events@).len() > 0),
            texts(batch.messages@) == messages(events@),
            batch.changes@ == changes(events@),
            batch.progress == progress(events@),
            match batch.log_text {
                Some(text) => messages(events@).len() > 0 && text@ == concat(
                    texts(final(self).lines@),
                ),
                None => messages(events@).len() == 0,
            },
    {
        let mut found: Vec<String> = Vec::new();
        let mut statuses: Vec<(usize, i32)> = Vec::new();
        let mut last: Option<u32> = None;
        let ghost before = texts(self.lines@);
        let mut i: usize = 0;
        proof {
            assert(events@.take(0) =~= Seq::<LogEvent>::empty());
            assert(texts(found@) =~= messages(events@.take(0)));
            assert(statuses@ =~= changes(events@.take(0)));
            assert(texts(self.lines@) =~= before + messages(events@.take(0)));
        }
        while i < events.len()
            invariant
                i <= events@.len(),
                texts(found@) == messages(events@.take(i as int)),
                statuses@ == changes(events@.take(i as int)),
                last == progress(events@.take(i as int)),
                texts(self.lines@) == before + messages(events@.take(i as int)),
                self.pending == (old(self).pending || statuses@.len() > 0),
            decreases events@.len() - i,
        {
            let ghost now = events@.take(i + 1);
            let ghost old_found = found@;
            let ghost old_lines = self.lines@;
            proof {
                assert(now.drop_last() == events@.take(i as int));
                assert(now.last() == events@[i as int]);
            }
            match &events[i] {
                LogEvent::Msg(s) => {
                    found.push(s.clone());
                    self.lines.push(s.clone());
                    proof {
                        assert(texts(found@) =~= texts(old_found).push(s@));
                        assert(texts(self.lines@) =~= texts(old_lines).push(s@));
                        assert(texts(self.lines@) =~= before + messages(now));
                    }
                },
                LogEvent::StatusChange(index, status) => {
                    statuses.push((*index, *status));
                    self.pending = true;
                },
                LogEvent::Progress(p) => {
                    last = Some(*p);
                },
            }
            i += 1;
        }
        proof {
            assert(events@.take(i as int) == events@);
            assert(texts(found@).len() == found@.len());
            assert(texts(self.lines@).len() == self.lines@.len());
        }
        let kept = keep_last(&self.lines);
        assert(texts(kept@).len() == kept@.len());
        self.lines = kept;
        let log_text = if found.len() > 0 {
            Some(concat_all(&self.lines))
        } else {
            None
        };
        LogBatch { messages: found, changes: statuses, progress: last, log_text }
    }

    /// Whether the tree, of `count` nodes, is to be shown again: a status has changed, and some
    /// time has passed, or the tree is small, or the work is done.
    pub fn should_rebuild(&mut self, elapsed_ms: u128, count: usize, progress: Option<u32>) -> (r:
        bool)
        ensures
            r == (old(self).pending && (elapsed_ms >= REBUILD_MS || count < SMALL_TREE || (progress
                is Some && is_full(progress->0)))),
            final(self).lines == old(self).lines,
            final(self).pending == (old(self).pending && !r),
    {
        let finished = match progress {
            Some(bits) => at_least_one(bits),
            None => false,
        };
        let r = self.pending && (elapsed_ms >= REBUILD_MS || count < SMALL_TREE || finished);
        if r {
            self.pending = false;
        }
        r
    }
}

/// Whether the bits are those of a single-precision number that is at least one: from the bits of
/// one up to those of infinity.
pub open spec fn is_full(bits: u32) -> bool {
    0x3f800000 <= bits <= 0x7f800000
}

/// Whether the bits are those of a single-precision number that is at least one.
pub fn at_least_one(bits: u32) -> (r: bool)
    ensures
        r == is_full(bits),
{
    0x3f800000 <= bits && bits <= 0x7f800000
}

/// The nodes with the first `n` changes of status made, one after the other; a change for a
/// position that there is not makes no difference.
pub open spec fn with_changes(
    nodes: Seq<DirectoryNode>,
    changes: Seq<(usize, i32)>,
    n: int,
) -> Seq<DirectoryNode>
    decreases n,
{
    if n <= 0 {
        nodes
    } else {
        let before = with_changes(nodes, changes, n - 1);
        let (i, status) = changes[n - 1];
        if i < before.len() {
            before.update(i as int, DirectoryNode { status, ..before[i as int] })
        } else {
            before
        }
    }
}

/// Makes changes of status, one after the other.
pub fn apply_changes(nodes: &mut Vec<DirectoryNode>, changes: &Vec<(usize, i32)>)
    ensures
        final(nodes)@ == with_changes(old(nodes)@, changes@, changes@.len() as int),
{
    let ghost start = nodes@;
    let mut k: usize = 0;
    while k < changes.len()
        invariant
            k <= changes@.len(),
            nodes@ == with_changes(start, changes@, k as int),
        decreases changes@.len() - k,
    {
        let (i, status) = changes[k];
        let ghost before = nodes@;
        if i < nodes.len() {
            nodes[i].status = status;
            assert(nodes@ =~= before.update(
                i as int,
                DirectoryNode { status, ..before[i as int] },
            ));
        }
        k += 1;
    }
}

/// A line of the log file: the time in brackets and the message without its end.
pub fn log_file_line(time: &str, msg: &str) -> (line: String)
    ensures
        line@ == "["@ + time@ + "] "@ + trim_end(msg@),
{
    let start = cat3("[", time, "] ");
    let text = end_trimmed(msg);
    cat(start.as_str(), text.as_str())
}

/// Events that are taken in in one batch or in two leave the same lines.
pub proof fn batches_do_not_matter(
    lines: Seq<Seq<char>>,
    a: Seq<LogEvent>,
    b: Seq<LogEvent>,
)
    ensures
        last_lines(last_lines(lines + messages(a)) + messages(b)) == last_lines(
            lines + messages(a + b),
        ),
{
    lemma_messages_of_both(a, b);
    let x = lines + messages(a);
    let y = messages(b);
    assert(lines + messages(a + b) =~= x + y);
    assert(last_lines(last_lines(x) + y) =~= last_lines(x + y));
}

proof fn lemma_messages_of_both(a: Seq<LogEvent>, b: Seq<LogEvent>)
    ensures
        messages(a + b) == messages(a) + messages(b),
    decreases b.len(),
{
    if b.len() == 0 {
        assert(a + b =~= a);
        assert(messages(a) + messages(b) =~= messages(a));
    } else {
        lemma_messages_of_both(a, b.drop_last());
        assert((a + b).drop_last() =~= a + b.drop_last());
        assert((a + b).last() == b.last());
        assert(messages(a + b) =~= messages(a) + messages(b));
    }
}

} // verus!
