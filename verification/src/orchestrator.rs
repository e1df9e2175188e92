//! Between the buffer and the broker: what is published when.
//!
//! A tick publishes what is in memory, or else the newest chunk on disk. It is driven
//! from outside: each [`TickAction`] is carried out, and its outcome comes back as a
//! [`TickEvent`].

use vstd::prelude::*;
use crate::buffer::Buffer;
use crate::chunks::{chunks, contents, law_chunk_lengths, law_chunks_keep_everything};
use crate::chunks::split_chunks;
use crate::config::Config;
use crate::log_entry::LogEntry;
use crate::spool::{any_chunk, chunk_file, chunk_number, lemma_some_chunk, names_of, newest, older};

verus! {

/// How many entries are published at a time.
pub const PUBLISH_BATCH_SIZE: usize = 200;

/// How long to wait where there is nothing to do, in milliseconds.
pub const IDLE_SLEEP_MS: u64 = 200;

/// How many entries may wait between the sources and the buffer.
pub const CHANNEL_CAPACITY: usize = 4096;

// ---------------------------------------------------------------------------
// What is started
// ---------------------------------------------------------------------------

/// The tasks of the daemon.
#[derive(Debug, Clone, Copy, PartialEq, Eq, Structural)]
pub struct Tasks {
    pub journald: bool,
    pub syslog: bool,
    pub metrics: bool,
    pub metrics_socket: bool,
    pub crashdump: bool,
}

/// The tasks that a configuration asks for.
pub open spec fn tasks(cfg: Config) -> Tasks {
    Tasks {
        journald: cfg.sources.journald,
        syslog: cfg.sources.syslog,
        metrics: cfg.metrics.enabled,
        metrics_socket: cfg.metrics.enabled && cfg.metrics.custom is Some,
        crashdump: cfg.crashdump is Some,
    }
}

/// The tasks that a configuration asks for. Metrics of other programs are only taken
/// where metrics are.
pub fn tasks_of(cfg: &Config) -> (t: Tasks)
    ensures
        t == tasks(*cfg),
{
    Tasks {
        journald: cfg.sources.journald,
        syslog: cfg.sources.syslog,
        metrics: cfg.metrics.enabled,
        metrics_socket: cfg.metrics.enabled && cfg.metrics.custom.is_some(),
        crashdump: cfg.crashdump.is_some(),
    }
}

// ---------------------------------------------------------------------------
// A tick
// ---------------------------------------------------------------------------

/// What came of the last action.
pub enum TickEvent {
    NotConnected,
    Connected,
    /// The batch was published.
    Published,
    PublishFailed,
    /// The names of the files in the spool directory.
    Listed(Vec<String>),
    ListFailed,
    /// The entries of the chunk.
    Read(Vec<LogEntry>),
    /// The chunk cannot be read or makes no sense.
    Unreadable,
}

/// What to do next.
pub enum TickAction {
    /// Wait so many milliseconds. The tick is over.
    Sleep(u64),
    /// Publish [`Tick::batch`].
    Publish,
    /// Push these entries into the buffer again, whether or not that works, and wait so
    /// many milliseconds. The tick is over.
    PutBack(Vec<LogEntry>, u64),
    /// List the spool directory.
    ListSpool,
    /// Read this chunk.
    ReadChunk(String),
    /// Delete this chunk. The tick is over.
    DeleteChunk(String),
    /// Nothing. The tick is over.
    Done,
}

enum Stage {
    Start,
    Memory(Vec<Vec<LogEntry>>),
    Listing,
    Reading(String),
    Disk(String, Vec<Vec<LogEntry>>),
    Over,
}

/// A tick under way.
pub struct Tick {
    stage: Stage,
}

/// How far a tick has come.
#[verifier::ext_equal]
pub enum TickView {
    Start,
    /// These batches of entries from memory are to be published.
    Memory(Seq<Seq<LogEntry>>),
    Listing,
    Reading(Seq<char>),
    /// These batches of entries from this chunk are to be published.
    Disk(Seq<char>, Seq<Seq<LogEntry>>),
    Over,
}

/// What an event tells a tick. What is read from the buffer counts as told.
pub enum Told {
    NotConnected,
    /// Memory held these entries, and the disk was or was not expected to hold chunks.
    Connected(Seq<LogEntry>, bool),
    Published,
    PublishFailed,
    /// The newest chunk, if there is one.
    Listed(Option<Seq<char>>),
    ListFailed,
    Read(Seq<LogEntry>),
    Unreadable,
}

/// What a tick asks for.
pub enum Asked {
    Sleep(u64),
    Publish,
    PutBack(Seq<LogEntry>, u64),
    ListSpool,
    ReadChunk(Seq<char>),
    DeleteChunk(Seq<char>),
    Done,
}

impl View for Tick {
    type V = TickView;

    closed spec fn view(&self) -> TickView {
        match self.stage {
            Stage::Start => TickView::Start,
            Stage::Memory(batches) => TickView::Memory(contents(batches@)),
            Stage::Listing => TickView::Listing,
            Stage::Reading(name) => TickView::Reading(name@),
            Stage::Disk(name, batches) => TickView::Disk(name@, contents(batches@)),
            Stage::Over => TickView::Over,
        }
    }
}

impl View for TickAction {
    type V = Asked;

    open spec fn view(&self) -> Asked {
        match self {
            TickAction::Sleep(ms) => Asked::Sleep(*ms),
            TickAction::Publish => Asked::Publish,
            TickAction::PutBack(entries, ms) => Asked::PutBack(entries@, *ms),
            TickAction::ListSpool => Asked::ListSpool,
            TickAction::ReadChunk(name) => Asked::ReadChunk(name@),
            TickAction::DeleteChunk(name) => Asked::DeleteChunk(name@),
            TickAction::Done => Asked::Done,
        }
    }
}

/// `told` is what `event` tells, given the buffer.
pub open spec fn tells(event: TickEvent, buffer: Buffer, told: Told) -> bool {
    match event {
        TickEvent::NotConnected => told == Told::NotConnected,
        TickEvent::Connected => told == Told::Connected(buffer.memory(), buffer.expects_chunks()),
        TickEvent::Published => told == Told::Published,
        TickEvent::PublishFailed => told == Told::PublishFailed,
        TickEvent::Listed(names) => match told {
            Told::Listed(Some(name)) => buffer.expects_chunks() && newest(names_of(names@), name),
            Told::Listed(None) => !buffer.expects_chunks() || !any_chunk(names_of(names@)),
            _ => false,
        },
        TickEvent::ListFailed => told == Told::ListFailed,
        TickEvent::Read(entries) => told == Told::Read(entries@),
        TickEvent::Unreadable => told == Told::Unreadable,
    }
}

impl TickView {
    /// This is an outcome of what the tick asked for.
    pub open spec fn awaits(self, told: Told) -> bool {
        match self {
            TickView::Start => told is NotConnected || told is Connected,
            TickView::Memory(_) | TickView::Disk(_, _) => told is Published
                || told is PublishFailed,
            TickView::Listing => told is Listed || told is ListFailed,
            TickView::Reading(_) => told is Read || told is Unreadable,
            TickView::Over => false,
        }
    }

    /// How far the tick has come after an event.
    pub open spec fn next(self, told: Told) -> TickView {
        match (self, told) {
            (TickView::Start, Told::Connected(memory, expects_chunks)) => if memory.len() > 0 {
                TickView::Memory(chunks(memory, PUBLISH_BATCH_SIZE as nat))
            } else if expects_chunks {
                TickView::Listing
            } else {
                TickView::Over
            },
            (TickView::Memory(batches), Told::Published) => if batches.len() > 1 {
                TickView::Memory(batches.skip(1))
            } else {
                TickView::Over
            },
            (TickView::Listing, Told::Listed(Some(name))) => TickView::Reading(name),
            (TickView::Reading(name), Told::Read(entries)) => if entries.len() > 0 {
                TickView::Disk(name, chunks(entries, PUBLISH_BATCH_SIZE as nat))
            } else {
                TickView::Over
            },
            (TickView::Disk(name, batches), Told::Published) => if batches.len() > 1 {
                TickView::Disk(name, batches.skip(1))
            } else {
                TickView::Over
            },
            _ => TickView::Over,
        }
    }

    /// What the tick asks for after an event. Where entries from memory cannot be
    /// published, their batch is put back and the batches behind it are given up. A
    /// chunk on disk stays until all of it is published, unless it makes no sense.
    pub open spec fn asks(self, told: Told) -> Asked {
        match (self, told) {
            (TickView::Start, Told::Connected(memory, expects_chunks)) => if memory.len() > 0 {
                Asked::Publish
            } else if expects_chunks {
                Asked::ListSpool
            } else {
                Asked::Sleep(IDLE_SLEEP_MS)
            },
            (TickView::Memory(batches), Told::Published) => if batches.len() > 1 {
                Asked::Publish
            } else {
                Asked::Done
            },
            (TickView::Memory(batches), Told::PublishFailed) => Asked::PutBack(
                batches[0],
                IDLE_SLEEP_MS,
            ),
            (TickView::Listing, Told::Listed(Some(name))) => Asked::ReadChunk(name),
            (TickView::Reading(name), Told::Read(entries)) => if entries.len() > 0 {
                Asked::Publish
            } else {
                Asked::DeleteChunk(name)
            },
            (TickView::Reading(name), Told::Unreadable) => Asked::DeleteChunk(name),
            (TickView::Disk(name, batches), Told::Published) => if batches.len() > 1 {
                Asked::Publish
            } else {
                Asked::DeleteChunk(name)
            },
            (TickView::Disk(_, _), Told::PublishFailed) => Asked::Done,
            _ => Asked::Sleep(IDLE_SLEEP_MS),
        }
    }

    /// The batch to publish, where there is one.
    pub open spec fn batches(self) -> Seq<Seq<LogEntry>> {
        match self {
            TickView::Memory(batches) => batches,
            TickView::Disk(_, batches) => batches,
            _ => Seq::empty(),
        }
    }
}

/// Drops the first of some batches.
fn drop_first(batches: Vec<Vec<LogEntry>>) -> (r: Vec<Vec<LogEntry>>)
    requires
        batches@.len() > 0,
    ensures
        contents(r@) == contents(batches@).skip(1),
{
    let mut rest = batches;
    rest.remove(0);
    assert(contents(rest@) =~= contents(batches@).skip(1));
    rest
}

/// Takes the first of some batches.
fn take_first(batches: Vec<Vec<LogEntry>>) -> (r: Vec<LogEntry>)
    requires
        batches@.len() > 0,
    ensures
        r@ == contents(batches@)[0],
{
    let mut rest = batches;
    rest.remove(0)
}

/// Cuts entries into batches.
fn batches_of(entries: Vec<LogEntry>) -> (r: Vec<Vec<LogEntry>>)
    ensures
        contents(r@) == chunks(entries@, PUBLISH_BATCH_SIZE as nat),
{
    split_chunks(entries, PUBLISH_BATCH_SIZE)
}

impl Tick {
    #[verifier::type_invariant]
    spec fn has_batch(&self) -> bool {
        match self.stage {
            Stage::Memory(batches) => batches@.len() > 0,
            Stage::Disk(_, batches) => batches@.len() > 0,
            _ => true,
        }
    }

    /// A tick that is about to start.
    pub fn new() -> (t: Tick)
        ensures
            t@ == TickView::Start,
    {
        Tick { stage: Stage::Start }
    }

    /// The batch to publish.
    pub fn batch(&self) -> (b: Option<&Vec<LogEntry>>)
        ensures
            match b {
                Some(b) => self@.batches().len() > 0 && b@ == self@.batches()[0],
                None => self@.batches().len() == 0,
            },
    {
        proof {
            use_type_invariant(self);
        }
        match &self.stage {
            Stage::Memory(batches) => Some(&batches[0]),
            Stage::Disk(_, batches) => Some(&batches[0]),
            _ => None,
        }
    }

    /// Goes on with the outcome of the last action. Of the buffer only memory is taken,
    /// and noted whether chunks are expected on disk.
    pub fn step(self, buffer: &mut Buffer, event: TickEvent) -> (r: (Tick, TickAction))
        requires
            exists|told: Told| #[trigger] tells(event, *old(buffer), told) && self@.awaits(told),
        ensures
            exists|told: Told| #[trigger]
                tells(event, *old(buffer), told) && r.0@ == self@.next(told) && r.1@ == self@.asks(
                    told,
                ),
            final(buffer).config() == old(buffer).config(),
            final(buffer).memory() == if event is Connected {
                Seq::empty()
            } else {
                old(buffer).memory()
            },
            final(buffer).expects_chunks() == (old(buffer).expects_chunks() && (
            event matches TickEvent::Listed(names) ==> any_chunk(names_of(names@)))),
    {
        proof {
            use_type_invariant(&self);
        }
        let ghost t = self@;
        let Tick { stage } = self;
        match (stage, event) {
            (Stage::Start, TickEvent::Connected) => {
                let ghost told = Told::Connected(buffer.memory(), buffer.expects_chunks());
                assert(tells(event, *old(buffer), told));
                if buffer.memory_len() > 0 {
                    let batches = batches_of(buffer.drain_memory());
                    assert(contents(batches@).len() == batches@.len());
                    (Tick { stage: Stage::Memory(batches) }, TickAction::Publish)
                } else {
                    assert(buffer.memory() =~= Seq::empty());
                    if buffer.should_look_for_chunks() {
                        (Tick { stage: Stage::Listing }, TickAction::ListSpool)
                    } else {
                        (Tick { stage: Stage::Over }, TickAction::Sleep(IDLE_SLEEP_MS))
                    }
                }
            },
            (Stage::Memory(batches), TickEvent::Published) => {
                assert(tells(event, *old(buffer), Told::Published));
                if batches.len() > 1 {
                    let rest = drop_first(batches);
                    assert(contents(rest@).len() == rest@.len());
                    (Tick { stage: Stage::Memory(rest) }, TickAction::Publish)
                } else {
                    (Tick { stage: Stage::Over }, TickAction::Done)
                }
            },
            (Stage::Memory(batches), TickEvent::PublishFailed) => {
                assert(tells(event, *old(buffer), Told::PublishFailed));
                let first = take_first(batches);
                (Tick { stage: Stage::Over }, TickAction::PutBack(first, IDLE_SLEEP_MS))
            },
            (Stage::Listing, TickEvent::Listed(names)) => {
                match buffer.next_disk_chunk(&names) {
                    Some(name) => {
                        assert(tells(event, *old(buffer), Told::Listed(Some(name@))));
                        proof {
                            lemma_some_chunk(names_of(names@), name@);
                        }
                        (
                            Tick { stage: Stage::Reading(name.clone()) },
                            TickAction::ReadChunk(name),
                        )
                    },
                    None => {
                        assert(tells(event, *old(buffer), Told::Listed(None)));
                        (Tick { stage: Stage::Over }, TickAction::Sleep(IDLE_SLEEP_MS))
                    },
                }
            },
            (Stage::Reading(name), TickEvent::Read(entries)) => {
                assert(tells(event, *old(buffer), Told::Read(entries@)));
                if entries.len() > 0 {
                    let batches = batches_of(entries);
                    assert(contents(batches@).len() == batches@.len());
                    (Tick { stage: Stage::Disk(name, batches) }, TickAction::Publish)
                } else {
                    (Tick { stage: Stage::Over }, TickAction::DeleteChunk(name))
                }
            },
            (Stage::Reading(name), TickEvent::Unreadable) => {
                assert(tells(event, *old(buffer), Told::Unreadable));
                (Tick { stage: Stage::Over }, TickAction::DeleteChunk(name))
            },
            (Stage::Disk(name, batches), TickEvent::Published) => {
                assert(tells(event, *old(buffer), Told::Published));
                if batches.len() > 1 {
                    let rest = drop_first(batches);
                    assert(contents(rest@).len() == rest@.len());
                    (Tick { stage: Stage::Disk(name, rest) }, TickAction::Publish)
                } else {
                    (Tick { stage: Stage::Over }, TickAction::DeleteChunk(name))
                }
            },
            (Stage::Disk(_, _), TickEvent::PublishFailed) => {
                assert(tells(event, *old(buffer), Told::PublishFailed));
                (Tick { stage: Stage::Over }, TickAction::Done)
            },
            _ => {
                proof {
                    let told = choose|told: Told| #[trigger]
                        tells(event, *old(buffer), told) && t.awaits(told);
                    assert(tells(event, *old(buffer), told));
                    assert(t.next(told) == TickView::Over);
                }
                (Tick { stage: Stage::Over }, TickAction::Sleep(IDLE_SLEEP_MS))
            },
        }
    }
}

// ---------------------------------------------------------------------------
// Laws
// ---------------------------------------------------------------------------

/// How far a tick has come after some events.
pub open spec fn after(run: Seq<Told>) -> TickView
    decreases run.len(),
{
    if run.len() == 0 {
        TickView::Start
    } else {
        after(run.drop_last()).next(run.last())
    }
}

/// Every event is an outcome of what the tick had asked for.
pub open spec fn proper_run(run: Seq<Told>) -> bool
    decreases run.len(),
{
    run.len() == 0 || (proper_run(run.drop_last()) && after(run.drop_last()).awaits(run.last()))
}

/// The entries that were published in the course of some events, in order.
pub open spec fn sent(run: Seq<Told>) -> Seq<LogEntry>
    decreases run.len(),
{
    if run.len() == 0 {
        Seq::empty()
    } else if run.last() is Published {
        sent(run.drop_last()) + after(run.drop_last()).batches()[0]
    } else {
        sent(run.drop_last())
    }
}

/// What was published so far, and what is still to be published, are together what the
/// tick took from memory or read from the chunk.
spec fn nothing_lost(run: Seq<Told>) -> bool {
    match after(run) {
        TickView::Start => run.len() == 0 && sent(run) == Seq::<LogEntry>::empty(),
        TickView::Memory(batches) => run.len() >= 1 && batches.len() > 0 && (
        run[0] matches Told::Connected(memory, _) && sent(run) + batches.flatten() == memory),
        TickView::Listing => run.len() == 1 && sent(run) == Seq::<LogEntry>::empty(),
        TickView::Reading(name) => run.len() == 2 && run[1] == Told::Listed(Some(name)) && sent(run)
            == Seq::<LogEntry>::empty(),
        TickView::Disk(name, batches) => run.len() >= 3 && batches.len() > 0 && run[1]
            == Told::Listed(Some(name)) && (run[2] matches Told::Read(entries) && sent(run)
            + batches.flatten() == entries),
        TickView::Over => true,
    }
}

/// The first of some batches, and then the rest.
proof fn lemma_first_batch(batches: Seq<Seq<LogEntry>>)
    requires
        batches.len() > 0,
    ensures
        batches.flatten() == batches[0] + batches.skip(1).flatten(),
        batches.len() == 1 ==> batches.flatten() == batches[0],
{
    assert(batches.drop_first() =~= batches.skip(1));
    if batches.len() == 1 {
        assert(batches.skip(1).flatten() =~= Seq::empty());
        assert(batches.flatten() =~= batches[0]);
    }
}

/// Batches of entries: there is one at least, and together they are the entries.
proof fn lemma_batches(entries: Seq<LogEntry>)
    requires
        entries.len() > 0,
    ensures
        chunks(entries, PUBLISH_BATCH_SIZE as nat).len() > 0,
        Seq::<LogEntry>::empty() + chunks(entries, PUBLISH_BATCH_SIZE as nat).flatten() == entries,
{
    law_chunks_keep_everything(entries, PUBLISH_BATCH_SIZE as nat);
    assert(Seq::<LogEntry>::empty() + entries =~= entries);
}

proof fn lemma_nothing_lost(run: Seq<Told>)
    requires
        proper_run(run),
    ensures
        nothing_lost(run),
    decreases run.len(),
{
    if run.len() > 0 {
        let earlier = run.drop_last();
        let told = run.last();
        let t = after(earlier);
        lemma_nothing_lost(earlier);
        assert(run[run.len() - 1] == told);
        assert(forall|i: int| 0 <= i < earlier.len() ==> run[i] == earlier[i]);
        match (t, told) {
            (TickView::Start, Told::Connected(memory, _)) => {
                if memory.len() > 0 {
                    lemma_batches(memory);
                }
            },
            (TickView::Reading(_), Told::Read(entries)) => {
                if entries.len() > 0 {
                    lemma_batches(entries);
                }
            },
            _ => {
                if t.batches().len() > 0 {
                    let batches = t.batches();
                    lemma_first_batch(batches);
                    assert((sent(earlier) + batches[0]) + batches.skip(1).flatten() =~= sent(earlier)
                        + (batches[0] + batches.skip(1).flatten()));
                }
            },
        }
    }
}

/// A chunk is deleted only once every entry in it was published, in order, or where it
/// makes no sense.
pub proof fn law_chunk_is_deleted_once_delivered(run: Seq<Told>, told: Told, name: Seq<char>)
    requires
        proper_run(run.push(told)),
        after(run).asks(told) == Asked::DeleteChunk(name),
    ensures
        run.len() >= 2,
        run[1] == Told::Listed(Some(name)),
        told is Unreadable || (run.push(told)[2] matches Told::Read(entries) && sent(run.push(told))
            == entries),
{
    let whole = run.push(told);
    assert(whole.drop_last() =~= run);
    lemma_nothing_lost(run);
    match after(run) {
        TickView::Disk(_, batches) => {
            lemma_first_batch(batches);
            assert(whole[2] == run[2]);
        },
        TickView::Reading(_) => {
            assert(whole[2] == told);
            if let Told::Read(entries) = told {
                assert(sent(whole) =~= entries);
            }
        },
        _ => {},
    }
}

/// Where entries from memory cannot be published, those are put back that come next
/// behind what was published.
pub proof fn law_failed_batch_is_put_back(
    run: Seq<Told>,
    told: Told,
    entries: Seq<LogEntry>,
    ms: u64,
)
    requires
        proper_run(run.push(told)),
        after(run).asks(told) == Asked::PutBack(entries, ms),
    ensures
        run.len() >= 1,
        run[0] matches Told::Connected(memory, _) && (sent(run) + entries).is_prefix_of(memory),
{
    let whole = run.push(told);
    assert(whole.drop_last() =~= run);
    lemma_nothing_lost(run);
    let batches = after(run).batches();
    lemma_first_batch(batches);
    if let Told::Connected(memory, _) = run[0] {
        assert(memory =~= (sent(run) + entries) + batches.skip(1).flatten());
        assert((sent(run) + entries) =~= memory.subrange(
            0,
            (sent(run) + entries).len() as int,
        ));
    }
}

/// A tick that starts with entries in memory and meets no failure publishes all of
/// them, in order.
pub proof fn law_memory_is_published(run: Seq<Told>, told: Told)
    requires
        proper_run(run.push(told)),
        after(run) is Memory,
        after(run).asks(told) == Asked::Done,
    ensures
        run.len() >= 1,
        run[0] == Told::Connected(sent(run.push(told)), run[0]->Connected_1),
{
    let whole = run.push(told);
    assert(whole.drop_last() =~= run);
    lemma_nothing_lost(run);
    lemma_first_batch(after(run).batches());
}

/// The disk is only looked at where memory is empty.
pub proof fn law_memory_comes_first(t: TickView, told: Told)
    requires
        t.asks(told) == Asked::ListSpool,
    ensures
        told == Told::Connected(Seq::empty(), true),
{
    if let Told::Connected(memory, _) = told {
        assert(memory =~= Seq::empty());
    }
}

/// Nothing is published at once that is longer than a batch, and no batch is empty.
pub proof fn law_batch_lengths(run: Seq<Told>, i: int)
    requires
        proper_run(run),
        0 <= i < after(run).batches().len(),
    ensures
        0 < after(run).batches()[i].len() <= PUBLISH_BATCH_SIZE,
    decreases run.len(),
{
    if run.len() > 0 {
        let earlier = run.drop_last();
        match (after(earlier), run.last()) {
            (TickView::Start, Told::Connected(memory, _)) => {
                law_chunk_lengths(memory, PUBLISH_BATCH_SIZE as nat);
            },
            (TickView::Reading(_), Told::Read(entries)) => {
                law_chunk_lengths(entries, PUBLISH_BATCH_SIZE as nat);
            },
            _ => {
                law_batch_lengths(earlier, i + 1);
            },
        }
    }
}

/// Each task is started exactly where the configuration asks for it: the two sources by
/// their switches, metrics by theirs, the socket for metrics of other programs where it is
/// configured and metrics are on, crash dumps where they are configured.
pub proof fn law_tasks_are_those_asked_for(cfg: Config)
    ensures
        tasks(cfg).journald <==> cfg.sources.journald,
        tasks(cfg).syslog <==> cfg.sources.syslog,
        tasks(cfg).metrics <==> cfg.metrics.enabled,
        tasks(cfg).metrics_socket <==> cfg.metrics.enabled && cfg.metrics.custom is Some,
        tasks(cfg).crashdump <==> cfg.crashdump is Some,
{
}

/// The first so many entries, or all where there are fewer.
pub open spec fn first_of(entries: Seq<LogEntry>, n: int) -> Seq<LogEntry> {
    if entries.len() <= n {
        entries
    } else {
        entries.take(n)
    }
}

/// Batches of entries: the first holds the first two hundred, and together, in order, they
/// are all of them.
proof fn lemma_first_of(entries: Seq<LogEntry>)
    requires
        entries.len() > 0,
    ensures
        chunks(entries, PUBLISH_BATCH_SIZE as nat).len() > 0,
        chunks(entries, PUBLISH_BATCH_SIZE as nat)[0] == first_of(entries, 200),
        chunks(entries, PUBLISH_BATCH_SIZE as nat).flatten() == entries,
{
    law_chunks_keep_everything(entries, PUBLISH_BATCH_SIZE as nat);
}

/// Without a connection nothing is done for 200 milliseconds. With one, what is in memory is
/// published, two hundred entries at a time; only where there is nothing is the spool
/// listed, if chunks are expected there, and else nothing is done for that time.
pub proof fn law_tick_starts_with_memory(memory: Seq<LogEntry>, expects: bool)
    ensures
        TickView::Start.asks(Told::NotConnected) == Asked::Sleep(200),
        TickView::Start.next(Told::NotConnected) == TickView::Over,
        memory.len() > 0 ==> TickView::Start.asks(Told::Connected(memory, expects))
            == Asked::Publish,
        memory.len() > 0 ==> (TickView::Start.next(
            Told::Connected(memory, expects),
        ) matches TickView::Memory(batches) && batches.len() > 0 && batches[0] == first_of(
            memory,
            200,
        ) && batches.flatten() == memory),
        memory.len() == 0 && expects ==> TickView::Start.asks(Told::Connected(memory, expects))
            == Asked::ListSpool && TickView::Start.next(Told::Connected(memory, expects))
            == TickView::Listing,
        memory.len() == 0 && !expects ==> TickView::Start.asks(Told::Connected(memory, expects))
            == Asked::Sleep(200) && TickView::Start.next(Told::Connected(memory, expects))
            == TickView::Over,
{
    if memory.len() > 0 {
        lemma_first_of(memory);
    }
}

/// Behind a batch that was published comes the next one. Behind the last one from memory
/// nothing is left to do; behind the last one of a chunk the chunk is deleted.
pub proof fn law_batches_go_out_in_turn(name: Seq<char>, batches: Seq<Seq<LogEntry>>)
    requires
        batches.len() > 0,
    ensures
        batches.len() > 1 ==> {
            &&& TickView::Memory(batches).asks(Told::Published) == Asked::Publish
            &&& TickView::Memory(batches).next(Told::Published) == TickView::Memory(
                batches.skip(1),
            )
            &&& TickView::Disk(name, batches).asks(Told::Published) == Asked::Publish
            &&& TickView::Disk(name, batches).next(Told::Published) == TickView::Disk(
                name,
                batches.skip(1),
            )
        },
        batches.len() == 1 ==> {
            &&& TickView::Memory(batches).asks(Told::Published) == Asked::Done
            &&& TickView::Disk(name, batches).asks(Told::Published) == Asked::DeleteChunk(name)
            &&& TickView::Memory(batches).next(Told::Published) == TickView::Over
            &&& TickView::Disk(name, batches).next(Told::Published) == TickView::Over
        },
        TickView::Memory(batches).batches() == batches,
        TickView::Disk(name, batches).batches() == batches,
{
}

/// Where a batch from memory cannot be published, that batch is put back and 200 milliseconds
/// pass. Where one of a chunk cannot be, the chunk stays on disk, and nothing is put back.
pub proof fn law_failed_batches_are_kept(name: Seq<char>, batches: Seq<Seq<LogEntry>>)
    requires
        batches.len() > 0,
    ensures
        TickView::Memory(batches).asks(Told::PublishFailed) == Asked::PutBack(batches[0], 200),
        TickView::Memory(batches).next(Told::PublishFailed) == TickView::Over,
        TickView::Disk(name, batches).asks(Told::PublishFailed) == Asked::Done,
        TickView::Disk(name, batches).next(Told::PublishFailed) == TickView::Over,
{
}

/// The newest chunk is read, and what it holds is published, two hundred entries at a time.
/// One that holds nothing or makes no sense is deleted. Where there is no chunk, or the
/// spool cannot be listed, nothing is done for 200 milliseconds.
pub proof fn law_newest_chunk_is_published(name: Seq<char>, entries: Seq<LogEntry>)
    ensures
        TickView::Listing.asks(Told::Listed(Some(name))) == Asked::ReadChunk(name),
        TickView::Listing.next(Told::Listed(Some(name))) == TickView::Reading(name),
        TickView::Listing.asks(Told::Listed(None)) == Asked::Sleep(200),
        TickView::Listing.next(Told::Listed(None)) == TickView::Over,
        TickView::Listing.asks(Told::ListFailed) == Asked::Sleep(200),
        TickView::Listing.next(Told::ListFailed) == TickView::Over,
        TickView::Reading(name).asks(Told::Unreadable) == Asked::DeleteChunk(name),
        TickView::Reading(name).next(Told::Unreadable) == TickView::Over,
        entries.len() == 0 ==> TickView::Reading(name).asks(Told::Read(entries))
            == Asked::DeleteChunk(name) && TickView::Reading(name).next(Told::Read(entries))
            == TickView::Over,
        entries.len() > 0 ==> TickView::Reading(name).asks(Told::Read(entries)) == Asked::Publish
            && (TickView::Reading(name).next(Told::Read(entries)) matches TickView::Disk(
            from,
            batches,
        ) && from == name && batches.len() > 0 && batches[0] == first_of(entries, 200)
            && batches.flatten() == entries),
{
    if entries.len() > 0 {
        lemma_first_of(entries);
    }
}

/// What is told to a tick is what happened: with a connection what is in memory and whether
/// chunks are expected, with a listing the chunk with the highest number in it, where one is
/// expected and there is one.
pub proof fn law_ticks_are_told_what_happened(event: TickEvent, buffer: Buffer, told: Told)
    requires
        tells(event, buffer, told),
    ensures
        event is Connected <==> told is Connected,
        event is Connected ==> told == Told::Connected(buffer.memory(), buffer.expects_chunks()),
        event is NotConnected <==> told is NotConnected,
        event is Published <==> told is Published,
        event is PublishFailed <==> told is PublishFailed,
        event is ListFailed <==> told is ListFailed,
        event is Unreadable <==> told is Unreadable,
        event matches TickEvent::Read(entries) ==> told == Told::Read(entries@),
        event matches TickEvent::Listed(names) ==> (told matches Told::Listed(Some(name)) ==> {
            &&& buffer.expects_chunks()
            &&& names_of(names@).contains(name) && chunk_file(name)
            &&& forall|i: int|
                0 <= i < names@.len() && chunk_file(#[trigger] names_of(names@)[i])
                    ==> chunk_number(names_of(names@)[i]) <= chunk_number(name)
        }),
        event matches TickEvent::Listed(names) ==> (told == Told::Listed(None)
            && buffer.expects_chunks() ==> forall|i: int|
            0 <= i < names@.len() ==> !chunk_file(#[trigger] names_of(names@)[i])),
        event is Listed ==> told is Listed,
{
    if let TickEvent::Listed(names) = event {
        if let Told::Listed(Some(name)) = told {
            assert forall|i: int|
                0 <= i < names@.len() && chunk_file(#[trigger] names_of(names@)[i]) implies chunk_number(
                names_of(names@)[i],
            ) <= chunk_number(name) by {
                assert(!older(name, names_of(names@)[i]));
            }
        }
    }
}

} // verus!
