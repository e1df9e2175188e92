//! Two-tier buffer: entries in memory, and chunks of entries on disk.
//!
//! Entries are pushed into memory. When memory is full, or on shutdown, they are
//! flushed: the buffer hands out chunks, and whoever owns the disk writes them one
//! after the other and reports each. Entries in memory are sent first, then the
//! chunks on disk, newest first.

use vstd::prelude::*;
use crate::chunks::{chunks, contents, split_chunks};
use crate::chunks::{law_chunk_lengths, law_chunks_keep_everything};
use crate::config::BufferConfig;
use crate::log_entry::LogEntry;
use crate::spool::{any_chunk, chunk_file, chunk_number, lemma_some_chunk, names_of, newest};
use crate::spool::{newest_chunk, older};

verus! {

/// Entries in memory, and whether the disk may hold chunks.
pub struct Buffer {
    cfg: BufferConfig,
    memory: Vec<LogEntry>,
    may_have_chunks: bool,
}

/// Chunks that are taken out of memory and not yet written, and the entry, if there
/// is one, that waits for them. To drop this is to lose them: that is what happens
/// where a write fails.
pub struct Flush {
    chunks: Vec<Vec<LogEntry>>,
    held: Option<LogEntry>,
}

/// What has to be done next.
pub enum FlushStep {
    /// Write the first chunk, then report it with [`Buffer::chunk_written`].
    Write(Flush),
    /// Nothing.
    Done,
}

impl Flush {
    #[verifier::type_invariant]
    spec fn has_chunk(&self) -> bool {
        self.chunks@.len() > 0
    }

    /// The chunks to write, in order.
    pub closed spec fn chunks(&self) -> Seq<Seq<LogEntry>> {
        contents(self.chunks@)
    }

    /// The entry that goes into memory once the chunks are written.
    pub closed spec fn held(&self) -> Option<LogEntry> {
        self.held
    }

    /// The chunk to write.
    pub fn chunk(&self) -> (c: &Vec<LogEntry>)
        ensures
            self.chunks().len() > 0,
            c@ == self.chunks()[0],
    {
        proof {
            use_type_invariant(self);
        }
        &self.chunks[0]
    }
}

impl Buffer {
    /// The entries in memory, oldest first.
    pub closed spec fn memory(&self) -> Seq<LogEntry> {
        self.memory@
    }

    /// The settings of the buffer.
    pub closed spec fn config(&self) -> BufferConfig {
        self.cfg
    }

    /// The settings of the buffer.
    pub fn cfg(&self) -> (c: &BufferConfig)
        ensures
            *c == self.config(),
    {
        &self.cfg
    }

    /// Whether the disk may hold chunks. Where this is false no chunk is looked for.
    pub closed spec fn expects_chunks(&self) -> bool {
        self.may_have_chunks
    }

    /// Chunks are expected wherever a spool directory that holds the files `spool` holds
    /// one.
    pub open spec fn tracks(&self, spool: Seq<Seq<char>>) -> bool {
        any_chunk(spool) ==> self.expects_chunks()
    }

    /// An entry has to wait until memory is flushed.
    pub open spec fn full(&self) -> bool {
        self.memory().len() > 0 && self.memory().len() >= self.config().memory_max_entries
    }

    /// An empty buffer over a spool directory that holds the files `spool`.
    pub fn new(cfg: BufferConfig, spool: &Vec<String>) -> (b: Buffer)
        ensures
            b.config() == cfg,
            b.memory() == Seq::<LogEntry>::empty(),
            b.expects_chunks() == any_chunk(names_of(spool@)),
            b.tracks(names_of(spool@)),
    {
        let may_have_chunks = match newest_chunk(spool) {
            Some(name) => {
                proof {
                    lemma_some_chunk(names_of(spool@), name@);
                }
                true
            },
            None => false,
        };
        Buffer { cfg, memory: Vec::new(), may_have_chunks }
    }

    /// Puts an entry into memory. Where memory is full, what it holds has to be
    /// written to disk first; the entry waits.
    pub fn push(&mut self, entry: LogEntry) -> (r: FlushStep)
        requires
            old(self).full() ==> old(self).config().disk_chunk_max_entries > 0,
        ensures
            final(self).config() == old(self).config(),
            final(self).expects_chunks() == old(self).expects_chunks(),
            pushed(*old(self), entry, *final(self), r),
    {
        if self.memory.len() > 0 && self.memory.len() >= self.cfg.memory_max_entries {
            let entries = self.drain_memory();
            let chunks = split_chunks(entries, self.cfg.disk_chunk_max_entries);
            assert(contents(chunks@).len() == chunks@.len());
            let flush = Flush { chunks, held: Some(entry) };
            FlushStep::Write(flush)
        } else {
            self.memory.push(entry);
            FlushStep::Done
        }
    }

    /// Takes everything out of memory to be written to disk in chunks, oldest first.
    pub fn flush_memory_to_disk(&mut self) -> (r: FlushStep)
        requires
            old(self).memory().len() > 0 ==> old(self).config().disk_chunk_max_entries > 0,
        ensures
            final(self).config() == old(self).config(),
            final(self).expects_chunks() == old(self).expects_chunks(),
            flushed(*old(self), *final(self), r),
    {
        if self.memory.len() == 0 {
            assert(self.memory@ =~= Seq::empty());
            return FlushStep::Done;
        }
        let entries = self.drain_memory();
        let chunks = split_chunks(entries, self.cfg.disk_chunk_max_entries);
        assert(contents(chunks@).len() == chunks@.len());
        let flush = Flush { chunks, held: None };
        FlushStep::Write(flush)
    }

    /// Takes note that the first chunk of `flush` is on disk. Behind the last one
    /// comes the entry that waited.
    pub fn chunk_written(&mut self, flush: Flush) -> (r: FlushStep)
        ensures
            final(self).config() == old(self).config(),
            final(self).expects_chunks(),
            went_on(*old(self), flush, *final(self), r),
    {
        proof {
            use_type_invariant(&flush);
        }
        self.may_have_chunks = true;
        let ghost all = flush.chunks();
        let Flush { chunks, held } = flush;
        let mut chunks = chunks;
        chunks.remove(0);
        assert(contents(chunks@) =~= all.skip(1));
        if chunks.len() > 0 {
            let rest = Flush { chunks, held };
            FlushStep::Write(rest)
        } else {
            if let Some(entry) = held {
                self.memory.push(entry);
            }
            FlushStep::Done
        }
    }

    /// Takes all entries out of memory.
    pub fn drain_memory(&mut self) -> (entries: Vec<LogEntry>)
        ensures
            entries@ == old(self).memory(),
            final(self).memory() == Seq::<LogEntry>::empty(),
            final(self).expects_chunks() == old(self).expects_chunks(),
            final(self).config() == old(self).config(),
    {
        let mut entries: Vec<LogEntry> = Vec::new();
        std::mem::swap(&mut entries, &mut self.memory);
        entries
    }

    /// Whether it is worth looking for chunks on disk.
    pub fn should_look_for_chunks(&self) -> (b: bool)
        ensures
            b == self.expects_chunks(),
    {
        self.may_have_chunks
    }

    /// The newest chunk of a spool directory that holds the files `spool`. Once there
    /// is none, none is expected until the next one is written.
    pub fn next_disk_chunk(&mut self, spool: &Vec<String>) -> (r: Option<String>)
        ensures
            final(self).config() == old(self).config(),
            final(self).memory() == old(self).memory(),
            looked(*old(self), names_of(spool@), *final(self), r),
            old(self).tracks(names_of(spool@)) ==> {
                &&& r is None <==> !any_chunk(names_of(spool@))
                &&& final(self).tracks(names_of(spool@))
            },
    {
        if !self.may_have_chunks {
            return None;
        }
        let next = newest_chunk(spool);
        match &next {
            Some(name) => {
                proof {
                    lemma_some_chunk(names_of(spool@), name@);
                }
            },
            None => {
                self.may_have_chunks = false;
            },
        }
        next
    }

    /// Number of entries in memory.
    pub fn memory_len(&self) -> (n: usize)
        ensures
            n == self.memory().len(),
    {
        self.memory.len()
    }
}

/// The newest chunk among the files `spool` is `r`, where one is expected and there is one.
pub open spec fn looked(
    before: Buffer,
    spool: Seq<Seq<char>>,
    after: Buffer,
    r: Option<String>,
) -> bool {
    &&& after.expects_chunks() == (before.expects_chunks() && any_chunk(spool))
    &&& match r {
        Some(name) => before.expects_chunks() && newest(spool, name@),
        None => !before.expects_chunks() || !any_chunk(spool),
    }
}

/// Where chunks are expected, the one with the highest number is found, if there is one at
/// all, and chunks are expected from then on exactly where one was found. Where none is
/// expected, none is looked for.
pub proof fn law_highest_number_is_found(
    before: Buffer,
    spool: Seq<Seq<char>>,
    after: Buffer,
    r: Option<String>,
)
    requires
        looked(before, spool, after, r),
    ensures
        r is Some <==> before.expects_chunks() && exists|i: int|
            0 <= i < spool.len() && chunk_file(#[trigger] spool[i]),
        after.expects_chunks() <==> r is Some,
        r matches Some(name) ==> spool.contains(name@) && chunk_file(name@) && forall|i: int|
            0 <= i < spool.len() && chunk_file(#[trigger] spool[i]) ==> chunk_number(spool[i])
                <= chunk_number(name@),
{
    if let Some(name) = r {
        lemma_some_chunk(spool, name@);
        assert forall|i: int| 0 <= i < spool.len() && chunk_file(#[trigger] spool[i]) implies
            chunk_number(spool[i]) <= chunk_number(name@) by {
            assert(!older(name@, spool[i]));
        }
    }
}

/// `entry` was put into memory, or waits until what memory held is written.
pub open spec fn pushed(before: Buffer, entry: LogEntry, after: Buffer, step: FlushStep) -> bool {
    match step {
        FlushStep::Done => {
            &&& !before.full()
            &&& after.memory() == before.memory().push(entry)
            &&& after.memory().len() <= 1 || after.memory().len()
                <= after.config().memory_max_entries
        },
        FlushStep::Write(flush) => {
            &&& before.full()
            &&& after.memory() == Seq::<LogEntry>::empty()
            &&& flush.chunks() == chunks(
                before.memory(),
                before.config().disk_chunk_max_entries as nat,
            )
            &&& flush.held() == Some(entry)
        },
    }
}

/// What memory held is to be written.
pub open spec fn flushed(before: Buffer, after: Buffer, step: FlushStep) -> bool {
    &&& after.memory() == Seq::<LogEntry>::empty()
    &&& match step {
        FlushStep::Done => before.memory().len() == 0,
        FlushStep::Write(flush) => {
            &&& before.memory().len() > 0
            &&& flush.chunks() == chunks(
                before.memory(),
                before.config().disk_chunk_max_entries as nat,
            )
            &&& flush.held() is None
        },
    }
}

/// The first chunk of `flush` was written, and the rest is left to do.
pub open spec fn went_on(before: Buffer, flush: Flush, after: Buffer, step: FlushStep) -> bool {
    match step {
        FlushStep::Write(rest) => {
            &&& flush.chunks().len() > 1
            &&& rest.chunks() == flush.chunks().skip(1)
            &&& rest.held() == flush.held()
            &&& after.memory() == before.memory()
        },
        FlushStep::Done => {
            &&& flush.chunks().len() == 1
            &&& after.memory() == match flush.held() {
                Some(entry) => before.memory().push(entry),
                None => before.memory(),
            }
        },
    }
}

/// The entries that are still to be written or wait, in order.
pub open spec fn on_the_way(step: FlushStep) -> Seq<LogEntry> {
    match step {
        FlushStep::Write(flush) => flush.chunks().flatten() + waiting(flush),
        FlushStep::Done => Seq::empty(),
    }
}

/// The entry that waits, if there is one.
pub open spec fn waiting(flush: Flush) -> Seq<LogEntry> {
    match flush.held() {
        Some(entry) => seq![entry],
        None => Seq::empty(),
    }
}

/// An entry that is pushed is not lost and stays behind those that came before it: what is
/// on the way to disk and what is in memory are together, in order, what memory held and
/// then the entry. It goes to memory as long as memory holds fewer entries than it may, or
/// none; else all that memory holds goes first, in chunks no longer than allowed.
pub proof fn law_pushing_loses_nothing(
    before: Buffer,
    entry: LogEntry,
    after: Buffer,
    step: FlushStep,
)
    requires
        pushed(before, entry, after, step),
        before.config().disk_chunk_max_entries > 0,
    ensures
        on_the_way(step) + after.memory() == before.memory().push(entry),
        step is Done <==> before.memory().len() == 0 || before.memory().len()
            < before.config().memory_max_entries,
        step matches FlushStep::Write(flush) ==> after.memory().len() == 0 && forall|i: int|
            0 <= i < flush.chunks().len() ==> 0 < (#[trigger] flush.chunks()[i]).len()
                <= before.config().disk_chunk_max_entries,
{
    if let FlushStep::Write(flush) = step {
        law_flush_takes_every_entry(before, flush);
        assert(before.memory() + seq![entry] =~= before.memory().push(entry));
    }
    assert(on_the_way(step) + after.memory() =~= before.memory().push(entry));
}

/// Flushing takes all that memory holds, in order, and nothing waits for it.
pub proof fn law_flushing_loses_nothing(before: Buffer, after: Buffer, step: FlushStep)
    requires
        flushed(before, after, step),
        before.config().disk_chunk_max_entries > 0,
    ensures
        on_the_way(step) == before.memory(),
        after.memory().len() == 0,
        step is Done <==> before.memory().len() == 0,
{
    if let FlushStep::Write(flush) = step {
        law_flush_takes_every_entry(before, flush);
    }
    assert(on_the_way(step) =~= before.memory());
}

/// When a chunk was written, it is no longer on the way and everything else still is; behind
/// the last chunk the entry that waited is in memory.
pub proof fn law_writing_loses_nothing(
    before: Buffer,
    flush: Flush,
    after: Buffer,
    step: FlushStep,
)
    requires
        went_on(before, flush, after, step),
        flush.chunks().len() > 0,
    ensures
        flush.chunks()[0] + on_the_way(step) == match step {
            FlushStep::Write(_) => flush.chunks().flatten() + waiting(flush),
            FlushStep::Done => flush.chunks().flatten(),
        },
        after.memory() == match step {
            FlushStep::Write(_) => before.memory(),
            FlushStep::Done => before.memory() + waiting(flush),
        },
{
    let all = flush.chunks();
    assert(all.drop_first() =~= all.skip(1));
    if let FlushStep::Write(rest) = step {
        assert(all[0] + (all.skip(1).flatten() + waiting(flush)) =~= all.flatten() + waiting(
            flush,
        ));
    } else {
        assert(all.skip(1).flatten() =~= Seq::empty());
        assert(all[0] + Seq::<LogEntry>::empty() =~= all.flatten());
    }
    assert(after.memory() =~= match step {
        FlushStep::Write(_) => before.memory(),
        FlushStep::Done => before.memory() + waiting(flush),
    });
}

/// What is taken out of memory to be written is all that was in it, in order, in chunks
/// that are not empty and not longer than allowed.
pub proof fn law_flush_takes_every_entry(before: Buffer, flush: Flush)
    requires
        before.config().disk_chunk_max_entries > 0,
        flush.chunks() == chunks(
            before.memory(),
            before.config().disk_chunk_max_entries as nat,
        ),
    ensures
        flush.chunks().flatten() == before.memory(),
        forall|i: int|
            0 <= i < flush.chunks().len() ==> 0 < (#[trigger] flush.chunks()[i]).len()
                <= before.config().disk_chunk_max_entries,
{
    law_chunks_keep_everything(
        before.memory(),
        before.config().disk_chunk_max_entries as nat,
    );
    law_chunk_lengths(before.memory(), before.config().disk_chunk_max_entries as nat);
}

/// What happens to a spool directory and is seen of it, where only the buffer writes
/// chunks.
pub enum SpoolChange {
    /// The buffer took note that the chunk of this name was written.
    Written(Seq<char>),
    /// The file of this name was deleted.
    Deleted(Seq<char>),
    /// The buffer looked for the newest chunk.
    Looked,
}

/// The files of a spool directory after some changes.
pub open spec fn spool_after(spool: Seq<Seq<char>>, run: Seq<SpoolChange>) -> Seq<Seq<char>>
    decreases run.len(),
{
    if run.len() == 0 {
        spool
    } else {
        let had = spool_after(spool, run.drop_last());
        match run.last() {
            SpoolChange::Written(name) => had.push(name),
            SpoolChange::Deleted(name) => had.remove_value(name),
            SpoolChange::Looked => had,
        }
    }
}

/// Whether chunks are expected after some changes, by a buffer that was made when the
/// directory held the files `spool`. Pushing, flushing and draining leave it alone.
pub open spec fn expects_after(spool: Seq<Seq<char>>, run: Seq<SpoolChange>) -> bool
    decreases run.len(),
{
    if run.len() == 0 {
        any_chunk(spool)
    } else {
        let had = expects_after(spool, run.drop_last());
        match run.last() {
            SpoolChange::Written(_) => true,
            SpoolChange::Deleted(_) => had,
            SpoolChange::Looked => had && any_chunk(spool_after(spool, run.drop_last())),
        }
    }
}

/// While only the buffer writes chunks, they are expected whenever the spool holds one,
/// so none is overlooked.
pub proof fn law_chunks_on_disk_are_expected(spool: Seq<Seq<char>>, run: Seq<SpoolChange>)
    ensures
        any_chunk(spool_after(spool, run)) ==> expects_after(spool, run),
    decreases run.len(),
{
    if run.len() > 0 {
        let earlier = run.drop_last();
        law_chunks_on_disk_are_expected(spool, earlier);
        let had = spool_after(spool, earlier);
        if let SpoolChange::Deleted(name) = run.last() {
            let left = had.remove_value(name);
            if any_chunk(left) {
                let i = choose|i: int| 0 <= i < left.len() && chunk_file(#[trigger] left[i]);
                if had.contains(name) {
                    let k = had.index_of_first(name)->0;
                    had.index_of_first_ensures(name);
                    assert(left == had.remove(k));
                    if i < k {
                        assert(chunk_file(had[i]));
                    } else {
                        assert(chunk_file(had[i + 1]));
                    }
                } else {
                    had.index_of_first_ensures(name);
                    assert(chunk_file(had[i]));
                }
            }
        }
    }
}

} // verus!
