//! The write pipeline's queue: a bounded FIFO of pending inserts with
//! back-pressure, drained in batches by the background writer.
use vstd::prelude::*;

verus! {

/// The queue bound: producers beyond it are refused.
pub const QUEUE_CAPACITY: usize = 1000;

/// How many items the writer drains per batch.
pub const BATCH_SIZE: usize = 10;

/// Queue length above which the pipeline reports back-pressure.
pub const QUEUE_WARN_THRESHOLD: usize = 500;

/// One pending insert.
#[derive(Debug, Clone)]
pub enum DbEntry {
    Shell {
        content: Vec<u8>,
        timestamp: u64,
        working_dir: Option<Vec<u8>>,
        user: Option<Vec<u8>>,
        host: Option<Vec<u8>>,
        app_name: Vec<u8>,
        window_title: Vec<u8>,
    },
    Clipboard { content: Vec<u8>, timestamp: u64, app_name: Vec<u8>, window_title: Vec<u8> },
}

/// The bounded multi-producer queue in front of the single writer.
pub struct DbWriter {
    pub queue: Vec<DbEntry>,
    pub capacity: usize,
    pub is_running: bool,
}

impl DbWriter {
    /// An empty queue with the standard bound.
    pub fn new() -> (r: DbWriter)
        ensures
            r.queue@.len() == 0,
            r.capacity == QUEUE_CAPACITY,
            r.is_running == false,
    {
        DbWriter { queue: Vec::new(), capacity: QUEUE_CAPACITY, is_running: false }
    }

    /// Record whether the writer thread is running.
    pub fn update_is_running(&mut self, is_running: bool)
        ensures
            final(self).is_running == is_running,
            final(self).queue == old(self).queue,
            final(self).capacity == old(self).capacity,
    {
        self.is_running = is_running;
    }

    /// Enqueue a pending insert in arrival order; a full queue refuses it
    /// (back-pressure: the producer may drop the item).
    pub fn enqueue(&mut self, entry: DbEntry) -> (r: Result<(), DbEntry>)
        ensures
            final(self).capacity == old(self).capacity,
            final(self).is_running == old(self).is_running,
            match r {
                Ok(()) => old(self).queue@.len() < old(self).capacity && final(self).queue@ == old(self).queue@.push(entry),
                Err(e) => old(self).queue@.len() >= old(self).capacity && final(self).queue == old(self).queue && e == entry,
            },
    {
        if self.queue.len() < self.capacity {
            self.queue.push(entry);
            Ok(())
        } else {
            Err(entry)
        }
    }

    /// Queue a shell insert.
    pub fn insert_shell(
        &mut self,
        content: Vec<u8>,
        timestamp: u64,
        working_dir: Option<Vec<u8>>,
        user: Option<Vec<u8>>,
        host: Option<Vec<u8>>,
        app_name: Vec<u8>,
        window_title: Vec<u8>,
    ) -> (r: Result<(), DbEntry>)
        ensures
            final(self).capacity == old(self).capacity,
            final(self).is_running == old(self).is_running,
            match r {
                Ok(()) => old(self).queue@.len() < old(self).capacity && final(self).queue@ == old(
                    self,
                ).queue@.push(
                    (DbEntry::Shell {
                        content,
                        timestamp,
                        working_dir,
                        user,
                        host,
                        app_name,
                        window_title,
                    }),
                ),
                Err(_) => old(self).queue@.len() >= old(self).capacity && final(self).queue == old(self).queue,
            },
    {
        let entry = DbEntry::Shell {
            content,
            timestamp,
            working_dir,
            user,
            host,
            app_name,
            window_title,
        };
        self.enqueue(entry)
    }

    /// Queue a clipboard insert.
    pub fn insert_clipboard(
        &mut self,
        content: Vec<u8>,
        timestamp: u64,
        app_name: Vec<u8>,
        window_title: Vec<u8>,
    ) -> (r: Result<(), DbEntry>)
        ensures
            final(self).capacity == old(self).capacity,
            final(self).is_running == old(self).is_running,
            match r {
                Ok(()) => old(self).queue@.len() < old(self).capacity && final(self).queue@ == old(
                    self,
                ).queue@.push((DbEntry::Clipboard { content, timestamp, app_name, window_title })),
                Err(_) => old(self).queue@.len() >= old(self).capacity && final(self).queue == old(self).queue,
            },
    {
        let entry = DbEntry::Clipboard { content, timestamp, app_name, window_title };
        self.enqueue(entry)
    }

    /// The number of pending inserts.
    pub fn queue_len(&self) -> (r: usize)
        ensures
            r == self.queue@.len(),
    {
        self.queue.len()
    }

    /// Drain up to `max` items in arrival (FIFO) order.
    pub fn drain_batch(&mut self, max: usize) -> (r: Vec<DbEntry>)
        ensures
            final(self).capacity == old(self).capacity,
            final(self).is_running == old(self).is_running,
            ({
                let k = if max <= old(self).queue@.len() {
                    max as int
                } else {
                    old(self).queue@.len() as int
                };
                r@ == old(self).queue@.take(k) && final(self).queue@ == old(self).queue@.skip(k)
            }),
    {
        let k = if max <= self.queue.len() {
            max
        } else {
            self.queue.len()
        };
        let mut batch: Vec<DbEntry> = Vec::new();
        let mut i: usize = 0;
        while i < k
            invariant
                i <= k,
                k <= old(self).queue@.len(),
                self.capacity == old(self).capacity,
                self.is_running == old(self).is_running,
                batch@ == old(self).queue@.take(i as int),
                self.queue@ == old(self).queue@.skip(i as int),
            decreases k - i,
        {
            let e = self.queue.remove(0);
            batch.push(e);
            proof {
                assert(old(self).queue@.skip(i as int)[0] == old(self).queue@[i as int]);
                assert(batch@ =~= old(self).queue@.take(i + 1 as int));
                assert(self.queue@ =~= old(self).queue@.skip(i + 1 as int));
            }
            i = i + 1;
        }
        batch
    }
}

} // verus!
