//! The columnar batch of plain-text records.

use vstd::prelude::*;

verus! {

/// The severity of a plain-text record.
#[derive(Debug, Clone, Copy, PartialEq, Eq, Hash, Structural)]
pub enum LogLevel {
    Debug,
    Info,
    Warn,
    Error,
    Fatal,
    Unknown,
}

/// The level that a level word stands for, told by its first byte and its
/// length alone.
pub open spec fn level_of(b: Seq<u8>) -> LogLevel {
    if b.len() == 5 && b[0] == 'D' as u8 {
        LogLevel::Debug
    } else if b.len() == 4 && b[0] == 'I' as u8 {
        LogLevel::Info
    } else if b.len() == 4 && b[0] == 'W' as u8 {
        LogLevel::Warn
    } else if b.len() == 5 && b[0] == 'E' as u8 {
        LogLevel::Error
    } else if b.len() == 5 && b[0] == 'F' as u8 {
        LogLevel::Fatal
    } else {
        LogLevel::Unknown
    }
}

impl LogLevel {
    pub fn from_bytes(b: &[u8]) -> (r: LogLevel)
        ensures
            r == level_of(b@),
    {
        if b.len() == 0 {
            return LogLevel::Unknown;
        }
        let first: u8 = b[0];
        let len: usize = b.len();
        if first == 'D' as u8 && len == 5 {
            LogLevel::Debug
        } else if first == 'I' as u8 && len == 4 {
            LogLevel::Info
        } else if first == 'W' as u8 && len == 4 {
            LogLevel::Warn
        } else if first == 'E' as u8 && len == 5 {
            LogLevel::Error
        } else if first == 'F' as u8 && len == 5 {
            LogLevel::Fatal
        } else {
            LogLevel::Unknown
        }
    }

    /// The name of the level.
    pub open spec fn name(self) -> Seq<char> {
        match self {
            LogLevel::Debug => "Debug"@,
            LogLevel::Info => "Info"@,
            LogLevel::Warn => "Warn"@,
            LogLevel::Error => "Error"@,
            LogLevel::Fatal => "Fatal"@,
            LogLevel::Unknown => "Unknown"@,
        }
    }

    pub fn as_str(self) -> (r: &'static str)
        ensures
            r@ == self.name(),
    {
        match self {
            LogLevel::Debug => "Debug",
            LogLevel::Info => "Info",
            LogLevel::Warn => "Warn",
            LogLevel::Error => "Error",
            LogLevel::Fatal => "Fatal",
            LogLevel::Unknown => "Unknown",
        }
    }
}

/// One plain-text record as a value.
#[derive(Debug, Clone, Copy)]
pub struct PlainRecord {
    pub timestamp: u64,
    pub level: LogLevel,
    pub component_offset: u64,
    pub component_len: u32,
    pub message_offset: u64,
    pub message_len: u32,
}

impl PlainRecord {
    /// The record of a slot that no line was parsed into.
    pub open spec fn blank() -> PlainRecord {
        PlainRecord {
            timestamp: 0,
            level: LogLevel::Unknown,
            component_offset: 0,
            component_len: 0,
            message_offset: 0,
            message_len: 0,
        }
    }

    /// Component and message lie inside the byte range `lo..hi`.
    pub open spec fn within(self, lo: int, hi: int) -> bool {
        &&& lo <= self.component_offset
        &&& self.component_offset + self.component_len <= hi
        &&& lo <= self.message_offset
        &&& self.message_offset + self.message_len <= hi
    }
}

/// Plain-text records stored column by column: entry `i` of every column
/// belongs to record `i`. Component and message are byte ranges into the
/// buffer the records were parsed from.
#[derive(Debug)]
pub struct LogBatch {
    pub timestamps: Vec<u64>,
    pub levels: Vec<LogLevel>,
    pub component_offsets: Vec<u64>,
    pub component_lens: Vec<u32>,
    pub message_offsets: Vec<u64>,
    pub message_lens: Vec<u32>,
    pub len: usize,
}

impl LogBatch {
    /// Every column holds `len` entries.
    pub open spec fn wf(&self) -> bool {
        &&& self.timestamps@.len() == self.len
        &&& self.levels@.len() == self.len
        &&& self.component_offsets@.len() == self.len
        &&& self.component_lens@.len() == self.len
        &&& self.message_offsets@.len() == self.len
        &&& self.message_lens@.len() == self.len
    }

    pub open spec fn record(&self, i: int) -> PlainRecord {
        PlainRecord {
            timestamp: self.timestamps@[i],
            level: self.levels@[i],
            component_offset: self.component_offsets@[i],
            component_len: self.component_lens@[i],
            message_offset: self.message_offsets@[i],
            message_len: self.message_lens@[i],
        }
    }

    /// The records of the batch, in order.
    pub open spec fn view(&self) -> Seq<PlainRecord> {
        Seq::new(self.len as nat, |i: int| self.record(i))
    }

    /// A batch of `capacity` blank records, to be filled slot by slot.
    pub fn new(capacity: usize) -> (r: Self)
        ensures
            r.wf(),
            r.len == capacity,
            r@ == Seq::new(capacity as nat, |i: int| PlainRecord::blank()),
    {
        let r = LogBatch {
            timestamps: vec![0u64; capacity],
            levels: vec![LogLevel::Unknown; capacity],
            component_offsets: vec![0u64; capacity],
            component_lens: vec![0u32; capacity],
            message_offsets: vec![0u64; capacity],
            message_lens: vec![0u32; capacity],
            len: capacity,
        };
        assert(r@ =~= Seq::new(capacity as nat, |i: int| PlainRecord::blank()));
        r
    }

    /// Writes `record` into slot `index`.
    pub fn set_record(&mut self, index: usize, record: PlainRecord)
        requires
            old(self).wf(),
            index < old(self).len,
        ensures
            final(self).wf(),
            final(self).len == old(self).len,
            final(self)@ == old(self)@.update(index as int, record),
    {
        self.timestamps.set(index, record.timestamp);
        self.levels.set(index, record.level);
        self.component_offsets.set(index, record.component_offset);
        self.component_lens.set(index, record.component_len);
        self.message_offsets.set(index, record.message_offset);
        self.message_lens.set(index, record.message_len);
        assert(self@ =~= old(self)@.update(index as int, record));
    }

    /// The component bytes of record `i` in `data`.
    pub fn component<'a>(&self, data: &'a [u8], i: usize) -> (r: &'a [u8])
        requires
            i < self.component_offsets@.len(),
            i < self.component_lens@.len(),
            self.component_offsets@[i as int] + self.component_lens@[i as int] <= data@.len(),
        ensures
            r@ == data@.subrange(
                self.component_offsets@[i as int] as int,
                self.component_offsets@[i as int] + self.component_lens@[i as int],
            ),
    {
        let len: usize = data.len();
        assert(self.component_offsets@[i as int] + self.component_lens@[i as int] <= len);
        let start: usize = self.component_offsets[i] as usize;
        let end: usize = start + self.component_lens[i] as usize;
        &data[start..end]
    }

    /// The message bytes of record `i` in `data`.
    pub fn message<'a>(&self, data: &'a [u8], i: usize) -> (r: &'a [u8])
        requires
            i < self.message_offsets@.len(),
            i < self.message_lens@.len(),
            self.message_offsets@[i as int] + self.message_lens@[i as int] <= data@.len(),
        ensures
            r@ == data@.subrange(
                self.message_offsets@[i as int] as int,
                self.message_offsets@[i as int] + self.message_lens@[i as int],
            ),
    {
        let len: usize = data.len();
        assert(self.message_offsets@[i as int] + self.message_lens@[i as int] <= len);
        let start: usize = self.message_offsets[i] as usize;
        let end: usize = start + self.message_lens[i] as usize;
        &data[start..end]
    }
}

} // verus!
