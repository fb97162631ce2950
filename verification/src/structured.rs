//! The columnar batch of structured records.
//!
//! A batch stores, for every record, the byte range of its line and the byte
//! ranges of its fields. It never holds the bytes: every range is an offset
//! into the buffer the records were parsed from, and the accessors take that
//! buffer as an argument.

use crate::structured::well_known::WellKnownKind;
use vstd::prelude::*;

pub mod well_known;

verus! {

/// The slot value that stands for "no field of this record".
pub const ABSENT: u32 = 0xFFFF_FFFF;

/// The most entries that `with_capacity` sets aside ahead of use.
pub const MAX_RESERVE: usize = 0x100_0000;

/// The byte ranges of one key and its value.
#[derive(Debug, Clone, Copy)]
pub struct FieldRef {
    pub key_offset: u64,
    pub key_len: u32,
    pub val_offset: u64,
    pub val_len: u32,
}

impl FieldRef {
    /// Both ranges lie inside the byte range `lo..hi`.
    pub open spec fn within(self, lo: int, hi: int) -> bool {
        &&& lo <= self.key_offset
        &&& self.key_offset + self.key_len <= hi
        &&& lo <= self.val_offset
        &&& self.val_offset + self.val_len <= hi
    }
}

/// For each well-known kind, the position in `fields` of the record's field of
/// that kind, or `ABSENT`.
#[derive(Debug, Clone, Copy)]
pub struct WellKnownFields {
    pub timestamp: u32,
    pub level: u32,
    pub message: u32,
    pub component: u32,
}

impl WellKnownFields {
    pub open spec fn absent() -> WellKnownFields {
        WellKnownFields { timestamp: ABSENT, level: ABSENT, message: ABSENT, component: ABSENT }
    }

    /// The slots with the one for `kind` set to `idx`; `Other` has no slot.
    pub open spec fn with_slot(self, kind: WellKnownKind, idx: u32) -> WellKnownFields {
        match kind {
            WellKnownKind::Timestamp => WellKnownFields { timestamp: idx, ..self },
            WellKnownKind::Level => WellKnownFields { level: idx, ..self },
            WellKnownKind::Message => WellKnownFields { message: idx, ..self },
            WellKnownKind::Component => WellKnownFields { component: idx, ..self },
            WellKnownKind::Other => self,
        }
    }

    /// Every slot is `ABSENT` or a position in `lo..hi`.
    pub open spec fn valid_in(self, lo: int, hi: int) -> bool {
        &&& slot_valid(self.timestamp, lo, hi)
        &&& slot_valid(self.level, lo, hi)
        &&& slot_valid(self.message, lo, hi)
        &&& slot_valid(self.component, lo, hi)
    }

    /// The slots as positions counted from the record's first field.
    pub open spec fn relative_to(self, first: int) -> WellKnownView {
        WellKnownView {
            timestamp: slot_relative(self.timestamp, first),
            level: slot_relative(self.level, first),
            message: slot_relative(self.message, first),
            component: slot_relative(self.component, first),
        }
    }
}

impl Default for WellKnownFields {
    fn default() -> (r: Self)
        ensures
            r == WellKnownFields::absent(),
    {
        WellKnownFields { timestamp: ABSENT, level: ABSENT, message: ABSENT, component: ABSENT }
    }
}

pub open spec fn slot_valid(slot: u32, lo: int, hi: int) -> bool {
    slot == ABSENT || lo <= slot < hi
}

pub open spec fn slot_relative(slot: u32, first: int) -> Option<int> {
    if slot == ABSENT {
        None
    } else {
        Some(slot - first)
    }
}

pub open spec fn slot_absolute(rel: Option<int>, first: int) -> u32 {
    match rel {
        None => ABSENT,
        Some(r) => (first + r) as u32,
    }
}

/// The position of the last key of kind `kind` among `kinds`, if there is one.
pub open spec fn last_of_kind(kinds: Seq<WellKnownKind>, kind: WellKnownKind) -> Option<int>
    decreases kinds.len(),
{
    if kinds.len() == 0 {
        None
    } else if kinds.last() == kind {
        Some(kinds.len() - 1)
    } else {
        last_of_kind(kinds.drop_last(), kind)
    }
}

/// `last_of_kind` names a key of the kind after which no key of that kind
/// follows, and is `None` only when no key is of the kind.
pub proof fn lemma_last_of_kind(kinds: Seq<WellKnownKind>, kind: WellKnownKind)
    ensures
        match last_of_kind(kinds, kind) {
            Some(p) => 0 <= p < kinds.len() && kinds[p] == kind && forall|j: int|
                p < j < kinds.len() ==> kinds[j] != kind,
            None => forall|j: int| 0 <= j < kinds.len() ==> kinds[j] != kind,
        },
    decreases kinds.len(),
{
    if kinds.len() > 0 && kinds.last() != kind {
        lemma_last_of_kind(kinds.drop_last(), kind);
        assert forall|j: int| 0 <= j < kinds.len() - 1 implies kinds.drop_last()[j] == kinds[j] by {}
    }
}

/// The well-known slots of one record, each as a position among the record's
/// own fields.
pub struct WellKnownView {
    pub timestamp: Option<int>,
    pub level: Option<int>,
    pub message: Option<int>,
    pub component: Option<int>,
}

/// The slots of a record whose keys have the kinds `kinds`, in order: for each
/// kind the last key of that kind wins.
pub open spec fn slots_of(kinds: Seq<WellKnownKind>) -> WellKnownView {
    WellKnownView {
        timestamp: last_of_kind(kinds, WellKnownKind::Timestamp),
        level: last_of_kind(kinds, WellKnownKind::Level),
        message: last_of_kind(kinds, WellKnownKind::Message),
        component: last_of_kind(kinds, WellKnownKind::Component),
    }
}

/// The slots of `slots_of(kinds)` as positions in `fields`, the record's first
/// field standing at `first`.
pub open spec fn slots_at(kinds: Seq<WellKnownKind>, first: int) -> WellKnownFields {
    WellKnownFields {
        timestamp: slot_absolute(last_of_kind(kinds, WellKnownKind::Timestamp), first),
        level: slot_absolute(last_of_kind(kinds, WellKnownKind::Level), first),
        message: slot_absolute(last_of_kind(kinds, WellKnownKind::Message), first),
        component: slot_absolute(last_of_kind(kinds, WellKnownKind::Component), first),
    }
}

/// Seeing one more key updates the slot of its kind and no other.
pub proof fn lemma_slots_at_push(kinds: Seq<WellKnownKind>, kind: WellKnownKind, first: int)
    requires
        0 <= first,
        first + kinds.len() < ABSENT,
    ensures
        slots_at(kinds.push(kind), first) == slots_at(kinds, first).with_slot(
            kind,
            (first + kinds.len()) as u32,
        ),
{
    let k2 = kinds.push(kind);
    assert(k2.drop_last() =~= kinds);
    assert(k2.last() == kind);
}

/// Read back relative to the record, `slots_at` is `slots_of`.
pub proof fn lemma_slots_at_relative(kinds: Seq<WellKnownKind>, first: int)
    requires
        0 <= first,
        first + kinds.len() <= ABSENT,
    ensures
        slots_at(kinds, first).relative_to(first) == slots_of(kinds),
        slots_at(kinds, first).valid_in(first, first + kinds.len()),
{
    lemma_last_of_kind(kinds, WellKnownKind::Timestamp);
    lemma_last_of_kind(kinds, WellKnownKind::Level);
    lemma_last_of_kind(kinds, WellKnownKind::Message);
    lemma_last_of_kind(kinds, WellKnownKind::Component);
}

/// One record as a value: its line, its fields in order, and its slots.
pub struct RecordView {
    pub line_offset: u64,
    pub line_len: u32,
    pub fields: Seq<FieldRef>,
    pub slots: WellKnownView,
}

/// Records stored column by column.
///
/// `fields` holds the fields of all records back to back; record `i` owns
/// `fields[field_starts[i]..field_starts[i + 1]]`. Between `begin_record` and
/// `end_record` the newest record has no closing entry in `field_starts` yet.
#[derive(Debug)]
pub struct StructuredBatch {
    pub fields: Vec<FieldRef>,
    pub field_starts: Vec<u32>,
    pub well_known: Vec<WellKnownFields>,
    pub line_offsets: Vec<u64>,
    pub line_lens: Vec<u32>,
    pub len: usize,
}

impl StructuredBatch {
    /// The per-record columns all hold `len` entries.
    pub open spec fn columns_agree(&self) -> bool {
        &&& self.line_offsets@.len() == self.len
        &&& self.line_lens@.len() == self.len
        &&& self.well_known@.len() == self.len
    }

    /// `field_starts` begins with 0, never decreases and stays within `fields`.
    pub open spec fn starts_ordered(&self) -> bool {
        &&& self.field_starts@.len() >= 1
        &&& self.field_starts@[0] == 0
        &&& forall|i: int, j: int|
            0 <= i <= j < self.field_starts@.len() ==> #[trigger] self.field_starts@[i]
                <= #[trigger] self.field_starts@[j]
        &&& self.field_starts@.last() <= self.fields@.len()
    }

    /// Every record is closed: the batch is a sequence of whole records.
    pub open spec fn complete(&self) -> bool {
        &&& self.columns_agree()
        &&& self.starts_ordered()
        &&& self.field_starts@.len() == self.len + 1
        &&& self.field_starts@.last() == self.fields@.len()
        &&& forall|i: int|
            0 <= i < self.len ==> (#[trigger] self.well_known@[i]).valid_in(
                self.field_starts@[i] as int,
                self.field_starts@[i + 1] as int,
            )
    }

    /// A record was begun and not yet ended; the fields pushed since belong
    /// to it.
    pub open spec fn recording(&self) -> bool {
        &&& self.columns_agree()
        &&& self.starts_ordered()
        &&& self.len >= 1
        &&& self.field_starts@.len() == self.len
        &&& forall|i: int|
            0 <= i < self.len - 1 ==> (#[trigger] self.well_known@[i]).valid_in(
                self.field_starts@[i] as int,
                self.field_starts@[i + 1] as int,
            )
        &&& self.well_known@.last().valid_in(
            self.field_starts@.last() as int,
            self.fields@.len() as int,
        )
    }

    /// Record `i` of a complete batch.
    pub open spec fn record(&self, i: int) -> RecordView {
        RecordView {
            line_offset: self.line_offsets@[i],
            line_len: self.line_lens@[i],
            fields: self.fields@.subrange(
                self.field_starts@[i] as int,
                self.field_starts@[i + 1] as int,
            ),
            slots: self.well_known@[i].relative_to(self.field_starts@[i] as int),
        }
    }

    /// The records of a complete batch, in order.
    pub open spec fn view(&self) -> Seq<RecordView> {
        Seq::new(self.len as nat, |i: int| self.record(i))
    }

    /// Every line and every field range lies inside a buffer of `buffer_len`
    /// bytes.
    pub open spec fn within(&self, buffer_len: int) -> bool {
        &&& forall|i: int|
            0 <= i < self.fields@.len() ==> (#[trigger] self.fields@[i]).within(0, buffer_len)
        &&& forall|i: int|
            0 <= i < self.line_offsets@.len() && i < self.line_lens@.len()
                ==> #[trigger] self.line_offsets@[i] + self.line_lens@[i] <= buffer_len
    }

    /// An empty batch. The capacities only size the first allocation, and no
    /// more than `MAX_RESERVE` entries are set aside for any column.
    pub fn with_capacity(record_capacity: usize, field_capacity: usize) -> (r: Self)
        ensures
            r.complete(),
            r.len == 0,
            r.fields@.len() == 0,
            r.field_starts@ == seq![0u32],
            r@ == Seq::<RecordView>::empty(),
    {
        let records: usize = if record_capacity < MAX_RESERVE {
            record_capacity
        } else {
            MAX_RESERVE
        };
        let fields: usize = if field_capacity < MAX_RESERVE {
            field_capacity
        } else {
            MAX_RESERVE
        };
        let mut field_starts: Vec<u32> = Vec::with_capacity(records + 1);
        field_starts.push(0);
        let r = StructuredBatch {
            fields: Vec::with_capacity(fields),
            field_starts,
            well_known: Vec::with_capacity(records),
            line_offsets: Vec::with_capacity(records),
            line_lens: Vec::with_capacity(records),
            len: 0,
        };
        assert(r@ =~= Seq::<RecordView>::empty());
        r
    }

    /// Opens a record for the line at `line_offset`, with every slot absent.
    pub fn begin_record(&mut self, line_offset: u64, line_len: u32)
        requires
            old(self).len < usize::MAX,
        ensures
            final(self).line_offsets@ == old(self).line_offsets@.push(line_offset),
            final(self).line_lens@ == old(self).line_lens@.push(line_len),
            final(self).well_known@ == old(self).well_known@.push(WellKnownFields::absent()),
            final(self).len == old(self).len + 1,
            final(self).fields@ == old(self).fields@,
            final(self).field_starts@ == old(self).field_starts@,
            old(self).complete() ==> final(self).recording(),
    {
        self.line_offsets.push(line_offset);
        self.line_lens.push(line_len);
        self.well_known.push(WellKnownFields::default());
        self.len += 1;
    }

    /// Appends a field to `fields`.
    pub fn push_field(&mut self, field: FieldRef)
        ensures
            final(self).fields@ == old(self).fields@.push(field),
            final(self).field_starts@ == old(self).field_starts@,
            final(self).well_known@ == old(self).well_known@,
            final(self).line_offsets@ == old(self).line_offsets@,
            final(self).line_lens@ == old(self).line_lens@,
            final(self).len == old(self).len,
            old(self).recording() ==> final(self).recording(),
    {
        self.fields.push(field);
    }

    /// Closes the open record: its fields end where `fields` ends now.
    pub fn end_record(&mut self)
        requires
            old(self).fields@.len() <= u32::MAX,
        ensures
            final(self).field_starts@ == old(self).field_starts@.push(
                old(self).fields@.len() as u32,
            ),
            final(self).fields@ == old(self).fields@,
            final(self).well_known@ == old(self).well_known@,
            final(self).line_offsets@ == old(self).line_offsets@,
            final(self).line_lens@ == old(self).line_lens@,
            final(self).len == old(self).len,
            old(self).recording() ==> final(self).complete(),
    {
        let end: u32 = self.fields.len() as u32;
        self.field_starts.push(end);
        proof {
            if old(self).recording() {
                let a = old(self).field_starts@;
                let b = self.field_starts@;
                assert forall|i: int, j: int| 0 <= i <= j < b.len() implies #[trigger] b[i]
                    <= #[trigger] b[j] by {
                    if j < a.len() {
                        assert(a[i] <= a[j]);
                    } else if i < a.len() {
                        assert(a[i] <= a[a.len() - 1]);
                    }
                }
                assert forall|i: int| 0 <= i < self.len implies (#[trigger] self.well_known@[i])
                    .valid_in(b[i] as int, b[i + 1] as int) by {
                    if i < self.len - 1 {
                        assert(old(self).well_known@[i].valid_in(a[i] as int, a[i + 1] as int));
                    }
                }
            }
        }
    }

    /// Sets the slot of `kind` in the newest record; a batch without records
    /// and the kind `Other` are left alone.
    pub fn set_well_known(&mut self, kind: WellKnownKind, field_idx: u32)
        ensures
            old(self).well_known@.len() == 0 ==> final(self).well_known@ == old(
                self,
            ).well_known@,
            old(self).well_known@.len() > 0 ==> final(self).well_known@ == old(
                self,
            ).well_known@.update(
                old(self).well_known@.len() - 1,
                old(self).well_known@.last().with_slot(kind, field_idx),
            ),
            final(self).fields@ == old(self).fields@,
            final(self).field_starts@ == old(self).field_starts@,
            final(self).line_offsets@ == old(self).line_offsets@,
            final(self).line_lens@ == old(self).line_lens@,
            final(self).len == old(self).len,
            old(self).recording() && slot_valid(
                field_idx,
                old(self).field_starts@.last() as int,
                old(self).fields@.len() as int,
            ) ==> final(self).recording(),
    {
        match kind {
            WellKnownKind::Timestamp => self.set_well_known_timestamp(field_idx),
            WellKnownKind::Level => self.set_well_known_level(field_idx),
            WellKnownKind::Message => self.set_well_known_message(field_idx),
            WellKnownKind::Component => self.set_well_known_component(field_idx),
            WellKnownKind::Other => {
                assert(self.well_known@ =~= old(self).well_known@.update(
                    old(self).well_known@.len() - 1,
                    old(self).well_known@.last().with_slot(kind, field_idx),
                ) || old(self).well_known@.len() == 0);
            },
        }
    }

    /// Points the timestamp slot of the newest record at `field_idx`.
    pub fn set_well_known_timestamp(&mut self, field_idx: u32)
        ensures
            old(self).well_known@.len() == 0 ==> final(self).well_known@ == old(
                self,
            ).well_known@,
            old(self).well_known@.len() > 0 ==> final(self).well_known@ == old(
                self,
            ).well_known@.update(
                old(self).well_known@.len() - 1,
                old(self).well_known@.last().with_slot(WellKnownKind::Timestamp, field_idx),
            ),
            final(self).fields@ == old(self).fields@,
            final(self).field_starts@ == old(self).field_starts@,
            final(self).line_offsets@ == old(self).line_offsets@,
            final(self).line_lens@ == old(self).line_lens@,
            final(self).len == old(self).len,
            old(self).recording() && slot_valid(
                field_idx,
                old(self).field_starts@.last() as int,
                old(self).fields@.len() as int,
            ) ==> final(self).recording(),
    {
        let n: usize = self.well_known.len();
        if n > 0 {
            let mut slots: WellKnownFields = self.well_known[n - 1];
            slots.timestamp = field_idx;
            self.well_known.set(n - 1, slots);
        }
    }

    /// Points the level slot of the newest record at `field_idx`.
    pub fn set_well_known_level(&mut self, field_idx: u32)
        ensures
            old(self).well_known@.len() == 0 ==> final(self).well_known@ == old(
                self,
            ).well_known@,
            old(self).well_known@.len() > 0 ==> final(self).well_known@ == old(
                self,
            ).well_known@.update(
                old(self).well_known@.len() - 1,
                old(self).well_known@.last().with_slot(WellKnownKind::Level, field_idx),
            ),
            final(self).fields@ == old(self).fields@,
            final(self).field_starts@ == old(self).field_starts@,
            final(self).line_offsets@ == old(self).line_offsets@,
            final(self).line_lens@ == old(self).line_lens@,
            final(self).len == old(self).len,
            old(self).recording() && slot_valid(
                field_idx,
                old(self).field_starts@.last() as int,
                old(self).fields@.len() as int,
            ) ==> final(self).recording(),
    {
        let n: usize = self.well_known.len();
        if n > 0 {
            let mut slots: WellKnownFields = self.well_known[n - 1];
            slots.level = field_idx;
            self.well_known.set(n - 1, slots);
        }
    }

    /// Points the message slot of the newest record at `field_idx`.
    pub fn set_well_known_message(&mut self, field_idx: u32)
        ensures
            old(self).well_known@.len() == 0 ==> final(self).well_known@ == old(
                self,
            ).well_known@,
            old(self).well_known@.len() > 0 ==> final(self).well_known@ == old(
                self,
            ).well_known@.update(
                old(self).well_known@.len() - 1,
                old(self).well_known@.last().with_slot(WellKnownKind::Message, field_idx),
            ),
            final(self).fields@ == old(self).fields@,
            final(self).field_starts@ == old(self).field_starts@,
            final(self).line_offsets@ == old(self).line_offsets@,
            final(self).line_lens@ == old(self).line_lens@,
            final(self).len == old(self).len,
            old(self).recording() && slot_valid(
                field_idx,
                old(self).field_starts@.last() as int,
                old(self).fields@.len() as int,
            ) ==> final(self).recording(),
    {
        let n: usize = self.well_known.len();
        if n > 0 {
            let mut slots: WellKnownFields = self.well_known[n - 1];
            slots.message = field_idx;
            self.well_known.set(n - 1, slots);
        }
    }

    /// Points the component slot of the newest record at `field_idx`.
    pub fn set_well_known_component(&mut self, field_idx: u32)
        ensures
            old(self).well_known@.len() == 0 ==> final(self).well_known@ == old(
                self,
            ).well_known@,
            old(self).well_known@.len() > 0 ==> final(self).well_known@ == old(
                self,
            ).well_known@.update(
                old(self).well_known@.len() - 1,
                old(self).well_known@.last().with_slot(WellKnownKind::Component, field_idx),
            ),
            final(self).fields@ == old(self).fields@,
            final(self).field_starts@ == old(self).field_starts@,
            final(self).line_offsets@ == old(self).line_offsets@,
            final(self).line_lens@ == old(self).line_lens@,
            final(self).len == old(self).len,
            old(self).recording() && slot_valid(
                field_idx,
                old(self).field_starts@.last() as int,
                old(self).fields@.len() as int,
            ) ==> final(self).recording(),
    {
        let n: usize = self.well_known.len();
        if n > 0 {
            let mut slots: WellKnownFields = self.well_known[n - 1];
            slots.component = field_idx;
            self.well_known.set(n - 1, slots);
        }
    }

    /// The number of fields of record `i`.
    pub fn field_count(&self, i: usize) -> (r: usize)
        requires
            i + 1 < self.field_starts@.len(),
            self.field_starts@[i as int] <= self.field_starts@[i + 1],
        ensures
            r == self.field_starts@[i + 1] - self.field_starts@[i as int],
            self.complete() ==> r == self@[i as int].fields.len(),
    {
        let entries: usize = self.field_starts.len();
        assert(i + 1 < entries);
        proof {
            if self.complete() {
                lemma_record_ranges_ordered(*self, i as int);
            }
        }
        (self.field_starts[i + 1] - self.field_starts[i]) as usize
    }

    /// The fields of record `i`.
    pub fn record_fields(&self, i: usize) -> (r: &[FieldRef])
        requires
            i + 1 < self.field_starts@.len(),
            self.field_starts@[i as int] <= self.field_starts@[i + 1],
            self.field_starts@[i + 1] <= self.fields@.len(),
        ensures
            r@ == self.fields@.subrange(
                self.field_starts@[i as int] as int,
                self.field_starts@[i + 1] as int,
            ),
            self.complete() ==> r@ == self@[i as int].fields,
    {
        let entries: usize = self.field_starts.len();
        assert(i + 1 < entries);
        let all: &[FieldRef] = self.fields.as_slice();
        let start: usize = self.field_starts[i] as usize;
        let end: usize = self.field_starts[i + 1] as usize;
        &all[start..end]
    }

    /// The key bytes of `field` in `data`.
    pub fn field_key<'a>(&self, data: &'a [u8], field: &FieldRef) -> (r: &'a [u8])
        requires
            field.key_offset + field.key_len <= data@.len(),
        ensures
            r@ == data@.subrange(
                field.key_offset as int,
                field.key_offset + field.key_len,
            ),
    {
        let len: usize = data.len();
        assert(field.key_offset + field.key_len <= len);
        let start: usize = field.key_offset as usize;
        let end: usize = start + field.key_len as usize;
        &data[start..end]
    }

    /// The value bytes of `field` in `data`.
    pub fn field_value<'a>(&self, data: &'a [u8], field: &FieldRef) -> (r: &'a [u8])
        requires
            field.val_offset + field.val_len <= data@.len(),
        ensures
            r@ == data@.subrange(
                field.val_offset as int,
                field.val_offset + field.val_len,
            ),
    {
        let len: usize = data.len();
        assert(field.val_offset + field.val_len <= len);
        let start: usize = field.val_offset as usize;
        let end: usize = start + field.val_len as usize;
        &data[start..end]
    }

    /// The bytes of the line of record `i` in `data`.
    pub fn raw_line<'a>(&self, data: &'a [u8], i: usize) -> (r: &'a [u8])
        requires
            i < self.line_offsets@.len(),
            i < self.line_lens@.len(),
            self.line_offsets@[i as int] + self.line_lens@[i as int] <= data@.len(),
        ensures
            r@ == data@.subrange(
                self.line_offsets@[i as int] as int,
                self.line_offsets@[i as int] + self.line_lens@[i as int],
            ),
    {
        let len: usize = data.len();
        assert(self.line_offsets@[i as int] + self.line_lens@[i as int] <= len);
        let start: usize = self.line_offsets[i] as usize;
        let end: usize = start + self.line_lens[i] as usize;
        &data[start..end]
    }

    /// What `slot_value` returns for the slot `slot`: nothing for `ABSENT`,
    /// else the value bytes of the field at that position.
    pub open spec fn slot_bytes(&self, data: Seq<u8>, slot: u32) -> Option<Seq<u8>> {
        if slot == ABSENT {
            None
        } else {
            Some(
                data.subrange(
                    self.fields@[slot as int].val_offset as int,
                    self.fields@[slot as int].val_offset + self.fields@[slot as int].val_len,
                ),
            )
        }
    }

    /// The slot can be read from `data`: it is `ABSENT`, or names a field
    /// whose value lies inside `data`.
    pub open spec fn slot_readable(&self, data: Seq<u8>, slot: u32) -> bool {
        slot == ABSENT || (slot < self.fields@.len() && self.fields@[slot as int].val_offset
            + self.fields@[slot as int].val_len <= data.len())
    }

    fn slot_value<'a>(&self, data: &'a [u8], slot: u32) -> (r: Option<&'a [u8]>)
        requires
            self.slot_readable(data@, slot),
        ensures
            r.is_some() == self.slot_bytes(data@, slot).is_some(),
            r.is_some() ==> r.unwrap()@ == self.slot_bytes(data@, slot).unwrap(),
    {
        if slot == ABSENT {
            None
        } else {
            Some(self.field_value(data, &self.fields[slot as usize]))
        }
    }

    /// The value of the timestamp field of record `i`, if it has one.
    pub fn timestamp_value<'a>(&self, data: &'a [u8], i: usize) -> (r: Option<&'a [u8]>)
        requires
            i < self.well_known@.len(),
            self.slot_readable(data@, self.well_known@[i as int].timestamp),
        ensures
            r.is_some() == self.slot_bytes(data@, self.well_known@[i as int].timestamp).is_some(),
            r.is_some() ==> r.unwrap()@ == self.slot_bytes(
                data@,
                self.well_known@[i as int].timestamp,
            ).unwrap(),
    {
        self.slot_value(data, self.well_known[i].timestamp)
    }

    /// The value of the level field of record `i`, if it has one.
    pub fn level_value<'a>(&self, data: &'a [u8], i: usize) -> (r: Option<&'a [u8]>)
        requires
            i < self.well_known@.len(),
            self.slot_readable(data@, self.well_known@[i as int].level),
        ensures
            r.is_some() == self.slot_bytes(data@, self.well_known@[i as int].level).is_some(),
            r.is_some() ==> r.unwrap()@ == self.slot_bytes(
                data@,
                self.well_known@[i as int].level,
            ).unwrap(),
    {
        self.slot_value(data, self.well_known[i].level)
    }

    /// The value of the message field of record `i`, if it has one.
    pub fn message_value<'a>(&self, data: &'a [u8], i: usize) -> (r: Option<&'a [u8]>)
        requires
            i < self.well_known@.len(),
            self.slot_readable(data@, self.well_known@[i as int].message),
        ensures
            r.is_some() == self.slot_bytes(data@, self.well_known@[i as int].message).is_some(),
            r.is_some() ==> r.unwrap()@ == self.slot_bytes(
                data@,
                self.well_known@[i as int].message,
            ).unwrap(),
    {
        self.slot_value(data, self.well_known[i].message)
    }

    /// The value of the component field of record `i`, if it has one.
    pub fn component_value<'a>(&self, data: &'a [u8], i: usize) -> (r: Option<&'a [u8]>)
        requires
            i < self.well_known@.len(),
            self.slot_readable(data@, self.well_known@[i as int].component),
        ensures
            r.is_some() == self.slot_bytes(
                data@,
                self.well_known@[i as int].component,
            ).is_some(),
            r.is_some() ==> r.unwrap()@ == self.slot_bytes(
                data@,
                self.well_known@[i as int].component,
            ).unwrap(),
    {
        self.slot_value(data, self.well_known[i].component)
    }
}

/// The extents of one field inside its line: key and value as positions
/// counted from the start of the line.
pub struct FieldSpan {
    pub key_start: int,
    pub key_end: int,
    pub val_start: int,
    pub val_end: int,
}

impl FieldSpan {
    /// Key and value are ranges of a line of `len` bytes.
    pub open spec fn inside(self, len: int) -> bool {
        &&& 0 <= self.key_start <= self.key_end <= len
        &&& 0 <= self.val_start <= self.val_end <= len
    }

    /// The field as absolute ranges, the line standing at offset `base`.
    pub open spec fn field_ref(self, base: int) -> FieldRef {
        FieldRef {
            key_offset: (base + self.key_start) as u64,
            key_len: (self.key_end - self.key_start) as u32,
            val_offset: (base + self.val_start) as u64,
            val_len: (self.val_end - self.val_start) as u32,
        }
    }

    pub open spec fn key(self, line: Seq<u8>) -> Seq<u8> {
        line.subrange(self.key_start, self.key_end)
    }

    pub open spec fn value(self, line: Seq<u8>) -> Seq<u8> {
        line.subrange(self.val_start, self.val_end)
    }
}

/// The extent of a value and the position after it.
pub struct ValueSpan {
    pub start: int,
    pub end: int,
    pub next: int,
}

/// One step of a tokenizer: the field it found, if any, and where the next
/// step begins.
pub struct Token {
    pub field: Option<FieldSpan>,
    pub next: int,
}

/// The fields `spans` of a line at offset `base`, as absolute ranges.
pub open spec fn refs_of(spans: Seq<FieldSpan>, base: int) -> Seq<FieldRef> {
    Seq::new(spans.len(), |k: int| spans[k].field_ref(base))
}

/// The kinds of the keys of `spans` in `line`.
pub open spec fn kinds_of(spans: Seq<FieldSpan>, line: Seq<u8>) -> Seq<WellKnownKind> {
    Seq::new(spans.len(), |k: int| well_known::classify(spans[k].key(line)))
}

/// The record of a line at offset `base` whose fields are `spans`.
pub open spec fn record_of(line: Seq<u8>, base: int, spans: Seq<FieldSpan>) -> RecordView {
    RecordView {
        line_offset: base as u64,
        line_len: line.len() as u32,
        fields: refs_of(spans, base),
        slots: slots_of(kinds_of(spans, line)),
    }
}

/// The ranges of fields that lie inside their line lie inside the line's
/// place in the buffer.
pub proof fn lemma_refs_within(spans: Seq<FieldSpan>, base: int, len: int)
    requires
        0 <= base,
        base + len <= u64::MAX,
        len <= u32::MAX,
        forall|k: int| 0 <= k < spans.len() ==> (#[trigger] spans[k]).inside(len),
    ensures
        forall|k: int|
            0 <= k < spans.len() ==> (#[trigger] refs_of(spans, base)[k]).within(base, base + len),
{
    assert forall|k: int| 0 <= k < spans.len() implies (#[trigger] refs_of(spans, base)[k]).within(
        base,
        base + len,
    ) by {
        assert(spans[k].inside(len));
    }
}

/// A record with its line, its keys and its values as bytes.
pub struct ResolvedRecord {
    pub line: Seq<u8>,
    pub fields: Seq<(Seq<u8>, Seq<u8>)>,
    pub slots: WellKnownView,
}

/// The record `record` read from the buffer `data` that it points into.
pub open spec fn resolve(record: RecordView, data: Seq<u8>) -> ResolvedRecord {
    ResolvedRecord {
        line: data.subrange(record.line_offset as int, record.line_offset + record.line_len),
        fields: Seq::new(
            record.fields.len(),
            |k: int|
                (
                    data.subrange(
                        record.fields[k].key_offset as int,
                        record.fields[k].key_offset + record.fields[k].key_len,
                    ),
                    data.subrange(
                        record.fields[k].val_offset as int,
                        record.fields[k].val_offset + record.fields[k].val_len,
                    ),
                ),
        ),
        slots: record.slots,
    }
}

/// Reading records from the buffer `data`.
pub open spec fn resolver(data: Seq<u8>) -> spec_fn(RecordView) -> ResolvedRecord {
    |record: RecordView| resolve(record, data)
}

/// The keys and values of the fields `spans` of `line`, as bytes.
pub open spec fn field_bytes(spans: Seq<FieldSpan>, line: Seq<u8>) -> Seq<(Seq<u8>, Seq<u8>)> {
    Seq::new(spans.len(), |k: int| (spans[k].key(line), spans[k].value(line)))
}

/// What a record says does not depend on where its line stands: read from
/// the buffer, the record of a line at `base` has the line, the keys and the
/// values of the line as its bytes.
pub proof fn lemma_resolve_record(data: Seq<u8>, base: int, end: int, spans: Seq<FieldSpan>)
    requires
        0 <= base <= end <= data.len(),
        data.len() <= u64::MAX,
        end - base <= u32::MAX,
        forall|k: int| 0 <= k < spans.len() ==> (#[trigger] spans[k]).inside(end - base),
    ensures
        resolve(record_of(data.subrange(base, end), base, spans), data) == (ResolvedRecord {
            line: data.subrange(base, end),
            fields: field_bytes(spans, data.subrange(base, end)),
            slots: slots_of(kinds_of(spans, data.subrange(base, end))),
        }),
{
    let line = data.subrange(base, end);
    let record = record_of(line, base, spans);
    let read = resolve(record, data);
    assert(read.line =~= line);
    assert forall|k: int| 0 <= k < spans.len() implies read.fields[k] == field_bytes(spans, line)[k] by {
        let span = spans[k];
        assert(span.inside(end - base));
        let field = record.fields[k];
        assert(field == span.field_ref(base));
        assert(data.subrange(field.key_offset as int, field.key_offset + field.key_len)
            =~= line.subrange(span.key_start, span.key_end));
        assert(data.subrange(field.val_offset as int, field.val_offset + field.val_len)
            =~= line.subrange(span.val_start, span.val_end));
    }
    assert(read.fields =~= field_bytes(spans, line));
}

/// `cur` is `start` with one more record, still open, for the line
/// `line_offset, line_len`, holding the fields `refs` whose keys are of the
/// kinds `kinds`.
pub open spec fn building(
    start: StructuredBatch,
    cur: StructuredBatch,
    line_offset: u64,
    line_len: u32,
    refs: Seq<FieldRef>,
    kinds: Seq<WellKnownKind>,
) -> bool {
    &&& start.complete()
    &&& refs.len() == kinds.len()
    &&& start.fields@.len() + refs.len() <= ABSENT
    &&& cur.len == start.len + 1
    &&& cur.fields@ == start.fields@ + refs
    &&& cur.field_starts@ == start.field_starts@
    &&& cur.line_offsets@ == start.line_offsets@.push(line_offset)
    &&& cur.line_lens@ == start.line_lens@.push(line_len)
    &&& cur.well_known@ == start.well_known@.push(slots_at(kinds, start.fields@.len() as int))
}

/// Right after `begin_record` the open record has no fields.
pub proof fn lemma_building_begins(
    start: StructuredBatch,
    cur: StructuredBatch,
    line_offset: u64,
    line_len: u32,
)
    requires
        start.complete(),
        start.fields@.len() <= ABSENT,
        cur.len == start.len + 1,
        cur.fields@ == start.fields@,
        cur.field_starts@ == start.field_starts@,
        cur.line_offsets@ == start.line_offsets@.push(line_offset),
        cur.line_lens@ == start.line_lens@.push(line_len),
        cur.well_known@ == start.well_known@.push(WellKnownFields::absent()),
    ensures
        building(
            start,
            cur,
            line_offset,
            line_len,
            Seq::<FieldRef>::empty(),
            Seq::<WellKnownKind>::empty(),
        ),
{
    assert(cur.fields@ =~= start.fields@ + Seq::<FieldRef>::empty());
}

/// Pushing a field and pointing the slot of its kind at it keeps the record
/// in step with the keys seen.
pub proof fn lemma_building_grows(
    start: StructuredBatch,
    before: StructuredBatch,
    cur: StructuredBatch,
    line_offset: u64,
    line_len: u32,
    refs: Seq<FieldRef>,
    kinds: Seq<WellKnownKind>,
    field: FieldRef,
    kind: WellKnownKind,
)
    requires
        building(start, before, line_offset, line_len, refs, kinds),
        start.fields@.len() + refs.len() < ABSENT,
        cur.len == before.len,
        cur.fields@ == before.fields@.push(field),
        cur.field_starts@ == before.field_starts@,
        cur.line_offsets@ == before.line_offsets@,
        cur.line_lens@ == before.line_lens@,
        cur.well_known@ == before.well_known@.update(
            before.well_known@.len() - 1,
            before.well_known@.last().with_slot(kind, before.fields@.len() as u32),
        ),
    ensures
        building(start, cur, line_offset, line_len, refs.push(field), kinds.push(kind)),
{
    let first = start.fields@.len() as int;
    lemma_slots_at_push(kinds, kind, first);
    assert(cur.fields@ =~= start.fields@ + refs.push(field));
    assert(cur.well_known@ =~= start.well_known@.push(slots_at(kinds.push(kind), first)));
}

/// Ending the open record makes the batch complete again.
proof fn lemma_building_ends_complete(
    start: StructuredBatch,
    before: StructuredBatch,
    cur: StructuredBatch,
    line_offset: u64,
    line_len: u32,
    refs: Seq<FieldRef>,
    kinds: Seq<WellKnownKind>,
)
    requires
        building(start, before, line_offset, line_len, refs, kinds),
        cur.len == before.len,
        cur.fields@ == before.fields@,
        cur.field_starts@ == before.field_starts@.push(before.fields@.len() as u32),
        cur.line_offsets@ == before.line_offsets@,
        cur.line_lens@ == before.line_lens@,
        cur.well_known@ == before.well_known@,
    ensures
        cur.complete(),
{
    let first = start.fields@.len() as int;
    let a = start.field_starts@;
    let b = cur.field_starts@;
    let n = start.len as int;
    lemma_slots_at_relative(kinds, first);
    assert(a.last() == first);
    assert(b.len() == n + 2);
    assert(b[n + 1] == first + refs.len());
    assert forall|i: int, j: int| 0 <= i <= j < b.len() implies #[trigger] b[i] <= #[trigger] b[j] by {
        if j < a.len() {
            assert(a[i] <= a[j]);
        } else if i < a.len() {
            assert(a[i] <= a[n]);
        }
    }
    assert forall|i: int| 0 <= i < cur.len implies (#[trigger] cur.well_known@[i]).valid_in(
        b[i] as int,
        b[i + 1] as int,
    ) by {
        if i < n {
            assert(start.well_known@[i].valid_in(a[i] as int, a[i + 1] as int));
            assert(b[i] == a[i] && b[i + 1] == a[i + 1]);
        } else {
            assert(cur.well_known@[i] == slots_at(kinds, first));
            assert(b[i] == first);
        }
    }
}

/// Ending the record makes the batch complete again, with the new record at
/// the end of its view.
pub proof fn lemma_building_ends(
    start: StructuredBatch,
    before: StructuredBatch,
    cur: StructuredBatch,
    line_offset: u64,
    line_len: u32,
    refs: Seq<FieldRef>,
    kinds: Seq<WellKnownKind>,
)
    requires
        building(start, before, line_offset, line_len, refs, kinds),
        cur.len == before.len,
        cur.fields@ == before.fields@,
        cur.field_starts@ == before.field_starts@.push(before.fields@.len() as u32),
        cur.line_offsets@ == before.line_offsets@,
        cur.line_lens@ == before.line_lens@,
        cur.well_known@ == before.well_known@,
    ensures
        cur.complete(),
        cur@ == start@.push(
            RecordView { line_offset, line_len, fields: refs, slots: slots_of(kinds) },
        ),
{
    let first = start.fields@.len() as int;
    let n = start.len as int;
    lemma_building_ends_complete(start, before, cur, line_offset, line_len, refs, kinds);
    assert(cur.line_offsets@.drop_last() =~= start.line_offsets@);
    assert(cur.line_lens@.drop_last() =~= start.line_lens@);
    assert(cur.well_known@.drop_last() =~= start.well_known@);
    assert(cur.field_starts@.drop_last() =~= start.field_starts@);
    assert(cur.fields@.subrange(0, first) =~= start.fields@);
    lemma_view_push(start, cur);
    assert(cur.fields@.subrange(first, cur.fields@.len() as int) =~= refs);
    lemma_slots_at_relative(kinds, first);
    assert(cur.well_known@.last() == slots_at(kinds, first));
    assert(cur.record(n).line_offset == line_offset);
    assert(cur.record(n).line_len == line_len);
    assert(cur.record(n) == RecordView {
        line_offset,
        line_len,
        fields: refs,
        slots: slots_of(kinds),
    });
}

/// A batch that lies inside a buffer still does after a record is added
/// whose line and fields lie inside it.
pub proof fn lemma_within_grows(
    start: StructuredBatch,
    cur: StructuredBatch,
    line_offset: u64,
    line_len: u32,
    refs: Seq<FieldRef>,
    buffer_len: int,
)
    requires
        start.within(buffer_len),
        start.line_offsets@.len() == start.line_lens@.len(),
        cur.fields@ == start.fields@ + refs,
        cur.line_offsets@ == start.line_offsets@.push(line_offset),
        cur.line_lens@ == start.line_lens@.push(line_len),
        line_offset + line_len <= buffer_len,
        forall|k: int| 0 <= k < refs.len() ==> (#[trigger] refs[k]).within(0, buffer_len),
    ensures
        cur.within(buffer_len),
{
    assert forall|i: int| 0 <= i < cur.fields@.len() implies (#[trigger] cur.fields@[i]).within(
        0,
        buffer_len,
    ) by {
        if i < start.fields@.len() {
            assert(start.fields@[i].within(0, buffer_len));
        } else {
            assert(refs[i - start.fields@.len()].within(0, buffer_len));
        }
    }
    assert forall|i: int|
        0 <= i < cur.line_offsets@.len() && i < cur.line_lens@.len() implies #[trigger] cur.line_offsets@[i]
        + cur.line_lens@[i] <= buffer_len by {
        if i < start.line_offsets@.len() {
            assert(start.line_offsets@[i] + start.line_lens@[i] <= buffer_len);
        }
    }
}

/// A complete batch within a buffer can be read at every record: each slot is
/// absent or names a field of the batch whose value lies inside the buffer.
pub proof fn lemma_slots_readable(batch: StructuredBatch, data: Seq<u8>, i: int)
    requires
        batch.complete(),
        batch.within(data.len() as int),
        0 <= i < batch.len,
    ensures
        batch.slot_readable(data, batch.well_known@[i].timestamp),
        batch.slot_readable(data, batch.well_known@[i].level),
        batch.slot_readable(data, batch.well_known@[i].message),
        batch.slot_readable(data, batch.well_known@[i].component),
{
    let wk = batch.well_known@[i];
    assert(wk.valid_in(batch.field_starts@[i] as int, batch.field_starts@[i + 1] as int));
    assert(batch.field_starts@[i + 1] <= batch.field_starts@[batch.len as int]);
    let check = |slot: u32|
        slot != ABSENT && batch.field_starts@[i] <= slot < batch.field_starts@[i + 1]
            ==> batch.fields@[slot as int].within(0, data.len() as int);
    assert(check(wk.timestamp));
    assert(check(wk.level));
    assert(check(wk.message));
    assert(check(wk.component));
}

/// In a complete batch the field ranges of the records never step down and
/// end within `fields`: the ordering law of the offsets column.
pub proof fn lemma_record_ranges_ordered(batch: StructuredBatch, r: int)
    requires
        batch.complete(),
        0 <= r < batch.len,
    ensures
        batch.field_starts@[r] <= batch.field_starts@[r + 1],
        batch.field_starts@[r + 1] <= batch.fields@.len(),
{
    assert(batch.field_starts@[r] <= batch.field_starts@[r + 1]);
    assert(batch.field_starts@[r + 1] <= batch.field_starts@[batch.len as int]);
}

/// Closing one more record on a complete batch appends exactly one record to
/// its view and leaves the earlier records as they were.
pub proof fn lemma_view_push(a: StructuredBatch, b: StructuredBatch)
    requires
        a.complete(),
        b.complete(),
        b.len == a.len + 1,
        b.line_offsets@.drop_last() == a.line_offsets@,
        b.line_lens@.drop_last() == a.line_lens@,
        b.well_known@.drop_last() == a.well_known@,
        b.field_starts@.drop_last() == a.field_starts@,
        a.fields@.len() <= b.fields@.len(),
        b.fields@.subrange(0, a.fields@.len() as int) == a.fields@,
    ensures
        b@ == a@.push(b.record(a.len as int)),
        b.record(a.len as int).fields == b.fields@.subrange(
            a.fields@.len() as int,
            b.fields@.len() as int,
        ),
        b.record(a.len as int).slots == b.well_known@.last().relative_to(a.fields@.len() as int),
{
    let n = a.len as int;
    assert forall|i: int| 0 <= i < n implies b.record(i) == a.record(i) by {
        assert(b.line_offsets@.drop_last()[i] == b.line_offsets@[i]);
        assert(b.line_lens@.drop_last()[i] == b.line_lens@[i]);
        assert(b.well_known@.drop_last()[i] == b.well_known@[i]);
        assert(b.field_starts@.drop_last()[i] == b.field_starts@[i]);
        assert(b.field_starts@.drop_last()[i + 1] == b.field_starts@[i + 1]);
        lemma_record_ranges_ordered(a, i);
        let lo = a.field_starts@[i] as int;
        let hi = a.field_starts@[i + 1] as int;
        assert(b.fields@.subrange(lo, hi) =~= a.fields@.subrange(lo, hi)) by {
            assert forall|k: int| 0 <= k < hi - lo implies b.fields@.subrange(lo, hi)[k]
                == a.fields@.subrange(lo, hi)[k] by {
                assert(b.fields@.subrange(0, a.fields@.len() as int)[lo + k] == b.fields@[lo
                    + k]);
            }
        }
    }
    assert(b.field_starts@.drop_last()[n] == b.field_starts@[n]);
    assert(b@ =~= a@.push(b.record(n)));
}

/// Pushes the field with key `line[key.0..key.1]` and value
/// `line[val.0..val.1]` onto the open record and points the slot of the
/// key's kind at it.
pub(crate) fn push_span(
    line: &[u8],
    base_offset: u64,
    key: (usize, usize),
    val: (usize, usize),
    batch: &mut StructuredBatch,
    Ghost(start): Ghost<StructuredBatch>,
    Ghost(spans): Ghost<Seq<FieldSpan>>,
)
    requires
        building(
            start,
            *old(batch),
            base_offset,
            line@.len() as u32,
            refs_of(spans, base_offset as int),
            kinds_of(spans, line@),
        ),
        start.fields@.len() + spans.len() < ABSENT,
        base_offset + line@.len() <= u64::MAX,
        line@.len() <= u32::MAX,
        key.0 <= key.1 <= line@.len(),
        val.0 <= val.1 <= line@.len(),
    ensures
        building(
            start,
            *final(batch),
            base_offset,
            line@.len() as u32,
            refs_of(
                spans.push(
                    FieldSpan {
                        key_start: key.0 as int,
                        key_end: key.1 as int,
                        val_start: val.0 as int,
                        val_end: val.1 as int,
                    },
                ),
                base_offset as int,
            ),
            kinds_of(
                spans.push(
                    FieldSpan {
                        key_start: key.0 as int,
                        key_end: key.1 as int,
                        val_start: val.0 as int,
                        val_end: val.1 as int,
                    },
                ),
                line@,
            ),
        ),
{
    let ghost span = FieldSpan {
        key_start: key.0 as int,
        key_end: key.1 as int,
        val_start: val.0 as int,
        val_end: val.1 as int,
    };
    let ghost before = *batch;
    let field_idx: u32 = batch.fields.len() as u32;
    let field = FieldRef {
        key_offset: base_offset + key.0 as u64,
        key_len: (key.1 - key.0) as u32,
        val_offset: base_offset + val.0 as u64,
        val_len: (val.1 - val.0) as u32,
    };
    batch.push_field(field);
    let kind: WellKnownKind = well_known::classify_key(&line[key.0..key.1]);
    batch.set_well_known(kind, field_idx);
    proof {
        let refs = refs_of(spans, base_offset as int);
        let kinds = kinds_of(spans, line@);
        assert(field == span.field_ref(base_offset as int));
        assert(kind == well_known::classify(span.key(line@)));
        lemma_building_grows(
            start,
            before,
            *batch,
            base_offset,
            line@.len() as u32,
            refs,
            kinds,
            field,
            kind,
        );
        assert(refs_of(spans.push(span), base_offset as int) =~= refs.push(field));
        assert(kinds_of(spans.push(span), line@) =~= kinds.push(kind));
    }
}

} // verus!
