//! Reads the records of a write-ahead log back, skipping what is damaged.

use crate::db::log_format::{fragment_crc, K_BLOCK_SIZE, K_HEADER_SIZE};
use crate::obj::slice::Slice;
use crate::obj::status_rs::{Status, StatusCode};
use crate::util::coding::{append_bytes, decode_fixed32, fixed32_value};
use crate::util::crc32c;
use crate::util::crc32c::unmask_spec;
use crate::util::sequential_file::SequentialFile;
use vstd::prelude::*;
use vstd::slice::slice_subrange;

verus! {

/// A run of bytes that a reader dropped, as its reporter is told of it:
/// the count of bytes, and the code and the message of the status that
/// gives the reason.
pub struct Report {
    pub bytes: nat,
    pub code: StatusCode,
    pub message: Option<Seq<char>>,
}

/// The report of `bytes` bytes dropped for the reason that `status` gives.
pub open spec fn report_of(bytes: nat, status: Status) -> Report {
    Report { bytes, code: status.spec_code(), message: status.spec_message() }
}

/// The report of `bytes` bytes dropped as damaged, for the given reason.
pub open spec fn corruption_report(bytes: nat, reason: Seq<char>) -> Report {
    Report {
        bytes,
        code: StatusCode::KCorruption,
        message: Some(Status::joined(reason, None)),
    }
}

/// Told of every run of bytes that the reader drops.
pub trait Reporter {
    /// What the reporter was told so far.
    spec fn told(&self) -> Seq<Report>;

    /// `bytes` bytes were dropped for the reason that `status` gives.
    fn corruption(&mut self, bytes: usize, status: &Status)
        ensures
            final(self).told() == old(self).told().push(report_of(bytes as nat, *status)),
    ;
}

/// A reporter that adds up what was dropped.
pub struct ReportCollector {
    pub dropped_bytes_: usize,
    pub reports_: usize,
    pub told_: Ghost<Seq<Report>>,
}

impl ReportCollector {
    pub fn new() -> (c: ReportCollector)
        ensures
            c.dropped_bytes_ == 0,
            c.reports_ == 0,
            c.told() == Seq::<Report>::empty(),
    {
        ReportCollector { dropped_bytes_: 0, reports_: 0, told_: Ghost(Seq::empty()) }
    }
}

impl Reporter for ReportCollector {
    open spec fn told(&self) -> Seq<Report> {
        self.told_@
    }

    fn corruption(&mut self, bytes: usize, status: &Status)
        ensures
            final(self).dropped_bytes_ == old(self).dropped_bytes_.saturating_add(bytes),
            final(self).reports_ == old(self).reports_.saturating_add(1),
    {
        self.dropped_bytes_ = self.dropped_bytes_.saturating_add(bytes);
        self.reports_ = self.reports_.saturating_add(1);
        self.told_ = Ghost(self.told_@.push(report_of(bytes as nat, *status)));
    }
}

/// What a reader whose cursor is `c` tells its reporter of `bytes` bytes
/// dropped as damaged: nothing where they lie before the offset from which
/// records are wanted.
pub open spec fn drop_reports(c: LogCursor, bytes: nat, reason: Seq<char>, initial_offset: u64) -> Seq<
    Report,
> {
    if c.end_offset >= c.buffer.len() + bytes + initial_offset {
        seq![corruption_report(bytes, reason)]
    } else {
        Seq::empty()
    }
}

/// What parsing the fragment at the front of a buffer of at least seven
/// bytes reports: the whole buffer dropped where the fragment is longer
/// than the buffer and the file has not ended, or where its checksum is
/// compared and does not match.
pub open spec fn parse_reports(c: LogCursor, checksum: bool, initial_offset: u64) -> Seq<Report>
    recommends
        c.buffer.len() >= 7,
{
    let length = c.buffer[4] + 256 * c.buffer[5];
    if 7 + length > c.buffer.len() {
        if c.eof {
            Seq::empty()
        } else {
            drop_reports(cursor_cleared(c), c.buffer.len(), "bad record length"@, initial_offset)
        }
    } else if c.buffer[6] == 0 {
        Seq::empty()
    } else if checksum && unmask_spec(fixed32_value(c.buffer)) != fragment_crc(
        c.buffer[6],
        c.buffer.subrange(7, 7 + length),
    ) {
        drop_reports(cursor_cleared(c), c.buffer.len(), "checksum mismatch"@, initial_offset)
    } else {
        Seq::empty()
    }
}

/// What reading one fragment reports; see [`read_physical`].
pub open spec fn physical_reports(c: LogCursor, checksum: bool, initial_offset: u64) -> Seq<Report> {
    if c.buffer.len() >= 7 {
        parse_reports(c, checksum, initial_offset)
    } else if c.eof {
        Seq::empty()
    } else {
        let r = cursor_refilled(c);
        if r.buffer.len() >= 7 {
            parse_reports(r, checksum, initial_offset)
        } else {
            Seq::empty()
        }
    }
}

/// `a + b`, or the largest count of bytes where the sum is above it.
pub open spec fn count_add(a: nat, b: nat) -> nat {
    if a + b > usize::MAX {
        usize::MAX as nat
    } else {
        a + b
    }
}

/// What a fragment reports that is put to a record in the making, by a
/// reader whose cursor is `c` behind the fragment: what was gathered of a
/// record that is not completed, or a fragment that continues no record.
pub open spec fn assemble_reports(a: Assembly, p: Physical, c: LogCursor, initial_offset: u64) -> Seq<
    Report,
> {
    match p {
        Physical::Eof => if a.in_fragment {
            drop_reports(c, a.scratch.len(), "partial record without end(3)"@, initial_offset)
        } else {
            Seq::empty()
        },
        Physical::BadRecord => if a.in_fragment {
            drop_reports(c, a.scratch.len(), "error in middle of record"@, initial_offset)
        } else {
            Seq::empty()
        },
        Physical::Fragment(t, payload) => {
            if a.resyncing && (t == 3 || t == 4) {
                Seq::empty()
            } else if t == 1 {
                if a.in_fragment && a.scratch.len() > 0 {
                    drop_reports(
                        c,
                        a.scratch.len(),
                        "partial record without end(1)"@,
                        initial_offset,
                    )
                } else {
                    Seq::empty()
                }
            } else if t == 2 {
                if a.in_fragment && a.scratch.len() > 0 {
                    drop_reports(
                        c,
                        a.scratch.len(),
                        "partial record without end(2)"@,
                        initial_offset,
                    )
                } else {
                    Seq::empty()
                }
            } else if t == 3 {
                if a.in_fragment {
                    Seq::empty()
                } else {
                    drop_reports(
                        c,
                        payload.len(),
                        "missing start of fragmented record(1)"@,
                        initial_offset,
                    )
                }
            } else if t == 4 {
                if a.in_fragment {
                    Seq::empty()
                } else {
                    drop_reports(
                        c,
                        payload.len(),
                        "missing start of fragmented record(2)"@,
                        initial_offset,
                    )
                }
            } else {
                drop_reports(
                    c,
                    count_add(
                        payload.len(),
                        if a.in_fragment {
                            a.scratch.len()
                        } else {
                            0
                        },
                    ),
                    "unknown record type"@,
                    initial_offset,
                )
            }
        },
    }
}

/// What reading the next record reports; see [`read_logical`].
#[verifier::opaque]
pub open spec fn logical_reports(c: LogCursor, a: Assembly, checksum: bool, initial_offset: u64) -> Seq<
    Report,
>
    decreases cursor_unread(c),
{
    let (p, next) = read_physical(c, checksum, initial_offset);
    let here = physical_reports(c, checksum, initial_offset) + assemble_reports(
        a,
        p,
        next,
        initial_offset,
    );
    match assemble(a, p) {
        Step::Stop => here,
        Step::Emit(record) => here,
        Step::Continue(b) => if cursor_unread(next) < cursor_unread(c) {
            here + logical_reports(next, b, checksum, initial_offset)
        } else {
            here
        },
    }
}

/// What reading the next record reports is what reading a fragment and
/// putting it to the record reports, and what reading on reports where the
/// record is not complete.
pub proof fn lemma_logical_reports_unfold(
    c: LogCursor,
    a: Assembly,
    checksum: bool,
    initial_offset: u64,
)
    ensures
        logical_reports(c, a, checksum, initial_offset) == ({
            let (p, next) = read_physical(c, checksum, initial_offset);
            let here = physical_reports(c, checksum, initial_offset) + assemble_reports(
                a,
                p,
                next,
                initial_offset,
            );
            match assemble(a, p) {
                Step::Stop => here,
                Step::Emit(record) => here,
                Step::Continue(b) => if cursor_unread(next) < cursor_unread(c) {
                    here + logical_reports(next, b, checksum, initial_offset)
                } else {
                    here
                },
            }
        }),
{
    reveal(logical_reports);
}

/// One round of reading a record: what the reporter was told before the
/// round and in it, and what reading on will tell it, is what reading
/// from before the round tells it.
proof fn lemma_told_step(
    told_before: Seq<Report>,
    told_read: Seq<Report>,
    told: Seq<Report>,
    c: LogCursor,
    a: Assembly,
    checksum: bool,
    initial_offset: u64,
)
    requires
        told_read == told_before + physical_reports(c, checksum, initial_offset),
        told == told_read + assemble_reports(
            a,
            read_physical(c, checksum, initial_offset).0,
            read_physical(c, checksum, initial_offset).1,
            initial_offset,
        ),
    ensures
        match assemble(a, read_physical(c, checksum, initial_offset).0) {
            Step::Continue(b) => if cursor_unread(read_physical(c, checksum, initial_offset).1)
                < cursor_unread(c) {
                told + logical_reports(
                    read_physical(c, checksum, initial_offset).1,
                    b,
                    checksum,
                    initial_offset,
                ) == told_before + logical_reports(c, a, checksum, initial_offset)
            } else {
                told == told_before + logical_reports(c, a, checksum, initial_offset)
            },
            _ => told == told_before + logical_reports(c, a, checksum, initial_offset),
        },
{
    lemma_logical_reports_unfold(c, a, checksum, initial_offset);
    let (p, next) = read_physical(c, checksum, initial_offset);
    let first = physical_reports(c, checksum, initial_offset);
    let second = assemble_reports(a, p, next, initial_offset);
    assert(told =~= told_before + (first + second));
    match assemble(a, p) {
        Step::Continue(b) => {
            if cursor_unread(next) < cursor_unread(c) {
                let more = logical_reports(next, b, checksum, initial_offset);
                assert(told + more =~= told_before + ((first + second) + more));
            }
        },
        _ => {},
    }
}

/// Where a reader stands in its file: the part of the current block not yet
/// parsed, what the file still holds behind it, whether the file has ended,
/// and the file offset just behind the buffered part.
pub struct LogCursor {
    pub buffer: Seq<u8>,
    pub rest: Seq<u8>,
    pub eof: bool,
    pub end_offset: u64,
}

/// What reading one fragment gives.
pub enum Physical {
    /// A fragment: its type byte and payload.
    Fragment(u8, Seq<u8>),
    /// The file holds no further fragment.
    Eof,
    /// Bytes were skipped: a damaged fragment, one of type zero, or one that
    /// ends at or before the offset from which records are wanted.
    BadRecord,
}

/// `a + b`, or the largest 64-bit number where the sum is above it.
pub open spec fn offset_add(a: u64, b: nat) -> u64 {
    if a + b > u64::MAX {
        u64::MAX
    } else {
        (a + b) as u64
    }
}

/// The cursor with nothing buffered.
pub open spec fn cursor_cleared(c: LogCursor) -> LogCursor {
    LogCursor { buffer: Seq::empty(), rest: c.rest, eof: c.eof, end_offset: c.end_offset }
}

/// The cursor after the next block, or what is left of the file, was read
/// into the buffer.
pub open spec fn cursor_refilled(c: LogCursor) -> LogCursor {
    let n = if c.rest.len() < 32768 {
        c.rest.len() as int
    } else {
        32768
    };
    LogCursor {
        buffer: c.rest.take(n),
        rest: c.rest.skip(n),
        eof: n < 32768,
        end_offset: offset_add(c.end_offset, n as nat),
    }
}

/// The fragment at the front of a buffer of at least seven bytes.
pub open spec fn parse_buffered(c: LogCursor, checksum: bool, initial_offset: u64) -> (
    Physical,
    LogCursor,
)
    recommends
        c.buffer.len() >= 7,
{
    let length = c.buffer[4] + 256 * c.buffer[5];
    if 7 + length > c.buffer.len() {
        (
            if c.eof {
                Physical::Eof
            } else {
                Physical::BadRecord
            },
            cursor_cleared(c),
        )
    } else if c.buffer[6] == 0 {
        (Physical::BadRecord, cursor_cleared(c))
    } else if checksum && unmask_spec(fixed32_value(c.buffer)) != fragment_crc(
        c.buffer[6],
        c.buffer.subrange(7, 7 + length),
    ) {
        (Physical::BadRecord, cursor_cleared(c))
    } else {
        let after = LogCursor {
            buffer: c.buffer.skip(7 + length),
            rest: c.rest,
            eof: c.eof,
            end_offset: c.end_offset,
        };
        if c.end_offset - after.buffer.len() <= initial_offset {
            (Physical::BadRecord, after)
        } else {
            (Physical::Fragment(c.buffer[6], c.buffer.subrange(7, 7 + length)), after)
        }
    }
}

/// Reading one fragment: where fewer than seven bytes are buffered they are
/// dropped and the next block is read, unless the file has ended.
pub open spec fn read_physical(c: LogCursor, checksum: bool, initial_offset: u64) -> (
    Physical,
    LogCursor,
) {
    if c.buffer.len() >= 7 {
        parse_buffered(c, checksum, initial_offset)
    } else if c.eof {
        (Physical::Eof, cursor_cleared(c))
    } else {
        let r = cursor_refilled(c);
        if r.buffer.len() >= 7 {
            parse_buffered(r, checksum, initial_offset)
        } else {
            (Physical::Eof, cursor_cleared(r))
        }
    }
}

/// Number of bytes not yet parsed.
pub open spec fn cursor_unread(c: LogCursor) -> nat {
    c.buffer.len() + c.rest.len()
}

/// Every fragment read, and every run of bytes skipped, is at least seven
/// bytes long.
pub proof fn lemma_read_physical_advances(c: LogCursor, checksum: bool, initial_offset: u64)
    ensures
        !(read_physical(c, checksum, initial_offset).0 is Eof) ==> cursor_unread(
            read_physical(c, checksum, initial_offset).1,
        ) + 7 <= cursor_unread(c),
        cursor_unread(read_physical(c, checksum, initial_offset).1) <= cursor_unread(c),
{
}

/// The state of putting a record together from its fragments.
pub struct Assembly {
    /// A first fragment was read and the last one not yet.
    pub in_fragment: bool,
    /// The payloads of the fragments read so far.
    pub scratch: Seq<u8>,
    /// Fragments of a record that began before the reader's starting point
    /// are being passed over.
    pub resyncing: bool,
}

/// What one fragment does to a record in the making.
pub enum Step {
    /// The record is complete.
    Emit(Seq<u8>),
    /// More fragments are needed.
    Continue(Assembly),
    /// The log has ended.
    Stop,
}

/// The state machine of [`Reader::read_record`]: outside a fragmented
/// record, a full fragment is a record and a first fragment starts one;
/// inside, middle fragments extend it and the last completes it.  A
/// fragment out of turn drops what was gathered; so does a damaged one.
pub open spec fn assemble(a: Assembly, p: Physical) -> Step {
    match p {
        Physical::Eof => Step::Stop,
        Physical::BadRecord => Step::Continue(
            Assembly { in_fragment: false, scratch: Seq::empty(), resyncing: false },
        ),
        Physical::Fragment(t, payload) => {
            if a.resyncing && t == 3 {
                Step::Continue(a)
            } else if a.resyncing && t == 4 {
                Step::Continue(
                    Assembly { in_fragment: a.in_fragment, scratch: a.scratch, resyncing: false },
                )
            } else if t == 1 {
                Step::Emit(payload)
            } else if t == 2 {
                Step::Continue(
                    Assembly { in_fragment: true, scratch: payload, resyncing: false },
                )
            } else if t == 3 {
                if a.in_fragment {
                    Step::Continue(
                        Assembly {
                            in_fragment: true,
                            scratch: a.scratch + payload,
                            resyncing: false,
                        },
                    )
                } else {
                    Step::Continue(
                        Assembly { in_fragment: false, scratch: a.scratch, resyncing: false },
                    )
                }
            } else if t == 4 {
                if a.in_fragment {
                    Step::Emit(a.scratch + payload)
                } else {
                    Step::Continue(
                        Assembly { in_fragment: false, scratch: a.scratch, resyncing: false },
                    )
                }
            } else {
                Step::Continue(
                    Assembly { in_fragment: false, scratch: Seq::empty(), resyncing: false },
                )
            }
        },
    }
}

/// The next record from a cursor, and the cursor behind it: fragments are
/// read and put together until one completes a record or the log ends.
pub open spec fn read_logical(c: LogCursor, a: Assembly, checksum: bool, initial_offset: u64) -> (
    Option<Seq<u8>>,
    LogCursor,
)
    decreases cursor_unread(c),
{
    let (p, next) = read_physical(c, checksum, initial_offset);
    match assemble(a, p) {
        Step::Stop => (None, next),
        Step::Emit(record) => (Some(record), next),
        Step::Continue(b) => if cursor_unread(next) < cursor_unread(c) {
            read_logical(next, b, checksum, initial_offset)
        } else {
            (None, next)
        },
    }
}

/// What [`Reader::read_physical_record`] returns.
#[derive(Debug)]
pub enum PhysicalRecord {
    /// A fragment: its type byte and payload.
    Fragment(u8, Slice),
    Eof,
    BadRecord,
}

impl PhysicalRecord {
    pub open spec fn model(&self) -> Physical {
        match self {
            PhysicalRecord::Fragment(t, payload) => Physical::Fragment(*t, payload@),
            PhysicalRecord::Eof => Physical::Eof,
            PhysicalRecord::BadRecord => Physical::BadRecord,
        }
    }
}

/// The block from which a reader that starts at `initial_offset` reads: the
/// one that holds the offset, or the next where the offset lies in the last
/// six bytes of its block, in which no fragment can start.
pub open spec fn initial_block_start(initial_offset: u64) -> u64 {
    let in_block = initial_offset % 32768;
    let start = (initial_offset - in_block) as u64;
    if in_block > 32768 - 6 {
        offset_add(start, 32768)
    } else {
        start
    }
}

/// The cursor of a reader that has skipped to its first block.
pub open spec fn cursor_skipped(c: LogCursor, initial_offset: u64) -> LogCursor {
    let target = initial_block_start(initial_offset);
    LogCursor {
        buffer: c.buffer,
        rest: if target <= c.rest.len() {
            c.rest.skip(target as int)
        } else {
            Seq::empty()
        },
        eof: c.eof,
        end_offset: target,
    }
}

/// Reads the records of a log from a sequential file.
pub struct Reader<F: SequentialFile, R: Reporter> {
    file_: F,
    reporter_: Option<R>,
    checksum_: bool,
    buffer_: Slice,
    eof_: bool,
    io_failed_: bool,
    last_record_offset_: u64,
    end_of_buffer_offset_: u64,
    initial_offset_: u64,
    resyncing_: bool,
    /// Whether the reader has skipped to the block from which it reads.
    positioned_: bool,
}

impl<F: SequentialFile, R: Reporter> Reader<F, R> {
    /// Where the reader stands in its file.
    pub closed spec fn cursor(&self) -> LogCursor {
        LogCursor {
            buffer: self.buffer_@,
            rest: self.file_.remaining(),
            eof: self.eof_,
            end_offset: self.end_of_buffer_offset_,
        }
    }

    /// The offset behind the buffer counts the buffer in, and nothing is
    /// buffered before the reader has skipped to the block from which it
    /// reads.
    pub closed spec fn inv(&self) -> bool {
        &&& self.buffered_ok()
        &&& !self.positioned_ ==> self.buffer_@.len() == 0
    }

    /// Whether the reader has skipped to the block from which it reads;
    /// a reader that reads from the start has nothing to skip.
    pub closed spec fn positioned(&self) -> bool {
        self.positioned_
    }

    /// The offset in the file up to which the reader has read fragments.
    pub open spec fn position(&self) -> int {
        self.cursor().end_offset - self.cursor().buffer.len()
    }

    /// The offset behind the buffer counts the buffer in.
    pub closed spec fn buffered_ok(&self) -> bool {
        self.end_of_buffer_offset_ >= self.buffer_@.len()
    }

    /// Whether checksums are verified.
    pub closed spec fn checksum(&self) -> bool {
        self.checksum_
    }

    /// The offset from which on records are wanted.
    pub closed spec fn initial_offset(&self) -> u64 {
        self.initial_offset_
    }

    /// Whether the fragments of a record begun before the starting point
    /// are still being passed over.
    pub closed spec fn resyncing(&self) -> bool {
        self.resyncing_
    }

    /// Whether no read of the file under this reader fails.
    pub closed spec fn steady(&self) -> bool {
        self.file_.steady()
    }

    /// Whether a read of the file has failed.
    pub closed spec fn io_failed(&self) -> bool {
        self.io_failed_
    }

    /// The offset of the first fragment of the last record returned.
    pub closed spec fn spec_last_record_offset(&self) -> u64 {
        self.last_record_offset_
    }

    /// Whether the reader has a reporter.
    pub closed spec fn reports(&self) -> bool {
        self.reporter_ is Some
    }

    /// What the reporter of the reader was told so far.
    pub closed spec fn told(&self) -> Seq<Report> {
        match self.reporter_ {
            Some(reporter) => reporter.told(),
            None => Seq::empty(),
        }
    }

    /// The settings of two readers, and what they last returned, agree.
    pub closed spec fn same_settings(&self, other: &Self) -> bool {
        &&& self.reports() == other.reports()
        &&& self.checksum_ == other.checksum_
        &&& self.initial_offset_ == other.initial_offset_
        &&& self.resyncing_ == other.resyncing_
        &&& self.last_record_offset_ == other.last_record_offset_
        &&& self.positioned_ == other.positioned_
    }

    /// A reader of `file` that returns the records which end behind
    /// `initial_offset`, reports what it drops to `reporter`, and verifies
    /// checksums where `checksum` is set.
    pub fn new(file: F, reporter: Option<R>, checksum: bool, initial_offset: u64) -> (r: Self)
        ensures
            r.inv(),
            r.cursor() == (LogCursor {
                buffer: Seq::empty(),
                rest: file.remaining(),
                eof: false,
                end_offset: 0,
            }),
            r.checksum() == checksum,
            r.initial_offset() == initial_offset,
            r.resyncing() == (initial_offset > 0),
            !r.io_failed(),
            r.spec_last_record_offset() == 0,
            r.positioned() == (initial_offset == 0),
            r.steady() == file.steady(),
            r.reports() == (reporter is Some),
            reporter matches Some(told_before) ==> r.told() == told_before.told(),
    {
        Reader {
            file_: file,
            reporter_: reporter,
            checksum_: checksum,
            buffer_: Slice::new_empty(),
            eof_: false,
            io_failed_: false,
            last_record_offset_: 0,
            end_of_buffer_offset_: 0,
            initial_offset_: initial_offset,
            resyncing_: initial_offset > 0,
            positioned_: initial_offset == 0,
        }
    }

    /// The offset of the first fragment of the last record returned.
    pub fn last_record_offset(&self) -> (offset: u64)
        ensures
            offset == self.spec_last_record_offset(),
    {
        self.last_record_offset_
    }

    /// Gives the reporter back.
    pub fn into_reporter(self) -> (reporter: Option<R>)
        ensures
            reporter is Some == self.reports(),
            reporter matches Some(given) ==> given.told() == self.told(),
    {
        self.reporter_
    }

    /// Reports `bytes` dropped bytes, unless they lie before the offset
    /// from which records are wanted.
    fn report_drop(&mut self, bytes: usize, reason: &Status)
        ensures
            final(self).cursor() == old(self).cursor(),
            final(self).same_settings(old(self)),
            final(self).io_failed_ == old(self).io_failed_,
            final(self).steady() == old(self).steady(),
            final(self).reports() ==> final(self).told() == old(self).told() + if old(
                self,
            ).cursor().end_offset >= old(self).cursor().buffer.len() + bytes + old(
                self,
            ).initial_offset() {
                seq![report_of(bytes as nat, *reason)]
            } else {
                Seq::empty()
            },
    {
        let consumed = self.buffer_.size() as u128 + bytes as u128 + self.initial_offset_ as u128;
        if self.end_of_buffer_offset_ as u128 >= consumed {
            match &mut self.reporter_ {
                Some(reporter) => {
                    reporter.corruption(bytes, reason);
                },
                None => {},
            }
        }
        proof {
            let before = old(self).told();
            assert(before.push(report_of(bytes as nat, *reason)) =~= before + seq![
                report_of(bytes as nat, *reason),
            ]);
            assert(before + Seq::<Report>::empty() =~= before);
        }
    }

    fn report_corruption(&mut self, bytes: usize, reason: &str)
        ensures
            final(self).cursor() == old(self).cursor(),
            final(self).same_settings(old(self)),
            final(self).io_failed_ == old(self).io_failed_,
            final(self).steady() == old(self).steady(),
            final(self).reports() ==> final(self).told() == old(self).told() + drop_reports(
                old(self).cursor(),
                bytes as nat,
                reason@,
                old(self).initial_offset(),
            ),
    {
        let status = Status::corruption(reason, None);
        self.report_drop(bytes, &status)
    }

    /// Skips to the block that holds the first record wanted.  Returns
    /// `false` where the file cannot skip that far.
    fn skip_to_initial_block(&mut self) -> (skipped: bool)
        requires
            old(self).inv(),
            old(self).cursor().buffer.len() == 0,
        ensures
            final(self).inv(),
            final(self).same_settings(old(self)),
            old(self).io_failed() ==> final(self).io_failed(),
            !skipped ==> final(self).io_failed(),
            skipped ==> final(self).io_failed() == old(self).io_failed(),
            final(self).cursor().buffer.len() == 0,
            skipped ==> final(self).cursor() == cursor_skipped(
                old(self).cursor(),
                old(self).initial_offset(),
            ),
            skipped ==> final(self).told() == old(self).told(),
            old(self).steady() ==> skipped && final(self).steady(),
    {
        let offset_in_block = self.initial_offset_ % 32768;
        let mut block_start_location = self.initial_offset_ - offset_in_block;
        if offset_in_block > 32768 - 6 {
            block_start_location = block_start_location.saturating_add(32768);
        }
        self.end_of_buffer_offset_ = block_start_location;
        if block_start_location > 0 {
            let skip_status = self.file_.skip(block_start_location);
            if !skip_status.is_ok() {
                let dropped = if block_start_location > usize::MAX as u64 {
                    usize::MAX
                } else {
                    block_start_location as usize
                };
                self.report_drop(dropped, &skip_status);
                self.io_failed_ = true;
                return false;
            }
        }
        proof {
            assert(old(self).cursor().rest.skip(0) =~= old(self).cursor().rest);
            let rest = old(self).cursor().rest;
            if block_start_location > rest.len() {
                assert(rest.skip(rest.len() as int) =~= Seq::<u8>::empty());
            }
        }
        true
    }

    /// Reads one fragment, from the buffer or, where fewer than seven bytes
    /// are buffered, from the next block of the file.
    fn read_physical_record(&mut self) -> (r: PhysicalRecord)
        requires
            old(self).buffered_ok(),
        ensures
            final(self).buffered_ok(),
            final(self).same_settings(old(self)),
            old(self).io_failed() ==> final(self).io_failed(),
            final(self).io_failed() && !old(self).io_failed() ==> r is Eof,
            !final(self).io_failed() ==> (r.model(), final(self).cursor())
                == read_physical(
                old(self).cursor(),
                old(self).checksum(),
                old(self).initial_offset(),
            ),
            r is Eof ==> final(self).cursor().buffer.len() == 0,
            !(r is Eof) ==> cursor_unread(final(self).cursor()) + 7 <= cursor_unread(
                old(self).cursor(),
            ),
            r is Fragment ==> final(self).position() > old(self).initial_offset(),
            r is Fragment ==> final(self).position() >= 7 + r->Fragment_1@.len(),
            old(self).cursor().eof ==> final(self).cursor().eof,
            old(self).steady() ==> final(self).steady() && (!old(self).io_failed()
                ==> !final(self).io_failed()),
            !old(self).io_failed() && (old(self).cursor().buffer.len() >= 7 || old(
                self,
            ).cursor().eof) ==> !final(self).io_failed(),
            !final(self).io_failed() && final(self).reports() ==> final(self).told() == old(
                self,
            ).told() + physical_reports(
                old(self).cursor(),
                old(self).checksum(),
                old(self).initial_offset(),
            ),
    {
        proof {
            assert(self.told() + Seq::<Report>::empty() =~= self.told());
        }
        if self.buffer_.size() < K_HEADER_SIZE {
            self.buffer_.clear();
            if self.eof_ {
                return PhysicalRecord::Eof;
            }
            match self.file_.read(K_BLOCK_SIZE) {
                Ok(data) => {
                    self.end_of_buffer_offset_ = self.end_of_buffer_offset_.saturating_add(
                        data.size() as u64,
                    );
                    if data.size() < K_BLOCK_SIZE {
                        self.eof_ = true;
                    }
                    self.buffer_ = data;
                },
                Err(e) => {
                    self.report_drop(K_BLOCK_SIZE, &e);
                    self.eof_ = true;
                    self.io_failed_ = true;
                    return PhysicalRecord::Eof;
                },
            }
            if self.buffer_.size() < K_HEADER_SIZE {
                self.buffer_.clear();
                return PhysicalRecord::Eof;
            }
        }
        let ghost c = self.cursor();
        let size = self.buffer_.size();
        let header = self.buffer_.data();
        let type_byte = header[6];
        let length = header[4] as usize + 256 * (header[5] as usize);
        if K_HEADER_SIZE + length > size {
            self.buffer_.clear();
            if !self.eof_ {
                self.report_corruption(size, "bad record length");
                return PhysicalRecord::BadRecord;
            }
            return PhysicalRecord::Eof;
        }
        if type_byte == 0 {
            self.buffer_.clear();
            return PhysicalRecord::BadRecord;
        }
        let mut crc_ok = true;
        if self.checksum_ {
            let expected_crc = crc32c::unmask(decode_fixed32(header));
            let checked = slice_subrange(header, 6, K_HEADER_SIZE + length);
            let actual_crc = crc32c::value(checked);
            proof {
                assert(checked@.subrange(0, 1) =~= seq![type_byte]);
                assert(checked@.subrange(1, checked@.len() as int) =~= c.buffer.subrange(
                    7,
                    7 + length,
                ));
                assert(actual_crc == crc32c::crc32c_continued(
                    crc32c::crc32c_of(checked@.subrange(0, 1)),
                    checked@.subrange(1, checked@.len() as int),
                ));
            }
            crc_ok = expected_crc == actual_crc;
        }
        if !crc_ok {
            self.buffer_.clear();
            self.report_corruption(size, "checksum mismatch");
            return PhysicalRecord::BadRecord;
        }
        let payload = Slice::new_from_array(
            slice_subrange(header, K_HEADER_SIZE, K_HEADER_SIZE + length),
        );
        self.buffer_.remove_prefix(K_HEADER_SIZE + length);
        let end = self.end_of_buffer_offset_ - self.buffer_.size() as u64;
        if end <= self.initial_offset_ {
            return PhysicalRecord::BadRecord;
        }
        PhysicalRecord::Fragment(type_byte, payload)
    }

    /// Reads the next record into `record`, gathering fragments in
    /// `scratch`.  Returns `false` at the end of the log, and where a read
    /// of the file fails.  A record that is returned ends behind the offset
    /// from which records are wanted.  As long as no read of the file
    /// fails, the record and the place where the reader then stands are
    /// those of [`read_logical`], from the first block wanted where the
    /// reader had not skipped to it.  A reader that has skipped and whose
    /// file has ended makes no read, and so none fails.
    #[verifier::rlimit(60)]
    pub fn read_record(&mut self, record: &mut Slice, scratch: &mut Vec<u8>) -> (found: bool)
        requires
            old(self).inv(),
        ensures
            final(self).inv(),
            final(self).checksum() == old(self).checksum(),
            final(self).initial_offset() == old(self).initial_offset(),
            old(self).io_failed() ==> final(self).io_failed(),
            found ==> final(self).position() > old(self).initial_offset(),
            found ==> !final(self).resyncing(),
            !final(self).io_failed() ==> final(self).positioned(),
            old(self).positioned() ==> final(self).positioned(),
            final(self).io_failed() && !old(self).io_failed() ==> !found,
            old(self).steady() ==> final(self).steady() && (!old(self).io_failed()
                ==> !final(self).io_failed()),
            !old(self).io_failed() && old(self).cursor().eof && old(self).positioned()
                ==> !final(self).io_failed(),
            !final(self).io_failed() ==> ({
                let start = if !old(self).positioned() {
                    cursor_skipped(old(self).cursor(), old(self).initial_offset())
                } else {
                    old(self).cursor()
                };
                let (expected, behind) = read_logical(
                    start,
                    Assembly {
                        in_fragment: false,
                        scratch: Seq::empty(),
                        resyncing: old(self).resyncing(),
                    },
                    old(self).checksum(),
                    old(self).initial_offset(),
                );
                &&& found == expected.is_some()
                &&& found ==> final(record)@ == expected.unwrap()
                &&& final(self).cursor() == behind
            }),
            final(self).reports() == old(self).reports(),
            !final(self).io_failed() && final(self).reports() ==> final(self).told() == old(
                self,
            ).told() + logical_reports(
                if !old(self).positioned() {
                    cursor_skipped(old(self).cursor(), old(self).initial_offset())
                } else {
                    old(self).cursor()
                },
                Assembly {
                    in_fragment: false,
                    scratch: Seq::empty(),
                    resyncing: old(self).resyncing(),
                },
                old(self).checksum(),
                old(self).initial_offset(),
            ),
    {
        if !self.positioned_ {
            if !self.skip_to_initial_block() {
                return false;
            }
            self.positioned_ = true;
        }
        let ghost ended = old(self).cursor().eof && old(self).positioned();
        scratch.clear();
        record.clear();
        let mut in_fragmented_record = false;
        let mut prospective_record_offset: u64 = 0;
        let ghost start = self.cursor();
        let ghost first = Assembly {
            in_fragment: false,
            scratch: Seq::empty(),
            resyncing: old(self).resyncing(),
        };
        loop
            invariant
                old(self).io_failed() || !self.io_failed(),
                old(self).steady() ==> self.steady(),
                self.positioned(),
                ended == (old(self).cursor().eof && old(self).positioned()),
                ended ==> self.cursor().eof,
                !self.io_failed() ==> start == if !old(self).positioned() {
                    cursor_skipped(old(self).cursor(), old(self).initial_offset())
                } else {
                    old(self).cursor()
                },
                first == (Assembly {
                    in_fragment: false,
                    scratch: Seq::empty(),
                    resyncing: old(self).resyncing(),
                }),
                self.buffered_ok(),
                self.checksum() == old(self).checksum(),
                self.initial_offset() == old(self).initial_offset(),
                self.spec_last_record_offset() == old(self).spec_last_record_offset(),
                self.reports() == old(self).reports(),
                !self.io_failed() && self.reports() ==> self.told() + logical_reports(
                    self.cursor(),
                    Assembly {
                        in_fragment: in_fragmented_record,
                        scratch: scratch@,
                        resyncing: self.resyncing(),
                    },
                    self.checksum(),
                    self.initial_offset(),
                ) == old(self).told() + logical_reports(
                    start,
                    first,
                    self.checksum(),
                    self.initial_offset(),
                ),
                old(self).io_failed() ==> self.io_failed(),
                !self.io_failed() ==> read_logical(
                    start,
                    first,
                    self.checksum(),
                    self.initial_offset(),
                ) == read_logical(
                    self.cursor(),
                    Assembly {
                        in_fragment: in_fragmented_record,
                        scratch: scratch@,
                        resyncing: self.resyncing(),
                    },
                    self.checksum(),
                    self.initial_offset(),
                ),
            decreases cursor_unread(self.cursor()),
        {
            let ghost before = self.cursor();
            let ghost state = Assembly {
                in_fragment: in_fragmented_record,
                scratch: scratch@,
                resyncing: self.resyncing(),
            };
            let ghost told_before = self.told();
            let physical = self.read_physical_record();
            let ghost told_read = self.told();
            let ghost next = self.cursor();
            proof {
                assert(told_read + Seq::<Report>::empty() =~= told_read);
            }
            match physical {
                PhysicalRecord::Eof => {
                    if in_fragmented_record {
                        self.report_corruption(scratch.len(), "partial record without end(3)");
                        scratch.clear();
                    }
                    self.resyncing_ = false;
                    proof {
                        if !self.io_failed() && self.reports() {
                            lemma_told_step(
                                told_before,
                                told_read,
                                self.told(),
                                before,
                                state,
                                self.checksum_,
                                self.initial_offset_,
                            );
                        }
                    }
                    return false;
                },
                PhysicalRecord::BadRecord => {
                    if in_fragmented_record {
                        self.report_corruption(scratch.len(), "error in middle of record");
                        in_fragmented_record = false;
                    }
                    scratch.clear();
                    self.resyncing_ = false;
                },
                PhysicalRecord::Fragment(record_type, fragment) => {
                    let physical_record_offset = self.end_of_buffer_offset_
                        - self.buffer_.size() as u64 - K_HEADER_SIZE as u64
                        - fragment.size() as u64;
                    if self.resyncing_ && record_type == 3 {
                    } else if self.resyncing_ && record_type == 4 {
                        self.resyncing_ = false;
                    } else if record_type == 1 {
                        self.resyncing_ = false;
                        if in_fragmented_record && scratch.len() > 0 {
                            self.report_corruption(scratch.len(), "partial record without end(1)");
                        }
                        scratch.clear();
                        *record = fragment;
                        self.last_record_offset_ = physical_record_offset;
                        proof {
                            if !self.io_failed() && self.reports() {
                                lemma_told_step(
                                    told_before,
                                    told_read,
                                    self.told(),
                                    before,
                                    state,
                                    self.checksum_,
                                    self.initial_offset_,
                                );
                            }
                        }
                        return true;
                    } else if record_type == 2 {
                        self.resyncing_ = false;
                        if in_fragmented_record && scratch.len() > 0 {
                            self.report_corruption(scratch.len(), "partial record without end(2)");
                        }
                        prospective_record_offset = physical_record_offset;
                        scratch.clear();
                        append_bytes(scratch, fragment.data());
                        in_fragmented_record = true;
                    } else if record_type == 3 {
                        self.resyncing_ = false;
                        if !in_fragmented_record {
                            self.report_corruption(
                                fragment.size(),
                                "missing start of fragmented record(1)",
                            );
                        } else {
                            append_bytes(scratch, fragment.data());
                        }
                    } else if record_type == 4 {
                        self.resyncing_ = false;
                        if !in_fragmented_record {
                            self.report_corruption(
                                fragment.size(),
                                "missing start of fragmented record(2)",
                            );
                        } else {
                            append_bytes(scratch, fragment.data());
                            *record = Slice::new_from_array(scratch.as_slice());
                            self.last_record_offset_ = prospective_record_offset;
                            proof {
                                if !self.io_failed() && self.reports() {
                                    lemma_told_step(
                                        told_before,
                                        told_read,
                                        self.told(),
                                        before,
                                        state,
                                        self.checksum_,
                                        self.initial_offset_,
                                    );
                                }
                            }
                            return true;
                        }
                    } else {
                        self.resyncing_ = false;
                        let gathered = if in_fragmented_record {
                            scratch.len()
                        } else {
                            0
                        };
                        self.report_corruption(
                            fragment.size().saturating_add(gathered),
                            "unknown record type",
                        );
                        in_fragmented_record = false;
                        scratch.clear();
                    }
                },
            }
            proof {
                if !self.io_failed() && self.reports() {
                    lemma_told_step(
                        told_before,
                        told_read,
                        self.told(),
                        before,
                        state,
                        self.checksum_,
                        self.initial_offset_,
                    );
                }
            }
        }
    }
}

} // verus!
