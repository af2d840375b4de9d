//! Every log that the writer makes is read back record by record.

use crate::db::log_format::{
    fragment_bytes, fragment_crc, fragment_type, frame_pad, frame_start, frame_take,
    lemma_record_frames_unfold, record_end_offset, record_frames,
};
use crate::db::log_reader::{
    assemble, cursor_skipped, cursor_refilled, cursor_unread, lemma_logical_reports_unfold,
    lemma_read_physical_advances, logical_reports, parse_buffered, parse_reports, physical_reports,
    read_logical, read_physical, Assembly, LogCursor, Physical, Report, Step,
};
use crate::util::coding::{fixed32_bytes, fixed32_value, lemma_fixed32_roundtrip};
use crate::util::crc32c::{lemma_unmask_mask, mask_spec};
use vstd::prelude::*;

verus! {

/// The bytes that writing `records` one after another adds to a log whose
/// last block holds `offset` bytes.
pub open spec fn log_bytes(offset: nat, records: Seq<Seq<u8>>) -> Seq<u8>
    decreases records.len(),
{
    if records.len() == 0 {
        Seq::empty()
    } else {
        record_frames(offset, records[0], true) + log_bytes(
            record_end_offset(offset, records[0]),
            records.skip(1),
        )
    }
}

/// A reader stands where a writer stood: `tail` is what the writer went on
/// to write from a block that held `offset` bytes, the reader has all of it
/// before it, and its buffer ends where the writer's block ends.
pub open spec fn positioned(c: LogCursor, offset: nat, tail: Seq<u8>) -> bool {
    &&& c.buffer + c.rest == tail
    &&& offset <= 32768
    &&& c.buffer.len() <= 32768
    &&& c.end_offset >= c.buffer.len()
    &&& if c.eof {
        c.rest.len() == 0 && offset + c.buffer.len() <= 32768
    } else {
        c.buffer.len() + offset == 0 || c.buffer.len() + offset == 32768 || c.buffer.len()
            + offset == 65536
    }
}

/// The reader stands at or behind the offset from which records are
/// wanted, and a 64-bit number counts the offsets of the file.  Nothing is
/// asked where records are wanted from the start.
pub open spec fn wanted(c: LogCursor, initial_offset: u64) -> bool {
    initial_offset == 0 || (c.end_offset - c.buffer.len() >= initial_offset && c.end_offset
        + c.rest.len() <= u64::MAX)
}

/// A reader that has read nothing.
pub open spec fn cursor_at_start(log: Seq<u8>) -> LogCursor {
    LogCursor { buffer: Seq::empty(), rest: log, eof: false, end_offset: 0 }
}

/// The state of a reader that holds no fragment of a record.
pub open spec fn assembly_at_rest() -> Assembly {
    Assembly { in_fragment: false, scratch: Seq::empty(), resyncing: false }
}

/// The records that a reader returns from `c` on, `limit` at most.
pub open spec fn log_records(c: LogCursor, checksum: bool, limit: nat) -> Seq<Seq<u8>>
    decreases limit,
{
    if limit == 0 {
        Seq::empty()
    } else {
        let (r, behind) = read_logical(c, assembly_at_rest(), checksum, 0);
        match r {
            Some(record) => seq![record] + log_records(behind, checksum, (limit - 1) as nat),
            None => Seq::empty(),
        }
    }
}

proof fn lemma_parse_fragment(
    c: LogCursor,
    t: u8,
    payload: Seq<u8>,
    checksum: bool,
    init: u64,
)
    requires
        wanted(c, init),
        t != 0,
        payload.len() <= 0xffff,
        c.buffer.len() >= 7 + payload.len(),
        c.buffer.take(7 + payload.len() as int) == fragment_bytes(t, payload),
        c.end_offset >= c.buffer.len(),
    ensures
        parse_buffered(c, checksum, init) == (
            Physical::Fragment(t, payload),
            LogCursor {
                buffer: c.buffer.skip(7 + payload.len() as int),
                rest: c.rest,
                eof: c.eof,
                end_offset: c.end_offset,
            },
        ),
        parse_reports(c, checksum, init) == Seq::<Report>::empty(),
        wanted(
            LogCursor {
                buffer: c.buffer.skip(7 + payload.len() as int),
                rest: c.rest,
                eof: c.eof,
                end_offset: c.end_offset,
            },
            init,
        ),
{
    let len = payload.len() as int;
    let b = c.buffer;
    let f = fragment_bytes(t, payload);
    let m = mask_spec(fragment_crc(t, payload));
    let trailer = seq![(payload.len() % 256) as u8, (payload.len() / 256) as u8, t];
    assert(f =~= fixed32_bytes(m) + (trailer + payload));
    assert forall|i: int| 0 <= i < 7 + len implies b[i] == f[i] by {
        assert(b.take(7 + len)[i] == b[i]);
    }
    assert(b[4] == f[4] && b[5] == f[5] && b[6] == f[6]);
    assert(f[4] == (payload.len() % 256) as u8);
    assert(f[5] == (payload.len() / 256) as u8);
    assert(f[6] == t);
    assert(b[4] + 256 * b[5] == len);
    assert(b.subrange(7, 7 + len) =~= payload);
    lemma_fixed32_roundtrip(m, trailer + payload);
    assert(fixed32_value(b) == fixed32_value(f)) by {
        assert(b[0] == f[0] && b[1] == f[1] && b[2] == f[2] && b[3] == f[3]);
    }
    lemma_unmask_mask(fragment_crc(t, payload));
}

proof fn lemma_prefix_of_sum(buffer: Seq<u8>, rest: Seq<u8>, head: Seq<u8>, tail: Seq<u8>)
    requires
        buffer + rest == head + tail,
        buffer.len() >= head.len(),
    ensures
        buffer.take(head.len() as int) == head,
        buffer.skip(head.len() as int) + rest == tail,
{
    let u = buffer + rest;
    assert forall|i: int| 0 <= i < head.len() implies buffer[i] == head[i] by {
        assert(u[i] == buffer[i]);
        assert((head + tail)[i] == head[i]);
    }
    assert(buffer.take(head.len() as int) =~= head);
    assert(u.len() == head.len() + tail.len());
    assert forall|i: int| 0 <= i < tail.len() implies (buffer.skip(head.len() as int) + rest)[i]
        == tail[i] by {
        assert((head + tail)[i + head.len()] == tail[i]);
        assert(u[i + head.len()] == (buffer.skip(head.len() as int) + rest)[i]);
    }
    assert(buffer.skip(head.len() as int) + rest =~= tail);
}

proof fn lemma_sum_split(buffer: Seq<u8>, rest: Seq<u8>, head: Seq<u8>, tail: Seq<u8>)
    requires
        buffer + rest == head + tail,
        buffer.len() == head.len(),
    ensures
        buffer == head,
        rest == tail,
{
    lemma_prefix_of_sum(buffer, rest, head, tail);
    assert(buffer.take(buffer.len() as int) =~= buffer);
    assert(buffer.skip(buffer.len() as int) + rest =~= rest);
}

/// The cursor at which the next fragment is parsed: the cursor itself, or
/// the cursor with the next block read where fewer than seven bytes are
/// buffered.
spec fn fragment_cursor(c: LogCursor) -> LogCursor {
    if c.buffer.len() >= 7 {
        c
    } else {
        cursor_refilled(c)
    }
}

proof fn lemma_fragment_cursor(c: LogCursor, offset: nat, frag: Seq<u8>, behind: Seq<u8>)
    requires
        positioned(c, offset, frame_pad(offset) + (frag + behind)),
        frag.len() >= 7,
        frag.len() + frame_start(offset) <= 32768,
    ensures
        ({
            let c1 = fragment_cursor(c);
            &&& c.buffer.len() < 7 ==> !c.eof
            &&& c1.buffer.len() >= frag.len()
            &&& c1.buffer.len() <= 32768
            &&& c1.buffer.take(frag.len() as int) == frag
            &&& c1.buffer.skip(frag.len() as int) + c1.rest == behind
            &&& c1.end_offset >= c1.buffer.len()
            &&& if c1.eof {
                c1.rest.len() == 0 && frame_start(offset) + c1.buffer.len() <= 32768
            } else {
                c1.buffer.len() + frame_start(offset) == 32768
            }
        }),
{
    let pad = frame_pad(offset);
    let unread = c.buffer + c.rest;
    let c1 = fragment_cursor(c);
    assert(unread.len() == pad.len() + frag.len() + behind.len());
    if c.buffer.len() >= 7 {
        if c.eof {
            assert(c.rest =~= Seq::<u8>::empty());
        }
        assert(pad.len() == 0);
        assert(pad =~= Seq::<u8>::empty());
        assert(unread =~= frag + behind);
        lemma_prefix_of_sum(c.buffer, c.rest, frag, behind);
    } else {
        if c.eof {
            assert(c.rest =~= Seq::<u8>::empty());
            assert(unread =~= c.buffer);
            assert(false);
        }
        assert(pad.len() == c.buffer.len());
        lemma_sum_split(c.buffer, c.rest, pad, frag + behind);
        assert(c1.buffer + c1.rest =~= c.rest);
        lemma_prefix_of_sum(c1.buffer, c1.rest, frag, behind);
    }
}

/// A reader that stands before the frames of `data` reads the first
/// fragment of them and then stands before the others.
proof fn lemma_read_first_fragment(
    c: LogCursor,
    offset: nat,
    data: Seq<u8>,
    begin: bool,
    more: Seq<u8>,
    checksum: bool,
    init: u64,
)
    requires
        wanted(c, init),
        positioned(c, offset, record_frames(offset, data, begin) + more),
    ensures
        ({
            let n = frame_take(offset, data.len());
            let end = data.len() == n;
            let next_off = frame_start(offset) + 7 + n;
            let (p, c2) = read_physical(c, checksum, init);
            &&& p == Physical::Fragment(
                fragment_type(begin, end).spec_to_u8(),
                data.take(n as int),
            )
            &&& cursor_unread(c2) < cursor_unread(c)
            &&& physical_reports(c, checksum, init) == Seq::<Report>::empty()
            &&& wanted(c2, init)
            &&& end ==> positioned(c2, record_end_offset(offset, data), more)
            &&& !end ==> positioned(
                c2,
                next_off,
                record_frames(next_off, data.skip(n as int), false) + more,
            )
        }),
{
    lemma_record_frames_unfold(offset, data, begin);
    let n = frame_take(offset, data.len());
    let end = data.len() == n;
    let t = fragment_type(begin, end).spec_to_u8();
    let piece = data.take(n as int);
    let frag = fragment_bytes(t, piece);
    let next_off = frame_start(offset) + 7 + n;
    let tail_frames = if end {
        Seq::<u8>::empty()
    } else {
        record_frames(next_off, data.skip(n as int), false)
    };
    let behind = tail_frames + more;
    assert(frag.len() == 7 + n);
    assert(record_frames(offset, data, begin) + more =~= frame_pad(offset) + (frag + behind));
    lemma_fragment_cursor(c, offset, frag, behind);
    let c1 = fragment_cursor(c);
    assert(wanted(c1, init));
    lemma_parse_fragment(c1, t, piece, checksum, init);
    lemma_read_physical_advances(c, checksum, init);
    let c2 = LogCursor {
        buffer: c1.buffer.skip(7 + n as int),
        rest: c1.rest,
        eof: c1.eof,
        end_offset: c1.end_offset,
    };
    assert(read_physical(c, checksum, init) == parse_buffered(c1, checksum, init));
    assert(physical_reports(c, checksum, init) == parse_reports(c1, checksum, init));
    assert(read_physical(c, checksum, init).1 == c2);
    assert(positioned(c2, next_off, behind));
    if end {
        assert(behind =~= more);
    }
}

/// A reader that stands before the frames of `data` reads `data` back,
/// behind the fragments it had gathered where `data` continues a record,
/// and then stands behind the frames.
proof fn lemma_read_frames(
    c: LogCursor,
    a: Assembly,
    offset: nat,
    data: Seq<u8>,
    begin: bool,
    more: Seq<u8>,
    checksum: bool,
    init: u64,
)
    requires
        wanted(c, init),
        positioned(c, offset, record_frames(offset, data, begin) + more),
        !a.resyncing || begin,
        a.in_fragment == !begin,
    ensures
        ({
            let (r, behind) = read_logical(c, a, checksum, init);
            &&& r == Some(
                if begin {
                    data
                } else {
                    a.scratch + data
                },
            )
            &&& positioned(behind, record_end_offset(offset, data), more)
            &&& logical_reports(c, a, checksum, init) == Seq::<Report>::empty()
            &&& wanted(behind, init)
        }),
    decreases data.len(), 32768 - offset,
{
    lemma_record_frames_unfold(offset, data, begin);
    lemma_read_first_fragment(c, offset, data, begin, more, checksum, init);
    lemma_logical_reports_unfold(c, a, checksum, init);
    assert(Seq::<Report>::empty() + Seq::<Report>::empty() =~= Seq::<Report>::empty());
    let n = frame_take(offset, data.len());
    let end = data.len() == n;
    let t = fragment_type(begin, end).spec_to_u8();
    let piece = data.take(n as int);
    let next_off = frame_start(offset) + 7 + n;
    let (p, c2) = read_physical(c, checksum, init);
    if end {
        assert(piece =~= data);
    } else {
        let b = Assembly {
            in_fragment: true,
            scratch: if begin {
                piece
            } else {
                a.scratch + piece
            },
            resyncing: false,
        };
        assert(assemble(a, p) == Step::Continue(b));
        lemma_read_frames(c2, b, next_off, data.skip(n as int), false, more, checksum, init);
        assert(piece + data.skip(n as int) =~= data);
        assert((a.scratch + piece) + data.skip(n as int) =~= a.scratch + data);
    }
}

/// The first record of a log is read back, and the reader then stands
/// before the records that follow it.
pub proof fn lemma_first_record_read_back(
    c: LogCursor,
    offset: nat,
    records: Seq<Seq<u8>>,
    checksum: bool,
)
    requires
        records.len() > 0,
        positioned(c, offset, log_bytes(offset, records)),
    ensures
        ({
            let (r, behind) = read_logical(c, assembly_at_rest(), checksum, 0);
            &&& r == Some(records[0])
            &&& positioned(
                behind,
                record_end_offset(offset, records[0]),
                log_bytes(record_end_offset(offset, records[0]), records.skip(1)),
            )
            &&& logical_reports(c, assembly_at_rest(), checksum, 0) == Seq::<Report>::empty()
        }),
{
    lemma_read_frames(
        c,
        assembly_at_rest(),
        offset,
        records[0],
        true,
        log_bytes(record_end_offset(offset, records[0]), records.skip(1)),
        checksum,
        0,
    );
}

/// At the end of a log the reader finds no record.
pub proof fn lemma_end_of_log(c: LogCursor, offset: nat, checksum: bool)
    requires
        positioned(c, offset, Seq::empty()),
    ensures
        read_logical(c, assembly_at_rest(), checksum, 0).0 is None,
        logical_reports(c, assembly_at_rest(), checksum, 0) == Seq::<Report>::empty(),
{
    assert(c.buffer.len() == 0 && c.rest.len() == 0);
    lemma_logical_reports_unfold(c, assembly_at_rest(), checksum, 0);
    assert(Seq::<Report>::empty() + Seq::<Report>::empty() =~= Seq::<Report>::empty());
}

/// Write-ahead log framing: whatever records are written one after another
/// from a block that holds `offset` bytes, a reader that stands there reads
/// exactly these records back, in order, with or without checksum
/// verification.
pub proof fn lemma_log_roundtrip(
    c: LogCursor,
    offset: nat,
    records: Seq<Seq<u8>>,
    checksum: bool,
    limit: nat,
)
    requires
        positioned(c, offset, log_bytes(offset, records)),
        limit > records.len(),
    ensures
        log_records(c, checksum, limit) == records,
    decreases records.len(),
{
    if records.len() == 0 {
        lemma_end_of_log(c, offset, checksum);
        assert(log_records(c, checksum, limit) =~= records);
    } else {
        lemma_first_record_read_back(c, offset, records, checksum);
        let (r, behind) = read_logical(c, assembly_at_rest(), checksum, 0);
        lemma_log_roundtrip(
            behind,
            record_end_offset(offset, records[0]),
            records.skip(1),
            checksum,
            (limit - 1) as nat,
        );
        assert(seq![records[0]] + records.skip(1) =~= records);
    }
}

/// What a reader reports that reads records from `c` on, `limit` at
/// most.
pub open spec fn log_reports(c: LogCursor, checksum: bool, limit: nat) -> Seq<Report>
    decreases limit,
{
    if limit == 0 {
        Seq::empty()
    } else {
        let (r, behind) = read_logical(c, assembly_at_rest(), checksum, 0);
        let here = logical_reports(c, assembly_at_rest(), checksum, 0);
        match r {
            Some(record) => here + log_reports(behind, checksum, (limit - 1) as nat),
            None => here,
        }
    }
}

/// Write-ahead log framing, the reports: a reader that reads back what a
/// writer wrote reports nothing.
pub proof fn lemma_log_unreported(
    c: LogCursor,
    offset: nat,
    records: Seq<Seq<u8>>,
    checksum: bool,
    limit: nat,
)
    requires
        positioned(c, offset, log_bytes(offset, records)),
    ensures
        log_reports(c, checksum, limit) == Seq::<Report>::empty(),
    decreases limit,
{
    if limit > 0 {
        if records.len() == 0 {
            lemma_end_of_log(c, offset, checksum);
        } else {
            lemma_first_record_read_back(c, offset, records, checksum);
            let (r, behind) = read_logical(c, assembly_at_rest(), checksum, 0);
            lemma_log_unreported(
                behind,
                record_end_offset(offset, records[0]),
                records.skip(1),
                checksum,
                (limit - 1) as nat,
            );
            assert(Seq::<Report>::empty() + Seq::<Report>::empty() =~= Seq::<Report>::empty());
        }
    }
}

/// A log written from its start is read back from its start.
pub proof fn lemma_whole_log_roundtrip(records: Seq<Seq<u8>>, checksum: bool)
    ensures
        log_records(
            cursor_at_start(log_bytes(0, records)),
            checksum,
            records.len() + 1,
        ) == records,
{
    let log = log_bytes(0, records);
    assert(cursor_at_start(log).buffer + cursor_at_start(log).rest =~= log);
    lemma_log_roundtrip(cursor_at_start(log), 0, records, checksum, records.len() + 1);
}

/// The state of a reader that passes over the fragments of a record
/// begun before the offset from which records are wanted.
pub open spec fn assembly_resyncing() -> Assembly {
    Assembly { in_fragment: false, scratch: Seq::empty(), resyncing: true }
}

/// The records that a reader returns from `c` on, `limit` at most, where
/// records are wanted from `initial_offset` on and the first read starts
/// in the state `a`.
pub open spec fn records_from(
    c: LogCursor,
    a: Assembly,
    checksum: bool,
    initial_offset: u64,
    limit: nat,
) -> Seq<Seq<u8>>
    decreases limit,
{
    if limit == 0 {
        Seq::empty()
    } else {
        let (r, behind) = read_logical(c, a, checksum, initial_offset);
        match r {
            Some(record) => seq![record] + records_from(
                behind,
                assembly_at_rest(),
                checksum,
                initial_offset,
                (limit - 1) as nat,
            ),
            None => Seq::empty(),
        }
    }
}

/// What a reader reports that reads records as [`records_from`] says.
pub open spec fn reports_from(
    c: LogCursor,
    a: Assembly,
    checksum: bool,
    initial_offset: u64,
    limit: nat,
) -> Seq<Report>
    decreases limit,
{
    if limit == 0 {
        Seq::empty()
    } else {
        let (r, behind) = read_logical(c, a, checksum, initial_offset);
        let here = logical_reports(c, a, checksum, initial_offset);
        match r {
            Some(record) => here + reports_from(
                behind,
                assembly_at_rest(),
                checksum,
                initial_offset,
                (limit - 1) as nat,
            ),
            None => here,
        }
    }
}

/// A reader that stands where a writer stood before it wrote `records`,
/// at or behind the offset from which records are wanted, reads exactly
/// these records back, whether it was passing over fragments or not, and
/// reports nothing.
pub proof fn lemma_log_read_from(
    c: LogCursor,
    a: Assembly,
    offset: nat,
    records: Seq<Seq<u8>>,
    checksum: bool,
    initial_offset: u64,
    limit: nat,
)
    requires
        positioned(c, offset, log_bytes(offset, records)),
        wanted(c, initial_offset),
        !a.in_fragment,
        limit > records.len(),
    ensures
        records_from(c, a, checksum, initial_offset, limit) == records,
        reports_from(c, a, checksum, initial_offset, limit) == Seq::<Report>::empty(),
    decreases records.len(),
{
    lemma_logical_reports_unfold(c, a, checksum, initial_offset);
    assert(Seq::<Report>::empty() + Seq::<Report>::empty() =~= Seq::<Report>::empty());
    if records.len() == 0 {
        assert(c.buffer.len() == 0 && c.rest.len() == 0);
        assert(records_from(c, a, checksum, initial_offset, limit) =~= records);
    } else {
        lemma_read_frames(
            c,
            a,
            offset,
            records[0],
            true,
            log_bytes(record_end_offset(offset, records[0]), records.skip(1)),
            checksum,
            initial_offset,
        );
        let (r, behind) = read_logical(c, a, checksum, initial_offset);
        lemma_log_read_from(
            behind,
            assembly_at_rest(),
            record_end_offset(offset, records[0]),
            records.skip(1),
            checksum,
            initial_offset,
            (limit - 1) as nat,
        );
        assert(seq![records[0]] + records.skip(1) =~= records);
    }
}

/// A reader that passes over fragments and stands before the fragments
/// that are left of a record passes over them: it reads on as a reader
/// that stands behind them, at rest, and reports nothing of them.
pub proof fn lemma_resync(
    c: LogCursor,
    offset: nat,
    data: Seq<u8>,
    more: Seq<u8>,
    checksum: bool,
    initial_offset: u64,
) -> (behind: LogCursor)
    requires
        positioned(c, offset, record_frames(offset, data, false) + more),
        wanted(c, initial_offset),
    ensures
        positioned(behind, record_end_offset(offset, data), more),
        wanted(behind, initial_offset),
        read_logical(c, assembly_resyncing(), checksum, initial_offset) == read_logical(
            behind,
            assembly_at_rest(),
            checksum,
            initial_offset,
        ),
        logical_reports(c, assembly_resyncing(), checksum, initial_offset) == logical_reports(
            behind,
            assembly_at_rest(),
            checksum,
            initial_offset,
        ),
    decreases data.len(), 32768 - offset,
{
    let a = assembly_resyncing();
    lemma_record_frames_unfold(offset, data, false);
    lemma_read_first_fragment(c, offset, data, false, more, checksum, initial_offset);
    lemma_logical_reports_unfold(c, a, checksum, initial_offset);
    let n = frame_take(offset, data.len());
    let end = data.len() == n;
    let next_off = frame_start(offset) + 7 + n;
    let (p, c2) = read_physical(c, checksum, initial_offset);
    if end {
        assert(assemble(a, p) == Step::Continue(assembly_at_rest()));
        let rest = logical_reports(c2, assembly_at_rest(), checksum, initial_offset);
        assert(Seq::<Report>::empty() + Seq::<Report>::empty() + rest =~= rest);
        c2
    } else {
        assert(assemble(a, p) == Step::Continue(a));
        let behind = lemma_resync(
            c2,
            next_off,
            data.skip(n as int),
            more,
            checksum,
            initial_offset,
        );
        let rest = logical_reports(c2, a, checksum, initial_offset);
        assert(Seq::<Report>::empty() + Seq::<Report>::empty() + rest =~= rest);
        behind
    }
}

/// Write-ahead log recovery: a reader that passes over fragments and
/// stands, at or behind the offset from which records are wanted, before
/// the fragments that are left of a record begun before and before the
/// `records` written behind it, returns exactly `records`, in order, and
/// reports nothing.
pub proof fn lemma_log_resumed(
    c: LogCursor,
    offset: nat,
    data: Seq<u8>,
    records: Seq<Seq<u8>>,
    checksum: bool,
    initial_offset: u64,
    limit: nat,
)
    requires
        positioned(
            c,
            offset,
            record_frames(offset, data, false) + log_bytes(
                record_end_offset(offset, data),
                records,
            ),
        ),
        wanted(c, initial_offset),
        limit > records.len(),
    ensures
        records_from(c, assembly_resyncing(), checksum, initial_offset, limit) == records,
        reports_from(c, assembly_resyncing(), checksum, initial_offset, limit) == Seq::<
            Report,
        >::empty(),
{
    let behind = lemma_resync(
        c,
        offset,
        data,
        log_bytes(record_end_offset(offset, data), records),
        checksum,
        initial_offset,
    );
    lemma_log_read_from(
        behind,
        assembly_at_rest(),
        record_end_offset(offset, data),
        records,
        checksum,
        initial_offset,
        limit,
    );
}

/// What a writer writes from a block that holds `offset` bytes: the
/// frames of `data`, and behind them the records `after`.
pub open spec fn written_from(offset: nat, data: Seq<u8>, begin: bool, after: Seq<Seq<u8>>) -> Seq<
    u8,
> {
    record_frames(offset, data, begin) + log_bytes(record_end_offset(offset, data), after)
}

/// The records that begin in what is written: `data` where its frames
/// open a record, and `after`.
pub open spec fn begun(data: Seq<u8>, begin: bool, after: Seq<Seq<u8>>) -> Seq<Seq<u8>> {
    if begin {
        seq![data] + after
    } else {
        after
    }
}

/// Whether `tail` is what a log holds from the start of a block on, and
/// `records` are the records that begin there or behind: `tail` is the
/// fragments left of a record begun before, if there is one, and the
/// records.
pub open spec fn resumes(tail: Seq<u8>, records: Seq<Seq<u8>>) -> bool {
    ||| tail == log_bytes(0, records)
    ||| exists|data: Seq<u8>| tail == #[trigger] written_from(0, data, false, records)
}

/// What a writer writes holds, from the start of every block on, the
/// fragments left of a record begun before and the records that begin in
/// the block or behind.  `b` is the count of bytes written before the
/// block starts; `j` records begin before it.
pub proof fn lemma_block_start(
    offset: nat,
    data: Seq<u8>,
    begin: bool,
    after: Seq<Seq<u8>>,
    b: nat,
) -> (j: nat)
    requires
        offset <= 32768,
        b <= written_from(offset, data, begin, after).len(),
        (offset + b) % 32768 == 0,
    ensures
        j <= begun(data, begin, after).len(),
        resumes(
            written_from(offset, data, begin, after).skip(b as int),
            begun(data, begin, after).skip(j as int),
        ),
    decreases after.len(), data.len(), 32768 - offset,
{
    let w = written_from(offset, data, begin, after);
    let all = begun(data, begin, after);
    lemma_record_frames_unfold(offset, data, begin);
    let pad = frame_pad(offset);
    let start = frame_start(offset);
    let n = frame_take(offset, data.len());
    let end = data.len() == n;
    let frame = fragment_bytes(fragment_type(begin, end).spec_to_u8(), data.take(n as int));
    let next = start + 7 + n;
    assert(frame.len() == 7 + n);
    let rest = if end {
        log_bytes(next, after)
    } else {
        written_from(next, data.skip(n as int), false, after)
    };
    assert(w =~= pad + frame + rest);
    let shift: nat = if begin {
        1
    } else {
        0
    };
    if b == pad.len() {
        lemma_record_frames_unfold(0, data, begin);
        assert(w.skip(b as int) =~= written_from(0, data, begin, after));
        assert(all.skip(0) =~= all);
        if begin {
            assert(all.skip(1) =~= after);
            assert(all[0] == data);
        }
        0
    } else {
        let b2 = (b - pad.len() - frame.len()) as nat;
        assert(start + (b - pad.len()) >= 32768);
        assert(w.skip(b as int) =~= rest.skip(b2 as int));
        if end && after.len() == 0 {
            assert(rest.len() == 0);
            assert(w.skip(b as int) =~= log_bytes(0, Seq::<Seq<u8>>::empty()));
            assert(all.skip(all.len() as int) =~= Seq::<Seq<u8>>::empty());
            all.len()
        } else if end {
            assert(begun(after[0], true, after.skip(1)) =~= after);
            let j2 = lemma_block_start(next, after[0], true, after.skip(1), b2);
            assert(all.skip((j2 + shift) as int) =~= after.skip(j2 as int));
            j2 + shift
        } else {
            let j2 = lemma_block_start(next, data.skip(n as int), false, after, b2);
            assert(all.skip((j2 + shift) as int) =~= after.skip(j2 as int));
            j2 + shift
        }
    }
}

/// Write-ahead log recovery at an offset: a reader of a log that a writer
/// wrote from its start, which wants records from the start of the `k`-th
/// block on and has skipped to it, returns exactly the records that begin
/// in that block or behind, the last `records.len() - j` of them, in order,
/// and reports nothing.
pub proof fn lemma_log_recovery(records: Seq<Seq<u8>>, k: nat, checksum: bool, limit: nat) -> (j:
    nat)
    requires
        k >= 1,
        k * 32768 <= log_bytes(0, records).len() <= u64::MAX,
        limit > records.len(),
    ensures
        j <= records.len(),
        records_from(
            cursor_skipped(cursor_at_start(log_bytes(0, records)), (k * 32768) as u64),
            assembly_resyncing(),
            checksum,
            (k * 32768) as u64,
            limit,
        ) == records.skip(j as int),
        reports_from(
            cursor_skipped(cursor_at_start(log_bytes(0, records)), (k * 32768) as u64),
            assembly_resyncing(),
            checksum,
            (k * 32768) as u64,
            limit,
        ) == Seq::<Report>::empty(),
{
    let log = log_bytes(0, records);
    let at = (k * 32768) as u64;
    let c = cursor_skipped(cursor_at_start(log), at);
    assert(records.len() > 0);
    assert(log == written_from(0, records[0], true, records.skip(1)));
    assert(begun(records[0], true, records.skip(1)) =~= records);
    let j = lemma_block_start(0, records[0], true, records.skip(1), k * 32768);
    let tail = log.skip(at as int);
    let left = records.skip(j as int);
    assert(at % 32768 == 0);
    assert(c.buffer + c.rest =~= tail);
    assert(positioned(c, 0, tail));
    assert(wanted(c, at));
    if tail == log_bytes(0, left) {
        lemma_log_read_from(c, assembly_resyncing(), 0, left, checksum, at, limit);
    } else {
        let data = choose|data: Seq<u8>| tail == #[trigger] written_from(0, data, false, left);
        lemma_log_resumed(c, 0, data, left, checksum, at, limit);
    }
    j
}

} // verus!
