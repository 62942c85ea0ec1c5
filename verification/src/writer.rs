//! The writing side of the store: appends records one at a time, frames each
//! with the delimiter, and rotates to a freshly numbered segment once the
//! record count crosses a boundary.

use vstd::prelude::*;

use crate::errors::ConfigError;
use crate::model::all_line_free;
use crate::model::frame;
use crate::model::frame_all;
use crate::model::lemma_div_mod_basics;
use crate::model::lemma_frame_all_concat;
use crate::model::lemma_frame_all_push;
use crate::model::lemma_round_trip;
use crate::model::lemma_step_quotient;
use crate::model::line_free;
use crate::model::on_disk;
use crate::model::parse_lines;
use crate::model::parsed_segments;
use crate::model::segment_records;
use crate::model::DELIM;
use crate::naming::boundary_of;
use crate::naming::file_name;
use crate::naming::seg_name;

verus! {

/// The abstract state of a writer: its configuration, the records accepted so
/// far, how many of them have reached their segment, the per-segment bytes,
/// and the bytes still buffered for the active segment.
#[verifier::ext_equal]
pub struct WriterView {
    /// The name prepended to every segment's boundary number.
    pub base_name: Seq<char>,
    /// The directory the caller stores segments under (it plays no part in
    /// segment naming).
    pub directory: Seq<char>,
    /// The rotation threshold: records per segment. Always positive.
    pub writes_per_file: nat,
    /// Every record accepted so far, in write order.
    pub records: Seq<Seq<u8>>,
    /// How many of the records have been folded into their segment; the rest
    /// sit framed in the buffer.
    pub flushed: nat,
    /// The contents of each segment, in boundary order.
    pub segments: Seq<Seq<u8>>,
    /// Framed records accepted but not yet folded into the active segment.
    pub buffer: Seq<u8>,
}

impl WriterView {
    /// The index of the active segment: one per completed boundary.
    pub open spec fn active(self) -> nat {
        self.records.len() / self.writes_per_file
    }

    /// The segment invariant. Completed segments hold exactly their records
    /// framed; the active segment holds the flushed prefix of its records;
    /// the buffer holds the rest, framed. It follows that
    /// `segments[i] = frame_all(records[i*n .. (i+1)*n])` for every completed
    /// segment `i`, which is what makes replay deterministic.
    pub open spec fn wf(self) -> bool {
        let n = self.writes_per_file;
        let count = self.records.len();
        &&& n > 0
        &&& all_line_free(self.records)
        &&& self.active() * n <= self.flushed <= count
        &&& self.segments.len() == self.active() + 1
        &&& (forall|i: int|
            0 <= i < self.active() ==> #[trigger] self.segments[i] == frame_all(
                segment_records(self.records, n, i as nat),
            ))
        &&& self.segments[self.active() as int] == frame_all(
            self.records.subrange((self.active() * n) as int, self.flushed as int),
        )
        &&& self.buffer == frame_all(
            self.records.subrange(self.flushed as int, count as int),
        )
    }
}

/// What `EfficientFileWriter::flush` promises: records and configuration are
/// untouched, every accepted record has been folded into its segment, the
/// buffer is empty, and the segments are exactly the on-disk image of the
/// records.
pub open spec fn flush_post(pre: WriterView, post: WriterView) -> bool {
    &&& post.base_name == pre.base_name
    &&& post.directory == pre.directory
    &&& post.writes_per_file == pre.writes_per_file
    &&& post.records == pre.records
    &&& post.flushed == pre.records.len()
    &&& post.buffer == Seq::<u8>::empty()
    &&& post.segments == on_disk(pre.records, pre.writes_per_file)
}

/// A buffered writer for an unbounded sequence of delimiter-free records.
///
/// Each record is appended to the active segment as its bytes plus one
/// delimiter. When the cumulative record count reaches an exact multiple of
/// `writes_per_file`, the writer eagerly opens the next, empty segment — so a
/// count that lands exactly on a boundary leaves a trailing empty segment
/// behind, which replay relies on.
///
/// Segment contents live in memory; the caller moves them to durable storage.
pub struct EfficientFileWriter {
    /// The name to prepend to the current segment boundary.
    base_name: String,
    /// The directory the caller stores segments under.
    directory: String,
    /// The number of records per segment.
    writes_per_file: usize,
    /// The total number of records written.
    writes_performed: usize,
    /// How many records have been folded into their segment.
    records_flushed: usize,
    /// The contents of every segment so far, in boundary order.
    segments: Vec<Vec<u8>>,
    /// Framed records not yet folded into the active segment.
    buffer: Vec<u8>,
    /// The records written, in order.
    records: Ghost<Seq<Seq<u8>>>,
}

impl View for EfficientFileWriter {
    type V = WriterView;

    closed spec fn view(&self) -> WriterView {
        WriterView {
            base_name: self.base_name@,
            directory: self.directory@,
            writes_per_file: self.writes_per_file as nat,
            records: self.records@,
            flushed: self.records_flushed as nat,
            segments: self.segments.deep_view(),
            buffer: self.buffer@,
        }
    }
}

impl EfficientFileWriter {
    /// The concrete record counter agrees with the abstract record sequence.
    pub closed spec fn counts_ok(&self) -> bool {
        self.writes_performed == self.records@.len()
    }

    /// A well-formed writer: counters agree and the segment invariant holds.
    pub open spec fn wf(&self) -> bool {
        &&& self@.wf()
        &&& self.counts_ok()
    }

    /// Creates a writer over an empty archive: one empty segment at boundary
    /// zero is active. Rejects a zero rotation threshold before anything else
    /// happens, so an invalid configuration mutates nothing.
    pub fn new(base_name: String, writes_per_file: usize, directory: String) -> (r: Result<
        EfficientFileWriter,
        ConfigError,
    >)
        ensures
            r is Err <==> writes_per_file == 0,
            r is Err ==> r->Err_0 == ConfigError::ZeroWritesPerFile,
            r is Ok ==> r->Ok_0.wf(),
            r is Ok ==> r->Ok_0@.base_name == base_name@,
            r is Ok ==> r->Ok_0@.directory == directory@,
            r is Ok ==> r->Ok_0@.writes_per_file == writes_per_file as nat,
            r is Ok ==> r->Ok_0@.records == Seq::<Seq<u8>>::empty(),
            r is Ok ==> r->Ok_0@.flushed == 0,
            r is Ok ==> r->Ok_0@.segments == seq![Seq::<u8>::empty()],
            r is Ok ==> r->Ok_0@.buffer == Seq::<u8>::empty(),
    {
        if writes_per_file == 0 {
            return Err(ConfigError::ZeroWritesPerFile);
        }
        let mut segments: Vec<Vec<u8>> = Vec::new();
        segments.push(Vec::new());
        let w = EfficientFileWriter {
            base_name,
            directory,
            writes_per_file,
            writes_performed: 0,
            records_flushed: 0,
            segments,
            buffer: Vec::new(),
            records: Ghost(Seq::empty()),
        };
        proof {
            lemma_div_mod_basics(0, writes_per_file as nat);
            assert(w@.segments =~~= seq![Seq::<u8>::empty()]);
            assert(w@.records.subrange(0, 0) =~= Seq::<Seq<u8>>::empty());
            assert(w@.segments[0] == frame_all(w@.records.subrange(0, 0)));
            assert(w@.buffer == frame_all(w@.records.subrange(0, 0)));
        }
        Ok(w)
    }

    /// Folds the buffered bytes into the last segment and empties the buffer.
    fn flush_buffer(&mut self)
        requires
            old(self)@.segments.len() > 0,
        ensures
            final(self)@.base_name == old(self)@.base_name,
            final(self)@.directory == old(self)@.directory,
            final(self)@.writes_per_file == old(self)@.writes_per_file,
            final(self)@.records == old(self)@.records,
            final(self)@.flushed == old(self)@.flushed,
            final(self).counts_ok() == old(self).counts_ok(),
            final(self)@.segments.len() == old(self)@.segments.len(),
            final(self)@.segments.last() == old(self)@.segments.last() + old(self)@.buffer,
            forall|i: int|
                0 <= i < old(self)@.segments.len() - 1
                    ==> final(self)@.segments[i] == old(self)@.segments[i],
            final(self)@.buffer == Seq::<u8>::empty(),
    {
        let ghost pre = self@;
        let mut seg = self.segments.pop().unwrap();
        seg.extend_from_slice(self.buffer.as_slice());
        self.segments.push(seg);
        self.buffer.clear();
        proof {
            assert(self@.segments.len() == pre.segments.len());
            assert forall|i: int| 0 <= i < pre.segments.len() - 1 implies self@.segments[i]
                == pre.segments[i] by {
                assert(self.segments@[i] == self.segments@.subrange(
                    0,
                    pre.segments.len() - 1,
                )[i]);
            }
            assert(self@.segments.last() == pre.segments.last() + pre.buffer);
        }
    }

    /// Appends `record` followed by the delimiter to the active segment's
    /// buffer and returns how many bytes that framed form takes. If the new
    /// cumulative count is an exact multiple of the threshold, the buffered
    /// bytes are folded into the segment that just completed and the next,
    /// empty segment is opened at once — even though nothing has been written
    /// to it yet.
    ///
    /// The caller guarantees that `record` contains no delimiter byte; an
    /// embedded delimiter would corrupt the framing.
    pub fn write(&mut self, record: &[u8]) -> (r: usize)
        requires
            old(self).wf(),
            line_free(record@),
            old(self)@.records.len() < usize::MAX,
            record@.len() < usize::MAX,
        ensures
            final(self).wf(),
            r == record@.len() + 1,
            final(self)@.base_name == old(self)@.base_name,
            final(self)@.directory == old(self)@.directory,
            final(self)@.writes_per_file == old(self)@.writes_per_file,
            final(self)@.records == old(self)@.records.push(record@),
            (old(self)@.records.len() + 1) % old(self)@.writes_per_file == 0
                ==> final(self)@.flushed == old(self)@.records.len() + 1,
            (old(self)@.records.len() + 1) % old(self)@.writes_per_file != 0
                ==> final(self)@.flushed == old(self)@.flushed,
    {
        let ghost pre = self@;
        let ghost n = pre.writes_per_file;
        let ghost count = pre.records.len();

        self.buffer.extend_from_slice(record);
        self.buffer.push(DELIM);
        self.writes_performed = self.writes_performed + 1;
        proof {
            self.records@ = self.records@.push(record@);
        }
        let ghost recs = pre.records.push(record@);

        proof {
            lemma_step_quotient(count, n);
            lemma_div_mod_basics(count, n);
            assert(all_line_free(recs)) by {
                assert forall|i: int| 0 <= i < recs.len() implies line_free(
                    #[trigger] recs[i],
                ) by {
                    if i < count {
                        assert(recs[i] == pre.records[i]);
                    }
                }
            }
            // the buffer now frames records[flushed .. count + 1]
            assert(self@.buffer == pre.buffer + frame(record@));
            assert(recs.subrange(pre.flushed as int, count as int + 1) =~= pre.records.subrange(
                pre.flushed as int,
                count as int,
            ).push(record@));
            lemma_frame_all_push(
                pre.records.subrange(pre.flushed as int, count as int),
                record@,
            );
            assert(self@.buffer == frame_all(
                recs.subrange(pre.flushed as int, count as int + 1),
            ));
            // segments and their records are untouched below the old count
            assert forall|a: int, b: int|
                0 <= a <= b <= count implies recs.subrange(a, b) == pre.records.subrange(
                a,
                b,
            ) by {
                assert(recs.subrange(a, b) =~= pre.records.subrange(a, b));
            }
        }

        if self.writes_performed % self.writes_per_file == 0 {
            // this record completed the active segment: fold the buffered
            // bytes into it and eagerly open the next, empty segment
            let ghost staged = self@;
            self.flush_buffer();
            let ghost folded = self@;
            self.records_flushed = self.writes_performed;
            self.segments.push(Vec::new());
            proof {
                let post = self@;
                let active = pre.active();
                assert(post.records == recs);
                assert(recs.len() == count + 1);
                assert(recs.len() % n == 0 && recs.len() / n == active + 1);
                lemma_div_mod_basics(recs.len(), n);
                assert(recs.len() == (active + 1) * n);
                // the fold and the push reshape the segments predictably
                assert(staged.segments == pre.segments);
                assert(post.segments =~~= folded.segments.push(Seq::<u8>::empty()));
                assert(post.segments.len() == active + 2);
                assert(post.segments[active as int + 1] =~= Seq::<u8>::empty());
                // the completed segment holds all of its records framed
                lemma_frame_all_concat(
                    pre.records.subrange((active * n) as int, pre.flushed as int),
                    recs.subrange(pre.flushed as int, count as int + 1),
                );
                assert(recs.subrange((active * n) as int, pre.flushed as int) + recs.subrange(
                    pre.flushed as int,
                    count as int + 1,
                ) =~= recs.subrange((active * n) as int, count as int + 1));
                assert(post.segments[active as int] == folded.segments.last());
                assert(folded.segments.last() == staged.segments.last() + staged.buffer);
                assert(post.segments[active as int] == frame_all(
                    recs.subrange((active * n) as int, count as int + 1),
                ));
                assert forall|i: int| 0 <= i < post.records.len() / n implies #[trigger] post.segments[i]
                    == frame_all(segment_records(recs, n, i as nat)) by {
                    assert((i + 1) * n == i * n + n) by (nonlinear_arith);
                    if i < active {
                        vstd::arithmetic::mul::lemma_mul_inequality(i + 1, active as int, n as int);
                        assert(post.segments[i] == folded.segments[i]);
                        assert(folded.segments[i] == staged.segments[i]);
                        assert(pre.segments[i] == frame_all(segment_records(pre.records, n, i as nat)));
                        assert(segment_records(recs, n, i as nat) == recs.subrange(
                            (i * n) as int,
                            (i + 1) * n as int,
                        ));
                        assert(segment_records(pre.records, n, i as nat) == pre.records.subrange(
                            (i * n) as int,
                            (i + 1) * n as int,
                        ));
                    } else {
                        assert(i == active);
                        assert(segment_records(recs, n, i as nat) == recs.subrange(
                            (active * n) as int,
                            count as int + 1,
                        ));
                    }
                }
                assert(post.segments[(active + 1) as int] == frame_all(
                    recs.subrange(recs.len() as int, recs.len() as int),
                )) by {
                    assert(recs.subrange(recs.len() as int, recs.len() as int)
                        =~= Seq::<Seq<u8>>::empty());
                }
                assert(post.buffer == frame_all(
                    recs.subrange(recs.len() as int, recs.len() as int),
                )) by {
                    assert(recs.subrange(recs.len() as int, recs.len() as int)
                        =~= Seq::<Seq<u8>>::empty());
                }
                assert(post.wf());
            }
        } else {
            proof {
                let post = self@;
                let active = pre.active();
                assert(post.records == recs);
                assert(recs.len() / n == active);
                assert forall|i: int| 0 <= i < active implies #[trigger] post.segments[i]
                    == frame_all(segment_records(recs, n, i as nat)) by {
                    assert((i + 1) * n == i * n + n) by (nonlinear_arith);
                    vstd::arithmetic::mul::lemma_mul_inequality(i + 1, active as int, n as int);
                    assert(segment_records(recs, n, i as nat) == recs.subrange(
                        (i * n) as int,
                        (i + 1) * n as int,
                    ));
                    assert(segment_records(pre.records, n, i as nat) == pre.records.subrange(
                        (i * n) as int,
                        (i + 1) * n as int,
                    ));
                }
                assert(post.segments[active as int] == frame_all(
                    recs.subrange((active * n) as int, pre.flushed as int),
                ));
                assert(post.wf());
            }
        }
        record.len() + 1
    }

    /// Forces every buffered byte into the active segment. Idempotent: the
    /// segments afterwards are the on-disk image of the records written, a
    /// function of the records alone, so a second flush changes nothing (see
    /// `lemma_flush_idempotent`).
    pub fn flush(&mut self)
        requires
            old(self).wf(),
        ensures
            final(self).wf(),
            flush_post(old(self)@, final(self)@),
    {
        let ghost pre = self@;
        let ghost n = pre.writes_per_file;
        let ghost count = pre.records.len();
        self.flush_buffer();
        self.records_flushed = self.writes_performed;
        proof {
            let post = self@;
            let active = pre.active();
            lemma_div_mod_basics(count, n);
            lemma_frame_all_concat(
                pre.records.subrange((active * n) as int, pre.flushed as int),
                pre.records.subrange(pre.flushed as int, count as int),
            );
            assert(pre.records.subrange((active * n) as int, pre.flushed as int)
                + pre.records.subrange(pre.flushed as int, count as int) =~= pre.records.subrange(
                (active * n) as int,
                count as int,
            ));
            assert(post.segments[active as int] == frame_all(
                pre.records.subrange((active * n) as int, count as int),
            ));
            assert(post.buffer == frame_all(pre.records.subrange(count as int, count as int)))
                by {
                assert(pre.records.subrange(count as int, count as int)
                    =~= Seq::<Seq<u8>>::empty());
            }
            assert(segment_records(pre.records, n, active) == pre.records.subrange(
                (active * n) as int,
                count as int,
            )) by {
                assert((active + 1) * n == active * n + n) by (nonlinear_arith);
            }
            assert(post.segments =~= on_disk(pre.records, n));
            assert(post.wf());
        }
    }

    /// The name of the active segment, computed purely from the invariant:
    /// the base name, a dot, and the record count rounded down to the last
    /// boundary. Answerable at any time, with zero records it is
    /// `base_name.0`.
    pub fn current_file_name(&self) -> (r: String)
        requires
            self.wf(),
        ensures
            r@ == seg_name(
                self@.base_name,
                boundary_of(self@.records.len(), self@.writes_per_file),
            ),
    {
        proof {
            lemma_div_mod_basics(self@.records.len(), self@.writes_per_file);
        }
        let boundary = self.writes_performed - self.writes_performed % self.writes_per_file;
        file_name(&self.base_name, boundary)
    }

    /// How many segments exist so far, the active one included.
    pub fn segment_count(&self) -> (r: usize)
        ensures
            r == self@.segments.len(),
    {
        self.segments.len()
    }

    /// The bytes of segment `i`, in boundary order.
    pub fn segment_bytes(&self, i: usize) -> (r: &Vec<u8>)
        requires
            i < self@.segments.len(),
        ensures
            r@ == self@.segments[i as int],
    {
        &self.segments[i]
    }

    /// The total number of records written since construction.
    pub fn records_written(&self) -> (r: usize)
        requires
            self.wf(),
        ensures
            r == self@.records.len(),
    {
        self.writes_performed
    }

    /// The framed bytes accepted but not yet folded into the active segment.
    pub fn buffered_bytes(&self) -> (r: &Vec<u8>)
        ensures
            r@ == self@.buffer,
    {
        &self.buffer
    }

    /// The configured rotation threshold.
    pub fn writes_per_file(&self) -> (r: usize)
        ensures
            r == self@.writes_per_file,
    {
        self.writes_per_file
    }

    /// The configured base name.
    pub fn base_name(&self) -> (r: &String)
        ensures
            r@ == self@.base_name,
    {
        &self.base_name
    }

    /// The configured directory.
    pub fn directory(&self) -> (r: &String)
        ensures
            r@ == self@.directory,
    {
        &self.directory
    }
}

/// Rotation boundary: a well-formed writer that has written exactly its
/// threshold holds exactly two segments — the completed one with every record
/// framed, and the eagerly opened empty one — and the active boundary equals
/// the threshold, so `current_file_name` names the empty segment.
pub proof fn lemma_rotation_boundary(v: WriterView)
    requires
        v.wf(),
        v.records.len() == v.writes_per_file,
    ensures
        v.segments.len() == 2,
        v.segments[0] == frame_all(v.records),
        v.segments[1] == Seq::<u8>::empty(),
        v.buffer == Seq::<u8>::empty(),
        boundary_of(v.records.len(), v.writes_per_file) == v.writes_per_file,
{
    let n = v.writes_per_file;
    lemma_div_mod_basics(n, n);
    assert(v.active() == 1);
    assert(v.flushed == n);
    assert(v.segments[0] == frame_all(segment_records(v.records, n, 0)));
    assert(segment_records(v.records, n, 0) == v.records.subrange(0, n as int)) by {
        assert((0 + 1) * n == n) by (nonlinear_arith);
    }
    assert(v.records.subrange(0, n as int) =~= v.records);
    assert(v.segments[1] == frame_all(v.records.subrange(n as int, n as int)));
    assert(v.records.subrange(n as int, n as int) =~= Seq::<Seq<u8>>::empty());
    assert(v.buffer == frame_all(v.records.subrange(n as int, n as int)));
}

/// Sub-boundary: a well-formed writer that has written fewer records than its
/// threshold holds exactly one segment, at boundary zero; the segment and the
/// buffer together frame every record, and the segment alone does once the
/// writer has flushed.
pub proof fn lemma_sub_boundary(v: WriterView)
    requires
        v.wf(),
        v.records.len() < v.writes_per_file,
    ensures
        v.segments.len() == 1,
        v.segments[0] + v.buffer == frame_all(v.records),
        v.flushed == v.records.len() ==> v.segments[0] == frame_all(v.records),
        boundary_of(v.records.len(), v.writes_per_file) == 0,
{
    let n = v.writes_per_file;
    let count = v.records.len();
    lemma_div_mod_basics(count, n);
    assert(v.active() == 0);
    lemma_frame_all_concat(
        v.records.subrange(0, v.flushed as int),
        v.records.subrange(v.flushed as int, count as int),
    );
    assert(v.records.subrange(0, v.flushed as int) + v.records.subrange(
        v.flushed as int,
        count as int,
    ) =~= v.records.subrange(0, count as int));
    assert(v.records.subrange(0, count as int) =~= v.records);
    if v.flushed == count {
        assert(v.records.subrange(v.flushed as int, count as int) =~= Seq::<Seq<u8>>::empty());
        assert(v.segments[0] + Seq::<u8>::empty() =~= v.segments[0]);
    }
}

/// Round trip, stated against the writer: after any flush, every segment the
/// writer holds parses cleanly, and the parsed segments, concatenated in
/// boundary order, are byte-for-byte the records that were written — which
/// is the sequence a reader of the same `(base_name, writes_per_file)`
/// yields, since its reads enumerate each segment's parse in order.
pub proof fn lemma_writer_replay(pre: WriterView, post: WriterView)
    requires
        pre.wf(),
        flush_post(pre, post),
    ensures
        forall|i: int|
            0 <= i < post.segments.len() ==> parse_lines(#[trigger] post.segments[i]) is Some,
        Seq::new(post.segments.len(), |i: int| parse_lines(post.segments[i])->Some_0).flatten()
            == pre.records,
{
    lemma_round_trip(pre.records, pre.writes_per_file);
    assert(Seq::new(post.segments.len(), |i: int| parse_lines(post.segments[i])->Some_0)
        =~= parsed_segments(pre.records, pre.writes_per_file));
}

/// Idempotent flush: two flushes in a row leave exactly the state one leaves.
/// The flushed state is a function of the records alone, and a flush keeps
/// the records.
pub proof fn lemma_flush_idempotent(v0: WriterView, v1: WriterView, v2: WriterView)
    requires
        flush_post(v0, v1),
        flush_post(v1, v2),
    ensures
        v2 == v1,
{
    assert(v2 =~= v1);
}

} // verus!
