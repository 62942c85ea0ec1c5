//! The reading side of the store: the structural mirror of the writer. It
//! yields records one at a time from the active segment's bytes and rotates
//! at the same boundaries, asking the caller for the next segment's bytes
//! under the name the shared naming scheme dictates.

use vstd::prelude::*;

use crate::errors::ConfigError;
use crate::errors::ReadError;
use crate::model::first_delim;
use crate::model::lemma_div_mod_basics;
use crate::model::lemma_first_delim_at;
use crate::model::lemma_first_delim_spec;
use crate::model::DELIM;
use crate::naming::boundary_of;
use crate::naming::file_name;
use crate::naming::seg_name;

verus! {

/// The abstract state of a reader: its configuration, how many records it
/// has yielded, the active segment's bytes with the read position in them,
/// and whether it is waiting for the next segment to be handed over.
#[verifier::ext_equal]
pub struct ReaderView {
    /// The name prepended to every segment's boundary number.
    pub base_name: Seq<char>,
    /// The directory the caller fetches segments from (it plays no part in
    /// segment naming).
    pub directory: Seq<char>,
    /// The rotation threshold: records per segment. Always positive.
    pub writes_per_file: nat,
    /// How many records have been yielded since construction.
    pub records_read: nat,
    /// The bytes of the active segment.
    pub current: Seq<u8>,
    /// How many bytes of the active segment have been consumed.
    pub pos: nat,
    /// Whether a boundary was just crossed, so the next segment's bytes must
    /// be loaded before the next read.
    pub awaiting: bool,
}

impl ReaderView {
    /// Well-formedness: the position stays inside the segment, and rotation
    /// is pending only right after a boundary.
    pub open spec fn wf(self) -> bool {
        &&& self.writes_per_file > 0
        &&& self.pos <= self.current.len()
        &&& (self.awaiting ==> self.records_read % self.writes_per_file == 0
            && self.records_read > 0)
    }

    /// The unread remainder of the active segment.
    pub open spec fn remaining(self) -> Seq<u8> {
        self.current.subrange(self.pos as int, self.current.len() as int)
    }
}

/// A reader that replays delimiter-framed records from segment bytes in
/// write order.
///
/// The reader consumes one segment's bytes at a time. After it has yielded a
/// threshold's worth of records it reports, through `needs_segment`, which
/// segment the shared naming scheme opens next; the caller fetches those
/// bytes and hands them to `load_segment`. A missing next segment is the
/// caller's fetch failure — distinct from `EndOfSegment`, which only says the
/// bytes of the active segment are used up.
pub struct EfficientFileReader {
    /// The name to prepend to the current segment boundary.
    base_name: String,
    /// The directory the caller fetches segments from.
    directory: String,
    /// The number of records per segment.
    writes_per_file: usize,
    /// The total number of records read.
    writes_performed: usize,
    /// The bytes of the active segment.
    current: Vec<u8>,
    /// How many bytes of the active segment have been consumed.
    pos: usize,
    /// Whether the next segment must be loaded before the next read.
    awaiting: bool,
}

impl View for EfficientFileReader {
    type V = ReaderView;

    closed spec fn view(&self) -> ReaderView {
        ReaderView {
            base_name: self.base_name@,
            directory: self.directory@,
            writes_per_file: self.writes_per_file as nat,
            records_read: self.writes_performed as nat,
            current: self.current@,
            pos: self.pos as nat,
            awaiting: self.awaiting,
        }
    }
}

impl EfficientFileReader {
    /// A well-formed reader.
    pub open spec fn wf(&self) -> bool {
        self@.wf()
    }

    /// Creates a reader positioned at the start of the first segment, whose
    /// bytes the caller supplies (the segment named `base_name.0`). Rejects a
    /// zero rotation threshold exactly as the writer does, before anything
    /// else happens. A first segment that does not exist on the caller's
    /// storage is the caller's fetch failure, surfaced before construction —
    /// the expected failure when reading an empty or absent archive.
    pub fn new(
        base_name: String,
        writes_per_file: usize,
        directory: String,
        first_segment: Vec<u8>,
    ) -> (r: Result<EfficientFileReader, ConfigError>)
        ensures
            r is Err <==> writes_per_file == 0,
            r is Err ==> r->Err_0 == ConfigError::ZeroWritesPerFile,
            r is Ok ==> r->Ok_0.wf(),
            r is Ok ==> r->Ok_0@.base_name == base_name@,
            r is Ok ==> r->Ok_0@.directory == directory@,
            r is Ok ==> r->Ok_0@.writes_per_file == writes_per_file as nat,
            r is Ok ==> r->Ok_0@.records_read == 0,
            r is Ok ==> r->Ok_0@.current == first_segment@,
            r is Ok ==> r->Ok_0@.pos == 0,
            r is Ok ==> r->Ok_0@.awaiting == false,
    {
        if writes_per_file == 0 {
            return Err(ConfigError::ZeroWritesPerFile);
        }
        Ok(
            EfficientFileReader {
                base_name,
                directory,
                writes_per_file,
                writes_performed: 0,
                current: first_segment,
                pos: 0,
                awaiting: false,
            },
        )
    }

    /// Reads one record: the bytes up to (and not including) the next
    /// delimiter. Crossing a boundary flags that the next segment must be
    /// loaded before further reads. An exhausted segment yields
    /// `EndOfSegment`; trailing bytes with no delimiter are corruption and
    /// yield `MissingDelimiter`, leaving the reader where it stood.
    pub fn read_line(&mut self) -> (r: Result<Vec<u8>, ReadError>)
        requires
            old(self).wf(),
            !old(self)@.awaiting,
            old(self)@.records_read < usize::MAX,
        ensures
            final(self).wf(),
            final(self)@.base_name == old(self)@.base_name,
            final(self)@.directory == old(self)@.directory,
            final(self)@.writes_per_file == old(self)@.writes_per_file,
            final(self)@.current == old(self)@.current,
            ({
                let rem = old(self)@.remaining();
                let i = first_delim(rem);
                &&& (r is Ok <==> i >= 0)
                &&& (i >= 0 ==> r->Ok_0@ == rem.take(i))
                &&& (i >= 0 ==> final(self)@.pos == old(self)@.pos + i + 1)
                &&& (i >= 0 ==> final(self)@.remaining() == rem.skip(i + 1))
                &&& (i >= 0 ==> final(self)@.records_read == old(self)@.records_read + 1)
                &&& (i >= 0 ==> final(self)@.awaiting == ((old(self)@.records_read + 1) % old(
                    self,
                )@.writes_per_file == 0))
                &&& (i < 0 && rem.len() == 0 ==> r == Err::<Vec<u8>, ReadError>(
                    ReadError::EndOfSegment,
                ))
                &&& (i < 0 && rem.len() > 0 ==> r == Err::<Vec<u8>, ReadError>(
                    ReadError::MissingDelimiter,
                ))
                &&& (i < 0 ==> final(self)@ == old(self)@)
            }),
    {
        let ghost rem = self@.remaining();
        proof {
            lemma_first_delim_spec(rem);
        }
        let len = self.current.len();
        let mut j = self.pos;
        while j < len && self.current[j] != DELIM
            invariant
                self.pos <= j <= len,
                len == self.current.len(),
                forall|k: int| self.pos <= k < j ==> self.current@[k] != DELIM,
            decreases len - j,
        {
            j = j + 1;
        }
        if j == len {
            if self.pos == len {
                Err(ReadError::EndOfSegment)
            } else {
                proof {
                    if first_delim(rem) >= 0 {
                        let fd = first_delim(rem);
                        assert(rem[fd] == self.current@[self.pos + fd]);
                        assert(false);
                    }
                }
                Err(ReadError::MissingDelimiter)
            }
        } else {
            let ghost m = j - self.pos as int;
            proof {
                assert(rem[m] == self.current@[j as int]);
                assert forall|k: int| 0 <= k < m implies rem[k] != DELIM by {
                    assert(rem[k] == self.current@[self.pos + k]);
                }
                lemma_first_delim_at(rem, m);
            }
            let mut rec: Vec<u8> = Vec::new();
            let mut k = self.pos;
            while k < j
                invariant
                    self.pos <= k <= j,
                    j < self.current.len(),
                    rec@ == self.current@.subrange(self.pos as int, k as int),
                decreases j - k,
            {
                let b = self.current[k];
                rec.push(b);
                k = k + 1;
                proof {
                    assert(self.current@.subrange(self.pos as int, k as int)
                        =~= self.current@.subrange(self.pos as int, k - 1).push(
                        self.current@[k - 1],
                    ));
                }
            }
            proof {
                assert(rec@ =~= rem.take(m));
            }
            self.pos = j + 1;
            self.writes_performed = self.writes_performed + 1;
            if self.writes_performed % self.writes_per_file == 0 {
                self.awaiting = true;
            }
            proof {
                assert(self@.remaining() =~= rem.skip(m + 1));
            }
            Ok(rec)
        }
    }

    /// Whether a boundary was crossed and the next segment's bytes (under
    /// `current_file_name`) must be loaded before the next read.
    pub fn needs_segment(&self) -> (r: bool)
        ensures
            r == self@.awaiting,
    {
        self.awaiting
    }

    /// Hands the reader the bytes of the segment it is waiting for — the one
    /// `current_file_name` names. If that segment does not exist on the
    /// caller's storage, the archive is truncated or incomplete; the caller
    /// reports that fetch failure itself and must not call this.
    pub fn load_segment(&mut self, segment: Vec<u8>)
        requires
            old(self).wf(),
            old(self)@.awaiting,
        ensures
            final(self).wf(),
            final(self)@ == (ReaderView {
                current: segment@,
                pos: 0,
                awaiting: false,
                ..old(self)@
            }),
    {
        self.current = segment;
        self.pos = 0;
        self.awaiting = false;
    }

    /// The name of the active segment: the same pure function of the record
    /// count that the writer uses, which is what makes replay line up with
    /// what was written.
    pub fn current_file_name(&self) -> (r: String)
        requires
            self.wf(),
        ensures
            r@ == seg_name(
                self@.base_name,
                boundary_of(self@.records_read, self@.writes_per_file),
            ),
    {
        proof {
            lemma_div_mod_basics(self@.records_read, self@.writes_per_file);
        }
        let boundary = self.writes_performed - self.writes_performed % self.writes_per_file;
        file_name(&self.base_name, boundary)
    }

    /// The total number of records read since construction.
    pub fn records_read(&self) -> (r: usize)
        ensures
            r == self@.records_read,
    {
        self.writes_performed
    }

    /// The configured rotation threshold.
    pub fn writes_per_file(&self) -> (r: usize)
        ensures
            r == self@.writes_per_file,
    {
        self.writes_per_file
    }

    /// The configured base name.
    pub fn base_name(&self) -> (r: &String)
        ensures
            r@ == self@.base_name,
    {
        &self.base_name
    }

    /// The configured directory.
    pub fn directory(&self) -> (r: &String)
        ensures
            r@ == self@.directory,
    {
        &self.directory
    }
}

} // verus!
