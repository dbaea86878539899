//! The save/load pipeline: the capability a storable value offers, the
//! computing halves of both operations, and the two-phase flow of their
//! non-blocking variants.
//!
//! The pipeline is split at the filesystem boundary.  Everything that
//! computes — serializing, classifying a filesystem failure, deciding the
//! next phase — stands here with a contract; the surrounding application
//! performs the reads and writes and feeds their outcomes back in.

use vstd::prelude::*;

verus! {

use crate::IoErrorKind;
use crate::StoreError;
use crate::classified_read;
use crate::classified_write;

/// The capability a value needs to be stored: a canonical text that the
/// encoder produces, and a decode relation saying which texts denote
/// which value.  Implementations must show that the canonical text of a
/// value decodes, and that no text decodes to two different values: a
/// round trip through the stored text then always restores the value.
pub trait Storable: Sized {
    /// Whether the codec can represent the value as text.
    spec fn encodable(self) -> bool;

    /// The canonical text of the value: what the encoder writes.
    spec fn text_of(self) -> Seq<char>;

    /// The codec's notion of value equality: what a round trip through
    /// the stored text preserves.  For a record this is equality of the
    /// field contents.
    spec fn same_value(self, other: Self) -> bool;

    /// The decode relation: the texts the decoder reads as the value.
    spec fn accepts(t: Seq<char>, v: Self) -> bool;

    /// The encoding is injective on representable values.
    proof fn lemma_text_injective(v1: Self, v2: Self)
        requires
            v1.encodable(),
            v2.encodable(),
            v1.text_of() == v2.text_of(),
        ensures
            v1.same_value(v2),
    ;

    /// A representable value's canonical text decodes to the value.
    proof fn lemma_canonical_accepted(v: Self)
        requires
            v.encodable(),
        ensures
            Self::accepts(v.text_of(), v),
    ;

    /// No text decodes to two different values.
    proof fn lemma_accepts_functional(t: Seq<char>, v1: Self, v2: Self)
        requires
            Self::accepts(t, v1),
            Self::accepts(t, v2),
        ensures
            v1.same_value(v2),
    ;

    /// Serializes the value: its canonical text when the codec can
    /// represent it, and an encode failure otherwise.
    fn encode(&self) -> (r: Result<String, StoreError>)
        ensures
            self.encodable() ==> (r matches Ok(s) && s@ == self.text_of()),
            !self.encodable() ==> (r matches Err(e) && e == StoreError::EncodeFailure),
    ;

    /// Deserializes a text: the value the text denotes under the decode
    /// relation, and a decode failure exactly when it denotes none.
    fn decode(t: &str) -> (r: Result<Self, StoreError>)
        ensures
            r matches Ok(v) ==> Self::accepts(t@, v),
            (exists|v: Self| #![trigger Self::accepts(t@, v)] Self::accepts(t@, v)) ==> r is Ok,
            r matches Err(e) ==> e == StoreError::DecodeFailure,
    ;
}

/// The file's content after a save completes without a filesystem
/// failure: the value's text replaces whatever was there, the file being
/// created if absent (`None` models a missing file).  A value the codec
/// cannot represent fails before the file is touched.
pub open spec fn saved_file<T: Storable>(file: Option<Seq<char>>, v: T) -> Option<Seq<char>> {
    if v.encodable() {
        Some(v.text_of())
    } else {
        file
    }
}

/// Overwrite idempotence: saving the same value twice in succession
/// leaves exactly the file content that saving it once leaves.
pub proof fn lemma_save_idempotent<T: Storable>(file: Option<Seq<char>>, v: T)
    ensures
        saved_file(saved_file(file, v), v) == saved_file(file, v),
        v.encodable() ==> saved_file(file, v) == Some(v.text_of()),
{
}

/// Truncation on overwrite: after saving a representable value the file
/// holds exactly that value's text, whatever it held before — no residue
/// of an earlier, longer content remains.
pub proof fn lemma_save_truncates<T: Storable>(
    before: Option<Seq<char>>,
    other: Option<Seq<char>>,
    v: T,
)
    requires
        v.encodable(),
    ensures
        saved_file(before, v) == Some(v.text_of()),
        saved_file(before, v) == saved_file(other, v),
{
}

/// Completes a save from the write's outcome: success once the bytes are
/// fully written, and the classified filesystem failure otherwise.
pub fn save_commit(w: Result<(), IoErrorKind>) -> (r: Result<(), StoreError>)
    ensures
        w is Ok ==> r is Ok,
        w matches Err(k) ==> (r matches Err(e) && e == classified_write(k)),
{
    match w {
        Ok(_) => Ok(()),
        Err(k) => Err(crate::classify_write(k)),
    }
}

/// Completes a load from the read's outcome: a read failure is reported
/// first, classified (a missing file loads as `NotFound`), and nothing is
/// decoded; a read text is decoded as the requested type.
pub fn load_from_read<T: Storable>(read: Result<String, IoErrorKind>) -> (r: Result<
    T,
    StoreError,
>)
    ensures
        read matches Err(k) ==> (r matches Err(e) && e == classified_read(k)),
        read == Err::<String, IoErrorKind>(IoErrorKind::NotFound) ==> r == Err::<T, StoreError>(
            StoreError::NotFound,
        ),
        read matches Ok(s) ==> {
            &&& (r matches Ok(v) ==> T::accepts(s@, v))
            &&& ((exists|v: T| #![trigger T::accepts(s@, v)] T::accepts(s@, v)) ==> r is Ok)
            &&& (r matches Err(e) ==> e == StoreError::DecodeFailure)
        },
{
    match read {
        Ok(s) => T::decode(s.as_str()),
        Err(k) => Err(crate::classify_read(k)),
    }
}

/// Round trip: a value the codec can represent decodes from its own
/// encoding to an equal value.
pub fn encode_then_decode<T: Storable>(v: &T) -> (r: Result<T, StoreError>)
    ensures
        v.encodable() ==> (r matches Ok(w) && (*v).same_value(w)),
        !v.encodable() ==> (r matches Err(e) && e == StoreError::EncodeFailure),
{
    match v.encode() {
        Ok(s) => {
            let r = T::decode(s.as_str());
            proof {
                if v.encodable() {
                    assert((*v).text_of() == s@);
                    T::lemma_canonical_accepted(*v);
                    assert(T::accepts(s@, *v));
                    assert(exists|w: T| #![trigger T::accepts(s@, w)] T::accepts(s@, w));
                    T::lemma_accepts_functional(s@, *v, r->Ok_0);
                }
            }
            r
        },
        Err(e) => Err(e),
    }
}

/// The phases of a non-blocking save: serialization is first delegated
/// off the caller's scheduler, then the text is written; the caller
/// resumes only with the final outcome.
pub enum SaveTask {
    /// Waiting for the delegated serialization.
    Encoding,
    /// Waiting for the write of the carried text.
    Writing(String),
    /// The operation has resumed its caller with this outcome.
    Done(Result<(), StoreError>),
}

/// What the surrounding task reports back to a save in flight.
pub enum SaveEvent {
    /// The delegated serialization finished.
    Encoded(Result<String, StoreError>),
    /// The write finished.
    Wrote(Result<(), IoErrorKind>),
}

/// The transition of the non-blocking save: encode, then write, then
/// report; a failure in either phase ends the flow with that failure,
/// and an event that does not belong to the phase changes nothing.
pub open spec fn save_task_next(t: SaveTask, e: SaveEvent) -> SaveTask {
    match (t, e) {
        (SaveTask::Encoding, SaveEvent::Encoded(Ok(s))) => SaveTask::Writing(s),
        (SaveTask::Encoding, SaveEvent::Encoded(Err(err))) => SaveTask::Done(Err(err)),
        (SaveTask::Writing(_), SaveEvent::Wrote(Ok(_))) => SaveTask::Done(Ok(())),
        (SaveTask::Writing(_), SaveEvent::Wrote(Err(k))) => SaveTask::Done(
            Err(classified_write(k)),
        ),
        (t2, _) => t2,
    }
}

/// Advances a non-blocking save by one reported event.
pub fn save_task_step(t: SaveTask, e: SaveEvent) -> (n: SaveTask)
    ensures
        n == save_task_next(t, e),
{
    match (t, e) {
        (SaveTask::Encoding, SaveEvent::Encoded(Ok(s))) => SaveTask::Writing(s),
        (SaveTask::Encoding, SaveEvent::Encoded(Err(err))) => SaveTask::Done(Err(err)),
        (SaveTask::Writing(_), SaveEvent::Wrote(Ok(_))) => SaveTask::Done(Ok(())),
        (SaveTask::Writing(_), SaveEvent::Wrote(Err(k))) => SaveTask::Done(
            Err(crate::classify_write(k)),
        ),
        (t2, _) => t2,
    }
}

/// The outcome of a blocking save, from the serialization's and the
/// write's results: serialize fully, then write fully, then report.
pub open spec fn save_outcome(
    enc: Result<String, StoreError>,
    w: Result<(), IoErrorKind>,
) -> Result<(), StoreError> {
    match enc {
        Err(e) => Err(e),
        Ok(_) => match w {
            Ok(_) => Ok(()),
            Err(k) => Err(classified_write(k)),
        },
    }
}

/// Mode equivalence (save): driven with the same serialization and write
/// results, the non-blocking phases end in exactly the blocking outcome.
pub proof fn lemma_save_modes_agree(enc: Result<String, StoreError>, w: Result<(), IoErrorKind>)
    ensures
        ({
            let mid = save_task_next(SaveTask::Encoding, SaveEvent::Encoded(enc));
            match mid {
                SaveTask::Writing(_) => save_task_next(mid, SaveEvent::Wrote(w)) == SaveTask::Done(
                    save_outcome(enc, w),
                ),
                _ => mid == SaveTask::Done(save_outcome(enc, w)),
            }
        }),
{
}

/// The phases of a non-blocking load: the file is read first, then the
/// decode of the text is delegated off the caller's scheduler.
pub enum LoadTask<T> {
    /// Waiting for the read.
    Reading,
    /// Waiting for the delegated decode of the carried text.
    Decoding(String),
    /// The operation has resumed its caller with this outcome.
    Done(Result<T, StoreError>),
}

/// What the surrounding task reports back to a load in flight.
pub enum LoadEvent<T> {
    /// The read finished.
    ReadFinished(Result<String, IoErrorKind>),
    /// The delegated decode finished.
    DecodeFinished(Result<T, StoreError>),
}

/// The transition of the non-blocking load: a read failure is reported
/// before any decode is attempted; a read text moves to the decode
/// phase, whose result is reported as it stands.
pub open spec fn load_task_next<T>(t: LoadTask<T>, e: LoadEvent<T>) -> LoadTask<T> {
    match (t, e) {
        (LoadTask::Reading, LoadEvent::ReadFinished(Ok(s))) => LoadTask::Decoding(s),
        (LoadTask::Reading, LoadEvent::ReadFinished(Err(k))) => LoadTask::Done(
            Err(classified_read(k)),
        ),
        (LoadTask::Decoding(_), LoadEvent::DecodeFinished(r)) => LoadTask::Done(r),
        (t2, _) => t2,
    }
}

/// Advances a non-blocking load by one reported event.
pub fn load_task_step<T>(t: LoadTask<T>, e: LoadEvent<T>) -> (n: LoadTask<T>)
    ensures
        n == load_task_next(t, e),
{
    match (t, e) {
        (LoadTask::Reading, LoadEvent::ReadFinished(Ok(s))) => LoadTask::Decoding(s),
        (LoadTask::Reading, LoadEvent::ReadFinished(Err(k))) => LoadTask::Done(
            Err(crate::classify_read(k)),
        ),
        (LoadTask::Decoding(_), LoadEvent::DecodeFinished(r)) => LoadTask::Done(r),
        (t2, _) => t2,
    }
}

/// The outcome of a blocking load, from the read's result and the decode
/// verdict on the read text: read fully, then decode.
pub open spec fn load_outcome<T>(
    read: Result<String, IoErrorKind>,
    dec: Result<T, StoreError>,
) -> Result<T, StoreError> {
    match read {
        Err(k) => Err(classified_read(k)),
        Ok(_) => dec,
    }
}

/// Mode equivalence (load): driven with the same read result and the
/// same decode verdict on the read text, the non-blocking phases end in
/// exactly the blocking outcome.
pub proof fn lemma_load_modes_agree<T>(
    read: Result<String, IoErrorKind>,
    dec: Result<T, StoreError>,
)
    ensures
        ({
            let mid = load_task_next(LoadTask::<T>::Reading, LoadEvent::ReadFinished(read));
            match mid {
                LoadTask::Decoding(_) => load_task_next(mid, LoadEvent::DecodeFinished(dec))
                    == LoadTask::Done(load_outcome(read, dec)),
                _ => mid == LoadTask::Done(load_outcome(read, dec)),
            }
        }),
{
}

} // verus!
