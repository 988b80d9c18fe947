//! What can go wrong when a chart is read.

use crate::text::NumberError;
use vstd::prelude::*;

verus! {

/// Why the notation of one tempo was refused.
#[derive(Clone, Copy, Debug, PartialEq, Eq, Structural)]
pub enum BpmError {
    /// The notation holds more than one `@`.
    TooManyParts,
    /// The notation holds no `@`, so no start beat.
    MissingStartBeat,
}

impl BpmError {
    /// The message for a reader.
    pub fn message(&self) -> (r: &'static str)
        ensures
            r@ == match *self {
                BpmError::TooManyParts => "attempted to create bpm with too many parts"@,
                BpmError::MissingStartBeat => "missing bpm start beat"@,
            },
    {
        match self {
            BpmError::TooManyParts => "attempted to create bpm with too many parts",
            BpmError::MissingStartBeat => "missing bpm start beat",
        }
    }
}

/// Why the notation of a tempo list was refused.
#[derive(Clone, Copy, Debug, PartialEq, Eq, Structural)]
pub enum BpmListError {
    /// The notation is empty.
    EmptyString,
}

impl BpmListError {
    /// The message for a reader.
    pub fn message(&self) -> (r: &'static str)
        ensures
            r@ == "attempted to create bpm list from an empty string"@,
    {
        "attempted to create bpm list from an empty string"
    }
}

/// Why the notation of the notes of a chart was refused.
#[derive(Clone, Copy, Debug, PartialEq, Eq, Structural)]
pub enum SyncedStructListError {
    /// A group holds no `@`, so no beat.
    MissingBeatValue,
    /// A group has holds but no `:` after them.
    MissingHoldInformation,
    /// The hold information holds no `=`, so no tick count.
    MissingHoldTickCount,
    /// A group holds more than one `@`.
    MultipleAtSigns,
    /// A group holds more than one `+`.
    MultiplePlusSigns,
    /// The hold information holds more than one `=`.
    MultipleEqualsSigns,
    /// The holds of a group are followed by more than one `:`.
    MultipleColons,
    /// A hit names one key twice.
    DuplicateHitChar,
    /// The keys of a hit are not all in one column.
    MultiColumnHit,
    /// A hold names one key twice.
    DuplicateHoldChar,
    /// The keys of a hold are not all in one column.
    MultiColumnHold,
}

impl SyncedStructListError {
    /// The message for a reader.
    pub fn message(&self) -> (r: &'static str)
        ensures
            r@ == match *self {
                SyncedStructListError::MissingBeatValue => "missing beat value"@,
                SyncedStructListError::MissingHoldInformation => "missing hold information"@,
                SyncedStructListError::MissingHoldTickCount => "missing hold tick count"@,
                SyncedStructListError::MultipleAtSigns => "multiple at signs"@,
                SyncedStructListError::MultiplePlusSigns => "multiple plus signs"@,
                SyncedStructListError::MultipleEqualsSigns => "multiple equals signs"@,
                SyncedStructListError::MultipleColons => "multiple colons"@,
                SyncedStructListError::DuplicateHitChar => "found duplicate hit char"@,
                SyncedStructListError::MultiColumnHit
                    => "attempted to create hit across multiple columns"@,
                SyncedStructListError::DuplicateHoldChar => "found duplicate hold char"@,
                SyncedStructListError::MultiColumnHold
                    => "attempted to create hold across multiple columns"@,
            },
    {
        match self {
            SyncedStructListError::MissingBeatValue => "missing beat value",
            SyncedStructListError::MissingHoldInformation => "missing hold information",
            SyncedStructListError::MissingHoldTickCount => "missing hold tick count",
            SyncedStructListError::MultipleAtSigns => "multiple at signs",
            SyncedStructListError::MultiplePlusSigns => "multiple plus signs",
            SyncedStructListError::MultipleEqualsSigns => "multiple equals signs",
            SyncedStructListError::MultipleColons => "multiple colons",
            SyncedStructListError::DuplicateHitChar => "found duplicate hit char",
            SyncedStructListError::MultiColumnHit
                => "attempted to create hit across multiple columns",
            SyncedStructListError::DuplicateHoldChar => "found duplicate hold char",
            SyncedStructListError::MultiColumnHold
                => "attempted to create hold across multiple columns",
        }
    }
}

/// Why a chart could not be put together from its key-value pairs.
#[derive(Clone, Debug, PartialEq, Eq)]
pub enum ChartError {
    /// The pair with this key is required and missing.
    MissingKeyValuePair(String),
    /// Both `bpm` and `bpms` are given.
    ConflictingBpmInformation,
    /// Neither `bpm` nor `bpms` is given.
    MissingBpmInformation,
}

/// Why a line is no key-value pair.
#[derive(Clone, Debug, PartialEq, Eq)]
pub enum DeserializationError {
    /// The line holds no `=`.
    MalformedKeyValuePair,
    /// The line has this key, but does not end with `;`.
    MalformedKeyValuePairWithValidKey(String),
}

/// Any reason for which reading a chart, or a part of one, fails.
#[derive(Clone, Debug, PartialEq, Eq)]
pub enum Error {
    /// A tempo was refused.
    Bpm(BpmError),
    /// A tempo list was refused.
    BpmList(BpmListError),
    /// The notes were refused.
    SyncedStructList(SyncedStructListError),
    /// The pairs do not make a chart.
    Chart(ChartError),
    /// A line is no pair.
    Deserialization(DeserializationError),
    /// A number was refused.
    Number(NumberError),
}

/// A reason for which reading fails, in specifications: the keys that an
/// error names are sequences of characters.
pub enum ErrorView {
    Bpm(BpmError),
    BpmList(BpmListError),
    SyncedStructList(SyncedStructListError),
    MissingKeyValuePair(Seq<char>),
    ConflictingBpmInformation,
    MissingBpmInformation,
    MalformedKeyValuePair,
    MalformedKeyValuePairWithValidKey(Seq<char>),
    Number(NumberError),
}

impl View for ChartError {
    type V = ErrorView;

    open spec fn view(&self) -> ErrorView {
        match *self {
            ChartError::MissingKeyValuePair(key) => ErrorView::MissingKeyValuePair(key@),
            ChartError::ConflictingBpmInformation => ErrorView::ConflictingBpmInformation,
            ChartError::MissingBpmInformation => ErrorView::MissingBpmInformation,
        }
    }
}

impl View for DeserializationError {
    type V = ErrorView;

    open spec fn view(&self) -> ErrorView {
        match *self {
            DeserializationError::MalformedKeyValuePair => ErrorView::MalformedKeyValuePair,
            DeserializationError::MalformedKeyValuePairWithValidKey(key)
                => ErrorView::MalformedKeyValuePairWithValidKey(key@),
        }
    }
}

impl View for Error {
    type V = ErrorView;

    open spec fn view(&self) -> ErrorView {
        match *self {
            Error::Bpm(e) => ErrorView::Bpm(e),
            Error::BpmList(e) => ErrorView::BpmList(e),
            Error::SyncedStructList(e) => ErrorView::SyncedStructList(e),
            Error::Chart(e) => e@,
            Error::Deserialization(e) => e@,
            Error::Number(e) => ErrorView::Number(e),
        }
    }
}

/// What reading pieces one after the other comes to, given what reading
/// each piece comes to: the items in order, or the first error.
pub open spec fn collect<T, E>(results: Seq<Result<Seq<T>, E>>) -> Result<Seq<T>, E>
    decreases results.len(),
{
    if results.len() == 0 {
        Ok(Seq::empty())
    } else {
        match collect(results.drop_last()) {
            Err(e) => Err(e),
            Ok(before) => match results.last() {
                Err(e) => Err(e),
                Ok(items) => Ok(before + items),
            },
        }
    }
}

/// Reading one piece more, after pieces that were read without error.
pub proof fn lemma_collect_step<T, E>(results: Seq<Result<Seq<T>, E>>, i: int)
    requires
        0 <= i < results.len(),
        collect(results.take(i)) is Ok,
    ensures
        collect(results.take(i + 1)) == match results[i] {
            Err(e) => Err::<Seq<T>, E>(e),
            Ok(items) => Ok(collect(results.take(i))->Ok_0 + items),
        },
{
    assert(results.take(i + 1).drop_last() == results.take(i));
}

/// An error among the first pieces is the error of the whole.
pub proof fn lemma_collect_error<T, E>(results: Seq<Result<Seq<T>, E>>, i: int)
    requires
        0 <= i <= results.len(),
        collect(results.take(i)) is Err,
    ensures
        collect(results) == collect(results.take(i)),
    decreases results.len(),
{
    if i == results.len() {
        assert(results.take(i) == results);
    } else {
        assert(results.drop_last().take(i) == results.take(i));
        lemma_collect_error(results.drop_last(), i);
    }
}

/// Where pieces are read without error, every piece is.
pub proof fn lemma_collect_every_piece<T, E>(results: Seq<Result<Seq<T>, E>>, j: int)
    requires
        collect(results) is Ok,
        0 <= j < results.len(),
    ensures
        results[j] is Ok,
    decreases results.len(),
{
    if j < results.len() - 1 {
        assert(results.drop_last()[j] == results[j]);
        lemma_collect_every_piece(results.drop_last(), j);
    }
}

/// Every item read comes from a piece: item `i` of the whole is item `k` of
/// piece `j`, for the `(j, k)` that is returned.
pub proof fn lemma_collect_source<T, E>(results: Seq<Result<Seq<T>, E>>, i: int) -> (at: (
    int,
    int,
))
    requires
        collect(results) is Ok,
        0 <= i < collect(results)->Ok_0.len(),
    ensures
        0 <= at.0 < results.len(),
        results[at.0] is Ok,
        0 <= at.1 < results[at.0]->Ok_0.len(),
        results[at.0]->Ok_0[at.1] == collect(results)->Ok_0[i],
    decreases results.len(),
{
    let before = collect(results.drop_last())->Ok_0;
    let items = results.last()->Ok_0;
    if i < before.len() {
        let at = lemma_collect_source(results.drop_last(), i);
        assert(results.drop_last()[at.0] == results[at.0]);
        at
    } else {
        (results.len() - 1, i - before.len())
    }
}

/// Reading one piece comes to what the piece comes to.
pub proof fn lemma_collect_one<T, E>(results: Seq<Result<Seq<T>, E>>)
    requires
        results.len() == 1,
        results[0] is Ok,
    ensures
        collect(results) == Ok::<Seq<T>, E>(results[0]->Ok_0),
{
    assert(results.drop_last().len() == 0);
    assert(collect(results.drop_last()) == Ok::<Seq<T>, E>(Seq::empty()));
    assert(results.last() == results[0]);
    assert(Seq::<T>::empty() + results[0]->Ok_0 =~= results[0]->Ok_0);
}

/// Where every piece of one reading comes to `k` times as many items as the
/// same piece of another, so does the whole.
pub proof fn lemma_collect_scaled<T, U, E>(
    a: Seq<Result<Seq<T>, E>>,
    b: Seq<Result<Seq<U>, E>>,
    k: nat,
)
    requires
        a.len() == b.len(),
        collect(a) is Ok,
        collect(b) is Ok,
        forall|j: int|
            0 <= j < a.len() ==> (#[trigger] b[j])->Ok_0.len() == k * a[j]->Ok_0.len(),
    ensures
        collect(b)->Ok_0.len() == k * collect(a)->Ok_0.len(),
    decreases a.len(),
{
    if a.len() == 0 {
        assert(k * 0 == 0) by (nonlinear_arith);
    } else {
        let a0 = a.drop_last();
        let b0 = b.drop_last();
        assert forall|j: int| 0 <= j < a0.len() implies (#[trigger] b0[j])->Ok_0.len() == k
            * a0[j]->Ok_0.len() by {
            assert(b0[j] == b[j]);
            assert(a0[j] == a[j]);
        }
        lemma_collect_scaled(a0, b0, k);
        let x = collect(a0)->Ok_0.len();
        let y = a.last()->Ok_0.len();
        assert(b[b.len() - 1]->Ok_0.len() == k * a[a.len() - 1]->Ok_0.len());
        assert(k * (x + y) == k * x + k * y) by (nonlinear_arith);
    }
}

} // verus!
