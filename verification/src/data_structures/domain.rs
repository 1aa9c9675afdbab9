use crate::storage::blob::Blob;
use crate::streaming::domain::Calc;
use std::collections::HashMap;
use vstd::prelude::*;

verus! {

broadcast use vstd::std_specs::hash::group_hash_axioms;

/// A handle on a stream definition: the number under which the definition
/// was registered.
#[derive(PartialEq, Eq, Structural, Clone, Copy, Debug, Hash)]
pub struct StreamRef {
    pub id: usize,
}

impl StreamRef {
    /// The handle with the given number.
    pub fn new(id: usize) -> (stream: StreamRef)
        ensures
            stream == (StreamRef { id }),
    {
        StreamRef { id }
    }
}

/// The value of a merge as a function of the values of its inputs, all given
/// as bit patterns.
pub type Formula = spec_fn(u64, u64, u64) -> u64;

/// Whether `mean` can be called on every triple of arguments.
pub open spec fn total<F: Fn(u64, u64, u64) -> u64>(mean: F) -> bool {
    forall|high: u64, low: u64, close: u64| call_requires(mean, (high, low, close))
}

/// Whether `mean` computes `formula`: whatever it returns for a triple of
/// arguments is the formula's value of them.
pub open spec fn computes<F: Fn(u64, u64, u64) -> u64>(mean: F, formula: Formula) -> bool {
    forall|high: u64, low: u64, close: u64, value: u64| #[trigger]
        call_ensures(mean, (high, low, close), value) ==> value == formula(high, low, close)
}

/// The inputs of a merged stream and the formula that combines them.
#[derive(PartialEq, Eq, Structural, Clone, Copy, Debug, Hash)]
pub enum MergedStreamRef {
    /// The mean of the high, the low and the close of a tick.
    Hlc3 { high: StreamRef, low: StreamRef, close: StreamRef },
}

/// Whether a set of samples holds one of each input of a merge.
pub open spec fn complete(kind: MergedStreamRef, streams: Map<usize, Blob>) -> bool {
    match kind {
        MergedStreamRef::Hlc3 { high, low, close } => {
            &&& streams.contains_key(high.id)
            &&& streams.contains_key(low.id)
            &&& streams.contains_key(close.id)
        },
    }
}

/// The sample that a merge makes of one sample of each of its inputs: the
/// formula's value of the three, under the timestamp of the close.
pub open spec fn merged(kind: MergedStreamRef, streams: Map<usize, Blob>, formula: Formula) -> Blob {
    match kind {
        MergedStreamRef::Hlc3 { high, low, close } => Blob {
            timestamp: streams[close.id].timestamp,
            data: formula(streams[high.id].data, streams[low.id].data, streams[close.id].data),
        },
    }
}

/// Whether `blob` is a sample that `mean` may make of one sample of each
/// input: it bears the timestamp of the close, and its value is one that
/// `mean` may return for the three values.
pub open spec fn merges<F: Fn(u64, u64, u64) -> u64>(
    kind: MergedStreamRef,
    streams: Map<usize, Blob>,
    mean: F,
    blob: Blob,
) -> bool {
    match kind {
        MergedStreamRef::Hlc3 { high, low, close } => {
            &&& blob.timestamp == streams[close.id].timestamp
            &&& call_ensures(
                mean,
                (streams[high.id].data, streams[low.id].data, streams[close.id].data),
                blob.data,
            )
        },
    }
}

impl MergedStreamRef {
    /// Whether `source` is one of the inputs of the merge.
    pub open spec fn recognizes(self, source: StreamRef) -> bool {
        match self {
            MergedStreamRef::Hlc3 { high, low, close } => source == high || source == low
                || source == close,
        }
    }

    /// Whether `source` is one of the inputs of the merge.
    pub fn has_input(&self, source: StreamRef) -> (yes: bool)
        ensures
            yes == self.recognizes(source),
    {
        match self {
            MergedStreamRef::Hlc3 { high, low, close } => source == *high || source == *low
                || source == *close,
        }
    }

    /// Reduces one sample of each input to the merged sample. The arithmetic
    /// on the values is `mean`'s: it is given the bit patterns of the high,
    /// the low and the close, in this order, and returns the pattern of their mean.
    pub fn get_func<F: Fn(u64, u64, u64) -> u64>(
        &self,
        streams: &HashMap<usize, Blob>,
        mean: &F,
    ) -> (blob: Blob)
        requires
            complete(*self, streams@),
            total(*mean),
        ensures
            merges(*self, streams@, *mean, blob),
            forall|formula: Formula| #[trigger]
                computes(*mean, formula) ==> blob == merged(*self, streams@, formula),
    {
        match self {
            MergedStreamRef::Hlc3 { high, low, close } => self.calc_hlc3(
                *high,
                *low,
                *close,
                streams,
                mean,
            ),
        }
    }

    /// The sample of the three named inputs: `mean` of their values, under the
    /// timestamp of the close.
    pub fn calc_hlc3<F: Fn(u64, u64, u64) -> u64>(
        &self,
        high: StreamRef,
        low: StreamRef,
        close: StreamRef,
        streams: &HashMap<usize, Blob>,
        mean: &F,
    ) -> (blob: Blob)
        requires
            streams@.contains_key(high.id),
            streams@.contains_key(low.id),
            streams@.contains_key(close.id),
            total(*mean),
        ensures
            blob.timestamp == streams@[close.id].timestamp,
            call_ensures(
                *mean,
                (streams@[high.id].data, streams@[low.id].data, streams@[close.id].data),
                blob.data,
            ),
    {
        let high_blob = *streams.get(&high.id).unwrap();
        let low_blob = *streams.get(&low.id).unwrap();
        let close_blob = *streams.get(&close.id).unwrap();
        let hlc3 = mean(high_blob.data, low_blob.data, close_blob.data);
        Blob::new(close_blob.timestamp, hlc3)
    }

    /// The number of inputs of the merge.
    pub fn len(&self) -> (count: usize)
        ensures
            count == 3,
    {
        match self {
            MergedStreamRef::Hlc3 { .. } => 3,
        }
    }
}

/// What a stream node does with the samples that reach it.
#[derive(PartialEq, Eq, Structural, Clone, Copy, Debug, Hash)]
pub enum StreamKind {
    /// Stores them as they come.
    Source,
    /// Reduces each window of so many ticks of such a width to one sample.
    Aggregate(Calc, usize, usize),
    /// Combines the samples of several inputs that bear the same timestamp.
    Merge(MergedStreamRef),
}

/// A stream as it is declared: where it is stored, how wide its pages are,
/// and what it does.
/// Two definitions are the same stream where their paths are the same.
#[derive(Debug)]
pub struct StreamDefinition {
    pub path: String,
    pub page_size: usize,
    pub stream_kind: StreamKind,
}

impl StreamDefinition {
    /// The definition of a stream that is stored under `path`, in pages of
    /// `page_size` milliseconds.
    pub fn new(path: String, page_size: usize, stream_kind: StreamKind) -> (definition:
        StreamDefinition)
        ensures
            definition.path@ == path@,
            definition.page_size == page_size,
            definition.stream_kind == stream_kind,
    {
        StreamDefinition { path, page_size, stream_kind }
    }
}

impl PartialEq for StreamDefinition {
    fn eq(&self, other: &StreamDefinition) -> (same: bool) {
        self.path == other.path
    }
}

impl Eq for StreamDefinition {

}

/// `<String as Hash>::hash` feeds the text into the hasher. Nothing is
/// claimed of the hasher afterwards.
pub assume_specification<H: std::hash::Hasher>[ <String as std::hash::Hash>::hash ](
    text: &String,
    state: &mut H,
)
;

impl std::hash::Hash for StreamDefinition {
    /// A definition is hashed by its path, by which it is compared.
    fn hash<H: std::hash::Hasher>(&self, state: &mut H) {
        self.path.hash(state)
    }
}

impl vstd::std_specs::cmp::PartialEqSpecImpl for StreamDefinition {
    open spec fn obeys_eq_spec() -> bool {
        true
    }

    /// Two definitions are equal where they are stored under the same path,
    /// whatever their page size and their kind.
    open spec fn eq_spec(&self, other: &StreamDefinition) -> bool {
        self.path@ == other.path@
    }
}

/// Whether a definition of the given path stands at a place, and none before it.
pub open spec fn held_at(definitions: Seq<StreamDefinition>, path: Seq<char>, at: int) -> bool {
    &&& 0 <= at < definitions.len()
    &&& definitions[at].path@ == path
    &&& forall|j: int| 0 <= j < at ==> (#[trigger] definitions[j]).path@ != path
}

/// Whether a definition of the given path is among the definitions.
pub open spec fn holds(definitions: Seq<StreamDefinition>, path: Seq<char>) -> bool {
    exists|at: int| 0 <= at < definitions.len() && (#[trigger] definitions[at]).path@ == path
}

/// Whether no two definitions share a path.
pub open spec fn distinct(definitions: Seq<StreamDefinition>) -> bool {
    forall|i: int, j: int|
        0 <= i < j < definitions.len() ==> (#[trigger] definitions[i]).path@ != (
        #[trigger] definitions[j]).path@
}

/// The stream definitions of a topology, each under the handle it was given.
/// A definition is registered once and stays for good; a path has one
/// definition and one handle.
pub struct Registry {
    definitions: Vec<StreamDefinition>,
}

impl View for Registry {
    type V = Seq<StreamDefinition>;

    closed spec fn view(&self) -> Seq<StreamDefinition> {
        self.definitions@
    }
}

impl Registry {
    /// A registry without definitions.
    pub fn new() -> (registry: Registry)
        ensures
            registry@ == Seq::<StreamDefinition>::empty(),
    {
        Registry { definitions: Vec::new() }
    }

    /// The number of definitions.
    pub fn len(&self) -> (count: usize)
        ensures
            count == self@.len(),
    {
        self.definitions.len()
    }

    /// Takes a definition and hands out its handle. A definition of a path
    /// that the registry holds already is not taken: the handle of the one
    /// that is held is handed out. Any other gets the next number.
    pub fn register(&mut self, definition: StreamDefinition) -> (stream: StreamRef)
        ensures
            holds(old(self)@, definition.path@) ==> final(self)@ == old(self)@ && held_at(
                old(self)@,
                definition.path@,
                stream.id as int,
            ),
            !holds(old(self)@, definition.path@) ==> final(self)@ == old(self)@.push(definition)
                && stream.id == old(self)@.len(),
            distinct(old(self)@) ==> distinct(final(self)@),
    {
        let mut i: usize = 0;
        while i < self.definitions.len()
            invariant
                i <= self.definitions@.len(),
                *self == *old(self),
                forall|j: int| 0 <= j < i ==> (#[trigger] self.definitions@[j]).path@
                    != definition.path@,
            decreases self.definitions@.len() - i,
        {
            if self.definitions[i].path == definition.path {
                return StreamRef { id: i };
            }
            i += 1;
        }
        let stream = StreamRef { id: self.definitions.len() };
        self.definitions.push(definition);
        stream
    }

    /// The handle under which a path is registered, if it is.
    pub fn find(&self, path: &String) -> (found: Option<StreamRef>)
        ensures
            match found {
                Some(stream) => held_at(self@, path@, stream.id as int),
                None => !holds(self@, path@),
            },
    {
        let mut i: usize = 0;
        while i < self.definitions.len()
            invariant
                i <= self.definitions@.len(),
                forall|j: int| 0 <= j < i ==> (#[trigger] self.definitions@[j]).path@ != path@,
            decreases self.definitions@.len() - i,
        {
            if self.definitions[i].path == *path {
                return Some(StreamRef { id: i });
            }
            i += 1;
        }
        None
    }

    /// The definition that a handle was given for.
    pub fn get(&self, stream: StreamRef) -> (found: Option<&StreamDefinition>)
        ensures
            match found {
                Some(definition) => stream.id < self@.len() && *definition == self@[stream.id as int],
                None => stream.id >= self@.len(),
            },
    {
        if stream.id < self.definitions.len() {
            Some(&self.definitions[stream.id])
        } else {
            None
        }
    }
}

/// A command to the executor.
#[derive(Debug)]
pub enum Envelope {
    /// Attach the second stream to the first ones, and bring it up to date.
    Add(Vec<StreamRef>, StreamRef),
    /// Hand every buffered sample over to be written.
    Flush,
    /// Feed a batch of samples into a stream.
    Data(StreamRef, Vec<Blob>),
}

} // verus!
