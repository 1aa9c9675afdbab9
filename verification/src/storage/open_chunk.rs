use vstd::prelude::*;

verus! {

/// A sample as a line of text: its timestamp and what was recorded.
#[derive(Debug)]
pub struct Record {
    pub timestamp: i64,
    pub data: String,
}

/// What a [`Buffer`] is, as a value: the lines that wait to be written, the
/// number of lines that its chunk has taken, and the timestamp of the last.
pub struct BufferView {
    pub data: Seq<Seq<char>>,
    pub count: i32,
    pub timestamp: u64,
}

/// The lines that wait to be written to a chunk.
#[derive(Debug)]
pub struct Buffer {
    data: Vec<String>,
    count: i32,
    timestamp: u64,
}

impl View for Buffer {
    type V = BufferView;

    closed spec fn view(&self) -> BufferView {
        BufferView {
            data: self.data@.map_values(|line: String| line@),
            count: self.count,
            timestamp: self.timestamp,
        }
    }
}

impl Buffer {
    /// An empty buffer of a chunk that has taken `count` lines, the last of
    /// them at `timestamp`.
    pub fn new(count: i32, timestamp: u64) -> (buffer: Buffer)
        ensures
            buffer@ == (BufferView { data: Seq::empty(), count, timestamp }),
    {
        let buffer = Buffer { data: Vec::new(), count, timestamp };
        assert(buffer@.data =~= Seq::empty());
        buffer
    }

    /// Takes one more line, which bears `timestamp`.
    pub fn push(&mut self, timestamp: u64, s: String)
        requires
            old(self)@.count < i32::MAX,
        ensures
            final(self)@ == (BufferView {
                data: old(self)@.data.push(s@),
                count: (old(self)@.count + 1) as i32,
                timestamp,
            }),
    {
        let ghost line = s@;
        self.data.push(s);
        self.count = self.count + 1;
        self.timestamp = timestamp;
        assert(self@.data =~= old(self)@.data.push(line));
    }

    /// The number of lines that the chunk has taken.
    pub fn count(&self) -> (count: i32)
        ensures
            count == self@.count,
    {
        self.count
    }

    /// The timestamp of the last line.
    pub fn timestamp(&self) -> (timestamp: u64)
        ensures
            timestamp == self@.timestamp,
    {
        self.timestamp
    }

    /// The number of lines that wait to be written.
    pub fn pending(&self) -> (lines: usize)
        ensures
            lines == self@.data.len(),
    {
        self.data.len()
    }
}

} // verus!
