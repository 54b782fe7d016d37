//! The values that flow in and out of a stream store, and the operations it offers.

use vstd::prelude::*;

verus! {

/// A message that is writeable into a stream.
#[derive(Clone)]
pub struct Message {
    /// The type of a message.
    pub message_type: String,
    /// The data of a message.
    pub data: Vec<u8>,
}

/// What a message to be written consists of: its type and its data.
pub struct MessageView {
    pub message_type: Seq<char>,
    pub data: Seq<u8>,
}

impl View for Message {
    type V = MessageView;

    open spec fn view(&self) -> MessageView {
        MessageView { message_type: self.message_type@, data: self.data@ }
    }
}

/// Where a stored message stands: in the whole store and within its own stream.
#[derive(PartialEq, Eq, Structural, Debug, Clone, Copy)]
pub struct MessagePosition {
    /// The global position of a message in the store. The first position has index 0.
    pub position: usize,
    /// The position of a message within its stream. The first position has index 0.
    pub revision: usize,
}

/// A message that is read from a stream.
#[derive(Clone)]
pub struct StreamMessage {
    /// A unique identifier for a message.
    pub id: String,
    /// The type of a message.
    pub message_type: String,
    /// The data of a message.
    pub data: Vec<u8>,
    /// The positions (position and revision) of a message in the store and in its stream.
    pub position: MessagePosition,
}

/// What a stored message consists of, as plain values.
pub struct StreamMessageView {
    pub id: Seq<char>,
    pub message_type: Seq<char>,
    pub data: Seq<u8>,
    pub position: MessagePosition,
}

impl View for StreamMessage {
    type V = StreamMessageView;

    open spec fn view(&self) -> StreamMessageView {
        StreamMessageView {
            id: self.id@,
            message_type: self.message_type@,
            data: self.data@,
            position: self.position,
        }
    }
}

impl StreamMessage {
    /// A copy of this message, field by field.
    pub fn duplicate(&self) -> (r: StreamMessage)
        ensures
            r@ == self@,
    {
        StreamMessage {
            id: self.id.clone(),
            message_type: self.message_type.clone(),
            data: copy_bytes(&self.data),
            position: self.position,
        }
    }
}

/// A copy of a byte vector.
pub(crate) fn copy_bytes(v: &Vec<u8>) -> (r: Vec<u8>)
    ensures
        r@ == v@,
{
    let mut r: Vec<u8> = Vec::with_capacity(v.len());
    let mut i: usize = 0;
    while i < v.len()
        invariant
            i <= v@.len(),
            r@ == v@.subrange(0, i as int),
        decreases v@.len() - i,
    {
        r.push(v[i]);
        i = i + 1;
        assert(r@ =~= v@.subrange(0, i as int));
    }
    assert(r@ =~= v@);
    r
}

/// The version of a stream.
#[derive(PartialEq, Eq, Structural, Debug, Clone, Copy)]
pub enum StreamVersion {
    /// The stream does not exist.
    NoStream,
    /// The stream exists, and has the specified revision.
    Revision(usize),
}

/// The result of a write operation; holds the position of the last written message if the
/// write succeeded.
#[derive(PartialEq, Eq, Structural, Debug, Clone, Copy)]
pub enum WriteResult {
    /// The write was successful and the store/stream is now at the given position.
    Written(MessagePosition),
    /// The write was unsuccessful because of an expected version mismatch.
    WrongExpectedVersion,
}

/// The direction in which to read a stream.
#[derive(PartialEq, Eq, Structural, Debug, Clone, Copy)]
pub enum ReadDirection {
    Forwards,
    Backwards,
}

/// A stream of messages, represented as a vector.
pub type Stream = Vec<StreamMessage>;

/// The views of a sequence of stored messages.
pub open spec fn message_views(s: Seq<StreamMessage>) -> Seq<StreamMessageView> {
    s.map_values(|m: StreamMessage| m@)
}

/// The views of a batch of messages to be written.
pub open spec fn batch_views(s: Seq<Message>) -> Seq<MessageView> {
    s.map_values(|m: Message| m@)
}

/// Reading a stream in its entirety.
pub trait ReadFromStream {
    /// Read a given stream in its entirety, in the given direction, along with its version.
    fn read_from_stream(
        &self,
        stream_name: &str,
        read_direction: ReadDirection,
    ) -> (StreamVersion, Stream);
}

/// Writing a batch of messages to a stream, under optimistic concurrency control.
pub trait WriteToStream {
    /// Write messages to a stream, provided the stream is at `expected_version`.
    fn write_to_stream(
        &mut self,
        stream_name: &str,
        expected_version: StreamVersion,
        messages: &[Message],
    ) -> WriteResult;
}

/// Reading from a category: all messages written to streams of that category, in the order
/// in which they were written to the store.
///
/// The category of streams "Example-1" and "Example-2" is "Example".
pub trait ReadFromCategory {
    /// Read messages of a category, from global position `offset` on, at most `max_messages`
    /// of them (all of them where it is `None`).
    fn read_from_category(
        &mut self,
        category_name: &str,
        offset: usize,
        max_messages: Option<usize>,
    ) -> Stream;
}

} // verus!
