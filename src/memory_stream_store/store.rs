//! The stream store: one append-only message log, a position index by stream, a position
//! index by category, and a cache of each stream's latest revision.

use vstd::prelude::*;
use vstd::hash_map::StringHashMap;
use vstd::string::*;

use crate::memory_stream_store::index::{
    LogPositionIndex, at_or_after, lemma_at_or_after_within, strictly_ascending,
};
use crate::stream::{
    copy_bytes, Message, MessagePosition, MessageView, ReadDirection, ReadFromCategory, ReadFromStream,
    Stream, StreamMessage, StreamMessageView, StreamVersion, WriteResult, WriteToStream,
    batch_views, message_views,
};

verus! {

/// The category of a stream: the part of its name before the first `-`, or the whole name
/// where it holds no `-`.
pub open spec fn category_of(stream_name: Seq<char>) -> Seq<char>
    decreases stream_name.len(),
{
    if stream_name.len() == 0 {
        stream_name
    } else if stream_name[0] == '-' {
        Seq::empty()
    } else {
        seq![stream_name[0]] + category_of(stream_name.drop_first())
    }
}

/// The ascending indices `i` of `keys` with `keys[i] == key`.
pub open spec fn indices_of(keys: Seq<Seq<char>>, key: Seq<char>) -> Seq<usize>
    decreases keys.len(),
{
    if keys.len() == 0 {
        Seq::empty()
    } else {
        let before = indices_of(keys.drop_last(), key);
        if keys.last() == key {
            before.push((keys.len() - 1) as usize)
        } else {
            before
        }
    }
}

/// The categories of a sequence of stream names.
pub open spec fn categories_of(names: Seq<Seq<char>>) -> Seq<Seq<char>> {
    names.map_values(|n: Seq<char>| category_of(n))
}

/// A stream version that counts `n` messages.
pub open spec fn version_of_length(n: nat) -> StreamVersion {
    if n == 0 {
        StreamVersion::NoStream
    } else {
        StreamVersion::Revision((n - 1) as usize)
    }
}

/// The message `m` was stored from `msg` at position `position`, under an identifier in the
/// hyphenated form of 36 characters.
pub open spec fn stored_from(m: StreamMessageView, msg: MessageView, position: MessagePosition) -> bool {
    &&& m.id.len() == 36
    &&& m.message_type == msg.message_type
    &&& m.data == msg.data
    &&& m.position == position
}

/// The first `i` characters of a name hold no `-`, and the name ends or has a `-` at `i`:
/// its category is its first `i` characters.
proof fn lemma_category_is_prefix(name: Seq<char>, i: int)
    requires
        0 <= i <= name.len(),
        forall|j: int| 0 <= j < i ==> name[j] != '-',
        i == name.len() || name[i] == '-',
    ensures
        category_of(name) == name.take(i),
    decreases i,
{
    if i == 0 {
        if name.len() == 0 {
            assert(name.take(0) =~= name);
        } else {
            assert(name.take(0) =~= Seq::<char>::empty());
        }
    } else {
        let rest = name.drop_first();
        assert forall|j: int| 0 <= j < i - 1 implies rest[j] != '-' by {
            assert(rest[j] == name[j + 1]);
        }
        lemma_category_is_prefix(rest, i - 1);
        assert(seq![name[0]] + rest.take(i - 1) =~= name.take(i));
    }
}

/// Appending `x` to `keys` appends its index to the indices of `x` and leaves the others.
proof fn lemma_indices_push(keys: Seq<Seq<char>>, x: Seq<char>, key: Seq<char>)
    ensures
        indices_of(keys.push(x), key) == (if x == key {
            indices_of(keys, key).push(keys.len() as usize)
        } else {
            indices_of(keys, key)
        }),
{
    assert(keys.push(x).drop_last() =~= keys);
}

/// Appending `m` copies of `x` to `keys` appends their indices to the indices of `x` and
/// leaves the others.
pub proof fn lemma_indices_append_run(keys: Seq<Seq<char>>, x: Seq<char>, m: nat, key: Seq<char>)
    ensures
        indices_of(keys + Seq::new(m, |i: int| x), key) == (if x == key {
            indices_of(keys, key) + Seq::new(m, |j: int| (keys.len() + j) as usize)
        } else {
            indices_of(keys, key)
        }),
    decreases m,
{
    if m == 0 {
        assert(keys + Seq::new(0, |i: int| x) =~= keys);
        assert(indices_of(keys, key) + Seq::new(0, |j: int| (keys.len() + j) as usize)
            =~= indices_of(keys, key));
    } else {
        let m1 = (m - 1) as nat;
        lemma_indices_append_run(keys, x, m1, key);
        assert(keys + Seq::new(m, |i: int| x) =~= (keys + Seq::new(m1, |i: int| x)).push(x));
        lemma_indices_push(keys + Seq::new(m1, |i: int| x), x, key);
        if x == key {
            assert(indices_of(keys, key) + Seq::new(m, |j: int| (keys.len() + j) as usize) =~= (
            indices_of(keys, key) + Seq::new(m1, |j: int| (keys.len() + j) as usize)).push(
                (keys.len() + m1) as usize,
            ));
        }
    }
}

/// The indices of `key` are in range, hold `key`, ascend, and include every index that
/// holds `key`.
pub proof fn lemma_indices_exact(keys: Seq<Seq<char>>, key: Seq<char>)
    requires
        keys.len() <= usize::MAX,
    ensures
        indices_of(keys, key).len() <= keys.len(),
        strictly_ascending(indices_of(keys, key)),
        forall|j: int|
            0 <= j < indices_of(keys, key).len() ==> {
                &&& (#[trigger] indices_of(keys, key)[j]) < keys.len()
                &&& keys[indices_of(keys, key)[j] as int] == key
            },
        forall|i: int|
            0 <= i < keys.len() && keys[i] == key ==> #[trigger] indices_of(keys, key).contains(
                i as usize,
            ),
    decreases keys.len(),
{
    if keys.len() > 0 {
        let rest = keys.drop_last();
        lemma_indices_exact(rest, key);
        let before = indices_of(rest, key);
        assert forall|i: int| 0 <= i < keys.len() && keys[i] == key implies #[trigger] indices_of(
            keys,
            key,
        ).contains(i as usize) by {
            if i < keys.len() - 1 {
                assert(rest[i] == keys[i]);
                assert(before.contains(i as usize));
                let j = choose|j: int| 0 <= j < before.len() && before[j] == i as usize;
                if keys.last() == key {
                    assert(indices_of(keys, key)[j] == i as usize);
                } else {
                    assert(indices_of(keys, key)[j] == i as usize);
                }
            } else {
                assert(indices_of(keys, key).last() == i as usize);
            }
        }
    }
}

/// The contents of a store as plain values: the messages of its log, in the order of their
/// global positions, and for each of them the name of the stream it was written to.
pub struct StoreModel {
    pub messages: Seq<StreamMessageView>,
    pub stream_names: Seq<Seq<char>>,
}

impl StoreModel {
    /// There is a stream name for each message, the global positions fit in `usize`, the
    /// message at each index of the log holds that index as its global position, and the
    /// messages of each stream hold the revisions `0`, `1`, ... in the order of the stream.
    pub open spec fn consistent(&self) -> bool {
        &&& self.messages.len() == self.stream_names.len()
        &&& self.messages.len() <= usize::MAX
        &&& forall|i: int|
            0 <= i < self.messages.len() ==> (#[trigger] self.messages[i]).position.position == i
        &&& forall|k: Seq<char>, j: int|
            0 <= j < self.stream_positions(k).len() ==> self.messages[#[trigger] self.stream_positions(
                k,
            )[j] as int].position.revision == j
    }

    /// The global positions of the messages of a stream, ascending.
    pub open spec fn stream_positions(&self, stream_name: Seq<char>) -> Seq<usize> {
        indices_of(self.stream_names, stream_name)
    }

    /// The global positions of the messages of a category, ascending.
    pub open spec fn category_positions(&self, category_name: Seq<char>) -> Seq<usize> {
        indices_of(categories_of(self.stream_names), category_name)
    }

    /// The messages at the given global positions.
    pub open spec fn messages_at(&self, positions: Seq<usize>) -> Seq<StreamMessageView> {
        positions.map_values(|p: usize| self.messages[p as int])
    }

    /// The messages of a stream, in the order in which they were written.
    pub open spec fn stream_content(&self, stream_name: Seq<char>) -> Seq<StreamMessageView> {
        self.messages_at(self.stream_positions(stream_name))
    }

    /// The current version of a stream.
    pub open spec fn stream_version(&self, stream_name: Seq<char>) -> StreamVersion {
        version_of_length(self.stream_positions(stream_name).len())
    }

    /// What reading a stream in a direction gives: its version and its messages.
    pub open spec fn stream_read(&self, stream_name: Seq<char>, direction: ReadDirection) -> (
        StreamVersion,
        Seq<StreamMessageView>,
    ) {
        (
            self.stream_version(stream_name),
            match direction {
                ReadDirection::Forwards => self.stream_content(stream_name),
                ReadDirection::Backwards => self.stream_content(stream_name).reverse(),
            },
        )
    }

    /// What reading a category gives: its messages from global position `offset` on, in
    /// global order, at most `max_messages` of them.
    pub open spec fn category_read(
        &self,
        category_name: Seq<char>,
        offset: usize,
        max_messages: Option<usize>,
    ) -> Seq<StreamMessageView> {
        let from = at_or_after(self.category_positions(category_name), offset);
        let kept = match max_messages {
            Some(n) => if n < from.len() {
                from.take(n as int)
            } else {
                from
            },
            None => from,
        };
        self.messages_at(kept)
    }

    /// A write of `count` messages to a stream is carried out: the stream is at the expected
    /// version, the batch is not empty, and the global positions of the batch fit in `usize`.
    pub open spec fn accepts(
        &self,
        stream_name: Seq<char>,
        expected_version: StreamVersion,
        count: nat,
    ) -> bool {
        &&& self.stream_version(stream_name) == expected_version
        &&& count > 0
        &&& self.messages.len() + count <= usize::MAX
    }

    /// `after` is this store with `batch` appended to stream `stream_name`: the log grows by
    /// one message per element of the batch, in order, with consecutive global positions
    /// and consecutive revisions, and nothing that was stored changes.
    pub open spec fn appended(
        &self,
        after: Self,
        stream_name: Seq<char>,
        batch: Seq<MessageView>,
    ) -> bool {
        let n = self.messages.len();
        let r = self.stream_positions(stream_name).len();
        &&& after.stream_names == self.stream_names + Seq::new(
            batch.len(),
            |i: int| stream_name,
        )
        &&& after.messages.len() == n + batch.len()
        &&& after.messages.take(n as int) == self.messages
        &&& forall|i: int|
            0 <= i < batch.len() ==> stored_from(
                #[trigger] after.messages[n + i],
                batch[i],
                MessagePosition { position: (n + i) as usize, revision: (r + i) as usize },
            )
    }
}

/// The log of messages and the structures derived from it: a position index by stream, a
/// position index by category, and a map from each stream to its latest revision.
struct StoreTables {
    log: Vec<StreamMessage>,
    streams: LogPositionIndex,
    categories: LogPositionIndex,
    stream_revisions: StringHashMap<usize>,
    owners: Ghost<Seq<Seq<char>>>,
}

impl View for StoreTables {
    type V = StoreModel;

    closed spec fn view(&self) -> StoreModel {
        StoreModel { messages: message_views(self.log@), stream_names: self.owners@ }
    }
}

impl StoreTables {
    /// The log, both indices and the revision map agree with one another.
    spec fn wf(&self) -> bool {
        &&& self.log@.len() == self.owners@.len()
        &&& forall|i: int|
            0 <= i < self.log@.len() ==> (#[trigger] self.log@[i]).position.position == i
        &&& self.streams.wf()
        &&& self.categories.wf()
        &&& forall|k: Seq<char>| #[trigger]
            self.streams.positions(k) == self@.stream_positions(k)
        &&& forall|k: Seq<char>| #[trigger]
            self.categories.positions(k) == self@.category_positions(k)
        &&& forall|k: Seq<char>|
            #[trigger] self.stream_revisions@.contains_key(k) <==> self@.stream_positions(k).len()
                > 0
        &&& forall|k: Seq<char>| #[trigger]
            self.stream_revisions@.contains_key(k) ==> self.stream_revisions@[k]
                == self@.stream_positions(k).len() - 1
        &&& forall|k: Seq<char>, j: int|
            0 <= j < self@.stream_positions(k).len() ==> self.log@[#[trigger] self@.stream_positions(
                k,
            )[j] as int].position.revision == j
    }

    /// Facts about the indices of a well-formed store.
    proof fn lemma_positions(&self, k: Seq<char>)
        requires
            self.wf(),
        ensures
            self@.stream_positions(k).len() <= self.log@.len(),
            strictly_ascending(self@.stream_positions(k)),
            strictly_ascending(self@.category_positions(k)),
            forall|j: int|
                0 <= j < self@.stream_positions(k).len() ==> {
                    &&& (#[trigger] self@.stream_positions(k)[j]) < self.log@.len()
                    &&& self@.stream_names[self@.stream_positions(k)[j] as int] == k
                },
            forall|j: int|
                0 <= j < self@.category_positions(k).len() ==> {
                    &&& (#[trigger] self@.category_positions(k)[j]) < self.log@.len()
                    &&& category_of(self@.stream_names[self@.category_positions(k)[j] as int])
                        == k
                },
    {
        assert(self.log@.len() == self.log.len());
        lemma_indices_exact(self@.stream_names, k);
        lemma_indices_exact(categories_of(self@.stream_names), k);
    }

    /// The contents of well-formed tables are consistent.
    proof fn lemma_view_consistent(&self)
        requires
            self.wf(),
        ensures
            self@.consistent(),
    {
        assert(self.log@.len() == self.log.len());
        assert forall|i: int| 0 <= i < self@.messages.len() implies (
        #[trigger] self@.messages[i]).position.position == i by {
            assert(self@.messages[i] == self.log@[i]@);
        }
        assert forall|k: Seq<char>, j: int|
            0 <= j < self@.stream_positions(k).len() implies self@.messages[#[trigger] self@.stream_positions(
            k,
        )[j] as int].position.revision == j by {
            self.lemma_positions(k);
            let p = self@.stream_positions(k)[j] as int;
            assert(self@.messages[p] == self.log@[p]@);
        }
    }

    /// Empty tables.
    fn empty() -> (r: Self)
        ensures
            r.wf(),
            r@.messages == Seq::<StreamMessageView>::empty(),
            r@.stream_names == Seq::<Seq<char>>::empty(),
    {
        let r = StoreTables {
            log: Vec::new(),
            streams: LogPositionIndex::new(),
            categories: LogPositionIndex::new(),
            stream_revisions: StringHashMap::new(),
            owners: Ghost(Seq::empty()),
        };
        assert(r@.messages =~= Seq::<StreamMessageView>::empty());
        r
    }

    /// The current version of a stream, from the map of revisions.
    fn get_stream_version(&self, stream_name: &str) -> (r: StreamVersion)
        requires
            self.wf(),
        ensures
            r == self@.stream_version(stream_name@),
    {
        match self.stream_revisions.get(stream_name) {
            Some(revision) => StreamVersion::Revision(*revision),
            None => StreamVersion::NoStream,
        }
    }

    /// Append one message to the log and record its position in both indices and its
    /// revision in the map of revisions.
    fn do_write(&mut self, stream_name: &str, category: &str, event: StreamMessage) -> (r:
        WriteResult)
        requires
            old(self).wf(),
            category@ == category_of(stream_name@),
            old(self).log@.len() < usize::MAX,
            event.position.position == old(self).log@.len(),
            event.position.revision == old(self)@.stream_positions(stream_name@).len(),
        ensures
            final(self).wf(),
            final(self)@.messages == old(self)@.messages.push(event@),
            final(self)@.stream_names == old(self)@.stream_names.push(stream_name@),
            r == WriteResult::Written(event.position),
    {
        let ghost before = *self;
        let pos = event.position;
        proof {
            before.lemma_positions(stream_name@);
            before.lemma_positions(category@);
        }
        self.log.push(event);
        self.streams.write_position(stream_name, pos.position);
        self.categories.write_position(category, pos.position);
        self.stream_revisions.insert(stream_name.to_owned(), pos.revision);
        self.owners = Ghost(self.owners@.push(stream_name@));
        proof {
            let names = before@.stream_names;
            assert(categories_of(names.push(stream_name@)) =~= categories_of(names).push(
                category@,
            ));
            assert forall|k: Seq<char>| #[trigger]
                self.streams.positions(k) == self@.stream_positions(k) by {
                lemma_indices_push(names, stream_name@, k);
            }
            assert forall|k: Seq<char>| #[trigger]
                self.categories.positions(k) == self@.category_positions(k) by {
                lemma_indices_push(categories_of(names), category@, k);
            }
            assert forall|k: Seq<char>|
                #[trigger] self.stream_revisions@.contains_key(k) <==> self@.stream_positions(
                    k,
                ).len() > 0 by {
                lemma_indices_push(names, stream_name@, k);
            }
            assert forall|k: Seq<char>| #[trigger]
                self.stream_revisions@.contains_key(k) implies self.stream_revisions@[k]
                    == self@.stream_positions(k).len() - 1 by {
                lemma_indices_push(names, stream_name@, k);
            }
            assert forall|k: Seq<char>, j: int|
                0 <= j < self@.stream_positions(k).len() implies self.log@[#[trigger] self@.stream_positions(
                k,
            )[j] as int].position.revision == j by {
                lemma_indices_push(names, stream_name@, k);
                before.lemma_positions(k);
                if j < before@.stream_positions(k).len() {
                    assert(self@.stream_positions(k)[j] == before@.stream_positions(k)[j]);
                }
            }
            assert(self@.messages =~= before@.messages.push(event@));
        }
        WriteResult::Written(pos)
    }

    /// Write a batch of messages to a stream, provided the stream is at `expected_version`.
    fn write_batch(
        &mut self,
        stream_name: &str,
        expected_version: StreamVersion,
        messages: &[Message],
    ) -> (r: WriteResult)
        requires
            old(self).wf(),
            old(self)@.messages.len() + messages@.len() <= usize::MAX,
        ensures
            final(self).wf(),
            ({
                let n = old(self)@.messages.len();
                let rev = old(self)@.stream_positions(stream_name@).len();
                let count = messages@.len();
                if old(self)@.accepts(stream_name@, expected_version, count) {
                    &&& old(self)@.appended(final(self)@, stream_name@, batch_views(messages@))
                    &&& r == WriteResult::Written(
                        MessagePosition {
                            position: (n + count - 1) as usize,
                            revision: (rev + count - 1) as usize,
                        },
                    )
                } else {
                    &&& r == WriteResult::WrongExpectedVersion
                    &&& *final(self) == *old(self)
                }
            }),
    {
        let version = self.get_stream_version(stream_name);
        if version != expected_version || messages.len() == 0 {
            return WriteResult::WrongExpectedVersion;
        }
        let ghost before = *self;
        let ghost batch = batch_views(messages@);
        proof {
            before.lemma_positions(stream_name@);
        }
        let category = category_of_stream(stream_name);
        let next_rev: usize = match version {
            StreamVersion::NoStream => 0,
            StreamVersion::Revision(n) => n + 1,
        };
        let mut next_pos = MessagePosition { revision: next_rev, position: self.log.len() };
        let mut result = WriteResult::WrongExpectedVersion;
        let mut i: usize = 0;
        proof {
            assert(before@.stream_names + Seq::new(0, |j: int| stream_name@)
                =~= before@.stream_names);
            assert(before@.messages.take(before@.messages.len() as int) =~= before@.messages);
        }
        while i < messages.len()
            invariant
                before.wf(),
                self.wf(),
                category@ == category_of(stream_name@),
                batch == batch_views(messages@),
                before.log@.len() + messages@.len() <= usize::MAX,
                before@.stream_positions(stream_name@).len() <= before.log@.len(),
                i <= messages@.len(),
                next_pos.position == before.log@.len() + i,
                next_pos.revision == before@.stream_positions(stream_name@).len() + i,
                before@.appended(self@, stream_name@, batch.take(i as int)),
                i > 0 ==> result == WriteResult::Written(
                    MessagePosition {
                        position: (next_pos.position - 1) as usize,
                        revision: (next_pos.revision - 1) as usize,
                    },
                ),
            decreases messages@.len() - i,
        {
            let ghost mid = *self;
            let ghost n0 = before@.messages.len();
            proof {
                assert(mid.log@.len() == n0 + i);
                lemma_indices_append_run(
                    before@.stream_names,
                    stream_name@,
                    i as nat,
                    stream_name@,
                );
            }
            let m = StreamMessage {
                id: new_message_id(),
                message_type: messages[i].message_type.clone(),
                data: copy_bytes(&messages[i].data),
                position: next_pos,
            };
            result = self.do_write(stream_name, category.as_str(), m);
            proof {
                let names0 = before@.stream_names;
                assert(names0 + Seq::new((i + 1) as nat, |j: int| stream_name@) =~= (names0
                    + Seq::new(i as nat, |j: int| stream_name@)).push(stream_name@));
                assert(self@.messages.take(n0 as int) =~= mid@.messages.take(n0 as int));
                let bt = batch.take(i + 1);
                assert forall|j: int| 0 <= j < bt.len() implies stored_from(
                    #[trigger] self@.messages[n0 + j],
                    bt[j],
                    MessagePosition {
                        position: (n0 + j) as usize,
                        revision: (before@.stream_positions(stream_name@).len() + j) as usize,
                    },
                ) by {
                    if j < i {
                        assert(self@.messages[n0 + j] == mid@.messages[n0 + j]);
                        assert(bt[j] == batch.take(i as int)[j]);
                    }
                }
            }
            next_pos = MessagePosition {
                revision: next_pos.revision + 1,
                position: next_pos.position + 1,
            };
            i = i + 1;
        }
        proof {
            assert(batch.take(i as int) =~= batch);
        }
        result
    }

    /// Read a stream in its entirety, along with its version.
    fn read_from_stream(&self, stream_name: &str, direction: ReadDirection) -> (r: (
        StreamVersion,
        Stream,
    ))
        requires
            self.wf(),
        ensures
            r.0 == self@.stream_read(stream_name@, direction).0,
            message_views(r.1@) == self@.stream_read(stream_name@, direction).1,
    {
        let log_positions = self.streams.get_positions(stream_name);
        proof {
            self.lemma_positions(stream_name@);
        }
        let mut stream_version = StreamVersion::NoStream;
        let mut messages: Vec<StreamMessage> = Vec::with_capacity(log_positions.len());
        let mut j: usize = 0;
        while j < log_positions.len()
            invariant
                self.wf(),
                log_positions@ == self@.stream_positions(stream_name@),
                forall|k: int|
                    0 <= k < log_positions@.len() ==> (#[trigger] log_positions@[k])
                        < self.log@.len(),
                j <= log_positions@.len(),
                messages@.len() == j,
                forall|k: int|
                    0 <= k < j ==> (#[trigger] messages@[k])@ == self@.messages[log_positions@[k] as int],
                stream_version == version_of_length(j as nat),
            decreases log_positions@.len() - j,
        {
            let message = &self.log[log_positions[j]];
            stream_version = StreamVersion::Revision(message.position.revision);
            messages.push(message.duplicate());
            j = j + 1;
            proof {
                assert forall|k: int| 0 <= k < j implies (#[trigger] messages@[k])@
                    == self@.messages[log_positions@[k] as int] by {
                    assert(self@.messages[log_positions@[k] as int]
                        == self.log@[log_positions@[k] as int]@);
                }
            }
        }
        proof {
            assert(message_views(messages@) =~= self@.stream_content(stream_name@));
        }
        let stream = match direction {
            ReadDirection::Forwards => messages,
            ReadDirection::Backwards => reversed(messages),
        };
        (stream_version, stream)
    }

    /// Read the messages of a category from global position `offset` on.
    fn read_from_category(
        &self,
        category_name: &str,
        offset: usize,
        max_messages: Option<usize>,
    ) -> (r: Stream)
        requires
            self.wf(),
        ensures
            message_views(r@) == self@.category_read(category_name@, offset, max_messages),
    {
        let log_positions = self.categories.get_positions_after(category_name, offset);
        proof {
            self.lemma_positions(category_name@);
            lemma_at_or_after_within(self@.category_positions(category_name@), offset);
        }
        let n: usize = match max_messages {
            Some(m) => if m < log_positions.len() {
                m
            } else {
                log_positions.len()
            },
            None => log_positions.len(),
        };
        let ghost kept = log_positions@.take(n as int);
        proof {
            let all = self@.category_positions(category_name@);
            assert forall|k: int| 0 <= k < log_positions@.len() implies (#[trigger] log_positions@[k])
                < self.log@.len() by {
                assert(all.contains(log_positions@[k]));
                let i = choose|i: int| 0 <= i < all.len() && all[i] == log_positions@[k];
                assert(all[i] < self.log@.len());
            }
        }
        let mut messages: Vec<StreamMessage> = Vec::with_capacity(n);
        let mut j: usize = 0;
        while j < n
            invariant
                self.wf(),
                log_positions@ == at_or_after(self@.category_positions(category_name@), offset),
                forall|k: int|
                    0 <= k < log_positions@.len() ==> (#[trigger] log_positions@[k])
                        < self.log@.len(),
                n <= log_positions@.len(),
                j <= n,
                messages@.len() == j,
                forall|k: int|
                    0 <= k < j ==> (#[trigger] messages@[k])@ == self@.messages[log_positions@[k] as int],
            decreases n - j,
        {
            messages.push(self.log[log_positions[j]].duplicate());
            j = j + 1;
            proof {
                assert forall|k: int| 0 <= k < j implies (#[trigger] messages@[k])@
                    == self@.messages[log_positions@[k] as int] by {
                    assert(self@.messages[log_positions@[k] as int]
                        == self.log@[log_positions@[k] as int]@);
                }
            }
        }
        proof {
            assert(message_views(messages@) =~= self@.messages_at(kept));
            if n == log_positions@.len() {
                assert(kept =~= log_positions@);
            }
        }
        messages
    }
}

/// An in-memory stream store.
///
/// All messages live in a single append-only log, which gives every message a global
/// position. Two position indices, one keyed by stream name and one by category, point
/// into the log, and a map of stream revisions serves the checks of expected versions.
///
/// Writes take the store by `&mut` and reads by `&`, so a write excludes every other
/// access while reads may share the store: a single writer, with concurrent readers.
pub struct MemoryStreamStore {
    tables: StoreTables,
}

impl View for MemoryStreamStore {
    type V = StoreModel;

    closed spec fn view(&self) -> StoreModel {
        self.tables@
    }
}

impl MemoryStreamStore {
    /// The log and the structures derived from it agree.
    #[verifier::type_invariant]
    closed spec fn inv(&self) -> bool {
        self.tables.wf()
    }

    /// An empty store.
    pub fn new() -> (r: Self)
        ensures
            r@.consistent(),
            r@.messages == Seq::<StreamMessageView>::empty(),
            r@.stream_names == Seq::<Seq<char>>::empty(),
    {
        let r = MemoryStreamStore { tables: StoreTables::empty() };
        proof {
            r.tables.lemma_view_consistent();
        }
        r
    }

    /// The current version of a stream: `NoStream` where it was never written, else the
    /// revision of its last message.
    pub fn get_stream_version(&self, stream_name: &str) -> (r: StreamVersion)
        ensures
            r == self@.stream_version(stream_name@),
    {
        proof {
            use_type_invariant(self);
        }
        self.tables.get_stream_version(stream_name)
    }

    /// Write a batch of messages to a stream, provided the stream is at `expected_version`.
    ///
    /// The check of the version is made once for the whole batch. Where it holds and the
    /// batch is not empty, every message is appended, in order, with consecutive global
    /// positions and consecutive revisions, each with a fresh identifier, and the result is
    /// the position of the last one. Otherwise nothing changes and the result is
    /// `WrongExpectedVersion`: an empty batch is rejected too, and so is a batch too long for
    /// its global positions to fit in `usize`.
    pub fn write_to_stream(
        &mut self,
        stream_name: &str,
        expected_version: StreamVersion,
        messages: &[Message],
    ) -> (r: WriteResult)
        ensures
            final(self)@.consistent(),
            ({
                let n = old(self)@.messages.len();
                let rev = old(self)@.stream_positions(stream_name@).len();
                let count = messages@.len();
                if old(self)@.accepts(stream_name@, expected_version, count) {
                    &&& old(self)@.appended(final(self)@, stream_name@, batch_views(messages@))
                    &&& r == WriteResult::Written(
                        MessagePosition {
                            position: (n + count - 1) as usize,
                            revision: (rev + count - 1) as usize,
                        },
                    )
                } else {
                    &&& r == WriteResult::WrongExpectedVersion
                    &&& final(self)@ == old(self)@
                }
            }),
    {
        proof {
            use_type_invariant(&*self);
            self.tables.lemma_view_consistent();
        }
        if messages.len() > usize::MAX - self.tables.log.len() {
            return WriteResult::WrongExpectedVersion;
        }
        let mut tables = StoreTables::empty();
        std::mem::swap(&mut self.tables, &mut tables);
        let r = tables.write_batch(stream_name, expected_version, messages);
        std::mem::swap(&mut self.tables, &mut tables);
        proof {
            self.tables.lemma_view_consistent();
        }
        r
    }

    /// Read a stream in its entirety, along with its version: `NoStream` where it was never
    /// written, else the revision of its last message. Backwards gives the messages in the
    /// reverse order; the version is the same either way.
    pub fn read_from_stream(&self, stream_name: &str, direction: ReadDirection) -> (r: (
        StreamVersion,
        Stream,
    ))
        ensures
            self@.consistent(),
            r.0 == self@.stream_read(stream_name@, direction).0,
            message_views(r.1@) == self@.stream_read(stream_name@, direction).1,
    {
        proof {
            use_type_invariant(self);
            self.tables.lemma_view_consistent();
        }
        self.tables.read_from_stream(stream_name, direction)
    }

    /// Read a stream from its start, along with its version: all of its messages where
    /// `max` is `None`, else at most the first `max` of them.
    pub fn read_stream(&self, stream_name: &str, max: Option<usize>) -> (r: (
        StreamVersion,
        Stream,
    ))
        ensures
            r.0 == self@.stream_version(stream_name@),
            message_views(r.1@) == ({
                let content = self@.stream_content(stream_name@);
                match max {
                    Some(n) => if n < content.len() {
                        content.take(n as int)
                    } else {
                        content
                    },
                    None => content,
                }
            }),
    {
        let (version, mut messages) = self.read_from_stream(stream_name, ReadDirection::Forwards);
        let ghost all = messages@;
        if let Some(n) = max {
            messages.truncate(n);
            proof {
                if n < all.len() {
                    assert(message_views(messages@) =~= message_views(all).take(n as int));
                }
            }
        }
        (version, messages)
    }

    /// Read the messages of a category from global position `offset` on (a message at
    /// exactly `offset` included), in the order of their global positions across all streams
    /// of the category, at most `max_messages` of them (all where it is `None`).
    pub fn read_from_category(
        &self,
        category_name: &str,
        offset: usize,
        max_messages: Option<usize>,
    ) -> (r: Stream)
        ensures
            self@.consistent(),
            message_views(r@) == self@.category_read(category_name@, offset, max_messages),
    {
        proof {
            use_type_invariant(self);
            self.tables.lemma_view_consistent();
        }
        self.tables.read_from_category(category_name, offset, max_messages)
    }
}

impl Default for MemoryStreamStore {
    fn default() -> (r: Self)
        ensures
            r@.consistent(),
            r@.messages == Seq::<StreamMessageView>::empty(),
            r@.stream_names == Seq::<Seq<char>>::empty(),
    {
        Self::new()
    }
}

impl ReadFromStream for MemoryStreamStore {
    fn read_from_stream(&self, stream_name: &str, read_direction: ReadDirection) -> (r: (
        StreamVersion,
        Stream,
    ))
        ensures
            r.0 == self@.stream_read(stream_name@, read_direction).0,
            message_views(r.1@) == self@.stream_read(stream_name@, read_direction).1,
    {
        MemoryStreamStore::read_from_stream(self, stream_name, read_direction)
    }
}

impl WriteToStream for MemoryStreamStore {
    fn write_to_stream(
        &mut self,
        stream_name: &str,
        expected_version: StreamVersion,
        messages: &[Message],
    ) -> (r: WriteResult)
        ensures
            final(self)@.consistent(),
            ({
                let n = old(self)@.messages.len();
                let rev = old(self)@.stream_positions(stream_name@).len();
                let count = messages@.len();
                if old(self)@.accepts(stream_name@, expected_version, count) {
                    &&& old(self)@.appended(final(self)@, stream_name@, batch_views(messages@))
                    &&& r == WriteResult::Written(
                        MessagePosition {
                            position: (n + count - 1) as usize,
                            revision: (rev + count - 1) as usize,
                        },
                    )
                } else {
                    &&& r == WriteResult::WrongExpectedVersion
                    &&& final(self)@ == old(self)@
                }
            }),
    {
        MemoryStreamStore::write_to_stream(self, stream_name, expected_version, messages)
    }
}

impl ReadFromCategory for MemoryStreamStore {
    fn read_from_category(
        &mut self,
        category_name: &str,
        offset: usize,
        max_messages: Option<usize>,
    ) -> (r: Stream)
        ensures
            final(self)@ == old(self)@,
            message_views(r@) == old(self)@.category_read(category_name@, offset, max_messages),
    {
        MemoryStreamStore::read_from_category(self, category_name, offset, max_messages)
    }
}

/// The messages of `v` in the reverse order.
fn reversed(v: Vec<StreamMessage>) -> (r: Vec<StreamMessage>)
    ensures
        message_views(r@) == message_views(v@).reverse(),
{
    let ghost orig = v@;
    let mut v = v;
    let mut r: Vec<StreamMessage> = Vec::with_capacity(v.len());
    while v.len() > 0
        invariant
            v@ == orig.take(v@.len() as int),
            v@.len() <= orig.len(),
            r@.len() == orig.len() - v@.len(),
            forall|k: int| 0 <= k < r@.len() ==> #[trigger] r@[k] == orig[orig.len() - 1 - k],
        decreases v@.len(),
    {
        let m = v.pop().unwrap();
        r.push(m);
        assert(v@ =~= orig.take(v@.len() as int));
    }
    assert(message_views(r@) =~= message_views(orig).reverse());
    r
}

/// A fresh identifier for a stored message.
///
/// Relies on `uuid::Uuid::new_v4`, a random (version 4) UUID, written out by its `Display`
/// impl, which gives the lower-case hyphenated form of 36 characters. Nothing is claimed of
/// the value beyond its length. `new_v4` panics only where the operating system's source of
/// random bytes fails, which no argument can rule out.
#[verifier::external_body]
fn new_message_id() -> (r: String)
    ensures
        r@.len() == 36,
{
    uuid::Uuid::new_v4().to_string()
}

/// The category of a stream: the part of its name before the first `-`, or the whole name
/// where it holds no `-`.
pub fn category_of_stream(stream_name: &str) -> (r: String)
    ensures
        r@ == category_of(stream_name@),
{
    let n = stream_name.unicode_len();
    let mut i: usize = 0;
    let mut found = false;
    while i < n && !found
        invariant
            n == stream_name@.len(),
            i <= n,
            forall|j: int| 0 <= j < i ==> stream_name@[j] != '-',
            found ==> i < n && stream_name@[i as int] == '-',
        decreases n - i + (if found { 0int } else { 1int }),
    {
        if stream_name.get_char(i) == '-' {
            found = true;
        } else {
            i = i + 1;
        }
    }
    proof {
        lemma_category_is_prefix(stream_name@, i as int);
    }
    stream_name.substring_char(0, i).to_owned()
}

} // verus!
