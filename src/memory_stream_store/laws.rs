//! Laws that relate the operations of the store, stated over its contents as plain values.

use vstd::prelude::*;

use crate::memory_stream_store::index::{
    at_or_after, lemma_at_or_after_is_suffix, strictly_ascending,
};
use crate::memory_stream_store::store::{
    StoreModel, categories_of, category_of, lemma_indices_append_run,
    lemma_indices_exact, stored_from, version_of_length,
};
use crate::stream::{MessagePosition, MessageView, ReadDirection, StreamVersion};

verus! {

/// A batch of `N` messages written to a stream that did not exist (a write that expected
/// `NoStream` and was carried out) is, read forwards, exactly
/// that batch in the order in which it was submitted, with revisions `0` to `N - 1`, and
/// the stream's version is then `Revision(N - 1)`.
pub proof fn law_write_then_read_stream(
    before: StoreModel,
    after: StoreModel,
    stream_name: Seq<char>,
    batch: Seq<MessageView>,
)
    requires
        before.consistent(),
        before.accepts(stream_name, StreamVersion::NoStream, batch.len()),
        before.appended(after, stream_name, batch),
    ensures
        after.stream_read(stream_name, ReadDirection::Forwards).1.len() == batch.len(),
        forall|i: int|
            0 <= i < batch.len() ==> stored_from(
                #[trigger] after.stream_read(stream_name, ReadDirection::Forwards).1[i],
                batch[i],
                MessagePosition {
                    position: (before.messages.len() + i) as usize,
                    revision: i as usize,
                },
            ),
        after.stream_version(stream_name) == version_of_length(batch.len()),
        batch.len() > 0 ==> after.stream_version(stream_name) == StreamVersion::Revision(
            (batch.len() - 1) as usize,
        ),
{
    let n = before.messages.len();
    lemma_indices_append_run(before.stream_names, stream_name, batch.len(), stream_name);
    let positions = after.stream_positions(stream_name);
    assert(before.stream_positions(stream_name).len() == 0);
    assert(positions =~= Seq::new(batch.len(), |j: int| (n + j) as usize));
    assert forall|i: int| 0 <= i < batch.len() implies stored_from(
        #[trigger] after.stream_read(stream_name, ReadDirection::Forwards).1[i],
        batch[i],
        MessagePosition { position: (n + i) as usize, revision: i as usize },
    ) by {
        assert(after.stream_content(stream_name)[i] == after.messages[n + i]);
    }
}

/// Reads do not change a store, and what they return is fixed by its contents: two reads
/// with no write in between give the same results.
pub proof fn law_reads_are_repeatable(
    first: StoreModel,
    second: StoreModel,
    stream_name: Seq<char>,
    direction: ReadDirection,
    category_name: Seq<char>,
    offset: usize,
    max_messages: Option<usize>,
)
    requires
        first == second,
    ensures
        first.stream_read(stream_name, direction) == second.stream_read(stream_name, direction),
        first.category_read(category_name, offset, max_messages) == second.category_read(
            category_name,
            offset,
            max_messages,
        ),
{
}

/// A write that expects `NoStream` to a stream that holds a message is not carried out:
/// the write then returns `WrongExpectedVersion` and changes nothing.
pub proof fn law_no_stream_expected_of_existing_stream(
    store: StoreModel,
    stream_name: Seq<char>,
    count: nat,
)
    requires
        store.stream_content(stream_name).len() >= 1,
    ensures
        !store.accepts(stream_name, StreamVersion::NoStream, count),
{
}

/// A category holds the messages of all its streams, merged in the order of their global
/// positions: every message whose stream is of the category is there, in global order.
pub proof fn law_category_in_global_order(store: StoreModel, category_name: Seq<char>)
    requires
        store.consistent(),
    ensures
        strictly_ascending(store.category_positions(category_name)),
        forall|j: int|
            0 <= j < store.category_positions(category_name).len() ==> {
                &&& (#[trigger] store.category_positions(category_name)[j])
                    < store.messages.len()
                &&& category_of(
                    store.stream_names[store.category_positions(category_name)[j] as int],
                ) == category_name
            },
        forall|i: int|
            0 <= i < store.messages.len() && category_of(store.stream_names[i]) == category_name
                ==> #[trigger] store.category_positions(category_name).contains(i as usize),
        store.category_read(category_name, 0, None) == store.messages_at(
            store.category_positions(category_name),
        ),
        forall|j: int|
            0 <= j < store.category_read(category_name, 0, None).len() ==> (
            #[trigger] store.category_read(category_name, 0, None)[j]).position.position
                == store.category_positions(category_name)[j],
        forall|i: int, j: int|
            0 <= i < j < store.category_read(category_name, 0, None).len() ==> (
            #[trigger] store.category_read(category_name, 0, None)[i]).position.position < (
            #[trigger] store.category_read(category_name, 0, None)[j]).position.position,
{
    let names = categories_of(store.stream_names);
    lemma_indices_exact(names, category_name);
    let positions = store.category_positions(category_name);
    assert forall|i: int|
        0 <= i < store.messages.len() && category_of(store.stream_names[i])
            == category_name implies #[trigger] positions.contains(i as usize) by {
        assert(names[i] == category_of(store.stream_names[i]));
    }
    lemma_at_or_after_is_suffix(positions, 0, 0);
    assert(positions.subrange(0, positions.len() as int) =~= positions);
    let read = store.category_read(category_name, 0, None);
    assert forall|j: int| 0 <= j < read.len() implies (#[trigger] read[j]).position.position
        == positions[j] by {
        assert(read[j] == store.messages[positions[j] as int]);
    }
    assert forall|i: int, j: int| 0 <= i < j < read.len() implies (
    #[trigger] read[i]).position.position < (#[trigger] read[j]).position.position by {
        assert(read[i] == store.messages[positions[i] as int]);
        assert(read[j] == store.messages[positions[j] as int]);
    }
}

/// Reading a category from the exact global position of one of its messages gives that
/// message first: the offset is inclusive.
pub proof fn law_category_offset_is_inclusive(
    store: StoreModel,
    category_name: Seq<char>,
    position: usize,
)
    requires
        store.consistent(),
        position < store.messages.len(),
        category_of(store.stream_names[position as int]) == category_name,
    ensures
        store.category_read(category_name, position, None).len() > 0,
        store.category_read(category_name, position, None)[0] == store.messages[position as int],
        store.category_read(category_name, position, None)[0].position.position == position,
{
    law_category_in_global_order(store, category_name);
    let positions = store.category_positions(category_name);
    assert(positions.contains((position as int) as usize));
    let k = choose|k: int| 0 <= k < positions.len() && positions[k] == position;
    assert forall|i: int| 0 <= i < k implies positions[i] < position by {}
    assert forall|i: int| k <= i < positions.len() implies positions[i] >= position by {
        if i > k {
            assert(positions[k] < positions[i]);
        }
    }
    lemma_at_or_after_is_suffix(positions, position, k);
    assert(at_or_after(positions, position)[0] == position);
}

/// Reading the category of a stream from the global position held by one of the stream's
/// messages gives that message first.
pub proof fn law_stream_message_starts_its_category_read(
    store: StoreModel,
    stream_name: Seq<char>,
    k: int,
)
    requires
        store.consistent(),
        0 <= k < store.stream_content(stream_name).len(),
    ensures
        ({
            let m = store.stream_content(stream_name)[k];
            let read = store.category_read(category_of(stream_name), m.position.position, None);
            read.len() > 0 && read[0] == m
        }),
{
    lemma_indices_exact(store.stream_names, stream_name);
    let p = store.stream_positions(stream_name)[k];
    assert(store.stream_content(stream_name)[k] == store.messages[p as int]);
    assert(store.messages[p as int].position.position == p);
    law_category_offset_is_inclusive(store, category_of(stream_name), p);
}

/// Reading a stream backwards gives the exact reverse of reading it forwards, with the same
/// version.
pub proof fn law_backwards_reverses_forwards(store: StoreModel, stream_name: Seq<char>)
    ensures
        store.stream_read(stream_name, ReadDirection::Backwards).0 == store.stream_read(
            stream_name,
            ReadDirection::Forwards,
        ).0,
        store.stream_read(stream_name, ReadDirection::Backwards).1 == store.stream_read(
            stream_name,
            ReadDirection::Forwards,
        ).1.reverse(),
{
}

} // verus!
