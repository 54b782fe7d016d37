//! An append-only index from a key to the ascending global positions of the messages in the
//! log that belong to that key.

use vstd::prelude::*;
use vstd::hash_map::StringHashMap;

verus! {

/// Every element of `s` is smaller than the next.
pub open spec fn strictly_ascending(s: Seq<usize>) -> bool {
    forall|i: int, j: int| 0 <= i < j < s.len() ==> s[i] < s[j]
}

/// The elements of `s` that are at least `offset`, in their order in `s`.
pub open spec fn at_or_after(s: Seq<usize>, offset: usize) -> Seq<usize> {
    s.filter(|p: usize| p >= offset)
}

/// Where every element before `start` is below `offset` and every element from `start` on
/// is at least `offset`, the elements that are at least `offset` are the suffix from `start`.
pub proof fn lemma_at_or_after_is_suffix(s: Seq<usize>, offset: usize, start: int)
    requires
        0 <= start <= s.len(),
        forall|i: int| 0 <= i < start ==> s[i] < offset,
        forall|i: int| start <= i < s.len() ==> s[i] >= offset,
    ensures
        at_or_after(s, offset) == s.subrange(start, s.len() as int),
    decreases s.len(),
{
    reveal_with_fuel(Seq::filter, 1);
    if s.len() > 0 {
        let n = s.len() - 1;
        let rest = s.drop_last();
        if start == s.len() {
            lemma_at_or_after_is_suffix(rest, offset, n);
            assert(rest.subrange(n, n) =~= s.subrange(start, s.len() as int));
        } else {
            lemma_at_or_after_is_suffix(rest, offset, start);
            assert(rest.subrange(start, n).push(s.last()) =~= s.subrange(start, s.len() as int));
        }
    } else {
        assert(s.subrange(start, 0) =~= s);
    }
}

/// The elements that are at least `offset` are elements of `s`, and are at least `offset`.
pub proof fn lemma_at_or_after_within(s: Seq<usize>, offset: usize)
    ensures
        at_or_after(s, offset).len() <= s.len(),
        forall|j: int|
            0 <= j < at_or_after(s, offset).len() ==> {
                &&& s.contains(#[trigger] at_or_after(s, offset)[j])
                &&& at_or_after(s, offset)[j] >= offset
            },
    decreases s.len(),
{
    reveal_with_fuel(Seq::filter, 1);
    if s.len() > 0 {
        let rest = s.drop_last();
        lemma_at_or_after_within(rest, offset);
        let out = at_or_after(s, offset);
        let before = at_or_after(rest, offset);
        assert forall|j: int| 0 <= j < out.len() implies {
            &&& s.contains(#[trigger] out[j])
            &&& out[j] >= offset
        } by {
            if j < before.len() {
                assert(out[j] == before[j]);
                assert(rest.contains(before[j]));
                let k = choose|k: int| 0 <= k < rest.len() && rest[k] == before[j];
                assert(s[k] == out[j]);
            } else {
                assert(out[j] == s.last());
                assert(s[s.len() - 1] == out[j]);
            }
        }
    }
}

/// An index from keys to ascending lists of positions in the message log.
///
/// Each key owns a slot: its list of positions is the vector at that slot.
pub struct LogPositionIndex {
    slots: StringHashMap<usize>,
    lists: Vec<Vec<usize>>,
}

impl LogPositionIndex {
    /// The positions held for `key`, in the order in which they were written.
    pub closed spec fn positions(&self, key: Seq<char>) -> Seq<usize> {
        if self.slots@.contains_key(key) {
            self.lists@[self.slots@[key] as int]@
        } else {
            Seq::empty()
        }
    }

    /// The slots are in range and no two keys share one, and each key's positions ascend.
    pub closed spec fn wf(&self) -> bool {
        &&& forall|k: Seq<char>| #[trigger]
            self.slots@.contains_key(k) ==> self.slots@[k] < self.lists@.len()
        &&& forall|k1: Seq<char>, k2: Seq<char>|
            #![trigger self.slots@[k1], self.slots@[k2]]
            self.slots@.contains_key(k1) && self.slots@.contains_key(k2) && k1 != k2
                ==> self.slots@[k1] != self.slots@[k2]
        &&& forall|k: Seq<char>| strictly_ascending(#[trigger] self.positions(k))
    }

    /// An index with no positions for any key.
    pub fn new() -> (r: Self)
        ensures
            r.wf(),
            forall|k: Seq<char>| #[trigger] r.positions(k) == Seq::<usize>::empty(),
    {
        LogPositionIndex { slots: StringHashMap::new(), lists: Vec::new() }
    }

    /// Append a new log position to the list of `key`; it must exceed every position already
    /// written for that key.
    pub fn write_position(&mut self, key: &str, position: usize)
        requires
            old(self).wf(),
            forall|i: int|
                0 <= i < old(self).positions(key@).len() ==> old(self).positions(key@)[i]
                    < position,
        ensures
            final(self).wf(),
            final(self).positions(key@) == old(self).positions(key@).push(position),
            forall|k: Seq<char>|
                k != key@ ==> #[trigger] final(self).positions(k) == old(self).positions(k),
    {
        let ghost before = *self;
        match self.slots.get(key) {
            Some(slot) => {
                let slot = *slot;
                self.lists[slot].push(position);
                assert forall|k: Seq<char>| k != key@ implies #[trigger] self.positions(k)
                    == before.positions(k) by {
                    if self.slots@.contains_key(k) {
                        assert(self.slots@[k] != slot);
                    }
                }
            }
            None => {
                let mut list: Vec<usize> = Vec::new();
                list.push(position);
                let slot = self.lists.len();
                self.lists.push(list);
                self.slots.insert(key.to_owned(), slot);
                assert forall|k: Seq<char>| k != key@ implies #[trigger] self.positions(k)
                    == before.positions(k) by {
                    if self.slots@.contains_key(k) {
                        assert(before.slots@.contains_key(k));
                        assert(before.slots@[k] < slot);
                    }
                }
            }
        }
        assert(self.positions(key@) =~= before.positions(key@).push(position));
        assert forall|k: Seq<char>| strictly_ascending(#[trigger] self.positions(k)) by {
            if k != key@ {
                assert(self.positions(k) == before.positions(k));
            } else {
                assert(strictly_ascending(before.positions(k)));
            }
        }
    }

    /// All log positions of `key`, in ascending order.
    pub fn get_positions(&self, key: &str) -> (r: &[usize])
        requires
            self.wf(),
        ensures
            r@ == self.positions(key@),
    {
        match self.slots.get(key) {
            Some(slot) => self.lists[*slot].as_slice(),
            None => &[],
        }
    }

    /// The log positions of `key` that are at least `offset`, in ascending order.
    ///
    /// The start of that suffix is found by binary search: its cost is logarithmic in the
    /// number of positions of the key.
    pub fn get_positions_after(&self, key: &str, offset: usize) -> (r: &[usize])
        requires
            self.wf(),
        ensures
            r@ == at_or_after(self.positions(key@), offset),
    {
        let positions = self.get_positions(key);
        proof {
            assert(strictly_ascending(self.positions(key@)));
        }
        let start: usize = if offset == 0 {
            0
        } else {
            first_at_or_after(positions, offset)
        };
        let (_, suffix) = positions.split_at(start);
        proof {
            lemma_at_or_after_is_suffix(positions@, offset, start as int);
        }
        suffix
    }
}

/// The index of the first element of the ascending `s` that is at least `offset`, or the
/// length of `s` where there is none.
fn first_at_or_after(s: &[usize], offset: usize) -> (r: usize)
    requires
        strictly_ascending(s@),
    ensures
        r <= s@.len(),
        forall|i: int| 0 <= i < r ==> s@[i] < offset,
        forall|i: int| r <= i < s@.len() ==> s@[i] >= offset,
{
    let mut lo: usize = 0;
    let mut hi: usize = s.len();
    while lo < hi
        invariant
            lo <= hi <= s@.len(),
            strictly_ascending(s@),
            forall|i: int| 0 <= i < lo ==> s@[i] < offset,
            forall|i: int| hi <= i < s@.len() ==> s@[i] >= offset,
        decreases hi - lo,
    {
        let mid = lo + (hi - lo) / 2;
        if s[mid] < offset {
            lo = mid + 1;
        } else {
            hi = mid;
        }
    }
    lo
}

} // verus!
