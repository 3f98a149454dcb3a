//! The locks under which images are converted: requests for the same image
//! share one, so that the image is converted once.
use crate::text;
use vstd::prelude::*;

verus! {

/// The locks that are in use, each under the key of its image.
#[derive(Debug)]
pub struct Flights<L> {
    entries: Vec<(String, L)>,
}

/// As many hold a lock that nobody waits for: the table, the request that has
/// it, and the guard of that request.
pub const LAST_HOLDERS: usize = 3;

impl<L> Flights<L> {
    /// The keys and their locks.
    pub closed spec fn locks(self) -> Map<Seq<char>, L> {
        locks_of(self.entries@)
    }

    /// No key stands in the table twice.
    pub closed spec fn wf(self) -> bool {
        keys_differ(self.entries@)
    }
}

/// The keys and their locks.
spec fn locks_of<L>(entries: Seq<(String, L)>) -> Map<Seq<char>, L>
    decreases entries.len(),
{
    if entries.len() == 0 {
        Map::empty()
    } else {
        locks_of(entries.drop_last()).insert(entries.last().0@, entries.last().1)
    }
}

/// No key stands in the table twice.
spec fn keys_differ<L>(entries: Seq<(String, L)>) -> bool {
    forall|i: int, j: int|
        0 <= i < j < entries.len() ==> (#[trigger] entries[i]).0@ != (#[trigger] entries[j]).0@
}

/// The table once a request for a key came: it has a lock for it.
pub open spec fn with_flight<L>(locks: Map<Seq<char>, L>, key: Seq<char>, fresh: L) -> Map<
    Seq<char>,
    L,
> {
    if locks.contains_key(key) {
        locks
    } else {
        locks.insert(key, fresh)
    }
}

/// A lock is taken out of the table: nobody waits for it, and it is the one that
/// the table has.
pub open spec fn is_retired(holders: usize, current: bool) -> bool {
    holders <= LAST_HOLDERS && current
}

// -------------------------------------------------------------------- lemmas

/// What the table has, entry by entry.
proof fn lemma_locks_of<L>(entries: Seq<(String, L)>)
    requires
        keys_differ(entries),
    ensures
        forall|i: int|
            0 <= i < entries.len() ==> locks_of(entries).contains_key(
                (#[trigger] entries[i]).0@,
            ) && locks_of(entries)[entries[i].0@] == entries[i].1,
        forall|key: Seq<char>| #[trigger]
            locks_of(entries).contains_key(key) ==> exists|i: int|
                0 <= i < entries.len() && (#[trigger] entries[i]).0@ == key,
    decreases entries.len(),
{
    if entries.len() > 0 {
        let front = entries.drop_last();
        let n = entries.len() - 1;
        assert(keys_differ(front)) by {
            assert forall|i: int, j: int| 0 <= i < j < front.len() implies (
            #[trigger] front[i]).0@ != (#[trigger] front[j]).0@ by {
                assert(entries[i].0@ != entries[j].0@);
            }
        }
        lemma_locks_of(front);
        assert forall|i: int| 0 <= i < entries.len() implies locks_of(entries).contains_key(
            (#[trigger] entries[i]).0@,
        ) && locks_of(entries)[entries[i].0@] == entries[i].1 by {
            if i < n {
                assert(front[i] == entries[i]);
                assert(entries[i].0@ != entries[n].0@);
            }
        }
        assert forall|key: Seq<char>| #[trigger]
            locks_of(entries).contains_key(key) implies exists|i: int|
            0 <= i < entries.len() && (#[trigger] entries[i]).0@ == key by {
            if key != entries[n].0@ {
                assert(locks_of(front).contains_key(key));
                let i = choose|i: int| 0 <= i < front.len() && (#[trigger] front[i]).0@ == key;
                assert(entries[i].0@ == key);
            }
        }
    }
}

// ---------------------------------------------------------------- operations

impl<L> Flights<L> {
    /// No lock is in use.
    pub fn new() -> (r: Self)
        ensures
            r.wf(),
            r.locks() == Map::<Seq<char>, L>::empty(),
    {
        Flights { entries: Vec::new() }
    }

    /// Where the key stands, or how many keys there are.
    fn place_of(&self, key: &str) -> (at: usize)
        requires
            self.wf(),
        ensures
            at <= self.entries@.len(),
            at < self.entries@.len() <==> self.locks().contains_key(key@),
            at < self.entries@.len() ==> self.entries@[at as int].0@ == key@,
    {
        let wanted = text::chars_of(key);
        let mut at: usize = 0;
        proof {
            lemma_locks_of(self.entries@);
        }
        while at < self.entries.len()
            invariant
                at <= self.entries@.len(),
                wanted@ == key@,
                self.locks() == locks_of(self.entries@),
                forall|i: int| 0 <= i < at ==> (#[trigger] self.entries@[i]).0@ != key@,
                forall|i: int|
                    0 <= i < self.entries@.len() ==> self.locks().contains_key(
                        (#[trigger] self.entries@[i]).0@,
                    ),
            decreases self.entries@.len() - at,
        {
            if text::is_text(wanted.as_slice(), self.entries[at].0.as_str()) {
                assert(self.locks().contains_key(self.entries@[at as int].0@));
                return at;
            }
            at = at + 1;
        }
        at
    }

    /// The lock that the table has for a key, if it has one.
    pub fn find(&self, key: &str) -> (r: Option<&L>)
        requires
            self.wf(),
        ensures
            match r {
                Some(lock) => self.locks().contains_key(key@) && *lock == self.locks()[key@],
                None => !self.locks().contains_key(key@),
            },
    {
        let at: usize = self.place_of(key);
        proof {
            lemma_locks_of(self.entries@);
        }
        if at < self.entries.len() {
            Some(&self.entries[at].1)
        } else {
            None
        }
    }

    /// The lock for a key. Where the table has none, it gets a fresh one.
    pub fn join(&mut self, key: &str, fresh: L) -> (lock: &L)
        requires
            old(self).wf(),
        ensures
            final(self).wf(),
            final(self).locks() == with_flight(old(self).locks(), key@, fresh),
            final(self).locks().contains_key(key@),
            *lock == final(self).locks()[key@],
    {
        let at: usize = self.place_of(key);
        let ghost before = self.entries@;
        proof {
            lemma_locks_of(before);
        }
        if at == self.entries.len() {
            let copy = key.to_owned();
            self.entries.push((copy, fresh));
            proof {
                let after = self.entries@;
                assert(after.drop_last() == before);
                assert forall|i: int, j: int| 0 <= i < j < after.len() implies (
                #[trigger] after[i]).0@ != (#[trigger] after[j]).0@ by {
                    if j == before.len() {
                        assert(locks_of(before).contains_key(before[i].0@));
                    }
                }
                assert(keys_differ(after));
            }
        }
        proof {
            lemma_locks_of(self.entries@);
        }
        &self.entries[at].1
    }

    /// A request is done with its lock, which so many hold and which is the one
    /// in the table or not. The lock is taken out of the table where nobody
    /// waits for it.
    pub fn retire(&mut self, key: &str, holders: usize, current: bool)
        requires
            old(self).wf(),
        ensures
            final(self).wf(),
            final(self).locks() == if is_retired(holders, current) {
                old(self).locks().remove(key@)
            } else {
                old(self).locks()
            },
    {
        if holders > LAST_HOLDERS || !current {
            return;
        }
        let at: usize = self.place_of(key);
        let ghost before = self.entries@;
        proof {
            lemma_locks_of(before);
        }
        if at < self.entries.len() {
            self.entries.remove(at);
        }
        proof {
            let after = self.entries@;
            if at < before.len() {
                assert(after == before.remove(at as int));
                assert forall|i: int, j: int| 0 <= i < j < after.len() implies (
                #[trigger] after[i]).0@ != (#[trigger] after[j]).0@ by {
                    let k = if i < at {
                        i
                    } else {
                        i + 1
                    };
                    let l = if j < at {
                        j
                    } else {
                        j + 1
                    };
                    assert(before[k].0@ != before[l].0@);
                }
            }
            assert(keys_differ(after));
            lemma_locks_of(after);
            let wanted = locks_of(before).remove(key@);
            assert forall|name: Seq<char>| #[trigger] locks_of(after).contains_key(name)
                == wanted.contains_key(name) by {
                if locks_of(after).contains_key(name) {
                    let i = choose|i: int| 0 <= i < after.len() && (#[trigger] after[i]).0@ == name;
                    if at < before.len() {
                        let k = if i < at {
                            i
                        } else {
                            i + 1
                        };
                        assert(before[k] == after[i]);
                        if k < at {
                            assert(before[k].0@ != before[at as int].0@);
                        } else {
                            assert(before[at as int].0@ != before[k].0@);
                        }
                    }
                }
                if wanted.contains_key(name) {
                    let k = choose|k: int|
                        0 <= k < before.len() && (#[trigger] before[k]).0@ == name;
                    if at < before.len() {
                        let i = if k < at {
                            k
                        } else {
                            k - 1
                        };
                        assert(after[i] == before[k]);
                    } else {
                        assert(after[k] == before[k]);
                    }
                }
            }
            assert forall|name: Seq<char>| #[trigger] locks_of(after).contains_key(name) implies
                locks_of(after)[name] == wanted[name] by {
                let i = choose|i: int| 0 <= i < after.len() && (#[trigger] after[i]).0@ == name;
                if at < before.len() {
                    let k = if i < at {
                        i
                    } else {
                        i + 1
                    };
                    assert(before[k] == after[i]);
                } else {
                    assert(before[i] == after[i]);
                }
            }
            assert(locks_of(after) =~= wanted);
        }
    }
}

// ---------------------------------------------------------------------- laws

/// Two requests for the same image have the same lock.
pub proof fn requests_for_one_image_share_a_lock<L>(
    locks: Map<Seq<char>, L>,
    key: Seq<char>,
    first: L,
    second: L,
)
    ensures
        with_flight(with_flight(locks, key, first), key, second) == with_flight(
            locks,
            key,
            first,
        ),
{
}

/// A request for one image does not change the lock of another.
pub proof fn other_images_keep_their_locks<L>(
    locks: Map<Seq<char>, L>,
    key: Seq<char>,
    fresh: L,
    other: Seq<char>,
)
    requires
        key != other,
    ensures
        with_flight(locks, key, fresh).contains_key(other) == locks.contains_key(other),
        locks.contains_key(other) ==> with_flight(locks, key, fresh)[other] == locks[other],
        locks.remove(key).contains_key(other) == locks.contains_key(other),
        locks.contains_key(other) ==> locks.remove(key)[other] == locks[other],
{
}

/// Once the only request for an image is done, the table is as it was before.
pub proof fn last_request_leaves_no_lock<L>(
    locks: Map<Seq<char>, L>,
    key: Seq<char>,
    fresh: L,
)
    requires
        !locks.contains_key(key),
    ensures
        with_flight(locks, key, fresh).remove(key) == locks,
{
    assert(with_flight(locks, key, fresh).remove(key) =~= locks);
}

/// A lock is taken out of the table only where no other request has a hold on
/// it.
pub proof fn shared_locks_stay(others: usize)
    requires
        LAST_HOLDERS + others <= usize::MAX,
    ensures
        is_retired((LAST_HOLDERS + others) as usize, true) <==> others == 0,
{
}

/// A request for an image that nobody converts gets a lock of its own, and one
/// for an image that is being converted gets the lock that there is.
pub proof fn requests_get_the_lock_of_their_image<L>(
    locks: Map<Seq<char>, L>,
    key: Seq<char>,
    fresh: L,
)
    ensures
        with_flight(locks, key, fresh).contains_key(key),
        !locks.contains_key(key) ==> with_flight(locks, key, fresh)[key] == fresh,
        locks.contains_key(key) ==> with_flight(locks, key, fresh) == locks,
{
}

/// A lock is taken out of the table exactly if no more than three hold it and it
/// is the one in the table.
pub proof fn locks_go_with_their_last_holders(holders: usize, current: bool)
    ensures
        is_retired(holders, current) <==> current && holders < 4,
{
}

} // verus!
