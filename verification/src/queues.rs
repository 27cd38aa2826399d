//! Messages held for a destination until a client subscribes to it.

use vstd::prelude::*;
use vstd::slice::slice_to_vec;

use crate::text::{comes_before, lemma_precedes, lemma_precedes_on, precedes, same};

verus! {

/// Messages per destination.
pub type QueuesView = Map<Seq<char>, Seq<Seq<u8>>>;

/// Messages by their bytes.
pub open spec fn bodies_view(bodies: Seq<Vec<u8>>) -> Seq<Seq<u8>> {
    bodies.map_values(|body: Vec<u8>| body@)
}

/// What is held for `destination`: nothing, where it is not known.
pub open spec fn queued(queues: QueuesView, destination: Seq<char>) -> Seq<Seq<u8>> {
    if queues.contains_key(destination) {
        queues[destination]
    } else {
        Seq::empty()
    }
}

type Entry = (String, Vec<Vec<u8>>);

spec fn entries_view(entries: Seq<Entry>) -> Seq<(Seq<char>, Seq<Seq<u8>>)> {
    entries.map_values(|entry: Entry| (entry.0@, bodies_view(entry.1@)))
}

/// What the first entry for `key` holds.
spec fn lookup(entries: Seq<(Seq<char>, Seq<Seq<u8>>)>, key: Seq<char>) -> Option<Seq<Seq<u8>>>
    decreases entries.len(),
{
    if entries.len() == 0 {
        None
    } else if entries[0].0 == key {
        Some(entries[0].1)
    } else {
        lookup(entries.drop_first(), key)
    }
}

proof fn lemma_lookup_update(
    entries: Seq<(Seq<char>, Seq<Seq<u8>>)>,
    at: int,
    held: Seq<Seq<u8>>,
    key: Seq<char>,
)
    requires
        0 <= at < entries.len(),
        forall|i: int| 0 <= i < at ==> (#[trigger] entries[i]).0 != entries[at].0,
    ensures
        lookup(entries, entries[at].0) == Some(entries[at].1),
        lookup(entries.update(at, (entries[at].0, held)), key) == if key == entries[at].0 {
            Some(held)
        } else {
            lookup(entries, key)
        },
    decreases entries.len(),
{
    let changed = entries.update(at, (entries[at].0, held));
    if at == 0 {
        assert(changed.drop_first() == entries.drop_first());
    } else {
        let rest = entries.drop_first();
        assert forall|i: int| 0 <= i < at - 1 implies (#[trigger] rest[i]).0 != rest[at - 1].0 by {
            assert(rest[i] == entries[i + 1]);
        }
        lemma_lookup_update(rest, at - 1, held, key);
        assert(changed.drop_first() == rest.update(at - 1, (rest[at - 1].0, held)));
        assert(entries[0].0 != entries[at].0);
    }
}

proof fn lemma_lookup_none(entries: Seq<(Seq<char>, Seq<Seq<u8>>)>, key: Seq<char>)
    requires
        forall|i: int| 0 <= i < entries.len() ==> (#[trigger] entries[i]).0 != key,
    ensures
        lookup(entries, key) is None,
    decreases entries.len(),
{
    if entries.len() > 0 {
        let rest = entries.drop_first();
        assert forall|i: int| 0 <= i < rest.len() implies (#[trigger] rest[i]).0 != key by {
            assert(rest[i] == entries[i + 1]);
        }
        lemma_lookup_none(rest, key);
    }
}

/// A key that is found stands somewhere.
proof fn lemma_lookup_some(entries: Seq<(Seq<char>, Seq<Seq<u8>>)>, key: Seq<char>) -> (at: int)
    requires
        lookup(entries, key) is Some,
    ensures
        0 <= at < entries.len(),
        entries[at].0 == key,
    decreases entries.len(),
{
    if entries[0].0 == key {
        0
    } else {
        lemma_lookup_some(entries.drop_first(), key) + 1
    }
}

proof fn lemma_lookup_insert(
    entries: Seq<(Seq<char>, Seq<Seq<u8>>)>,
    at: int,
    entry: (Seq<char>, Seq<Seq<u8>>),
    key: Seq<char>,
)
    requires
        0 <= at <= entries.len(),
        forall|i: int| 0 <= i < entries.len() ==> (#[trigger] entries[i]).0 != entry.0,
    ensures
        lookup(entries.insert(at, entry), key) == if key == entry.0 {
            Some(entry.1)
        } else {
            lookup(entries, key)
        },
    decreases entries.len(),
{
    let longer = entries.insert(at, entry);
    if at == 0 {
        assert(longer.drop_first() == entries);
    } else {
        let rest = entries.drop_first();
        assert forall|i: int| 0 <= i < rest.len() implies (#[trigger] rest[i]).0 != entry.0 by {
            assert(rest[i] == entries[i + 1]);
        }
        lemma_lookup_insert(rest, at - 1, entry, key);
        assert(longer.drop_first() == rest.insert(at - 1, entry));
        assert(longer[0] == entries[0]);
    }
}

proof fn lemma_lookup_remove(entries: Seq<(Seq<char>, Seq<Seq<u8>>)>, at: int, key: Seq<char>)
    requires
        0 <= at < entries.len(),
        key != entries[at].0,
    ensures
        lookup(entries.remove(at), key) == lookup(entries, key),
    decreases entries.len(),
{
    if at == 0 {
        assert(entries.remove(0) == entries.drop_first());
    } else {
        lemma_lookup_remove(entries.drop_first(), at - 1, key);
        assert(entries.remove(at).drop_first() == entries.drop_first().remove(at - 1));
    }
}

/// Whether every destination stands once, in the order of its characters.
spec fn sorted(entries: Seq<(Seq<char>, Seq<Seq<u8>>)>) -> bool {
    forall|i: int, j: int|
        0 <= i < j < entries.len() ==> precedes(
            (#[trigger] entries[i]).0,
            (#[trigger] entries[j]).0,
        )
}

/// In sorted entries no destination stands twice.
proof fn lemma_stands_once(entries: Seq<(Seq<char>, Seq<Seq<u8>>)>, at: int)
    requires
        sorted(entries),
        0 <= at < entries.len(),
    ensures
        forall|i: int| 0 <= i < entries.len() && i != at ==> (#[trigger] entries[i]).0
            != entries[at].0,
{
    lemma_precedes(entries[at].0, entries[at].0);
}

/// Destinations by their characters.
pub open spec fn destinations_view(destinations: Seq<String>) -> Seq<Seq<char>> {
    destinations.map_values(|destination: String| destination@)
}

/// What a session holds: messages per destination, not yet delivered.
#[derive(Debug, PartialEq, Eq)]
pub struct Queues {
    entries: Vec<Entry>,
}

impl View for Queues {
    type V = QueuesView;

    closed spec fn view(&self) -> QueuesView {
        let entries = entries_view(self.entries@);
        Map::new(|key: Seq<char>| lookup(entries, key) is Some, |key: Seq<char>| lookup(entries, key)->0)
    }
}

/// The same messages again.
fn copied(bodies: &Vec<Vec<u8>>) -> (copy: Vec<Vec<u8>>)
    ensures
        bodies_view(copy@) == bodies_view(bodies@),
{
    let mut copy: Vec<Vec<u8>> = Vec::new();
    let mut at: usize = 0;
    while at < bodies.len()
        invariant
            at <= bodies@.len(),
            copy@.len() == at,
            forall|i: int| 0 <= i < at ==> (#[trigger] copy@[i])@ == bodies@[i]@,
        decreases bodies@.len() - at,
    {
        copy.push(slice_to_vec(bodies[at].as_slice()));
        at = at + 1;
    }
    assert(bodies_view(copy@) =~= bodies_view(bodies@));
    copy
}

impl Clone for Queues {
    fn clone(&self) -> (copy: Self)
        ensures
            copy@ == self@,
    {
        proof {
            use_type_invariant(self);
        }
        let ghost all = entries_view(self.entries@);
        let mut entries: Vec<Entry> = Vec::new();
        let mut at: usize = 0;
        while at < self.entries.len()
            invariant
                at <= self.entries@.len(),
                all == entries_view(self.entries@),
                entries@.len() == at,
                forall|i: int| 0 <= i < at ==> #[trigger] entries_view(entries@)[i] == all[i],
            decreases self.entries@.len() - at,
        {
            let ghost before = entries_view(entries@);
            entries.push((self.entries[at].0.clone(), copied(&self.entries[at].1)));
            assert(entries_view(entries@) =~= before.push(all[at as int]));
            at = at + 1;
        }
        assert(entries_view(entries@) =~= all);
        Queues { entries }
    }
}

impl Queues {
    #[verifier::type_invariant]
    spec fn in_order(self) -> bool {
        sorted(entries_view(self.entries@))
    }

    /// Nothing, for no destination.
    pub fn new() -> (queues: Self)
        ensures
            queues@ == QueuesView::empty(),
    {
        let queues = Queues { entries: Vec::new() };
        assert(queues@ =~= QueuesView::empty());
        queues
    }

    /// Whether nothing is held for any destination.
    pub fn is_empty(&self) -> (empty: bool)
        ensures
            empty == (self@ == QueuesView::empty()),
    {
        proof {
            let all = entries_view(self.entries@);
            if all.len() > 0 {
                assert(lookup(all, all[0].0) is Some);
                assert(self@.contains_key(all[0].0));
            } else {
                assert(self@ =~= QueuesView::empty());
            }
        }
        self.entries.len() == 0
    }

    /// The destinations that something is held for, each once, in the order
    /// of their characters.
    pub fn destinations(&self) -> (destinations: Vec<String>)
        ensures
            forall|key: Seq<char>| #[trigger]
                self@.contains_key(key) <==> destinations_view(destinations@).contains(key),
            forall|i: int, j: int|
                0 <= i < j < destinations@.len() ==> precedes(
                    (#[trigger] destinations@[i])@,
                    (#[trigger] destinations@[j])@,
                ),
    {
        proof {
            use_type_invariant(self);
        }
        let ghost all = entries_view(self.entries@);
        let mut destinations: Vec<String> = Vec::new();
        let mut at: usize = 0;
        while at < self.entries.len()
            invariant
                at <= self.entries@.len(),
                all == entries_view(self.entries@),
                destinations@.len() == at,
                forall|i: int| 0 <= i < at ==> (#[trigger] destinations@[i])@ == all[i].0,
            decreases self.entries@.len() - at,
        {
            assert(all[at as int].0 == self.entries@[at as int].0@);
            destinations.push(self.entries[at].0.clone());
            at = at + 1;
        }
        proof {
            let names = destinations_view(destinations@);
            assert forall|key: Seq<char>| #[trigger] self@.contains_key(key) implies names.contains(
                key,
            ) by {
                let i = lemma_lookup_some(all, key);
                assert(names[i] == key);
            }
            assert forall|key: Seq<char>| names.contains(key) implies #[trigger] self@.contains_key(
                key,
            ) by {
                let i = choose|i: int| 0 <= i < names.len() && names[i] == key;
                assert(destinations@[i]@ == all[i].0);
                lemma_stands_once(all, i);
                lemma_lookup_update(all, i, all[i].1, key);
            }
        }
        destinations
    }

    /// What is held for `destination`, where it is known.
    pub fn get(&self, destination: &str) -> (bodies: Option<&Vec<Vec<u8>>>)
        ensures
            match bodies {
                Some(bodies) => self@.contains_key(destination@) && bodies_view(bodies@)
                    == self@[destination@],
                None => !self@.contains_key(destination@),
            },
    {
        let at = self.place(destination);
        let ghost all = entries_view(self.entries@);
        if at < self.entries.len() && same(self.entries[at].0.as_str(), destination) {
            proof {
                assert(all[at as int].0 == destination@);
                lemma_lookup_update(all, at as int, all[at as int].1, destination@);
            }
            return Some(&self.entries[at].1);
        }
        proof {
            lemma_lookup_none(all, destination@);
        }
        None
    }

    /// Where `destination` stands, or where it would.
    fn place(&self, destination: &str) -> (at: usize)
        ensures
            at <= self.entries@.len(),
            sorted(entries_view(self.entries@)),
            ({
                let all = entries_view(self.entries@);
                &&& forall|i: int|
                    0 <= i < at ==> precedes((#[trigger] all[i]).0, destination@) && all[i].0
                        != destination@
                &&& forall|i: int|
                    at < i < all.len() ==> precedes(destination@, (#[trigger] all[i]).0)
                        && all[i].0 != destination@
                &&& at < all.len() ==> all[at as int].0 == destination@ || precedes(
                    destination@,
                    all[at as int].0,
                )
            }),
    {
        proof {
            use_type_invariant(self);
            lemma_precedes(destination@, destination@);
        }
        let ghost all = entries_view(self.entries@);
        let mut at: usize = 0;
        while at < self.entries.len() && comes_before(self.entries[at].0.as_str(), destination)
            invariant
                at <= self.entries@.len(),
                all == entries_view(self.entries@),
                forall|i: int| 0 <= i < at ==> precedes((#[trigger] all[i]).0, destination@),
            decreases self.entries@.len() - at,
        {
            assert(all[at as int].0 == self.entries@[at as int].0@);
            at = at + 1;
        }
        proof {
            if at < all.len() {
                assert(all[at as int].0 == self.entries@[at as int].0@);
                lemma_precedes(all[at as int].0, destination@);
                assert forall|i: int| at < i < all.len() implies precedes(
                    destination@,
                    (#[trigger] all[i]).0,
                ) && all[i].0 != destination@ by {
                    assert(precedes(all[at as int].0, all[i].0));
                    if all[at as int].0 != destination@ {
                        lemma_precedes_on(destination@, all[at as int].0, all[i].0);
                    }
                }
            }
        }
        at
    }

    /// Hold `body` for `destination`, after what is held for it already.
    pub fn push(&mut self, destination: &str, body: &[u8])
        ensures
            final(self)@ == old(self)@.insert(
                destination@,
                queued(old(self)@, destination@).push(body@),
            ),
    {
        let ghost all = entries_view(self.entries@);
        let ghost wanted = self@.insert(destination@, queued(self@, destination@).push(body@));
        let at = self.place(destination);
        let mut entries: Vec<Entry> = Vec::new();
        std::mem::swap(&mut entries, &mut self.entries);
        let known = at < entries.len() && same(entries[at].0.as_str(), destination);
        let ghost held = queued(old(self)@, destination@).push(body@);
        if known {
            proof {
                assert(all[at as int].0 == destination@);
                lemma_lookup_update(all, at as int, held, destination@);
            }
            entries[at].1.push(slice_to_vec(body));
            proof {
                let now = entries_view(entries@);
                assert(now[at as int].1 =~= held);
                assert(now =~= all.update(at as int, (all[at as int].0, held)));
                assert forall|key: Seq<char>| lookup(now, key) == if key == destination@ {
                    Some(held)
                } else {
                    lookup(all, key)
                } by {
                    lemma_lookup_update(all, at as int, held, key);
                }
            }
        } else {
            let mut bodies: Vec<Vec<u8>> = Vec::new();
            bodies.push(slice_to_vec(body));
            proof {
                lemma_lookup_none(all, destination@);
                assert(bodies_view(bodies@) =~= held);
            }
            entries.insert(at, (destination.to_owned(), bodies));
            proof {
                let now = entries_view(entries@);
                assert(now =~= all.insert(at as int, (destination@, held)));
                assert forall|key: Seq<char>| lookup(now, key) == if key == destination@ {
                    Some(held)
                } else {
                    lookup(all, key)
                } by {
                    lemma_lookup_insert(all, at as int, (destination@, held), key);
                }
                assert(sorted(now));
            }
        }
        self.entries = entries;
        assert(self@ =~= wanted);
    }

    /// What is held for `destination`, and hold it no longer.
    pub fn remove(&mut self, destination: &str) -> (bodies: Vec<Vec<u8>>)
        ensures
            bodies_view(bodies@) == queued(old(self)@, destination@),
            final(self)@ == old(self)@.remove(destination@),
    {
        let ghost all = entries_view(self.entries@);
        let at = self.place(destination);
        if at < self.entries.len() && same(self.entries[at].0.as_str(), destination) {
            proof {
                assert(all[at as int].0 == destination@);
                lemma_lookup_update(all, at as int, all[at as int].1, destination@);
            }
            let mut entries: Vec<Entry> = Vec::new();
            std::mem::swap(&mut entries, &mut self.entries);
            let entry = entries.remove(at);
            proof {
                let now = entries_view(entries@);
                assert(now =~= all.remove(at as int));
                assert(sorted(now));
                assert forall|key: Seq<char>| key != destination@ implies #[trigger] lookup(
                    now,
                    key,
                ) == lookup(all, key) by {
                    lemma_lookup_remove(all, at as int, key);
                }
                assert forall|i: int| 0 <= i < now.len() implies (#[trigger] now[i]).0
                    != destination@ by {
                    assert(now[i] == if i < at {
                        all[i]
                    } else {
                        all[i + 1]
                    });
                }
                lemma_lookup_none(now, destination@);
            }
            self.entries = entries;
            assert(self@ =~= old(self)@.remove(destination@));
            return entry.1;
        }
        proof {
            lemma_lookup_none(all, destination@);
            assert(self@ =~= old(self)@.remove(destination@));
        }
        let bodies: Vec<Vec<u8>> = Vec::new();
        assert(bodies_view(bodies@) =~= Seq::<Seq<u8>>::empty());
        bodies
    }
}

} // verus!
