//! What was posted before: by it, repeated reports are dropped and revised ones replace
//! the message they revise.

use serde_json::Value;
use std::collections::hash_map::DefaultHasher;
use std::hash::Hasher;
use vstd::prelude::*;
use vstd::std_specs::hash::*;
use vstd::utf8::*;

use crate::json::{compact_text, json_text, json_view, JsonView};
use crate::text::{holds, same, texts};

verus! {

/// How many reports are remembered.
pub const SEEN_ID_CAPACITY: usize = 256;

/// The newest of a list, as many as are remembered.
pub open spec fn remembered<A>(s: Seq<A>) -> Seq<A> {
    if s.len() > SEEN_ID_CAPACITY {
        s.drop_first()
    } else {
        s
    }
}

/// The reports that were handled, the oldest first.
#[derive(Debug)]
pub struct SeenIds {
    order: Vec<String>,
}

impl View for SeenIds {
    type V = Seq<Seq<char>>;

    closed spec fn view(&self) -> Seq<Seq<char>> {
        texts(self.order@)
    }
}

/// The list of handled reports with one more, if it is not among them.
pub open spec fn with_mark(seen: Seq<Seq<char>>, id: Seq<char>) -> Seq<Seq<char>> {
    if seen.contains(id) {
        seen
    } else {
        remembered(seen.push(id))
    }
}

impl SeenIds {
    /// No report is remembered twice, nor more of them than there is room for.
    pub open spec fn wf(self) -> bool {
        self@.no_duplicates() && self@.len() <= SEEN_ID_CAPACITY
    }

    /// Nothing was handled yet.
    pub fn new() -> (r: Self)
        ensures
            r.wf(),
            r@ == Seq::<Seq<char>>::empty(),
    {
        let r = SeenIds { order: Vec::new() };
        assert(r@ =~= Seq::<Seq<char>>::empty());
        r
    }

    /// How many reports are remembered.
    pub fn len(&self) -> (r: usize)
        ensures
            r == self@.len(),
    {
        self.order.len()
    }

    /// Whether a report is remembered.
    pub fn contains(&self, id: &str) -> (r: bool)
        ensures
            r == self@.contains(id@),
    {
        holds(&self.order, id)
    }

    /// Remembers a report; the oldest one makes room.
    pub fn mark(&mut self, id: &str)
        requires
            old(self).wf(),
        ensures
            final(self).wf(),
            final(self)@ == with_mark(old(self)@, id@),
    {
        if self.contains(id) {
            return;
        }
        let ghost before = self@;
        self.order.push(id.to_owned());
        assert(self@ =~= before.push(id@));
        proof {
            lemma_push_no_duplicates(before, id@);
        }
        if self.order.len() > SEEN_ID_CAPACITY {
            let ghost full = self@;
            let _ = self.order.remove(0);
            assert(self@ =~= full.drop_first());
        }
    }
}

pub(crate) proof fn lemma_push_no_duplicates<A>(s: Seq<A>, x: A)
    requires
        s.no_duplicates(),
        !s.contains(x),
    ensures
        s.push(x).no_duplicates(),
        s.push(x).drop_first().no_duplicates(),
{
    let t = s.push(x);
    assert forall|i: int, j: int| 0 <= i < t.len() && 0 <= j < t.len() && i != j implies t[i]
        != t[j] by {
        if i < s.len() && j < s.len() {
        } else if i < s.len() {
            assert(s.contains(s[i]));
        } else {
            assert(s.contains(s[j]));
        }
    }
}

/// A report that was marked is remembered, and at least the 255 reports marked before it
/// are remembered too.
pub proof fn lemma_marked_is_remembered(seen: Seq<Seq<char>>, id: Seq<char>, earlier: Seq<char>)
    requires
        seen.len() <= SEEN_ID_CAPACITY,
    ensures
        with_mark(seen, id).contains(id),
        with_mark(seen, id).len() <= SEEN_ID_CAPACITY,
        seen.contains(earlier) && earlier != seen[0] ==> with_mark(seen, id).contains(earlier),
        seen.len() < SEEN_ID_CAPACITY && seen.contains(earlier) ==> with_mark(seen, id).contains(
            earlier,
        ),
{
    if !seen.contains(id) {
        let t = seen.push(id);
        assert(t[seen.len() as int] == id);
        if t.len() > SEEN_ID_CAPACITY {
            assert(t.drop_first()[seen.len() - 1] == id);
        }
        if seen.contains(earlier) {
            let i = choose|i: int| 0 <= i < seen.len() && seen[i] == earlier;
            assert(t[i] == earlier);
            if t.len() > SEEN_ID_CAPACITY && earlier != seen[0] {
                assert(t.drop_first()[i - 1] == earlier);
            }
        }
    }
}

/// A posted message.
#[derive(Debug)]
pub struct QuakePost {
    /// The signature of what it shows.
    pub signature: u64,
    /// Its ID at Discord.
    pub message_id: String,
}

/// The messages posted about one earthquake.
#[derive(Debug)]
pub struct QuakeEntry {
    /// That of the prompt report.
    pub prompt: Option<QuakePost>,
    /// That of the detailed reports.
    pub detail: Option<QuakePost>,
}

/// The messages posted about earthquakes, by the time of the earthquake, the oldest first.
#[derive(Debug)]
pub struct QuakeTracker {
    entries: Vec<(String, QuakeEntry)>,
}

/// Where a key stands in a list.
pub open spec fn position<K, V>(entries: Seq<(K, V)>, key: K) -> Option<int>
    decreases entries.len(),
{
    if entries.len() == 0 {
        None
    } else if entries[0].0 == key {
        Some(0)
    } else {
        match position(entries.drop_first(), key) {
            Some(i) => Some(i + 1),
            None => None,
        }
    }
}

/// The value under a key.
pub open spec fn value_of<K, V>(entries: Seq<(K, V)>, key: K) -> Option<V> {
    match position(entries, key) {
        Some(i) => Some(entries[i].1),
        None => None,
    }
}

/// A key stands where it is found, and nowhere before.
pub proof fn lemma_position<K, V>(entries: Seq<(K, V)>, key: K)
    ensures
        match position(entries, key) {
            Some(i) => {
                &&& 0 <= i < entries.len()
                &&& entries[i].0 == key
                &&& forall|j: int| 0 <= j < i ==> (#[trigger] entries[j]).0 != key
            },
            None => forall|j: int| 0 <= j < entries.len() ==> (#[trigger] entries[j]).0 != key,
        },
    decreases entries.len(),
{
    if entries.len() > 0 && entries[0].0 != key {
        let rest = entries.drop_first();
        lemma_position(rest, key);
        assert forall|j: int| 1 <= j < entries.len() implies #[trigger] entries[j] == rest[j - 1] by {}
    }
}

impl View for QuakeTracker {
    type V = Seq<(Seq<char>, QuakeEntry)>;

    closed spec fn view(&self) -> Seq<(Seq<char>, QuakeEntry)> {
        Seq::new(self.entries@.len(), |i: int| (self.entries@[i].0@, self.entries@[i].1))
    }
}

/// The keys of a list.
pub open spec fn keys<K, V>(entries: Seq<(K, V)>) -> Seq<K> {
    Seq::new(entries.len(), |i: int| entries[i].0)
}

impl QuakeTracker {
    /// No earthquake has two entries, nor are there more of them than there is room for.
    pub open spec fn wf(self) -> bool {
        keys(self@).no_duplicates() && self@.len() <= SEEN_ID_CAPACITY
    }

    /// What was posted about an earthquake.
    pub open spec fn lookup(self, key: Seq<char>) -> Option<QuakeEntry> {
        value_of(self@, key)
    }

    /// Nothing was posted yet.
    pub fn new() -> (r: Self)
        ensures
            r.wf(),
            r@ == Seq::<(Seq<char>, QuakeEntry)>::empty(),
    {
        let r = QuakeTracker { entries: Vec::new() };
        assert(r@ =~= Seq::<(Seq<char>, QuakeEntry)>::empty());
        r
    }

    /// How many earthquakes are remembered.
    pub fn len(&self) -> (r: usize)
        ensures
            r == self@.len(),
    {
        self.entries.len()
    }

    fn find(&self, key: &str) -> (r: Option<usize>)
        ensures
            match r {
                Some(i) => position(self@, key@) == Some(i as int) && i < self@.len(),
                None => position(self@, key@) is None,
            },
    {
        proof {
            lemma_position(self@, key@);
        }
        for i in 0..self.entries.len()
            invariant
                forall|j: int| 0 <= j < i ==> (#[trigger] self@[j]).0 != key@,
                match position(self@, key@) {
                    Some(i) => {
                        &&& 0 <= i < self@.len()
                        &&& self@[i].0 == key@
                        &&& forall|j: int| 0 <= j < i ==> (#[trigger] self@[j]).0 != key@
                    },
                    None => forall|j: int| 0 <= j < self@.len() ==> (#[trigger] self@[j]).0
                        != key@,
                },
        {
            assert(self@[i as int].0 == self.entries@[i as int].0@);
            if same(self.entries[i].0.as_str(), key) {
                return Some(i);
            }
        }
        None
    }

    /// Whether an earthquake is remembered.
    pub fn contains_key(&self, key: &str) -> (r: bool)
        ensures
            r == self.lookup(key@) is Some,
    {
        self.find(key).is_some()
    }

    /// The entry of an earthquake: the one that it has, or a new blank one, for which the
    /// oldest makes room.
    pub fn entry(&mut self, key: &str) -> (r: &mut QuakeEntry)
        requires
            old(self).wf(),
        ensures
            final(self).wf(),
            ({
                let kept = with_entry(old(self)@, key@);
                let i = position(kept, key@)->0;
                &&& position(kept, key@) is Some
                &&& 0 <= i < kept.len()
                &&& *r == kept[i].1
                &&& final(self)@ == kept.update(i, (key@, *final(r)))
            }),
    {
        let ghost before = self@;
        proof {
            lemma_position(before, key@);
        }
        let i: usize = match self.find(key) {
            Some(i) => i,
            None => {
                let blank = QuakeEntry { prompt: None, detail: None };
                self.entries.push((key.to_owned(), blank));
                proof {
                    assert(self@ =~= before.push((key@, blank)));
                    assert(keys(self@) =~= keys(before).push(key@));
                    assert forall|j: int| 0 <= j < keys(before).len() implies keys(before)[j]
                        != key@ by {
                        assert(keys(before)[j] == before[j].0);
                    }
                    lemma_push_no_duplicates(keys(before), key@);
                    assert(blank == blank_entry());
                }
                if self.entries.len() > SEEN_ID_CAPACITY {
                    let ghost full = self@;
                    let _ = self.entries.remove(0);
                    assert(self@ =~= full.drop_first());
                    assert(keys(self@) =~= keys(full).drop_first());
                }
                self.entries.len() - 1
            },
        };
        proof {
            lemma_position(self@, key@);
            assert(self@[i as int].0 == key@);
            let p = position(self@, key@)->0;
            assert(keys(self@)[p] == key@);
            assert(keys(self@)[i as int] == key@);
        }
        let ghost kept = self@;
        assert forall|s: Seq<(Seq<char>, QuakeEntry)>|
            s.len() == kept.len() && (forall|j: int| 0 <= j < s.len() ==> (#[trigger] s[j]).0
                == kept[j].0) implies #[trigger] keys(s) == keys(kept) by {
            assert(keys(s) =~= keys(kept));
        }
        let slot = &mut self.entries[i];
        &mut slot.1
    }
}

/// An entry without messages.
pub open spec fn blank_entry() -> QuakeEntry {
    QuakeEntry { prompt: None, detail: None }
}

/// The entries with one for an earthquake; the oldest makes room for a new one.
pub open spec fn with_entry(
    entries: Seq<(Seq<char>, QuakeEntry)>,
    key: Seq<char>,
) -> Seq<(Seq<char>, QuakeEntry)> {
    if position(entries, key) is Some {
        entries
    } else {
        remembered(entries.push((key, blank_entry())))
    }
}

/// An earthquake has an entry once it was asked for.
pub proof fn lemma_with_entry(tracker: QuakeTracker, key: Seq<char>)
    requires
        tracker.wf(),
    ensures
        ({
            let kept = with_entry(tracker@, key);
            &&& keys(kept).no_duplicates()
            &&& kept.len() <= SEEN_ID_CAPACITY
            &&& position(kept, key) matches Some(i) && 0 <= i < kept.len() && kept[i].0 == key
        }),
{
    let entries = tracker@;
    lemma_position(entries, key);
    if position(entries, key) is None {
        let longer = entries.push((key, blank_entry()));
        assert(keys(longer) =~= keys(entries).push(key));
        assert forall|j: int| 0 <= j < keys(entries).len() implies keys(entries)[j] != key by {
            assert(keys(entries)[j] == entries[j].0);
        }
        lemma_push_no_duplicates(keys(entries), key);
        let kept = remembered(longer);
        assert(kept.last().0 == key);
        if longer.len() > SEEN_ID_CAPACITY {
            assert(keys(kept) =~= keys(longer).drop_first());
        }
        lemma_only_position(kept, kept.len() - 1);
    }
}

/// The messages posted about early warnings, by the event.
#[derive(Debug)]
pub struct EewTracker {
    posts: Vec<(String, QuakePost)>,
    order: Vec<String>,
}

/// The entries without that of a key.
pub open spec fn without<V>(entries: Seq<(Seq<char>, V)>, key: Seq<char>) -> Seq<
    (Seq<char>, V),
> {
    match position(entries, key) {
        Some(i) => entries.remove(i),
        None => entries,
    }
}

/// The entries with a new value under a key, in its place or at the end.
pub open spec fn with_value<V>(entries: Seq<(Seq<char>, V)>, key: Seq<char>, v: V) -> Seq<
    (Seq<char>, V),
> {
    match position(entries, key) {
        Some(i) => entries.update(i, (key, v)),
        None => entries.push((key, v)),
    }
}

/// The posts after a message was replaced: it shows something else, and its ID stays.
pub open spec fn posts_after_edit(
    posts: Seq<(Seq<char>, QuakePost)>,
    event_id: Seq<char>,
    signature: u64,
) -> Seq<(Seq<char>, QuakePost)> {
    match position(posts, event_id) {
        Some(i) => posts.update(
            i,
            (event_id, QuakePost { signature, message_id: posts[i].1.message_id }),
        ),
        None => posts,
    }
}

/// The posts after one was inserted, where `order` holds the insertions before it: that of the
/// oldest insertion makes room.
pub open spec fn posts_after_insert(
    posts: Seq<(Seq<char>, QuakePost)>,
    order: Seq<Seq<char>>,
    event_id: Seq<char>,
    post: QuakePost,
) -> Seq<(Seq<char>, QuakePost)> {
    let more = with_value(posts, event_id, post);
    if order.len() + 1 > SEEN_ID_CAPACITY {
        without(more, order.push(event_id)[0])
    } else {
        more
    }
}

impl EewTracker {
    /// The posts by event, in the order in which the events came.
    pub closed spec fn posts(self) -> Seq<(Seq<char>, QuakePost)> {
        Seq::new(self.posts@.len(), |i: int| (self.posts@[i].0@, self.posts@[i].1))
    }

    /// The events in the order of their insertions, the oldest first.
    pub closed spec fn order(self) -> Seq<Seq<char>> {
        texts(self.order@)
    }

    /// The message posted about an event.
    pub open spec fn lookup(self, event_id: Seq<char>) -> Option<QuakePost> {
        value_of(self.posts(), event_id)
    }

    /// No event has two posts, every post was inserted, and there are no more insertions
    /// remembered than there is room for.
    pub open spec fn wf(self) -> bool {
        &&& keys(self.posts()).no_duplicates()
        &&& self.order().len() <= SEEN_ID_CAPACITY
        &&& forall|i: int|
            0 <= i < self.posts().len() ==> self.order().contains(
                (#[trigger] self.posts()[i]).0,
            )
    }

    /// Nothing was posted yet.
    pub fn new() -> (r: Self)
        ensures
            r.wf(),
            r.posts().len() == 0,
            r.order().len() == 0,
    {
        EewTracker { posts: Vec::new(), order: Vec::new() }
    }

    /// How many events have a post.
    pub fn len(&self) -> (r: usize)
        ensures
            r == self.posts().len(),
    {
        self.posts.len()
    }

    fn find(&self, key: &str) -> (r: Option<usize>)
        ensures
            match r {
                Some(i) => position(self.posts(), key@) == Some(i as int) && i
                    < self.posts().len(),
                None => position(self.posts(), key@) is None,
            },
    {
        proof {
            lemma_position(self.posts(), key@);
        }
        for i in 0..self.posts.len()
            invariant
                forall|j: int| 0 <= j < i ==> (#[trigger] self.posts()[j]).0 != key@,
                match position(self.posts(), key@) {
                    Some(i) => {
                        &&& 0 <= i < self.posts().len()
                        &&& self.posts()[i].0 == key@
                        &&& forall|j: int| 0 <= j < i ==> (#[trigger] self.posts()[j]).0 != key@
                    },
                    None => forall|j: int|
                        0 <= j < self.posts().len() ==> (#[trigger] self.posts()[j]).0 != key@,
                },
        {
            assert(self.posts()[i as int].0 == self.posts@[i as int].0@);
            if same(self.posts[i].0.as_str(), key) {
                return Some(i);
            }
        }
        None
    }

    /// Whether a message was posted about an event. Only then is a withdrawal announced.
    pub fn contains(&self, event_id: &str) -> (r: bool)
        ensures
            r == self.lookup(event_id@) is Some,
    {
        self.find(event_id).is_some()
    }

    /// The ID and the signature of the message posted about an event.
    pub fn posted(&self, event_id: &str) -> (r: Option<(String, u64)>)
        ensures
            match r {
                Some((message_id, signature)) => {
                    &&& self.lookup(event_id@) is Some
                    &&& message_id@ == self.lookup(event_id@)->0.message_id@
                    &&& signature == self.lookup(event_id@)->0.signature
                },
                None => self.lookup(event_id@) is None,
            },
    {
        match self.find(event_id) {
            Some(i) => Some((self.posts[i].1.message_id.clone(), self.posts[i].1.signature)),
            None => None,
        }
    }

    /// Notes what a replaced message shows now. Its ID stays.
    pub fn update_signature(&mut self, event_id: &str, signature: u64)
        requires
            old(self).wf(),
        ensures
            final(self).wf(),
            final(self).order() == old(self).order(),
            final(self).posts() == posts_after_edit(old(self).posts(), event_id@, signature),
    {
        let ghost before = self.posts();
        let ghost order = self.order();
        proof {
            lemma_position(before, event_id@);
        }
        match self.find(event_id) {
            Some(i) => {
                let ghost kept = before[i as int].1.message_id;
                self.posts[i].1.signature = signature;
                proof {
                    assert(self.order() =~= order);
                    assert(self.posts() =~= before.update(
                        i as int,
                        (event_id@, QuakePost { signature, message_id: kept }),
                    ));
                    assert(keys(self.posts()) =~= keys(before));
                    assert forall|j: int| 0 <= j < self.posts().len() implies self.order().contains(
                        (#[trigger] self.posts()[j]).0,
                    ) by {
                        assert(order.contains(before[j].0));
                    }
                }
            },
            None => {},
        }
    }

    /// Remembers a posted message; the oldest insertion makes room.
    pub fn insert(&mut self, event_id: &str, post: QuakePost)
        requires
            old(self).wf(),
        ensures
            final(self).wf(),
            final(self).order() == remembered(old(self).order().push(event_id@)),
            final(self).posts() == posts_after_insert(
                old(self).posts(),
                old(self).order(),
                event_id@,
                post,
            ),
    {
        let ghost before = self.posts();
        let ghost order = self.order();
        proof {
            lemma_position(before, event_id@);
        }
        match self.find(event_id) {
            Some(i) => {
                self.posts[i].1 = post;
                assert(self.posts() =~= before.update(i as int, (event_id@, post)));
                assert(keys(self.posts()) =~= keys(before));
            },
            None => {
                self.posts.push((event_id.to_owned(), post));
                proof {
                    assert(self.posts() =~= before.push((event_id@, post)));
                    assert(keys(self.posts()) =~= keys(before).push(event_id@));
                    assert forall|j: int| 0 <= j < keys(before).len() implies keys(before)[j]
                        != event_id@ by {
                        assert(keys(before)[j] == before[j].0);
                    }
                    lemma_push_no_duplicates(keys(before), event_id@);
                }
            },
        }
        self.order.push(event_id.to_owned());
        let ghost longer = order.push(event_id@);
        let ghost posts = self.posts();
        proof {
            assert(self.order() =~= longer);
            assert forall|j: int| 0 <= j < posts.len() implies longer.contains(
                (#[trigger] posts[j]).0,
            ) by {
                if posts[j].0 == event_id@ {
                    assert(longer[order.len() as int] == event_id@);
                } else {
                    assert(posts[j].0 == before[j].0);
                    let k = choose|k: int| 0 <= k < order.len() && order[k] == before[j].0;
                    assert(order.contains(before[j].0));
                    assert(longer[k] == before[j].0);
                }
            }
        }
        if self.order.len() > SEEN_ID_CAPACITY {
            let oldest = self.order.remove(0);
            proof {
                assert(self.posts() == posts);
                assert(oldest@ == longer[0]);
                assert(self.order() =~= longer.drop_first());
                lemma_position(posts, oldest@);
            }
            match self.find(oldest.as_str()) {
                Some(i) => {
                    let _ = self.posts.remove(i);
                    proof {
                        assert(self.posts() =~= posts.remove(i as int));
                        assert(self.order() =~= longer.drop_first());
                        lemma_without(posts, oldest@);
                        assert(keys(self.posts()) =~= keys(posts).remove(i as int));
                    }
                },
                None => {},
            }
            proof {
                assert forall|j: int| 0 <= j < self.posts().len() implies self.order().contains(
                    (#[trigger] self.posts()[j]).0,
                ) by {
                    lemma_without(posts, oldest@);
                    let key = self.posts()[j].0;
                    assert(key != oldest@);
                    assert(longer.contains(key));
                    let k = choose|k: int| 0 <= k < longer.len() && longer[k] == key;
                    assert(longer.drop_first()[k - 1] == key);
                }
            }
        }
    }
}

/// Taking out a key leaves no entry of that key, and the other entries.
proof fn lemma_without<V>(entries: Seq<(Seq<char>, V)>, key: Seq<char>)
    requires
        keys(entries).no_duplicates(),
    ensures
        forall|j: int|
            0 <= j < without(entries, key).len() ==> (#[trigger] without(entries, key)[j]).0 != key
                && entries.contains(without(entries, key)[j]),
        keys(without(entries, key)).no_duplicates(),
{
    lemma_position(entries, key);
    let rest = without(entries, key);
    match position(entries, key) {
        Some(i) => {
            assert forall|j: int| 0 <= j < rest.len() implies (#[trigger] rest[j]).0 != key
                && entries.contains(rest[j]) by {
                let k = if j < i {
                    j
                } else {
                    j + 1
                };
                assert(rest[j] == entries[k]);
                assert(keys(entries)[k] == entries[k].0);
                assert(keys(entries)[i] == key);
            }
            assert forall|a: int, b: int| 0 <= a < rest.len() && 0 <= b < rest.len() && a
                != b implies keys(rest)[a] != keys(rest)[b] by {
                let x = if a < i {
                    a
                } else {
                    a + 1
                };
                let y = if b < i {
                    b
                } else {
                    b + 1
                };
                assert(keys(rest)[a] == keys(entries)[x]);
                assert(keys(rest)[b] == keys(entries)[y]);
            }
        },
        None => {
            assert forall|j: int| 0 <= j < rest.len() implies (#[trigger] rest[j]).0 != key
                && entries.contains(rest[j]) by {
                assert(rest[j] == entries[j]);
            }
        },
    }
}

/// Where the keys differ, a key stands at the only place that holds it.
pub proof fn lemma_only_position<K, V>(entries: Seq<(K, V)>, i: int)
    requires
        keys(entries).no_duplicates(),
        0 <= i < entries.len(),
    ensures
        position(entries, entries[i].0) == Some(i),
{
    let key = entries[i].0;
    lemma_position(entries, key);
    let j = position(entries, key)->0;
    assert(keys(entries)[i] == key);
    assert(keys(entries)[j] == key);
}

/// A message that was posted about an event for the first time is found under it, and so is
/// what it shows after it was replaced. Posts about other events stay, but for the one that
/// makes room.
pub proof fn lemma_posted_warning_is_found(
    tracker: EewTracker,
    event_id: Seq<char>,
    post: QuakePost,
    signature: u64,
    other: Seq<char>,
)
    requires
        tracker.wf(),
        !tracker.order().contains(event_id),
        other != event_id,
    ensures
        ({
            let inserted = posts_after_insert(
                tracker.posts(),
                tracker.order(),
                event_id,
                post,
            );
            let edited = posts_after_edit(inserted, event_id, signature);
            &&& value_of(inserted, event_id) == Some(post)
            &&& value_of(edited, event_id) == Some(
                QuakePost { signature, message_id: post.message_id },
            )
            &&& tracker.order().len() < SEEN_ID_CAPACITY || other != tracker.order()[0]
                ==> value_of(edited, other) == tracker.lookup(other)
        }),
{
    let posts = tracker.posts();
    let order = tracker.order();
    lemma_position(posts, event_id);
    if position(posts, event_id) is Some {
        assert(order.contains(posts[position(posts, event_id)->0].0));
    }
    let more = with_value(posts, event_id, post);
    assert(more =~= posts.push((event_id, post)));
    assert(keys(more) =~= keys(posts).push(event_id));
    assert forall|j: int| 0 <= j < keys(posts).len() implies keys(posts)[j] != event_id by {
        assert(keys(posts)[j] == posts[j].0);
    }
    lemma_push_no_duplicates(keys(posts), event_id);
    lemma_only_position(more, posts.len() as int);
    assert(more.drop_last() =~= posts);
    lemma_value_kept(posts, more, other);
    let inserted = posts_after_insert(posts, order, event_id, post);
    if order.len() + 1 > SEEN_ID_CAPACITY {
        let oldest = order.push(event_id)[0];
        assert(oldest == order[0]);
        assert(order.contains(oldest));
        lemma_without(more, oldest);
        lemma_value_without(more, oldest, event_id);
        if other != oldest {
            lemma_value_without(more, oldest, other);
        }
    }
    lemma_position(inserted, event_id);
    let at = position(inserted, event_id)->0;
    let edited = posts_after_edit(inserted, event_id, signature);
    assert(keys(edited) =~= keys(inserted));
    lemma_only_position(edited, at);
    lemma_value_updated(inserted, edited, at, other);
}

/// One more entry at the end leaves the values under other keys as they are.
pub(crate) proof fn lemma_value_kept<V>(
    entries: Seq<(Seq<char>, V)>,
    more: Seq<(Seq<char>, V)>,
    key: Seq<char>,
)
    requires
        more.len() == entries.len() + 1,
        more.drop_last() == entries,
        more.last().0 != key,
    ensures
        value_of(more, key) == value_of(entries, key),
    decreases entries.len(),
{
    assert forall|j: int| 0 <= j < entries.len() implies entries[j] == #[trigger] more[j] by {}
    if entries.len() == 0 {
        assert(more.drop_first() =~= entries);
    } else if entries[0].0 != key {
        assert(more.drop_first().drop_last() =~= entries.drop_first());
        lemma_value_kept(entries.drop_first(), more.drop_first(), key);
        lemma_position(entries.drop_first(), key);
        lemma_position(more.drop_first(), key);
    }
}

/// Taking out a key leaves the values under other keys as they are.
proof fn lemma_value_without<V>(entries: Seq<(Seq<char>, V)>, gone: Seq<char>, key: Seq<char>)
    requires
        keys(entries).no_duplicates(),
        key != gone,
    ensures
        value_of(without(entries, gone), key) == value_of(entries, key),
{
    let rest = without(entries, gone);
    lemma_without(entries, gone);
    lemma_position(entries, gone);
    lemma_position(entries, key);
    lemma_position(rest, key);
    match position(entries, gone) {
        Some(g) => {
            match position(entries, key) {
                Some(i) => {
                    let j = if i < g {
                        i
                    } else {
                        i - 1
                    };
                    assert(rest[j] == entries[i]);
                    lemma_only_position(rest, j);
                },
                None => {
                    if position(rest, key) is Some {
                        let j = position(rest, key)->0;
                        assert(entries.contains(rest[j]));
                        let i = choose|i: int| 0 <= i < entries.len() && entries[i] == rest[j];
                        assert(entries[i].0 == key);
                    }
                },
            }
        },
        None => {},
    }
}

/// A new value in one place leaves the values under other keys as they are.
pub(crate) proof fn lemma_value_updated<V>(
    a: Seq<(Seq<char>, V)>,
    b: Seq<(Seq<char>, V)>,
    at: int,
    key: Seq<char>,
)
    requires
        a.len() == b.len(),
        0 <= at < a.len(),
        a[at].0 == b[at].0,
        key != a[at].0,
        forall|j: int| 0 <= j < a.len() && j != at ==> a[j] == b[j],
    ensures
        value_of(b, key) == value_of(a, key),
{
    lemma_position(a, key);
    lemma_position(b, key);
    match position(a, key) {
        Some(i) => {
            assert(b[i] == a[i]);
            let j = position(b, key)->0;
            assert(a[j].0 == b[j].0);
        },
        None => {
            if position(b, key) is Some {
                let j = position(b, key)->0;
                assert(a[j].0 == b[j].0);
            }
        },
    }
}

/// There are never more posts than there is room for.
pub proof fn lemma_eew_tracker_bounded(tracker: EewTracker)
    requires
        tracker.wf(),
    ensures
        tracker.posts().len() <= SEEN_ID_CAPACITY,
{
    let k = keys(tracker.posts());
    let order = tracker.order();
    assert forall|i: int| 0 <= i < k.len() implies order.contains(#[trigger] k[i]) by {
        assert(k[i] == tracker.posts()[i].0);
    }
    k.unique_seq_to_set();
    order.lemma_cardinality_of_set();
    assert(k.to_set().subset_of(order.to_set()));
    vstd::set_lib::lemma_len_subset(k.to_set(), order.to_set());
}

/// The signature of a payload: a hash of its compact text.
pub open spec fn signature(payload: JsonView) -> u64 {
    DefaultHasher::spec_finish(seq![encode_utf8(json_text(payload)), seq![0xffu8]])
}

/// Computes the signature of a payload. Everything that is shown goes into it.
pub fn signature_of(payload: &Value) -> (r: u64)
    ensures
        r == signature(json_view(*payload)),
{
    let text = compact_text(payload);
    let mut hasher = DefaultHasher::new();
    let end: [u8; 1] = [0xff];
    hasher.write(text.as_str().as_bytes());
    hasher.write(&end);
    assert(hasher@ =~= seq![encode_utf8(text@), seq![0xffu8]]) by {
        assert(end@ =~= seq![0xffu8]);
    }
    hasher.finish()
}

} // verus!
